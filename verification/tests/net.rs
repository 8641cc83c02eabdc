use conc_bug_detector::concurrency::atomic::AtomicOrdering;
use conc_bug_detector::display::petri_net_to_dot;
use conc_bug_detector::memory::pointsto::AliasId;
use conc_bug_detector::net::state_graph::{tokens_of, StateEdge, StateGraph, StateNode};
use conc_bug_detector::net::structure::{
    PlaceType, PtNet, PtPlace, PtTransition, TransitionType, UnsafeOp,
};
use conc_bug_detector::text::{contains, index_text, join, starts_with, text_before};

fn small_net() -> PtNet {
    let mut net = PtNet::empty();
    let p = net.add_place(PtPlace {
        name: "main_0".to_string(),
        tokens: 1,
        capacity: Some(1),
        place_type: PlaceType::BasicBlock,
        span: "a.rs:1:1".to_string(),
    });
    let lock = net.add_place(PtPlace {
        name: "Mutex_0".to_string(),
        tokens: 1,
        capacity: None,
        place_type: PlaceType::Resources,
        span: String::new(),
    });
    let t = net.add_transition(PtTransition {
        name: "main_0_lock".to_string(),
        transition_type: TransitionType::Lock(lock),
    });
    net.add_input_arc(p, t, 1);
    net.add_input_arc(lock, t, 2);
    net.add_output_arc(p, t, 1);
    net
}

#[test]
fn weights_add_up() {
    let mut net = small_net();
    assert_eq!(net.input_weight(1, 0), 2);
    net.add_input_arc(1, 0, 3);
    assert_eq!(net.input_weight(1, 0), 5);
    assert_eq!(net.output_weight(1, 0), 0);
    net.add_input_arc(1, 0, u64::MAX);
    assert_eq!(net.input_weight(1, 0), u64::MAX);
}

#[test]
fn transition_types_can_be_replaced() {
    let mut net = small_net();
    net.set_transition_type(0, TransitionType::Unlock(1));
    assert_eq!(net.transitions[0].transition_type.debug_text(), "Unlock(1)");
    assert_eq!(net.transitions[0].name, "main_0_lock");
}

#[test]
fn nets_are_printed_as_graphs() {
    let dot = petri_net_to_dot(&small_net());
    assert!(dot.starts_with("digraph"));
    assert!(dot.contains("p0 [label=\"main_0\\nBasicBlock\\n1\", shape=circle];"));
    assert!(dot.contains("p1 [label=\"Mutex_0\\nResources\\ninf\", shape=circle];"));
    assert!(dot.contains("t0"));
    assert!(dot.contains("p0 -> t0"));
    assert!(dot.contains("t0 -> p0"));
    assert!(dot.trim_end().ends_with('}'));
}

#[test]
fn transition_types_are_printed() {
    let alias = AliasId { instance_id: 3, local: 5, array_index: Some(1), field: Some(2) };
    assert_eq!(
        TransitionType::AtomicStore(alias, AtomicOrdering::SeqCst, "a \"b\"".to_string(), 4)
            .debug_text(),
        "AtomicStore(AliasId { instance_id: NodeIndex(3), local: _5, array_index: Some(1), \
         field: Some(2) }, SeqCst, \"a \\\"b\\\"\", 4)"
    );
    assert_eq!(TransitionType::Spawn("worker".to_string()).debug_text(), "Spawn(\"worker\")");
    let op = UnsafeOp {
        alias: 1,
        is_write: true,
        span: "x".to_string(),
        basic_block: 2,
        ty: "*mut u8".to_string(),
    };
    assert_eq!(
        TransitionType::UnsafeAccess(vec![op]).debug_text(),
        "UnsafeAccess([UnsafeOp { alias: 1, is_write: true, span: \"x\", basic_block: 2, \
         ty: \"*mut u8\" }])"
    );
}

#[test]
fn state_graphs_list_the_latest_edge_first() {
    let node = |index: usize| StateNode {
        index,
        marking: vec![2, 0],
        places: Vec::new(),
        enabled: Vec::new(),
        fireable: Vec::new(),
    };
    let arrow = |source: usize, target: usize| StateEdge {
        source,
        target,
        transition: 0,
        name: String::new(),
        transition_type: TransitionType::Goto,
        changes: Vec::new(),
    };
    let mut graph = StateGraph::new(node(0), None);
    assert_eq!(graph.add_state(node(1)), 1);
    assert_eq!(graph.add_state(node(2)), 2);
    assert_eq!(graph.add_edge(arrow(0, 1)), 0);
    assert_eq!(graph.add_edge(arrow(1, 0)), 1);
    assert_eq!(graph.add_edge(arrow(0, 2)), 2);
    assert_eq!(graph.node_count(), 3);
    assert_eq!(graph.edge_count(), 3);
    assert_eq!(graph.edges_of(0), vec![(2, 2), (1, 0)]);
    assert_eq!(graph.edges_of(1), vec![(0, 1)]);
    assert!(graph.edges_of(2).is_empty());
    assert_eq!(tokens_of(&graph.states[0].marking, 0), 2);
    assert_eq!(tokens_of(&graph.states[0].marking, 9), 0);
}

#[test]
fn graphs_are_built_from_parts_that_fit() {
    let nodes = |count: usize| -> Vec<StateNode> {
        (0..count)
            .map(|index| StateNode {
                index,
                marking: Vec::new(),
                places: Vec::new(),
                enabled: Vec::new(),
                fireable: Vec::new(),
            })
            .collect()
    };
    let arrow = |source: usize, target: usize| StateEdge {
        source,
        target,
        transition: 0,
        name: String::new(),
        transition_type: TransitionType::Goto,
        changes: Vec::new(),
    };
    let edges = || vec![arrow(0, 1), arrow(1, 0), arrow(0, 2)];
    let graph = StateGraph::from_parts(nodes(3), edges(), 1, None).unwrap();
    assert_eq!(graph.node_count(), 3);
    assert_eq!(graph.edge_count(), 3);
    assert_eq!(graph.initial, 1);
    assert_eq!(graph.edges_of(0), vec![(2, 2), (1, 0)]);
    assert_eq!(graph.edges_of(1), vec![(0, 1)]);
    assert!(StateGraph::from_parts(nodes(2), edges(), 1, None).is_none());
    assert!(StateGraph::from_parts(nodes(3), edges(), 3, None).is_none());
    assert!(StateGraph::from_parts(nodes(1), vec![arrow(1, 0)], 0, None).is_none());
    assert!(StateGraph::from_parts(nodes(0), Vec::new(), 0, None).is_none());
    assert!(StateGraph::from_parts(nodes(1), Vec::new(), 0, Some(small_net())).is_some());
}

#[test]
fn texts_are_searched_and_joined() {
    assert!(contains("parking_lot::MutexGuard", "MutexGuard"));
    assert!(!contains("Mutex", "MutexGuard"));
    assert!(contains("abc", ""));
    assert!(starts_with("std::sync", "std"));
    assert!(!starts_with("std", "std::sync"));
    assert_eq!(text_before("Guard<T>", '<'), "Guard");
    assert_eq!(text_before("Guard", '<'), "Guard");
    assert_eq!(index_text(0), "0");
    assert_eq!(index_text(1_203), "1203");
    assert_eq!(join(&vec!["a".to_string(), "b".to_string()], ", "), "a, b");
    assert_eq!(join(&Vec::new(), ", "), "");
}

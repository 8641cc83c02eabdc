use conc_bug_detector::concurrency::atomic::AtomicOrdering;
use conc_bug_detector::detect::atomicity_violation::{
    parse_event, AtomicityViolationDetector, EvKind,
};
use conc_bug_detector::memory::pointsto::AliasId;
use conc_bug_detector::net::state_graph::{StateEdge, StateGraph, StateNode};
use conc_bug_detector::net::structure::{
    PlaceType, PtNet, PtPlace, PtTransition, TransitionType,
};
use conc_bug_detector::report::AtomicReport;

fn state(index: usize) -> StateNode {
    StateNode {
        index,
        marking: vec![1],
        places: Vec::new(),
        enabled: Vec::new(),
        fireable: Vec::new(),
    }
}

fn edge(source: usize, target: usize, transition: usize, transition_type: TransitionType) -> StateEdge {
    StateEdge {
        source,
        target,
        transition,
        name: format!("t{}", transition),
        transition_type,
        changes: Vec::new(),
    }
}

fn load(local: usize, span: &str, tid: usize) -> TransitionType {
    TransitionType::AtomicLoad(
        AliasId::new(0, local),
        AtomicOrdering::Acquire,
        span.to_string(),
        tid,
    )
}

fn store(local: usize, span: &str, tid: usize) -> TransitionType {
    TransitionType::AtomicStore(
        AliasId::new(0, local),
        AtomicOrdering::Release,
        span.to_string(),
        tid,
    )
}

/// States in a row, with one operation from each to the next.
fn chain(operations: Vec<TransitionType>) -> StateGraph {
    let mut graph = StateGraph::new(state(0), None);
    let mut n = 0;
    for operation in operations {
        graph.add_state(state(n + 1));
        graph.add_edge(edge(n, n + 1, n, operation));
        n += 1;
    }
    graph
}

fn run(graph: &StateGraph) -> AtomicReport {
    AtomicityViolationDetector::new(graph).detect()
}

fn build_atomic_violation_net() -> PtNet {
    let mut net = PtNet::empty();
    let shared = net.add_place(PtPlace {
        name: "shared_atomic".to_string(),
        tokens: 1,
        capacity: Some(1),
        place_type: PlaceType::BasicBlock,
        span: "atomic.rs:1:1".to_string(),
    });

    let alias = AliasId::new(0, 0);

    let store_a = net.add_transition(PtTransition {
        name: "store_a".to_string(),
        transition_type: TransitionType::AtomicStore(
            alias,
            AtomicOrdering::Release,
            "atomic.rs:10:5".to_string(),
            1,
        ),
    });
    let store_b = net.add_transition(PtTransition {
        name: "store_b".to_string(),
        transition_type: TransitionType::AtomicStore(
            alias,
            AtomicOrdering::SeqCst,
            "atomic.rs:12:5".to_string(),
            2,
        ),
    });
    let load = net.add_transition(PtTransition {
        name: "load_relaxed".to_string(),
        transition_type: TransitionType::AtomicLoad(
            alias,
            AtomicOrdering::Relaxed,
            "atomic.rs:20:5".to_string(),
            1,
        ),
    });

    for transition in [store_a, store_b, load] {
        net.add_input_arc(shared, transition, 1);
        net.add_output_arc(shared, transition, 1);
    }

    net
}

/// The graph of the one marking that the net keeps: every transition leads back
/// to it.
fn explore(net: PtNet) -> StateGraph {
    let mut edges = Vec::new();
    for (i, transition) in net.transitions.iter().enumerate() {
        assert_eq!(net.input_weight(0, i), 1);
        assert_eq!(net.output_weight(0, i), 1);
        let transition_type = match &transition.transition_type {
            TransitionType::AtomicStore(a, o, s, t) => {
                TransitionType::AtomicStore(*a, *o, s.clone(), *t)
            }
            TransitionType::AtomicLoad(a, o, s, t) => {
                TransitionType::AtomicLoad(*a, *o, s.clone(), *t)
            }
            _ => unreachable!(),
        };
        edges.push(StateEdge {
            source: 0,
            target: 0,
            transition: i,
            name: transition.name.clone(),
            transition_type,
            changes: Vec::new(),
        });
    }
    let mut initial = state(0);
    initial.enabled = vec![0, 1, 2];
    initial.fireable = vec![0, 1, 2];
    let mut graph = StateGraph::new(initial, Some(net));
    for e in edges {
        graph.add_edge(e);
    }
    graph
}

#[test]
fn detect_atomicity_violation() {
    let net = build_atomic_violation_net();
    let state_graph = explore(net);
    // A single marking with self-loops: small limits bound the search, which
    // completes the witness at depth 3.
    let detector = AtomicityViolationDetector::with_limits(&state_graph, 1_000, 8);
    let report = detector.detect();

    assert!(report.has_violation, "Expected atomicity violation");
    assert!(!report.violations.is_empty());
}

#[test]
fn store_interrupted_before_load() {
    let report = run(&chain(vec![
        store(1, "a.rs:1:1", 1),
        store(1, "a.rs:2:1", 2),
        load(1, "a.rs:3:1", 1),
    ]));
    assert_eq!(report.tool_name, "Petri Net Atomicity Violation Detector");
    assert!(report.has_violation);
    assert_eq!(report.violation_count, 1);
    let v = &report.violations[0];
    assert_eq!(v.load_op.operation_type, "load@tid1");
    assert_eq!(v.load_op.ordering, "Acquire");
    assert_eq!(
        v.load_op.variable,
        "AliasId { instance_id: NodeIndex(0), local: _1, array_index: None, field: None }"
    );
    assert_eq!(v.load_op.location, "a.rs:3:1");
    assert_eq!(v.store_ops.len(), 2);
    assert_eq!(v.store_ops[0].operation_type, "store@tid1");
    assert_eq!(v.store_ops[0].location, "a.rs:1:1");
    assert_eq!(v.store_ops[1].operation_type, "store@tid2");
    assert_eq!(v.store_ops[1].ordering, "Release");
    assert_eq!(v.store_ops[1].location, "a.rs:2:1");
}

#[test]
fn load_interrupted_before_store() {
    let report = run(&chain(vec![
        load(1, "a.rs:1:1", 1),
        store(1, "a.rs:2:1", 2),
        store(1, "a.rs:3:1", 1),
    ]));
    assert_eq!(report.violation_count, 1);
    let v = &report.violations[0];
    assert_eq!(v.load_op.location, "a.rs:1:1");
    assert_eq!(v.store_ops[0].operation_type, "store@tid2");
    assert_eq!(v.store_ops[1].operation_type, "store@tid1");
    assert_eq!(v.store_ops[1].location, "a.rs:3:1");
}

#[test]
fn load_interrupted_before_load() {
    let report = run(&chain(vec![
        load(1, "a.rs:1:1", 1),
        store(1, "a.rs:2:1", 2),
        load(1, "a.rs:3:1", 1),
    ]));
    assert_eq!(report.violation_count, 1);
    let v = &report.violations[0];
    assert_eq!(v.load_op.location, "a.rs:1:1");
    assert_eq!(v.store_ops.len(), 1);
    assert_eq!(v.store_ops[0].location, "a.rs:2:1");
}

#[test]
fn other_locations_do_not_interrupt() {
    let report = run(&chain(vec![
        load(1, "a.rs:1:1", 1),
        store(2, "a.rs:2:1", 2),
        load(1, "a.rs:3:1", 1),
    ]));
    assert!(!report.has_violation);
    assert_eq!(report.violation_count, 0);
    assert!(report.violations.is_empty());
}

#[test]
fn own_stores_do_not_interrupt() {
    let report = run(&chain(vec![
        store(1, "a.rs:1:1", 1),
        store(1, "a.rs:2:1", 1),
        load(1, "a.rs:3:1", 1),
    ]));
    assert!(!report.has_violation);
}

#[test]
fn a_later_start_hides_the_interruption() {
    let report = run(&chain(vec![
        store(1, "a.rs:1:1", 1),
        store(1, "a.rs:2:1", 2),
        store(1, "a.rs:3:1", 1),
        load(1, "a.rs:4:1", 1),
    ]));
    assert!(!report.has_violation);
}

#[test]
fn limits_stop_the_search() {
    let graph = chain(vec![
        load(1, "a.rs:1:1", 1),
        store(1, "a.rs:2:1", 2),
        load(1, "a.rs:3:1", 1),
    ]);
    assert!(!AtomicityViolationDetector::with_limits(&graph, 0, 10).detect().has_violation);
    assert!(!AtomicityViolationDetector::with_limits(&graph, 10, 2).detect().has_violation);
    assert!(AtomicityViolationDetector::with_limits(&graph, 10, 3).detect().has_violation);
    assert!(!AtomicityViolationDetector::with_limits(&graph, 3, 10).detect().has_violation);
    assert!(AtomicityViolationDetector::with_limits(&graph, 4, 10).detect().has_violation);
}

#[test]
fn equal_violations_are_reported_once() {
    // The two branches differ in their transitions, not in what they read.
    let mut graph = chain(vec![
        load(1, "a.rs:1:1", 1),
        store(1, "a.rs:2:1", 2),
        load(1, "a.rs:3:1", 1),
    ]);
    graph.add_edge(edge(1, 2, 7, store(1, "a.rs:2:1", 2)));
    let report = run(&graph);
    assert_eq!(report.violation_count, 1);
}

#[test]
fn different_violations_are_reported_apart() {
    let mut graph = chain(vec![
        load(1, "a.rs:1:1", 1),
        store(1, "a.rs:2:1", 2),
        load(1, "a.rs:3:1", 1),
    ]);
    graph.add_edge(edge(1, 2, 7, store(1, "a.rs:9:1", 3)));
    let report = run(&graph);
    assert_eq!(report.violation_count, 2);
    // The last edge that is pushed is searched first.
    assert_eq!(report.violations[0].store_ops[0].operation_type, "store@tid3");
    assert_eq!(report.violations[1].store_ops[0].operation_type, "store@tid2");
}

#[test]
fn exchanges_count_as_stores() {
    let exchange = TransitionType::AtomicCmpXchg(
        AliasId::new(4, 2),
        AtomicOrdering::AcqRel,
        AtomicOrdering::Relaxed,
        "a.rs:5:1".to_string(),
        9,
    );
    let event = parse_event(&exchange).unwrap();
    assert_eq!(event.kind, EvKind::Store);
    assert_eq!(event.ord, AtomicOrdering::AcqRel);
    assert_eq!(event.tid, 9);
    assert_eq!(event.span, "a.rs:5:1");
    assert!(parse_event(&TransitionType::Goto).is_none());
}

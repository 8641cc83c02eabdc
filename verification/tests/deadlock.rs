use conc_bug_detector::concurrency::atomic::AtomicOrdering;
use conc_bug_detector::detect::deadlock::{operation_label, DeadlockDetector};
use conc_bug_detector::detect::lock_cycles::{
    collect_lock_transitions, detect_cycle_deadlocks, get_consistently_blocked_transitions,
};
use conc_bug_detector::detect::shortest_path::find_path;
use conc_bug_detector::memory::pointsto::AliasId;
use conc_bug_detector::net::state_graph::{
    PlaceChange, PlaceSummary, StateEdge, StateGraph, StateNode,
};
use conc_bug_detector::net::structure::{
    PlaceType, PtNet, PtPlace, PtTransition, TransitionType,
};

fn place(name: &str, tokens: u64, place_type: PlaceType, span: &str) -> PtPlace {
    PtPlace {
        name: name.to_string(),
        tokens,
        capacity: Some(1),
        place_type,
        span: span.to_string(),
    }
}

fn transition(name: &str, transition_type: TransitionType) -> PtTransition {
    PtTransition {
        name: name.to_string(),
        transition_type,
    }
}

fn state(index: usize, marking: Vec<u64>, enabled: Vec<usize>) -> StateNode {
    StateNode {
        index,
        marking,
        places: Vec::new(),
        enabled: enabled.clone(),
        fireable: enabled,
    }
}

fn edge(source: usize, target: usize, transition: usize, transition_type: TransitionType) -> StateEdge {
    StateEdge {
        source,
        target,
        transition,
        name: format!("e{}", transition),
        transition_type,
        changes: Vec::new(),
    }
}

fn change(place: usize, before: u64, after: u64) -> PlaceChange {
    PlaceChange {
        place,
        delta: after as i64 - before as i64,
        before,
        after,
    }
}

/// Two threads that take two mutexes in opposite orders, on the way on which
/// each gets its first one.
fn opposite_orders() -> StateGraph {
    let mut net = PtNet::empty();
    net.add_place(place("t1_start", 1, PlaceType::BasicBlock, "a.rs:2"));
    net.add_place(place("t1_has_a", 0, PlaceType::BasicBlock, "a.rs:3"));
    net.add_place(place("t2_start", 1, PlaceType::BasicBlock, "a.rs:6"));
    net.add_place(place("t2_has_b", 0, PlaceType::BasicBlock, "a.rs:7"));
    net.add_place(place("Mutex_0", 1, PlaceType::Resources, ""));
    net.add_place(place("Mutex_1", 1, PlaceType::Resources, ""));
    net.add_transition(transition("lock_a1", TransitionType::Lock(4)));
    net.add_transition(transition("lock_b2", TransitionType::Lock(5)));
    net.add_transition(transition("lock_b1", TransitionType::Lock(5)));
    net.add_transition(transition("lock_a2", TransitionType::Lock(4)));
    for (t, from, lock) in [(0, 0, 4), (1, 2, 5), (2, 1, 5), (3, 3, 4)] {
        net.add_input_arc(from, t, 1);
        net.add_input_arc(lock, t, 1);
    }
    net.add_output_arc(1, 0, 1);
    net.add_output_arc(3, 1, 1);

    let mut graph = StateGraph::new(state(0, vec![1, 0, 1, 0, 1, 1], vec![0, 1]), Some(net));
    graph.add_state(state(1, vec![0, 1, 1, 0, 0, 1], vec![1, 2]));
    let mut stuck = state(2, vec![0, 1, 0, 1, 0, 0], Vec::new());
    stuck.places.push(PlaceSummary {
        place: 1,
        name: "t1_has_a".to_string(),
        span: "a.rs:3".to_string(),
        tokens: 1,
    });
    graph.add_state(stuck);
    let mut first = edge(0, 1, 0, TransitionType::Lock(4));
    first.name = "lock_a1".to_string();
    first.changes = vec![change(0, 1, 0), change(1, 0, 1), change(4, 1, 0)];
    graph.add_edge(first);
    let mut second = edge(1, 2, 1, TransitionType::Lock(5));
    second.name = "lock_b2".to_string();
    second.changes = vec![change(2, 1, 0), change(3, 0, 1), change(5, 1, 0)];
    graph.add_edge(second);
    graph
}

#[test]
fn opposite_lock_orders_deadlock() {
    let graph = opposite_orders();
    assert!(DeadlockDetector::new(&graph).has_stuck_state());
    let report = DeadlockDetector::new(&graph).detect();
    assert_eq!(report.tool_name, "Petri Net Deadlock Detector");
    assert!(report.has_deadlock);
    assert_eq!(report.deadlock_count, 1);
    assert_eq!(report.deadlock_states.len(), 1);
    let s = &report.deadlock_states[0];
    assert_eq!(s.state_id, "s2");
    assert_eq!(s.description, "Deadlock state with blocked resources");
    assert_eq!(
        s.marking,
        vec![
            ("t1_has_a (a.rs:3)".to_string(), 1u8),
            ("place#3".to_string(), 1u8),
        ]
    );
    assert_eq!(s.blocked_transitions.len(), 2);

    let b = &s.blocked_transitions[0];
    assert_eq!(b.id, "t2");
    assert_eq!(b.name, "lock_b1");
    assert_eq!(b.location, "a.rs:3");
    assert_eq!(b.operation, "Lock acquisition");
    assert_eq!(b.needed_resources, vec!["Mutex_1".to_string()]);
    assert_eq!(b.resource_status.len(), 1);
    assert_eq!(b.resource_status[0].resource_name, "Mutex_1");
    assert_eq!(b.resource_status[0].has, 0);
    assert_eq!(b.resource_status[0].needs, 1);
    assert_eq!(b.resource_trace.len(), 1);
    let step = &b.resource_trace[0];
    assert_eq!(step.resource_name, "Mutex_1");
    assert_eq!(step.transition_name, "lock_b2");
    assert_eq!(step.operation, "Lock acquisition");
    assert_eq!(step.location, "a.rs:6");
    assert_eq!(step.from_state, "s1");
    assert_eq!(step.to_state, "s2");
    assert_eq!(step.before, 1);
    assert_eq!(step.after, 0);

    let other = &s.blocked_transitions[1];
    assert_eq!(other.id, "t3");
    assert_eq!(other.needed_resources, vec!["Mutex_0".to_string()]);
    assert_eq!(other.resource_trace[0].from_state, "s0");

    assert_eq!(report.traces.len(), 1);
    assert_eq!(report.traces[0].steps.len(), 1);
    assert_eq!(report.traces[0].final_state.as_ref().unwrap().state_id, "s2");
    let info = report.state_space_info.as_ref().unwrap();
    assert_eq!(info.total_states, 3);
    assert_eq!(info.total_transitions, 2);
    assert_eq!(info.reachable_states, 3);
}

/// A thread that takes three permits of five one after the other, gives one
/// back in between, and then waits for four.
fn permits() -> StateGraph {
    let mut net = PtNet::empty();
    net.add_place(place("running", 1, PlaceType::BasicBlock, "a.rs:2"));
    let mut resource = place("Semaphore_0", 5, PlaceType::Resources, "");
    resource.capacity = None;
    net.add_place(resource);
    net.add_transition(transition("acquire_four", TransitionType::Lock(1)));
    net.add_input_arc(0, 0, 1);
    net.add_input_arc(1, 0, 4);

    let mut graph = StateGraph::new(state(0, vec![1, 5], Vec::new()), Some(net));
    let tokens = [5, 4, 2, 3, 2];
    for i in 1..tokens.len() {
        graph.add_state(state(i, vec![1, tokens[i]], Vec::new()));
        let mut step = edge(i - 1, i, i, TransitionType::Goto);
        step.changes = vec![change(1, tokens[i - 1], tokens[i])];
        graph.add_edge(step);
    }
    graph
}

#[test]
fn traces_account_for_what_is_missing() {
    let graph = permits();
    let report = DeadlockDetector::new(&graph).detect();
    assert_eq!(report.deadlock_count, 1);
    let blocked = &report.deadlock_states[0].blocked_transitions[0];
    assert_eq!(blocked.resource_status[0].has, 2);
    assert_eq!(blocked.resource_status[0].needs, 4);
    // Three are missing. The latest firings that took as many are given, the
    // last one first; the first firing of all is not needed.
    let steps: Vec<(&str, u64, u64)> = blocked
        .resource_trace
        .iter()
        .map(|s| (s.from_state.as_str(), s.before, s.after))
        .collect();
    assert_eq!(steps, vec![("s3", 3, 2), ("s1", 4, 2)]);
}

#[test]
fn a_normal_end_is_no_deadlock() {
    let mut graph = StateGraph::new(state(0, vec![1], vec![0]), None);
    let mut end = state(1, vec![0], Vec::new());
    end.places.push(PlaceSummary {
        place: 0,
        name: "crate_main_end".to_string(),
        span: String::new(),
        tokens: 1,
    });
    graph.add_state(end);
    graph.add_edge(edge(0, 1, 0, TransitionType::Goto));
    assert!(!DeadlockDetector::new(&graph).has_stuck_state());
    let report = DeadlockDetector::new(&graph).detect();
    assert!(!report.has_deadlock);
    assert_eq!(report.deadlock_count, 0);
    assert!(report.traces.is_empty());
}

#[test]
fn an_end_place_without_tokens_is_a_deadlock() {
    let mut only = state(0, vec![300], Vec::new());
    only.places.push(PlaceSummary {
        place: 0,
        name: "main_end".to_string(),
        span: String::new(),
        tokens: 0,
    });
    let graph = StateGraph::new(only, None);
    let report = DeadlockDetector::new(&graph).detect();
    assert!(report.has_deadlock);
    // More tokens than are shown.
    assert_eq!(
        report.deadlock_states[0].marking,
        vec![("main_end ()".to_string(), 255u8)]
    );
    // Without the net nothing is said of what is blocked.
    assert!(report.deadlock_states[0].blocked_transitions.is_empty());
}

/// Two states that lead to each other for ever, after a third one in which a
/// lock could be taken.
fn livelock() -> StateGraph {
    let mut graph = StateGraph::new(state(0, vec![1], vec![9]), None);
    graph.add_state(state(1, vec![1], vec![2]));
    graph.add_state(state(2, vec![1], vec![3]));
    graph.add_edge(edge(0, 1, 9, TransitionType::Lock(7)));
    graph.add_edge(edge(1, 2, 2, TransitionType::Goto));
    graph.add_edge(edge(2, 1, 3, TransitionType::RwLockRead(8)));
    graph
}

#[test]
fn a_lock_that_stays_blocked_on_a_cycle_is_a_deadlock() {
    let graph = livelock();
    let blocked = get_consistently_blocked_transitions(&graph, &vec![1, 2]);
    assert_eq!(blocked, Some(vec![7]));
    let found = detect_cycle_deadlocks(&graph);
    assert_eq!(found.len(), 1);
    assert!(found[0] == 1 || found[0] == 2);
    let report = DeadlockDetector::new(&graph).detect();
    assert!(report.has_deadlock);
    assert_eq!(report.deadlock_count, 1);
}

#[test]
fn a_cycle_with_a_way_out_is_no_deadlock() {
    let mut graph = livelock();
    graph.add_edge(edge(2, 0, 4, TransitionType::Goto));
    assert!(get_consistently_blocked_transitions(&graph, &vec![1, 2]).is_none());
    // The longer cycle through all states blocks nothing.
    assert!(detect_cycle_deadlocks(&graph).is_empty());
    assert!(!DeadlockDetector::new(&graph).detect().has_deadlock);
}

#[test]
fn cycles_are_not_searched_where_states_are_stuck() {
    let mut graph = livelock();
    graph.add_state(state(3, vec![0], Vec::new()));
    graph.add_edge(edge(0, 3, 5, TransitionType::Goto));
    let report = DeadlockDetector::new(&graph).detect();
    assert_eq!(report.deadlock_count, 1);
    assert_eq!(report.deadlock_states[0].state_id, "s3");
}

#[test]
fn lock_transitions_are_listed_once_in_order() {
    let mut graph = StateGraph::new(state(0, vec![1], Vec::new()), None);
    graph.add_edge(edge(0, 0, 9, TransitionType::Lock(7)));
    graph.add_edge(edge(0, 0, 2, TransitionType::RwLockWrite(7)));
    graph.add_edge(edge(0, 0, 9, TransitionType::Lock(7)));
    graph.add_edge(edge(0, 0, 4, TransitionType::Unlock(7)));
    graph.add_edge(edge(0, 0, 5, TransitionType::RwLockRead(3)));
    let table = collect_lock_transitions(&graph);
    assert_eq!(table.len(), 2);
    let of = |lock: usize| table.iter().find(|e| e.lock == lock).unwrap().transitions.clone();
    assert_eq!(of(7), vec![2, 9]);
    assert_eq!(of(3), vec![5]);
}

#[test]
fn paths_are_shortest() {
    let mut graph = StateGraph::new(state(0, vec![1], Vec::new()), None);
    for i in 1..5 {
        graph.add_state(state(i, vec![1], Vec::new()));
    }
    graph.add_edge(edge(0, 1, 0, TransitionType::Goto));
    graph.add_edge(edge(1, 2, 1, TransitionType::Goto));
    graph.add_edge(edge(2, 3, 2, TransitionType::Goto));
    graph.add_edge(edge(0, 2, 3, TransitionType::Goto));
    assert_eq!(find_path(&graph, 3), vec![3, 2]);
    assert!(find_path(&graph, 0).is_empty());
    // The last state cannot be reached.
    assert!(find_path(&graph, 4).is_empty());
}

#[test]
fn operations_are_labelled() {
    let alias = AliasId::new(0, 0);
    let relaxed = AtomicOrdering::Relaxed;
    assert_eq!(operation_label(&TransitionType::Lock(0)), "Lock acquisition");
    assert_eq!(operation_label(&TransitionType::RwLockRead(0)), "RwLock read lock");
    assert_eq!(operation_label(&TransitionType::RwLockWrite(0)), "RwLock write lock");
    assert_eq!(
        operation_label(&TransitionType::UnsafeRead(0, String::new(), 0, String::new())),
        "Unsafe read"
    );
    assert_eq!(
        operation_label(&TransitionType::UnsafeWrite(0, String::new(), 0, String::new())),
        "Unsafe write"
    );
    assert_eq!(operation_label(&TransitionType::UnsafeAccess(Vec::new())), "Unsafe access");
    assert_eq!(
        operation_label(&TransitionType::AtomicLoad(alias, relaxed, String::new(), 0)),
        "Atomic load"
    );
    assert_eq!(
        operation_label(&TransitionType::AtomicStore(alias, relaxed, String::new(), 0)),
        "Atomic store"
    );
    assert_eq!(
        operation_label(&TransitionType::AtomicCmpXchg(alias, relaxed, relaxed, String::new(), 0)),
        "Atomic compare-exchange"
    );
    assert_eq!(operation_label(&TransitionType::Wait), "Resource operation");
}

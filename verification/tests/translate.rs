use conc_bug_detector::collections::KeyedMap;
use conc_bug_detector::concurrency::atomic::AtomicOrdering;
use conc_bug_detector::concurrency::blocking::{LockGuardId, LockGuardInfo, LockGuardTy};
use conc_bug_detector::config::{AliasUnknownPolicy, PnConfig};
use conc_bug_detector::memory::alias_engine::AliasEngine;
use conc_bug_detector::memory::pointsto::AliasId;
use conc_bug_detector::memory::pta::program::Program;
use conc_bug_detector::net::structure::{
    ArcDir, PlaceType, PtNet, PtPlace, PtTransition, TransitionType,
};
use conc_bug_detector::translate::mir::{
    BasicBlockData, Body, Operand, Place, PollVariant, Rvalue, Statement, StatementKind, Terminator,
    TerminatorKind, Ty,
};
use conc_bug_detector::translate::mir_to_pn::blocks::BasicBlockGraph;
use conc_bug_detector::translate::mir_to_pn::body::{BodyToPetriNet, Resources, Segments};

const START: usize = 0;
const END: usize = 1;
const EXIT: usize = 2;

fn ty(text: &str) -> Ty {
    Ty { text: text.to_string(), adt: None }
}

fn place(local: usize) -> Place {
    Place { local, projection: Vec::new(), ty: ty("*mut u8") }
}

fn block(kind: TerminatorKind) -> BasicBlockData {
    BasicBlockData {
        statements: Vec::new(),
        terminator: Some(Terminator { kind, span: "a.rs:1:1".to_string() }),
        is_cleanup: false,
    }
}

fn cleanup() -> BasicBlockData {
    BasicBlockData { is_cleanup: true, ..block(TerminatorKind::Other) }
}

fn body(basic_blocks: Vec<BasicBlockData>) -> Body {
    Body { local_decls: Vec::new(), basic_blocks }
}

fn resources() -> Resources {
    Resources {
        locks: KeyedMap::new(),
        atomic_places: KeyedMap::new(),
        atomic_orders: KeyedMap::new(),
        channel_places: KeyedMap::new(),
        unsafe_groups: KeyedMap::new(),
    }
}

fn control(name: &str) -> PtPlace {
    PtPlace {
        name: name.to_string(),
        tokens: 0,
        capacity: Some(1),
        place_type: PlaceType::FunctionStart,
        span: String::new(),
    }
}

/// The translation of a body of instance 3, with a net that holds the ends of
/// the function, the end of the program and one transition.
fn translation<'b, 'p>(body: &'b Body, program: &'p Program) -> BodyToPetriNet<'b, 'p> {
    let mut net = PtNet::empty();
    net.add_place(control("f_start"));
    net.add_place(control("f_end"));
    net.add_place(control("program_exit"));
    net.add_transition(PtTransition {
        name: "first".to_string(),
        transition_type: TransitionType::Goto,
    });
    let mut functions_map = KeyedMap::new();
    functions_map.insert(8, (START, END));
    let config = PnConfig { pta_k: 0, alias_unknown_policy: AliasUnknownPolicy::Conservative };
    let mut t = BodyToPetriNet {
        net,
        bb_graph: BasicBlockGraph::new(),
        exclude_bb: Vec::new(),
        return_transition: 0,
        seg: Segments {
            seg_place_of: KeyedMap::new(),
            seqcst_place: None,
            current: KeyedMap::new(),
        },
        pending_unsafe_ops: Vec::new(),
        instance_id: 3,
        def_id: 8,
        fn_name: "crate_f".to_string(),
        is_coroutine: false,
        body,
        functions_map,
        entry_exit: (9, EXIT),
        resources: resources(),
        lockguards: KeyedMap::new(),
        alias: AliasEngine::new(program, &Vec::new(), &config),
        alias_unknown_policy: AliasUnknownPolicy::Conservative,
    };
    t.init_basic_block(body, "f");
    t
}

fn nothing() -> Program {
    Program { functions: Vec::new() }
}

/// The arcs of a transition: place, weight, whether the transition takes.
fn arcs(t: &BodyToPetriNet, transition: usize) -> Vec<(usize, u64, bool)> {
    t.net
        .arcs
        .iter()
        .filter(|a| a.transition == transition)
        .map(|a| (a.place, a.weight, a.direction == ArcDir::Input))
        .collect()
}

fn name(t: &BodyToPetriNet, transition: usize) -> String {
    t.net.transitions[transition].name.clone()
}

fn kind(t: &BodyToPetriNet, transition: usize) -> String {
    t.net.transitions[transition].transition_type.debug_text()
}

#[test]
fn blocks_get_places() {
    let b = body(vec![
        block(TerminatorKind::Return),
        cleanup(),
        block(TerminatorKind::Unreachable),
        block(TerminatorKind::Goto { target: 0 }),
    ]);
    let p = nothing();
    let t = translation(&b, &p);
    assert_eq!(t.exclude_bb, vec![1, 2]);
    assert!(t.is_excluded(1));
    assert!(!t.is_excluded(0));
    assert_eq!(t.bb_graph.start(0), 3);
    assert_eq!(t.bb_graph.start(3), 4);
    assert_eq!(t.net.places[4].name, "f_3");
    assert_eq!(t.net.places[4].span, "a.rs:1:1");
    assert_eq!(t.net.places[4].capacity, Some(1));
    assert_eq!(t.net.places[4].tokens, 0);
}

#[test]
fn control_is_passed_on() {
    let b = body(vec![
        block(TerminatorKind::Goto { target: 1 }),
        block(TerminatorKind::Return),
        cleanup(),
    ]);
    let p = nothing();
    let mut t = translation(&b, &p);
    t.handle_start_block("f", 0, 8);
    assert_eq!(name(&t, 1), "f_0_start");
    assert_eq!(kind(&t, 1), "Start(3)");
    assert_eq!(arcs(&t, 1), vec![(START, 1, true), (3, 1, false)]);
    t.handle_goto(0, &1, "f");
    assert_eq!(name(&t, 2), "f_0_goto");
    assert_eq!(kind(&t, 2), "Goto");
    assert_eq!(arcs(&t, 2), vec![(3, 1, true), (4, 1, false)]);
    // A block for cleanup stands for a panic.
    t.handle_goto(0, &2, "f");
    assert_eq!(name(&t, 3), "f_0_panic");
    assert_eq!(kind(&t, 3), "Return(3)");
    assert_eq!(arcs(&t, 3), vec![(3, 1, true), (EXIT, 1, false)]);
    t.handle_assert(0, &1, "f");
    assert_eq!(name(&t, 4), "f_0_assert");
    assert_eq!(kind(&t, 4), "Assert");
    t.handle_fallthrough(0, &1, "f", "false_edge");
    assert_eq!(name(&t, 5), "f_0_false_edge");
    // Nothing leads to a block without places.
    t.handle_fallthrough(0, &2, "f", "false_edge");
    assert_eq!(t.net.transitions.len(), 6);
    t.handle_terminal_block(1, "f", "abort");
    assert_eq!(name(&t, 6), "f_1_abort");
    assert_eq!(arcs(&t, 6), vec![(4, 1, true), (EXIT, 1, false)]);
    t.handle_unwind_continue(1, "f");
    assert_eq!(name(&t, 7), "f_1_unwind");
    t.handle_start_block("g", 1, 99);
    assert_eq!(arcs(&t, 8), vec![(4, 1, false)]);
}

#[test]
fn calls_begin_and_end() {
    let b = body(vec![block(TerminatorKind::Other), block(TerminatorKind::Return)]);
    let p = nothing();
    let mut t = translation(&b, &p);
    let id = t.create_call_transition(0, "f_0_call");
    assert_eq!(id, 1);
    assert_eq!(name(&t, id), "f_0_call");
    assert_eq!(kind(&t, id), "Function");
    t.connect_to_target(0, id, &None);
    assert_eq!(arcs(&t, id), vec![(3, 1, true)]);
    t.connect_to_target(0, id, &Some(1));
    assert_eq!(arcs(&t, id), vec![(3, 1, true), (4, 1, false)]);
}

#[test]
fn switches_lead_to_every_placed_target() {
    let b = body(vec![
        block(TerminatorKind::SwitchInt { targets: vec![1, 2, 3] }),
        block(TerminatorKind::Return),
        block(TerminatorKind::Unreachable),
        block(TerminatorKind::Return),
    ]);
    let p = nothing();
    let mut t = translation(&b, &p);
    t.handle_switch(0, &vec![1, 2, 3], "f");
    assert_eq!(t.net.transitions.len(), 3);
    assert_eq!(name(&t, 1), "f_0_switch_1");
    assert_eq!(kind(&t, 1), "Switch");
    assert_eq!(arcs(&t, 1), vec![(3, 1, true), (4, 1, false)]);
    assert_eq!(name(&t, 2), "f_0_switch_2");
    assert_eq!(arcs(&t, 2), vec![(3, 1, true), (5, 1, false)]);
}

#[test]
fn a_coroutine_is_entered_at_its_first_state() {
    let b = body(vec![
        block(TerminatorKind::SwitchInt { targets: vec![2, 1, 3] }),
        block(TerminatorKind::SwitchInt { targets: vec![3, 0] }),
        block(TerminatorKind::Unreachable),
        block(TerminatorKind::Return),
    ]);
    let p = nothing();
    let mut t = translation(&b, &p);
    t.is_coroutine = true;
    t.handle_switch(0, &vec![2, 1, 3], "f");
    assert_eq!(t.net.transitions.len(), 2);
    assert_eq!(arcs(&t, 1), vec![(3, 1, true), (4, 1, false)]);
    // Other switches of a coroutine keep all their targets.
    t.handle_switch(1, &vec![3, 0], "f");
    assert_eq!(t.net.transitions.len(), 4);
}

#[test]
fn returns_share_a_transition() {
    let b = body(vec![block(TerminatorKind::Return), block(TerminatorKind::Return)]);
    let p = nothing();
    let mut t = translation(&b, &p);
    t.handle_return(0, "f");
    t.handle_return(1, "f");
    assert_eq!(t.net.transitions.len(), 2);
    assert_eq!(t.return_transition, 1);
    assert_eq!(name(&t, 1), "f_0_return");
    assert_eq!(kind(&t, 1), "Return(3)");
    assert_eq!(
        arcs(&t, 1),
        vec![(3, 1, true), (END, 1, false), (4, 1, true), (END, 1, false)]
    );
}

fn result(local: usize, poll: Option<PollVariant>) -> Statement {
    Statement {
        kind: StatementKind::Assign(place(local), Rvalue::Use(Operand::Move(place(3)))),
        poll,
    }
}

/// A coroutine whose second block polls, with what the third one returns.
fn polling(returned: Option<PollVariant>) -> Body {
    let mut third = block(TerminatorKind::Return);
    third.statements = vec![
        Statement { kind: StatementKind::Other, poll: None },
        // Another local does not decide.
        result(5, Some(PollVariant::Pending)),
        result(0, returned),
        // Nor does a later assignment.
        result(0, Some(PollVariant::Pending)),
    ];
    body(vec![
        block(TerminatorKind::Goto { target: 1 }),
        block(TerminatorKind::SwitchInt { targets: vec![4, 2, 3] }),
        third,
        block(TerminatorKind::Return),
        cleanup(),
    ])
}

#[test]
fn suspension_resumes_at_the_continuation() {
    let b = polling(Some(PollVariant::Pending));
    let p = nothing();
    let mut t = translation(&b, &p);
    t.is_coroutine = true;
    assert!(t.block_sets_poll_pending(2));
    assert!(!t.block_sets_poll_pending(3));
    assert_eq!(t.find_suspend_continuation(2), Some(3));
    assert_eq!(t.find_suspend_continuation(0), None);
    t.handle_return(2, "f");
    assert_eq!(name(&t, 1), "f_2_suspend");
    assert_eq!(kind(&t, 1), "Goto");
    assert_eq!(arcs(&t, 1), vec![(5, 1, true), (6, 1, false)]);
    assert_eq!(t.return_transition, 0);
    // The ready result is the completion.
    t.handle_return(3, "f");
    assert_eq!(arcs(&t, 2), vec![(6, 1, true), (END, 1, false)]);
}

#[test]
fn a_ready_result_completes() {
    for returned in [Some(PollVariant::Ready), None] {
        let b = polling(returned);
        let p = nothing();
        let mut t = translation(&b, &p);
        t.is_coroutine = true;
        assert!(!t.block_sets_poll_pending(2));
        t.handle_return(2, "f");
        assert_eq!(name(&t, 1), "f_2_return");
        assert_eq!(kind(&t, 1), "Return(3)");
        assert_eq!(arcs(&t, 1), vec![(5, 1, true), (END, 1, false)]);
    }
}

#[test]
fn a_ready_result_completes_whatever_its_type_is_called() {
    // _0 = Poll::<PendingTask>::Ready(move _3)
    let pending_task = Place { local: 3, projection: Vec::new(), ty: ty("PendingTask") };
    let mut only = block(TerminatorKind::Return);
    only.statements = vec![Statement {
        kind: StatementKind::Assign(
            Place { local: 0, projection: Vec::new(), ty: ty("Poll<PendingTask>") },
            Rvalue::Use(Operand::Move(pending_task)),
        ),
        poll: Some(PollVariant::Ready),
    }];
    let b = body(vec![only]);
    let p = nothing();
    let mut t = translation(&b, &p);
    t.is_coroutine = true;
    assert!(!t.block_sets_poll_pending(0));
    t.handle_return(0, "f");
    assert_eq!(name(&t, 1), "f_0_return");
    assert_eq!(arcs(&t, 1), vec![(3, 1, true), (END, 1, false)]);
}

#[test]
fn drops_of_guards_release_their_locks() {
    let b = body(vec![block(TerminatorKind::Other), block(TerminatorKind::Return)]);
    let p = nothing();
    let mut t = translation(&b, &p);
    t.resources.locks.insert(AliasId::new(3, 1), 20);
    t.resources.locks.insert(AliasId::new(3, 2), 21);
    t.lockguards.insert(
        LockGuardId::new(3, 1),
        LockGuardInfo::new(LockGuardTy::SpinRead("u8".to_string()), String::new()),
    );
    t.lockguards.insert(
        LockGuardId::new(3, 2),
        LockGuardInfo::new(LockGuardTy::ParkingLotWrite("u8".to_string()), String::new()),
    );
    t.handle_drop(&0, &place(1), &1, "f", &b.basic_blocks[0]);
    assert_eq!(name(&t, 1), "f_0_drop");
    assert_eq!(kind(&t, 1), "Unlock(20)");
    assert_eq!(arcs(&t, 1), vec![(3, 1, true), (20, 1, false), (4, 1, false)]);
    t.handle_drop(&0, &place(2), &1, "f", &b.basic_blocks[0]);
    assert_eq!(kind(&t, 2), "Unlock(21)");
    assert_eq!(arcs(&t, 2), vec![(3, 1, true), (21, 10, false), (4, 1, false)]);
    // Other drops release nothing, nor do those for cleanup.
    t.handle_drop(&0, &place(7), &1, "f", &b.basic_blocks[0]);
    assert_eq!(kind(&t, 3), "Drop");
    assert_eq!(arcs(&t, 3), vec![(3, 1, true), (4, 1, false)]);
    t.handle_drop(&0, &place(1), &1, "f", &cleanup());
    assert_eq!(kind(&t, 4), "Drop");
}

#[test]
fn accesses_of_a_block_are_merged() {
    let b = body(vec![block(TerminatorKind::Return)]);
    let p = nothing();
    let mut t = translation(&b, &p);
    t.resources.unsafe_groups.insert(AliasId::new(3, 1), 40);
    t.resources.unsafe_groups.insert(AliasId::new(3, 2), 41);
    assert_eq!(t.has_unsafe_alias(AliasId::new(3, 2)), (true, 41, Some(AliasId::new(3, 2))));
    assert_eq!(t.has_unsafe_alias(AliasId::new(3, 5)), (false, 0, None));
    // No access, no transition.
    t.flush_unsafe_ops(0);
    assert_eq!(t.net.transitions.len(), 1);

    t.process_rvalue_reads(&Rvalue::Use(Operand::Copy(place(2))), "f", 0, "a.rs:2");
    t.process_rvalue_reads(&Rvalue::Ref(place(1)), "f", 0, "a.rs:3");
    t.process_rvalue_reads(&Rvalue::Use(Operand::Constant), "f", 0, "a.rs:4");
    t.process_rvalue_reads(&Rvalue::Other(vec![place(5), place(2)]), "f", 0, "a.rs:5");
    t.process_place_writes(&place(1), "f", 0, "a.rs:6");
    t.process_place_writes(&place(1), "f", 0, "a.rs:7");
    t.process_rvalue_reads(&Rvalue::Use(Operand::Move(place(1))), "f", 0, "a.rs:8");
    t.process_place_writes(&place(6), "f", 0, "a.rs:9");
    assert_eq!(t.pending_unsafe_ops.len(), 6);
    t.flush_unsafe_ops(0);
    assert!(t.pending_unsafe_ops.is_empty());
    assert_eq!(name(&t, 1), "crate_f_unsafe_bb0");
    match &t.net.transitions[1].transition_type {
        TransitionType::UnsafeAccess(ops) => {
            assert_eq!(ops.len(), 2);
            // The first read stands for reads.
            assert_eq!(ops[0].alias, 41);
            assert!(!ops[0].is_write);
            assert_eq!(ops[0].span, "a.rs:2");
            assert_eq!(ops[0].ty, "*mut u8");
            // The last write wins over all else.
            assert_eq!(ops[1].alias, 40);
            assert!(ops[1].is_write);
            assert_eq!(ops[1].span, "a.rs:7");
            assert_eq!(ops[1].basic_block, 0);
        }
        _ => panic!("not an access"),
    }
    assert_eq!(arcs(&t, 1), vec![(3, 1, true), (4, 1, false)]);
    assert_eq!(t.net.places[4].name, "crate_f_unsafe_bb0_unsafe_ready");
    // What follows takes over after the accesses.
    assert_eq!(t.bb_graph.start(0), 3);
    assert_eq!(t.bb_graph.last(0), 4);
}

#[test]
fn segments_begin_with_a_token_in_the_first() {
    let b = body(Vec::new());
    let p = nothing();
    let mut t = translation(&b, &p);
    let first = t.ensure_seg_place(5, 0);
    let second = t.ensure_seg_place(5, 1);
    assert_eq!(t.ensure_seg_place(5, 0), first);
    assert_ne!(first, second);
    assert_eq!(t.net.places[first].name, "seg_t5_s0");
    assert_eq!(t.net.places[first].tokens, 1);
    assert_eq!(t.net.places[second].name, "seg_t5_s1");
    assert_eq!(t.net.places[second].tokens, 0);
    let global = t.ensure_seqcst_place();
    assert_eq!(t.ensure_seqcst_place(), global);
    assert_eq!(t.net.places[global].name, "SeqCst_Global");
    assert_eq!(t.net.places[global].tokens, 1);
    assert_eq!(t.net.places[global].place_type, PlaceType::Resources);
}

#[test]
fn orderings_advance_their_thread() {
    let b = body(Vec::new());
    let p = nothing();
    let mut t = translation(&b, &p);
    let relaxed = t.ordering_seg_arcs(1, AtomicOrdering::Relaxed);
    assert_eq!(relaxed, vec![(3, true), (3, false)]);
    assert_eq!(t.seg.current_seg(1), 0);
    let release = t.ordering_seg_arcs(1, AtomicOrdering::Release);
    assert_eq!(release, vec![(3, true), (4, false)]);
    assert_eq!(t.seg.current_seg(1), 1);
    let acquire = t.ordering_seg_arcs(1, AtomicOrdering::Acquire);
    assert_eq!(acquire, vec![(4, true), (5, false)]);
    let seqcst = t.ordering_seg_arcs(1, AtomicOrdering::SeqCst);
    assert_eq!(seqcst, vec![(5, true), (6, false), (7, true), (7, false)]);
    // Another thread passes the same place.
    let other = t.ordering_seg_arcs(2, AtomicOrdering::SeqCst);
    assert_eq!(other, vec![(8, true), (9, false), (7, true), (7, false)]);
    assert_eq!(t.seg.current_seg(1), 3);
    assert_eq!(t.seg.current_seg(2), 1);
}

#[test]
fn atomic_operations_have_an_alternative_per_resource() {
    let b = body(vec![block(TerminatorKind::Other), block(TerminatorKind::Return)]);
    let p = nothing();
    let mut t = translation(&b, &p);
    let current = AliasId::new(3, 1);
    let call = t.create_call_transition(0, "f_0_call");
    let build = |a: &AliasId, o: &AtomicOrdering, s: String| {
        TransitionType::AtomicStore(*a, *o, s, 3)
    };
    // No resource matches.
    assert!(!t.handle_atomic_basic_op("store", current, call, &Some(1), &0, "a.rs:4", build));
    t.resources.atomic_places.insert(current, vec![30, 31, 30]);
    t.resources.atomic_places.insert(AliasId::new(9, 9), vec![32]);
    assert_eq!(t.find_atomic_matches(&current), vec![(current, 30), (current, 31)]);
    // The ordering is not known.
    assert!(!t.handle_atomic_basic_op("store", current, call, &Some(1), &0, "a.rs:4", build));
    assert_eq!(t.net.transitions.len(), 2);
    assert_eq!(t.net.places.len(), 5);

    t.resources.atomic_orders.insert(current, AtomicOrdering::Release);
    assert!(t.handle_atomic_basic_op("store", current, call, &Some(1), &0, "a.rs:4", build));
    assert_eq!(t.net.places[5].name, "atomic_store_in_3_0");
    assert_eq!(t.net.places[5].span, "a.rs:4");
    assert_eq!(arcs(&t, call), vec![(3, 1, true), (5, 1, false)]);
    assert_eq!(t.net.transitions.len(), 4);
    assert_eq!(name(&t, 2), "atomic_3_store_Release_0_0");
    assert_eq!(name(&t, 3), "atomic_3_store_Release_0_1");
    // Places 6 and 7 are the segments of the thread; the alternatives share
    // them.
    for (id, resource) in [(2, 30), (3, 31)] {
        assert_eq!(
            arcs(&t, id),
            vec![
                (5, 1, true),
                (resource, 1, true),
                (resource, 1, false),
                (6, 1, true),
                (7, 1, false),
                (4, 1, false),
            ]
        );
        assert!(kind(&t, id).starts_with("AtomicStore("));
    }
    assert_eq!(t.seg.current_seg(3), 1);
}

#[test]
fn channels_are_found_by_alias() {
    let b = body(Vec::new());
    let p = nothing();
    let mut t = translation(&b, &p);
    t.resources.channel_places.insert(AliasId::new(1, 1), 50);
    t.resources.channel_places.insert(AliasId::new(1, 2), 51);
    assert_eq!(t.find_channel_place(AliasId::new(1, 2)), Some(51));
    assert_eq!(t.find_channel_place(AliasId::new(1, 3)), None);
}

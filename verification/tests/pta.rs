use conc_bug_detector::config::{AliasUnknownPolicy, PnConfig};
use conc_bug_detector::memory::alias_engine::AliasEngine;
use conc_bug_detector::memory::pointsto::{AliasId, ApproximateAliasKind};
use conc_bug_detector::memory::pta::analysis::PointerAnalysis;
use conc_bug_detector::memory::pta::constraint::Constraint;
use conc_bug_detector::memory::pta::context::KCallSite;
use conc_bug_detector::memory::pta::ids::IdVec;
use conc_bug_detector::memory::pta::loc::{CallSite, CiKey, Context, LocArena, ProjElem};
use conc_bug_detector::memory::pta::model::{CallModel, ModelEffect};
use conc_bug_detector::memory::pta::program::{
    Call, Capture, Flow, FlowKind, Function, Node, NodeBase, Program,
};
use conc_bug_detector::memory::pta::result::PointsToResult;
use conc_bug_detector::memory::pta::solver::least_solution;

fn local(base: usize) -> Node {
    Node { base: NodeBase::Local(base), path: Vec::new() }
}

fn part(base: usize, path: Vec<ProjElem>) -> Node {
    Node { base: NodeBase::Local(base), path }
}

fn flow(kind: FlowKind, dst: Node, src: Node) -> Flow {
    Flow { kind, dst, src, suffix: Vec::new() }
}

fn function(def_id: usize, arg_count: usize, flows: Vec<Flow>, calls: Vec<Call>) -> Function {
    Function {
        def_id,
        is_user_item: true,
        is_promoted: false,
        is_closure_like: false,
        is_coroutine: false,
        arg_count,
        param_paths: Vec::new(),
        flows,
        captures: Vec::new(),
        calls,
    }
}

fn call(callee: usize, bb: usize, dest: usize, args: Vec<usize>) -> Call {
    Call {
        path: None,
        callee: Some(callee),
        bb,
        idx: 0,
        dest: local(dest),
        args: args.into_iter().map(|a| Some(local(a))).collect(),
    }
}

fn key(func: usize, base: usize) -> CiKey {
    // The empty path is numbered first in these programs.
    CiKey::Var { func, base, path: 0 }
}

fn sorted(mut keys: Vec<CiKey>) -> Vec<CiKey> {
    keys.sort_by_key(|k| format!("{:?}", k));
    keys
}

fn solved<'p>(program: &'p Program, k: usize, roots: Vec<usize>) -> (PointerAnalysis<'p>, PointsToResult) {
    let mut pta = PointerAnalysis::with_k(program, k);
    pta.build_reachable(&roots);
    let result = pta.solve();
    (pta, result)
}

#[test]
fn short_lists_keep_their_order() {
    let mut v = IdVec::new();
    assert!(v.to_vec().is_empty());
    for x in [5, 3, 9, 3, 1, 7] {
        v.add_new(x);
    }
    assert_eq!(v.to_vec(), vec![5, 3, 9, 1, 7]);
    v.push(3);
    assert_eq!(v.as_slice().len(), 6);
    assert!(v.contains(9));
    assert!(!v.contains(2));
}

#[test]
fn contexts_keep_the_last_call_sites() {
    let site = |bb: usize| CallSite { func: 1, bb };
    let two = KCallSite::new(2);
    let mut ctx = Context::empty();
    for bb in 0..4 {
        ctx = two.extend(&ctx, site(bb));
    }
    assert_eq!(ctx.sites, vec![site(2), site(3)]);
    assert!(KCallSite::new(0).extend(&ctx, site(9)).sites.is_empty());
}

#[test]
fn locations_and_paths_are_numbered_once() {
    let mut arena = LocArena::new();
    assert_eq!(arena.empty_path_id(), None);
    let empty = arena.empty_path();
    assert_eq!(arena.empty_path_id(), Some(empty));
    let f0 = arena.extend_path(empty, ProjElem::Field(0));
    assert_eq!(arena.extend_path(empty, ProjElem::Field(0)), f0);
    let x = arena.var_ctx(Context::empty(), 3, 1, empty);
    assert_eq!(arena.var_ctx(Context::empty(), 3, 1, empty), x);
    let part = arena.project(x, f0).unwrap();
    assert_ne!(part, x);
    assert_eq!(arena.ci_key(part), CiKey::Var { func: 3, base: 1, path: f0 });
    assert_eq!(arena.loc_count(), 2);
}

#[test]
fn parts_that_lie_too_deep_have_no_location() {
    let mut arena = LocArena::new();
    let empty = arena.empty_path();
    let f0 = arena.extend_path(empty, ProjElem::Field(0));
    let mut x = arena.var_ctx(Context::empty(), 0, 0, empty);
    for _ in 0..8 {
        x = arena.project(x, f0).unwrap();
    }
    let count = arena.loc_count();
    assert_eq!(arena.project(x, f0), None);
    assert_eq!(arena.loc_count(), count);
    assert_eq!(arena.project(x, empty), Some(x));
}

fn numbered(n: usize) -> LocArena {
    let mut arena = LocArena::new();
    let empty = arena.empty_path();
    for base in 0..n {
        assert_eq!(arena.var_ctx(Context::empty(), 0, base, empty), base);
    }
    arena
}

#[test]
fn constraints_are_solved() {
    let mut arena = numbered(6);
    let constraints = vec![
        Constraint::Load { dst: 5, src: 2 },
        Constraint::Store { dst: 2, src: 3 },
        Constraint::Copy { dst: 2, src: 0 },
        Constraint::AddressOf { dst: 0, obj: 1 },
        Constraint::AddressOf { dst: 3, obj: 4 },
    ];
    let result = least_solution(&mut arena, &constraints);
    assert_eq!(result.points_to(0), vec![1]);
    assert_eq!(result.points_to(2), vec![1]);
    // `*2 = 3` writes to what `2` points to, and `5 = *2` reads it back.
    assert_eq!(result.points_to(1), vec![4]);
    assert_eq!(result.points_to(5), vec![4]);
    assert!(result.points_to(4).is_empty());
    assert!(result.points_to(99).is_empty());
}

#[test]
fn solving_numbers_the_parts_that_it_reaches() {
    let mut arena = numbered(3);
    let f1 = arena.extend_path(0, ProjElem::Field(1));
    let constraints = vec![
        Constraint::Offset { dst: 2, src: 0, suffix: f1 },
        // The part of a part of itself: bounded by the depth of locations.
        Constraint::Copy { dst: 0, src: 2 },
        Constraint::AddressOf { dst: 0, obj: 1 },
    ];
    let result = least_solution(&mut arena, &constraints);
    // The location, and its parts down to the deepest.
    assert_eq!(result.points_to(0).len(), 9);
    assert_eq!(result.points_to(2).len(), 8);
    assert_eq!(arena.loc_count(), 11);
    assert!(!result.points_to(2).contains(&1));
}

#[test]
fn pointers_flow_through_calls() {
    // fn f(p) -> p;  main: 1 = &2; 3 = f(1)
    let program = Program {
        functions: vec![
            function(
                10,
                0,
                vec![flow(FlowKind::AddressOf, local(1), local(2))],
                vec![call(1, 4, 3, vec![1])],
            ),
            function(11, 1, vec![flow(FlowKind::Copy, local(0), local(1))], Vec::new()),
        ],
    };
    let (pta, result) = solved(&program, 0, vec![0]);
    assert_eq!(pta.func_id(0), Some(0));
    assert_eq!(pta.func_id(1), Some(1));
    assert_eq!(pta.collapsed_points_to(&result, 1, 1), vec![key(0, 2)]);
    assert_eq!(pta.collapsed_points_to(&result, 0, 3), vec![key(0, 2)]);
    assert!(pta.collapsed_may_alias(&result, 0, 3, 1, 0));
    assert!(!pta.collapsed_may_alias(&result, 0, 3, 0, 2));
    assert!(pta.collapsed_points_to_local(&result, 0, 3, 0, 2));
    assert!(!pta.collapsed_points_to_local(&result, 0, 3, 0, 1));
    assert_eq!(pta.built.len(), 2);
}

#[test]
fn contexts_tell_calls_apart() {
    // The identity called twice with different pointers.
    let program = || Program {
        functions: vec![
            function(
                10,
                0,
                vec![
                    flow(FlowKind::AddressOf, local(1), local(2)),
                    flow(FlowKind::AddressOf, local(3), local(4)),
                ],
                vec![call(1, 1, 5, vec![1]), call(1, 2, 6, vec![3])],
            ),
            function(11, 1, vec![flow(FlowKind::Copy, local(0), local(1))], Vec::new()),
        ],
    };
    let p = program();
    let (merged, r) = solved(&p, 0, vec![0]);
    assert_eq!(sorted(merged.collapsed_points_to(&r, 0, 5)), vec![key(0, 2), key(0, 4)]);
    assert_eq!(merged.built.len(), 2);
    let q = program();
    let (apart, r) = solved(&q, 1, vec![0]);
    assert_eq!(apart.collapsed_points_to(&r, 0, 5), vec![key(0, 2)]);
    assert_eq!(apart.collapsed_points_to(&r, 0, 6), vec![key(0, 4)]);
    assert_eq!(apart.built.len(), 3);
    assert_eq!(apart.var_nodes(1, 1).to_vec().len(), 2);
}

#[test]
fn recursion_is_built_once_per_context() {
    let program = Program {
        functions: vec![function(10, 1, Vec::new(), vec![call(0, 1, 0, vec![1])])],
    };
    let (pta, _) = solved(&program, 0, vec![0]);
    assert_eq!(pta.built.len(), 1);
    let (pta, _) = solved(&program, 2, vec![0]);
    assert_eq!(pta.built.len(), 3);
}

#[test]
fn unknown_calls_return_arguments_or_fresh_memory() {
    let mut unknown = call(1, 3, 5, vec![1]);
    unknown.path = Some("my::make".to_string());
    let mut outside = function(11, 1, Vec::new(), Vec::new());
    outside.is_user_item = false;
    let program = Program {
        functions: vec![
            function(
                10,
                0,
                vec![flow(FlowKind::AddressOf, local(1), local(2))],
                vec![unknown],
            ),
            outside,
        ],
    };
    let (pta, result) = solved(&program, 0, vec![0]);
    let keys = pta.collapsed_points_to(&result, 0, 5);
    assert_eq!(keys.len(), 2);
    assert!(keys.contains(&key(0, 2)));
    assert!(keys.iter().any(|k| matches!(k, CiKey::Heap { .. })));

    // A model takes the place of that.
    let mut pta = PointerAnalysis::new(&program);
    pta.registry_mut().register(CallModel {
        callee: "my::make".to_string(),
        effect: ModelEffect::Allocates,
    });
    pta.build_reachable(&vec![0]);
    let result = pta.solve();
    let keys = pta.collapsed_points_to(&result, 0, 5);
    assert_eq!(keys.len(), 1);
    assert!(matches!(keys[0], CiKey::Heap { .. }));
}

#[test]
fn fields_of_parameters_are_bound() {
    // The callee returns the first field of its parameter, which it gets by
    // reference: 1.0 = &2; 3 = &1; 4 = f(3)
    let mut f = function(
        11,
        1,
        vec![flow(FlowKind::Copy, local(0), part(1, vec![ProjElem::Field(0)]))],
        Vec::new(),
    );
    f.param_paths = vec![vec![Vec::new(), vec![ProjElem::Field(0)]]];
    let program = Program {
        functions: vec![
            function(
                10,
                0,
                vec![
                    flow(FlowKind::AddressOf, part(1, vec![ProjElem::Field(0)]), local(2)),
                    flow(FlowKind::AddressOf, local(3), local(1)),
                ],
                vec![call(1, 0, 4, vec![3])],
            ),
            f,
        ],
    };
    let (pta, result) = solved(&program, 0, vec![0]);
    let keys = pta.collapsed_points_to(&result, 0, 4);
    assert_eq!(keys.len(), 1);
    assert!(matches!(keys[0], CiKey::Var { func: 0, base: 2, .. }));
}

/// A function that captures a pointer to its local `2` in a closure.
fn capturing(is_coroutine: bool) -> Program {
    let heap = || Node { base: NodeBase::Heap { bb: 1, idx: 0 }, path: Vec::new() };
    let field = || Node {
        base: NodeBase::Heap { bb: 1, idx: 0 },
        path: vec![ProjElem::Field(0)],
    };
    let mut main = function(
        10,
        0,
        vec![
            flow(FlowKind::AddressOf, local(1), local(2)),
            flow(FlowKind::Copy, field(), local(1)),
            flow(FlowKind::AddressOf, local(3), heap()),
        ],
        Vec::new(),
    );
    main.captures = vec![Capture {
        closure: 77,
        heap: heap(),
        paths: vec![vec![ProjElem::Field(0)]],
    }];
    let mut closure = function(77, 1, Vec::new(), Vec::new());
    closure.is_closure_like = true;
    closure.is_coroutine = is_coroutine;
    if is_coroutine {
        // 2 = 1.0 is the pointer to the state; 3 = &(*2).0; 4 = *3
        closure.flows = vec![
            flow(FlowKind::Copy, local(2), part(1, vec![ProjElem::Field(0)])),
            Flow {
                kind: FlowKind::Offset,
                dst: local(3),
                src: local(2),
                suffix: vec![ProjElem::Field(0)],
            },
            flow(FlowKind::Load, local(4), local(3)),
        ];
    } else {
        closure.flows =
            vec![flow(FlowKind::Copy, local(4), part(1, vec![ProjElem::Field(0)]))];
    }
    Program { functions: vec![closure, main] }
}

#[test]
fn closures_read_what_was_captured() {
    for is_coroutine in [false, true] {
        let program = capturing(is_coroutine);
        let mut pta = PointerAnalysis::new(&program);
        // The closure is built before the function that constructs it.
        pta.build_reachable(&vec![0, 1]);
        let result = pta.solve();
        let keys = pta.collapsed_points_to(&result, 0, 4);
        assert_eq!(keys.len(), 1, "coroutine: {}", is_coroutine);
        assert!(matches!(keys[0], CiKey::Var { func: 1, base: 2, .. }));
    }
}

#[test]
fn receivers_include_the_field_behind_the_pointer() {
    let program = capturing(false);
    let (mut pta, result) = solved(&program, 0, vec![0, 1]);
    let plain = pta.collapsed_receiver_points_to(&result, 1, 3, None);
    let keys = pta.collapsed_receiver_points_to(&result, 1, 3, Some(0));
    // The local, the environment, and what its field holds.
    assert_eq!(plain.len(), 2);
    assert_eq!(keys.len(), 3);
    assert!(keys.iter().any(|k| matches!(k, CiKey::Var { func: 1, base: 2, .. })));
    assert!(pta.collapsed_may_alias_receiver(&result, 1, 3, Some(0), 0, 4, None));
    assert!(!pta.collapsed_may_alias_receiver(&result, 1, 3, Some(1), 0, 4, None));
    assert!(pta.collapsed_receiver_points_to(&result, 9, 3, Some(0)).is_empty());
}

#[test]
fn reports_list_every_pointer_in_order() {
    let program = Program {
        functions: vec![
            function(
                10,
                0,
                vec![
                    flow(FlowKind::AddressOf, part(1, vec![ProjElem::Field(3)]), local(2)),
                    flow(
                        FlowKind::AddressOf,
                        local(4),
                        Node { base: NodeBase::Global(6), path: vec![ProjElem::Index] },
                    ),
                ],
                vec![call(1, 5, 7, vec![4])],
            ),
            function(11, 1, Vec::new(), Vec::new()),
        ],
    };
    let (pta, result) = solved(&program, 1, vec![0]);
    assert_eq!(
        pta.format_report(&result),
        "=== PTA Points-To Report (new engine) ===\n\
         nodes-with-pointees: 3\n\
         \x20 f0::_1.3 -> { f0::_2 }\n\
         \x20 f0::_4 -> { Global(6)[*] }\n\
         \x20 f1::_1@[0:5] -> { Global(6)[*] }\n\
         === End ===\n"
    );
}

fn engine<'p>(program: &'p Program, roots: Vec<usize>) -> AliasEngine<'p> {
    let config = PnConfig { pta_k: 1, alias_unknown_policy: AliasUnknownPolicy::Conservative };
    AliasEngine::new(program, &roots, &config)
}

#[test]
fn aliases_are_graded() {
    let program = capturing(false);
    let mut e = engine(&program, vec![0, 1]);
    let at = |instance_id: usize, local: usize, field: Option<u32>| AliasId {
        instance_id,
        local,
        array_index: None,
        field,
    };
    assert_eq!(e.alias(at(1, 3, Some(0)), at(1, 3, Some(0))), ApproximateAliasKind::Probably);
    // Different fields of one local.
    assert_eq!(e.alias(at(1, 3, Some(0)), at(1, 3, Some(1))), ApproximateAliasKind::Unlikely);
    // The captured field and what the closure reads.
    assert_eq!(e.alias(at(1, 3, Some(0)), at(0, 4, None)), ApproximateAliasKind::Possibly);
    assert_eq!(e.alias(at(0, 4, None), at(1, 3, Some(0))), ApproximateAliasKind::Possibly);
    assert_eq!(e.alias(at(1, 3, Some(1)), at(0, 4, None)), ApproximateAliasKind::Unlikely);
    // An instance that was never built.
    assert_eq!(e.alias(at(8, 0, None), at(0, 4, None)), ApproximateAliasKind::Unlikely);

    assert_eq!(e.alias_atomic(at(1, 1, None), at(0, 4, None)), ApproximateAliasKind::Possibly);
    assert_eq!(e.alias_atomic(at(1, 2, None), at(0, 4, None)), ApproximateAliasKind::Unlikely);
    assert_eq!(e.alias_atomic(at(1, 2, None), at(1, 2, None)), ApproximateAliasKind::Probably);
    let first = AliasId { array_index: Some(0), ..at(1, 1, None) };
    let second = AliasId { array_index: Some(1), ..at(1, 1, None) };
    assert_eq!(e.alias_atomic(first, second), ApproximateAliasKind::Unlikely);
    assert_eq!(e.alias_atomic(first, at(1, 1, None)), ApproximateAliasKind::Possibly);

    assert_eq!(e.points_to(at(0, 4, None), at(1, 2, None)), ApproximateAliasKind::Possibly);
    assert_eq!(e.points_to(at(1, 2, None), at(0, 4, None)), ApproximateAliasKind::Unlikely);
}

#[test]
fn queries_do_not_change_answers() {
    let program = capturing(true);
    let mut e = engine(&program, vec![0, 1]);
    let report = e.format_points_to_report();
    let a = AliasId { instance_id: 1, local: 3, array_index: None, field: Some(0) };
    let b = AliasId::new(0, 4);
    let before = e.alias(a, b);
    for f in 0..5 {
        e.alias(AliasId { instance_id: 0, local: 1, array_index: None, field: Some(f) }, b);
    }
    e.ensure_pts_for_instances(&vec![0, 1]);
    assert_eq!(e.alias(a, b), before);
    assert_eq!(e.format_points_to_report(), report);
}

#[test]
fn more_constraints_only_add_pointees() {
    let few = vec![
        Constraint::AddressOf { dst: 0, obj: 1 },
        Constraint::Copy { dst: 2, src: 0 },
    ];
    let mut more = few.clone();
    more.push(Constraint::AddressOf { dst: 0, obj: 3 });
    let small = least_solution(&mut numbered(4), &few);
    let large = least_solution(&mut numbered(4), &more);
    for n in 0..4 {
        for p in small.points_to(n) {
            assert!(large.points_to(n).contains(&p));
        }
    }
    assert_eq!(large.points_to(2), vec![1, 3]);
    // The order of the constraints does not matter.
    more.reverse();
    assert_eq!(least_solution(&mut numbered(4), &more).points_to(2), vec![1, 3]);
}

#[test]
fn building_again_changes_nothing() {
    let program = capturing(false);
    let mut pta = PointerAnalysis::with_k(&program, 1);
    pta.build_reachable(&vec![0, 1]);
    let built = pta.built.len();
    let locations = pta.arena().loc_count();
    let constraints = pta.constraints().items.len();
    pta.build_reachable(&vec![0, 1]);
    assert_eq!(pta.built.len(), built);
    assert_eq!(pta.arena().loc_count(), locations);
    assert_eq!(pta.constraints().items.len(), constraints);
}

#[test]
fn calls_are_followed_from_later_roots_too() {
    // 0 calls 1, and 2 calls 3, which calls 1.
    let program = Program {
        functions: vec![
            function(10, 0, Vec::new(), vec![call(1, 1, 2, vec![1])]),
            function(11, 1, Vec::new(), Vec::new()),
            function(12, 0, Vec::new(), vec![call(3, 1, 2, vec![1])]),
            function(13, 1, Vec::new(), vec![call(1, 1, 2, vec![1])]),
        ],
    };
    let (mut pta, _) = solved(&program, 1, vec![0]);
    assert_eq!(pta.built.len(), 2);
    assert_eq!(pta.func_id(2), None);
    pta.build_reachable(&vec![2]);
    // 1 is built once more, in the context of the call from 3.
    assert_eq!(pta.built.len(), 5);
    for instance in 0..4 {
        assert!(pta.func_id(instance).is_some());
    }
    assert_eq!(pta.var_nodes(1, 1).to_vec().len(), 2);
}

#[test]
fn functions_without_a_body_are_not_analyzed() {
    let mut promoted = function(
        11,
        0,
        vec![flow(FlowKind::AddressOf, local(1), local(2))],
        Vec::new(),
    );
    promoted.is_promoted = true;
    let program = Program { functions: vec![promoted] };
    let (pta, result) = solved(&program, 0, vec![0]);
    assert_eq!(pta.built.len(), 1);
    assert_eq!(pta.func_id(0), None);
    assert!(pta.collapsed_points_to(&result, 0, 1).is_empty());
    assert_eq!(pta.tcx().functions.len(), 1);
    assert_eq!(
        pta.format_report(&result),
        "=== PTA Points-To Report (new engine) ===\nnodes-with-pointees: 0\n=== End ===\n"
    );
}

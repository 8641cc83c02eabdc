//! What building leaves behind of the program: the flows, calls and closures of
//! every function that is built are constraints between its locations.

use super::analysis::{
    all_resolved, body_of, builds, callee_context, entered, is_resolved, is_run, leaf_paths,
    resolved, root_queue, runs_to, var, visited, with_callee, with_closure, with_closures, with_env,
    with_env_field, with_env_parts, with_env_slots, with_envs, with_leaf, with_leaves, with_params,
    ClosureView, InContext, PtaView, RunView, Setting,
};
use super::builder::{
    args_of, flow_constraint, fresh_heap, node_id, with_body, with_call, with_calls, with_capture,
    with_captured, with_captures, with_flows, with_node, CallsView, FactsView, PendingView,
};
use super::constraint::{with_items, Constraint};
use super::ids::with_id;
use super::laws::{
    all_resolved_keeps, args_begin, begins, begins_contains, calls_begin, calls_bind_both_ways,
    closures_keep, flows_are_constrained, items_begin, kept_facts, leads_on, leaves_begin,
    local_named, names_local, names_node, new_is_first, new_is_numbered, node_named, params_begin,
    params_keep, resolved_keeps, target, unmodelled, visited_keeps,
};
use super::loc::{
    place_in, place_in_at, place_in_facts, with_item, ArenaView, CallSite, FieldPath, LocId,
    LocView, ProjElem,
};
use super::model::{
    arg_copies, effect_from, model_constraints, unknown_constraints, CallModel, ModelEffect,
    ModelRegistry,
};
use super::program::{Call, Capture, Flow, FlowKind, Function, Node, NodeBase};
use crate::collections::list_at;
use crate::translate::mir::{DefId, InstanceId};
use vstd::prelude::*;

verus! {

/// The lists are still there, and others may have come after their items.
pub open spec fn lists_begin(a: Map<DefId, Seq<usize>>, b: Map<DefId, Seq<usize>>) -> bool {
    forall|d: DefId| begins(list_at(a, d), #[trigger] list_at(b, d))
}

/// What is numbered, constrained and recorded of closures is so still.
pub open spec fn kept(v: FactsView, w: FactsView) -> bool {
    &&& kept_facts(v, w)
    &&& lists_begin(v.envs, w.envs)
    &&& lists_begin(v.env_paths, w.env_paths)
}

/// Nothing more is recorded of closures.
pub open spec fn same_envs(v: FactsView, w: FactsView) -> bool {
    v.envs == w.envs && v.env_paths == w.env_paths
}

pub(crate) proof fn kept_through(a: FactsView, b: FactsView, c: FactsView)
    requires
        kept(a, b),
        kept(b, c),
    ensures
        kept(a, c),
{
    assert forall|d: DefId| begins(list_at(a.envs, d), #[trigger] list_at(c.envs, d)) by {
        assert(begins(list_at(a.envs, d), list_at(b.envs, d)));
    }
    assert forall|d: DefId| begins(list_at(a.env_paths, d), #[trigger] list_at(c.env_paths, d)) by {
        assert(begins(list_at(a.env_paths, d), list_at(b.env_paths, d)));
    }
}

proof fn with_id_begins(m: Map<DefId, Seq<usize>>, k: DefId, x: usize)
    ensures
        lists_begin(m, with_id(m, k, x)),
        list_at(with_id(m, k, x), k).contains(x),
{
    let l = list_at(m, k);
    if !l.contains(x) {
        assert(l.push(x)[l.len() as int] == x);
    }
}

// Building a body keeps what is there.

pub(crate) proof fn flows_keep(v: FactsView, func: usize, ctx: Seq<CallSite>, flows: Seq<Flow>)
    ensures
        kept(v, with_flows(v, func, ctx, flows)),
        same_envs(v, with_flows(v, func, ctx, flows)),
    decreases flows.len(),
{
    if flows.len() > 0 {
        flows_keep(v, func, ctx, flows.drop_last());
    }
}

proof fn captured_keep(v: FactsView, closure: DefId, paths: Seq<Vec<ProjElem>>, m: int)
    requires
        0 <= m <= paths.len(),
    ensures
        kept(with_captured(v, closure, paths.take(m)), with_captured(v, closure, paths)),
    decreases paths.len(),
{
    if m < paths.len() {
        let front = paths.drop_last();
        assert(front.take(m) =~= paths.take(m));
        captured_keep(v, closure, front, m);
        let before = with_captured(v, closure, front);
        with_id_begins(before.env_paths, closure, before.arena.path_id(paths.last()@));
        kept_through(
            with_captured(v, closure, paths.take(m)),
            before,
            with_captured(v, closure, paths),
        );
    } else {
        assert(paths.take(m) =~= paths);
    }
}

/// The facts with the environment of a capture.
spec fn with_heap(v: FactsView, func: usize, ctx: Seq<CallSite>, capture: Capture) -> FactsView {
    FactsView {
        arena: with_node(v.arena, func, ctx, capture.heap),
        envs: with_id(v.envs, capture.closure, node_id(v.arena, func, ctx, capture.heap)),
        ..v
    }
}

proof fn capture_keeps(v: FactsView, func: usize, ctx: Seq<CallSite>, capture: Capture)
    ensures
        kept(v, with_heap(v, func, ctx, capture)),
        kept(with_heap(v, func, ctx, capture), with_capture(v, func, ctx, capture)),
        kept(v, with_capture(v, func, ctx, capture)),
{
    let h = with_heap(v, func, ctx, capture);
    with_id_begins(v.envs, capture.closure, node_id(v.arena, func, ctx, capture.heap));
    captured_keep(h, capture.closure, capture.paths@, 0);
    kept_through(v, h, with_capture(v, func, ctx, capture));
}

pub(crate) proof fn captures_keep(v: FactsView, func: usize, ctx: Seq<CallSite>, captures: Seq<Capture>, m: int)
    requires
        0 <= m <= captures.len(),
    ensures
        kept(with_captures(v, func, ctx, captures.take(m)), with_captures(v, func, ctx, captures)),
    decreases captures.len(),
{
    if m < captures.len() {
        let front = captures.drop_last();
        assert(front.take(m) =~= captures.take(m));
        captures_keep(v, func, ctx, front, m);
        let before = with_captures(v, func, ctx, front);
        capture_keeps(before, func, ctx, captures.last());
        kept_through(
            with_captures(v, func, ctx, captures.take(m)),
            before,
            with_captures(v, func, ctx, captures),
        );
    } else {
        assert(captures.take(m) =~= captures);
    }
}

pub(crate) proof fn calls_keep(
    s: CallsView,
    func: usize,
    ctx: Seq<CallSite>,
    calls: Seq<Call>,
    registry: ModelRegistry,
    m: int,
)
    requires
        0 <= m <= calls.len(),
    ensures
        kept(
            with_calls(s, func, ctx, calls.take(m), registry).facts,
            with_calls(s, func, ctx, calls, registry).facts,
        ),
        same_envs(s.facts, with_calls(s, func, ctx, calls, registry).facts),
    decreases calls.len(),
{
    let a = with_calls(s, func, ctx, calls.take(m), registry);
    if m < calls.len() {
        let front = calls.drop_last();
        assert(front.take(m) =~= calls.take(m));
        calls_keep(s, func, ctx, front, registry, m);
        let before = with_calls(s, func, ctx, front, registry);
        calls_begin(before, func, ctx, seq![calls.last()], registry);
        assert(seq![calls.last()].drop_last() =~= Seq::<Call>::empty());
        assert(with_calls(before, func, ctx, seq![calls.last()], registry) == with_call(
            before,
            func,
            ctx,
            calls.last(),
            registry,
        )) by {
            reveal_with_fuel(with_calls, 2);
        }
        kept_through(a.facts, before.facts, with_calls(s, func, ctx, calls, registry).facts);
    } else {
        assert(calls.take(m) =~= calls);
        calls_same_envs(s, func, ctx, calls, registry);
    }
}

proof fn calls_same_envs(
    s: CallsView,
    func: usize,
    ctx: Seq<CallSite>,
    calls: Seq<Call>,
    registry: ModelRegistry,
)
    ensures
        same_envs(s.facts, with_calls(s, func, ctx, calls, registry).facts),
    decreases calls.len(),
{
    if calls.len() > 0 {
        calls_same_envs(s, func, ctx, calls.drop_last(), registry);
    }
}

/// The facts with the flows and closures of a body.
pub open spec fn without_calls(
    v: FactsView,
    func: usize,
    ctx: Seq<CallSite>,
    function: Function,
) -> FactsView {
    with_captures(with_flows(v, func, ctx, function.flows@), func, ctx, function.captures@)
}

pub(crate) proof fn body_keeps(
    v: FactsView,
    func: usize,
    ctx: Seq<CallSite>,
    function: Function,
    registry: ModelRegistry,
)
    ensures
        kept(v, with_body(v, func, ctx, function, registry).facts),
        kept(
            without_calls(v, func, ctx, function),
            with_body(v, func, ctx, function, registry).facts,
        ),
{
    let flows = with_flows(v, func, ctx, function.flows@);
    let facts = without_calls(v, func, ctx, function);
    let begun = CallsView { facts, pending: Seq::empty() };
    let all = with_body(v, func, ctx, function, registry).facts;
    flows_keep(v, func, ctx, function.flows@);
    captures_keep(flows, func, ctx, function.captures@, 0);
    assert(function.captures@.take(0) =~= Seq::<Capture>::empty());
    kept_through(v, flows, facts);
    calls_keep(begun, func, ctx, function.calls@, registry, 0);
    assert(function.calls@.take(0) =~= Seq::<Call>::empty());
    kept_through(v, facts, all);
}

// Resolving calls keeps what is there.

proof fn leaves_same_envs(s: PtaView, param: LocId, arg: LocId, paths: Seq<Vec<ProjElem>>)
    ensures
        same_envs(s.facts, with_leaves(s, param, arg, paths).facts),
    decreases paths.len(),
{
    if paths.len() > 0 {
        leaves_same_envs(s, param, arg, paths.drop_last());
    }
}

proof fn params_same_envs(
    s: PtaView,
    func: usize,
    ctx: Seq<CallSite>,
    function: Function,
    n: nat,
    args: Seq<Option<LocId>>,
)
    ensures
        same_envs(s.facts, with_params(s, func, ctx, function, n, args).facts),
    decreases n,
{
    if n > 0 {
        let before = with_params(s, func, ctx, function, (n - 1) as nat, args);
        params_same_envs(s, func, ctx, function, (n - 1) as nat, args);
        let i = n as usize;
        if 0 < i <= args.len() && args[i - 1] is Some {
            let arg = args[i - 1]->0;
            let a = before.facts.arena.with_empty();
            let loc = var(ctx, func, i, before.facts.arena.empty_id());
            let param = a.loc_id(loc);
            leaves_same_envs(
                before.with_arena(a.with_loc(loc)).with_constraint(
                    Constraint::Copy { dst: param, src: arg },
                ),
                param,
                arg,
                leaf_paths(function, i as int),
            );
        }
    }
}

proof fn callee_keeps(
    s: PtaView,
    callee: InstanceId,
    ctx: Seq<CallSite>,
    function: Function,
    call: PendingView,
)
    ensures
        kept(s.facts, with_callee(s, callee, ctx, function, call).facts),
{
    let func = place_in(s.funcs, callee) as usize;
    let a = s.facts.arena.with_empty();
    let loc = var(ctx, func, 0, s.facts.arena.empty_id());
    let t = PtaView {
        funcs: with_item(s.funcs, callee),
        ..s.with_arena(a.with_loc(loc)).with_constraint(
            Constraint::Copy { dst: call.dest, src: a.loc_id(loc) },
        )
    };
    let n = function.arg_count as nat;
    params_begin(t, func, ctx, function, 0, n, call.args);
    params_same_envs(t, func, ctx, function, n, call.args);
    assert(kept(s.facts, t.facts));
    kept_through(s.facts, t.facts, with_callee(s, callee, ctx, function, call).facts);
}

pub(crate) proof fn resolving_keeps(
    set: Setting,
    s: RunView,
    func: usize,
    ctx: Seq<CallSite>,
    call: PendingView,
)
    ensures
        kept(s.pta.facts, resolved(set, s, func, ctx, call).pta.facts),
{
    if is_resolved(set, call) {
        let callee = call.callee->0;
        callee_keeps(
            s.pta,
            callee,
            callee_context(set, func, ctx, call),
            set.program.functions@[callee as int],
            call,
        );
    } else {
        items_begin(
            s.pta.facts.constraints,
            unknown_constraints(call.dest, call.args, call.heap),
        );
    }
}

pub(crate) proof fn all_resolving_keeps(
    set: Setting,
    s: RunView,
    func: usize,
    ctx: Seq<CallSite>,
    calls: Seq<PendingView>,
    m: int,
)
    requires
        0 <= m <= calls.len(),
    ensures
        kept(
            all_resolved(set, s, func, ctx, calls.take(m)).pta.facts,
            all_resolved(set, s, func, ctx, calls).pta.facts,
        ),
    decreases calls.len(),
{
    if m < calls.len() {
        let front = calls.drop_last();
        assert(front.take(m) =~= calls.take(m));
        all_resolving_keeps(set, s, func, ctx, front, m);
        let before = all_resolved(set, s, func, ctx, front);
        resolving_keeps(set, before, func, ctx, calls.last());
        kept_through(
            all_resolved(set, s, func, ctx, calls.take(m)).pta.facts,
            before.pta.facts,
            all_resolved(set, s, func, ctx, calls).pta.facts,
        );
    } else {
        assert(calls.take(m) =~= calls);
    }
}

proof fn visiting_keeps(set: Setting, s: RunView)
    requires
        s.queue.len() > 0,
    ensures
        kept(s.pta.facts, visited(set, s).pta.facts),
        begins(s.pta.closures, visited(set, s).pta.closures),
{
    let x = s.queue[0];
    if !s.pta.built.contains(x) && set.program.functions@[x.0 as int].analyzed() {
        let begun = RunView { pta: entered(set, s.pta, x), queue: s.queue.drop_first() };
        let func = place_in(s.pta.funcs, x.0) as usize;
        let pending = body_of(set, s.pta, x).pending;
        body_keeps(
            s.pta.facts,
            func,
            x.1,
            set.program.functions@[x.0 as int],
            set.registry,
        );
        all_resolving_keeps(set, begun, func, x.1, pending, 0);
        assert(pending.take(0) =~= Seq::<PendingView>::empty());
        kept_through(s.pta.facts, begun.pta.facts, visited(set, s).pta.facts);
        resolving_keeps_closures(set, begun, func, x.1, pending);
    }
}

pub(crate) proof fn resolving_keeps_closures(
    set: Setting,
    s: RunView,
    func: usize,
    ctx: Seq<CallSite>,
    calls: Seq<PendingView>,
)
    ensures
        all_resolved(set, s, func, ctx, calls).pta.closures == s.pta.closures,
    decreases calls.len(),
{
    all_resolved_keeps(set, s, func, ctx, calls);
}

pub(crate) proof fn running_keeps(set: Setting, trace: Seq<RunView>, i: int, j: int)
    requires
        is_run(set, trace),
        0 <= i <= j < trace.len(),
    ensures
        kept(trace[i].pta.facts, trace[j].pta.facts),
        begins(trace[i].pta.closures, trace[j].pta.closures),
        begins(trace[i].pta.built, trace[j].pta.built),
        begins(trace[i].pta.funcs, trace[j].pta.funcs),
    decreases j,
{
    if i < j {
        running_keeps(set, trace, i, j - 1);
        let s = trace[j - 1];
        assert(s.queue.len() > 0 && trace[j] == visited(set, s));
        visiting_keeps(set, s);
        assert(s.queue.contains(s.queue[0]));
        visited_keeps(set, s, s.queue[0]);
        kept_through(trace[i].pta.facts, s.pta.facts, trace[j].pta.facts);
    }
}

// Binding environments keeps what is there.

pub(crate) proof fn slots_keep(s: PtaView, c: ClosureView, heap: LocId, m: nat, n: nat)
    requires
        m <= n,
    ensures
        kept(with_env_slots(s, c, heap, m).facts, with_env_slots(s, c, heap, n).facts),
        same_envs(with_env_slots(s, c, heap, m).facts, with_env_slots(s, c, heap, n).facts),
    decreases n,
{
    if m < n {
        slots_keep(s, c, heap, m, (n - 1) as nat);
        kept_through(
            with_env_slots(s, c, heap, m).facts,
            with_env_slots(s, c, heap, (n - 1) as nat).facts,
            with_env_slots(s, c, heap, n).facts,
        );
    }
}

pub(crate) proof fn parts_keep(s: PtaView, c: ClosureView, heap: LocId, paths: Seq<FieldPath>, m: int)
    requires
        0 <= m <= paths.len(),
    ensures
        kept(
            with_env_parts(s, c, heap, paths.take(m)).facts,
            with_env_parts(s, c, heap, paths).facts,
        ),
        same_envs(
            with_env_parts(s, c, heap, paths.take(m)).facts,
            with_env_parts(s, c, heap, paths).facts,
        ),
    decreases paths.len(),
{
    if m < paths.len() {
        let front = paths.drop_last();
        assert(front.take(m) =~= paths.take(m));
        parts_keep(s, c, heap, front, m);
        kept_through(
            with_env_parts(s, c, heap, paths.take(m)).facts,
            with_env_parts(s, c, heap, front).facts,
            with_env_parts(s, c, heap, paths).facts,
        );
    } else {
        assert(paths.take(m) =~= paths);
    }
}

/// The analysis with the environment parameter of a closure pointing to an
/// environment.
pub open spec fn with_pointer(s: PtaView, c: ClosureView, heap: LocId) -> PtaView {
    let empty = s.facts.arena.empty_id();
    let named = s.with_arena(s.facts.arena.with_empty());
    let loc = var(c.ctx, c.func, 1, empty);
    named.with_arena(named.facts.arena.with_loc(loc)).with_constraint(
        Constraint::AddressOf { dst: named.facts.arena.loc_id(loc), obj: heap },
    )
}

pub(crate) proof fn binding_keeps(
    s: PtaView,
    c: ClosureView,
    coroutine: bool,
    heap: LocId,
    paths: Seq<FieldPath>,
)
    ensures
        kept(s.facts, with_env(s, c, coroutine, heap, paths).facts),
        same_envs(s.facts, with_env(s, c, coroutine, heap, paths).facts),
        !coroutine ==> kept(
            with_env_slots(with_pointer(s, c, heap), c, heap, 32).facts,
            with_env(s, c, coroutine, heap, paths).facts,
        ),
        !coroutine ==> kept(
            with_pointer(s, c, heap).facts,
            with_env(s, c, coroutine, heap, paths).facts,
        ),
{
    if !coroutine {
        let t = with_pointer(s, c, heap);
        let slots = with_env_slots(t, c, heap, 32);
        let all = with_env(s, c, coroutine, heap, paths).facts;
        slots_keep(t, c, heap, 0, 32);
        parts_keep(slots, c, heap, paths, 0);
        assert(paths.take(0) =~= Seq::<FieldPath>::empty());
        kept_through(t.facts, slots.facts, all);
        assert(kept(s.facts, t.facts));
        kept_through(s.facts, t.facts, all);
    }
}

pub(crate) proof fn bindings_keep(
    s: PtaView,
    c: ClosureView,
    coroutine: bool,
    heaps: Seq<LocId>,
    paths: Seq<FieldPath>,
    m: int,
)
    requires
        0 <= m <= heaps.len(),
    ensures
        kept(
            with_envs(s, c, coroutine, heaps.take(m), paths).facts,
            with_envs(s, c, coroutine, heaps, paths).facts,
        ),
        same_envs(
            with_envs(s, c, coroutine, heaps.take(m), paths).facts,
            with_envs(s, c, coroutine, heaps, paths).facts,
        ),
    decreases heaps.len(),
{
    if m < heaps.len() {
        let front = heaps.drop_last();
        assert(front.take(m) =~= heaps.take(m));
        bindings_keep(s, c, coroutine, front, paths, m);
        let before = with_envs(s, c, coroutine, front, paths);
        binding_keeps(before, c, coroutine, heaps.last(), paths);
        kept_through(
            with_envs(s, c, coroutine, heaps.take(m), paths).facts,
            before.facts,
            with_envs(s, c, coroutine, heaps, paths).facts,
        );
    } else {
        assert(heaps.take(m) =~= heaps);
    }
}

pub(crate) proof fn closing_keeps(set: Setting, s: PtaView, closures: Seq<ClosureView>, m: int)
    requires
        0 <= m <= closures.len(),
    ensures
        kept(
            with_closures(set, s, closures.take(m)).facts,
            with_closures(set, s, closures).facts,
        ),
        same_envs(
            with_closures(set, s, closures.take(m)).facts,
            with_closures(set, s, closures).facts,
        ),
    decreases closures.len(),
{
    if m < closures.len() {
        let front = closures.drop_last();
        assert(front.take(m) =~= closures.take(m));
        closing_keeps(set, s, front, m);
        let before = with_closures(set, s, front);
        let c = closures.last();
        let function = set.program.functions@[c.instance as int];
        let heaps = list_at(before.facts.envs, function.def_id);
        let paths = list_at(before.facts.env_paths, function.def_id);
        bindings_keep(before, c, function.is_coroutine, heaps, paths, 0);
        assert(heaps.take(0) =~= Seq::<LocId>::empty());
        kept_through(
            with_closures(set, s, closures.take(m)).facts,
            before.facts,
            with_closures(set, s, closures).facts,
        );
    } else {
        assert(closures.take(m) =~= closures);
    }
}

// What is built.

/// The number is that of a part of a local, of allocated memory or of a static,
/// the first two of a function in a context.
pub open spec fn names_part(
    a: ArenaView,
    id: LocId,
    func: usize,
    ctx: Seq<CallSite>,
    base: NodeBase,
    path: Seq<ProjElem>,
) -> bool {
    &&& id < a.locs.len()
    &&& a.locs[id as int].path() < a.paths.len()
    &&& a.paths[a.locs[id as int].path() as int] == path
    &&& match (base, a.locs[id as int]) {
        (NodeBase::Local(b), LocView::Var { ctx: c, func: f, base: l, .. }) => c == ctx && f == func
            && l == b,
        (NodeBase::Heap { bb, idx }, LocView::Heap { ctx: c, site, .. }) => c == ctx && site.func
            == func && site.bb == bb && site.idx == idx,
        (NodeBase::Global(d), LocView::Global { def_index, .. }) => def_index == d,
        _ => false,
    }
}

/// The numbers are in range of the machine.
pub open spec fn arena_fits(a: ArenaView) -> bool {
    a.paths.len() <= usize::MAX && a.locs.len() <= usize::MAX
}

/// Building from the roots has built the function in its context anew, and its
/// body is analyzed.
pub open spec fn newly_built(
    set: Setting,
    s: PtaView,
    roots: Seq<InstanceId>,
    t: PtaView,
    x: InContext,
) -> bool {
    &&& builds(set, s, roots, t)
    &&& t.built.contains(x)
    &&& !s.built.contains(x)
    &&& set.program.functions@[x.0 as int].analyzed()
    &&& arena_fits(t.facts.arena)
}

proof fn built_at(set: Setting, trace: Seq<RunView>, n: int, x: InContext) -> (i: int)
    requires
        is_run(set, trace),
        0 <= n < trace.len(),
        trace[n].pta.built.contains(x),
        !trace[0].pta.built.contains(x),
    ensures
        0 <= i < n,
        !trace[i].pta.built.contains(x),
        trace[i + 1].pta.built.contains(x),
    decreases n,
{
    if trace[n - 1].pta.built.contains(x) {
        built_at(set, trace, n - 1, x)
    } else {
        n - 1
    }
}

/// The run leads from the one analysis to the other, up to the environments of
/// the closures, which are bound last.
pub open spec fn is_build(set: Setting, s: PtaView, t: PtaView, trace: Seq<RunView>) -> bool {
    &&& is_run(set, trace)
    &&& trace[0].pta == s
    &&& t == with_closures(
        set,
        PtaView { closures: Seq::empty(), ..trace.last().pta },
        trace.last().pta.closures,
    )
    &&& kept(trace.last().pta.facts, t.facts)
    &&& same_envs(trace.last().pta.facts, t.facts)
    &&& trace.last().pta.built == t.built
    &&& trace.last().pta.funcs == t.funcs
}

pub(crate) proof fn build_of(set: Setting, s: PtaView, roots: Seq<InstanceId>, t: PtaView) -> (trace: Seq<
    RunView,
>)
    requires
        builds(set, s, roots, t),
    ensures
        is_build(set, s, t, trace),
{
    let begun = RunView { pta: s, queue: root_queue(roots) };
    let u = choose|u: PtaView| #[trigger]
        runs_to(set, begun, u) && t == with_closures(
            set,
            PtaView { closures: Seq::empty(), ..u },
            u.closures,
        );
    let trace = choose|trace: Seq<RunView>| #[trigger]
        is_run(set, trace) && trace[0] == begun && trace.last().pta == u;
    let open = PtaView { closures: Seq::empty(), ..u };
    closures_keep(set, open, u.closures);
    closing_keeps(set, open, u.closures, 0);
    assert(u.closures.take(0) =~= Seq::<ClosureView>::empty());
    trace
}

/// The step of the run that builds the function.
spec fn builds_at(set: Setting, t: PtaView, trace: Seq<RunView>, x: InContext, i: int) -> bool {
    &&& 0 <= i < trace.len() - 1
    &&& trace[i].queue.len() > 0
    &&& trace[i].queue[0] == x
    &&& !trace[i].pta.built.contains(x)
    &&& trace[i + 1] == visited(set, trace[i])
    &&& kept(trace[i + 1].pta.facts, trace.last().pta.facts)
    &&& begins(trace[i + 1].pta.closures, trace.last().pta.closures)
    &&& t.funcs.contains(x.0)
    &&& place_in(trace[i].pta.funcs, x.0) == place_in(t.funcs, x.0)
}

proof fn step_of(
    set: Setting,
    s: PtaView,
    roots: Seq<InstanceId>,
    t: PtaView,
    trace: Seq<RunView>,
    x: InContext,
) -> (i: int)
    requires
        newly_built(set, s, roots, t, x),
        is_build(set, s, t, trace),
    ensures
        builds_at(set, t, trace, x, i),
{
    let n = trace.len() - 1;
    let i = built_at(set, trace, n, x);
    let v = trace[i];
    assert(v.queue.len() > 0 && trace[i + 1] == visited(set, v));
    new_is_first(set, v, x);
    new_is_numbered(set, v, x);
    running_keeps(set, trace, i + 1, n);
    begins_contains(trace[i + 1].pta.funcs, trace[n].pta.funcs, x.0);
    i
}

/// A function whose body is built has a number.
pub proof fn built_has_number(
    set: Setting,
    s: PtaView,
    roots: Seq<InstanceId>,
    t: PtaView,
    x: InContext,
)
    requires
        newly_built(set, s, roots, t, x),
    ensures
        t.funcs.contains(x.0),
{
    let trace = build_of(set, s, roots, t);
    step_of(set, s, roots, t, trace, x);
}

/// The facts before a function was built, and what building its body kept.
proof fn body_is_kept(
    set: Setting,
    s: PtaView,
    roots: Seq<InstanceId>,
    t: PtaView,
    trace: Seq<RunView>,
    x: InContext,
) -> (v: FactsView)
    requires
        newly_built(set, s, roots, t, x),
        is_build(set, s, t, trace),
    ensures
        kept(
            with_body(
                v,
                place_in(t.funcs, x.0) as usize,
                x.1,
                set.program.functions@[x.0 as int],
                set.registry,
            ).facts,
            trace.last().pta.facts,
        ),
{
    let i = step_of(set, s, roots, t, trace, x);
    let p = trace[i].pta;
    let func = place_in(p.funcs, x.0) as usize;
    let pending = body_of(set, p, x).pending;
    let begun = RunView { pta: entered(set, p, x), queue: trace[i].queue.drop_first() };
    all_resolving_keeps(set, begun, func, x.1, pending, 0);
    assert(pending.take(0) =~= Seq::<PendingView>::empty());
    kept_through(begun.pta.facts, trace[i + 1].pta.facts, trace.last().pta.facts);
    p.facts
}

pub(crate) proof fn node_is_part(a: ArenaView, id: LocId, func: usize, ctx: Seq<CallSite>, node: Node)
    requires
        names_node(a, id, func, ctx, node),
    ensures
        names_part(a, id, func, ctx, node.base, node.path@),
{
}

pub(crate) proof fn part_stays(
    a: ArenaView,
    b: ArenaView,
    id: LocId,
    func: usize,
    ctx: Seq<CallSite>,
    base: NodeBase,
    path: Seq<ProjElem>,
)
    requires
        begins(a.paths, b.paths),
        begins(a.locs, b.locs),
        names_part(a, id, func, ctx, base, path),
    ensures
        names_part(b, id, func, ctx, base, path),
{
    assert(b.locs[id as int] == a.locs[id as int]);
    let p = a.locs[id as int].path() as int;
    assert(b.paths[p] == a.paths[p]);
}

/// Every flow of a function that is built is a constraint between the parts
/// that it names, in the context of the function: an address is taken, a value
/// copied, loaded or stored, or the address of a part computed.
pub proof fn flows_are_built(
    set: Setting,
    s: PtaView,
    roots: Seq<InstanceId>,
    t: PtaView,
    x: InContext,
    i: int,
) -> (r: (LocId, LocId, FieldPath))
    requires
        newly_built(set, s, roots, t, x),
        0 <= i < set.program.functions@[x.0 as int].flows@.len(),
    ensures
        ({
            let flow = set.program.functions@[x.0 as int].flows@[i];
            let func = place_in(t.funcs, x.0) as usize;
            let (dst, src, suffix) = r;
            let cs = t.facts.constraints;
            &&& names_part(t.facts.arena, dst, func, x.1, flow.dst.base, flow.dst.path@)
            &&& names_part(t.facts.arena, src, func, x.1, flow.src.base, flow.src.path@)
            &&& match flow.kind {
                FlowKind::AddressOf => cs.contains(Constraint::AddressOf { dst, obj: src }),
                FlowKind::Copy => cs.contains(Constraint::Copy { dst, src }),
                FlowKind::Load => cs.contains(Constraint::Load { dst, src }),
                FlowKind::Store => cs.contains(Constraint::Store { dst, src }),
                FlowKind::Offset => cs.contains(Constraint::Offset { dst, src, suffix }) && suffix
                    < t.facts.arena.paths.len() && t.facts.arena.paths[suffix as int]
                    == flow.suffix@,
            }
        }),
{
    let function = set.program.functions@[x.0 as int];
    let flow = function.flows@[i];
    let func = place_in(t.funcs, x.0) as usize;
    let trace = build_of(set, s, roots, t);
    let v = body_is_kept(set, s, roots, t, trace, x);
    let w = with_body(v, func, x.1, function, set.registry).facts;
    kept_through(w, trace.last().pta.facts, t.facts);
    flows_are_constrained(v, func, x.1, function, set.registry, i);
    let (dst, src, suffix) = choose|dst: LocId, src: LocId, suffix: FieldPath| #[trigger]
        w.constraints.contains(flow_constraint(flow.kind, dst, src, suffix)) && names_node(
            w.arena,
            dst,
            func,
            x.1,
            flow.dst,
        ) && names_node(w.arena, src, func, x.1, flow.src) && suffix < w.arena.paths.len()
            && w.arena.paths[suffix as int] == flow.suffix@;
    node_is_part(w.arena, dst, func, x.1, flow.dst);
    node_is_part(w.arena, src, func, x.1, flow.src);
    part_stays(w.arena, t.facts.arena, dst, func, x.1, flow.dst.base, flow.dst.path@);
    part_stays(w.arena, t.facts.arena, src, func, x.1, flow.src.base, flow.src.path@);
    begins_contains(
        w.constraints,
        t.facts.constraints,
        flow_constraint(flow.kind, dst, src, suffix),
    );
    assert(t.facts.arena.paths[suffix as int] == w.arena.paths[suffix as int]);
    (dst, src, suffix)
}

/// Every closure that a function constructs is recorded with its environment
/// and the captured parts of it.
proof fn capture_is_recorded(
    v: FactsView,
    func: usize,
    ctx: Seq<CallSite>,
    function: Function,
    registry: ModelRegistry,
    j: int,
    u: FactsView,
) -> (heap: LocId)
    requires
        kept(with_body(v, func, ctx, function, registry).facts, u),
        arena_fits(u.arena),
        0 <= j < function.captures@.len(),
    ensures
        list_at(u.envs, function.captures@[j].closure).contains(heap),
        names_part(
            u.arena,
            heap,
            func,
            ctx,
            function.captures@[j].heap.base,
            function.captures@[j].heap.path@,
        ),
        forall|k: int|
            0 <= k < function.captures@[j].paths@.len() ==> records_path(
                u,
                function.captures@[j].closure,
                (#[trigger] function.captures@[j].paths@[k])@,
            ),
{
    let captures = function.captures@;
    let capture = captures[j];
    let w = with_body(v, func, ctx, function, registry).facts;
    let flows = with_flows(v, func, ctx, function.flows@);
    let all = without_calls(v, func, ctx, function);
    body_keeps(v, func, ctx, function, registry);
    kept_through(all, w, u);
    let before = with_captures(flows, func, ctx, captures.take(j));
    let after = with_captures(flows, func, ctx, captures.take(j + 1));
    assert(captures.take(j + 1).drop_last() =~= captures.take(j));
    assert(after == with_capture(before, func, ctx, capture));
    captures_keep(flows, func, ctx, captures, j + 1);
    kept_through(after, all, u);
    let h = with_heap(before, func, ctx, capture);
    capture_keeps(before, func, ctx, capture);
    kept_through(h, after, u);
    let heap = node_id(before.arena, func, ctx, capture.heap);
    with_id_begins(before.envs, capture.closure, heap);
    begins_contains(list_at(h.envs, capture.closure), list_at(u.envs, capture.closure), heap);
    node_named(before.arena, func, ctx, capture.heap, u.arena);
    node_is_part(u.arena, heap, func, ctx, capture.heap);
    assert forall|k: int| 0 <= k < capture.paths@.len() implies records_path(
        u,
        capture.closure,
        (#[trigger] capture.paths@[k])@,
    ) by {
        let paths = capture.paths@;
        let b = with_captured(h, capture.closure, paths.take(k));
        let c = with_captured(h, capture.closure, paths.take(k + 1));
        assert(paths.take(k + 1).drop_last() =~= paths.take(k));
        assert(paths.take(k + 1).last() == paths[k]);
        captured_keep(h, capture.closure, paths, k + 1);
        kept_through(c, after, u);
        let id = b.arena.path_id(paths[k]@);
        with_id_begins(b.env_paths, capture.closure, id);
        begins_contains(
            list_at(c.env_paths, capture.closure),
            list_at(u.env_paths, capture.closure),
            id,
        );
        let n = place_in(b.arena.paths, paths[k]@) as int;
        place_in_facts(b.arena.paths, paths[k]@);
        assert(c.arena.paths[n] == paths[k]@);
        assert(u.arena.paths[n] == c.arena.paths[n]);
        assert(names_path(u, capture.closure, id, paths[k]@));
    }
    heap
}

/// The number is that of a captured part of the closure.
pub open spec fn names_path(v: FactsView, closure: DefId, id: FieldPath, path: Seq<ProjElem>) -> bool {
    &&& list_at(v.env_paths, closure).contains(id)
    &&& id < v.arena.paths.len()
    &&& v.arena.paths[id as int] == path
}

/// The part is recorded as captured by the closure.
pub open spec fn records_path(v: FactsView, closure: DefId, path: Seq<ProjElem>) -> bool {
    exists|id: FieldPath| names_path(v, closure, id, path)
}

/// The number is that of a part of another location.
pub open spec fn is_part_of(a: ArenaView, id: LocId, whole: LocId, path: Seq<ProjElem>) -> bool {
    &&& id < a.locs.len()
    &&& whole < a.locs.len()
    &&& a.locs[id as int].path() < a.paths.len()
    &&& a.locs[whole as int].path() < a.paths.len()
    &&& a.paths[a.locs[id as int].path() as int] == a.paths[a.locs[whole as int].path() as int]
        + path
    &&& match (a.locs[id as int], a.locs[whole as int]) {
        (
            LocView::Var { ctx, func, base, .. },
            LocView::Var { ctx: c, func: f, base: b, .. },
        ) => ctx == c && func == f && base == b,
        (LocView::Heap { ctx, site, .. }, LocView::Heap { ctx: c, site: s, .. }) => ctx == c && site
            == s,
        (LocView::Global { def_index, .. }, LocView::Global { def_index: d, .. }) => def_index == d,
        _ => false,
    }
}

/// Locations have parts down to eight steps.
pub open spec fn has_part(a: ArenaView, whole: LocId, path: Seq<ProjElem>) -> bool {
    a.paths[a.locs[whole as int].path() as int].len() + path.len() <= 8
}

/// One field of a closure's environment parameter is bound.
proof fn field_is_bound(
    s: PtaView,
    c: ClosureView,
    heap: LocId,
    p: FieldPath,
    b: FactsView,
) -> (r: (LocId, LocId))
    requires
        kept(with_env_field(s, c, heap, p).facts, b),
        arena_fits(b.arena),
        heap < s.facts.arena.locs.len(),
        s.facts.arena.locs[heap as int].path() < s.facts.arena.paths.len(),
        p < s.facts.arena.paths.len(),
        has_part(s.facts.arena, heap, s.facts.arena.paths[p as int]),
    ensures
        b.constraints.contains(Constraint::Copy { dst: r.0, src: r.1 }),
        names_part(b.arena, r.0, c.func, c.ctx, NodeBase::Local(1), s.facts.arena.paths[p as int]),
        is_part_of(b.arena, r.1, heap, s.facts.arena.paths[p as int]),
{
    let w = with_env_field(s, c, heap, p);
    let a = s.facts.arena;
    let loc = var(c.ctx, c.func, 1, p);
    let named = a.with_loc(loc);
    let field = a.loc_id(loc);
    place_in_facts(a.locs, loc);
    assert(named.locs[heap as int] == a.locs[heap as int]);
    let path = named.projected_path(heap, p);
    assert(named.can_project(heap, p));
    let part = named.loc_id(named.projection(heap, p));
    let numbered = named.with_path(path);
    place_in_facts(named.paths, path);
    place_in_facts(named.locs, named.projection(heap, p));
    let copy = Constraint::Copy { dst: field, src: part };
    place_in_facts(s.facts.constraints, copy);
    assert(w.facts.constraints.contains(copy)) by {
        assert(w.facts.constraints[place_in(s.facts.constraints, copy) as int] == copy);
    }
    begins_contains(w.facts.constraints, b.constraints, copy);
    let wa = w.facts.arena;
    let f = place_in(a.locs, loc) as int;
    assert(wa.locs[f] == loc);
    assert(b.arena.locs[f] == wa.locs[f]);
    assert(wa.paths[p as int] == a.paths[p as int]);
    assert(b.arena.paths[p as int] == wa.paths[p as int]);
    let k = place_in(named.locs, named.projection(heap, p)) as int;
    assert(wa.locs[k] == named.projection(heap, p));
    assert(b.arena.locs[k] == wa.locs[k]);
    let q = place_in(named.paths, path) as int;
    assert(wa.paths[q] == path);
    assert(b.arena.paths[q] == wa.paths[q]);
    assert(wa.locs[heap as int] == a.locs[heap as int]);
    assert(b.arena.locs[heap as int] == wa.locs[heap as int]);
    let h = a.locs[heap as int].path() as int;
    assert(wa.paths[h] == a.paths[h]);
    assert(b.arena.paths[h] == wa.paths[h]);
    (field, part)
}

/// The location stays where it is, with its field path.
proof fn loc_stays(v: FactsView, w: FactsView, id: LocId)
    requires
        kept(v, w),
        id < v.arena.locs.len(),
        v.arena.locs[id as int].path() < v.arena.paths.len(),
    ensures
        id < w.arena.locs.len(),
        w.arena.locs[id as int] == v.arena.locs[id as int],
        w.arena.locs[id as int].path() < w.arena.paths.len(),
        w.arena.paths[w.arena.locs[id as int].path() as int]
            == v.arena.paths[v.arena.locs[id as int].path() as int],
{
    assert(w.arena.locs[id as int] == v.arena.locs[id as int]);
    let p = v.arena.locs[id as int].path() as int;
    assert(w.arena.paths[p] == v.arena.paths[p]);
}

/// The binding of one environment of a closure that is built: what is there
/// before it, and what is kept of it.
proof fn environment_is_bound(
    set: Setting,
    s: PtaView,
    roots: Seq<InstanceId>,
    t: PtaView,
    trace: Seq<RunView>,
    x: InContext,
    heap: LocId,
) -> (v: PtaView)
    requires
        newly_built(set, s, roots, t, x),
        is_build(set, s, t, trace),
        set.program.functions@[x.0 as int].is_closure_like,
        list_at(t.facts.envs, set.program.functions@[x.0 as int].def_id).contains(heap),
    ensures
        kept(trace.last().pta.facts, v.facts),
        kept(
            with_env(
                v,
                ClosureView { instance: x.0, ctx: x.1, func: place_in(t.funcs, x.0) as usize },
                set.program.functions@[x.0 as int].is_coroutine,
                heap,
                list_at(t.facts.env_paths, set.program.functions@[x.0 as int].def_id),
            ).facts,
            t.facts,
        ),
{
    let i = step_of(set, s, roots, t, trace, x);
    let function = set.program.functions@[x.0 as int];
    let p = trace[i].pta;
    let func = place_in(t.funcs, x.0) as usize;
    let c = ClosureView { instance: x.0, ctx: x.1, func };
    let u = trace.last().pta;
    let closures = u.closures;
    let pending = body_of(set, p, x).pending;
    let begun = RunView { pta: entered(set, p, x), queue: trace[i].queue.drop_first() };
    resolving_keeps_closures(set, begun, func, x.1, pending);
    let at = p.closures.len() as int;
    assert(begun.pta.closures[at] == c);
    assert(trace[i + 1].pta.closures[at] == c);
    assert(closures[at] == c);
    let open = PtaView { closures: Seq::empty(), ..u };
    let before = with_closures(set, open, closures.take(at));
    let after = with_closures(set, open, closures.take(at + 1));
    assert(closures.take(at + 1).drop_last() =~= closures.take(at));
    assert(closures.take(at + 1).last() == c);
    assert(after == with_closure(set, before, c));
    closing_keeps(set, open, closures.take(at), 0);
    assert(closures.take(at).take(0) =~= Seq::<ClosureView>::empty());
    closing_keeps(set, open, closures, at + 1);
    let heaps = list_at(before.facts.envs, function.def_id);
    let paths = list_at(before.facts.env_paths, function.def_id);
    assert(heaps.contains(heap));
    let m = choose|m: int| 0 <= m < heaps.len() && heaps[m] == heap;
    let v = with_envs(before, c, function.is_coroutine, heaps.take(m), paths);
    let w = with_envs(before, c, function.is_coroutine, heaps.take(m + 1), paths);
    assert(heaps.take(m + 1).drop_last() =~= heaps.take(m));
    bindings_keep(before, c, function.is_coroutine, heaps, paths, m + 1);
    bindings_keep(before, c, function.is_coroutine, heaps.take(m), paths, 0);
    assert(heaps.take(m).take(0) =~= Seq::<LocId>::empty());
    kept_through(w.facts, after.facts, t.facts);
    kept_through(open.facts, before.facts, v.facts);
    v
}

/// The function `y`, built anew, constructs the closure `x`, built anew: its
/// `j`th capture.
pub open spec fn constructs(
    set: Setting,
    s: PtaView,
    roots: Seq<InstanceId>,
    t: PtaView,
    y: InContext,
    j: int,
    x: InContext,
) -> bool {
    let function = set.program.functions@[x.0 as int];
    let captures = set.program.functions@[y.0 as int].captures@;
    &&& newly_built(set, s, roots, t, y)
    &&& newly_built(set, s, roots, t, x)
    &&& 0 <= j < captures.len()
    &&& captures[j].closure == function.def_id
    &&& function.is_closure_like
}

/// What a closure captures by value reaches it: every captured part of an
/// environment, of whatever depth, is copied to the same part of the closure's
/// environment parameter.
pub proof fn captured_parts_reach_the_closure(
    set: Setting,
    s: PtaView,
    roots: Seq<InstanceId>,
    t: PtaView,
    y: InContext,
    j: int,
    x: InContext,
    k: int,
) -> (r: (LocId, LocId))
    requires
        constructs(set, s, roots, t, y, j, x),
        !set.program.functions@[x.0 as int].is_coroutine,
        ({
            let capture = set.program.functions@[y.0 as int].captures@[j];
            &&& 0 <= k < capture.paths@.len()
            &&& capture.paths@[k]@.len() > 0
            &&& capture.heap.path@.len() + capture.paths@[k]@.len() <= 8
        }),
    ensures
        ({
            let capture = set.program.functions@[y.0 as int].captures@[j];
            let path = capture.paths@[k]@;
            &&& t.facts.constraints.contains(Constraint::Copy { dst: r.0, src: r.1 })
            &&& names_part(
                t.facts.arena,
                r.0,
                place_in(t.funcs, x.0) as usize,
                x.1,
                NodeBase::Local(1),
                path,
            )
            &&& names_part(
                t.facts.arena,
                r.1,
                place_in(t.funcs, y.0) as usize,
                y.1,
                capture.heap.base,
                capture.heap.path@ + path,
            )
        }),
{
    let function = set.program.functions@[x.0 as int];
    let maker = set.program.functions@[y.0 as int];
    let capture = maker.captures@[j];
    let path = capture.paths@[k]@;
    let func = place_in(t.funcs, x.0) as usize;
    let of = place_in(t.funcs, y.0) as usize;
    let c = ClosureView { instance: x.0, ctx: x.1, func };
    let trace = build_of(set, s, roots, t);
    let u = trace.last().pta.facts;
    let v = body_is_kept(set, s, roots, t, trace, y);
    let heap = capture_is_recorded(v, of, y.1, maker, set.registry, j, u);
    assert(records_path(u, capture.closure, path));
    let id = choose|id: FieldPath| names_path(u, capture.closure, id, path);
    let m = environment_is_bound(set, s, roots, t, trace, x, heap);
    let paths = list_at(t.facts.env_paths, function.def_id);
    let n = choose|n: int| 0 <= n < paths.len() && paths[n] == id;
    binding_keeps(m, c, false, heap, paths);
    let slots = with_env_slots(with_pointer(m, c, heap), c, heap, 32);
    let before = with_env_parts(slots, c, heap, paths.take(n));
    let after = with_env_parts(slots, c, heap, paths.take(n + 1));
    assert(paths.take(n + 1).drop_last() =~= paths.take(n));
    parts_keep(slots, c, heap, paths, n + 1);
    parts_keep(slots, c, heap, paths.take(n), 0);
    assert(paths.take(n).take(0) =~= Seq::<FieldPath>::empty());
    slots_keep(with_pointer(m, c, heap), c, heap, 0, 32);
    assert(kept(m.facts, with_pointer(m, c, heap).facts));
    kept_through(u, m.facts, with_pointer(m, c, heap).facts);
    kept_through(u, with_pointer(m, c, heap).facts, slots.facts);
    kept_through(u, slots.facts, before.facts);
    kept_through(
        after.facts,
        with_env(m, c, false, heap, paths).facts,
        t.facts,
    );
    loc_stays(u, before.facts, heap);
    assert(before.facts.arena.paths[id as int] == u.arena.paths[id as int]);
    assert(after == with_env_field(before, c, heap, id));
    let r = field_is_bound(before, c, heap, id, t.facts);
    loc_stays(u, t.facts, heap);
    r
}

/// A closure's environment parameter points to its environment, and each of its
/// first fields is a copy of the environment's field.
pub proof fn environments_reach_the_closure(
    set: Setting,
    s: PtaView,
    roots: Seq<InstanceId>,
    t: PtaView,
    y: InContext,
    j: int,
    x: InContext,
    f: u32,
) -> (r: (LocId, LocId, LocId, LocId))
    requires
        constructs(set, s, roots, t, y, j, x),
        !set.program.functions@[x.0 as int].is_coroutine,
        f < 32,
        set.program.functions@[y.0 as int].captures@[j].heap.path@.len() < 8,
    ensures
        ({
            let heap = set.program.functions@[y.0 as int].captures@[j].heap;
            let func = place_in(t.funcs, x.0) as usize;
            let of = place_in(t.funcs, y.0) as usize;
            let field = seq![ProjElem::Field(f)];
            let (env, obj, dst, src) = r;
            let a = t.facts.arena;
            &&& t.facts.constraints.contains(Constraint::AddressOf { dst: env, obj })
            &&& names_part(a, env, func, x.1, NodeBase::Local(1), Seq::empty())
            &&& names_part(a, obj, of, y.1, heap.base, heap.path@)
            &&& t.facts.constraints.contains(Constraint::Copy { dst, src })
            &&& names_part(a, dst, func, x.1, NodeBase::Local(1), field)
            &&& names_part(a, src, of, y.1, heap.base, heap.path@ + field)
        }),
{
    let function = set.program.functions@[x.0 as int];
    let maker = set.program.functions@[y.0 as int];
    let capture = maker.captures@[j];
    let func = place_in(t.funcs, x.0) as usize;
    let of = place_in(t.funcs, y.0) as usize;
    let c = ClosureView { instance: x.0, ctx: x.1, func };
    let trace = build_of(set, s, roots, t);
    let u = trace.last().pta.facts;
    let v = body_is_kept(set, s, roots, t, trace, y);
    let heap = capture_is_recorded(v, of, y.1, maker, set.registry, j, u);
    let m = environment_is_bound(set, s, roots, t, trace, x, heap);
    let paths = list_at(t.facts.env_paths, function.def_id);
    binding_keeps(m, c, false, heap, paths);
    let pointer = with_pointer(m, c, heap);
    let all = with_env(m, c, false, heap, paths).facts;
    kept_through(pointer.facts, all, t.facts);
    // The pointer.
    let a = m.facts.arena;
    let empty = Seq::<ProjElem>::empty();
    let loc = var(c.ctx, c.func, 1, a.empty_id());
    let env = a.with_empty().loc_id(loc);
    local_named(a, c.ctx, c.func, 1, t.facts.arena);
    let address = Constraint::AddressOf { dst: env, obj: heap };
    place_in_facts(m.facts.constraints, address);
    assert(pointer.facts.constraints.contains(address)) by {
        assert(pointer.facts.constraints[place_in(m.facts.constraints, address) as int]
            == address);
    }
    begins_contains(pointer.facts.constraints, t.facts.constraints, address);
    // The field.
    let before = with_env_slots(pointer, c, heap, f as nat);
    let after = with_env_slots(pointer, c, heap, (f + 1) as nat);
    slots_keep(pointer, c, heap, 0, f as nat);
    slots_keep(pointer, c, heap, (f + 1) as nat, 32);
    let field = seq![ProjElem::Field(f)];
    let id = before.facts.arena.path_id(field);
    let named = before.with_arena(before.facts.arena.with_path(field));
    assert(after == with_env_field(named, c, heap, id));
    kept_through(after.facts, with_env_slots(pointer, c, heap, 32).facts, all);
    kept_through(after.facts, all, t.facts);
    assert(kept(m.facts, pointer.facts));
    kept_through(u, m.facts, pointer.facts);
    kept_through(u, pointer.facts, before.facts);
    assert(kept(before.facts, named.facts));
    kept_through(u, before.facts, named.facts);
    loc_stays(u, named.facts, heap);
    place_in_facts(before.facts.arena.paths, field);
    assert(begins(named.facts.arena.paths, after.facts.arena.paths));
    assert(begins(after.facts.arena.paths, t.facts.arena.paths));
    let (dst, src) = field_is_bound(named, c, heap, id, t.facts);
    loc_stays(u, t.facts, heap);
    (env, heap, dst, src)
}

/// A coroutine's environment parameter holds the pointer to its environment in
/// its first field.
pub proof fn environments_reach_the_coroutine(
    set: Setting,
    s: PtaView,
    roots: Seq<InstanceId>,
    t: PtaView,
    y: InContext,
    j: int,
    x: InContext,
) -> (r: (LocId, LocId))
    requires
        constructs(set, s, roots, t, y, j, x),
        set.program.functions@[x.0 as int].is_coroutine,
    ensures
        ({
            let heap = set.program.functions@[y.0 as int].captures@[j].heap;
            let func = place_in(t.funcs, x.0) as usize;
            let of = place_in(t.funcs, y.0) as usize;
            let a = t.facts.arena;
            &&& t.facts.constraints.contains(Constraint::AddressOf { dst: r.0, obj: r.1 })
            &&& names_part(a, r.0, func, x.1, NodeBase::Local(1), seq![ProjElem::Field(0)])
            &&& names_part(a, r.1, of, y.1, heap.base, heap.path@)
        }),
{
    let function = set.program.functions@[x.0 as int];
    let maker = set.program.functions@[y.0 as int];
    let func = place_in(t.funcs, x.0) as usize;
    let of = place_in(t.funcs, y.0) as usize;
    let c = ClosureView { instance: x.0, ctx: x.1, func };
    let trace = build_of(set, s, roots, t);
    let u = trace.last().pta.facts;
    let v = body_is_kept(set, s, roots, t, trace, y);
    let heap = capture_is_recorded(v, of, y.1, maker, set.registry, j, u);
    let m = environment_is_bound(set, s, roots, t, trace, x, heap);
    let paths = list_at(t.facts.env_paths, function.def_id);
    let w = with_env(m, c, true, heap, paths).facts;
    let named = m.facts.arena.with_empty();
    let path = seq![ProjElem::Field(0)];
    let id = named.path_id(path);
    let loc = var(c.ctx, c.func, 1, id);
    let a = named.with_path(path);
    let dst = a.loc_id(loc);
    let address = Constraint::AddressOf { dst, obj: heap };
    place_in_facts(named.paths, path);
    place_in_facts(a.locs, loc);
    place_in_facts(m.facts.constraints, address);
    assert(w.constraints.contains(address)) by {
        assert(w.constraints[place_in(m.facts.constraints, address) as int] == address);
    }
    begins_contains(w.constraints, t.facts.constraints, address);
    let p = place_in(named.paths, path) as int;
    let l = place_in(a.locs, loc) as int;
    assert(w.arena.paths[p] == path);
    assert(t.facts.arena.paths[p] == w.arena.paths[p]);
    assert(w.arena.locs[l] == loc);
    assert(t.facts.arena.locs[l] == w.arena.locs[l]);
    loc_stays(u, t.facts, heap);
    (dst, heap)
}

// What calls do.

proof fn args_named(
    a: ArenaView,
    func: usize,
    ctx: Seq<CallSite>,
    args: Seq<Option<Node>>,
    i: int,
    b: ArenaView,
)
    requires
        begins(args_of(a, func, ctx, args).arena.paths, b.paths),
        begins(args_of(a, func, ctx, args).arena.locs, b.locs),
        arena_fits(b),
        0 <= i < args.len(),
    ensures
        args_of(a, func, ctx, args).ids.len() == args.len(),
        match args[i] {
            Some(node) => match args_of(a, func, ctx, args).ids[i] {
                Some(id) => names_part(b, id, func, ctx, node.base, node.path@),
                None => false,
            },
            None => args_of(a, func, ctx, args).ids[i] is None,
        },
    decreases args.len(),
{
    let front = args.drop_last();
    let before = args_of(a, func, ctx, front);
    args_counted(a, func, ctx, args);
    if i < front.len() {
        assert(front[i] == args[i]);
        args_named(a, func, ctx, front, i, b);
        args_counted(a, func, ctx, front);
    } else {
        args_counted(a, func, ctx, front);
        match args.last() {
            Some(node) => {
                node_named(before.arena, func, ctx, node, b);
                node_is_part(b, node_id(before.arena, func, ctx, node), func, ctx, node);
            },
            None => {},
        }
    }
}

proof fn args_counted(a: ArenaView, func: usize, ctx: Seq<CallSite>, args: Seq<Option<Node>>)
    ensures
        args_of(a, func, ctx, args).ids.len() == args.len(),
    decreases args.len(),
{
    if args.len() > 0 {
        args_counted(a, func, ctx, args.drop_last());
    }
}

/// The numbers of a call are those of its result, its arguments and the memory
/// that it may allocate.
pub open spec fn names_call(
    a: ArenaView,
    func: usize,
    ctx: Seq<CallSite>,
    call: Call,
    dest: LocId,
    args: Seq<Option<LocId>>,
    heap: LocId,
) -> bool {
    &&& names_part(a, dest, func, ctx, call.dest.base, call.dest.path@)
    &&& names_part(
        a,
        heap,
        func,
        ctx,
        NodeBase::Heap { bb: call.bb, idx: call.idx },
        Seq::empty(),
    )
    &&& args.len() == call.args@.len()
    &&& forall|i: int|
        0 <= i < args.len() ==> match call.args@[i] {
            Some(node) => match #[trigger] args[i] {
                Some(id) => names_part(a, id, func, ctx, node.base, node.path@),
                None => false,
            },
            None => args[i] is None,
        }
}

/// The numbers of a call that is read.
pub(crate) proof fn call_names(
    before: CallsView,
    func: usize,
    ctx: Seq<CallSite>,
    call: Call,
    registry: ModelRegistry,
    u: FactsView,
) -> (p: PendingView)
    requires
        kept(with_call(before, func, ctx, call, registry).facts, u),
        arena_fits(u.arena),
    ensures
        names_call(u.arena, func, ctx, call, p.dest, p.args, p.heap),
        p.callee == call.callee,
        p.bb == call.bb,
        ({
            let after = with_call(before, func, ctx, call, registry);
            let effect = match call.path {
                Some(path) => registry.effect(path@),
                None => None,
            };
            match effect {
                Some(effect) => after.facts.constraints == with_items(
                    before.facts.constraints,
                    model_constraints(effect, p.dest, p.args, p.heap),
                ) && after.pending == before.pending,
                None => after.facts.constraints == before.facts.constraints && after.pending
                    == before.pending.push(p),
            }
        }),
{
    let after = with_call(before, func, ctx, call, registry);
    let a = with_node(before.facts.arena, func, ctx, call.dest);
    let dest = node_id(before.facts.arena, func, ctx, call.dest);
    let args = args_of(a, func, ctx, call.args@);
    let b = args.arena.with_empty();
    let loc = fresh_heap(func, ctx, call.bb, call.idx, args.arena.empty_id());
    let heap = b.loc_id(loc);
    let p = PendingView { callee: call.callee, bb: call.bb, dest, args: args.ids, heap };
    let named = before.facts.with_arena(b.with_loc(loc));
    assert(kept(named, after.facts)) by {
        match call.path {
            Some(path) => match registry.effect(path@) {
                Some(effect) => {
                    items_begin(
                        named.constraints,
                        model_constraints(effect, dest, args.ids, heap),
                    );
                },
                None => {},
            },
            None => {},
        }
    }
    kept_through(named, after.facts, u);
    args_begin(a, func, ctx, call.args@);
    assert(begins(a.paths, u.arena.paths));
    assert(begins(a.locs, u.arena.locs));
    node_named(before.facts.arena, func, ctx, call.dest, u.arena);
    node_is_part(u.arena, dest, func, ctx, call.dest);
    args_counted(a, func, ctx, call.args@);
    assert forall|i: int| 0 <= i < args.ids.len() implies match call.args@[i] {
        Some(node) => match #[trigger] args.ids[i] {
            Some(id) => names_part(u.arena, id, func, ctx, node.base, node.path@),
            None => false,
        },
        None => args.ids[i] is None,
    } by {
        args_named(a, func, ctx, call.args@, i, u.arena);
    }
    let empty = Seq::<ProjElem>::empty();
    place_in_facts(args.arena.paths, empty);
    place_in_facts(b.locs, loc);
    let e = place_in(args.arena.paths, empty) as int;
    let l = place_in(b.locs, loc) as int;
    assert(named.arena.paths[e] == empty);
    assert(u.arena.paths[e] == named.arena.paths[e]);
    assert(named.arena.locs[l] == loc);
    assert(u.arena.locs[l] == named.arena.locs[l]);
    p
}

/// The call of a body, once it is read: the numbers of its parts, and what is
/// left to be resolved or added by its model.
proof fn call_is_read(
    v: FactsView,
    func: usize,
    ctx: Seq<CallSite>,
    function: Function,
    registry: ModelRegistry,
    j: int,
    u: FactsView,
) -> (r: (PendingView, int))
    requires
        kept(with_body(v, func, ctx, function, registry).facts, u),
        arena_fits(u.arena),
        0 <= j < function.calls@.len(),
    ensures
        names_call(u.arena, func, ctx, function.calls@[j], r.0.dest, r.0.args, r.0.heap),
        r.0.callee == function.calls@[j].callee,
        r.0.bb == function.calls@[j].bb,
        match function.calls@[j].path {
            Some(path) => match registry.effect(path@) {
                Some(effect) => forall|c: Constraint|
                    #![trigger u.constraints.contains(c)]
                    model_constraints(effect, r.0.dest, r.0.args, r.0.heap).contains(c)
                        ==> u.constraints.contains(c),
                None => 0 <= r.1 < with_body(v, func, ctx, function, registry).pending.len()
                    && with_body(v, func, ctx, function, registry).pending[r.1] == r.0,
            },
            None => 0 <= r.1 < with_body(v, func, ctx, function, registry).pending.len()
                && with_body(v, func, ctx, function, registry).pending[r.1] == r.0,
        },
{
    let calls = function.calls@;
    let call = calls[j];
    let facts = without_calls(v, func, ctx, function);
    let begun = CallsView { facts, pending: Seq::empty() };
    let all = with_calls(begun, func, ctx, calls, registry);
    let before = with_calls(begun, func, ctx, calls.take(j), registry);
    let after = with_calls(begun, func, ctx, calls.take(j + 1), registry);
    assert(calls.take(j + 1).drop_last() =~= calls.take(j));
    assert(calls.take(j + 1).last() == call);
    assert(after == with_call(before, func, ctx, call, registry));
    calls_keep(begun, func, ctx, calls, registry, j + 1);
    kept_through(after.facts, all.facts, u);
    let p = call_names(before, func, ctx, call, registry, u);
    let at = match call.path {
        Some(path) => match registry.effect(path@) {
            Some(effect) => {
                let cs = model_constraints(effect, p.dest, p.args, p.heap);
                assert forall|c: Constraint|
                    #![trigger u.constraints.contains(c)]
                    cs.contains(c) implies u.constraints.contains(c) by {
                    items_contain(before.facts.constraints, cs, c);
                    begins_contains(after.facts.constraints, u.constraints, c);
                }
                0
            },
            None => pending_stays(begun, func, ctx, calls, registry, j),
        },
        None => pending_stays(begun, func, ctx, calls, registry, j),
    };
    (p, at)
}

proof fn items_contain(s: Seq<Constraint>, list: Seq<Constraint>, c: Constraint)
    requires
        list.contains(c),
    ensures
        with_items(s, list).contains(c),
    decreases list.len(),
{
    let front = list.drop_last();
    let before = with_items(s, front);
    if c == list.last() {
        place_in_facts(before, c);
        assert(with_items(s, list)[place_in(before, c) as int] == c);
    } else {
        let i = choose|i: int| 0 <= i < list.len() && list[i] == c;
        assert(front[i] == c);
        items_contain(s, front, c);
        begins_contains(before, with_items(s, list), c);
    }
}

proof fn pending_stays(
    s: CallsView,
    func: usize,
    ctx: Seq<CallSite>,
    calls: Seq<Call>,
    registry: ModelRegistry,
    j: int,
) -> (i: int)
    requires
        0 <= j < calls.len(),
        unmodelled(registry, calls[j]),
    ensures
        0 <= i < with_calls(s, func, ctx, calls, registry).pending.len(),
        with_calls(s, func, ctx, calls.take(j + 1), registry).pending.len() == i + 1,
        with_calls(s, func, ctx, calls, registry).pending[i] == with_calls(
            s,
            func,
            ctx,
            calls.take(j + 1),
            registry,
        ).pending[i],
    decreases calls.len(),
{
    let front = calls.drop_last();
    let before = with_calls(s, func, ctx, front, registry);
    if j < front.len() {
        assert(front.take(j + 1) =~= calls.take(j + 1));
        assert(front[j] == calls[j]);
        pending_stays(s, func, ctx, front, registry, j)
    } else {
        assert(calls.take(j + 1) =~= calls);
        before.pending.len() as int
    }
}

/// A call of a function that is built, before it is resolved and after.
proof fn call_is_resolved(
    set: Setting,
    s: PtaView,
    roots: Seq<InstanceId>,
    t: PtaView,
    x: InContext,
    j: int,
) -> (r: (PendingView, RunView))
    requires
        newly_built(set, s, roots, t, x),
        0 <= j < set.program.functions@[x.0 as int].calls@.len(),
    ensures
        ({
            let call = set.program.functions@[x.0 as int].calls@[j];
            let func = place_in(t.funcs, x.0) as usize;
            let (p, v) = r;
            &&& names_call(t.facts.arena, func, x.1, call, p.dest, p.args, p.heap)
            &&& p.callee == call.callee
            &&& p.bb == call.bb
            &&& unmodelled(set.registry, call) ==> kept(
                resolved(set, v, func, x.1, p).pta.facts,
                t.facts,
            ) && begins(resolved(set, v, func, x.1, p).pta.funcs, t.funcs)
            &&& match call.path {
                Some(path) => match set.registry.effect(path@) {
                    Some(effect) => forall|c: Constraint|
                        #![trigger t.facts.constraints.contains(c)]
                        model_constraints(effect, p.dest, p.args, p.heap).contains(c)
                            ==> t.facts.constraints.contains(c),
                    None => true,
                },
                None => true,
            }
        }),
{
    let function = set.program.functions@[x.0 as int];
    let call = function.calls@[j];
    let func = place_in(t.funcs, x.0) as usize;
    let trace = build_of(set, s, roots, t);
    let i = step_of(set, s, roots, t, trace, x);
    let q = trace[i].pta;
    let w = with_body(q.facts, func, x.1, function, set.registry);
    let pending = body_of(set, q, x).pending;
    assert(w == body_of(set, q, x));
    let begun = RunView { pta: entered(set, q, x), queue: trace[i].queue.drop_first() };
    let u = trace.last().pta;
    all_resolving_keeps(set, begun, func, x.1, pending, 0);
    assert(pending.take(0) =~= Seq::<PendingView>::empty());
    kept_through(begun.pta.facts, trace[i + 1].pta.facts, u.facts);
    kept_through(begun.pta.facts, u.facts, t.facts);
    let (p, k) = call_is_read(q.facts, func, x.1, function, set.registry, j, t.facts);
    let v = all_resolved(set, begun, func, x.1, pending.take(k));
    if unmodelled(set.registry, call) {
        assert(pending[k] == p);
        assert(pending.take(k + 1).drop_last() =~= pending.take(k));
        assert(pending.take(k + 1).last() == p);
        let after = all_resolved(set, begun, func, x.1, pending.take(k + 1));
        assert(after == resolved(set, v, func, x.1, p));
        all_resolving_keeps(set, begun, func, x.1, pending, k + 1);
        kept_through(after.pta.facts, trace[i + 1].pta.facts, u.facts);
        kept_through(after.pta.facts, u.facts, t.facts);
        funcs_begin(set, begun, func, x.1, pending, k + 1);
        running_keeps(set, trace, i + 1, trace.len() - 1);
        assert(begins(after.pta.funcs, t.funcs));
    }
    (p, v)
}

pub(crate) proof fn funcs_begin(
    set: Setting,
    s: RunView,
    func: usize,
    ctx: Seq<CallSite>,
    calls: Seq<PendingView>,
    m: int,
)
    requires
        0 <= m <= calls.len(),
    ensures
        begins(
            all_resolved(set, s, func, ctx, calls.take(m)).pta.funcs,
            all_resolved(set, s, func, ctx, calls).pta.funcs,
        ),
    decreases calls.len(),
{
    if m < calls.len() {
        let front = calls.drop_last();
        assert(front.take(m) =~= calls.take(m));
        funcs_begin(set, s, func, ctx, front, m);
        resolved_keeps(
            set,
            all_resolved(set, s, func, ctx, front),
            func,
            ctx,
            calls.last(),
        );
    } else {
        assert(calls.take(m) =~= calls);
    }
}

/// A call of an analyzed function that no model covers binds both ways: the
/// result is a copy of what the callee returns in the context of the call, and
/// each of its parameters there is a copy of its argument.
pub proof fn calls_are_bound(
    set: Setting,
    s: PtaView,
    roots: Seq<InstanceId>,
    t: PtaView,
    x: InContext,
    j: int,
) -> (r: (LocId, Seq<Option<LocId>>, LocId))
    requires
        newly_built(set, s, roots, t, x),
        leads_on(set, x, j),
    ensures
        ({
            let call = set.program.functions@[x.0 as int].calls@[j];
            let callee = call.callee->0;
            let arg_count = set.program.functions@[callee as int].arg_count;
            let (dest, args, heap) = r;
            let a = t.facts.arena;
            let ctx = target(set, t.funcs, x, call).1;
            let func = place_in(t.funcs, callee) as usize;
            &&& names_call(a, place_in(t.funcs, x.0) as usize, x.1, call, dest, args, heap)
            &&& t.funcs.contains(callee)
            &&& exists|ret: LocId| #[trigger]
                names_part(a, ret, func, ctx, NodeBase::Local(0), Seq::empty())
                    && t.facts.constraints.contains(Constraint::Copy { dst: dest, src: ret })
            &&& forall|i: usize|
                0 < i <= arg_count && i <= args.len() && (#[trigger] args[i - 1]) is Some
                    ==> exists|param: LocId| #[trigger]
                    names_part(a, param, func, ctx, NodeBase::Local(i), Seq::empty())
                        && t.facts.constraints.contains(
                        Constraint::Copy { dst: param, src: args[i - 1]->0 },
                    )
        }),
{
    let call = set.program.functions@[x.0 as int].calls@[j];
    let callee = call.callee->0;
    let function = set.program.functions@[callee as int];
    let from = place_in(t.funcs, x.0) as usize;
    let (p, v) = call_is_resolved(set, s, roots, t, x, j);
    let ctx = callee_context(set, from, x.1, p);
    assert(ctx == target(set, t.funcs, x, call).1);
    let w = with_callee(v.pta, callee, ctx, function, p);
    assert(resolved(set, v, from, x.1, p).pta == w);
    let func = place_in(v.pta.funcs, callee) as usize;
    place_in_facts(v.pta.funcs, callee);
    callee_keeps_funcs(v.pta, callee, ctx, function, p);
    let at = place_in(v.pta.funcs, callee) as int;
    assert(w.funcs[at] == callee);
    assert(w.funcs.contains(callee));
    place_in_facts(w.funcs, callee);
    assert(place_in(w.funcs, callee) == place_in(v.pta.funcs, callee)) by {
        place_in_at(w.funcs, callee, at);
    }
    begins_contains(w.funcs, t.funcs, callee);
    calls_bind_both_ways(v.pta, callee, ctx, function, p);
    let a = t.facts.arena;
    let empty = Seq::<ProjElem>::empty();
    let ret = choose|ret: LocId| #[trigger]
        names_local(w.facts.arena, ret, ctx, func, 0) && w.facts.constraints.contains(
            Constraint::Copy { dst: p.dest, src: ret },
        );
    assert(names_part(w.facts.arena, ret, func, ctx, NodeBase::Local(0), empty));
    part_stays(w.facts.arena, a, ret, func, ctx, NodeBase::Local(0), empty);
    begins_contains(
        w.facts.constraints,
        t.facts.constraints,
        Constraint::Copy { dst: p.dest, src: ret },
    );
    assert forall|i: usize|
        0 < i <= function.arg_count && i <= p.args.len() && (#[trigger] p.args[i
            - 1]) is Some implies exists|param: LocId| #[trigger]
        names_part(a, param, func, ctx, NodeBase::Local(i), empty)
            && t.facts.constraints.contains(
            Constraint::Copy { dst: param, src: p.args[i - 1]->0 },
        ) by {
        let param = choose|param: LocId| #[trigger]
            names_local(w.facts.arena, param, ctx, func, i) && w.facts.constraints.contains(
                Constraint::Copy { dst: param, src: p.args[i - 1]->0 },
            );
        assert(names_part(w.facts.arena, param, func, ctx, NodeBase::Local(i), empty));
        part_stays(w.facts.arena, a, param, func, ctx, NodeBase::Local(i), empty);
        begins_contains(
            w.facts.constraints,
            t.facts.constraints,
            Constraint::Copy { dst: param, src: p.args[i - 1]->0 },
        );
    }
    (p.dest, p.args, p.heap)
}

pub(crate) proof fn callee_keeps_funcs(
    s: PtaView,
    callee: InstanceId,
    ctx: Seq<CallSite>,
    function: Function,
    call: PendingView,
)
    ensures
        with_callee(s, callee, ctx, function, call).funcs == with_item(s.funcs, callee),
{
    let func = place_in(s.funcs, callee) as usize;
    let a = s.facts.arena.with_empty();
    let loc = var(ctx, func, 0, s.facts.arena.empty_id());
    let t = PtaView {
        funcs: with_item(s.funcs, callee),
        ..s.with_arena(a.with_loc(loc)).with_constraint(
            Constraint::Copy { dst: call.dest, src: a.loc_id(loc) },
        )
    };
    params_keep(t, func, ctx, function, function.arg_count as nat, call.args);
}

/// The call is one that no model covers and of which no body is analyzed.
pub open spec fn is_unknown(set: Setting, call: Call) -> bool {
    &&& unmodelled(set.registry, call)
    &&& match call.callee {
        Some(c) => c < set.program.functions@.len()
            ==> !set.program.functions@[c as int].analyzed(),
        None => true,
    }
}

/// The result of a call of which nothing is known may be any of its arguments,
/// or fresh memory.
pub proof fn unknown_calls_return_anything(
    set: Setting,
    s: PtaView,
    roots: Seq<InstanceId>,
    t: PtaView,
    x: InContext,
    j: int,
) -> (r: (LocId, Seq<Option<LocId>>, LocId))
    requires
        newly_built(set, s, roots, t, x),
        0 <= j < set.program.functions@[x.0 as int].calls@.len(),
        is_unknown(set, set.program.functions@[x.0 as int].calls@[j]),
    ensures
        ({
            let call = set.program.functions@[x.0 as int].calls@[j];
            let (dest, args, heap) = r;
            let cs = t.facts.constraints;
            &&& names_call(
                t.facts.arena,
                place_in(t.funcs, x.0) as usize,
                x.1,
                call,
                dest,
                args,
                heap,
            )
            &&& cs.contains(Constraint::AddressOf { dst: dest, obj: heap })
            &&& forall|i: int|
                0 <= i < args.len() && (#[trigger] args[i]) is Some ==> cs.contains(
                    Constraint::Copy { dst: dest, src: args[i]->0 },
                )
        }),
{
    let from = place_in(t.funcs, x.0) as usize;
    let (p, v) = call_is_resolved(set, s, roots, t, x, j);
    let w = resolved(set, v, from, x.1, p).pta.facts;
    let cs = unknown_constraints(p.dest, p.args, p.heap);
    let fresh = Constraint::AddressOf { dst: p.dest, obj: p.heap };
    assert(cs[cs.len() - 1] == fresh);
    items_contain(v.pta.facts.constraints, cs, fresh);
    begins_contains(w.constraints, t.facts.constraints, fresh);
    assert forall|i: int| 0 <= i < p.args.len() && (
    #[trigger] p.args[i]) is Some implies t.facts.constraints.contains(
        Constraint::Copy { dst: p.dest, src: p.args[i]->0 },
    ) by {
        let c = Constraint::Copy { dst: p.dest, src: p.args[i]->0 };
        copies_contain(p.dest, p.args, i);
        let k = choose|k: int|
            0 <= k < arg_copies(p.dest, p.args).len() && arg_copies(p.dest, p.args)[k] == c;
        assert(cs[k] == c);
        items_contain(v.pta.facts.constraints, cs, c);
        begins_contains(w.constraints, t.facts.constraints, c);
    }
    (p.dest, p.args, p.heap)
}

proof fn copies_contain(dest: LocId, args: Seq<Option<LocId>>, i: int)
    requires
        0 <= i < args.len(),
        args[i] is Some,
    ensures
        arg_copies(dest, args).contains(Constraint::Copy { dst: dest, src: args[i]->0 }),
    decreases args.len(),
{
    let front = args.drop_last();
    let before = arg_copies(dest, front);
    let all = arg_copies(dest, args);
    let c = Constraint::Copy { dst: dest, src: args[i]->0 };
    if i < front.len() {
        assert(front[i] == args[i]);
        copies_contain(dest, front, i);
        let k = choose|k: int| 0 <= k < before.len() && before[k] == c;
        assert(all[k] == c);
    } else {
        assert(all[before.len() as int] == c);
    }
}

/// A modelled call does what the first model of its callee says: it returns an
/// argument, or fresh memory.
pub proof fn modelled_calls_follow_their_model(
    set: Setting,
    s: PtaView,
    roots: Seq<InstanceId>,
    t: PtaView,
    x: InContext,
    j: int,
    n: int,
) -> (r: (LocId, Seq<Option<LocId>>, LocId))
    requires
        newly_built(set, s, roots, t, x),
        0 <= j < set.program.functions@[x.0 as int].calls@.len(),
        set.program.functions@[x.0 as int].calls@[j].path is Some,
        0 <= n < set.registry.models@.len(),
        set.registry.models@[n].callee@ == (set.program.functions@[x.0 as int].calls@[j].path->0)@,
        forall|m: int|
            0 <= m < n ==> (#[trigger] set.registry.models@[m]).callee@ != (
            set.program.functions@[x.0 as int].calls@[j].path->0)@,
    ensures
        ({
            let call = set.program.functions@[x.0 as int].calls@[j];
            let (dest, args, heap) = r;
            let cs = t.facts.constraints;
            &&& names_call(
                t.facts.arena,
                place_in(t.funcs, x.0) as usize,
                x.1,
                call,
                dest,
                args,
                heap,
            )
            &&& match set.registry.models@[n].effect {
                ModelEffect::ReturnsArg(i) => i < args.len() && args[i as int] is Some
                    ==> cs.contains(Constraint::Copy { dst: dest, src: args[i as int]->0 }),
                ModelEffect::Allocates => cs.contains(
                    Constraint::AddressOf { dst: dest, obj: heap },
                ),
                ModelEffect::Ignores => true,
            }
        }),
{
    let path = (set.program.functions@[x.0 as int].calls@[j].path->0)@;
    first_model_counts(set.registry.models@, path, 0, n as nat);
    let (p, v) = call_is_resolved(set, s, roots, t, x, j);
    let effect = set.registry.models@[n].effect;
    let cs = model_constraints(effect, p.dest, p.args, p.heap);
    match effect {
        ModelEffect::ReturnsArg(i) => {
            if i < p.args.len() && p.args[i as int] is Some {
                assert(cs[0] == (Constraint::Copy { dst: p.dest, src: p.args[i as int]->0 }));
                assert(cs.contains(cs[0]));
                assert(t.facts.constraints.contains(cs[0]));
            }
        },
        ModelEffect::Allocates => {
            assert(cs[0] == (Constraint::AddressOf { dst: p.dest, obj: p.heap }));
            assert(cs.contains(cs[0]));
            assert(t.facts.constraints.contains(cs[0]));
        },
        ModelEffect::Ignores => {},
    }
    (p.dest, p.args, p.heap)
}

proof fn first_model_counts(models: Seq<CallModel>, callee: Seq<char>, m: nat, n: nat)
    requires
        m <= n < models.len(),
        models[n as int].callee@ == callee,
        forall|k: int| m <= k < n ==> (#[trigger] models[k]).callee@ != callee,
    ensures
        effect_from(models, callee, m) == Some(models[n as int].effect),
    decreases n - m,
{
    if m < n {
        assert(models[m as int].callee@ != callee);
        first_model_counts(models, callee, m + 1, n);
    }
}

pub(crate) proof fn leaves_begin_from(s: PtaView, param: LocId, arg: LocId, paths: Seq<Vec<ProjElem>>, m: int)
    requires
        0 <= m <= paths.len(),
    ensures
        kept_facts(
            with_leaves(s, param, arg, paths.take(m)).facts,
            with_leaves(s, param, arg, paths).facts,
        ),
    decreases paths.len(),
{
    if m < paths.len() {
        let front = paths.drop_last();
        assert(front.take(m) =~= paths.take(m));
        leaves_begin_from(s, param, arg, front, m);
        leaves_begin(with_leaves(s, param, arg, front), param, arg, seq![paths.last()]);
        assert(seq![paths.last()].drop_last() =~= Seq::<Vec<ProjElem>>::empty());
        reveal_with_fuel(with_leaves, 2);
    } else {
        assert(paths.take(m) =~= paths);
    }
}

/// The constraints that read a part of what a pointer points to: the address of
/// the part is computed, and what it points to is loaded.
pub open spec fn reads_part(
    v: FactsView,
    dst: LocId,
    via: LocId,
    src: LocId,
    suffix: FieldPath,
    path: Seq<ProjElem>,
) -> bool {
    &&& suffix < v.arena.paths.len()
    &&& v.arena.paths[suffix as int] == path
    &&& v.constraints.contains(Constraint::Offset { dst: via, src, suffix })
    &&& v.constraints.contains(Constraint::Load { dst, src: via })
}

proof fn leaf_is_bound(
    s: PtaView,
    func: usize,
    ctx: Seq<CallSite>,
    i: usize,
    param: LocId,
    arg: LocId,
    path: Seq<ProjElem>,
    b: FactsView,
) -> (r: (LocId, LocId, FieldPath))
    requires
        kept_facts(with_leaf(s, param, arg, path).facts, b),
        arena_fits(b.arena),
        names_part(s.facts.arena, param, func, ctx, NodeBase::Local(i), Seq::empty()),
        0 < path.len() <= 8,
    ensures
        reads_part(b, r.0, r.1, arg, r.2, path),
        names_part(b.arena, r.0, func, ctx, NodeBase::Local(i), path),
{
    let w = with_leaf(s, param, arg, path).facts;
    let a = s.facts.arena;
    let id = a.path_id(path);
    let named = a.with_path(path);
    place_in_facts(a.paths, path);
    let n = place_in(a.paths, path) as int;
    let q = named.locs[param as int].path() as int;
    assert(named.paths[q] == a.paths[q]);
    assert(named.paths[n] == path);
    let full = Seq::<ProjElem>::empty() + path;
    assert(full =~= path);
    assert(w.arena.paths.len() <= usize::MAX);
    assert(begins(named.paths, w.arena.paths));
    assert(named.projected_path(param, id) =~= path);
    assert(named.can_project(param, id));
    let loc = named.projection(param, id);
    let part = named.loc_id(loc);
    let t = PtaView {
        facts: FactsView { arena: named.with_projection(param, id), ..s.facts },
        ..s
    };
    place_in_facts(named.paths, path);
    place_in_facts(named.locs, loc);
    let temp = t.temp_id();
    let offset = Constraint::Offset { dst: temp, src: arg, suffix: id };
    let load = Constraint::Load { dst: part, src: temp };
    let one = with_item(s.facts.constraints, offset);
    place_in_facts(s.facts.constraints, offset);
    assert(one.contains(offset)) by {
        assert(one[place_in(s.facts.constraints, offset) as int] == offset);
    }
    place_in_facts(one, load);
    let two = with_item(one, load);
    assert(two.contains(load)) by {
        assert(two[place_in(one, load) as int] == load);
    }
    assert(w.constraints == two);
    begins_contains(one, two, offset);
    begins_contains(w.constraints, b.constraints, offset);
    begins_contains(w.constraints, b.constraints, load);
    let l = place_in(named.locs, loc) as int;
    assert(t.facts.arena.locs[l] == loc);
    assert(begins(t.facts.arena.locs, w.arena.locs));
    assert(w.arena.locs[l] == loc);
    assert(b.arena.locs[l] == w.arena.locs[l]);
    assert(w.arena.paths[n] == named.paths[n]);
    assert(b.arena.paths[n] == w.arena.paths[n]);
    assert(named.path_id(path) == id) by {
        assert forall|k: int| 0 <= k < n implies named.paths[k] != path by {
            assert(a.paths[k] != path);
        }
        place_in_at(named.paths, path, n);
    }
    (part, temp, id)
}

/// The fields of a parameter are bound too: each leaf field of its type holds
/// what the field of the argument's pointees holds.
#[verifier::rlimit(40)]
#[verifier::spinoff_prover]
pub proof fn parameter_fields_are_bound(
    set: Setting,
    s: PtaView,
    roots: Seq<InstanceId>,
    t: PtaView,
    x: InContext,
    j: int,
    i: usize,
    k: int,
) -> (r: (LocId, LocId, LocId, FieldPath))
    requires
        newly_built(set, s, roots, t, x),
        leads_on(set, x, j),
        ({
            let call = set.program.functions@[x.0 as int].calls@[j];
            let function = set.program.functions@[call.callee->0 as int];
            &&& 0 < i <= function.arg_count
            &&& i <= call.args@.len()
            &&& call.args@[i - 1] is Some
            &&& i <= function.param_paths@.len()
            &&& 0 <= k < function.param_paths@[i - 1]@.len()
            &&& 0 < function.param_paths@[i - 1]@[k]@.len() <= 8
        }),
    ensures
        ({
            let call = set.program.functions@[x.0 as int].calls@[j];
            let callee = call.callee->0;
            let node = call.args@[i - 1]->0;
            let path = set.program.functions@[callee as int].param_paths@[i - 1]@[k]@;
            let (arg, part, via, suffix) = r;
            let a = t.facts.arena;
            &&& names_part(
                a,
                arg,
                place_in(t.funcs, x.0) as usize,
                x.1,
                node.base,
                node.path@,
            )
            &&& names_part(
                a,
                part,
                place_in(t.funcs, callee) as usize,
                target(set, t.funcs, x, call).1,
                NodeBase::Local(i),
                path,
            )
            &&& reads_part(t.facts, part, via, arg, suffix, path)
        }),
{
    let call = set.program.functions@[x.0 as int].calls@[j];
    let callee = call.callee->0;
    let function = set.program.functions@[callee as int];
    let from = place_in(t.funcs, x.0) as usize;
    let (p, v) = call_is_resolved(set, s, roots, t, x, j);
    let ctx = callee_context(set, from, x.1, p);
    assert(ctx == target(set, t.funcs, x, call).1);
    let w = with_callee(v.pta, callee, ctx, function, p);
    assert(resolved(set, v, from, x.1, p).pta == w);
    let func = place_in(v.pta.funcs, callee) as usize;
    place_in_facts(v.pta.funcs, callee);
    callee_keeps_funcs(v.pta, callee, ctx, function, p);
    let at = place_in(v.pta.funcs, callee) as int;
    assert(w.funcs[at] == callee);
    place_in_at(w.funcs, callee, at);
    begins_contains(w.funcs, t.funcs, callee);
    let arg = p.args[i - 1]->0;
    assert(names_call(t.facts.arena, from, x.1, call, p.dest, p.args, p.heap));
    assert(p.args[i - 1] is Some);
    let a0 = v.pta.facts.arena.with_empty();
    let loc0 = var(ctx, func, 0, v.pta.facts.arena.empty_id());
    let m = PtaView {
        funcs: with_item(v.pta.funcs, callee),
        ..v.pta.with_arena(a0.with_loc(loc0)).with_constraint(
            Constraint::Copy { dst: p.dest, src: a0.loc_id(loc0) },
        )
    };
    let n = function.arg_count as nat;
    let before = with_params(m, func, ctx, function, (i - 1) as nat, p.args);
    let after = with_params(m, func, ctx, function, i as nat, p.args);
    params_begin(m, func, ctx, function, i as nat, n, p.args);
    let b = before.facts.arena.with_empty();
    let l = var(ctx, func, i, before.facts.arena.empty_id());
    let param = b.loc_id(l);
    let q = before.with_arena(b.with_loc(l)).with_constraint(
        Constraint::Copy { dst: param, src: arg },
    );
    let leaves = leaf_paths(function, i as int);
    assert(leaves == function.param_paths@[i - 1]@);
    let c = with_leaves(q, param, arg, leaves.take(k));
    let d = with_leaves(q, param, arg, leaves.take(k + 1));
    assert(leaves.take(k + 1).drop_last() =~= leaves.take(k));
    assert(leaves.take(k + 1).last() == leaves[k]);
    assert(d == with_leaf(c, param, arg, leaves[k]@));
    leaves_begin_from(q, param, arg, leaves, k + 1);
    leaves_begin(q, param, arg, leaves.take(k));
    assert(after == with_leaves(q, param, arg, leaves));
    assert(kept_facts(d.facts, after.facts));
    assert(kept_facts(after.facts, w.facts));
    assert(kept_facts(d.facts, w.facts));
    assert(kept_facts(w.facts, t.facts));
    assert(kept_facts(d.facts, t.facts));
    leaves_begin(c, param, arg, seq![leaves[k]]);
    assert(seq![leaves[k]].drop_last() =~= Seq::<Vec<ProjElem>>::empty());
    assert(with_leaves(c, param, arg, seq![leaves[k]]) == d) by {
        reveal_with_fuel(with_leaves, 2);
    }
    assert(kept_facts(c.facts, d.facts));
    assert(kept_facts(c.facts, t.facts));
    local_named(before.facts.arena, ctx, func, i, c.facts.arena);
    let (part, via, suffix) = leaf_is_bound(
        c,
        func,
        ctx,
        i,
        param,
        arg,
        leaves[k]@,
        t.facts,
    );
    (arg, part, via, suffix)
}

/// Each field that is bound has a temporary of its own: the next one is another
/// local.
pub proof fn temporaries_are_fresh(
    s: PtaView,
    param: LocId,
    arg: LocId,
    path: Seq<ProjElem>,
)
    requires
        s.temp < usize::MAX,
        path.len() > 0,
        s.facts.arena.with_path(path).project(param, s.facts.arena.path_id(path)) is Some,
    ensures
        with_leaf(s, param, arg, path).temp == s.temp + 1,
        with_leaf(s, param, arg, path).temp_loc() != s.temp_loc(),
{
}

/// The functions that are analyzed are the user's own with a body at hand, but
/// for promoted constants.
pub proof fn user_functions_are_analyzed(function: Function)
    ensures
        function.analyzed() <==> function.is_user_item && !function.is_promoted,
{
}

} // verus!

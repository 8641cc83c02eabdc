//! What building and solving promise as a whole.

use super::analysis::{
    all_resolved, body_of, builds, built_numbered, built_ok, callee_context, entered, is_resolved,
    is_run, leaf_paths, nothing_built, resolved, root_queue, runs_to, var, visited, with_callee,
    with_closures, with_env, with_env_parts, with_env_slots, with_envs, with_leaves, with_param,
    with_params, ClosureView, InContext, PtaView, RunView, Setting, MAX_UPVAR_FIELDS,
};
use super::builder::{
    args_of, flow_constraint, fresh_heap, node_id, node_loc, with_body, with_call, with_calls,
    with_captured, with_captures, with_flow, with_flows, with_node, CallsView, FactsView,
    PendingView,
};
use super::constraint::{with_items, Constraint};
use super::context::extended;
use super::ids::with_id;
use super::loc::{
    place_in, place_in_at, place_in_facts, with_item, ArenaView, CallSite, FieldPath, LocId,
    ProjElem,
};
use super::model::{model_constraints, ModelRegistry};
use super::program::{Call, Capture, Flow, Function, Node};
use super::result::PointsToResult;
use super::solver::{relation, satisfies, satisfies_all, solves};
use crate::collections::list_at;
use crate::translate::mir::{DefId, InstanceId, Local};
use vstd::prelude::*;

verus! {

/// The points-to sets of a set of constraints are determined.
pub proof fn solution_is_unique(
    r1: PointsToResult,
    r2: PointsToResult,
    cs: Seq<Constraint>,
    a: ArenaView,
)
    requires
        solves(r1, cs, a),
        solves(r2, cs, a),
    ensures
        forall|n: LocId, p: LocId| #[trigger] r1.holds(n, p) == r2.holds(n, p),
{
    solution_grows(r1, cs, r2, cs, a);
    solution_grows(r2, cs, r1, cs, a);
}

/// More constraints never take anything out of a points-to set.
pub proof fn solution_grows(
    r1: PointsToResult,
    cs1: Seq<Constraint>,
    r2: PointsToResult,
    cs2: Seq<Constraint>,
    a: ArenaView,
)
    requires
        solves(r1, cs1, a),
        solves(r2, cs2, a),
        forall|i: int| 0 <= i < cs1.len() ==> cs2.contains(#[trigger] cs1[i]),
    ensures
        forall|n: LocId, p: LocId| #[trigger] r1.holds(n, p) ==> r2.holds(n, p),
{
    let r = relation(r2);
    assert(satisfies_all(r, cs1, a)) by {
        assert forall|i: int| 0 <= i < cs1.len() implies satisfies(
            r,
            #[trigger] cs1[i],
            a,
        ) by {
            let j = choose|j: int| 0 <= j < cs2.len() && cs2[j] == cs1[i];
            assert(satisfies(r, cs2[j], a));
        }
    }
    assert forall|n: LocId, p: LocId| #[trigger] r1.holds(n, p) implies r2.holds(n, p) by {
        assert(r(n, p));
    }
}

/// Without contexts, no function is built twice.
pub proof fn built_once_without_contexts(
    built: Seq<InContext>,
    closures: Seq<ClosureView>,
    n: nat,
    i: int,
    j: int,
)
    requires
        built_ok(built, closures, n, 0),
        0 <= i < built.len(),
        0 <= j < built.len(),
        built[i].0 == built[j].0,
    ensures
        i == j,
{
    reveal(built_ok);
    assert(built[i].1 =~= built[j].1);
}

proof fn runs_agree(set: Setting, t1: Seq<RunView>, t2: Seq<RunView>, i: int)
    requires
        is_run(set, t1),
        is_run(set, t2),
        t1[0] == t2[0],
        0 <= i < t1.len(),
        i < t2.len(),
    ensures
        t1[i] == t2[i],
    decreases i,
{
    if i > 0 {
        runs_agree(set, t1, t2, i - 1);
        assert(t1[i] == visited(set, t1[i - 1]));
        assert(t2[i] == visited(set, t2[i - 1]));
    }
}

/// What the roots reach is determined: building gives one result.
pub proof fn building_is_determined(
    set: Setting,
    s: PtaView,
    roots: Seq<InstanceId>,
    t1: PtaView,
    t2: PtaView,
)
    requires
        builds(set, s, roots, t1),
        builds(set, s, roots, t2),
    ensures
        t1 == t2,
{
    let begun = RunView { pta: s, queue: root_queue(roots) };
    let u1 = choose|u: PtaView| #[trigger]
        runs_to(set, begun, u) && t1 == with_closures(
            set,
            PtaView { closures: Seq::empty(), ..u },
            u.closures,
        );
    let u2 = choose|u: PtaView| #[trigger]
        runs_to(set, begun, u) && t2 == with_closures(
            set,
            PtaView { closures: Seq::empty(), ..u },
            u.closures,
        );
    let r1 = choose|trace: Seq<RunView>| #[trigger]
        is_run(set, trace) && trace[0] == begun && trace.last().pta == u1;
    let r2 = choose|trace: Seq<RunView>| #[trigger]
        is_run(set, trace) && trace[0] == begun && trace.last().pta == u2;
    if r1.len() < r2.len() {
        runs_agree(set, r1, r2, r1.len() - 1);
        assert(r2[r1.len() - 1].queue.len() > 0);
    } else if r2.len() < r1.len() {
        runs_agree(set, r1, r2, r2.len() - 1);
        assert(r1[r2.len() - 1].queue.len() > 0);
    } else {
        runs_agree(set, r1, r2, r1.len() - 1);
    }
}

/// Only the facts and the temporaries differ.
pub open spec fn same_functions(s: PtaView, t: PtaView) -> bool {
    s.built == t.built && s.funcs == t.funcs && s.closures == t.closures
}

proof fn leaves_keep(s: PtaView, param: LocId, arg: LocId, paths: Seq<Vec<ProjElem>>)
    ensures
        same_functions(s, with_leaves(s, param, arg, paths)),
    decreases paths.len(),
{
    if paths.len() > 0 {
        leaves_keep(s, param, arg, paths.drop_last());
    }
}

pub(crate) proof fn params_keep(
    s: PtaView,
    func: usize,
    ctx: Seq<CallSite>,
    function: Function,
    n: nat,
    args: Seq<Option<LocId>>,
)
    ensures
        same_functions(s, with_params(s, func, ctx, function, n, args)),
    decreases n,
{
    if n > 0 {
        params_keep(s, func, ctx, function, (n - 1) as nat, args);
        let before = with_params(s, func, ctx, function, (n - 1) as nat, args);
        let i = n as usize;
        if 0 < i <= args.len() && args[i - 1] is Some {
            let arg = args[i - 1]->0;
            let a = before.facts.arena.with_empty();
            let loc = var(ctx, func, i, before.facts.arena.empty_id());
            let param = a.loc_id(loc);
            leaves_keep(
                before.with_arena(a.with_loc(loc)).with_constraint(
                    Constraint::Copy { dst: param, src: arg },
                ),
                param,
                arg,
                leaf_paths(function, i as int),
            );
        }
    }
}

/// The first list is the beginning of the second.
pub open spec fn begins<T>(s: Seq<T>, t: Seq<T>) -> bool {
    s.len() <= t.len() && forall|i: int| 0 <= i < s.len() ==> #[trigger] t[i] == s[i]
}

pub(crate) proof fn begins_contains<T>(s: Seq<T>, t: Seq<T>, x: T)
    requires
        begins(s, t),
        s.contains(x),
    ensures
        t.contains(x),
        place_in(t, x) == place_in(s, x),
{
    place_in_facts(s, x);
    let i = place_in(s, x) as int;
    assert(t[i] == s[i]);
    assert forall|j: int| 0 <= j < i implies t[j] != x by {
        assert(t[j] == s[j]);
    }
    place_in_at(t, x, i);
}

/// The function is built in its context, or is to be.
pub open spec fn known(s: RunView, x: InContext) -> bool {
    s.pta.built.contains(x) || s.queue.contains(x)
}

pub(crate) proof fn resolved_keeps(
    set: Setting,
    s: RunView,
    func: usize,
    ctx: Seq<CallSite>,
    call: PendingView,
)
    ensures
        ({
            let t = resolved(set, s, func, ctx, call);
            &&& t.pta.built == s.pta.built
            &&& t.pta.closures == s.pta.closures
            &&& begins(s.pta.funcs, t.pta.funcs)
            &&& begins(s.queue, t.queue)
            &&& is_resolved(set, call) ==> known(
                t,
                (call.callee->0, callee_context(set, func, ctx, call)),
            )
        }),
{
    if is_resolved(set, call) {
        let callee = call.callee->0;
        let callee_ctx = callee_context(set, func, ctx, call);
        let function = set.program.functions@[callee as int];
        let f = place_in(s.pta.funcs, callee) as usize;
        let a = s.pta.facts.arena.with_empty();
        let loc = var(callee_ctx, f, 0, s.pta.facts.arena.empty_id());
        let t = PtaView {
            funcs: with_item(s.pta.funcs, callee),
            ..s.pta.with_arena(a.with_loc(loc)).with_constraint(
                Constraint::Copy { dst: call.dest, src: a.loc_id(loc) },
            )
        };
        params_keep(t, f, callee_ctx, function, function.arg_count as nat, call.args);
        let r = resolved(set, s, func, ctx, call);
        if !s.pta.built.contains((callee, callee_ctx)) {
            assert(r.queue[s.queue.len() as int] == (callee, callee_ctx));
        }
    }
}

pub(crate) proof fn all_resolved_keeps(
    set: Setting,
    s: RunView,
    func: usize,
    ctx: Seq<CallSite>,
    calls: Seq<PendingView>,
)
    ensures
        ({
            let t = all_resolved(set, s, func, ctx, calls);
            &&& t.pta.built == s.pta.built
            &&& t.pta.closures == s.pta.closures
            &&& begins(s.pta.funcs, t.pta.funcs)
            &&& begins(s.queue, t.queue)
            &&& forall|i: int|
                0 <= i < calls.len() && is_resolved(set, #[trigger] calls[i]) ==> known(
                    t,
                    (calls[i].callee->0, callee_context(set, func, ctx, calls[i])),
                )
        }),
    decreases calls.len(),
{
    if calls.len() > 0 {
        let front = calls.drop_last();
        let m = all_resolved(set, s, func, ctx, front);
        let t = all_resolved(set, s, func, ctx, calls);
        all_resolved_keeps(set, s, func, ctx, front);
        resolved_keeps(set, m, func, ctx, calls.last());
        assert forall|i: int|
            0 <= i < calls.len() && is_resolved(set, #[trigger] calls[i]) implies known(
            t,
            (calls[i].callee->0, callee_context(set, func, ctx, calls[i])),
        ) by {
            if i < front.len() {
                assert(front[i] == calls[i]);
                let x = (calls[i].callee->0, callee_context(set, func, ctx, calls[i]));
                if m.queue.contains(x) {
                    begins_contains(m.queue, t.queue, x);
                }
            }
        }
    }
}

/// A call that no model covers.
pub open spec fn unmodelled(registry: ModelRegistry, call: Call) -> bool {
    match call.path {
        Some(path) => registry.effect(path@) is None,
        None => true,
    }
}

pub(crate) proof fn calls_pend(
    s: CallsView,
    func: usize,
    ctx: Seq<CallSite>,
    calls: Seq<Call>,
    registry: ModelRegistry,
    j: int,
) -> (i: int)
    requires
        0 <= j < calls.len(),
        unmodelled(registry, calls[j]),
    ensures
        0 <= i < with_calls(s, func, ctx, calls, registry).pending.len(),
        with_calls(s, func, ctx, calls, registry).pending[i].callee == calls[j].callee,
        with_calls(s, func, ctx, calls, registry).pending[i].bb == calls[j].bb,
    decreases calls.len(),
{
    let front = calls.drop_last();
    let before = with_calls(s, func, ctx, front, registry);
    if j < front.len() {
        assert(front[j] == calls[j]);
        calls_pend(s, func, ctx, front, registry, j)
    } else {
        before.pending.len() as int
    }
}

/// Where a call of a function in its context leads.
pub open spec fn target(set: Setting, funcs: Seq<InstanceId>, from: InContext, call: Call) -> InContext {
    (
        call.callee->0,
        extended(
            from.1,
            CallSite { func: place_in(funcs, from.0) as usize, bb: call.bb },
            set.k,
        ),
    )
}

/// The call leads from a function that is analyzed to another such.
pub open spec fn leads_on(set: Setting, from: InContext, j: int) -> bool {
    let function = set.program.functions@[from.0 as int];
    &&& function.analyzed()
    &&& 0 <= j < function.calls@.len()
    &&& unmodelled(set.registry, function.calls@[j])
    &&& match function.calls@[j].callee {
        Some(c) => c < set.program.functions@.len() && set.program.functions@[c as int].analyzed(),
        None => false,
    }
}

/// Every call of what is built leads to something that is built, or is to be.
spec fn covered(set: Setting, s: RunView) -> bool {
    &&& forall|x: InContext| #[trigger]
        s.pta.built.contains(x) && set.program.functions@[x.0 as int].analyzed()
            ==> s.pta.funcs.contains(x.0)
    &&& forall|x: InContext, j: int|
        #![trigger s.pta.built.contains(x), leads_on(set, x, j)]
        s.pta.built.contains(x) && leads_on(set, x, j) ==> known(
            s,
            target(set, s.pta.funcs, x, set.program.functions@[x.0 as int].calls@[j]),
        )
}

/// Every call of what is built leads to something that is built.
pub open spec fn closed_under_calls(set: Setting, s: PtaView) -> bool {
    forall|x: InContext, j: int|
        #![trigger s.built.contains(x), leads_on(set, x, j)]
        s.built.contains(x) && leads_on(set, x, j) ==> s.built.contains(
            target(set, s.funcs, x, set.program.functions@[x.0 as int].calls@[j]),
        )
}

/// Entering the first function of the queue, and resolving its calls.
pub(crate) proof fn entering_keeps(set: Setting, s: RunView)
    requires
        s.queue.len() > 0,
        !s.pta.built.contains(s.queue[0]),
        set.program.functions@[s.queue[0].0 as int].analyzed(),
    ensures
        ({
            let x = s.queue[0];
            let t = visited(set, s);
            let func = place_in(s.pta.funcs, x.0) as usize;
            let pending = body_of(set, s.pta, x).pending;
            &&& t.pta.built == s.pta.built.push(x)
            &&& begins(with_item(s.pta.funcs, x.0), t.pta.funcs)
            &&& begins(s.queue.drop_first(), t.queue)
            &&& forall|i: int|
                0 <= i < pending.len() && is_resolved(set, #[trigger] pending[i]) ==> known(
                    t,
                    (pending[i].callee->0, callee_context(set, func, x.1, pending[i])),
                )
        }),
{
    let x = s.queue[0];
    all_resolved_keeps(
        set,
        RunView { pta: entered(set, s.pta, x), queue: s.queue.drop_first() },
        place_in(s.pta.funcs, x.0) as usize,
        x.1,
        body_of(set, s.pta, x).pending,
    );
}

pub(crate) proof fn visited_keeps(set: Setting, s: RunView, x: InContext)
    requires
        s.queue.len() > 0,
        known(s, x),
    ensures
        known(visited(set, s), x),
        begins(s.pta.built, visited(set, s).pta.built),
        begins(s.pta.funcs, visited(set, s).pta.funcs),
{
    let t = visited(set, s);
    let first = s.queue[0];
    let rest = s.queue.drop_first();
    if !s.pta.built.contains(first) && set.program.functions@[first.0 as int].analyzed() {
        entering_keeps(set, s);
    }
    if s.pta.built.contains(x) {
        begins_contains(s.pta.built, t.pta.built, x);
    } else {
        let i = choose|i: int| 0 <= i < s.queue.len() && s.queue[i] == x;
        if i == 0 {
            assert(t.pta.built[s.pta.built.len() as int] == x);
        } else {
            assert(rest[i - 1] == x);
            begins_contains(rest, t.queue, x);
        }
    }
}

proof fn visited_covers(set: Setting, s: RunView)
    requires
        s.queue.len() > 0,
        covered(set, s),
    ensures
        covered(set, visited(set, s)),
{
    let t = visited(set, s);
    let (instance, ctx) = s.queue[0];
    visited_keeps(set, s, s.queue[0]);
    assert forall|x: InContext| #[trigger]
        t.pta.built.contains(x) && set.program.functions@[x.0 as int].analyzed() implies t.pta.funcs.contains(
    x.0) by {
        if s.pta.built.contains(x) {
            begins_contains(s.pta.funcs, t.pta.funcs, x.0);
        } else {
            new_is_numbered(set, s, x);
        }
    }
    assert forall|x: InContext, j: int|
        #![trigger t.pta.built.contains(x), leads_on(set, x, j)]
        t.pta.built.contains(x) && leads_on(set, x, j) implies known(
        t,
        target(set, t.pta.funcs, x, set.program.functions@[x.0 as int].calls@[j]),
    ) by {
        if s.pta.built.contains(x) {
            begins_contains(s.pta.funcs, t.pta.funcs, x.0);
            visited_keeps(
                set,
                s,
                target(set, s.pta.funcs, x, set.program.functions@[x.0 as int].calls@[j]),
            );
        } else {
            new_leads_on(set, s, x, j);
        }
    }
}

/// What a visit builds is the first function of the queue.
pub(crate) proof fn new_is_first(set: Setting, s: RunView, x: InContext)
    requires
        s.queue.len() > 0,
        visited(set, s).pta.built.contains(x),
        !s.pta.built.contains(x),
    ensures
        x == s.queue[0],
{
    let first = s.queue[0];
    if !s.pta.built.contains(first) {
        if set.program.functions@[first.0 as int].analyzed() {
            entering_keeps(set, s);
        }
        let built = s.pta.built.push(first);
        let i = choose|i: int| 0 <= i < built.len() && built[i] == x;
        if i < s.pta.built.len() {
            assert(s.pta.built[i] == x);
        }
    }
}

pub(crate) proof fn new_is_numbered(set: Setting, s: RunView, x: InContext)
    requires
        s.queue.len() > 0,
        visited(set, s).pta.built.contains(x),
        !s.pta.built.contains(x),
        set.program.functions@[x.0 as int].analyzed(),
    ensures
        visited(set, s).pta.funcs.contains(x.0),
        place_in(visited(set, s).pta.funcs, x.0) == place_in(s.pta.funcs, x.0),
{
    new_is_first(set, s, x);
    entering_keeps(set, s);
    let funcs = with_item(s.pta.funcs, x.0);
    place_in_facts(s.pta.funcs, x.0);
    place_in_at(funcs, x.0, place_in(s.pta.funcs, x.0) as int);
    begins_contains(funcs, visited(set, s).pta.funcs, x.0);
}

proof fn new_leads_on(set: Setting, s: RunView, x: InContext, j: int)
    requires
        s.queue.len() > 0,
        visited(set, s).pta.built.contains(x),
        !s.pta.built.contains(x),
        leads_on(set, x, j),
    ensures
        known(
            visited(set, s),
            target(
                set,
                visited(set, s).pta.funcs,
                x,
                set.program.functions@[x.0 as int].calls@[j],
            ),
        ),
{
    new_is_first(set, s, x);
    new_is_numbered(set, s, x);
    entering_keeps(set, s);
    let function = set.program.functions@[x.0 as int];
    let func = place_in(s.pta.funcs, x.0) as usize;
    let facts = with_captures(
        with_flows(s.pta.facts, func, x.1, function.flows@),
        func,
        x.1,
        function.captures@,
    );
    let i = calls_pend(
        CallsView { facts, pending: Seq::empty() },
        func,
        x.1,
        function.calls@,
        set.registry,
        j,
    );
    assert(is_resolved(set, body_of(set, s.pta, x).pending[i]));
}

proof fn run_keeps(set: Setting, trace: Seq<RunView>, i: int, x: InContext)
    requires
        is_run(set, trace),
        0 <= i < trace.len(),
        known(trace[0], x),
    ensures
        known(trace[i], x),
    decreases i,
{
    if i > 0 {
        run_keeps(set, trace, i - 1, x);
        assert(trace[i - 1].queue.len() > 0);
        assert(trace[i] == visited(set, trace[i - 1]));
        visited_keeps(set, trace[i - 1], x);
    }
}

proof fn run_covers(set: Setting, trace: Seq<RunView>, i: int)
    requires
        is_run(set, trace),
        0 <= i < trace.len(),
        covered(set, trace[0]),
    ensures
        covered(set, trace[i]),
    decreases i,
{
    if i > 0 {
        run_covers(set, trace, i - 1);
        assert(trace[i - 1].queue.len() > 0);
        assert(trace[i] == visited(set, trace[i - 1]));
        visited_covers(set, trace[i - 1]);
    }
}

proof fn env_slots_keep(s: PtaView, c: ClosureView, heap: LocId, n: nat)
    ensures
        same_functions(s, with_env_slots(s, c, heap, n)),
    decreases n,
{
    if n > 0 {
        env_slots_keep(s, c, heap, (n - 1) as nat);
    }
}

proof fn env_parts_keep(s: PtaView, c: ClosureView, heap: LocId, paths: Seq<FieldPath>)
    ensures
        same_functions(s, with_env_parts(s, c, heap, paths)),
    decreases paths.len(),
{
    if paths.len() > 0 {
        env_parts_keep(s, c, heap, paths.drop_last());
    }
}

proof fn env_keeps(s: PtaView, c: ClosureView, coroutine: bool, heap: LocId, paths: Seq<FieldPath>)
    ensures
        same_functions(s, with_env(s, c, coroutine, heap, paths)),
{
    if !coroutine {
        let empty = s.facts.arena.empty_id();
        let named = s.with_arena(s.facts.arena.with_empty());
        let loc = var(c.ctx, c.func, 1, empty);
        let env = named.facts.arena.loc_id(loc);
        let t = named.with_arena(named.facts.arena.with_loc(loc)).with_constraint(
            Constraint::AddressOf { dst: env, obj: heap },
        );
        env_slots_keep(t, c, heap, MAX_UPVAR_FIELDS as nat);
        env_parts_keep(with_env_slots(t, c, heap, MAX_UPVAR_FIELDS as nat), c, heap, paths);
    }
}

proof fn envs_keep(
    s: PtaView,
    c: ClosureView,
    coroutine: bool,
    heaps: Seq<LocId>,
    paths: Seq<FieldPath>,
)
    ensures
        same_functions(s, with_envs(s, c, coroutine, heaps, paths)),
    decreases heaps.len(),
{
    if heaps.len() > 0 {
        envs_keep(s, c, coroutine, heaps.drop_last(), paths);
        env_keeps(
            with_envs(s, c, coroutine, heaps.drop_last(), paths),
            c,
            coroutine,
            heaps.last(),
            paths,
        );
    }
}

pub(crate) proof fn closures_keep(set: Setting, s: PtaView, closures: Seq<ClosureView>)
    ensures
        same_functions(s, with_closures(set, s, closures)),
    decreases closures.len(),
{
    if closures.len() > 0 {
        let before = with_closures(set, s, closures.drop_last());
        closures_keep(set, s, closures.drop_last());
        let c = closures.last();
        let function = set.program.functions@[c.instance as int];
        envs_keep(
            before,
            c,
            function.is_coroutine,
            list_at(before.facts.envs, function.def_id),
            list_at(before.facts.env_paths, function.def_id),
        );
    }
}

/// Every root is built, in the empty context.
pub proof fn roots_are_built(
    set: Setting,
    s: PtaView,
    roots: Seq<InstanceId>,
    t: PtaView,
    i: int,
)
    requires
        builds(set, s, roots, t),
        0 <= i < roots.len(),
    ensures
        t.built.contains((roots[i], Seq::<CallSite>::empty())),
{
    let begun = RunView { pta: s, queue: root_queue(roots) };
    let x = (roots[i], Seq::<CallSite>::empty());
    let u = choose|u: PtaView| #[trigger]
        runs_to(set, begun, u) && t == with_closures(
            set,
            PtaView { closures: Seq::empty(), ..u },
            u.closures,
        );
    let trace = choose|trace: Seq<RunView>| #[trigger]
        is_run(set, trace) && trace[0] == begun && trace.last().pta == u;
    assert(begun.queue[i] == x);
    run_keeps(set, trace, trace.len() - 1, x);
    closures_keep(set, PtaView { closures: Seq::empty(), ..u }, u.closures);
}

/// Building numbers every analyzed function that it builds, the roots among
/// them.
pub proof fn built_functions_are_numbered(
    set: Setting,
    s: PtaView,
    roots: Seq<InstanceId>,
    t: PtaView,
)
    requires
        built_numbered(set.program, s.built, s.funcs),
        builds(set, s, roots, t),
    ensures
        built_numbered(set.program, t.built, t.funcs),
        forall|i: int|
            0 <= i < roots.len() && set.program.functions@[#[trigger] roots[i] as int].analyzed()
                ==> t.funcs.contains(roots[i]),
{
    let begun = RunView { pta: s, queue: root_queue(roots) };
    let u = choose|u: PtaView| #[trigger]
        runs_to(set, begun, u) && t == with_closures(
            set,
            PtaView { closures: Seq::empty(), ..u },
            u.closures,
        );
    let trace = choose|trace: Seq<RunView>| #[trigger]
        is_run(set, trace) && trace[0] == begun && trace.last().pta == u;
    run_numbers(set, trace, trace.len() - 1);
    closures_keep(set, PtaView { closures: Seq::empty(), ..u }, u.closures);
    assert forall|i: int|
        0 <= i < roots.len() && set.program.functions@[
        #[trigger] roots[i] as int].analyzed() implies t.funcs.contains(roots[i]) by {
        roots_are_built(set, s, roots, t, i);
        reveal(built_numbered);
        let x = (roots[i], Seq::<CallSite>::empty());
        let k = choose|k: int| 0 <= k < t.built.len() && t.built[k] == x;
        assert(t.built[k].0 == roots[i]);
    }
}

proof fn run_numbers(set: Setting, trace: Seq<RunView>, i: int)
    requires
        is_run(set, trace),
        0 <= i < trace.len(),
        built_numbered(set.program, trace[0].pta.built, trace[0].pta.funcs),
    ensures
        built_numbered(set.program, trace[i].pta.built, trace[i].pta.funcs),
    decreases i,
{
    if i > 0 {
        run_numbers(set, trace, i - 1);
        let s = trace[i - 1];
        assert(s.queue.len() > 0);
        assert(trace[i] == visited(set, s));
        reveal(built_numbered);
        visited_keeps(set, s, s.queue[0]);
        let t = trace[i].pta;
        assert forall|k: int|
            0 <= k < t.built.len() && set.program.functions@[(
            #[trigger] t.built[k]).0 as int].analyzed() implies t.funcs.contains(t.built[k].0) by {
            let x = t.built[k];
            assert(t.built.contains(x));
            if s.pta.built.contains(x) {
                let m = choose|m: int| 0 <= m < s.pta.built.len() && s.pta.built[m] == x;
                assert(s.pta.funcs.contains(s.pta.built[m].0));
                begins_contains(s.pta.funcs, t.funcs, x.0);
            } else {
                new_is_numbered(set, s, x);
            }
        }
    }
}

/// Building keeps an analysis closed under calls: if everything called from
/// what was built is built, so it is afterwards.
pub proof fn building_follows_calls(
    set: Setting,
    s: PtaView,
    roots: Seq<InstanceId>,
    t: PtaView,
)
    requires
        built_numbered(set.program, s.built, s.funcs),
        closed_under_calls(set, s),
        builds(set, s, roots, t),
    ensures
        closed_under_calls(set, t),
{
    let begun = RunView { pta: s, queue: root_queue(roots) };
    let u = choose|u: PtaView| #[trigger]
        runs_to(set, begun, u) && t == with_closures(
            set,
            PtaView { closures: Seq::empty(), ..u },
            u.closures,
        );
    let trace = choose|trace: Seq<RunView>| #[trigger]
        is_run(set, trace) && trace[0] == begun && trace.last().pta == u;
    assert(covered(set, begun)) by {
        reveal(built_numbered);
        assert forall|x: InContext| #[trigger]
            s.built.contains(x)
                && set.program.functions@[x.0 as int].analyzed() implies s.funcs.contains(x.0) by {
            let k = choose|k: int| 0 <= k < s.built.len() && s.built[k] == x;
            assert(s.funcs.contains(s.built[k].0));
        }
    }
    run_covers(set, trace, trace.len() - 1);
    closures_keep(set, PtaView { closures: Seq::empty(), ..u }, u.closures);
    assert forall|x: InContext, j: int|
        #![trigger t.built.contains(x), leads_on(set, x, j)]
        t.built.contains(x) && leads_on(set, x, j) implies t.built.contains(
        target(set, t.funcs, x, set.program.functions@[x.0 as int].calls@[j]),
    ) by {
        assert(u.built.contains(x));
    }
}

/// The state is reached from a new analysis by building from one set of roots
/// after the other, under one setting. What is numbered and constrained in
/// between, as by solving, does not matter.
pub open spec fn reached_by_building(
    set: Setting,
    rounds: Seq<Seq<InstanceId>>,
    t: PtaView,
) -> bool
    decreases rounds.len(),
{
    if rounds.len() == 0 {
        same_functions(nothing_built(), t)
    } else {
        exists|s: PtaView, u: PtaView|
            reached_by_building(set, rounds.drop_last(), s) && #[trigger] builds(
                set,
                s,
                rounds.last(),
                u,
            ) && #[trigger] same_functions(u, t)
    }
}

proof fn reached_is_closed(set: Setting, rounds: Seq<Seq<InstanceId>>, t: PtaView)
    requires
        reached_by_building(set, rounds, t),
    ensures
        built_numbered(set.program, t.built, t.funcs),
        closed_under_calls(set, t),
    decreases rounds.len(),
{
    if rounds.len() == 0 {
        reveal(built_numbered);
    } else {
        let (s, u) = choose|s: PtaView, u: PtaView|
            reached_by_building(set, rounds.drop_last(), s) && #[trigger] builds(
                set,
                s,
                rounds.last(),
                u,
            ) && #[trigger] same_functions(u, t);
        reached_is_closed(set, rounds.drop_last(), s);
        built_functions_are_numbered(set, s, rounds.last(), u);
        building_follows_calls(set, s, rounds.last(), u);
        assert forall|x: InContext, j: int|
            #![trigger t.built.contains(x), leads_on(set, x, j)]
            t.built.contains(x) && leads_on(set, x, j) implies t.built.contains(
            target(set, t.funcs, x, set.program.functions@[x.0 as int].calls@[j]),
        ) by {
            assert(u.built.contains(x));
        }
    }
}

/// Everything that is called is built: in whatever state building has come to,
/// a call that no model covers, from an analyzed function in its context to an
/// analyzed one, leads to a function that is built in the context of that call.
pub proof fn calls_are_followed(
    set: Setting,
    rounds: Seq<Seq<InstanceId>>,
    t: PtaView,
    from: InContext,
    j: int,
)
    requires
        reached_by_building(set, rounds, t),
        t.built.contains(from),
        leads_on(set, from, j),
    ensures
        t.built.contains(
            target(set, t.funcs, from, set.program.functions@[from.0 as int].calls@[j]),
        ),
{
    reached_is_closed(set, rounds, t);
}

/// What is numbered and constrained is so still.
pub open spec fn kept_facts(v: FactsView, w: FactsView) -> bool {
    &&& begins(v.arena.paths, w.arena.paths)
    &&& begins(v.arena.locs, w.arena.locs)
    &&& begins(v.constraints, w.constraints)
}

pub(crate) proof fn leaves_begin(s: PtaView, param: LocId, arg: LocId, paths: Seq<Vec<ProjElem>>)
    ensures
        kept_facts(s.facts, with_leaves(s, param, arg, paths).facts),
    decreases paths.len(),
{
    if paths.len() > 0 {
        leaves_begin(s, param, arg, paths.drop_last());
    }
}

proof fn param_begins(
    s: PtaView,
    func: usize,
    ctx: Seq<CallSite>,
    function: Function,
    i: usize,
    args: Seq<Option<LocId>>,
)
    ensures
        kept_facts(s.facts, with_param(s, func, ctx, function, i, args).facts),
{
    if 0 < i <= args.len() && args[i - 1] is Some {
        let arg = args[i - 1]->0;
        let a = s.facts.arena.with_empty();
        let loc = var(ctx, func, i, s.facts.arena.empty_id());
        let param = a.loc_id(loc);
        leaves_begin(
            s.with_arena(a.with_loc(loc)).with_constraint(Constraint::Copy { dst: param, src: arg }),
            param,
            arg,
            leaf_paths(function, i as int),
        );
    }
}

pub(crate) proof fn params_begin(
    s: PtaView,
    func: usize,
    ctx: Seq<CallSite>,
    function: Function,
    m: nat,
    n: nat,
    args: Seq<Option<LocId>>,
)
    requires
        m <= n,
    ensures
        kept_facts(
            with_params(s, func, ctx, function, m, args).facts,
            with_params(s, func, ctx, function, n, args).facts,
        ),
    decreases n,
{
    if m < n {
        params_begin(s, func, ctx, function, m, (n - 1) as nat, args);
        param_begins(
            with_params(s, func, ctx, function, (n - 1) as nat, args),
            func,
            ctx,
            function,
            n as usize,
            args,
        );
    }
}

/// The number is that of a whole local of a function in a context.
pub open spec fn names_local(
    a: ArenaView,
    id: LocId,
    ctx: Seq<CallSite>,
    func: usize,
    base: usize,
) -> bool {
    &&& id < a.locs.len()
    &&& a.locs[id as int] == var(ctx, func, base, a.locs[id as int].path())
    &&& a.locs[id as int].path() < a.paths.len()
    &&& a.paths[a.locs[id as int].path() as int] == Seq::<ProjElem>::empty()
}

pub(crate) proof fn local_named(a: ArenaView, ctx: Seq<CallSite>, func: usize, base: usize, b: ArenaView)
    requires
        begins(a.with_empty().paths, b.paths),
        begins(a.with_empty().with_loc(var(ctx, func, base, a.empty_id())).locs, b.locs),
        b.paths.len() <= usize::MAX,
        b.locs.len() <= usize::MAX,
    ensures
        names_local(
            b,
            a.with_empty().loc_id(var(ctx, func, base, a.empty_id())),
            ctx,
            func,
            base,
        ),
{
    let empty = Seq::<ProjElem>::empty();
    place_in_facts(a.paths, empty);
    let loc = var(ctx, func, base, a.empty_id());
    place_in_facts(a.locs, loc);
    assert(b.paths[place_in(a.paths, empty) as int] == a.with_empty().paths[place_in(
        a.paths,
        empty,
    ) as int]);
    assert(b.locs[place_in(a.locs, loc) as int] == a.with_empty().with_loc(loc).locs[place_in(
        a.locs,
        loc,
    ) as int]);
}

/// A call binds both ways: what the callee returns is copied to the result, and
/// each argument that holds a location is copied to its parameter.
pub proof fn calls_bind_both_ways(
    s: PtaView,
    callee: InstanceId,
    ctx: Seq<CallSite>,
    function: Function,
    call: PendingView,
)
    requires
        with_callee(s, callee, ctx, function, call).facts.arena.locs.len() <= usize::MAX,
        with_callee(s, callee, ctx, function, call).facts.arena.paths.len() <= usize::MAX,
    ensures
        ({
            let t = with_callee(s, callee, ctx, function, call).facts;
            let func = place_in(s.funcs, callee) as usize;
            &&& exists|ret: LocId| #[trigger]
                names_local(t.arena, ret, ctx, func, 0) && t.constraints.contains(
                    Constraint::Copy { dst: call.dest, src: ret },
                )
            &&& forall|i: usize|
                0 < i <= function.arg_count && i <= call.args.len() && (#[trigger] call.args[i
                    - 1]) is Some ==> exists|param: LocId| #[trigger]
                    names_local(t.arena, param, ctx, func, i) && t.constraints.contains(
                        Constraint::Copy { dst: param, src: call.args[i - 1]->0 },
                    )
        }),
{
    let t = with_callee(s, callee, ctx, function, call).facts;
    let func = place_in(s.funcs, callee) as usize;
    let a = s.facts.arena.with_empty();
    let loc = var(ctx, func, 0, s.facts.arena.empty_id());
    let ret = a.loc_id(loc);
    let copy = Constraint::Copy { dst: call.dest, src: ret };
    let m = PtaView {
        funcs: with_item(s.funcs, callee),
        ..s.with_arena(a.with_loc(loc)).with_constraint(copy)
    };
    let n = function.arg_count as nat;
    params_begin(m, func, ctx, function, 0, n, call.args);
    local_named(s.facts.arena, ctx, func, 0, t.arena);
    place_in_facts(s.facts.constraints, copy);
    assert(m.facts.constraints.contains(copy)) by {
        assert(m.facts.constraints[place_in(s.facts.constraints, copy) as int] == copy);
    }
    begins_contains(m.facts.constraints, t.constraints, copy);
    assert forall|i: usize|
        0 < i <= function.arg_count && i <= call.args.len() && (#[trigger] call.args[i
            - 1]) is Some implies exists|param: LocId| #[trigger]
        names_local(t.arena, param, ctx, func, i) && t.constraints.contains(
            Constraint::Copy { dst: param, src: call.args[i - 1]->0 },
        ) by {
        let arg = call.args[i - 1]->0;
        let before = with_params(m, func, ctx, function, (i - 1) as nat, call.args);
        let after = with_params(m, func, ctx, function, i as nat, call.args);
        params_begin(m, func, ctx, function, i as nat, n, call.args);
        let b = before.facts.arena.with_empty();
        let l = var(ctx, func, i, before.facts.arena.empty_id());
        let param = b.loc_id(l);
        let bind = Constraint::Copy { dst: param, src: arg };
        let q = before.with_arena(b.with_loc(l)).with_constraint(bind);
        leaves_begin(q, param, arg, leaf_paths(function, i as int));
        assert(kept_facts(q.facts, after.facts));
        local_named(before.facts.arena, ctx, func, i, t.arena);
        place_in_facts(before.facts.constraints, bind);
        assert(q.facts.constraints.contains(bind)) by {
            assert(q.facts.constraints[place_in(before.facts.constraints, bind) as int] == bind);
        }
        begins_contains(q.facts.constraints, after.facts.constraints, bind);
        begins_contains(after.facts.constraints, t.constraints, bind);
    }
}

/// Building what is built already changes nothing.
#[verifier::rlimit(40)]
#[verifier::spinoff_prover]
pub proof fn rebuilding_changes_nothing(
    set: Setting,
    s: PtaView,
    roots: Seq<InstanceId>,
    t: PtaView,
)
    requires
        builds(set, s, roots, t),
    ensures
        builds(set, t, roots, t),
{
    let begun = RunView { pta: s, queue: root_queue(roots) };
    let u = choose|u: PtaView| #[trigger]
        runs_to(set, begun, u) && t == with_closures(
            set,
            PtaView { closures: Seq::empty(), ..u },
            u.closures,
        );
    closures_keep(set, PtaView { closures: Seq::empty(), ..u }, u.closures);
    let queue = root_queue(roots);
    let again = RunView { pta: t, queue };
    let trace = Seq::new(
        roots.len() + 1,
        |i: int| RunView { pta: t, queue: queue.skip(i) },
    );
    assert forall|i: int| 0 <= i < trace.len() - 1 implies (#[trigger] trace[i]).queue.len() > 0
        && trace[i + 1] == visited(set, trace[i]) by {
        roots_are_built(set, s, roots, t, i);
        assert(trace[i].queue[0] == queue[i]);
        assert(queue.skip(i).drop_first() =~= queue.skip(i + 1));
    }
    assert(queue.skip(0) =~= queue);
    assert(trace[0] == again);
    assert(is_run(set, trace));
    assert(runs_to(set, again, t));
    assert(t =~= (PtaView { closures: Seq::empty(), ..t }));
}

/// Forgetting the contexts loses no alias: where two locals, in whatever
/// contexts, may point to one location, their collapsed points-to sets share
/// its key, and so do the keys of the locals as receivers.
pub proof fn collapsing_loses_no_alias(
    v: PtaView,
    result: PointsToResult,
    a: InstanceId,
    a_local: Local,
    b: InstanceId,
    b_local: Local,
    x: LocId,
    y: LocId,
    p: LocId,
)
    requires
        v.is_node(x, a, a_local),
        v.is_node(y, b, b_local),
        result.holds(x, p),
        result.holds(y, p),
    ensures
        v.points_to_key(result, a, a_local, v.key(p)),
        v.points_to_key(result, b, b_local, v.key(p)),
        forall|f: Option<u32>, g: Option<u32>| #[trigger]
            v.share_receiver(result, a, a_local, f, b, b_local, g),
{
    assert forall|f: Option<u32>, g: Option<u32>| #[trigger]
        v.share_receiver(result, a, a_local, f, b, b_local, g) by {
        assert(v.receiver_key(result, a, a_local, f, v.key(p)));
        assert(v.receiver_key(result, b, b_local, g, v.key(p)));
    }
}

pub(crate) proof fn flows_begin(
    v: FactsView,
    func: usize,
    ctx: Seq<CallSite>,
    flows: Seq<Flow>,
    i: int,
)
    requires
        0 <= i <= flows.len(),
    ensures
        kept_facts(
            with_flows(v, func, ctx, flows.take(i)),
            with_flows(v, func, ctx, flows),
        ),
    decreases flows.len(),
{
    if i < flows.len() {
        let front = flows.drop_last();
        assert(front.take(i) =~= flows.take(i));
        flows_begin(v, func, ctx, front, i);
    } else {
        assert(flows.take(i) =~= flows);
    }
}

pub(crate) proof fn captured_begin(v: FactsView, closure: DefId, paths: Seq<Vec<ProjElem>>)
    ensures
        kept_facts(v, with_captured(v, closure, paths)),
    decreases paths.len(),
{
    if paths.len() > 0 {
        captured_begin(v, closure, paths.drop_last());
    }
}

pub(crate) proof fn captures_begin(v: FactsView, func: usize, ctx: Seq<CallSite>, captures: Seq<Capture>)
    ensures
        kept_facts(v, with_captures(v, func, ctx, captures)),
    decreases captures.len(),
{
    if captures.len() > 0 {
        let before = with_captures(v, func, ctx, captures.drop_last());
        let capture = captures.last();
        captures_begin(v, func, ctx, captures.drop_last());
        captured_begin(
            FactsView {
                arena: with_node(before.arena, func, ctx, capture.heap),
                envs: with_id(
                    before.envs,
                    capture.closure,
                    node_id(before.arena, func, ctx, capture.heap),
                ),
                ..before
            },
            capture.closure,
            capture.paths@,
        );
    }
}

pub(crate) proof fn args_begin(a: ArenaView, func: usize, ctx: Seq<CallSite>, args: Seq<Option<Node>>)
    ensures
        begins(a.paths, args_of(a, func, ctx, args).arena.paths),
        begins(a.locs, args_of(a, func, ctx, args).arena.locs),
    decreases args.len(),
{
    if args.len() > 0 {
        args_begin(a, func, ctx, args.drop_last());
    }
}

pub(crate) proof fn items_begin(s: Seq<Constraint>, list: Seq<Constraint>)
    ensures
        begins(s, with_items(s, list)),
    decreases list.len(),
{
    if list.len() > 0 {
        items_begin(s, list.drop_last());
    }
}

pub(crate) proof fn calls_begin(
    s: CallsView,
    func: usize,
    ctx: Seq<CallSite>,
    calls: Seq<Call>,
    registry: ModelRegistry,
)
    ensures
        kept_facts(s.facts, with_calls(s, func, ctx, calls, registry).facts),
    decreases calls.len(),
{
    if calls.len() > 0 {
        let before = with_calls(s, func, ctx, calls.drop_last(), registry);
        let call = calls.last();
        calls_begin(s, func, ctx, calls.drop_last(), registry);
        let a = with_node(before.facts.arena, func, ctx, call.dest);
        let dest = node_id(before.facts.arena, func, ctx, call.dest);
        let args = args_of(a, func, ctx, call.args@);
        args_begin(a, func, ctx, call.args@);
        let b = args.arena.with_empty();
        let loc = fresh_heap(func, ctx, call.bb, call.idx, args.arena.empty_id());
        let facts = before.facts.with_arena(b.with_loc(loc));
        let effect = match call.path {
            Some(path) => registry.effect(path@),
            None => None,
        };
        match effect {
            Some(effect) => {
                items_begin(
                    facts.constraints,
                    model_constraints(effect, dest, args.ids, b.loc_id(loc)),
                );
            },
            None => {},
        }
        assert(kept_facts(
            before.facts,
            with_call(before, func, ctx, call, registry).facts,
        ));
    }
}

/// The number is that of a node of a function in a context.
pub open spec fn names_node(
    a: ArenaView,
    id: LocId,
    func: usize,
    ctx: Seq<CallSite>,
    node: Node,
) -> bool {
    &&& id < a.locs.len()
    &&& a.locs[id as int] == node_loc(node.base, func, ctx, a.locs[id as int].path())
    &&& a.locs[id as int].path() < a.paths.len()
    &&& a.paths[a.locs[id as int].path() as int] == node.path@
}

pub(crate) proof fn node_named(a: ArenaView, func: usize, ctx: Seq<CallSite>, node: Node, b: ArenaView)
    requires
        begins(with_node(a, func, ctx, node).paths, b.paths),
        begins(with_node(a, func, ctx, node).locs, b.locs),
        b.paths.len() <= usize::MAX,
        b.locs.len() <= usize::MAX,
    ensures
        names_node(b, node_id(a, func, ctx, node), func, ctx, node),
{
    let m = with_node(a, func, ctx, node);
    let path = node.path@;
    place_in_facts(a.paths, path);
    let loc = node_loc(node.base, func, ctx, a.path_id(path));
    place_in_facts(a.locs, loc);
    let i = place_in(a.paths, path) as int;
    let k = place_in(a.locs, loc) as int;
    assert(m.paths[i] == path);
    assert(b.paths[i] == m.paths[i]);
    assert(m.locs[k] == loc);
    assert(b.locs[k] == m.locs[k]);
}

/// Every flow of an analyzed body is a constraint between its nodes, in the
/// context in which the body is built.
pub proof fn flows_are_constrained(
    v: FactsView,
    func: usize,
    ctx: Seq<CallSite>,
    function: Function,
    registry: ModelRegistry,
    i: int,
)
    requires
        0 <= i < function.flows@.len(),
        with_body(v, func, ctx, function, registry).facts.arena.locs.len() <= usize::MAX,
        with_body(v, func, ctx, function, registry).facts.arena.paths.len() <= usize::MAX,
    ensures
        ({
            let w = with_body(v, func, ctx, function, registry).facts;
            let flow = function.flows@[i];
            exists|dst: LocId, src: LocId, suffix: FieldPath| #[trigger]
                w.constraints.contains(flow_constraint(flow.kind, dst, src, suffix))
                    && names_node(w.arena, dst, func, ctx, flow.dst) && names_node(
                    w.arena,
                    src,
                    func,
                    ctx,
                    flow.src,
                ) && suffix < w.arena.paths.len() && w.arena.paths[suffix as int]
                    == flow.suffix@
        }),
{
    let flows = function.flows@;
    let flow = flows[i];
    let w = with_body(v, func, ctx, function, registry).facts;
    let all = with_flows(v, func, ctx, flows);
    let facts = with_captures(all, func, ctx, function.captures@);
    flows_begin(v, func, ctx, flows, i + 1);
    captures_begin(all, func, ctx, function.captures@);
    calls_begin(
        CallsView { facts, pending: Seq::empty() },
        func,
        ctx,
        function.calls@,
        registry,
    );
    let before = with_flows(v, func, ctx, flows.take(i));
    assert(flows.take(i + 1).drop_last() =~= flows.take(i));
    assert(flows.take(i + 1).last() == flow);
    let after = with_flow(before, func, ctx, flow);
    assert(kept_facts(after, all));
    assert(kept_facts(all, facts));
    assert(kept_facts(facts, w));
    assert(kept_facts(after, w)) by {
        assert(kept_facts(after, facts));
    }
    let a = with_node(before.arena, func, ctx, flow.dst);
    let dst = node_id(before.arena, func, ctx, flow.dst);
    let b = with_node(a, func, ctx, flow.src);
    let src = node_id(a, func, ctx, flow.src);
    let suffix = b.path_id(flow.suffix@);
    let c = flow_constraint(flow.kind, dst, src, suffix);
    node_named(before.arena, func, ctx, flow.dst, w.arena);
    node_named(a, func, ctx, flow.src, w.arena);
    place_in_facts(b.paths, flow.suffix@);
    let k = place_in(b.paths, flow.suffix@) as int;
    assert(after.arena.paths[k] == flow.suffix@);
    assert(w.arena.paths[k] == after.arena.paths[k]);
    place_in_facts(before.constraints, c);
    assert(after.constraints.contains(c)) by {
        assert(after.constraints[place_in(before.constraints, c) as int] == c);
    }
    begins_contains(after.constraints, w.constraints, c);
}

} // verus!

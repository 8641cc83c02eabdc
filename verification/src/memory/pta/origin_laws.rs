//! What building adds comes from the program: every constraint is that of a
//! flow, a call or a closure of a function that is built.

use super::analysis::{
    all_resolved, body_of, builds, callee_context, entered, is_resolved, is_run, leaf_paths,
    resolved, var, visited, with_callee, with_closures, with_env, with_env_field, with_env_parts,
    with_env_slots, with_envs, with_leaf, with_leaves, with_params, ClosureView, InContext, PtaView,
    RunView, Setting,
};
use super::build_laws::{
    all_resolving_keeps, arena_fits, binding_keeps, bindings_keep, body_keeps, build_of, call_names,
    callee_keeps_funcs, calls_keep, captures_keep, closing_keeps, funcs_begin, kept, kept_through,
    leaves_begin_from, names_call, names_part, node_is_part, part_stays, parts_keep, running_keeps,
    slots_keep, with_pointer, without_calls,
};
use super::builder::{
    flow_constraint, node_id, with_calls, with_captured, with_captures, with_flows, with_node,
    CallsView, FactsView, PendingView,
};
use super::constraint::{with_items, Constraint};
use super::ids::with_id;
use super::laws::{
    begins, begins_contains, entering_keeps, flows_begin, kept_facts, leaves_begin, local_named,
    new_is_numbered, node_named, params_begin, target,
};
use super::loc::{
    place_in, place_in_at, place_in_facts, with_item, ArenaView, CallSite, FieldPath, LocId,
    LocView, ProjElem,
};
use super::model::{arg_copies, model_constraints, unknown_constraints, ModelEffect, ModelRegistry};
use super::program::{Call, Capture, Flow, FlowKind, Function, NodeBase};
use crate::collections::list_at;
use crate::translate::mir::{DefId, InstanceId};
use vstd::prelude::*;

verus! {

/// The constraint is that of the flow, in a context of its function.
pub open spec fn is_of_flow(
    a: ArenaView,
    func: usize,
    ctx: Seq<CallSite>,
    flow: Flow,
    c: Constraint,
) -> bool {
    let (dst, src) = match c {
        Constraint::AddressOf { dst, obj } => (dst, obj),
        Constraint::Copy { dst, src } => (dst, src),
        Constraint::Load { dst, src } => (dst, src),
        Constraint::Store { dst, src } => (dst, src),
        Constraint::Offset { dst, src, .. } => (dst, src),
    };
    &&& names_part(a, dst, func, ctx, flow.dst.base, flow.dst.path@)
    &&& names_part(a, src, func, ctx, flow.src.base, flow.src.path@)
    &&& match flow.kind {
        FlowKind::AddressOf => c is AddressOf,
        FlowKind::Copy => c is Copy,
        FlowKind::Load => c is Load,
        FlowKind::Store => c is Store,
        FlowKind::Offset => c matches Constraint::Offset { suffix, .. } && suffix < a.paths.len()
            && a.paths[suffix as int] == flow.suffix@,
    }
}

proof fn item_is_new<T>(s: Seq<T>, x: T, c: T)
    requires
        with_item(s, x).contains(c),
        !s.contains(c),
    ensures
        c == x,
{
    let t = with_item(s, x);
    let i = choose|i: int| 0 <= i < t.len() && t[i] == c;
    if i < s.len() {
        assert(s[i] == c);
    }
}

proof fn items_are_new<T>(s: Seq<T>, list: Seq<T>, c: T)
    requires
        with_items(s, list).contains(c),
        !s.contains(c),
    ensures
        list.contains(c),
    decreases list.len(),
{
    if list.len() > 0 {
        let front = list.drop_last();
        let before = with_items(s, front);
        if before.contains(c) {
            items_are_new(s, front, c);
            let i = choose|i: int| 0 <= i < front.len() && front[i] == c;
            assert(list[i] == c);
        } else {
            item_is_new(before, list.last(), c);
            assert(list[list.len() - 1] == c);
        }
    }
}

proof fn new_flow(
    v: FactsView,
    func: usize,
    ctx: Seq<CallSite>,
    flows: Seq<Flow>,
    c: Constraint,
    u: FactsView,
) -> (i: int)
    requires
        with_flows(v, func, ctx, flows).constraints.contains(c),
        !v.constraints.contains(c),
        kept_facts(with_flows(v, func, ctx, flows), u),
        arena_fits(u.arena),
    ensures
        0 <= i < flows.len(),
        is_of_flow(u.arena, func, ctx, flows[i], c),
    decreases flows.len(),
{
    let front = flows.drop_last();
    let before = with_flows(v, func, ctx, front);
    let after = with_flows(v, func, ctx, flows);
    let flow = flows.last();
    flows_begin(v, func, ctx, flows, flows.len() - 1);
    assert(flows.take(flows.len() - 1) =~= front);
    if before.constraints.contains(c) {
        new_flow(v, func, ctx, front, c, u)
    } else {
        let a = with_node(before.arena, func, ctx, flow.dst);
        let dst = node_id(before.arena, func, ctx, flow.dst);
        let b = with_node(a, func, ctx, flow.src);
        let src = node_id(a, func, ctx, flow.src);
        let suffix = b.path_id(flow.suffix@);
        item_is_new(before.constraints, flow_constraint(flow.kind, dst, src, suffix), c);
        node_named(before.arena, func, ctx, flow.dst, u.arena);
        node_is_part(u.arena, dst, func, ctx, flow.dst);
        node_named(a, func, ctx, flow.src, u.arena);
        node_is_part(u.arena, src, func, ctx, flow.src);
        place_in_facts(b.paths, flow.suffix@);
        let k = place_in(b.paths, flow.suffix@) as int;
        assert(after.arena.paths[k] == flow.suffix@);
        assert(u.arena.paths[k] == after.arena.paths[k]);
        flows.len() - 1
    }
}

proof fn captures_add_none(v: FactsView, func: usize, ctx: Seq<CallSite>, captures: Seq<Capture>)
    ensures
        with_captures(v, func, ctx, captures).constraints == v.constraints,
    decreases captures.len(),
{
    if captures.len() > 0 {
        captures_add_none(v, func, ctx, captures.drop_last());
        let before = with_captures(v, func, ctx, captures.drop_last());
        let capture = captures.last();
        captured_adds_none(
            FactsView {
                arena: with_node(before.arena, func, ctx, capture.heap),
                envs: with_id(
                    before.envs,
                    capture.closure,
                    node_id(before.arena, func, ctx, capture.heap),
                ),
                ..before
            },
            capture.closure,
            capture.paths@,
        );
    }
}

proof fn captured_adds_none(v: FactsView, closure: DefId, paths: Seq<Vec<ProjElem>>)
    ensures
        with_captured(v, closure, paths).constraints == v.constraints,
    decreases paths.len(),
{
    if paths.len() > 0 {
        captured_adds_none(v, closure, paths.drop_last());
    }
}

/// The effect of the model of a call, where it has one.
pub open spec fn effect_of(registry: ModelRegistry, call: Call) -> Option<ModelEffect> {
    match call.path {
        Some(path) => registry.effect(path@),
        None => None,
    }
}

/// The constraint is what the model of a call says.
pub open spec fn is_of_model(
    effect: ModelEffect,
    dest: LocId,
    args: Seq<Option<LocId>>,
    heap: LocId,
    c: Constraint,
) -> bool {
    match effect {
        ModelEffect::ReturnsArg(i) => i < args.len() && args[i as int] is Some && c
            == (Constraint::Copy { dst: dest, src: args[i as int]->0 }),
        ModelEffect::Allocates => c == (Constraint::AddressOf { dst: dest, obj: heap }),
        ModelEffect::Ignores => false,
    }
}

proof fn new_call(
    s: CallsView,
    func: usize,
    ctx: Seq<CallSite>,
    calls: Seq<Call>,
    registry: ModelRegistry,
    c: Constraint,
    u: FactsView,
) -> (r: (int, PendingView))
    requires
        with_calls(s, func, ctx, calls, registry).facts.constraints.contains(c),
        !s.facts.constraints.contains(c),
        kept(with_calls(s, func, ctx, calls, registry).facts, u),
        arena_fits(u.arena),
    ensures
        0 <= r.0 < calls.len(),
        names_call(u.arena, func, ctx, calls[r.0], r.1.dest, r.1.args, r.1.heap),
        effect_of(registry, calls[r.0]) matches Some(effect) && is_of_model(
            effect,
            r.1.dest,
            r.1.args,
            r.1.heap,
            c,
        ),
    decreases calls.len(),
{
    let front = calls.drop_last();
    let before = with_calls(s, func, ctx, front, registry);
    let after = with_calls(s, func, ctx, calls, registry);
    let call = calls.last();
    calls_keep(s, func, ctx, calls, registry, calls.len() - 1);
    assert(calls.take(calls.len() - 1) =~= front);
    kept_through(before.facts, after.facts, u);
    if before.facts.constraints.contains(c) {
        new_call(s, func, ctx, front, registry, c, u)
    } else {
        let p = call_names(before, func, ctx, call, registry, u);
        let effect = effect_of(registry, call);
        assert(effect is Some);
        let cs = model_constraints(effect->0, p.dest, p.args, p.heap);
        items_are_new(before.facts.constraints, cs, c);
        assert(cs.contains(c));
        assert(cs[0] == c);
        (calls.len() - 1, p)
    }
}

/// The constraint passes pointers between a call and the body of its callee, in
/// the context of the call: the result is what the callee returns, a parameter
/// is its argument, and a leaf field of a parameter is that field of what the
/// argument points to.
pub open spec fn is_of_passing(
    a: ArenaView,
    func: usize,
    ctx: Seq<CallSite>,
    function: Function,
    dest: LocId,
    args: Seq<Option<LocId>>,
    c: Constraint,
) -> bool {
    ||| exists|ret: LocId| #[trigger]
        names_part(a, ret, func, ctx, NodeBase::Local(0), Seq::empty()) && c == (Constraint::Copy {
            dst: dest,
            src: ret,
        })
    ||| exists|i: usize| #[trigger] is_of_param(a, func, ctx, function, i, args, c)
}

/// The constraint is that of a parameter and its argument.
pub open spec fn is_of_param(
    a: ArenaView,
    func: usize,
    ctx: Seq<CallSite>,
    function: Function,
    i: usize,
    args: Seq<Option<LocId>>,
    c: Constraint,
) -> bool {
    &&& 0 < i <= function.arg_count
    &&& i <= args.len()
    &&& args[i - 1] is Some
    &&& match c {
        Constraint::Copy { dst, src } => src == args[i - 1]->0 && names_part(
            a,
            dst,
            func,
            ctx,
            NodeBase::Local(i),
            Seq::empty(),
        ),
        Constraint::Offset { src, suffix, .. } => src == args[i - 1]->0 && suffix < a.paths.len()
            && is_leaf(function, i, a.paths[suffix as int]),
        Constraint::Load { dst, .. } => dst < a.locs.len() && a.locs[dst as int].path()
            < a.paths.len() && is_leaf(function, i, a.paths[a.locs[dst as int].path() as int])
            && names_part(
            a,
            dst,
            func,
            ctx,
            NodeBase::Local(i),
            a.paths[a.locs[dst as int].path() as int],
        ),
        _ => false,
    }
}

/// The path is that of a leaf field of the type of a parameter.
pub open spec fn is_leaf(function: Function, i: usize, path: Seq<ProjElem>) -> bool {
    0 < i <= function.param_paths@.len() && exists|k: int|
        0 <= k < function.param_paths@[i - 1]@.len() && (
        #[trigger] function.param_paths@[i - 1]@[k])@ == path
}

proof fn new_leaf(
    s: PtaView,
    func: usize,
    ctx: Seq<CallSite>,
    function: Function,
    i: usize,
    args: Seq<Option<LocId>>,
    param: LocId,
    n: int,
    c: Constraint,
    u: FactsView,
)
    requires
        0 < i <= function.arg_count,
        i <= args.len(),
        args[i - 1] is Some,
        0 <= n <= leaf_paths(function, i as int).len(),
        names_part(s.facts.arena, param, func, ctx, NodeBase::Local(i), Seq::empty()),
        with_leaves(
            s,
            param,
            args[i - 1]->0,
            leaf_paths(function, i as int).take(n),
        ).facts.constraints.contains(c),
        !s.facts.constraints.contains(c),
        kept_facts(
            with_leaves(s, param, args[i - 1]->0, leaf_paths(function, i as int).take(n)).facts,
            u,
        ),
        arena_fits(u.arena),
    ensures
        is_of_param(u.arena, func, ctx, function, i, args, c),
    decreases n,
{
    let arg = args[i - 1]->0;
    let leaves = leaf_paths(function, i as int);
    if n == 0 {
        assert(leaves.take(0) =~= Seq::<Vec<ProjElem>>::empty());
    } else {
        let front = leaves.take(n - 1);
        let all = leaves.take(n);
        assert(all.drop_last() =~= front);
        assert(all.last() == leaves[n - 1]);
        let before = with_leaves(s, param, arg, front);
        let after = with_leaves(s, param, arg, all);
        leaves_begin_from(s, param, arg, all, n - 1);
        assert(all.take(n - 1) =~= front);
        assert(kept_facts(before.facts, after.facts));
        assert(kept_facts(before.facts, u));
        if before.facts.constraints.contains(c) {
            new_leaf(s, func, ctx, function, i, args, param, n - 1, c, u);
        } else {
            let path = leaves[n - 1]@;
            assert(function.param_paths@[i - 1]@[n - 1]@ == path);
            assert(is_leaf(function, i, path));
            leaves_begin(s, param, arg, front);
            part_stays(
                s.facts.arena,
                before.facts.arena,
                param,
                func,
                ctx,
                NodeBase::Local(i),
                Seq::empty(),
            );
            new_in_leaf(before, func, ctx, function, i, args, param, path, c, u);
        }
    }
}

proof fn new_in_leaf(
    s: PtaView,
    func: usize,
    ctx: Seq<CallSite>,
    function: Function,
    i: usize,
    args: Seq<Option<LocId>>,
    param: LocId,
    path: Seq<ProjElem>,
    c: Constraint,
    u: FactsView,
)
    requires
        0 < i <= function.arg_count,
        i <= args.len(),
        args[i - 1] is Some,
        is_leaf(function, i, path),
        names_part(s.facts.arena, param, func, ctx, NodeBase::Local(i), Seq::empty()),
        with_leaf(s, param, args[i - 1]->0, path).facts.constraints.contains(c),
        !s.facts.constraints.contains(c),
        kept_facts(with_leaf(s, param, args[i - 1]->0, path).facts, u),
        arena_fits(u.arena),
    ensures
        is_of_param(u.arena, func, ctx, function, i, args, c),
{
    let arg = args[i - 1]->0;
    let w = with_leaf(s, param, arg, path).facts;
    let a = s.facts.arena;
    let id = a.path_id(path);
    let named = a.with_path(path);
    place_in_facts(a.paths, path);
    let n = place_in(a.paths, path) as int;
    let q = named.locs[param as int].path() as int;
    assert(named.paths[q] == a.paths[q]);
    assert(named.paths[n] == path);
    assert(begins(named.paths, w.arena.paths));
    assert(w.arena.paths[n] == named.paths[n]);
    assert(u.arena.paths[n] == w.arena.paths[n]);
    assert(path.len() > 0 && named.project(param, id) is Some);
    assert(named.projected_path(param, id) =~= path);
    let loc = named.projection(param, id);
    let part = named.loc_id(loc);
    let t = PtaView {
        facts: FactsView { arena: named.with_projection(param, id), ..s.facts },
        ..s
    };
    place_in_facts(named.locs, loc);
    let temp = t.temp_id();
    let offset = Constraint::Offset { dst: temp, src: arg, suffix: id };
    let load = Constraint::Load { dst: part, src: temp };
    let one = with_item(s.facts.constraints, offset);
    assert(w.constraints == with_item(one, load));
    if one.contains(c) {
        item_is_new(s.facts.constraints, offset, c);
    } else {
        item_is_new(one, load, c);
        let l = place_in(named.locs, loc) as int;
        assert(t.facts.arena.locs[l] == loc);
        assert(begins(t.facts.arena.locs, w.arena.locs));
        assert(w.arena.locs[l] == loc);
        assert(u.arena.locs[l] == w.arena.locs[l]);
        assert(named.path_id(path) == id) by {
            assert forall|k: int| 0 <= k < n implies named.paths[k] != path by {
                assert(a.paths[k] != path);
            }
            place_in_at(named.paths, path, n);
        }
    }
}

proof fn new_param(
    s: PtaView,
    func: usize,
    ctx: Seq<CallSite>,
    function: Function,
    n: nat,
    args: Seq<Option<LocId>>,
    c: Constraint,
    u: FactsView,
) -> (i: usize)
    requires
        n <= function.arg_count,
        with_params(s, func, ctx, function, n, args).facts.constraints.contains(c),
        !s.facts.constraints.contains(c),
        kept_facts(with_params(s, func, ctx, function, n, args).facts, u),
        arena_fits(u.arena),
    ensures
        is_of_param(u.arena, func, ctx, function, i, args, c),
    decreases n,
{
    let m = (n - 1) as nat;
    let before = with_params(s, func, ctx, function, m, args);
    let after = with_params(s, func, ctx, function, n, args);
    params_begin(s, func, ctx, function, m, n, args);
    assert(kept_facts(before.facts, u));
    if before.facts.constraints.contains(c) {
        new_param(s, func, ctx, function, m, args, c, u)
    } else {
        let i = n as usize;
        assert(0 < i <= args.len() && args[i - 1] is Some);
        let arg = args[i - 1]->0;
        let b = before.facts.arena.with_empty();
        let l = var(ctx, func, i, before.facts.arena.empty_id());
        let param = b.loc_id(l);
        let copy = Constraint::Copy { dst: param, src: arg };
        let q = before.with_arena(b.with_loc(l)).with_constraint(copy);
        let leaves = leaf_paths(function, i as int);
        leaves_begin(q, param, arg, leaves);
        assert(leaves.take(leaves.len() as int) =~= leaves);
        assert(kept_facts(q.facts, after.facts));
        assert(kept_facts(q.facts, u));
        if q.facts.constraints.contains(c) {
            item_is_new(before.facts.constraints, copy, c);
            local_named(before.facts.arena, ctx, func, i, u.arena);
        } else {
            local_named(before.facts.arena, ctx, func, i, q.facts.arena);
            new_leaf(q, func, ctx, function, i, args, param, leaves.len() as int, c, u);
        }
        i
    }
}

proof fn new_passing(
    s: PtaView,
    callee: InstanceId,
    ctx: Seq<CallSite>,
    function: Function,
    call: PendingView,
    c: Constraint,
    u: FactsView,
)
    requires
        with_callee(s, callee, ctx, function, call).facts.constraints.contains(c),
        !s.facts.constraints.contains(c),
        kept_facts(with_callee(s, callee, ctx, function, call).facts, u),
        arena_fits(u.arena),
    ensures
        is_of_passing(
            u.arena,
            place_in(s.funcs, callee) as usize,
            ctx,
            function,
            call.dest,
            call.args,
            c,
        ),
{
    let func = place_in(s.funcs, callee) as usize;
    let a = s.facts.arena.with_empty();
    let loc = var(ctx, func, 0, s.facts.arena.empty_id());
    let ret = a.loc_id(loc);
    let copy = Constraint::Copy { dst: call.dest, src: ret };
    let t = PtaView {
        funcs: with_item(s.funcs, callee),
        ..s.with_arena(a.with_loc(loc)).with_constraint(copy)
    };
    let n = function.arg_count as nat;
    params_begin(t, func, ctx, function, 0, n, call.args);
    assert(kept_facts(t.facts, u));
    if t.facts.constraints.contains(c) {
        item_is_new(s.facts.constraints, copy, c);
        local_named(s.facts.arena, ctx, func, 0, u.arena);
        assert(names_part(u.arena, ret, func, ctx, NodeBase::Local(0), Seq::empty()));
    } else {
        let i = new_param(t, func, ctx, function, n, call.args, c, u);
    }
}

/// The constraint is what a call that no model covers does: it passes pointers
/// to and from the body of its callee, or else the result is any argument or
/// fresh memory.
pub open spec fn is_of_resolution(
    set: Setting,
    a: ArenaView,
    funcs: Seq<InstanceId>,
    x: InContext,
    call: Call,
    dest: LocId,
    args: Seq<Option<LocId>>,
    heap: LocId,
    c: Constraint,
) -> bool {
    match call.callee {
        Some(callee) if callee < set.program.functions@.len()
            && set.program.functions@[callee as int].analyzed() => is_of_passing(
            a,
            place_in(funcs, callee) as usize,
            target(set, funcs, x, call).1,
            set.program.functions@[callee as int],
            dest,
            args,
            c,
        ),
        _ => {
            ||| c == (Constraint::AddressOf { dst: dest, obj: heap })
            ||| exists|i: int|
                0 <= i < args.len() && (#[trigger] args[i]) is Some && c == (Constraint::Copy {
                    dst: dest,
                    src: args[i]->0,
                })
        },
    }
}

/// The constraint is that of a call of the function.
pub open spec fn is_of_call(
    set: Setting,
    a: ArenaView,
    funcs: Seq<InstanceId>,
    x: InContext,
    j: int,
    p: PendingView,
    c: Constraint,
) -> bool {
    let calls = set.program.functions@[x.0 as int].calls@;
    &&& 0 <= j < calls.len()
    &&& names_call(a, place_in(funcs, x.0) as usize, x.1, calls[j], p.dest, p.args, p.heap)
    &&& match effect_of(set.registry, calls[j]) {
        Some(effect) => is_of_model(effect, p.dest, p.args, p.heap, c),
        None => is_of_resolution(set, a, funcs, x, calls[j], p.dest, p.args, p.heap, c),
    }
}

proof fn pending_origin(
    s: CallsView,
    func: usize,
    ctx: Seq<CallSite>,
    calls: Seq<Call>,
    registry: ModelRegistry,
    k: int,
    u: FactsView,
) -> (j: int)
    requires
        s.pending.len() == 0,
        0 <= k < with_calls(s, func, ctx, calls, registry).pending.len(),
        kept(with_calls(s, func, ctx, calls, registry).facts, u),
        arena_fits(u.arena),
    ensures
        ({
            let p = with_calls(s, func, ctx, calls, registry).pending[k];
            &&& 0 <= j < calls.len()
            &&& names_call(u.arena, func, ctx, calls[j], p.dest, p.args, p.heap)
            &&& p.callee == calls[j].callee
            &&& p.bb == calls[j].bb
            &&& effect_of(registry, calls[j]) is None
        }),
    decreases calls.len(),
{
    let front = calls.drop_last();
    let before = with_calls(s, func, ctx, front, registry);
    let after = with_calls(s, func, ctx, calls, registry);
    calls_keep(s, func, ctx, calls, registry, calls.len() - 1);
    assert(calls.take(calls.len() - 1) =~= front);
    kept_through(before.facts, after.facts, u);
    let p = call_names(before, func, ctx, calls.last(), registry, u);
    if k < before.pending.len() {
        pending_origin(s, func, ctx, front, registry, k, u)
    } else {
        calls.len() - 1
    }
}

proof fn copy_origin(dest: LocId, args: Seq<Option<LocId>>, c: Constraint) -> (i: int)
    requires
        arg_copies(dest, args).contains(c),
    ensures
        0 <= i < args.len(),
        args[i] is Some,
        c == (Constraint::Copy { dst: dest, src: args[i]->0 }),
    decreases args.len(),
{
    let front = args.drop_last();
    let before = arg_copies(dest, front);
    let all = arg_copies(dest, args);
    let k = choose|k: int| 0 <= k < all.len() && all[k] == c;
    if k < before.len() {
        assert(before[k] == c);
        copy_origin(dest, front, c)
    } else {
        args.len() - 1
    }
}

proof fn new_resolution(
    set: Setting,
    v: RunView,
    x: InContext,
    call: Call,
    p: PendingView,
    c: Constraint,
    t: PtaView,
)
    requires
        ({
            let from = place_in(t.funcs, x.0) as usize;
            let w = resolved(set, v, from, x.1, p);
            &&& w.pta.facts.constraints.contains(c)
            &&& !v.pta.facts.constraints.contains(c)
            &&& kept(w.pta.facts, t.facts)
            &&& begins(w.pta.funcs, t.funcs)
        }),
        arena_fits(t.facts.arena),
        p.callee == call.callee,
        p.bb == call.bb,
    ensures
        is_of_resolution(
            set,
            t.facts.arena,
            t.funcs,
            x,
            call,
            p.dest,
            p.args,
            p.heap,
            c,
        ),
{
    let from = place_in(t.funcs, x.0) as usize;
    if is_resolved(set, p) {
        let callee = p.callee->0;
        let function = set.program.functions@[callee as int];
        let ctx = callee_context(set, from, x.1, p);
        let w = with_callee(v.pta, callee, ctx, function, p);
        assert(ctx == target(set, t.funcs, x, call).1);
        new_passing(v.pta, callee, ctx, function, p, c, t.facts);
        place_in_facts(v.pta.funcs, callee);
        callee_keeps_funcs(v.pta, callee, ctx, function, p);
        let at = place_in(v.pta.funcs, callee) as int;
        assert(w.funcs[at] == callee);
        assert forall|k: int| 0 <= k < at implies w.funcs[k] != callee by {
            assert(w.funcs[k] == v.pta.funcs[k]);
        }
        place_in_at(w.funcs, callee, at);
        begins_contains(w.funcs, t.funcs, callee);
    } else {
        let cs = unknown_constraints(p.dest, p.args, p.heap);
        items_are_new(v.pta.facts.constraints, cs, c);
        let k = choose|k: int| 0 <= k < cs.len() && cs[k] == c;
        let copies = arg_copies(p.dest, p.args);
        if k < copies.len() {
            assert(copies[k] == c);
            let i = copy_origin(p.dest, p.args, c);
            assert(p.args[i] is Some);
        }
    }
}

proof fn new_resolved(
    set: Setting,
    s: RunView,
    x: InContext,
    pending: Seq<PendingView>,
    n: int,
    c: Constraint,
    t: PtaView,
) -> (r: (int, RunView))
    requires
        0 <= n <= pending.len(),
        ({
            let from = place_in(t.funcs, x.0) as usize;
            let all = all_resolved(set, s, from, x.1, pending);
            let w = all_resolved(set, s, from, x.1, pending.take(n));
            &&& w.pta.facts.constraints.contains(c)
            &&& !s.pta.facts.constraints.contains(c)
            &&& kept(all.pta.facts, t.facts)
            &&& begins(all.pta.funcs, t.funcs)
        }),
    ensures
        0 <= r.0 < n,
        ({
            let from = place_in(t.funcs, x.0) as usize;
            let w = resolved(set, r.1, from, x.1, pending[r.0]);
            &&& w.pta.facts.constraints.contains(c)
            &&& !r.1.pta.facts.constraints.contains(c)
            &&& kept(w.pta.facts, t.facts)
            &&& begins(w.pta.funcs, t.funcs)
        }),
    decreases n,
{
    let from = place_in(t.funcs, x.0) as usize;
    let all = all_resolved(set, s, from, x.1, pending);
    if n == 0 {
        assert(pending.take(0) =~= Seq::<PendingView>::empty());
        (0, s)
    } else {
        let front = pending.take(n - 1);
        assert(pending.take(n).drop_last() =~= front);
        assert(pending.take(n).last() == pending[n - 1]);
        let before = all_resolved(set, s, from, x.1, front);
        let after = all_resolved(set, s, from, x.1, pending.take(n));
        if before.pta.facts.constraints.contains(c) {
            new_resolved(set, s, x, pending, n - 1, c, t)
        } else {
            all_resolving_keeps(set, s, from, x.1, pending, n);
            kept_through(after.pta.facts, all.pta.facts, t.facts);
            funcs_begin(set, s, from, x.1, pending, n);
            (n - 1, before)
        }
    }
}

/// The constraint is that of a flow or of a call of a function that is built.
pub open spec fn is_of_body(set: Setting, t: PtaView, x: InContext, c: Constraint) -> bool {
    &&& t.built.contains(x)
    &&& t.funcs.contains(x.0)
    &&& set.program.functions@[x.0 as int].analyzed()
    &&& {
        ||| exists|i: int|
            0 <= i < set.program.functions@[x.0 as int].flows@.len() && is_of_flow(
                t.facts.arena,
                place_in(t.funcs, x.0) as usize,
                x.1,
                #[trigger] set.program.functions@[x.0 as int].flows@[i],
                c,
            )
        ||| exists|j: int, p: PendingView| #[trigger]
            is_of_call(set, t.facts.arena, t.funcs, x, j, p, c)
    }
}

proof fn new_visited(set: Setting, s: RunView, c: Constraint, t: PtaView)
    requires
        s.queue.len() > 0,
        visited(set, s).pta.facts.constraints.contains(c),
        !s.pta.facts.constraints.contains(c),
        kept(visited(set, s).pta.facts, t.facts),
        begins(visited(set, s).pta.funcs, t.funcs),
        begins(visited(set, s).pta.built, t.built),
        arena_fits(t.facts.arena),
    ensures
        is_of_body(set, t, s.queue[0], c),
{
    let x = s.queue[0];
    let function = set.program.functions@[x.0 as int];
    assert(!s.pta.built.contains(x) && function.analyzed());
    let v = visited(set, s);
    let func = place_in(s.pta.funcs, x.0) as usize;
    let body = body_of(set, s.pta, x);
    let begun = RunView { pta: entered(set, s.pta, x), queue: s.queue.drop_first() };
    assert(v.pta.built.contains(x)) by {
        entering_keeps(set, s);
        assert(v.pta.built[s.pta.built.len() as int] == x);
    }
    new_is_numbered(set, s, x);
    begins_contains(v.pta.built, t.built, x);
    begins_contains(v.pta.funcs, t.funcs, x.0);
    assert(func == place_in(t.funcs, x.0) as usize);
    all_resolving_keeps(set, begun, func, x.1, body.pending, 0);
    assert(body.pending.take(0) =~= Seq::<PendingView>::empty());
    kept_through(begun.pta.facts, v.pta.facts, t.facts);
    let facts = without_calls(s.pta.facts, func, x.1, function);
    let start = CallsView { facts, pending: Seq::empty() };
    assert(body == with_calls(start, func, x.1, function.calls@, set.registry));
    if body.facts.constraints.contains(c) {
        let flows = with_flows(s.pta.facts, func, x.1, function.flows@);
        captures_add_none(flows, func, x.1, function.captures@);
        body_keeps(s.pta.facts, func, x.1, function, set.registry);
        kept_through(facts, body.facts, t.facts);
        if facts.constraints.contains(c) {
            captures_keep(flows, func, x.1, function.captures@, 0);
            assert(function.captures@.take(0) =~= Seq::<Capture>::empty());
            kept_through(flows, facts, t.facts);
            let i = new_flow(s.pta.facts, func, x.1, function.flows@, c, t.facts);
            assert(is_of_flow(t.facts.arena, func, x.1, function.flows@[i], c));
        } else {
            let (j, p) = new_call(start, func, x.1, function.calls@, set.registry, c, t.facts);
            assert(is_of_call(set, t.facts.arena, t.funcs, x, j, p, c));
        }
    } else {
        assert(body.pending.take(body.pending.len() as int) =~= body.pending);
        let (k, w) = new_resolved(
            set,
            begun,
            x,
            body.pending,
            body.pending.len() as int,
            c,
            t,
        );
        let p = body.pending[k];
        let j = pending_origin(start, func, x.1, function.calls@, set.registry, k, t.facts);
        new_resolution(set, w, x, function.calls@[j], p, c, t);
        assert(is_of_call(set, t.facts.arena, t.funcs, x, j, p, c));
    }
}

proof fn new_in_run(set: Setting, trace: Seq<RunView>, n: int, c: Constraint, t: PtaView) -> (x:
    InContext)
    requires
        is_run(set, trace),
        0 <= n < trace.len(),
        trace[n].pta.facts.constraints.contains(c),
        !trace[0].pta.facts.constraints.contains(c),
        kept(trace.last().pta.facts, t.facts),
        trace.last().pta.funcs == t.funcs,
        trace.last().pta.built == t.built,
        arena_fits(t.facts.arena),
    ensures
        is_of_body(set, t, x, c),
    decreases n,
{
    if trace[n - 1].pta.facts.constraints.contains(c) {
        new_in_run(set, trace, n - 1, c, t)
    } else {
        let s = trace[n - 1];
        assert(s.queue.len() > 0 && trace[n] == visited(set, s));
        running_keeps(set, trace, n, trace.len() - 1);
        kept_through(trace[n].pta.facts, trace.last().pta.facts, t.facts);
        new_visited(set, s, c, t);
        s.queue[0]
    }
}

proof fn new_field(
    set: Setting,
    s: PtaView,
    c: ClosureView,
    heap: LocId,
    p: FieldPath,
    k: Constraint,
    u: FactsView,
)
    requires
        with_env_field(s, c, heap, p).facts.constraints.contains(k),
        !s.facts.constraints.contains(k),
        kept(with_env_field(s, c, heap, p).facts, u),
        arena_fits(u.arena),
    ensures
        k matches Constraint::Copy { dst, .. } && of_parameter(u.arena, c, dst),
{
    let a = s.facts.arena;
    let w = with_env_field(s, c, heap, p).facts;
    let loc = var(c.ctx, c.func, 1, p);
    let named = a.with_loc(loc);
    assert(named.project(heap, p) is Some);
    let part = named.project(heap, p)->0;
    item_is_new(s.facts.constraints, Constraint::Copy { dst: a.loc_id(loc), src: part }, k);
    place_in_facts(a.locs, loc);
    let l = place_in(a.locs, loc) as int;
    assert(named.locs[l] == loc);
    assert(begins(named.locs, w.arena.locs));
    assert(w.arena.locs[l] == loc);
    assert(u.arena.locs[l] == w.arena.locs[l]);
}

/// The location is the environment parameter of the closure, or a part of it.
pub open spec fn of_parameter(a: ArenaView, c: ClosureView, id: LocId) -> bool {
    id < a.locs.len() && (a.locs[id as int] matches LocView::Var { ctx, func, base, .. } && ctx
        == c.ctx && func == c.func && base == 1)
}

proof fn new_slot(
    set: Setting,
    s: PtaView,
    c: ClosureView,
    heap: LocId,
    n: nat,
    k: Constraint,
    u: FactsView,
)
    requires
        with_env_slots(s, c, heap, n).facts.constraints.contains(k),
        !s.facts.constraints.contains(k),
        kept(with_env_slots(s, c, heap, n).facts, u),
        arena_fits(u.arena),
    ensures
        k matches Constraint::Copy { dst, .. } && of_parameter(u.arena, c, dst),
    decreases n,
{
    let m = (n - 1) as nat;
    let before = with_env_slots(s, c, heap, m);
    slots_keep(s, c, heap, m, n);
    kept_through(before.facts, with_env_slots(s, c, heap, n).facts, u);
    if before.facts.constraints.contains(k) {
        new_slot(set, s, c, heap, m, k, u);
    } else {
        let path = seq![ProjElem::Field(m as u32)];
        let id = before.facts.arena.path_id(path);
        new_field(
            set,
            before.with_arena(before.facts.arena.with_path(path)),
            c,
            heap,
            id,
            k,
            u,
        );
    }
}

proof fn new_part(
    set: Setting,
    s: PtaView,
    c: ClosureView,
    heap: LocId,
    paths: Seq<FieldPath>,
    k: Constraint,
    u: FactsView,
)
    requires
        with_env_parts(s, c, heap, paths).facts.constraints.contains(k),
        !s.facts.constraints.contains(k),
        kept(with_env_parts(s, c, heap, paths).facts, u),
        arena_fits(u.arena),
    ensures
        k matches Constraint::Copy { dst, .. } && of_parameter(u.arena, c, dst),
    decreases paths.len(),
{
    let front = paths.drop_last();
    let before = with_env_parts(s, c, heap, front);
    parts_keep(s, c, heap, paths, paths.len() - 1);
    assert(paths.take(paths.len() - 1) =~= front);
    kept_through(before.facts, with_env_parts(s, c, heap, paths).facts, u);
    if before.facts.constraints.contains(k) {
        new_part(set, s, c, heap, front, k, u);
    } else {
        new_field(set, before, c, heap, paths.last(), k, u);
    }
}

/// The constraint binds the environment parameter of the closure to one of the
/// environments.
pub open spec fn is_of_binding(
    a: ArenaView,
    c: ClosureView,
    coroutine: bool,
    heaps: Seq<LocId>,
    k: Constraint,
) -> bool {
    match k {
        Constraint::AddressOf { dst, obj } => of_parameter(a, c, dst) && heaps.contains(obj),
        Constraint::Copy { dst, .. } => of_parameter(a, c, dst) && !coroutine,
        _ => false,
    }
}

proof fn new_binding(
    set: Setting,
    s: PtaView,
    c: ClosureView,
    coroutine: bool,
    heap: LocId,
    paths: Seq<FieldPath>,
    k: Constraint,
    u: FactsView,
)
    requires
        with_env(s, c, coroutine, heap, paths).facts.constraints.contains(k),
        !s.facts.constraints.contains(k),
        kept(with_env(s, c, coroutine, heap, paths).facts, u),
        arena_fits(u.arena),
    ensures
        is_of_binding(u.arena, c, coroutine, seq![heap], k),
{
    assert(seq![heap][0] == heap);
    let w = with_env(s, c, coroutine, heap, paths);
    let named = s.facts.arena.with_empty();
    if coroutine {
        let path = seq![ProjElem::Field(0)];
        let id = named.path_id(path);
        let loc = var(c.ctx, c.func, 1, id);
        let a = named.with_path(path);
        item_is_new(
            s.facts.constraints,
            Constraint::AddressOf { dst: a.loc_id(loc), obj: heap },
            k,
        );
        place_in_facts(a.locs, loc);
        let l = place_in(a.locs, loc) as int;
        assert(w.facts.arena.locs[l] == loc);
        assert(u.arena.locs[l] == w.facts.arena.locs[l]);
    } else {
        let pointer = with_pointer(s, c, heap);
        let slots = with_env_slots(pointer, c, heap, 32);
        binding_keeps(s, c, coroutine, heap, paths);
        kept_through(pointer.facts, w.facts, u);
        kept_through(slots.facts, w.facts, u);
        if pointer.facts.constraints.contains(k) {
            let loc = var(c.ctx, c.func, 1, s.facts.arena.empty_id());
            item_is_new(
                s.facts.constraints,
                Constraint::AddressOf { dst: named.loc_id(loc), obj: heap },
                k,
            );
            place_in_facts(named.locs, loc);
            let l = place_in(named.locs, loc) as int;
            assert(pointer.facts.arena.locs[l] == loc);
            assert(u.arena.locs[l] == pointer.facts.arena.locs[l]);
        } else if slots.facts.constraints.contains(k) {
            new_slot(set, pointer, c, heap, 32, k, u);
        } else {
            new_part(set, slots, c, heap, paths, k, u);
        }
    }
}

proof fn new_bindings(
    set: Setting,
    s: PtaView,
    c: ClosureView,
    coroutine: bool,
    heaps: Seq<LocId>,
    paths: Seq<FieldPath>,
    k: Constraint,
    u: FactsView,
)
    requires
        with_envs(s, c, coroutine, heaps, paths).facts.constraints.contains(k),
        !s.facts.constraints.contains(k),
        kept(with_envs(s, c, coroutine, heaps, paths).facts, u),
        arena_fits(u.arena),
    ensures
        is_of_binding(u.arena, c, coroutine, heaps, k),
    decreases heaps.len(),
{
    let front = heaps.drop_last();
    let before = with_envs(s, c, coroutine, front, paths);
    bindings_keep(s, c, coroutine, heaps, paths, heaps.len() - 1);
    assert(heaps.take(heaps.len() - 1) =~= front);
    kept_through(before.facts, with_envs(s, c, coroutine, heaps, paths).facts, u);
    assert(heaps[heaps.len() - 1] == heaps.last());
    if before.facts.constraints.contains(k) {
        new_bindings(set, s, c, coroutine, front, paths, k, u);
        if let Constraint::AddressOf { dst, obj } = k {
            let i = choose|i: int| 0 <= i < front.len() && front[i] == obj;
            assert(heaps[i] == obj);
        }
    } else {
        new_binding(set, before, c, coroutine, heaps.last(), paths, k, u);
        if let Constraint::AddressOf { dst, obj } = k {
            let i = choose|i: int| 0 <= i < seq![heaps.last()].len() && seq![heaps.last()][i] == obj;
            assert(heaps.contains(obj));
        }
    }
}

proof fn new_closure(
    set: Setting,
    s: PtaView,
    closures: Seq<ClosureView>,
    k: Constraint,
    u: FactsView,
) -> (i: int)
    requires
        with_closures(set, s, closures).facts.constraints.contains(k),
        !s.facts.constraints.contains(k),
        kept(with_closures(set, s, closures).facts, u),
        arena_fits(u.arena),
    ensures
        0 <= i < closures.len(),
        is_of_binding(
            u.arena,
            closures[i],
            set.program.functions@[closures[i].instance as int].is_coroutine,
            list_at(s.facts.envs, set.program.functions@[closures[i].instance as int].def_id),
            k,
        ),
    decreases closures.len(),
{
    let front = closures.drop_last();
    let before = with_closures(set, s, front);
    let c = closures.last();
    let function = set.program.functions@[c.instance as int];
    closing_keeps(set, s, closures, closures.len() - 1);
    assert(closures.take(closures.len() - 1) =~= front);
    kept_through(before.facts, with_closures(set, s, closures).facts, u);
    closing_keeps(set, s, front, 0);
    assert(front.take(0) =~= Seq::<ClosureView>::empty());
    if before.facts.constraints.contains(k) {
        new_closure(set, s, front, k, u)
    } else {
        new_bindings(
            set,
            before,
            c,
            function.is_coroutine,
            list_at(before.facts.envs, function.def_id),
            list_at(before.facts.env_paths, function.def_id),
            k,
            u,
        );
        closures.len() - 1
    }
}

/// The constraint binds the environment parameter of a closure that is built to
/// an environment that was made for it.
pub open spec fn is_of_closure(set: Setting, t: PtaView, c: ClosureView, k: Constraint) -> bool {
    let function = set.program.functions@[c.instance as int];
    is_of_binding(
        t.facts.arena,
        c,
        function.is_coroutine,
        list_at(t.facts.envs, function.def_id),
        k,
    )
}

/// Building adds nothing that the program does not call for: every constraint
/// that it adds is that of a flow or a call of a function that is built, or
/// binds the environment of a closure.
pub proof fn constraints_come_from_the_program(
    set: Setting,
    s: PtaView,
    roots: Seq<InstanceId>,
    t: PtaView,
    c: Constraint,
)
    requires
        builds(set, s, roots, t),
        t.facts.constraints.contains(c),
        !s.facts.constraints.contains(c),
        arena_fits(t.facts.arena),
    ensures
        (exists|x: InContext| #[trigger] is_of_body(set, t, x, c)) || (exists|k: ClosureView|
            #[trigger]
            is_of_closure(set, t, k, c)),
{
    let trace = build_of(set, s, roots, t);
    let u = trace.last().pta;
    if u.facts.constraints.contains(c) {
        let x = new_in_run(set, trace, trace.len() - 1, c, t);
        assert(is_of_body(set, t, x, c));
    } else {
        let open = PtaView { closures: Seq::empty(), ..u };
        let i = new_closure(set, open, u.closures, c, t.facts);
        assert(is_of_closure(set, t, u.closures[i], c));
    }
}

} // verus!

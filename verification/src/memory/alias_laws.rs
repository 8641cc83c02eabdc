//! What alias answers promise of the program: the points-to sets are the least
//! that the flows of pointers allow, and the answers follow them.

use crate::config::AliasUnknownPolicy;
use crate::memory::alias_engine::AliasEngine;
use crate::memory::pointsto::{AliasId, ApproximateAliasKind};
use crate::memory::pta::analysis::{builds, nothing_built, InContext, PtaView};
use crate::memory::pta::build_laws::{
    arena_fits, built_has_number, calls_are_bound, flows_are_built, is_part_of, names_call,
    names_part, newly_built,
};
use crate::memory::pta::builder::{constraint_ok, constraints_ok};
use crate::memory::pta::constraint::Constraint;
use crate::memory::pta::laws::{collapsing_loses_no_alias, leads_on, target};
use crate::memory::pta::loc::{
    place_in, place_in_at, place_in_facts, ArenaView, CallSite, CiKey, FieldPath, LocId, LocView,
    ProjElem,
};
use crate::memory::pta::program::{FlowKind, NodeBase};
use crate::memory::pta::result::{pointee_numbered, PointsToResult};
use crate::memory::pta::solver::{
    copies, loads, offsets, relation, satisfies, satisfies_all, solves, stores, Relation,
};
use crate::translate::mir::{first_field, last_constant_index, InstanceId, Local, Place};
use std::cmp::Ordering;
use vstd::prelude::*;
use vstd::std_specs::cmp::PartialOrdSpec;

verus! {

/// The part lies no deeper than eight steps.
pub open spec fn shallow(a: ArenaView, whole: LocId, suffix: FieldPath) -> bool {
    a.paths[a.locs[whole as int].path() as int].len() + a.paths[suffix as int].len() <= 8
}

/// Pointers flow along the constraints: addresses are taken, values copied,
/// loaded and stored, and addresses of parts computed.
pub open spec fn flows_along(r: Relation, cs: Seq<Constraint>, a: ArenaView) -> bool {
    &&& forall|dst: LocId, obj: LocId| #[trigger]
        cs.contains(Constraint::AddressOf { dst, obj }) ==> r(dst, obj)
    &&& forall|dst: LocId, src: LocId, o: LocId| #[trigger]
        cs.contains(Constraint::Copy { dst, src }) && #[trigger] r(src, o) ==> r(dst, o)
    &&& forall|dst: LocId, src: LocId, o: LocId, p: LocId| #[trigger]
        cs.contains(Constraint::Load { dst, src }) && #[trigger] r(src, o) && #[trigger] r(o, p)
            ==> r(dst, p)
    &&& forall|dst: LocId, src: LocId, o: LocId, p: LocId| #[trigger]
        cs.contains(Constraint::Store { dst, src }) && #[trigger] r(dst, o) && #[trigger] r(src, p)
            ==> r(o, p)
    &&& forall|dst: LocId, src: LocId, suffix: FieldPath, o: LocId, q: LocId| #[trigger]
        cs.contains(Constraint::Offset { dst, src, suffix }) && #[trigger] r(src, o)
            && #[trigger] is_part_of(a, q, o, a.paths[suffix as int]) && shallow(a, o, suffix)
            ==> r(dst, q)
}

proof fn part_is_projection(a: ArenaView, o: LocId, suffix: FieldPath, q: LocId)
    requires
        a.wf(),
        arena_fits(a),
        o < a.locs.len(),
        suffix < a.paths.len(),
        q < a.locs.len(),
        shallow(a, o, suffix),
    ensures
        a.can_project(o, suffix),
        is_part_of(a, q, o, a.paths[suffix as int]) <==> q == a.loc_id(a.projection(o, suffix)),
{
    let path = a.projected_path(o, suffix);
    let loc = a.projection(o, suffix);
    place_in_facts(a.paths, path);
    place_in_facts(a.locs, loc);
    assert(a.locs[o as int].path() < a.paths.len());
    assert(a.locs[q as int].path() < a.paths.len());
    if is_part_of(a, q, o, a.paths[suffix as int]) {
        let i = a.locs[q as int].path() as int;
        assert(a.paths[i] == path);
        assert forall|j: int| 0 <= j < i implies a.paths[j] != path by {
            assert(a.paths[j] != a.paths[i]);
        }
        place_in_at(a.paths, path, i);
        assert(a.locs[q as int] == loc);
        assert forall|j: int| 0 <= j < q implies a.locs[j] != loc by {
            assert(a.locs[j] != a.locs[q as int]);
        }
        place_in_at(a.locs, loc, q as int);
    }
    if q == a.loc_id(loc) {
        assert(a.locs[q as int] == loc);
        assert(a.locs[q as int].path() < a.paths.len());
        assert(a.paths[a.path_id(path) as int] == path);
    }
}

/// The points-to sets follow the constraints, and every part whose address is
/// computed is numbered.
pub proof fn solutions_follow_the_flows(result: PointsToResult, cs: Seq<Constraint>, a: ArenaView)
    requires
        solves(result, cs, a),
        result.fits(a),
        a.wf(),
        arena_fits(a),
        constraints_ok(cs, a),
    ensures
        flows_along(relation(result), cs, a),
        forall|dst: LocId, src: LocId, suffix: FieldPath, o: LocId| #[trigger]
            cs.contains(Constraint::Offset { dst, src, suffix }) && #[trigger] result.holds(src, o)
                && shallow(a, o, suffix) ==> exists|q: LocId| #[trigger]
                is_part_of(a, q, o, a.paths[suffix as int]) && result.holds(dst, q),
{
    let r = relation(result);
    assert forall|c: Constraint| cs.contains(c) implies #[trigger] satisfies(r, c, a)
        && constraint_ok(c, a) by {
        let i = choose|i: int| 0 <= i < cs.len() && cs[i] == c;
        assert(satisfies(r, cs[i], a));
        assert(constraint_ok(cs[i], a));
    }
    assert forall|dst: LocId, obj: LocId| #[trigger]
        cs.contains(Constraint::AddressOf { dst, obj }) implies r(dst, obj) by {
        assert(satisfies(r, Constraint::AddressOf { dst, obj }, a));
    }
    assert forall|dst: LocId, src: LocId, o: LocId| #[trigger]
        cs.contains(Constraint::Copy { dst, src }) && #[trigger] r(src, o) implies r(dst, o) by {
        assert(satisfies(r, Constraint::Copy { dst, src }, a));
    }
    assert forall|dst: LocId, src: LocId, o: LocId, p: LocId| #[trigger]
        cs.contains(Constraint::Load { dst, src }) && #[trigger] r(src, o) && #[trigger] r(
            o,
            p,
        ) implies r(dst, p) by {
        assert(satisfies(r, Constraint::Load { dst, src }, a));
    }
    assert forall|dst: LocId, src: LocId, o: LocId, p: LocId| #[trigger]
        cs.contains(Constraint::Store { dst, src }) && #[trigger] r(dst, o) && #[trigger] r(
            src,
            p,
        ) implies r(o, p) by {
        assert(satisfies(r, Constraint::Store { dst, src }, a));
    }
    assert forall|dst: LocId, src: LocId, suffix: FieldPath, o: LocId| #[trigger]
        cs.contains(Constraint::Offset { dst, src, suffix }) && #[trigger] result.holds(src, o)
            && shallow(a, o, suffix) implies exists|q: LocId| #[trigger]
        is_part_of(a, q, o, a.paths[suffix as int]) && result.holds(dst, q) by {
        let q = offset_part(result, cs, a, dst, src, suffix, o);
    }
    assert forall|dst: LocId, src: LocId, suffix: FieldPath, o: LocId, q: LocId| #[trigger]
        cs.contains(Constraint::Offset { dst, src, suffix }) && #[trigger] r(src, o)
            && #[trigger] is_part_of(a, q, o, a.paths[suffix as int]) && shallow(
            a,
            o,
            suffix,
        ) implies r(dst, q) by {
        let p = offset_part(result, cs, a, dst, src, suffix, o);
        assert(constraint_ok(Constraint::Offset { dst, src, suffix }, a));
        part_is_projection(a, o, suffix, p);
        part_is_projection(a, o, suffix, q);
    }
}

proof fn offset_part(
    result: PointsToResult,
    cs: Seq<Constraint>,
    a: ArenaView,
    dst: LocId,
    src: LocId,
    suffix: FieldPath,
    o: LocId,
) -> (q: LocId)
    requires
        solves(result, cs, a),
        result.fits(a),
        a.wf(),
        arena_fits(a),
        constraints_ok(cs, a),
        cs.contains(Constraint::Offset { dst, src, suffix }),
        result.holds(src, o),
        shallow(a, o, suffix),
    ensures
        is_part_of(a, q, o, a.paths[suffix as int]),
        result.holds(dst, q),
        q < a.locs.len(),
        o < a.locs.len(),
        suffix < a.paths.len(),
{
    let r = relation(result);
    let i = choose|i: int|
        0 <= i < cs.len() && cs[i] == (Constraint::Offset { dst, src, suffix });
    assert(satisfies(r, cs[i], a));
    assert(constraint_ok(cs[i], a));
    let j = choose|j: int| 0 <= j < result.pointees(src).len() && result.pointees(src)[j] == o;
    pointee_numbered(result, a, src, j);
    assert(a.can_project(o, suffix));
    assert(r(src, o));
    let q = a.loc_id(a.projection(o, suffix));
    assert(r(dst, q));
    let k = choose|k: int| 0 <= k < result.pointees(dst).len() && result.pointees(dst)[k] == q;
    pointee_numbered(result, a, dst, k);
    part_is_projection(a, o, suffix, q);
    q
}

/// The points-to sets hold nothing that does not follow: no more than any
/// relation along which pointers flow as the constraints say.
pub proof fn solutions_hold_nothing_else(
    result: PointsToResult,
    cs: Seq<Constraint>,
    a: ArenaView,
    r: Relation,
    n: LocId,
    p: LocId,
)
    requires
        solves(result, cs, a),
        result.fits(a),
        a.wf(),
        arena_fits(a),
        constraints_ok(cs, a),
        flows_along(r, cs, a),
        result.holds(n, p),
    ensures
        r(n, p),
{
    solutions_follow_the_flows(result, cs, a);
    let s = relation(result);
    let both: Relation = |x: LocId, y: LocId| r(x, y) && s(x, y);
    assert forall|i: int| 0 <= i < cs.len() implies satisfies(both, #[trigger] cs[i], a) by {
        assert(cs.contains(cs[i]));
        assert(constraint_ok(cs[i], a));
        match cs[i] {
            Constraint::AddressOf { dst, obj } => {
                assert(r(dst, obj) && s(dst, obj));
            },
            Constraint::Copy { dst, src } => {
                assert forall|o: LocId| #[trigger] both(src, o) implies both(dst, o) by {
                    assert(r(src, o) && s(src, o));
                }
                assert(copies(both, dst, src));
            },
            Constraint::Load { dst, src } => {
                assert forall|o: LocId, p: LocId| #[trigger] both(src, o) && #[trigger] both(
                    o,
                    p,
                ) implies both(dst, p) by {
                    assert(r(src, o) && s(src, o) && r(o, p) && s(o, p));
                }
                assert(loads(both, dst, src));
            },
            Constraint::Store { dst, src } => {
                assert forall|o: LocId, p: LocId| #[trigger] both(dst, o) && #[trigger] both(
                    src,
                    p,
                ) implies both(o, p) by {
                    assert(r(dst, o) && s(dst, o) && r(src, p) && s(src, p));
                }
                assert(stores(both, dst, src));
            },
            Constraint::Offset { dst, src, suffix } => {
                assert forall|o: LocId| #[trigger]
                    both(src, o) && a.can_project(o, suffix) implies both(
                    dst,
                    a.loc_id(a.projection(o, suffix)),
                ) by {
                    assert(r(src, o) && s(src, o));
                    assert(result.holds(src, o));
                    let q = offset_part(result, cs, a, dst, src, suffix, o);
                    part_is_projection(a, o, suffix, q);
                    assert(r(dst, q) && s(dst, q));
                }
                assert(offsets(both, dst, src, suffix, a));
            },
        }
    }
    assert(satisfies_all(both, cs, a));
    assert(both(n, p));
}

// From the program to the answers.

/// The engine holds the solved analysis of what the roots reach.
pub open spec fn answers_for<'p>(
    e: AliasEngine<'p>,
    roots: Seq<InstanceId>,
    built: PtaView,
) -> bool {
    &&& e.wf()
    &&& builds(e.pta.setting(), nothing_built(), roots, built)
    &&& e.pta@.funcs == built.funcs
    &&& e.pta@.facts.constraints == built.facts.constraints
    &&& built.facts.arena.extends_to(e.pta@.facts.arena)
    &&& solves(e.result, e.pta@.facts.constraints, e.pta@.facts.arena)
    &&& arena_fits(e.pta@.facts.arena)
}

proof fn part_extends(
    a: ArenaView,
    b: ArenaView,
    id: LocId,
    func: usize,
    ctx: Seq<CallSite>,
    base: NodeBase,
    path: Seq<ProjElem>,
)
    requires
        a.extends_to(b),
        names_part(a, id, func, ctx, base, path),
    ensures
        names_part(b, id, func, ctx, base, path),
{
    assert(b.locs[id as int] == a.locs[id as int]);
    let p = a.locs[id as int].path() as int;
    assert(b.paths[p] == a.paths[p]);
}

/// The locations of a local in a context: the engine's, for a function that is
/// built.
pub open spec fn is_local_in<'p>(
    e: AliasEngine<'p>,
    id: LocId,
    x: InContext,
    local: Local,
) -> bool {
    e.pta@.funcs.contains(x.0) && names_part(
        e.pta@.facts.arena,
        id,
        place_in(e.pta@.funcs, x.0) as usize,
        x.1,
        NodeBase::Local(local),
        Seq::empty(),
    )
}

proof fn local_is_node<'p>(e: AliasEngine<'p>, id: LocId, x: InContext, local: Local)
    requires
        e.wf(),
        arena_fits(e.pta@.facts.arena),
        is_local_in(e, id, x, local),
    ensures
        e.pta@.is_node(id, x.0, local),
        e.pta@.key(id) == (CiKey::Var {
            func: place_in(e.pta@.funcs, x.0) as usize,
            base: local,
            path: e.pta@.facts.arena.empty_id(),
        }),
        e.pta@.facts.arena.paths.contains(Seq::<ProjElem>::empty()),
{
    let a = e.pta@.facts.arena;
    let p = a.locs[id as int].path() as int;
    let empty = Seq::<ProjElem>::empty();
    assert(a.wf());
    assert forall|j: int| 0 <= j < p implies a.paths[j] != empty by {
        assert(a.paths[j] != a.paths[p]);
    }
    place_in_at(a.paths, empty, p);
}

/// A local that holds the address of another points to it: where a function
/// that is built takes the address of one of its locals into another, the query
/// answers that the one may point to the other.
pub proof fn addresses_are_pointed_to<'p>(
    e: AliasEngine<'p>,
    roots: Seq<InstanceId>,
    built: PtaView,
    x: InContext,
    i: int,
    pointer: Local,
    pointee: Local,
)
    requires
        answers_for(e, roots, built),
        built.built.contains(x),
        e.pta.program.functions@[x.0 as int].analyzed(),
        ({
            let flows = e.pta.program.functions@[x.0 as int].flows@;
            &&& 0 <= i < flows.len()
            &&& flows[i].kind == FlowKind::AddressOf
            &&& flows[i].dst.base == NodeBase::Local(pointer)
            &&& flows[i].dst.path@.len() == 0
            &&& flows[i].src.base == NodeBase::Local(pointee)
            &&& flows[i].src.path@.len() == 0
        }),
    ensures
        e.pta@.points_to_local(e.result, x.0, pointer, x.0, pointee),
{
    let set = e.pta.setting();
    let flow = e.pta.program.functions@[x.0 as int].flows@[i];
    let a = e.pta@.facts.arena;
    assert(newly_built(set, nothing_built(), roots, built, x));
    let (dst, src, suffix) = flows_are_built(set, nothing_built(), roots, built, x, i);
    let func = place_in(built.funcs, x.0) as usize;
    part_extends(built.facts.arena, a, dst, func, x.1, flow.dst.base, flow.dst.path@);
    part_extends(built.facts.arena, a, src, func, x.1, flow.src.base, flow.src.path@);
    assert(flow.dst.path@ =~= Seq::<ProjElem>::empty());
    assert(flow.src.path@ =~= Seq::<ProjElem>::empty());
    built_has_number(set, nothing_built(), roots, built, x);
    local_is_node(e, dst, x, pointer);
    local_is_node(e, src, x, pointee);
    solutions_follow_the_flows(e.result, e.pta@.facts.constraints, a);
    assert(relation(e.result)(dst, src));
    assert(e.result.holds(dst, src));
    let key = e.pta@.key(src);
    assert(e.pta@.points_to_key(e.result, x.0, pointer, key));
}

/// A copy of a pointer points to what the pointer points to, in the same
/// context.
pub proof fn copies_point_to_the_same<'p>(
    e: AliasEngine<'p>,
    roots: Seq<InstanceId>,
    built: PtaView,
    x: InContext,
    i: int,
    to: Local,
    from: Local,
    p: LocId,
) -> (r: (LocId, LocId))
    requires
        answers_for(e, roots, built),
        built.built.contains(x),
        e.pta.program.functions@[x.0 as int].analyzed(),
        ({
            let flows = e.pta.program.functions@[x.0 as int].flows@;
            &&& 0 <= i < flows.len()
            &&& flows[i].kind == FlowKind::Copy
            &&& flows[i].dst.base == NodeBase::Local(to)
            &&& flows[i].dst.path@.len() == 0
            &&& flows[i].src.base == NodeBase::Local(from)
            &&& flows[i].src.path@.len() == 0
        }),
    ensures
        is_local_in(e, r.0, x, to),
        is_local_in(e, r.1, x, from),
        e.result.holds(r.1, p) ==> e.result.holds(r.0, p),
        e.result.holds(r.1, p) && to != from ==> e.atomic_kind(
            AliasId::plain(x.0, to),
            AliasId::plain(x.0, from),
        ) == ApproximateAliasKind::Possibly,
{
    let set = e.pta.setting();
    let flow = e.pta.program.functions@[x.0 as int].flows@[i];
    let a = e.pta@.facts.arena;
    assert(newly_built(set, nothing_built(), roots, built, x));
    let (dst, src, suffix) = flows_are_built(set, nothing_built(), roots, built, x, i);
    let func = place_in(built.funcs, x.0) as usize;
    part_extends(built.facts.arena, a, dst, func, x.1, flow.dst.base, flow.dst.path@);
    part_extends(built.facts.arena, a, src, func, x.1, flow.src.base, flow.src.path@);
    assert(flow.dst.path@ =~= Seq::<ProjElem>::empty());
    assert(flow.src.path@ =~= Seq::<ProjElem>::empty());
    built_has_number(set, nothing_built(), roots, built, x);
    local_is_node(e, dst, x, to);
    local_is_node(e, src, x, from);
    solutions_follow_the_flows(e.result, e.pta@.facts.constraints, a);
    if e.result.holds(src, p) {
        assert(relation(e.result)(src, p));
        assert(relation(e.result)(dst, p));
        assert(e.result.holds(dst, p));
        if to != from {
            shared_pointees_alias(e, dst, x, to, None, src, x, from, None, p);
        }
    }
    (dst, src)
}

/// Locals of functions that are built, in whatever contexts, that may point to
/// one location may alias; so may the memory that they stand for, with or
/// without a field.
pub proof fn shared_pointees_alias<'p>(
    e: AliasEngine<'p>,
    id: LocId,
    x: InContext,
    a: Local,
    f: Option<u32>,
    jd: LocId,
    y: InContext,
    b: Local,
    g: Option<u32>,
    p: LocId,
)
    requires
        e.wf(),
        arena_fits(e.pta@.facts.arena),
        is_local_in(e, id, x, a),
        is_local_in(e, jd, y, b),
        e.result.holds(id, p),
        e.result.holds(jd, p),
        x.0 != y.0 || a != b,
    ensures
        e.atomic_kind(AliasId::plain(x.0, a), AliasId::plain(y.0, b))
            == ApproximateAliasKind::Possibly,
        e.alias_kind(
            AliasId { instance_id: x.0, local: a, array_index: None, field: f },
            AliasId { instance_id: y.0, local: b, array_index: None, field: g },
        ) == ApproximateAliasKind::Possibly,
{
    let v = e.pta@;
    local_is_node(e, id, x, a);
    local_is_node(e, jd, y, b);
    collapsing_loses_no_alias(v, e.result, x.0, a, y.0, b, id, jd, p);
    let ai = AliasId::plain(x.0, a);
    let bi = AliasId::plain(y.0, b);
    assert(v.points_to_key(e.result, ai.instance_id, ai.local, v.key(p)));
    assert(v.points_to_key(e.result, bi.instance_id, bi.local, v.key(p)));
    assert(v.share_pointee(e.result, ai, bi));
    assert(v.share_receiver(e.result, x.0, a, f, y.0, b, g));
}

/// What a pointer may point to, it may alias: the local behind a reference is
/// the same place.
pub proof fn references_alias_their_referents<'p>(
    e: AliasEngine<'p>,
    id: LocId,
    x: InContext,
    a: Local,
    jd: LocId,
    y: InContext,
    b: Local,
)
    requires
        e.wf(),
        arena_fits(e.pta@.facts.arena),
        is_local_in(e, id, x, a),
        is_local_in(e, jd, y, b),
        e.result.holds(id, jd),
        x.0 != y.0 || a != b,
    ensures
        e.alias_kind(AliasId::plain(x.0, a), AliasId::plain(y.0, b))
            == ApproximateAliasKind::Possibly,
        e.pta@.points_to_local(e.result, x.0, a, y.0, b),
{
    let v = e.pta@;
    local_is_node(e, id, x, a);
    local_is_node(e, jd, y, b);
    let key = v.key(jd);
    assert(v.points_to_key(e.result, x.0, a, key));
    assert(v.receiver_key(e.result, x.0, a, None, key));
    assert(v.receiver_key(e.result, y.0, b, None, key));
}

/// A field behind a pointer is a place of its own: a receiver with a field
/// stands for what that field of its referent points to.
pub proof fn fields_behind_pointers_alias<'p>(
    e: AliasEngine<'p>,
    id: LocId,
    x: InContext,
    a: Local,
    whole: LocId,
    field: u32,
    part: LocId,
    p: LocId,
    jd: LocId,
    y: InContext,
    b: Local,
)
    requires
        e.wf(),
        arena_fits(e.pta@.facts.arena),
        is_local_in(e, id, x, a),
        e.result.holds(id, whole) || whole == id,
        is_part_of(e.pta@.facts.arena, part, whole, seq![ProjElem::Field(field)]),
        e.pta@.facts.arena.paths[e.pta@.facts.arena.locs[part as int].path() as int].len() <= 8,
        e.result.holds(part, p),
        is_local_in(e, jd, y, b),
        e.result.holds(jd, p),
        x.0 != y.0 || a != b,
    ensures
        e.alias_kind(
            AliasId { instance_id: x.0, local: a, array_index: None, field: Some(field) },
            AliasId::plain(y.0, b),
        ) == ApproximateAliasKind::Possibly,
{
    let v = e.pta@;
    let at = v.facts.arena;
    local_is_node(e, id, x, a);
    local_is_node(e, jd, y, b);
    let key = v.key(p);
    assert(at.locs[part as int] == at.locs[whole as int].with_path(at.locs[part as int].path()));
    assert(v.is_part(part, whole, seq![ProjElem::Field(field)]));
    assert(v.part_points_to_key(e.result, whole, field, key));
    assert(v.receiver_key(e.result, x.0, a, Some(field), key));
    assert(v.points_to_key(e.result, y.0, b, key));
    assert(v.receiver_key(e.result, y.0, b, None, key));
}

/// An answer that two locals may share a pointee is never made up: some of
/// their locations point to locations that differ in their contexts at most.
pub proof fn possible_aliases_are_real<'p>(e: AliasEngine<'p>, a: AliasId, b: AliasId) -> (r: (
    LocId,
    LocId,
    LocId,
    LocId,
))
    requires
        e.wf(),
        e.atomic_kind(a, b) == ApproximateAliasKind::Possibly,
    ensures
        e.pta@.is_node(r.0, a.instance_id, a.local),
        e.pta@.is_node(r.2, b.instance_id, b.local),
        e.result.holds(r.0, r.1),
        e.result.holds(r.2, r.3),
        match (e.pta@.facts.arena.locs[r.1 as int], e.pta@.facts.arena.locs[r.3 as int]) {
            (
                LocView::Var { func, base, path, .. },
                LocView::Var { func: g, base: c, path: q, .. },
            ) => func == g && base == c && path == q,
            (LocView::Heap { site, path, .. }, LocView::Heap { site: t, path: q, .. }) => site == t
                && path == q,
            (
                LocView::Global { def_index, path },
                LocView::Global { def_index: d, path: q },
            ) => def_index == d && path == q,
            _ => false,
        },
{
    let v = e.pta@;
    assert(v.share_pointee(e.result, a, b));
    let key = choose|key: CiKey| #[trigger]
        v.points_to_key(e.result, a.instance_id, a.local, key) && v.points_to_key(
            e.result,
            b.instance_id,
            b.local,
            key,
        );
    let (x, p) = choose|x: LocId, p: LocId| #[trigger]
        v.is_node(x, a.instance_id, a.local) && #[trigger] e.result.holds(x, p) && v.key(p) == key;
    let (y, q) = choose|y: LocId, q: LocId| #[trigger]
        v.is_node(y, b.instance_id, b.local) && #[trigger] e.result.holds(y, q) && v.key(q) == key;
    (x, p, y, q)
}

/// An argument and the parameter that it is passed to point to the same, and so
/// do the result of a call and what the callee returns.
pub proof fn calls_pass_pointers_on<'p>(
    e: AliasEngine<'p>,
    roots: Seq<InstanceId>,
    built: PtaView,
    x: InContext,
    j: int,
    i: usize,
    from: Local,
    p: LocId,
) -> (r: (LocId, LocId))
    requires
        answers_for(e, roots, built),
        built.built.contains(x),
        leads_on(e.pta.setting(), x, j),
        ({
            let call = e.pta.program.functions@[x.0 as int].calls@[j];
            &&& 0 < i <= e.pta.program.functions@[call.callee->0 as int].arg_count
            &&& i <= call.args@.len()
            &&& call.args@[i - 1] is Some
            &&& (call.args@[i - 1]->0).base == NodeBase::Local(from)
            &&& (call.args@[i - 1]->0).path@.len() == 0
        }),
    ensures
        ({
            let call = e.pta.program.functions@[x.0 as int].calls@[j];
            let y = target(e.pta.setting(), e.pta@.funcs, x, call);
            &&& is_local_in(e, r.0, x, from)
            &&& is_local_in(e, r.1, y, i)
            &&& e.result.holds(r.0, p) ==> e.result.holds(r.1, p)
            &&& e.result.holds(r.0, p) && (x.0 != y.0 || from != i) ==> e.atomic_kind(
                AliasId::plain(x.0, from),
                AliasId::plain(y.0, i),
            ) == ApproximateAliasKind::Possibly
        }),
{
    let set = e.pta.setting();
    let call = e.pta.program.functions@[x.0 as int].calls@[j];
    let a = e.pta@.facts.arena;
    let b = built.facts.arena;
    let y = target(set, built.funcs, x, call);
    let node = call.args@[i - 1]->0;
    let empty = Seq::<ProjElem>::empty();
    assert(newly_built(set, nothing_built(), roots, built, x));
    let (dest, args, heap) = calls_are_bound(set, nothing_built(), roots, built, x, j);
    let func = place_in(built.funcs, x.0) as usize;
    let of = place_in(built.funcs, y.0) as usize;
    assert(names_call(b, func, x.1, call, dest, args, heap));
    assert(args[i - 1] is Some);
    let arg = args[i - 1]->0;
    assert(node.path@ =~= empty);
    let param = choose|param: LocId| #[trigger]
        names_part(b, param, of, y.1, NodeBase::Local(i), empty)
            && built.facts.constraints.contains(Constraint::Copy { dst: param, src: arg });
    part_extends(b, a, arg, func, x.1, NodeBase::Local(from), empty);
    part_extends(b, a, param, of, y.1, NodeBase::Local(i), empty);
    built_has_number(set, nothing_built(), roots, built, x);
    solutions_follow_the_flows(e.result, e.pta@.facts.constraints, a);
    if e.result.holds(arg, p) {
        assert(relation(e.result)(arg, p));
        assert(relation(e.result)(param, p));
        if x.0 != y.0 || from != i {
            shared_pointees_alias(e, arg, x, from, None, param, y, i, None, p);
        }
    }
    (arg, param)
}

// What the answers mean.

/// An id aliases itself; different constant elements and different fields of
/// one local do not alias; and no answer is left open.
pub proof fn ids_are_told_apart<'p>(e: AliasEngine<'p>, a: AliasId, b: AliasId)
    ensures
        e.alias_kind(a, a) == ApproximateAliasKind::Probably,
        e.atomic_kind(a, a) == ApproximateAliasKind::Probably,
        a != b ==> e.alias_kind(a, b) != ApproximateAliasKind::Probably,
        a != b ==> e.atomic_kind(a, b) != ApproximateAliasKind::Probably,
        a.instance_id == b.instance_id && a.local == b.local && a.array_index is Some
            && b.array_index is Some && a.array_index != b.array_index ==> e.alias_kind(a, b)
            == ApproximateAliasKind::Unlikely && e.atomic_kind(a, b)
            == ApproximateAliasKind::Unlikely,
        a.instance_id == b.instance_id && a.local == b.local && a.field is Some && b.field is Some
            && a.field != b.field ==> e.alias_kind(a, b) == ApproximateAliasKind::Unlikely
            && e.atomic_kind(a, b) == ApproximateAliasKind::Unlikely,
        e.alias_kind(a, b) != ApproximateAliasKind::Unknown,
        e.atomic_kind(a, b) != ApproximateAliasKind::Unknown,
{
}

/// Likely and possible aliases add arcs whatever the policy, unlikely ones
/// never, and unknown ones where the policy is conservative.
pub proof fn policies_decide_unknown_answers(policy: AliasUnknownPolicy)
    ensures
        ApproximateAliasKind::Probably.adds_arcs(policy),
        ApproximateAliasKind::Possibly.adds_arcs(policy),
        !ApproximateAliasKind::Unlikely.adds_arcs(policy),
        ApproximateAliasKind::Unknown.adds_arcs(AliasUnknownPolicy::Conservative),
        !ApproximateAliasKind::Unknown.adds_arcs(AliasUnknownPolicy::Optimistic),
{
}

/// The answers ascend from unknown over unlikely and possible to probable.
pub proof fn answers_ascend()
    ensures
        ApproximateAliasKind::Unknown.partial_cmp_spec(&ApproximateAliasKind::Unlikely) == Some(
            Ordering::Less,
        ),
        ApproximateAliasKind::Unlikely.partial_cmp_spec(&ApproximateAliasKind::Possibly) == Some(
            Ordering::Less,
        ),
        ApproximateAliasKind::Possibly.partial_cmp_spec(&ApproximateAliasKind::Probably) == Some(
            Ordering::Less,
        ),
{
}

/// A place is located by its local, the index of its last constant step where
/// no step indexes by a local, and its first field.
pub proof fn places_are_located(instance_id: InstanceId, place: Place, i: int)
    ensures
        ({
            let id = AliasId::of_place(instance_id, place);
            let steps = place.projection@;
            &&& id.instance_id == instance_id
            &&& id.local == place.local
            &&& 0 <= i < steps.len() && steps[i] is Index ==> id.array_index is None
            &&& (forall|k: int| 0 <= k < steps.len() ==> !((#[trigger] steps[k]) is Index))
                ==> id.array_index == last_constant_index(steps)
            &&& id.field == first_field(steps)
        }),
{
}

/// An answer that a pointer may point to a local is never made up: a location
/// of the one points to the other itself, in some context.
pub proof fn possible_pointees_are_real<'p>(
    e: AliasEngine<'p>,
    pointer: InstanceId,
    from: Local,
    pointee: InstanceId,
    to: Local,
) -> (r: (LocId, LocId))
    requires
        e.wf(),
        arena_fits(e.pta@.facts.arena),
        e.pta@.points_to_local(e.result, pointer, from, pointee, to),
    ensures
        e.pta@.is_node(r.0, pointer, from),
        e.result.holds(r.0, r.1),
        e.pta@.is_node(r.1, pointee, to),
{
    let v = e.pta@;
    let a = v.facts.arena;
    let key = CiKey::Var {
        func: place_in(v.funcs, pointee) as usize,
        base: to,
        path: a.empty_id(),
    };
    assert(v.points_to_key(e.result, pointer, from, key));
    let (x, p) = choose|x: LocId, p: LocId| #[trigger]
        v.is_node(x, pointer, from) && #[trigger] e.result.holds(x, p) && v.key(p) == key;
    let j = choose|j: int| 0 <= j < e.result.pointees(x).len() && e.result.pointees(x)[j] == p;
    pointee_numbered(e.result, a, x, j);
    place_in_facts(a.paths, Seq::<ProjElem>::empty());
    (x, p)
}

/// The locations of a local are those of the whole local, in whatever contexts;
/// its parts are not among them.
pub proof fn nodes_are_whole_locals<'p>(
    e: AliasEngine<'p>,
    id: LocId,
    instance: InstanceId,
    local: Local,
)
    requires
        e.wf(),
    ensures
        e.pta@.is_node(id, instance, local) <==> exists|ctx: Seq<CallSite>| #[trigger]
            is_local_in(e, id, (instance, ctx), local),
{
    let a = e.pta@.facts.arena;
    let func = place_in(e.pta@.funcs, instance) as usize;
    if e.pta@.is_node(id, instance, local) {
        match a.locs[id as int] {
            LocView::Var { ctx, func: f, base, path } => {
                assert(a.locs[id as int].path() < a.paths.len());
                assert(a.paths[path as int] =~= Seq::<ProjElem>::empty());
                assert(is_local_in(e, id, (instance, ctx), local));
            },
            _ => {},
        }
    }
}

/// A local aliases its own fields and elements: ids of one local that do not
/// name different fields or elements may be of one place.
pub proof fn locals_alias_their_parts<'p>(
    e: AliasEngine<'p>,
    id: LocId,
    x: InContext,
    a: AliasId,
    b: AliasId,
)
    requires
        e.wf(),
        arena_fits(e.pta@.facts.arena),
        a.instance_id == x.0,
        b.instance_id == x.0,
        a.local == b.local,
        a != b,
        a.field is None || b.field is None || a.field == b.field,
        a.array_index is None || b.array_index is None || a.array_index == b.array_index,
        is_local_in(e, id, x, a.local),
    ensures
        e.alias_kind(a, b) == ApproximateAliasKind::Possibly,
        (exists|p: LocId| e.result.holds(id, p)) ==> e.atomic_kind(a, b)
            == ApproximateAliasKind::Possibly,
{
    let v = e.pta@;
    local_is_node(e, id, x, a.local);
    let key = v.key(id);
    assert(v.receiver_key(e.result, a.instance_id, a.local, a.field, key));
    assert(v.receiver_key(e.result, b.instance_id, b.local, b.field, key));
    if exists|p: LocId| e.result.holds(id, p) {
        let p = choose|p: LocId| e.result.holds(id, p);
        assert(v.points_to_key(e.result, a.instance_id, a.local, v.key(p)));
        assert(v.points_to_key(e.result, b.instance_id, b.local, v.key(p)));
    }
}

} // verus!

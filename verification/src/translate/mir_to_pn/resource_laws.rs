//! What the translation promises of shared values: which atomics, channels and
//! raw pointers an access is taken to be on, and what it does to their places.

use super::body::{BodyToPetriNet, BodyView};
use super::concurrency::{
    place_matched, with_alternative, with_alternatives, with_arcs, with_inside, with_matches,
    AtomicOp,
};
use super::drop_unsafe::read_places;
use crate::concurrency::atomic::AtomicOrdering;
use crate::memory::pointsto::AliasId;
use crate::net::structure::{
    Arc, ArcDir, NetView, PlaceId, PlaceType, TransitionId, TransitionTypeView, UnsafeOpView,
};
use crate::translate::mir::{BasicBlock, Operand, Place, Rvalue};
use vstd::prelude::*;

verus! {

// Atomics.

proof fn matches_grow(
    matches: Seq<(AliasId, PlaceId)>,
    alias: AliasId,
    places: Seq<PlaceId>,
    n: nat,
)
    requires
        n <= places.len(),
    ensures
        ({
            let all = with_matches(matches, alias, places, n);
            &&& forall|p: PlaceId| #[trigger]
                place_matched(all, p) <==> place_matched(matches, p) || exists|j: int|
                    0 <= j < n && places[j] == p
            &&& forall|k: int|
                0 <= k < all.len() ==> matches.contains(#[trigger] all[k]) || (all[k].0 == alias
                    && places.contains(all[k].1))
            &&& each_place_once(matches) ==> each_place_once(all)
        }),
    decreases n,
{
    if n > 0 {
        let m = (n - 1) as nat;
        matches_grow(matches, alias, places, m);
        let before = with_matches(matches, alias, places, m);
        let all = with_matches(matches, alias, places, n);
        let last = places[n - 1];
        assert forall|p: PlaceId| #[trigger] place_matched(all, p) <==> place_matched(matches, p)
            || exists|j: int| 0 <= j < n && places[j] == p by {
            if place_matched(all, p) {
                let k = choose|k: int| 0 <= k < all.len() && (#[trigger] all[k]).1 == p;
                if k < before.len() {
                    assert(before[k].1 == p);
                    assert(place_matched(before, p));
                } else {
                    assert(places[n - 1] == p);
                }
            }
            if place_matched(before, p) {
                let k = choose|k: int| 0 <= k < before.len() && (#[trigger] before[k]).1 == p;
                assert(all[k].1 == p);
            }
            if last == p && !place_matched(before, p) {
                assert(all[before.len() as int].1 == p);
            }
            if exists|j: int| 0 <= j < n && places[j] == p {
                let j = choose|j: int| 0 <= j < n && places[j] == p;
                if j < m {
                    assert(place_matched(before, p));
                }
            }
        }
        assert forall|k: int| 0 <= k < all.len() implies matches.contains(#[trigger] all[k]) || (
        all[k].0 == alias && places.contains(all[k].1)) by {
            if k < before.len() {
                assert(all[k] == before[k]);
            } else {
                assert(places[n - 1] == all[k].1);
            }
        }
        if each_place_once(matches) {
            assert forall|a: int, b: int| 0 <= a < b < all.len() implies (#[trigger] all[a]).1 != (
            #[trigger] all[b]).1 by {
                assert(all[a] == before[a]);
                if b < before.len() {
                    assert(all[b] == before[b]);
                } else {
                    assert(!place_matched(before, last));
                }
            }
        }
    }
}

/// A match that is added is on a place that was not matched.
proof fn new_place(
    matches: Seq<(AliasId, PlaceId)>,
    alias: AliasId,
    places: Seq<PlaceId>,
    n: nat,
    k: int,
)
    requires
        n <= places.len(),
        0 <= k < with_matches(matches, alias, places, n).len(),
        !matches.contains(with_matches(matches, alias, places, n)[k]),
    ensures
        !place_matched(matches, with_matches(matches, alias, places, n)[k].1),
    decreases n,
{
    if n > 0 {
        let m = (n - 1) as nat;
        let before = with_matches(matches, alias, places, m);
        let all = with_matches(matches, alias, places, n);
        if k < before.len() {
            assert(all[k] == before[k]);
            new_place(matches, alias, places, m, k);
        } else {
            matches_grow(matches, alias, places, m);
            assert(!place_matched(before, all[k].1));
        }
    } else {
        assert(matches.contains(matches[k]));
    }
}

/// No place occurs twice.
pub open spec fn each_place_once(matches: Seq<(AliasId, PlaceId)>) -> bool {
    forall|a: int, b: int|
        0 <= a < b < matches.len() ==> (#[trigger] matches[a]).1 != (#[trigger] matches[b]).1
}

/// The atomic that a match is on is recorded with the place, and may be the one
/// that is operated on.
pub open spec fn is_candidate<'b, 'p>(
    body: BodyToPetriNet<'b, 'p>,
    current: AliasId,
    i: int,
    place: PlaceId,
) -> bool {
    let entries = body.resources.atomic_places.entries@;
    &&& 0 <= i < entries.len()
    &&& body.alias.atomic_kind(current, entries[i].0).adds_arcs(body.alias_unknown_policy)
    &&& entries[i].1@.contains(place)
}

/// The match is on one of the first `n` atomics that are recorded, the first of
/// them that may be on the place.
pub open spec fn is_recorded<'b, 'p>(
    body: BodyToPetriNet<'b, 'p>,
    current: AliasId,
    n: nat,
    x: (AliasId, PlaceId),
) -> bool {
    exists|i: int| #[trigger]
        is_candidate(body, current, i, x.1) && i < n
            && body.resources.atomic_places.entries@[i].0 == x.0 && forall|k: int|
            k < i ==> !#[trigger] is_candidate(body, current, k, x.1)
}

/// An atomic operation is matched with every place of every atomic that it may
/// be on, once each, and with no other.
pub proof fn all_possible_atomics_are_matched<'b, 'p>(
    body: BodyToPetriNet<'b, 'p>,
    current: AliasId,
    n: nat,
)
    requires
        n <= body.resources.atomic_places.entries@.len(),
    ensures
        ({
            let matches = body.atomic_matches(current, n);
            &&& forall|i: int, place: PlaceId| #[trigger]
                is_candidate(body, current, i, place) && i < n ==> place_matched(matches, place)
            &&& forall|k: int|
                0 <= k < matches.len() ==> is_recorded(body, current, n, #[trigger] matches[k])
            &&& each_place_once(matches)
        }),
    decreases n,
{
    if n > 0 {
        let m = (n - 1) as nat;
        let entries = body.resources.atomic_places.entries@;
        all_possible_atomics_are_matched(body, current, m);
        let before = body.atomic_matches(current, m);
        let all = body.atomic_matches(current, n);
        let (alias, places) = entries[n - 1];
        let hit = body.alias.atomic_kind(current, alias).adds_arcs(body.alias_unknown_policy);
        if hit {
            matches_grow(before, alias, places@, places@.len());
        }
        assert forall|i: int, place: PlaceId| #[trigger]
            is_candidate(body, current, i, place) && i < n implies place_matched(all, place) by {
            if i < m {
                assert(place_matched(before, place));
            } else {
                let j = choose|j: int| 0 <= j < places@.len() && places@[j] == place;
                assert(places@[j] == place);
            }
        }
        assert forall|k: int| 0 <= k < all.len() implies is_recorded(
            body,
            current,
            n,
            #[trigger] all[k],
        ) by {
            if before.contains(all[k]) {
                let j = choose|j: int| 0 <= j < before.len() && before[j] == all[k];
                assert(is_recorded(body, current, m, before[j]));
                let i = choose|i: int| #[trigger]
                    is_candidate(body, current, i, before[j].1) && i < m && entries[i].0
                        == before[j].0 && forall|k: int|
                        k < i ==> !#[trigger] is_candidate(body, current, k, before[j].1);
                assert(is_candidate(body, current, i, all[k].1));
            } else {
                if !hit {
                    assert(before.contains(before[k]));
                }
                assert(is_candidate(body, current, n - 1, all[k].1));
                assert(!place_matched(before, all[k].1)) by {
                    new_place(before, alias, places@, places@.len(), k);
                }
                assert forall|q: int| q < n - 1 implies !#[trigger] is_candidate(
                    body,
                    current,
                    q,
                    all[k].1,
                ) by {
                    if is_candidate(body, current, q, all[k].1) {
                        assert(place_matched(before, all[k].1));
                    }
                }
            }
        }
    }
}

// Channels and raw pointers.

/// The endpoint of a channel belongs to the first channel that it may be of,
/// and to none where it may be of none.
pub proof fn endpoints_find_their_channel<'b, 'p>(
    body: BodyToPetriNet<'b, 'p>,
    channel: AliasId,
    i: int,
)
    requires
        0 <= i < body.resources.channel_places.entries@.len(),
    ensures
        ({
            let entries = body.resources.channel_places.entries@;
            let policy = body.alias_unknown_policy;
            &&& (forall|j: int|
                0 <= j < i ==> !body.alias.atomic_kind(
                    channel,
                    (#[trigger] entries[j]).0,
                ).adds_arcs(policy)) ==> {
                &&& body.alias.atomic_kind(channel, entries[i].0).adds_arcs(policy)
                    ==> body.channel_match(channel, 0) == Some(entries[i].1)
                &&& i == entries.len() - 1 && !body.alias.atomic_kind(
                    channel,
                    entries[i].0,
                ).adds_arcs(policy) ==> body.channel_match(channel, 0) is None
            }
        }),
{
    channel_from(body, channel, 0, i);
}

proof fn channel_from<'b, 'p>(
    body: BodyToPetriNet<'b, 'p>,
    channel: AliasId,
    from: int,
    i: int,
)
    requires
        0 <= from <= i < body.resources.channel_places.entries@.len(),
    ensures
        ({
            let entries = body.resources.channel_places.entries@;
            let policy = body.alias_unknown_policy;
            &&& (forall|j: int|
                from <= j < i ==> !body.alias.atomic_kind(
                    channel,
                    (#[trigger] entries[j]).0,
                ).adds_arcs(policy)) ==> {
                &&& body.alias.atomic_kind(channel, entries[i].0).adds_arcs(policy)
                    ==> body.channel_match(channel, from) == Some(entries[i].1)
                &&& i == entries.len() - 1 && !body.alias.atomic_kind(
                    channel,
                    entries[i].0,
                ).adds_arcs(policy) ==> body.channel_match(channel, from) is None
            }
        }),
    decreases i - from,
{
    let entries = body.resources.channel_places.entries@;
    if from < i {
        channel_from(body, channel, from + 1, i);
        if forall|j: int|
            from <= j < i ==> !body.alias.atomic_kind(
                channel,
                (#[trigger] entries[j]).0,
            ).adds_arcs(body.alias_unknown_policy) {
            assert(!body.alias.atomic_kind(channel, entries[from].0).adds_arcs(
                body.alias_unknown_policy,
            ));
        }
    } else {
        assert(body.channel_match(channel, i + 1) is None || i + 1 < entries.len());
    }
}

/// A local that may be a raw pointer is of the group of the first one that it
/// may be; one that may be none is of no group.
pub proof fn raw_pointers_find_their_group<'b, 'p>(
    body: BodyToPetriNet<'b, 'p>,
    local: AliasId,
    from: int,
    i: int,
)
    requires
        0 <= from <= i < body.resources.unsafe_groups.entries@.len(),
    ensures
        ({
            let entries = body.resources.unsafe_groups.entries@;
            let policy = body.alias_unknown_policy;
            &&& (forall|j: int|
                from <= j < i ==> !body.alias.atomic_kind(
                    local,
                    (#[trigger] entries[j]).0,
                ).adds_arcs(policy)) ==> {
                &&& body.alias.atomic_kind(local, entries[i].0).adds_arcs(policy)
                    ==> body.unsafe_match(local, from) == Some(entries[i])
                &&& i == entries.len() - 1 && !body.alias.atomic_kind(
                    local,
                    entries[i].0,
                ).adds_arcs(policy) ==> body.unsafe_match(local, from) is None
            }
        }),
    decreases i - from,
{
    let entries = body.resources.unsafe_groups.entries@;
    if from < i {
        raw_pointers_find_their_group(body, local, from + 1, i);
        if forall|j: int|
            from <= j < i ==> !body.alias.atomic_kind(
                local,
                (#[trigger] entries[j]).0,
            ).adds_arcs(body.alias_unknown_policy) {
            assert(!body.alias.atomic_kind(local, entries[from].0).adds_arcs(
                body.alias_unknown_policy,
            ));
        }
    } else {
        assert(body.unsafe_match(local, i + 1) is None || i + 1 < entries.len());
    }
}

/// An assignment reads what its right side names: the moved, copied or borrowed
/// place, and all places of any other form; a constant reads none.
pub proof fn assignments_read_their_right_side(place: Place, places: Vec<Place>)
    ensures
        read_places(Rvalue::Use(Operand::Copy(place))) == seq![place],
        read_places(Rvalue::Use(Operand::Move(place))) == seq![place],
        read_places(Rvalue::Use(Operand::Constant)).len() == 0,
        read_places(Rvalue::Ref(place)) == seq![place],
        read_places(Rvalue::Other(places)) == places@,
{
}

/// Every read of a place whose local may be a raw pointer is noted as a read of
/// its group, with the span, the block and the type of the place, and so is
/// every write as a write; nothing else is noted.
pub proof fn accesses_are_noted<'b, 'p>(
    body: BodyToPetriNet<'b, 'p>,
    places: Seq<Place>,
    bb: BasicBlock,
    span: Seq<char>,
    k: int,
)
    requires
        0 <= k < places.len(),
    ensures
        ({
            let found = body.unsafe_match(
                AliasId {
                    instance_id: body.instance_id,
                    local: places[k].local,
                    array_index: None,
                    field: None,
                },
                0,
            );
            let reads = body.reads_of(places, bb, span);
            let writes = body.access_to(places[k], true, bb, span);
            &&& found matches Some((_, group)) ==> reads.contains(
                UnsafeOpView {
                    alias: group as usize,
                    is_write: false,
                    span,
                    basic_block: bb,
                    ty: places[k].ty.text@,
                },
            ) && writes == seq![
                UnsafeOpView {
                    alias: group as usize,
                    is_write: true,
                    span,
                    basic_block: bb,
                    ty: places[k].ty.text@,
                },
            ]
            &&& found is None ==> writes.len() == 0
            &&& reads.len() <= places.len()
            &&& forall|i: int| 0 <= i < reads.len() ==> !(#[trigger] reads[i]).is_write
        }),
    decreases places.len(),
{
    let front = places.drop_last();
    let before = body.reads_of(front, bb, span);
    let all = body.reads_of(places, bb, span);
    let one = body.access_to(places.last(), false, bb, span);
    reads_are_reads(body, places, bb, span);
    if k < front.len() {
        assert(front[k] == places[k]);
        accesses_are_noted(body, front, bb, span, k);
        let found = body.unsafe_match(AliasId::plain(body.instance_id, places[k].local), 0);
        if let Some((_, group)) = found {
            let x = UnsafeOpView {
                alias: group as usize,
                is_write: false,
                span,
                basic_block: bb,
                ty: places[k].ty.text@,
            };
            let i = choose|i: int| 0 <= i < before.len() && before[i] == x;
            assert(all[i] == x);
        }
    } else if one.len() > 0 {
        assert(all[before.len() as int] == one[0]);
    }
}

proof fn reads_are_reads<'b, 'p>(
    body: BodyToPetriNet<'b, 'p>,
    places: Seq<Place>,
    bb: BasicBlock,
    span: Seq<char>,
)
    ensures
        body.reads_of(places, bb, span).len() <= places.len(),
        forall|i: int|
            0 <= i < body.reads_of(places, bb, span).len() ==> !(#[trigger] body.reads_of(
                places,
                bb,
                span,
            )[i]).is_write,
    decreases places.len(),
{
    if places.len() > 0 {
        let front = places.drop_last();
        let before = body.reads_of(front, bb, span);
        let all = body.reads_of(places, bb, span);
        reads_are_reads(body, front, bb, span);
        assert forall|i: int| 0 <= i < all.len() implies !(#[trigger] all[i]).is_write by {
            if i < before.len() {
                assert(all[i] == before[i]);
            }
        }
    }
}

// What an atomic operation does.

/// The net has an arc of weight one.
pub open spec fn has_arc(net: NetView, place: PlaceId, t: TransitionId, direction: ArcDir) -> bool {
    net.arcs.contains(Arc { place, transition: t, weight: 1, direction })
}

proof fn arcs_added(net: NetView, arcs: Seq<(PlaceId, bool)>, t: TransitionId, i: int)
    requires
        0 <= i < arcs.len(),
    ensures
        has_arc(
            with_arcs(net, arcs, t),
            arcs[i].0,
            t,
            if arcs[i].1 {
                ArcDir::Input
            } else {
                ArcDir::Output
            },
        ),
    decreases arcs.len(),
{
    let front = arcs.drop_last();
    let before = with_arcs(net, front, t);
    let all = with_arcs(net, arcs, t);
    arcs_counted(net, arcs, t);
    arcs_counted(net, front, t);
    if i < front.len() {
        assert(front[i] == arcs[i]);
        arcs_added(net, front, t, i);
        let x = Arc {
            place: arcs[i].0,
            transition: t,
            weight: 1,
            direction: if arcs[i].1 {
                ArcDir::Input
            } else {
                ArcDir::Output
            },
        };
        let k = choose|k: int| 0 <= k < before.arcs.len() && before.arcs[k] == x;
        assert(all.arcs[k] == x);
    } else {
        assert(all.arcs[before.arcs.len() as int].place == arcs[i].0);
    }
}

proof fn arcs_counted(net: NetView, arcs: Seq<(PlaceId, bool)>, t: TransitionId)
    ensures
        with_arcs(net, arcs, t).arcs.len() == net.arcs.len() + arcs.len(),
        with_arcs(net, arcs, t).transitions == net.transitions,
        with_arcs(net, arcs, t).places == net.places,
        forall|k: int|
            0 <= k < net.arcs.len() ==> #[trigger] with_arcs(net, arcs, t).arcs[k] == net.arcs[k],
    decreases arcs.len(),
{
    if arcs.len() > 0 {
        arcs_counted(net, arcs.drop_last(), t);
    }
}

/// The transition is the operation on the resource: it takes the token of the
/// place that the operation is entered by, takes and gives back the token of
/// the resource, keeps to the ordering, and goes on at the target.
pub open spec fn operates_on(
    v: BodyView,
    op: AtomicOp,
    inside: PlaceId,
    arcs: Seq<(PlaceId, bool)>,
    resource: PlaceId,
    transition_type: TransitionTypeView,
    t: TransitionId,
) -> bool {
    &&& t < v.net.transitions.len()
    &&& v.net.transitions[t as int].transition_type == transition_type
    &&& has_arc(v.net, inside, t, ArcDir::Input)
    &&& has_arc(v.net, resource, t, ArcDir::Input)
    &&& has_arc(v.net, resource, t, ArcDir::Output)
    &&& forall|i: int|
        0 <= i < arcs.len() ==> has_arc(
            v.net,
            (#[trigger] arcs[i]).0,
            t,
            if arcs[i].1 {
                ArcDir::Input
            } else {
                ArcDir::Output
            },
        )
    &&& match op.target {
        Some(target) => has_arc(v.net, v.blocks[target].start, t, ArcDir::Output),
        None => true,
    }
}

/// How many arcs an alternative has.
pub open spec fn arc_count(op: AtomicOp, arcs: Seq<(PlaceId, bool)>) -> int {
    3 + arcs.len() + if op.target is Some {
        1int
    } else {
        0int
    }
}

proof fn alternative_operates(
    v: BodyView,
    op: AtomicOp,
    inside: PlaceId,
    arcs: Seq<(PlaceId, bool)>,
    idx: nat,
    resource: PlaceId,
    transition_type: TransitionTypeView,
)
    requires
        v.net.transitions.len() < usize::MAX,
    ensures
        ({
            let w = with_alternative(v, op, inside, arcs, idx, resource, transition_type);
            let t = v.net.transitions.len() as usize;
            &&& operates_on(w, op, inside, arcs, resource, transition_type, t)
            &&& w.net.transitions.len() == v.net.transitions.len() + 1
            &&& forall|k: int|
                0 <= k < v.net.transitions.len() ==> #[trigger] w.net.transitions[k]
                    == v.net.transitions[k]
            &&& w.net.arcs.len() == v.net.arcs.len() + arc_count(op, arcs)
            &&& forall|k: int|
                0 <= k < v.net.arcs.len() ==> #[trigger] w.net.arcs[k] == v.net.arcs[k]
            &&& w.blocks == v.blocks
        }),
{
    let t = v.next_transition();
    let w = with_alternative(v, op, inside, arcs, idx, resource, transition_type);
    let n = v.net.arcs.len() as int;
    let base = v.net.with_transition(op.alternative_name(idx), transition_type).with_input(
        inside,
        t,
        1,
    ).with_input(resource, t, 1).with_output(resource, t, 1);
    let net = with_arcs(base, arcs, t);
    arcs_counted(base, arcs, t);
    assert(base.arcs[n].place == inside);
    assert(base.arcs[n + 1].place == resource);
    assert(base.arcs[n + 2].place == resource);
    assert(net.arcs[n] == base.arcs[n]);
    assert(net.arcs[n + 1] == base.arcs[n + 1]);
    assert(net.arcs[n + 2] == base.arcs[n + 2]);
    assert(w.net.arcs[n] == base.arcs[n]);
    assert(w.net.arcs[n + 1] == base.arcs[n + 1]);
    assert(w.net.arcs[n + 2] == base.arcs[n + 2]);
    assert forall|i: int| 0 <= i < arcs.len() implies has_arc(
        w.net,
        (#[trigger] arcs[i]).0,
        t,
        if arcs[i].1 {
            ArcDir::Input
        } else {
            ArcDir::Output
        },
    ) by {
        arcs_added(base, arcs, t, i);
        let x = Arc {
            place: arcs[i].0,
            transition: t,
            weight: 1,
            direction: if arcs[i].1 {
                ArcDir::Input
            } else {
                ArcDir::Output
            },
        };
        let k = choose|k: int| 0 <= k < net.arcs.len() && net.arcs[k] == x;
        assert(w.net.arcs[k] == x);
    }
    match op.target {
        Some(target) => {
            assert(w.net.arcs[net.arcs.len() as int].place == v.blocks[target].start);
        },
        None => {},
    }
    assert forall|k: int| 0 <= k < v.net.arcs.len() implies #[trigger] w.net.arcs[k]
        == v.net.arcs[k] by {
        assert(base.arcs[k] == v.net.arcs[k]);
        assert(net.arcs[k] == base.arcs[k]);
    }
}

/// An atomic operation has a transition of its own for each resource that it
/// may be on, with the arcs of the operation and no others.
pub proof fn each_resource_has_a_transition(
    v: BodyView,
    op: AtomicOp,
    inside: PlaceId,
    arcs: Seq<(PlaceId, bool)>,
    matches: Seq<(AliasId, PlaceId)>,
    types: Seq<TransitionTypeView>,
    k: int,
)
    requires
        v.net.transitions.len() + matches.len() < usize::MAX,
        0 <= k < matches.len(),
    ensures
        ({
            let w = with_alternatives(v, op, inside, arcs, matches, types);
            let t = (v.net.transitions.len() + k) as usize;
            &&& operates_on(w, op, inside, arcs, matches[k].1, types[k], t)
            &&& w.net.transitions.len() == v.net.transitions.len() + matches.len()
            &&& w.net.arcs.len() == v.net.arcs.len() + matches.len() * arc_count(op, arcs)
            &&& w.blocks == v.blocks
        }),
    decreases matches.len(),
{
    let front = matches.drop_last();
    let before = with_alternatives(v, op, inside, arcs, front, types);
    let w = with_alternatives(v, op, inside, arcs, matches, types);
    alternatives_counted(v, op, inside, arcs, front, types);
    let n = matches.len() - 1;
    alternative_operates(
        before,
        op,
        inside,
        arcs,
        n as nat,
        matches.last().1,
        types[n],
    );
    alternatives_counted(v, op, inside, arcs, matches, types);
    if k < front.len() {
        assert(front[k] == matches[k]);
        each_resource_has_a_transition(v, op, inside, arcs, front, types, k);
        let t = (v.net.transitions.len() + k) as usize;
        assert(w.net.transitions[t as int] == before.net.transitions[t as int]);
        arc_stays(before.net, w.net, inside, t, ArcDir::Input);
        arc_stays(before.net, w.net, matches[k].1, t, ArcDir::Input);
        arc_stays(before.net, w.net, matches[k].1, t, ArcDir::Output);
        assert forall|i: int| 0 <= i < arcs.len() implies has_arc(
            w.net,
            (#[trigger] arcs[i]).0,
            t,
            if arcs[i].1 {
                ArcDir::Input
            } else {
                ArcDir::Output
            },
        ) by {
            arc_stays(
                before.net,
                w.net,
                arcs[i].0,
                t,
                if arcs[i].1 {
                    ArcDir::Input
                } else {
                    ArcDir::Output
                },
            );
        }
        match op.target {
            Some(target) => {
                arc_stays(before.net, w.net, v.blocks[target].start, t, ArcDir::Output);
            },
            None => {},
        }
    }
}

proof fn arc_stays(a: NetView, b: NetView, place: PlaceId, t: TransitionId, direction: ArcDir)
    requires
        has_arc(a, place, t, direction),
        a.arcs.len() <= b.arcs.len(),
        forall|k: int| 0 <= k < a.arcs.len() ==> #[trigger] b.arcs[k] == a.arcs[k],
    ensures
        has_arc(b, place, t, direction),
{
    let x = Arc { place, transition: t, weight: 1, direction };
    let k = choose|k: int| 0 <= k < a.arcs.len() && a.arcs[k] == x;
    assert(b.arcs[k] == x);
}

proof fn alternatives_counted(
    v: BodyView,
    op: AtomicOp,
    inside: PlaceId,
    arcs: Seq<(PlaceId, bool)>,
    matches: Seq<(AliasId, PlaceId)>,
    types: Seq<TransitionTypeView>,
)
    requires
        v.net.transitions.len() + matches.len() < usize::MAX,
    ensures
        ({
            let w = with_alternatives(v, op, inside, arcs, matches, types);
            &&& w.net.transitions.len() == v.net.transitions.len() + matches.len()
            &&& w.net.arcs.len() == v.net.arcs.len() + matches.len() * arc_count(op, arcs)
            &&& w.blocks == v.blocks
        }),
    decreases matches.len(),
{
    if matches.len() > 0 {
        let front = matches.drop_last();
        let n = matches.len() - 1;
        alternatives_counted(v, op, inside, arcs, front, types);
        alternative_operates(
            with_alternatives(v, op, inside, arcs, front, types),
            op,
            inside,
            arcs,
            n as nat,
            matches.last().1,
            types[n],
        );
        let c = arc_count(op, arcs);
        assert(n * c + c == (n + 1) * c) by (nonlinear_arith);
    }
}

/// An atomic operation is entered by a new place, which the call gives its
/// token to.
pub proof fn operations_are_entered(
    v: BodyView,
    op: Seq<char>,
    instance: usize,
    bb: BasicBlock,
    span: Seq<char>,
    call: TransitionId,
)
    requires
        v.net.places.len() < usize::MAX,
    ensures
        ({
            let w = with_inside(v, op, instance, bb, span, call);
            let inside = v.net.places.len() as usize;
            &&& w.net.places.len() == v.net.places.len() + 1
            &&& w.net.places[inside as int].tokens == 0
            &&& w.net.places[inside as int].span == span
            &&& has_arc(w.net, inside, call, ArcDir::Output)
            &&& w.net.arcs.len() == v.net.arcs.len() + 1
            &&& w.net.transitions == v.net.transitions
            &&& w.blocks == v.blocks
            &&& w.seg == v.seg
        }),
{
    let w = with_inside(v, op, instance, bb, span, call);
    assert(w.net.arcs[v.net.arcs.len() as int].place == v.net.places.len());
}

/// A relaxed operation takes and gives back the token of its thread's segment;
/// an acquiring or releasing one takes it and gives one to the next segment;
/// and a sequentially consistent one also takes and gives back the token of the
/// place that all such operations share.
pub proof fn orderings_move_the_segment(v: BodyView, tid: usize)
    requires
        v.segments_placed(),
        v.net.places.len() + 2 < usize::MAX,
        v.seg.at(tid) < usize::MAX,
    ensures
        ({
            let relaxed = v.order_arcs(tid, AtomicOrdering::Relaxed);
            let acquire = v.order_arcs(tid, AtomicOrdering::Acquire);
            let release = v.order_arcs(tid, AtomicOrdering::Release);
            let both = v.order_arcs(tid, AtomicOrdering::AcqRel);
            let seqcst = v.order_arcs(tid, AtomicOrdering::SeqCst);
            let current = relaxed[0].0;
            &&& relaxed == seq![(current, true), (current, false)]
            &&& acquire.len() == 2 && acquire[0] == (current, true) && !acquire[1].1
            &&& acquire[1].0 != current
            &&& release == acquire
            &&& both == acquire
            &&& seqcst.len() == 4 && seqcst[0] == acquire[0] && seqcst[1] == acquire[1]
            &&& seqcst[2].1 && !seqcst[3].1 && seqcst[2].0 == seqcst[3].0
            &&& seqcst[2].0 != current && seqcst[2].0 != acquire[1].0
        }),
{
}

/// A thread begins with one token in its first segment, and the place that
/// sequentially consistent operations share with one; the others begin empty.
pub proof fn threads_begin_in_their_first_segment(v: BodyView, tid: usize, seg: usize)
    requires
        !v.seg.places.contains_key((tid, seg)),
        v.seg.seqcst is None,
        v.net.places.len() + 1 < usize::MAX,
    ensures
        ({
            let w = v.with_segment(tid, seg);
            let place = w.net.places[v.segment_id(tid, seg) as int];
            &&& w.net.places.len() == v.net.places.len() + 1
            &&& place.tokens == (if seg == 0 {
                1u64
            } else {
                0u64
            })
            &&& place.place_type == PlaceType::BasicBlock
            &&& w.seg.places.contains_key((tid, seg))
            &&& w.seg.places[(tid, seg)] == v.net.places.len()
        }),
        ({
            let w = v.with_seqcst();
            let place = w.net.places[v.seqcst_id() as int];
            &&& w.net.places.len() == v.net.places.len() + 1
            &&& place.tokens == 1
            &&& place.place_type == PlaceType::Resources
            &&& w.seg.seqcst == Some(v.net.places.len() as usize)
        }),
{
}

/// What an atomic operation is matched with in all: every place of every
/// recorded atomic that it may be on, and no other.
pub proof fn operations_are_matched_with_all<'b, 'p>(
    body: BodyToPetriNet<'b, 'p>,
    current: AliasId,
    i: int,
    place: PlaceId,
)
    ensures
        is_candidate(body, current, i, place) ==> place_matched(
            body.all_atomic_matches(current),
            place,
        ),
        each_place_once(body.all_atomic_matches(current)),
        (forall|k: int| !#[trigger] is_candidate(body, current, k, place)) ==> !place_matched(
            body.all_atomic_matches(current),
            place,
        ),
{
    let n = body.resources.atomic_places.entries@.len();
    all_possible_atomics_are_matched(body, current, n);
    let matches = body.all_atomic_matches(current);
    if place_matched(matches, place) {
        let k = choose|k: int| 0 <= k < matches.len() && (#[trigger] matches[k]).1 == place;
        assert(is_recorded(body, current, n, matches[k]));
    }
}

} // verus!

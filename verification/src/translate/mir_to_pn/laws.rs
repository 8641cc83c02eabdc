//! What the translation of a body promises as a whole.

use super::blocks::BlockEnds;
use super::body::{switch_targets, BodyToPetriNet, BodyView};
use super::drop_unsafe::{
    access_index, access_index_facts, accesses_are_merged, merged, with_drop, with_unsafe,
};
use super::names::{numbered_name, transition_name};
use super::terminator::{
    continuation, first_result, is_skipped, other_target, polled, resumed_from, sets_pending, wired,
    with_block, with_blocks, with_return, with_switch,
};
use crate::concurrency::blocking::{LockGuardId, LockGuardTy};
use crate::net::structure::{
    total_weight, Arc, ArcDir, NetView, PlaceId, PlaceType, TransitionId, TransitionTypeView,
    UnsafeOpView,
};
use crate::text::decimal;
use crate::translate::mir::{
    BasicBlock, BasicBlockData, DefId, Place, PollVariant, Statement, StatementKind, TerminatorKind,
};
use vstd::prelude::*;

verus! {

/// Every block of a body either has places of its own or is excluded, and the
/// excluded ones are those for cleanup and those that are never reached.
pub proof fn blocks_are_placed_or_excluded(
    v: BodyView,
    blocks: Seq<BasicBlockData>,
    name: Seq<char>,
    n: nat,
)
    requires
        v.blocks == Map::<BasicBlock, BlockEnds>::empty(),
        v.excluded == Seq::<usize>::empty(),
        n <= blocks.len() <= usize::MAX,
        v.net.places.len() + n <= usize::MAX,
    ensures
        ({
            let w = with_blocks(v, blocks, name, n);
            &&& forall|bb: usize| #[trigger]
                w.placed(bb) <==> bb < n && !is_skipped(blocks[bb as int])
            &&& forall|bb: usize| #[trigger]
                w.excluded.contains(bb) <==> bb < n && is_skipped(blocks[bb as int])
            &&& forall|bb: usize| #[trigger]
                w.placed(bb) ==> v.net.places.len() <= w.blocks[bb].start < w.net.places.len()
                    && w.blocks[bb].last == w.blocks[bb].start
            &&& forall|a: usize, b: usize|
                a != b && #[trigger] w.placed(a) && #[trigger] w.placed(b) ==> w.blocks[a].start
                    != w.blocks[b].start
            &&& v.net.places.len() <= w.net.places.len() <= v.net.places.len() + n
        }),
    decreases n,
{
    if n > 0 {
        let m = (n - 1) as nat;
        blocks_are_placed_or_excluded(v, blocks, name, m);
        let before = with_blocks(v, blocks, name, m);
        let w = with_blocks(v, blocks, name, n);
        let bb = m as usize;
        assert(w == with_block(before, bb, blocks[m as int], name));
        if is_skipped(blocks[m as int]) {
            assert forall|x: usize| #[trigger] w.excluded.contains(x) <==> x < n && is_skipped(
                blocks[x as int],
            ) by {
                assert(before.excluded.contains(x) <==> x < m && is_skipped(blocks[x as int]));
                if w.excluded.contains(x) {
                    let i = choose|i: int| 0 <= i < w.excluded.len() && w.excluded[i] == x;
                    if i < before.excluded.len() {
                        assert(before.excluded[i] == x);
                    }
                }
                if before.excluded.contains(x) {
                    let i = choose|i: int|
                        0 <= i < before.excluded.len() && before.excluded[i] == x;
                    assert(w.excluded[i] == x);
                }
                assert(w.excluded[before.excluded.len() as int] == bb);
            }
            assert forall|x: usize| #[trigger] w.placed(x) <==> x < n && !is_skipped(
                blocks[x as int],
            ) by {
                assert(before.placed(x) <==> x < m && !is_skipped(blocks[x as int]));
            }
            assert forall|x: usize| #[trigger] w.placed(x) implies v.net.places.len()
                <= w.blocks[x].start < w.net.places.len() && w.blocks[x].last
                == w.blocks[x].start by {
                assert(before.placed(x));
            }
            assert forall|a: usize, b: usize|
                a != b && #[trigger] w.placed(a) && #[trigger] w.placed(b) implies w.blocks[a].start
                != w.blocks[b].start by {
                assert(before.placed(a) && before.placed(b));
            }
        } else {
            assert forall|x: usize| #[trigger] w.placed(x) <==> x < n && !is_skipped(
                blocks[x as int],
            ) by {
                assert(before.placed(x) <==> x < m && !is_skipped(blocks[x as int]));
            }
            assert forall|x: usize| #[trigger] w.excluded.contains(x) <==> x < n && is_skipped(
                blocks[x as int],
            ) by {
                assert(before.excluded.contains(x) <==> x < m && is_skipped(blocks[x as int]));
            }
            assert forall|x: usize| #[trigger] w.placed(x) implies v.net.places.len()
                <= w.blocks[x].start < w.net.places.len() && w.blocks[x].last
                == w.blocks[x].start by {
                if x != bb {
                    assert(before.placed(x));
                }
            }
            assert forall|a: usize, b: usize|
                a != b && #[trigger] w.placed(a) && #[trigger] w.placed(b) implies w.blocks[a].start
                != w.blocks[b].start by {
                if a != bb {
                    assert(before.placed(a));
                }
                if b != bb {
                    assert(before.placed(b));
                }
            }
        }
    }
}

/// Every arc is at a transition of the net.
pub open spec fn arcs_ok(net: NetView) -> bool {
    forall|i: int| 0 <= i < net.arcs.len() ==> (#[trigger] net.arcs[i]).transition
        < net.transitions.len()
}

proof fn no_weight(arcs: Seq<Arc>, place: PlaceId, t: TransitionId, direction: ArcDir)
    requires
        forall|i: int| 0 <= i < arcs.len() ==> (#[trigger] arcs[i]).transition != t,
    ensures
        total_weight(arcs, place, t, direction) == 0,
    decreases arcs.len(),
{
    if arcs.len() > 0 {
        let front = arcs.drop_last();
        assert forall|i: int| 0 <= i < front.len() implies (#[trigger] front[i]).transition != t by {
            assert(front[i] == arcs[i]);
        }
        assert(arcs[arcs.len() - 1].transition != t);
        no_weight(front, place, t, direction);
    }
}

/// Control neither gets lost nor multiplies: a transition from one block to
/// another takes one token, the one that ends the block, and gives one, the one
/// that begins the other.
pub proof fn control_is_handed_on(
    v: BodyView,
    bb: BasicBlock,
    name: Seq<char>,
    transition_type: TransitionTypeView,
    target: BasicBlock,
    place: PlaceId,
)
    requires
        arcs_ok(v.net),
        v.net.transitions.len() < usize::MAX,
    ensures
        ({
            let w = v.with_fallthrough(bb, name, transition_type, target);
            let t = v.next_transition();
            &&& arcs_ok(w.net)
            &&& w.net.input(place, t) == (if place == v.blocks[bb].last {
                1u64
            } else {
                0u64
            })
            &&& w.net.output(place, t) == (if place == v.blocks[target].start {
                1u64
            } else {
                0u64
            })
        }),
{
    reveal_with_fuel(total_weight, 3);
    let w = v.with_fallthrough(bb, name, transition_type, target);
    let t = v.next_transition();
    let arcs = v.net.arcs;
    assert forall|i: int| 0 <= i < arcs.len() implies (#[trigger] arcs[i]).transition != t by {
        assert(v.net.arcs[i].transition < v.net.transitions.len());
    }
    no_weight(arcs, place, t, ArcDir::Input);
    no_weight(arcs, place, t, ArcDir::Output);
    let one = w.net.arcs.drop_last();
    assert(one.drop_last() =~= arcs);
    assert(one.last() == (Arc {
        place: v.blocks[bb].last,
        transition: t,
        weight: 1,
        direction: ArcDir::Input,
    }));
    assert forall|i: int| 0 <= i < w.net.arcs.len() implies (#[trigger] w.net.arcs[i]).transition
        < w.net.transitions.len() by {
        if i < arcs.len() {
            assert(w.net.arcs[i] == arcs[i]);
        }
    }
}

/// A coroutine that is suspended does not complete: no transition gives a token
/// to the end of the function on its account, unless the continuation begins
/// there.
pub proof fn suspension_is_no_completion(
    v: BodyView,
    bb: BasicBlock,
    name: Seq<char>,
    target: BasicBlock,
    end: PlaceId,
    t: TransitionId,
)
    requires
        end != v.blocks[target].start,
    ensures
        v.with_fallthrough(bb, name, TransitionTypeView::Goto, target).net.output(end, t)
            == v.net.output(end, t),
{
    reveal_with_fuel(total_weight, 3);
    let w = v.with_fallthrough(bb, name, TransitionTypeView::Goto, target);
    assert(w.net.arcs.drop_last().drop_last() =~= v.net.arcs);
}

/// A block that does not return `Poll::Pending` completes: it is no suspension,
/// and its return takes the token that ends the block and gives one to the end
/// of the function, by the return transition of the function.
pub proof fn completion_returns<'b, 'p>(
    body: BodyToPetriNet<'b, 'p>,
    v: BodyView,
    bb: BasicBlock,
    name: Seq<char>,
    instance: usize,
    end: PlaceId,
)
    requires
        polled(body.body.basic_blocks@[bb as int]) != Some(PollVariant::Pending),
        v.net.transitions.len() < usize::MAX,
    ensures
        !body.suspends(bb),
        ({
            let w = with_return(v, bb, name, instance, end);
            let t = w.return_transition;
            &&& w.net.arcs.contains(
                Arc {
                    place: v.blocks[bb].last,
                    transition: t,
                    weight: 1,
                    direction: ArcDir::Input,
                },
            )
            &&& w.net.arcs.contains(
                Arc { place: end, transition: t, weight: 1, direction: ArcDir::Output },
            )
            &&& v.return_transition == 0 ==> t < w.net.transitions.len()
                && w.net.transitions[t as int].transition_type == TransitionTypeView::Return(
                instance,
            )
        }),
{
    let w = with_return(v, bb, name, instance, end);
    let n = v.net.arcs.len();
    assert(w.net.arcs[n as int].place == v.blocks[bb].last);
    assert(w.net.arcs[n as int + 1].place == end);
}

/// All returns of a function share one transition, as long as it is not the
/// first of the net.
pub proof fn returns_share_a_transition(
    v: BodyView,
    w: BodyView,
    a: BasicBlock,
    b: BasicBlock,
    name: Seq<char>,
    instance: usize,
    end: PlaceId,
)
    requires
        0 < v.net.transitions.len() <= usize::MAX,
        w.return_transition == with_return(v, a, name, instance, end).return_transition,
    ensures
        with_return(w, b, name, instance, end).return_transition == w.return_transition,
        with_return(w, b, name, instance, end).net.transitions == w.net.transitions,
{
}

/// A switch leads to each of its targets that has places; the dispatch of a
/// coroutine leads to the first of them only.
pub proof fn switches_lead_on(targets: Seq<BasicBlock>, excluded: Seq<usize>)
    ensures
        forall|t: BasicBlock| #[trigger]
            wired(targets, excluded, false).contains(t) <==> targets.contains(t)
                && !excluded.contains(t),
        wired(targets, excluded, true).len() <= 1,
        wired(targets, excluded, false).len() > 0 ==> wired(targets, excluded, true) == seq![
            wired(targets, excluded, false)[0],
        ],
        wired(targets, excluded, false).len() == 0 ==> wired(targets, excluded, true).len() == 0,
    decreases targets.len(),
{
    if targets.len() > 0 {
        let front = targets.drop_last();
        let last = targets.last();
        switches_lead_on(front, excluded);
        let before = wired(front, excluded, false);
        let all = wired(targets, excluded, false);
        assert forall|t: BasicBlock| #[trigger] all.contains(t) <==> targets.contains(t)
            && !excluded.contains(t) by {
            assert(before.contains(t) <==> front.contains(t) && !excluded.contains(t));
            if targets.contains(t) {
                let i = choose|i: int| 0 <= i < targets.len() && targets[i] == t;
                if i < front.len() {
                    assert(front[i] == t);
                }
            }
            if front.contains(t) {
                let i = choose|i: int| 0 <= i < front.len() && front[i] == t;
                assert(targets[i] == t);
            }
            assert(targets[targets.len() - 1] == last);
            if all.contains(t) && !excluded.contains(last) {
                let i = choose|i: int| 0 <= i < all.len() && all[i] == t;
                if i < before.len() {
                    assert(before[i] == t);
                }
            }
            if before.contains(t) {
                let i = choose|i: int| 0 <= i < before.len() && before[i] == t;
                assert(all[i] == t);
            }
            if !excluded.contains(last) {
                assert(all[before.len() as int] == last);
            }
        }
        if before.len() == 0 && !excluded.contains(last) {
            assert(wired(targets, excluded, true) =~= seq![all[0]]);
        }
    }
}

/// The drop of a guard gives its lock back what the guard holds of it, and is
/// known as the release of that lock.
pub proof fn drops_give_locks_back(
    v: BodyView,
    bb: BasicBlock,
    name: Seq<char>,
    place: PlaceId,
    weight: u64,
    target: BasicBlock,
)
    requires
        arcs_ok(v.net),
        v.net.transitions.len() < usize::MAX,
        place != v.blocks[target].start,
    ensures
        ({
            let w = with_drop(v, bb, name, Some((place, weight)), target);
            let t = v.next_transition();
            &&& w.net.output(place, t) == weight
            &&& w.net.transitions[t as int].transition_type == TransitionTypeView::Unlock(place)
            &&& w.net.input(v.blocks[bb].last, t) == 1
            &&& w.net.output(v.blocks[target].start, t) == 1
        }),
{
    reveal_with_fuel(total_weight, 4);
    let w = with_drop(v, bb, name, Some((place, weight)), target);
    let t = v.next_transition();
    let arcs = v.net.arcs;
    assert forall|i: int| 0 <= i < arcs.len() implies (#[trigger] arcs[i]).transition != t by {
        assert(v.net.arcs[i].transition < v.net.transitions.len());
    }
    no_weight(arcs, place, t, ArcDir::Output);
    no_weight(arcs, v.blocks[target].start, t, ArcDir::Output);
    no_weight(arcs, v.blocks[bb].last, t, ArcDir::Input);
    let two = w.net.arcs.drop_last();
    let one = two.drop_last();
    assert(one.drop_last() =~= arcs);
    assert(one.last() == (Arc {
        place: v.blocks[bb].last,
        transition: t,
        weight: 1,
        direction: ArcDir::Input,
    }));
    assert(two.last() == (Arc { place, transition: t, weight, direction: ArcDir::Output }));
}

/// The drop of a guard is the release of its lock, and gives back one token for
/// a mutex or a reader and all ten of a read-write lock for a writer, of every
/// library.
pub proof fn guards_give_back_what_they_hold<'b, 'p>(
    body: BodyToPetriNet<'b, 'p>,
    bb: BasicBlock,
    name: Seq<char>,
    place: Place,
    target: BasicBlock,
    guard: LockGuardId,
)
    requires
        arcs_ok(body@.net),
        body@.net.transitions.len() < usize::MAX,
        guard == (LockGuardId {
            instance_id: body.instance_id,
            local: place.local,
            field: None,
        }),
        body.lockguards@.contains_key(guard),
        body.resources.locks@[guard.alias()] != body@.blocks[target].start,
    ensures
        ({
            let lock = body.resources.locks@[guard.alias()];
            let w = with_drop(body@, bb, name, body.lock_released(place, false), target);
            let t = body@.next_transition();
            &&& w.net.transitions[t as int].transition_type == TransitionTypeView::Unlock(lock)
            &&& match body.lockguards@[guard].lockguard_ty {
                LockGuardTy::StdMutex(_) => w.net.output(lock, t) == 1,
                LockGuardTy::ParkingLotMutex(_) => w.net.output(lock, t) == 1,
                LockGuardTy::SpinMutex(_) => w.net.output(lock, t) == 1,
                LockGuardTy::StdRwLockRead(_) => w.net.output(lock, t) == 1,
                LockGuardTy::ParkingLotRead(_) => w.net.output(lock, t) == 1,
                LockGuardTy::SpinRead(_) => w.net.output(lock, t) == 1,
                LockGuardTy::StdRwLockWrite(_) => w.net.output(lock, t) == 10,
                LockGuardTy::ParkingLotWrite(_) => w.net.output(lock, t) == 10,
                LockGuardTy::SpinWrite(_) => w.net.output(lock, t) == 10,
            }
        }),
{
    let lock = body.resources.locks@[guard.alias()];
    let (to, weight) = body.lock_released(place, false)->0;
    assert(to == lock);
    drops_give_locks_back(body@, bb, name, lock, weight, target);
}

/// The drop of anything but a guard, and every drop on the way of a panic,
/// releases nothing: it takes the token that ends the block and gives the one
/// that begins the next.
pub proof fn other_drops_release_nothing<'b, 'p>(
    body: BodyToPetriNet<'b, 'p>,
    bb: BasicBlock,
    name: Seq<char>,
    place: Place,
    cleanup: bool,
    target: BasicBlock,
    p: PlaceId,
)
    requires
        arcs_ok(body@.net),
        body@.net.transitions.len() < usize::MAX,
        cleanup || !body.lockguards@.contains_key(
            LockGuardId { instance_id: body.instance_id, local: place.local, field: None },
        ),
    ensures
        ({
            let w = with_drop(body@, bb, name, body.lock_released(place, cleanup), target);
            let t = body@.next_transition();
            &&& w.net.transitions[t as int].transition_type == TransitionTypeView::Drop
            &&& w.net.input(p, t) == (if p == body@.blocks[bb].last {
                1u64
            } else {
                0u64
            })
            &&& w.net.output(p, t) == (if p == body@.blocks[target].start {
                1u64
            } else {
                0u64
            })
        }),
{
    control_is_handed_on(
        body@,
        bb,
        transition_name(name, bb, "drop"@),
        TransitionTypeView::Drop,
        target,
        p,
    );
}

/// A switch has a transition of its own for each of its targets that is wired,
/// which takes the token that ends the block and gives the one that begins the
/// target.
pub proof fn each_target_has_a_transition(
    v: BodyView,
    bb: BasicBlock,
    name: Seq<char>,
    targets: Seq<BasicBlock>,
    k: int,
    place: PlaceId,
)
    requires
        arcs_ok(v.net),
        v.net.transitions.len() + targets.len() < usize::MAX,
        0 <= k < targets.len(),
    ensures
        ({
            let w = with_switch(v, bb, name, targets);
            let t = (v.net.transitions.len() + k) as usize;
            &&& arcs_ok(w.net)
            &&& w.blocks == v.blocks
            &&& w.net.transitions.len() == v.net.transitions.len() + targets.len()
            &&& w.net.transitions[t as int].transition_type == TransitionTypeView::Switch
            &&& w.net.input(place, t) == (if place == v.blocks[bb].last {
                1u64
            } else {
                0u64
            })
            &&& w.net.output(place, t) == (if place == v.blocks[targets[k]].start {
                1u64
            } else {
                0u64
            })
        }),
    decreases targets.len(),
{
    let front = targets.drop_last();
    let before = with_switch(v, bb, name, front);
    switch_keeps(v, bb, name, front);
    control_is_handed_on(
        before,
        bb,
        numbered_name(name, bb, "switch"@, targets.len()),
        TransitionTypeView::Switch,
        targets.last(),
        place,
    );
    if k < front.len() {
        assert(front[k] == targets[k]);
        each_target_has_a_transition(v, bb, name, front, k, place);
        let w = with_switch(v, bb, name, targets);
        let t = (v.net.transitions.len() + k) as usize;
        reveal_with_fuel(total_weight, 3);
        assert(w.net.arcs.drop_last().drop_last() =~= before.net.arcs);
    }
}

proof fn switch_keeps(v: BodyView, bb: BasicBlock, name: Seq<char>, targets: Seq<BasicBlock>)
    requires
        arcs_ok(v.net),
        v.net.transitions.len() + targets.len() < usize::MAX,
    ensures
        arcs_ok(with_switch(v, bb, name, targets).net),
        with_switch(v, bb, name, targets).blocks == v.blocks,
        with_switch(v, bb, name, targets).net.transitions.len() == v.net.transitions.len()
            + targets.len(),
    decreases targets.len(),
{
    if targets.len() > 0 {
        let front = targets.drop_last();
        switch_keeps(v, bb, name, front);
        control_is_handed_on(
            with_switch(v, bb, name, front),
            bb,
            numbered_name(name, bb, "switch"@, targets.len()),
            TransitionTypeView::Switch,
            targets.last(),
            0,
        );
    }
}

/// The statement assigns to the return place.
pub open spec fn returns_value(statement: Statement) -> bool {
    statement.kind matches StatementKind::Assign(place, _) && place.local == 0
}

/// The first assignment of a block to the return place decides whether the
/// block suspends its coroutine: it does where that assignment builds
/// `Poll::Pending`, and not where it builds something else or there is none.
pub proof fn the_first_result_decides(block: BasicBlockData, i: int)
    requires
        0 <= i < block.statements@.len(),
        forall|j: int| 0 <= j < i ==> !returns_value(#[trigger] block.statements@[j]),
    ensures
        returns_value(block.statements@[i]) ==> sets_pending(block) == (block.statements@[i].poll
            == Some(PollVariant::Pending)),
        !returns_value(block.statements@[i]) && i == block.statements@.len() - 1
            ==> !sets_pending(block),
{
    result_is_found(block.statements@, i);
}

proof fn result_is_found(statements: Seq<Statement>, i: int)
    requires
        0 <= i < statements.len(),
        forall|j: int| 0 <= j < i ==> !returns_value(#[trigger] statements[j]),
    ensures
        returns_value(statements[i]) ==> first_result(statements) == Some(statements[i]),
        !returns_value(statements[i]) && i == statements.len() - 1 ==> first_result(
            statements,
        ) is None,
    decreases statements.len(),
{
    let rest = statements.drop_first();
    assert forall|j: int| 0 <= j < rest.len() implies #[trigger] rest[j] == statements[j + 1] by {
    }
    if i > 0 {
        assert(!returns_value(statements[0]));
        result_is_found(rest, i - 1);
    } else if !returns_value(statements[0]) {
        assert(rest.len() == 0 || i < statements.len() - 1);
        reveal_with_fuel(first_result, 2);
    }
}

/// The block is a switch that leads to both targets, of which the second is not
/// for cleanup.
pub open spec fn switches_between(
    blocks: Seq<BasicBlockData>,
    i: int,
    bb: BasicBlock,
    target: BasicBlock,
) -> bool {
    &&& 0 <= i < blocks.len()
    &&& target != bb
    &&& !blocks[target as int].is_cleanup
    &&& blocks[i].terminator is Some
    &&& (blocks[i].terminator->0).kind matches TerminatorKind::SwitchInt { targets }
        && targets@.contains(bb) && targets@.contains(target)
}

/// A suspended coroutine resumes at another target of a switch that leads to
/// the suspending block, one that is not for cleanup; where some switch has
/// one, it does resume.
pub proof fn suspended_coroutines_resume(
    blocks: Seq<BasicBlockData>,
    bb: BasicBlock,
    i: int,
    target: BasicBlock,
)
    ensures
        continuation(blocks, 0, bb) matches Some(t) ==> exists|k: int| #[trigger]
            switches_between(blocks, k, bb, t),
        switches_between(blocks, i, bb, target) ==> continuation(blocks, 0, bb) is Some,
{
    continuation_is_real(blocks, 0, bb);
    if switches_between(blocks, i, bb, target) {
        continuation_is_found(blocks, 0, bb, i, target);
    }
}

proof fn other_is_real(targets: Seq<BasicBlock>, blocks: Seq<BasicBlockData>, bb: BasicBlock)
    ensures
        other_target(targets, blocks, bb) matches Some(t) ==> targets.contains(t) && t != bb
            && !blocks[t as int].is_cleanup,
        other_target(targets, blocks, bb) is None ==> forall|t: BasicBlock| #[trigger]
            targets.contains(t) ==> t == bb || blocks[t as int].is_cleanup,
    decreases targets.len(),
{
    if targets.len() > 0 {
        let rest = targets.drop_first();
        other_is_real(rest, blocks, bb);
        assert(targets.contains(targets[0]));
        if let Some(t) = other_target(targets, blocks, bb) {
            if targets[0] != t {
                let k = choose|k: int| 0 <= k < rest.len() && rest[k] == t;
                assert(targets[k + 1] == t);
            }
        } else {
            assert forall|t: BasicBlock| #[trigger] targets.contains(t) implies t == bb
                || blocks[t as int].is_cleanup by {
                let k = choose|k: int| 0 <= k < targets.len() && targets[k] == t;
                if k > 0 {
                    assert(rest[k - 1] == t);
                    assert(rest.contains(t));
                }
            }
        }
    }
}

proof fn continuation_is_real(blocks: Seq<BasicBlockData>, from: int, bb: BasicBlock)
    ensures
        continuation(blocks, from, bb) matches Some(t) ==> exists|k: int| #[trigger]
            switches_between(blocks, k, bb, t),
    decreases blocks.len() - from,
{
    if 0 <= from < blocks.len() {
        other_is_real(switch_targets(blocks[from]), blocks, bb);
        match resumed_from(blocks[from], blocks, bb) {
            Some(t) => {
                assert(switches_between(blocks, from, bb, t));
            },
            None => {
                continuation_is_real(blocks, from + 1, bb);
            },
        }
    }
}

proof fn continuation_is_found(
    blocks: Seq<BasicBlockData>,
    from: int,
    bb: BasicBlock,
    i: int,
    target: BasicBlock,
)
    requires
        0 <= from <= i,
        switches_between(blocks, i, bb, target),
    ensures
        continuation(blocks, from, bb) is Some,
    decreases i - from,
{
    other_is_real(switch_targets(blocks[from]), blocks, bb);
    if from < i && resumed_from(blocks[from], blocks, bb) is None {
        continuation_is_found(blocks, from + 1, bb, i, target);
    }
}

/// Blocks for cleanup have no places, and neither have those without statements
/// that end unreachably; all others have.
pub proof fn blocks_that_run_are_not_skipped(block: BasicBlockData)
    ensures
        block.is_cleanup ==> is_skipped(block),
        !block.is_cleanup && block.statements@.len() > 0 ==> !is_skipped(block),
        !block.is_cleanup && block.statements@.len() == 0 ==> match block.terminator {
            Some(t) => is_skipped(block) == (t.kind is Unreachable),
            None => !is_skipped(block),
        },
{
}

/// The first place of a block is named after the function and the block, stands
/// where the block ends, and holds one token at most and none at first.
pub proof fn blocks_have_their_place(
    v: BodyView,
    bb: usize,
    block: BasicBlockData,
    name: Seq<char>,
)
    requires
        !is_skipped(block),
        v.net.places.len() < usize::MAX,
    ensures
        ({
            let w = with_block(v, bb, block, name);
            let place = w.net.places[w.blocks[bb].start as int];
            &&& w.placed(bb)
            &&& w.blocks[bb].last == w.blocks[bb].start
            &&& w.net.places.len() == v.net.places.len() + 1
            &&& w.blocks[bb].start == v.net.places.len()
            &&& place.name == name + "_"@ + decimal(bb as nat)
            &&& place.tokens == 0
            &&& place.capacity == Some(1u64)
            &&& place.place_type == PlaceType::BasicBlock
            &&& block.terminator matches Some(t) ==> place.span == t.span@
            &&& w.net.transitions == v.net.transitions
            &&& w.net.arcs == v.net.arcs
        }),
{
}

/// The raw-pointer accesses of a block come before its end: they are one
/// transition, which takes the token that ended the block and gives it to a new
/// place, which ends the block from then on.
pub proof fn accesses_come_before_the_end(
    v: BodyView,
    bb: BasicBlock,
    fn_name: Seq<char>,
    place: PlaceId,
)
    requires
        arcs_ok(v.net),
        v.pending.len() > 0,
        v.net.transitions.len() < usize::MAX,
        v.net.places.len() < usize::MAX,
    ensures
        ({
            let w = with_unsafe(v, bb, fn_name);
            let t = v.next_transition();
            &&& w.net.transitions.len() == v.net.transitions.len() + 1
            &&& w.net.transitions[t as int].transition_type == TransitionTypeView::UnsafeAccess(
                merged(v.pending),
            )
            &&& w.blocks[bb].start == v.blocks[bb].start
            &&& w.blocks[bb].last == v.net.places.len()
            &&& w.net.places.len() == v.net.places.len() + 1
            &&& w.net.input(place, t) == (if place == v.blocks[bb].last {
                1u64
            } else {
                0u64
            })
            &&& w.net.output(place, t) == (if place == w.blocks[bb].last {
                1u64
            } else {
                0u64
            })
            &&& w.pending.len() == 0
        }),
{
    reveal_with_fuel(total_weight, 3);
    let w = with_unsafe(v, bb, fn_name);
    let t = v.next_transition();
    let arcs = v.net.arcs;
    assert forall|i: int| 0 <= i < arcs.len() implies (#[trigger] arcs[i]).transition != t by {
        assert(v.net.arcs[i].transition < v.net.transitions.len());
    }
    no_weight(arcs, place, t, ArcDir::Input);
    no_weight(arcs, place, t, ArcDir::Output);
    let one = w.net.arcs.drop_last();
    assert(one.drop_last() =~= arcs);
    assert(one.last() == (Arc {
        place: v.blocks[bb].last,
        transition: t,
        weight: 1,
        direction: ArcDir::Input,
    }));
}

/// The merged access to a location is the last that writes, else the first.
pub proof fn the_last_write_counts(ops: Seq<UnsafeOpView>, k: int)
    requires
        0 <= k < ops.len(),
    ensures
        ops[k].is_write && (forall|j: int|
            k < j < ops.len() ==> (#[trigger] ops[j]).alias != ops[k].alias || !ops[j].is_write)
            ==> merged(ops).contains(ops[k]),
        (forall|j: int|
            0 <= j < ops.len() && (#[trigger] ops[j]).alias == ops[k].alias ==> !ops[j].is_write
                && k <= j) ==> merged(ops).contains(ops[k]),
    decreases ops.len(),
{
    let front = ops.drop_last();
    let op = ops.last();
    let m = merged(front);
    let r = merged(ops);
    accesses_are_merged(front);
    access_index_facts(m, op.alias);
    let at = access_index(m, op.alias);
    assert forall|j: int| 0 <= j < front.len() implies #[trigger] front[j] == ops[j] by {
    }
    if k < front.len() {
        the_last_write_counts(front, k);
        assert(front[k] == ops[k]);
        if m.contains(ops[k]) {
            let i = choose|i: int| 0 <= i < m.len() && m[i] == ops[k];
            if op.alias == ops[k].alias {
                assert(ops[ops.len() - 1] == op);
            }
            if at == i && at < m.len() {
                assert(m[at].alias == op.alias);
            }
            if op.alias != ops[k].alias || !op.is_write {
                assert(r[i] == ops[k]);
            }
        }
    } else {
        if at < m.len() {
            assert(m[at].alias == op.alias);
            assert(front.contains(m[at]));
            let j = choose|j: int| 0 <= j < front.len() && front[j] == m[at];
            assert(ops[j].alias == op.alias);
            if op.is_write {
                assert(r[at] == op);
            }
        } else {
            assert(r[m.len() as int] == op);
        }
    }
}

/// Coroutines are suspended where a block returns `Poll::Pending`, and nothing
/// else is ever suspended.
pub proof fn only_coroutines_are_suspended<'b, 'p>(body: BodyToPetriNet<'b, 'p>, bb: BasicBlock)
    ensures
        !body.is_coroutine ==> !body.suspends(bb),
        body.is_coroutine && polled(body.body.basic_blocks@[bb as int]) == Some(
            PollVariant::Pending,
        ) ==> body.suspends(bb),
{
}

/// A drop does nothing but take the token that ends the block, give the one
/// that begins the next, and give the lock of a guard back its tokens.
pub proof fn drops_do_nothing_else(
    v: BodyView,
    bb: BasicBlock,
    name: Seq<char>,
    lock: PlaceId,
    weight: u64,
    target: BasicBlock,
    p: PlaceId,
)
    requires
        arcs_ok(v.net),
        v.net.transitions.len() < usize::MAX,
        lock != v.blocks[target].start,
    ensures
        ({
            let w = with_drop(v, bb, name, Some((lock, weight)), target);
            let t = v.next_transition();
            &&& arcs_ok(w.net)
            &&& w.net.transitions.len() == v.net.transitions.len() + 1
            &&& w.net.places == v.net.places
            &&& w.net.input(p, t) == (if p == v.blocks[bb].last {
                1u64
            } else {
                0u64
            })
            &&& w.net.output(p, t) == (if p == lock {
                weight
            } else if p == v.blocks[target].start {
                1u64
            } else {
                0u64
            })
        }),
{
    reveal_with_fuel(total_weight, 4);
    let w = with_drop(v, bb, name, Some((lock, weight)), target);
    let t = v.next_transition();
    let arcs = v.net.arcs;
    assert forall|i: int| 0 <= i < arcs.len() implies (#[trigger] arcs[i]).transition != t by {
        assert(v.net.arcs[i].transition < v.net.transitions.len());
    }
    no_weight(arcs, p, t, ArcDir::Output);
    no_weight(arcs, p, t, ArcDir::Input);
    let two = w.net.arcs.drop_last();
    let one = two.drop_last();
    assert(one.drop_last() =~= arcs);
    assert(one.last() == (Arc {
        place: v.blocks[bb].last,
        transition: t,
        weight: 1,
        direction: ArcDir::Input,
    }));
    assert(two.last() == (Arc { place: lock, transition: t, weight, direction: ArcDir::Output }));
    assert forall|i: int| 0 <= i < w.net.arcs.len() implies (#[trigger] w.net.arcs[i]).transition
        < w.net.transitions.len() by {
        if i < arcs.len() {
            assert(w.net.arcs[i] == arcs[i]);
        }
    }
}

/// A block that ends the program takes the token that ends the block and gives
/// one to the end of the program; a block that calls takes its token and gives
/// none yet.
pub proof fn ends_and_calls_take_the_token(
    v: BodyView,
    bb: BasicBlock,
    name: Seq<char>,
    transition_type: TransitionTypeView,
    end: PlaceId,
    p: PlaceId,
)
    requires
        arcs_ok(v.net),
        v.net.transitions.len() < usize::MAX,
    ensures
        ({
            let ended = v.with_terminal(bb, name, transition_type, end);
            let called = v.with_exit(bb, name, transition_type);
            let t = v.next_transition();
            let taken = if p == v.blocks[bb].last {
                1u64
            } else {
                0u64
            };
            &&& arcs_ok(ended.net)
            &&& arcs_ok(called.net)
            &&& ended.net.transitions[t as int].transition_type == transition_type
            &&& called.net.transitions[t as int].transition_type == transition_type
            &&& ended.net.transitions[t as int].name == name
            &&& called.net.transitions[t as int].name == name
            &&& ended.net.input(p, t) == taken
            &&& called.net.input(p, t) == taken
            &&& ended.net.output(p, t) == (if p == end {
                1u64
            } else {
                0u64
            })
            &&& called.net.output(p, t) == 0
        }),
{
    reveal_with_fuel(total_weight, 3);
    let ended = v.with_terminal(bb, name, transition_type, end);
    let called = v.with_exit(bb, name, transition_type);
    let t = v.next_transition();
    let arcs = v.net.arcs;
    assert forall|i: int| 0 <= i < arcs.len() implies (#[trigger] arcs[i]).transition != t by {
        assert(v.net.arcs[i].transition < v.net.transitions.len());
    }
    no_weight(arcs, p, t, ArcDir::Input);
    no_weight(arcs, p, t, ArcDir::Output);
    assert(called.net.arcs.drop_last() =~= arcs);
    assert(ended.net.arcs.drop_last() =~= called.net.arcs);
    assert forall|i: int| 0 <= i < ended.net.arcs.len() implies (
    #[trigger] ended.net.arcs[i]).transition < ended.net.transitions.len() by {
        if i < arcs.len() {
            assert(ended.net.arcs[i] == arcs[i]);
        }
    }
    assert forall|i: int| 0 <= i < called.net.arcs.len() implies (
    #[trigger] called.net.arcs[i]).transition < called.net.transitions.len() by {
        if i < arcs.len() {
            assert(called.net.arcs[i] == arcs[i]);
        }
    }
}

/// A return adds one transition at most and two arcs, and nothing else.
pub proof fn returns_add_two_arcs(
    v: BodyView,
    bb: BasicBlock,
    name: Seq<char>,
    instance: usize,
    end: PlaceId,
)
    ensures
        ({
            let w = with_return(v, bb, name, instance, end);
            &&& w.net.arcs.len() == v.net.arcs.len() + 2
            &&& w.net.places == v.net.places
            &&& w.net.transitions.len() == v.net.transitions.len() + (if v.return_transition == 0 {
                1int
            } else {
                0int
            })
            &&& w.blocks == v.blocks
            &&& w.seg == v.seg
            &&& w.pending == v.pending
        }),
{
}

/// The transition takes one token from the one place and gives one to the
/// other, and does nothing else.
pub open spec fn moves_token(
    net: NetView,
    t: TransitionId,
    transition_type: TransitionTypeView,
    from: PlaceId,
    to: PlaceId,
) -> bool {
    &&& t < net.transitions.len()
    &&& net.transitions[t as int].transition_type == transition_type
    &&& forall|p: PlaceId| #[trigger] net.input(p, t) == (if p == from {
        1u64
    } else {
        0u64
    })
    &&& forall|p: PlaceId| #[trigger] net.output(p, t) == (if p == to {
        1u64
    } else {
        0u64
    })
}

/// A jump moves the token of its block to the start of its target, whichever
/// way the target lies; a jump to a block for cleanup is a panic, which moves
/// it to the end of the program.
pub proof fn jumps_move_the_token<'b, 'p>(
    body: BodyToPetriNet<'b, 'p>,
    bb: BasicBlock,
    target: BasicBlock,
    name: Seq<char>,
)
    requires
        arcs_ok(body@.net),
        body@.net.transitions.len() < usize::MAX,
    ensures
        ({
            let w = body.gone_to(bb, target, name);
            let t = body@.next_transition();
            let last = body@.blocks[bb].last;
            &&& w.net.transitions.len() == body@.net.transitions.len() + 1
            &&& body.body.basic_blocks@[target as int].is_cleanup ==> moves_token(
                w.net,
                t,
                TransitionTypeView::Return(body.instance_id),
                last,
                body.entry_exit.1,
            )
            &&& !body.body.basic_blocks@[target as int].is_cleanup ==> moves_token(
                w.net,
                t,
                TransitionTypeView::Goto,
                last,
                body@.blocks[target].start,
            )
        }),
{
    let w = body.gone_to(bb, target, name);
    let t = body@.next_transition();
    let cleanup = body.body.basic_blocks@[target as int].is_cleanup;
    let to = if cleanup {
        body.entry_exit.1
    } else {
        body@.blocks[target].start
    };
    assert forall|p: PlaceId| #[trigger] w.net.input(p, t) == (if p == body@.blocks[bb].last {
        1u64
    } else {
        0u64
    }) by {
        ends_and_calls_take_the_token(
            body@,
            bb,
            transition_name(name, bb, "panic"@),
            TransitionTypeView::Return(body.instance_id),
            body.entry_exit.1,
            p,
        );
        control_is_handed_on(
            body@,
            bb,
            transition_name(name, bb, "goto"@),
            TransitionTypeView::Goto,
            target,
            p,
        );
    }
    assert forall|p: PlaceId| #[trigger] w.net.output(p, t) == (if p == to {
        1u64
    } else {
        0u64
    }) by {
        ends_and_calls_take_the_token(
            body@,
            bb,
            transition_name(name, bb, "panic"@),
            TransitionTypeView::Return(body.instance_id),
            body.entry_exit.1,
            p,
        );
        control_is_handed_on(
            body@,
            bb,
            transition_name(name, bb, "goto"@),
            TransitionTypeView::Goto,
            target,
            p,
        );
    }
}

/// Going on at a block moves the token there, and goes nowhere where the block
/// has no places.
pub proof fn going_on_moves_the_token<'b, 'p>(
    body: BodyToPetriNet<'b, 'p>,
    bb: BasicBlock,
    target: BasicBlock,
    name: Seq<char>,
    kind: Seq<char>,
)
    requires
        arcs_ok(body@.net),
        body@.net.transitions.len() < usize::MAX,
    ensures
        ({
            let w = body.fallen_through(bb, target, name, kind);
            &&& body@.excluded.contains(target) ==> w == body@
            &&& !body@.excluded.contains(target) ==> moves_token(
                w.net,
                body@.next_transition(),
                TransitionTypeView::Goto,
                body@.blocks[bb].last,
                body@.blocks[target].start,
            )
        }),
{
    let w = body.fallen_through(bb, target, name, kind);
    let t = body@.next_transition();
    if !body@.excluded.contains(target) {
        assert forall|p: PlaceId| #[trigger] w.net.input(p, t) == (if p
            == body@.blocks[bb].last {
            1u64
        } else {
            0u64
        }) by {
            control_is_handed_on(
                body@,
                bb,
                transition_name(name, bb, kind),
                TransitionTypeView::Goto,
                target,
                p,
            );
        }
        assert forall|p: PlaceId| #[trigger] w.net.output(p, t) == (if p
            == body@.blocks[target].start {
            1u64
        } else {
            0u64
        }) by {
            control_is_handed_on(
                body@,
                bb,
                transition_name(name, bb, kind),
                TransitionTypeView::Goto,
                target,
                p,
            );
        }
    }
}

/// A function that is known is entered by the token of its start place, which
/// goes to the block.
pub proof fn functions_are_entered_at_their_start<'b, 'p>(
    body: BodyToPetriNet<'b, 'p>,
    bb: BasicBlock,
    name: Seq<char>,
    def_id: DefId,
)
    requires
        arcs_ok(body@.net),
        body@.net.transitions.len() < usize::MAX,
        body.functions_map@.contains_key(def_id),
    ensures
        moves_token(
            body.entered_at(bb, name, def_id).net,
            body@.next_transition(),
            TransitionTypeView::Start(body.instance_id),
            body.functions_map@[def_id].0,
            body@.blocks[bb].start,
        ),
{
    let w = body.entered_at(bb, name, def_id);
    let t = body@.next_transition();
    let arcs = body@.net.arcs;
    assert forall|i: int| 0 <= i < arcs.len() implies (#[trigger] arcs[i]).transition != t by {
        assert(body@.net.arcs[i].transition < body@.net.transitions.len());
    }
    let one = w.net.arcs.drop_last();
    assert(one.drop_last() =~= arcs);
    assert(one.last().place == body.functions_map@[def_id].0);
    assert forall|p: PlaceId| #[trigger] w.net.input(p, t) == (if p
        == body.functions_map@[def_id].0 {
        1u64
    } else {
        0u64
    }) by {
        reveal_with_fuel(total_weight, 3);
        no_weight(arcs, p, t, ArcDir::Input);
    }
    assert forall|p: PlaceId| #[trigger] w.net.output(p, t) == (if p == body@.blocks[bb].start {
        1u64
    } else {
        0u64
    }) by {
        reveal_with_fuel(total_weight, 3);
        no_weight(arcs, p, t, ArcDir::Output);
    }
}

/// A switch goes to every target that has places, but for the dispatch of a
/// coroutine, which goes to the first of them only.
pub proof fn switches_go_to_all_targets<'b, 'p>(
    body: BodyToPetriNet<'b, 'p>,
    bb: BasicBlock,
    targets: Seq<BasicBlock>,
    name: Seq<char>,
    i: int,
) -> (t: TransitionId)
    requires
        arcs_ok(body@.net),
        body@.net.transitions.len() + targets.len() < usize::MAX,
        0 <= i < targets.len(),
        !body@.excluded.contains(targets[i]),
        bb == 0 && body.is_coroutine ==> forall|j: int|
            0 <= j < i ==> body@.excluded.contains(#[trigger] targets[j]),
    ensures
        body@.net.transitions.len() <= t < body.switched(bb, targets, name).net.transitions.len(),
        moves_token(
            body.switched(bb, targets, name).net,
            t,
            TransitionTypeView::Switch,
            body@.blocks[bb].last,
            body@.blocks[targets[i]].start,
        ),
        bb == 0 && body.is_coroutine ==> body.switched(bb, targets, name).net.transitions.len()
            == body@.net.transitions.len() + 1,
{
    let dispatch = bb == 0 && body.is_coroutine;
    let all = wired(targets, body@.excluded, dispatch);
    let w = body.switched(bb, targets, name);
    switches_lead_on(targets, body@.excluded);
    let every = wired(targets, body@.excluded, false);
    assert(targets.contains(targets[i]));
    assert(every.contains(targets[i]));
    wired_is_shorter(targets, body@.excluded, dispatch);
    let k = if dispatch {
        first_is_wired(targets, body@.excluded, i);
        0
    } else {
        choose|k: int| 0 <= k < every.len() && every[k] == targets[i]
    };
    assert(all[k] == targets[i]);
    let t = (body@.net.transitions.len() + k) as usize;
    assert forall|p: PlaceId| #[trigger] w.net.input(p, t) == (if p == body@.blocks[bb].last {
        1u64
    } else {
        0u64
    }) by {
        each_target_has_a_transition(body@, bb, name, all, k, p);
    }
    assert forall|p: PlaceId| #[trigger] w.net.output(p, t) == (if p
        == body@.blocks[targets[i]].start {
        1u64
    } else {
        0u64
    }) by {
        each_target_has_a_transition(body@, bb, name, all, k, p);
    }
    each_target_has_a_transition(body@, bb, name, all, k, 0);
    t
}

proof fn wired_is_shorter(targets: Seq<BasicBlock>, excluded: Seq<usize>, dispatch: bool)
    ensures
        wired(targets, excluded, dispatch).len() <= targets.len(),
    decreases targets.len(),
{
    if targets.len() > 0 {
        wired_is_shorter(targets.drop_last(), excluded, dispatch);
    }
}

proof fn first_is_wired(targets: Seq<BasicBlock>, excluded: Seq<usize>, i: int)
    requires
        0 <= i < targets.len(),
        !excluded.contains(targets[i]),
        forall|j: int| 0 <= j < i ==> excluded.contains(#[trigger] targets[j]),
    ensures
        wired(targets, excluded, true).len() == 1,
        wired(targets, excluded, true)[0] == targets[i],
    decreases targets.len(),
{
    let front = targets.drop_last();
    let before = wired(front, excluded, true);
    if i < front.len() {
        assert(front[i] == targets[i]);
        assert forall|j: int| 0 <= j < i implies excluded.contains(#[trigger] front[j]) by {
            assert(front[j] == targets[j]);
        }
        first_is_wired(front, excluded, i);
    } else {
        assert forall|j: int| 0 <= j < front.len() implies excluded.contains(
            #[trigger] front[j],
        ) by {
            assert(front[j] == targets[j]);
        }
        none_is_wired(front, excluded);
    }
}

proof fn none_is_wired(targets: Seq<BasicBlock>, excluded: Seq<usize>)
    requires
        forall|j: int| 0 <= j < targets.len() ==> excluded.contains(#[trigger] targets[j]),
    ensures
        wired(targets, excluded, true).len() == 0,
    decreases targets.len(),
{
    if targets.len() > 0 {
        let front = targets.drop_last();
        assert forall|j: int| 0 <= j < front.len() implies excluded.contains(
            #[trigger] front[j],
        ) by {
            assert(front[j] == targets[j]);
        }
        assert(excluded.contains(targets[targets.len() - 1]));
        none_is_wired(front, excluded);
    }
}

/// A return of a coroutine that is not ready goes on at the continuation and
/// leaves the end of the function alone; every other return ends the function.
pub proof fn returns_end_the_function<'b, 'p>(
    body: BodyToPetriNet<'b, 'p>,
    bb: BasicBlock,
    name: Seq<char>,
)
    ensures
        ({
            let w = body.returned_from(bb, name);
            let v = body@;
            let end = body.functions_map@[body.def_id].1;
            &&& body.suspends(bb) ==> match continuation(body.body.basic_blocks@, 0, bb) {
                Some(t) => w == body.fallen_through(bb, t, name, "suspend"@),
                None => w == v,
            }
            &&& !body.suspends(bb) ==> {
                &&& w.net.arcs.len() == v.net.arcs.len() + 2
                &&& w.net.arcs[v.net.arcs.len() as int] == (Arc {
                    place: v.blocks[bb].last,
                    transition: w.return_transition,
                    weight: 1,
                    direction: ArcDir::Input,
                })
                &&& w.net.arcs[v.net.arcs.len() as int + 1] == (Arc {
                    place: end,
                    transition: w.return_transition,
                    weight: 1,
                    direction: ArcDir::Output,
                })
            }
        }),
{
}

/// A suspended coroutine resumes by the first switch that leads to the
/// suspending block and elsewhere, at the first of its other targets that is
/// not for cleanup.
pub proof fn the_first_continuation_counts(
    blocks: Seq<BasicBlockData>,
    bb: BasicBlock,
    i: int,
    k: int,
)
    requires
        0 <= i < blocks.len(),
        0 <= k < switch_targets(blocks[i]).len(),
        switch_targets(blocks[i]).contains(bb),
        switch_targets(blocks[i])[k] != bb,
        !blocks[switch_targets(blocks[i])[k] as int].is_cleanup,
        forall|j: int|
            0 <= j < k ==> (#[trigger] switch_targets(blocks[i])[j]) == bb
                || blocks[switch_targets(blocks[i])[j] as int].is_cleanup,
        forall|h: int, t: BasicBlock| h < i ==> !#[trigger] switches_between(blocks, h, bb, t),
    ensures
        continuation(blocks, 0, bb) == Some(switch_targets(blocks[i])[k]),
{
    first_other(switch_targets(blocks[i]), blocks, bb, k);
    first_continuation(blocks, 0, bb, i);
}

proof fn first_other(targets: Seq<BasicBlock>, blocks: Seq<BasicBlockData>, bb: BasicBlock, k: int)
    requires
        0 <= k < targets.len(),
        targets[k] != bb,
        !blocks[targets[k] as int].is_cleanup,
        forall|j: int|
            0 <= j < k ==> (#[trigger] targets[j]) == bb || blocks[targets[j] as int].is_cleanup,
    ensures
        other_target(targets, blocks, bb) == Some(targets[k]),
    decreases targets.len(),
{
    if k > 0 {
        let rest = targets.drop_first();
        assert(targets[0] == bb || blocks[targets[0] as int].is_cleanup);
        assert forall|j: int| 0 <= j < k - 1 implies (#[trigger] rest[j]) == bb
            || blocks[rest[j] as int].is_cleanup by {
            assert(rest[j] == targets[j + 1]);
        }
        first_other(rest, blocks, bb, k - 1);
    }
}

proof fn first_continuation(blocks: Seq<BasicBlockData>, from: int, bb: BasicBlock, i: int)
    requires
        0 <= from <= i < blocks.len(),
        resumed_from(blocks[i], blocks, bb) is Some,
        forall|h: int, t: BasicBlock| h < i ==> !#[trigger] switches_between(blocks, h, bb, t),
    ensures
        continuation(blocks, from, bb) == resumed_from(blocks[i], blocks, bb),
    decreases i - from,
{
    if from < i {
        other_is_real(switch_targets(blocks[from]), blocks, bb);
        match resumed_from(blocks[from], blocks, bb) {
            Some(t) => {
                assert(switches_between(blocks, from, bb, t));
            },
            None => {},
        }
        first_continuation(blocks, from + 1, bb, i);
    }
}

/// The blocks that a switch leads to are its targets, and nothing else switches.
pub proof fn switches_have_their_targets(block: BasicBlockData)
    ensures
        match block.terminator {
            Some(t) => match t.kind {
                TerminatorKind::SwitchInt { targets } => switch_targets(block) == targets@,
                _ => switch_targets(block).len() == 0,
            },
            None => switch_targets(block).len() == 0,
        },
{
}

} // verus!

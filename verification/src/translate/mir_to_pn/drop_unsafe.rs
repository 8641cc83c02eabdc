//! Drops, which release locks, and raw-pointer accesses, which are merged into
//! one transition per block.

use super::blocks::BlockEnds;
use super::body::{block_place, BodyToPetriNet, BodyView};
use super::names::{transition_name, transition_text};
use crate::concurrency::blocking::{LockGuardId, LockGuardTy};
use crate::memory::pointsto::AliasId;
use crate::net::structure::{
    unsafe_op_views, PlaceId, TransitionType, TransitionTypeView, UnsafeOp, UnsafeOpView,
};
use crate::text::{decimal, index_text};
use crate::translate::mir::{operand_place, BasicBlock, BasicBlockData, Place, Rvalue};
use vstd::prelude::*;

verus! {

/// How many tokens a guard gives back to its lock: a write guard holds all of
/// a read-write lock.
pub open spec fn released(ty: LockGuardTy) -> u64 {
    if ty.is_write() {
        10
    } else {
        1
    }
}

/// How many tokens a guard gives back to its lock.
fn release_weight(ty: &LockGuardTy) -> (w: u64)
    ensures
        w == released(*ty),
{
    match ty {
        LockGuardTy::StdMutex(_)
        | LockGuardTy::ParkingLotMutex(_)
        | LockGuardTy::SpinMutex(_)
        | LockGuardTy::StdRwLockRead(_)
        | LockGuardTy::ParkingLotRead(_)
        | LockGuardTy::SpinRead(_) => 1,
        _ => 10,
    }
}

/// The translation with a drop that releases a lock.
pub open spec fn with_drop(
    v: BodyView,
    bb: BasicBlock,
    name: Seq<char>,
    lock: Option<(PlaceId, u64)>,
    target: BasicBlock,
) -> BodyView {
    let t = v.next_transition();
    let exit = v.with_exit(bb, transition_name(name, bb, "drop"@), TransitionTypeView::Drop);
    let net = match lock {
        Some((place, weight)) => exit.net.with_output(place, t, weight).with_transition_type(
            t,
            TransitionTypeView::Unlock(place),
        ),
        None => exit.net,
    };
    exit.with_net(net.with_output(v.blocks[target].start, t, 1))
}

/// The places that the right side of an assignment reads.
pub open spec fn read_places(rvalue: Rvalue) -> Seq<Place> {
    match rvalue {
        Rvalue::Use(operand) => match operand_place(operand) {
            Some(place) => seq![place],
            None => Seq::empty(),
        },
        Rvalue::Ref(place) => seq![place],
        Rvalue::Other(places) => places@,
    }
}

/// The accesses merged to one per location: the first, or else the last that
/// writes.
pub open spec fn merged(ops: Seq<UnsafeOpView>) -> Seq<UnsafeOpView>
    decreases ops.len(),
{
    if ops.len() == 0 {
        Seq::empty()
    } else {
        merged_with(merged(ops.drop_last()), ops.last())
    }
}

/// The position of the access to a location.
pub open spec fn access_index(ops: Seq<UnsafeOpView>, alias: usize) -> int
    decreases ops.len(),
{
    if ops.len() == 0 {
        0
    } else if ops[0].alias == alias {
        0
    } else {
        1 + access_index(ops.drop_first(), alias)
    }
}

/// The merged accesses with one more.
pub open spec fn merged_with(ops: Seq<UnsafeOpView>, op: UnsafeOpView) -> Seq<UnsafeOpView> {
    let i = access_index(ops, op.alias);
    if i < ops.len() {
        if op.is_write {
            ops.update(i, op)
        } else {
            ops
        }
    } else {
        ops.push(op)
    }
}

/// Where a location is found.
pub proof fn access_index_facts(ops: Seq<UnsafeOpView>, alias: usize)
    ensures
        0 <= access_index(ops, alias) <= ops.len(),
        access_index(ops, alias) < ops.len() ==> ops[access_index(ops, alias)].alias == alias,
        forall|j: int| 0 <= j < access_index(ops, alias) ==> (#[trigger] ops[j]).alias != alias,
    decreases ops.len(),
{
    if ops.len() > 0 && ops[0].alias != alias {
        let rest = ops.drop_first();
        access_index_facts(rest, alias);
        let i = access_index(rest, alias);
        if i < rest.len() {
            assert(ops[i + 1] == rest[i]);
        }
        assert forall|j: int| 0 <= j < i + 1 implies (#[trigger] ops[j]).alias != alias by {
            if j > 0 {
                assert(ops[j] == rest[j - 1]);
            }
        }
    }
}

/// The translation with the accesses of a block as one transition.
pub open spec fn with_unsafe(v: BodyView, bb: BasicBlock, fn_name: Seq<char>) -> BodyView {
    if v.pending.len() == 0 {
        v
    } else {
        let name = fn_name + "_unsafe_bb"@ + decimal(bb as nat);
        let t = v.next_transition();
        let exit = v.with_exit(bb, name, TransitionTypeView::UnsafeAccess(merged(v.pending)));
        let ready = v.next_place();
        BodyView {
            net: exit.net.with_place(
                block_place(name + "_unsafe_ready"@, Seq::empty()),
            ).with_output(ready, t, 1),
            blocks: v.blocks.insert(bb, BlockEnds { start: v.blocks[bb].start, last: ready }),
            pending: Seq::empty(),
            ..v
        }
    }
}

/// One access of a block.
pub open spec fn access(
    group: u32,
    is_write: bool,
    span: Seq<char>,
    bb: BasicBlock,
    ty: Seq<char>,
) -> UnsafeOpView {
    UnsafeOpView { alias: group as usize, is_write, span, basic_block: bb, ty }
}

impl<'b, 'p> BodyToPetriNet<'b, 'p> {
    /// The raw pointers from the `from`th on are matched against a local: the
    /// first that may alias it, with its group.
    pub open spec fn unsafe_match(&self, local: AliasId, from: int) -> Option<(AliasId, u32)>
        decreases self.resources.unsafe_groups.entries@.len() - from,
    {
        let entries = self.resources.unsafe_groups.entries@;
        if from < 0 || from >= entries.len() {
            None
        } else if self.alias.atomic_kind(local, entries[from].0).adds_arcs(
            self.alias_unknown_policy,
        ) {
            Some(entries[from])
        } else {
            self.unsafe_match(local, from + 1)
        }
    }

    /// The lock that a drop releases, with the tokens that it gives back: that
    /// of a guard, unless the block is one for cleanup.
    pub open spec fn lock_released(&self, place: Place, cleanup: bool) -> Option<(PlaceId, u64)> {
        let guard = LockGuardId { instance_id: self.instance_id, local: place.local, field: None };
        if !cleanup && self.lockguards@.contains_key(guard) {
            Some(
                (
                    self.resources.locks@[guard.alias()],
                    released(self.lockguards@[guard].lockguard_ty),
                ),
            )
        } else {
            None
        }
    }

    /// Drops a place; the drop of a lock guard releases its lock.
    pub fn handle_drop(
        &mut self,
        bb_idx: &BasicBlock,
        place: &Place,
        target: &BasicBlock,
        name: &str,
        bb: &BasicBlockData,
    )
        requires
            old(self).wf(),
            old(self)@.placed(*bb_idx),
            old(self)@.placed(*target),
            ({
                let guard = LockGuardId {
                    instance_id: old(self).instance_id,
                    local: place.local,
                    field: None,
                };
                !bb.is_cleanup && old(self).lockguards@.contains_key(guard) ==> old(
                    self,
                ).resources.locks@.contains_key(guard.alias())
            }),
        ensures
            final(self).wf(),
            final(self).alike(old(self)),
            final(self)@ == with_drop(
                old(self)@,
                *bb_idx,
                name@,
                old(self).lock_released(*place, bb.is_cleanup),
                *target,
            ),
    {
        let id = self.exit_transition(
            *bb_idx,
            transition_text(name, *bb_idx, "drop"),
            TransitionType::Drop,
        );
        if !bb.is_cleanup {
            let guard = LockGuardId::new(self.instance_id, place.local);
            if let Some(info) = self.lockguards.get(&guard) {
                let lock = *self.resources.locks.get(&guard.get_alias_id()).unwrap();
                self.net.add_output_arc(lock, id, release_weight(&info.lockguard_ty));
                self.net.set_transition_type(id, TransitionType::Unlock(lock));
            }
        }
        self.net.add_output_arc(self.bb_graph.start(*target), id, 1);
    }

    /// Whether a local may be a raw pointer of some group, with the group and
    /// the pointer.
    pub fn has_unsafe_alias(&mut self, place_id: AliasId) -> (r: (bool, u32, Option<AliasId>))
        requires
            old(self).wf(),
        ensures
            *final(self) == *old(self),
            r == match old(self).unsafe_match(place_id, 0) {
                Some((alias, group)) => (true, group, Some(alias)),
                None => (false, 0u32, None),
            },
    {
        let mut i: usize = 0;
        while i < self.resources.unsafe_groups.entries.len()
            invariant
                i <= self.resources.unsafe_groups.entries@.len(),
                self.wf(),
                *self == *old(self),
                self.unsafe_match(place_id, 0) == self.unsafe_match(place_id, i as int),
            decreases self.resources.unsafe_groups.entries@.len() - i,
        {
            let (alias, group) = self.resources.unsafe_groups.entries[i];
            let kind = self.alias.alias_atomic(place_id, alias);
            if kind.may_alias(self.alias_unknown_policy) {
                return (true, group, Some(alias));
            }
            i = i + 1;
        }
        (false, 0, None)
    }
}

/// Raw pointers are matched alike in alike translations.
proof fn match_alike<'b, 'p>(
    a: BodyToPetriNet<'b, 'p>,
    b: BodyToPetriNet<'b, 'p>,
    local: AliasId,
    from: int,
)
    requires
        a.alike(&b),
    ensures
        a.unsafe_match(local, from) == b.unsafe_match(local, from),
    decreases a.resources.unsafe_groups.entries@.len() - from,
{
    let entries = a.resources.unsafe_groups.entries@;
    if 0 <= from < entries.len() {
        match_alike(a, b, local, from + 1);
    }
}

/// The places that the right side of an assignment reads.
pub fn rvalue_read_places<'r>(rvalue: &'r Rvalue) -> (r: Vec<&'r Place>)
    ensures
        r@.len() == read_places(*rvalue).len(),
        forall|i: int| 0 <= i < r@.len() ==> *(#[trigger] r@[i]) == read_places(*rvalue)[i],
{
    let mut out: Vec<&'r Place> = Vec::new();
    match rvalue {
        Rvalue::Use(operand) => {
            if let Some(place) = operand.place() {
                out.push(place);
            }
        },
        Rvalue::Ref(place) => {
            out.push(place);
        },
        Rvalue::Other(places) => {
            let mut i: usize = 0;
            while i < places.len()
                invariant
                    i <= places@.len(),
                    out@.len() == i,
                    forall|j: int| 0 <= j < i ==> *(#[trigger] out@[j]) == places@[j],
                decreases places@.len() - i,
            {
                out.push(&places[i]);
                i = i + 1;
            }
        },
    }
    out
}

impl<'b, 'p> BodyToPetriNet<'b, 'p> {
    /// The access to a place, if it may be a raw pointer.
    pub open spec fn access_to(
        &self,
        place: Place,
        is_write: bool,
        bb: BasicBlock,
        span: Seq<char>,
    ) -> Seq<UnsafeOpView> {
        match self.unsafe_match(AliasId::plain(self.instance_id, place.local), 0) {
            Some((_, group)) => seq![access(group, is_write, span, bb, place.ty.text@)],
            None => Seq::empty(),
        }
    }

    /// The accesses of reads of places.
    pub open spec fn reads_of(&self, places: Seq<Place>, bb: BasicBlock, span: Seq<char>) -> Seq<
        UnsafeOpView,
    >
        decreases places.len(),
    {
        if places.len() == 0 {
            Seq::empty()
        } else {
            self.reads_of(places.drop_last(), bb, span) + self.access_to(
                places.last(),
                false,
                bb,
                span,
            )
        }
    }

    /// Notes the access to a place, if it may be a raw pointer.
    fn note_access(&mut self, place: &Place, is_write: bool, bb_idx: BasicBlock, span_str: &str)
        requires
            old(self).wf(),
        ensures
            final(self).wf(),
            final(self).alike(old(self)),
            final(self)@ == (BodyView {
                pending: old(self)@.pending + old(self).access_to(
                    *place,
                    is_write,
                    bb_idx,
                    span_str@,
                ),
                ..old(self)@
            }),
    {
        let found = self.has_unsafe_alias(AliasId::new(self.instance_id, place.local));
        let ghost before = self@.pending;
        if found.0 {
            self.pending_unsafe_ops.push(
                UnsafeOp {
                    alias: found.1 as usize,
                    is_write,
                    span: span_str.to_owned(),
                    basic_block: bb_idx,
                    ty: place.ty.text.clone(),
                },
            );
        }
        proof {
            assert(self@.pending =~= before + old(self).access_to(
                *place,
                is_write,
                bb_idx,
                span_str@,
            ));
        }
    }

    /// Notes the raw pointers that the right side of an assignment reads.
    pub fn process_rvalue_reads(
        &mut self,
        rvalue: &Rvalue,
        _fn_name: &str,
        bb_idx: BasicBlock,
        span_str: &str,
    )
        requires
            old(self).wf(),
        ensures
            final(self).wf(),
            final(self).alike(old(self)),
            final(self)@ == (BodyView {
                pending: old(self)@.pending + old(self).reads_of(
                    read_places(*rvalue),
                    bb_idx,
                    span_str@,
                ),
                ..old(self)@
            }),
    {
        let ghost v = self@;
        let ghost all = read_places(*rvalue);
        let places = rvalue_read_places(rvalue);
        let mut i: usize = 0;
        proof {
            assert(all.take(0) =~= Seq::<Place>::empty());
            assert(v.pending + Seq::<UnsafeOpView>::empty() =~= v.pending);
        }
        while i < places.len()
            invariant
                i <= places@.len(),
                places@.len() == all.len(),
                forall|j: int| 0 <= j < places@.len() ==> *(#[trigger] places@[j]) == all[j],
                self.wf(),
                self.alike(old(self)),
                self@ == (BodyView {
                    pending: v.pending + old(self).reads_of(
                        all.take(i as int),
                        bb_idx,
                        span_str@,
                    ),
                    ..v
                }),
            decreases places@.len() - i,
        {
            proof {
                assert(all.take(i + 1).drop_last() =~= all.take(i as int));
                assert(all.take(i + 1).last() == *places@[i as int]);
                match_alike(
                    *self,
                    *old(self),
                    AliasId::plain(self.instance_id, places@[i as int].local),
                    0,
                );
            }
            self.note_access(places[i], false, bb_idx, span_str);
            i = i + 1;
            proof {
                assert(self@.pending =~= v.pending + old(self).reads_of(
                    all.take(i as int),
                    bb_idx,
                    span_str@,
                ));
            }
        }
        proof {
            assert(all.take(i as int) =~= all);
        }
    }

    /// Notes the raw pointer that an assignment writes.
    pub fn process_place_writes(
        &mut self,
        place: &Place,
        _fn_name: &str,
        bb_idx: BasicBlock,
        span_str: &str,
    )
        requires
            old(self).wf(),
        ensures
            final(self).wf(),
            final(self).alike(old(self)),
            final(self)@ == (BodyView {
                pending: old(self)@.pending + old(self).access_to(*place, true, bb_idx, span_str@),
                ..old(self)@
            }),
    {
        self.note_access(place, true, bb_idx, span_str);
    }

    /// Adds the raw-pointer accesses of a block as one transition, with one
    /// access per location.
    pub fn flush_unsafe_ops(&mut self, bb_idx: BasicBlock)
        requires
            old(self).wf(),
            old(self)@.placed(bb_idx),
        ensures
            final(self).wf(),
            final(self).alike(old(self)),
            final(self)@ == with_unsafe(old(self)@, bb_idx, old(self).fn_name@),
    {
        if self.pending_unsafe_ops.len() == 0 {
            return;
        }
        let mut pending: Vec<UnsafeOp> = Vec::new();
        std::mem::swap(&mut pending, &mut self.pending_unsafe_ops);
        proof {
            assert(self@.pending =~= Seq::<UnsafeOpView>::empty());
        }
        let ops = merge_ops(pending);
        let name = self.fn_name.as_str().to_owned().concat("_unsafe_bb").concat(
            index_text(bb_idx).as_str(),
        );
        let ready_name = name.as_str().to_owned().concat("_unsafe_ready");
        let id = self.exit_transition(bb_idx, name, TransitionType::UnsafeAccess(ops));
        proof {
            reveal_strlit("");
            assert(""@ =~= Seq::<char>::empty());
        }
        let ready = self.bb_place(ready_name, "".to_owned());
        self.net.add_output_arc(ready, id, 1);
        self.bb_graph.push(bb_idx, ready);
    }
}

/// The accesses merged to one per location.
fn merge_ops(ops: Vec<UnsafeOp>) -> (r: Vec<UnsafeOp>)
    ensures
        unsafe_op_views(r@) == merged(unsafe_op_views(ops@)),
{
    let ghost all = unsafe_op_views(ops@);
    let mut rest = ops;
    let mut out: Vec<UnsafeOp> = Vec::new();
    let ghost mut done: int = 0;
    proof {
        assert(all.take(0) =~= Seq::<UnsafeOpView>::empty());
        assert(unsafe_op_views(out@) =~= Seq::<UnsafeOpView>::empty());
        assert(unsafe_op_views(rest@) =~= all.skip(0));
    }
    while rest.len() > 0
        invariant
            0 <= done <= all.len(),
            unsafe_op_views(rest@) == all.skip(done),
            unsafe_op_views(out@) == merged(all.take(done)),
        decreases rest@.len(),
    {
        let ghost before = rest@;
        let op = rest.remove(0);
        let ghost kept = unsafe_op_views(out@);
        proof {
            assert(unsafe_op_views(before).len() == before.len());
            assert(all.skip(done).len() == all.len() - done);
            assert(unsafe_op_views(before)[0] == all.skip(done)[0]);
            assert(op@ == all[done]);
            assert(all.take(done + 1).drop_last() =~= all.take(done));
            assert(unsafe_op_views(rest@) =~= all.skip(done + 1)) by {
                assert forall|k: int| 0 <= k < rest@.len() implies #[trigger] unsafe_op_views(
                    rest@,
                )[k] == all.skip(done + 1)[k] by {
                    assert(rest@[k] == before[k + 1]);
                    assert(unsafe_op_views(before)[k + 1] == all.skip(done)[k + 1]);
                }
            }
        }
        let i = find_access(&out, op.alias);
        let ghost written = op@;
        if i < out.len() {
            if op.is_write {
                out.set(i, op);
                proof {
                    assert(unsafe_op_views(out@) =~= kept.update(i as int, written));
                }
            }
        } else {
            out.push(op);
            proof {
                assert(unsafe_op_views(out@) =~= kept.push(written));
            }
        }
        proof {
            done = done + 1;
        }
    }
    proof {
        assert(unsafe_op_views(rest@).len() == 0);
        assert(all.take(done) =~= all);
    }
    out
}

/// The position of the access to a location.
fn find_access(ops: &Vec<UnsafeOp>, alias: usize) -> (r: usize)
    ensures
        r == access_index(unsafe_op_views(ops@), alias),
        r <= ops@.len(),
{
    let ghost views = unsafe_op_views(ops@);
    let mut i: usize = 0;
    while i < ops.len() && ops[i].alias != alias
        invariant
            i <= ops@.len(),
            views == unsafe_op_views(ops@),
            forall|j: int| 0 <= j < i ==> (#[trigger] views[j]).alias != alias,
        decreases ops@.len() - i,
    {
        proof {
            assert(views[i as int] == ops@[i as int]@);
        }
        i = i + 1;
    }
    proof {
        access_index_facts(views, alias);
        let k = access_index(views, alias);
        if i < ops@.len() {
            assert(views[i as int] == ops@[i as int]@);
        }
        if k < i {
            assert(views[k].alias == alias);
        }
        if i < k {
            assert(views[i as int].alias != alias);
        }
    }
    i
}

/// The accesses of a block are merged to one per location, which is one of
/// them, and which writes if any of them does.
pub proof fn accesses_are_merged(ops: Seq<UnsafeOpView>)
    ensures
        forall|i: int, j: int|
            0 <= i < j < merged(ops).len() ==> (#[trigger] merged(ops)[i]).alias != (
            #[trigger] merged(ops)[j]).alias,
        forall|i: int| 0 <= i < merged(ops).len() ==> ops.contains(#[trigger] merged(ops)[i]),
        forall|k: int|
            0 <= k < ops.len() ==> {
                let i = access_index(merged(ops), (#[trigger] ops[k]).alias);
                i < merged(ops).len() && merged(ops)[i].alias == ops[k].alias && (ops[k].is_write
                    ==> merged(ops)[i].is_write)
            },
    decreases ops.len(),
{
    if ops.len() > 0 {
        let front = ops.drop_last();
        let op = ops.last();
        let m = merged(front);
        let r = merged(ops);
        accesses_are_merged(front);
        access_index_facts(m, op.alias);
        access_index_facts(r, op.alias);
        let at = access_index(m, op.alias);
        assert forall|i: int| 0 <= i < r.len() implies ops.contains(#[trigger] r[i]) by {
            if i < m.len() && r[i] == m[i] {
                assert(front.contains(m[i]));
                let k = choose|k: int| 0 <= k < front.len() && front[k] == m[i];
                assert(ops[k] == r[i]);
            } else {
                assert(ops[ops.len() - 1] == r[i]);
            }
        }
        assert forall|i: int, j: int| 0 <= i < j < r.len() implies (#[trigger] r[i]).alias != (
        #[trigger] r[j]).alias by {
            if j < m.len() {
                assert(m[i].alias != m[j].alias);
            } else {
                assert(m[i].alias != op.alias);
            }
        }
        assert forall|k: int| 0 <= k < ops.len() implies {
            let i = access_index(r, (#[trigger] ops[k]).alias);
            i < r.len() && r[i].alias == ops[k].alias && (ops[k].is_write ==> r[i].is_write)
        } by {
            let alias = ops[k].alias;
            access_index_facts(r, alias);
            let i = access_index(r, alias);
            if k < front.len() {
                assert(front[k] == ops[k]);
                access_index_facts(m, alias);
                let p = access_index(m, alias);
                assert(m[p].alias == alias);
                assert(r[p].alias == alias);
                if i < p {
                    assert(r[i].alias != r[p].alias);
                } else if p < i {
                    assert(r[p].alias != alias);
                }
            } else {
                let p = if at < m.len() {
                    at
                } else {
                    m.len() as int
                };
                assert(r[p].alias == alias);
                if i < p {
                    assert(r[i].alias != r[p].alias);
                } else if p < i {
                    assert(r[p].alias != alias);
                }
            }
        }
    }
}

} // verus!

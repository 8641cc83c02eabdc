//! The state of the translation of one body.

use super::blocks::{BasicBlockGraph, BlockEnds};
use super::names::{transition_name, transition_text};
use crate::collections::KeyedMap;
use crate::concurrency::atomic::AtomicOrdering;
use crate::concurrency::blocking::LockGuardMap;
use crate::config::AliasUnknownPolicy;
use crate::memory::alias_engine::AliasEngine;
use crate::memory::pointsto::AliasId;
use crate::net::structure::{
    unsafe_op_views, NetView, PlaceId, PlaceType, PlaceView, PtNet, PtPlace, PtTransition,
    TransitionId, TransitionType, TransitionTypeView, UnsafeOp, UnsafeOpView,
};
use crate::translate::mir::{
    BasicBlock, BasicBlockData, Body, DefId, InstanceId, TerminatorKind,
};
use vstd::prelude::*;

verus! {

/// The places and groups of the shared values of the program.
pub struct Resources {
    /// The place of the lock behind each guard.
    pub locks: KeyedMap<AliasId, PlaceId>,
    /// The places of each atomic.
    pub atomic_places: KeyedMap<AliasId, Vec<PlaceId>>,
    /// The ordering of the operations on each atomic.
    pub atomic_orders: KeyedMap<AliasId, AtomicOrdering>,
    /// The place of each channel endpoint.
    pub channel_places: KeyedMap<AliasId, PlaceId>,
    /// The group of each raw pointer.
    pub unsafe_groups: KeyedMap<AliasId, u32>,
}

impl Resources {
    /// No key occurs twice.
    pub open spec fn wf(&self) -> bool {
        &&& self.locks.wf()
        &&& self.atomic_places.wf()
        &&& self.atomic_orders.wf()
        &&& self.channel_places.wf()
        &&& self.unsafe_groups.wf()
    }
}

/// How far the threads have come in their memory orderings.
pub struct Segments {
    /// The place of each segment of a thread.
    pub seg_place_of: KeyedMap<(usize, usize), PlaceId>,
    /// The place that serializes sequentially consistent operations.
    pub seqcst_place: Option<PlaceId>,
    /// The segment that each thread is in.
    pub current: KeyedMap<usize, usize>,
}

/// How far the threads have come in their memory orderings.
#[verifier::ext_equal]
pub struct SegmentsView {
    pub places: Map<(usize, usize), PlaceId>,
    pub seqcst: Option<PlaceId>,
    pub current: Map<usize, usize>,
}

impl View for Segments {
    type V = SegmentsView;

    open spec fn view(&self) -> SegmentsView {
        SegmentsView {
            places: self.seg_place_of@,
            seqcst: self.seqcst_place,
            current: self.current@,
        }
    }
}

impl SegmentsView {
    /// The segment that a thread is in; each begins in the first.
    pub open spec fn at(self, tid: usize) -> usize {
        if self.current.contains_key(tid) {
            self.current[tid]
        } else {
            0
        }
    }

    /// The recorded places are among the first `n` places, and no two of them
    /// are the same.
    pub open spec fn within(self, n: nat) -> bool {
        &&& forall|k: (usize, usize)| #[trigger]
            self.places.contains_key(k) ==> self.places[k] < n
        &&& forall|a: (usize, usize), b: (usize, usize)|
            a != b && #[trigger] self.places.contains_key(a) && #[trigger] self.places.contains_key(
                b,
            ) ==> self.places[a] != self.places[b]
        &&& match self.seqcst {
            Some(place) => place < n && forall|k: (usize, usize)| #[trigger]
                self.places.contains_key(k) ==> self.places[k] != place,
            None => true,
        }
    }
}

impl Segments {
    /// No key occurs twice.
    pub open spec fn wf(&self) -> bool {
        self.seg_place_of.wf() && self.current.wf()
    }

    /// The segment that a thread is in.
    pub fn current_seg(&self, tid: usize) -> (r: usize)
        requires
            self.wf(),
        ensures
            r == self@.at(tid),
    {
        match self.current.get(&tid) {
            Some(seg) => *seg,
            None => 0,
        }
    }

    /// Moves a thread to its next segment.
    pub fn bump(&mut self, tid: usize) -> (r: usize)
        requires
            old(self).wf(),
            old(self)@.at(tid) < usize::MAX,
        ensures
            final(self).wf(),
            r == old(self)@.at(tid) + 1,
            final(self)@ == (SegmentsView {
                current: old(self)@.current.insert(tid, r),
                ..old(self)@
            }),
    {
        let next: usize = self.current_seg(tid) + 1;
        self.current.insert(tid, next);
        next
    }
}

/// The translation of a body into the net of its program.
pub struct BodyToPetriNet<'b, 'p> {
    pub net: PtNet,
    pub bb_graph: BasicBlockGraph,
    /// The blocks without places.
    pub exclude_bb: Vec<usize>,
    /// The transition that returns from the function; `0` as long as there is
    /// none.
    pub return_transition: TransitionId,
    pub seg: Segments,
    /// The raw-pointer accesses of the current block.
    pub pending_unsafe_ops: Vec<UnsafeOp>,
    pub instance_id: InstanceId,
    pub def_id: DefId,
    /// The printed name of the function.
    pub fn_name: String,
    pub is_coroutine: bool,
    pub body: &'b Body,
    /// The first and the last place of each function.
    pub functions_map: KeyedMap<DefId, (PlaceId, PlaceId)>,
    /// The first and the last place of the program.
    pub entry_exit: (PlaceId, PlaceId),
    pub resources: Resources,
    pub lockguards: LockGuardMap,
    pub alias: AliasEngine<'p>,
    pub alias_unknown_policy: AliasUnknownPolicy,
}

/// What the translation of a body has made so far.
#[verifier::ext_equal]
pub struct BodyView {
    pub net: NetView,
    pub blocks: Map<BasicBlock, BlockEnds>,
    pub excluded: Seq<usize>,
    pub return_transition: TransitionId,
    pub seg: SegmentsView,
    pub pending: Seq<UnsafeOpView>,
}

impl<'b, 'p> View for BodyToPetriNet<'b, 'p> {
    type V = BodyView;

    open spec fn view(&self) -> BodyView {
        BodyView {
            net: self.net@,
            blocks: self.bb_graph@,
            excluded: self.exclude_bb@,
            return_transition: self.return_transition,
            seg: self.seg@,
            pending: unsafe_op_views(self.pending_unsafe_ops@),
        }
    }
}

/// The blocks that a block switches to.
pub open spec fn switch_targets(block: BasicBlockData) -> Seq<BasicBlock> {
    match block.terminator {
        Some(t) => match t.kind {
            TerminatorKind::SwitchInt { targets } => targets@,
            _ => Seq::empty(),
        },
        None => Seq::empty(),
    }
}

/// Every block that a switch leads to is one of the body.
pub open spec fn body_ok(body: Body) -> bool {
    forall|i: int, j: int|
        0 <= i < body.basic_blocks@.len() && 0 <= j < switch_targets(body.basic_blocks@[i]).len()
            ==> #[trigger] switch_targets(body.basic_blocks@[i])[j] < body.basic_blocks@.len()
}

/// A place inside a function.
pub open spec fn block_place(name: Seq<char>, span: Seq<char>) -> PlaceView {
    PlaceView {
        name,
        tokens: 0,
        capacity: Some(1u64),
        place_type: PlaceType::BasicBlock,
        span,
    }
}

impl BodyView {
    /// The translation with another net.
    pub open spec fn with_net(self, net: NetView) -> BodyView {
        BodyView { net, ..self }
    }

    /// The block has places.
    pub open spec fn placed(self, bb: BasicBlock) -> bool {
        self.blocks.contains_key(bb)
    }

    /// The segments have places of the net, each its own.
    pub open spec fn segments_placed(self) -> bool {
        self.seg.within(self.net.places.len())
    }

    /// The number of the next transition.
    pub open spec fn next_transition(self) -> TransitionId {
        self.net.transitions.len() as usize
    }

    /// The number of the next place.
    pub open spec fn next_place(self) -> PlaceId {
        self.net.places.len() as usize
    }

    /// The translation with a transition that takes the token of a block.
    pub open spec fn with_exit(
        self,
        bb: BasicBlock,
        name: Seq<char>,
        transition_type: TransitionTypeView,
    ) -> BodyView {
        self.with_net(
            self.net.with_transition(name, transition_type).with_input(
                self.blocks[bb].last,
                self.next_transition(),
                1,
            ),
        )
    }

    /// The translation with a transition from one block to another.
    pub open spec fn with_fallthrough(
        self,
        bb: BasicBlock,
        name: Seq<char>,
        transition_type: TransitionTypeView,
        target: BasicBlock,
    ) -> BodyView {
        let exit = self.with_exit(bb, name, transition_type);
        exit.with_net(
            exit.net.with_output(self.blocks[target].start, self.next_transition(), 1),
        )
    }

    /// The translation with a transition from a block to a place.
    pub open spec fn with_terminal(
        self,
        bb: BasicBlock,
        name: Seq<char>,
        transition_type: TransitionTypeView,
        end: PlaceId,
    ) -> BodyView {
        let exit = self.with_exit(bb, name, transition_type);
        exit.with_net(exit.net.with_output(end, self.next_transition(), 1))
    }
}

impl<'b, 'p> BodyToPetriNet<'b, 'p> {
    /// The maps hold no key twice, the segments have places of the net, each its
    /// own, and the blocks of the body are numbered.
    pub open spec fn wf(&self) -> bool {
        &&& self.bb_graph.wf()
        &&& self.seg.wf()
        &&& self@.segments_placed()
        &&& self.functions_map.wf()
        &&& self.resources.wf()
        &&& self.lockguards.wf()
        &&& self.alias.wf()
        &&& body_ok(*self.body)
    }

    /// The two translate one body, with the same knowledge of its program.
    pub open spec fn alike(&self, other: &Self) -> bool {
        &&& self.instance_id == other.instance_id
        &&& self.def_id == other.def_id
        &&& self.fn_name == other.fn_name
        &&& self.is_coroutine == other.is_coroutine
        &&& self.body == other.body
        &&& self.functions_map == other.functions_map
        &&& self.entry_exit == other.entry_exit
        &&& self.resources == other.resources
        &&& self.lockguards == other.lockguards
        &&& self.alias == other.alias
        &&& self.alias_unknown_policy == other.alias_unknown_policy
    }

    /// Whether a block is without places.
    pub fn is_excluded(&self, bb: BasicBlock) -> (b: bool)
        ensures
            b == self@.excluded.contains(bb),
    {
        let mut i: usize = 0;
        while i < self.exclude_bb.len()
            invariant
                i <= self.exclude_bb@.len(),
                forall|j: int| 0 <= j < i ==> self.exclude_bb@[j] != bb,
            decreases self.exclude_bb@.len() - i,
        {
            if self.exclude_bb[i] == bb {
                return true;
            }
            i = i + 1;
        }
        false
    }

    /// Adds a place inside the function.
    pub(crate) fn bb_place(&mut self, name: String, span: String) -> (id: PlaceId)
        requires
            old(self).wf(),
        ensures
            final(self).wf(),
            final(self).alike(old(self)),
            final(self)@ == old(self)@.with_net(old(self)@.net.with_place(block_place(name@, span@))),
            id == old(self)@.next_place(),
    {
        self.net.add_place(
            PtPlace { name, tokens: 0, capacity: Some(1), place_type: PlaceType::BasicBlock, span },
        )
    }

    /// Adds a transition that takes the token of a block.
    pub(crate) fn exit_transition(
        &mut self,
        bb: BasicBlock,
        name: String,
        transition_type: TransitionType,
    ) -> (id: TransitionId)
        requires
            old(self).wf(),
            old(self)@.placed(bb),
        ensures
            final(self).wf(),
            final(self).alike(old(self)),
            final(self)@ == old(self)@.with_exit(bb, name@, transition_type@),
            id == old(self)@.next_transition(),
            id < final(self)@.net.transitions.len(),
    {
        let id = self.net.add_transition(PtTransition { name, transition_type });
        self.net.add_input_arc(self.bb_graph.last(bb), id, 1);
        id
    }

    /// Adds a transition from one block to another.
    pub(crate) fn add_fallthrough_transition(
        &mut self,
        bb: BasicBlock,
        name: &str,
        kind: &str,
        transition_type: TransitionType,
        target: BasicBlock,
    )
        requires
            old(self).wf(),
            old(self)@.placed(bb),
            old(self)@.placed(target),
        ensures
            final(self).wf(),
            final(self).alike(old(self)),
            final(self)@ == old(self)@.with_fallthrough(
                bb,
                transition_name(name@, bb, kind@),
                transition_type@,
                target,
            ),
    {
        let id = self.exit_transition(bb, transition_text(name, bb, kind), transition_type);
        self.net.add_output_arc(self.bb_graph.start(target), id, 1);
    }

    /// Adds a transition from a block to the end of the program.
    pub(crate) fn add_terminal_transition(
        &mut self,
        bb: BasicBlock,
        name: &str,
        kind: &str,
        transition_type: TransitionType,
    )
        requires
            old(self).wf(),
            old(self)@.placed(bb),
        ensures
            final(self).wf(),
            final(self).alike(old(self)),
            final(self)@ == old(self)@.with_terminal(
                bb,
                transition_name(name@, bb, kind@),
                transition_type@,
                old(self).entry_exit.1,
            ),
    {
        let id = self.exit_transition(bb, transition_text(name, bb, kind), transition_type);
        self.net.add_output_arc(self.entry_exit.1, id, 1);
    }
}

} // verus!

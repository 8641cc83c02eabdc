//! Atomics and channels.

use super::body::{block_place, BodyToPetriNet, BodyView, SegmentsView};
use crate::concurrency::atomic::AtomicOrdering;
use crate::memory::pointsto::AliasId;
use crate::net::structure::{
    NetView, PlaceId, PlaceType, PlaceView, PtPlace, PtTransition, TransitionId, TransitionType,
    TransitionTypeView,
};
use crate::text::{decimal, index_text};
use crate::translate::mir::BasicBlock;
use vstd::prelude::*;

verus! {

/// The place of a segment of a thread, which begins in its first segment.
pub open spec fn segment_place(tid: usize, seg: usize) -> PlaceView {
    PlaceView {
        name: "seg_t"@ + decimal(tid as nat) + "_s"@ + decimal(seg as nat),
        tokens: if seg == 0 {
            1
        } else {
            0
        },
        capacity: Some(u64::MAX),
        place_type: PlaceType::BasicBlock,
        span: Seq::empty(),
    }
}

/// The place that serializes sequentially consistent operations.
pub open spec fn seqcst_resource() -> PlaceView {
    PlaceView {
        name: "SeqCst_Global"@,
        tokens: 1,
        capacity: Some(u64::MAX),
        place_type: PlaceType::Resources,
        span: Seq::empty(),
    }
}

impl BodyView {
    /// The number of the place of a segment.
    pub open spec fn segment_id(self, tid: usize, seg: usize) -> PlaceId {
        if self.seg.places.contains_key((tid, seg)) {
            self.seg.places[(tid, seg)]
        } else {
            self.next_place()
        }
    }

    /// The translation with a place for the segment.
    pub open spec fn with_segment(self, tid: usize, seg: usize) -> BodyView {
        if self.seg.places.contains_key((tid, seg)) {
            self
        } else {
            BodyView {
                net: self.net.with_place(segment_place(tid, seg)),
                seg: SegmentsView {
                    places: self.seg.places.insert((tid, seg), self.next_place()),
                    ..self.seg
                },
                ..self
            }
        }
    }

    /// The number of the place that serializes.
    pub open spec fn seqcst_id(self) -> PlaceId {
        match self.seg.seqcst {
            Some(place) => place,
            None => self.next_place(),
        }
    }

    /// The translation with a place that serializes.
    pub open spec fn with_seqcst(self) -> BodyView {
        match self.seg.seqcst {
            Some(_) => self,
            None => BodyView {
                net: self.net.with_place(seqcst_resource()),
                seg: SegmentsView { seqcst: Some(self.next_place()), ..self.seg },
                ..self
            },
        }
    }

    /// The translation with a thread in its next segment, which has a place.
    pub open spec fn advanced(self, tid: usize) -> BodyView {
        let begun = self.with_segment(tid, self.seg.at(tid));
        let next = (self.seg.at(tid) + 1) as usize;
        BodyView {
            seg: SegmentsView { current: begun.seg.current.insert(tid, next), ..begun.seg },
            ..begun
        }.with_segment(tid, next)
    }

    /// The translation with the places that an ordering needs.
    pub open spec fn ordered(self, tid: usize, order: AtomicOrdering) -> BodyView {
        match order {
            AtomicOrdering::Relaxed => self.with_segment(tid, self.seg.at(tid)),
            AtomicOrdering::SeqCst => self.advanced(tid).with_seqcst(),
            _ => self.advanced(tid),
        }
    }

    /// The arcs by which an operation keeps to its ordering: the place, and
    /// whether the operation takes its token or gives one.
    pub open spec fn order_arcs(self, tid: usize, order: AtomicOrdering) -> Seq<(PlaceId, bool)> {
        let current = self.segment_id(tid, self.seg.at(tid));
        let begun = self.with_segment(tid, self.seg.at(tid));
        let next = begun.segment_id(tid, (self.seg.at(tid) + 1) as usize);
        match order {
            AtomicOrdering::Relaxed => seq![(current, true), (current, false)],
            AtomicOrdering::SeqCst => seq![
                (current, true),
                (next, false),
                (self.advanced(tid).seqcst_id(), true),
                (self.advanced(tid).seqcst_id(), false),
            ],
            _ => seq![(current, true), (next, false)],
        }
    }
}

/// The net with the arcs at a transition.
pub open spec fn with_arcs(net: NetView, arcs: Seq<(PlaceId, bool)>, t: TransitionId) -> NetView
    decreases arcs.len(),
{
    if arcs.len() == 0 {
        net
    } else {
        let before = with_arcs(net, arcs.drop_last(), t);
        let (place, is_input) = arcs.last();
        if is_input {
            before.with_input(place, t, 1)
        } else {
            before.with_output(place, t, 1)
        }
    }
}

/// One atomic operation of a block.
pub struct AtomicOp {
    pub op: Seq<char>,
    pub instance: usize,
    pub order: AtomicOrdering,
    pub bb: BasicBlock,
    pub target: Option<BasicBlock>,
}

impl AtomicOp {
    /// The name of the transition of one alternative.
    pub open spec fn alternative_name(self, idx: nat) -> Seq<char> {
        "atomic_"@ + decimal(self.instance as nat) + "_"@ + self.op + "_"@ + self.order.name()
            + "_"@ + decimal(self.bb as nat) + "_"@ + decimal(idx)
    }
}

/// The translation with the operation on one of the resources that it may be
/// on.
pub open spec fn with_alternative(
    v: BodyView,
    op: AtomicOp,
    inside: PlaceId,
    arcs: Seq<(PlaceId, bool)>,
    idx: nat,
    resource: PlaceId,
    transition_type: TransitionTypeView,
) -> BodyView {
    let t = v.next_transition();
    let net = with_arcs(
        v.net.with_transition(op.alternative_name(idx), transition_type).with_input(
            inside,
            t,
            1,
        ).with_input(resource, t, 1).with_output(resource, t, 1),
        arcs,
        t,
    );
    v.with_net(
        match op.target {
            Some(target) => net.with_output(v.blocks[target].start, t, 1),
            None => net,
        },
    )
}

/// The translation with the operation on each of the resources that it may be
/// on.
pub open spec fn with_alternatives(
    v: BodyView,
    op: AtomicOp,
    inside: PlaceId,
    arcs: Seq<(PlaceId, bool)>,
    matches: Seq<(AliasId, PlaceId)>,
    types: Seq<TransitionTypeView>,
) -> BodyView
    decreases matches.len(),
{
    if matches.len() == 0 {
        v
    } else {
        with_alternative(
            with_alternatives(v, op, inside, arcs, matches.drop_last(), types),
            op,
            inside,
            arcs,
            (matches.len() - 1) as nat,
            matches.last().1,
            types[matches.len() - 1],
        )
    }
}

/// The translation with the place that an operation is entered by.
pub open spec fn with_inside(
    v: BodyView,
    op: Seq<char>,
    instance: usize,
    bb: BasicBlock,
    span: Seq<char>,
    bb_end: TransitionId,
) -> BodyView {
    let name = "atomic_"@ + op + "_in_"@ + decimal(instance as nat) + "_"@ + decimal(bb as nat);
    v.with_net(v.net.with_place(block_place(name, span)).with_output(v.next_place(), bb_end, 1))
}

/// The place is among the matches.
pub open spec fn place_matched(matches: Seq<(AliasId, PlaceId)>, place: PlaceId) -> bool {
    exists|i: int| 0 <= i < matches.len() && (#[trigger] matches[i]).1 == place
}

/// The matches with the first `n` places of an atomic, each place once.
pub open spec fn with_matches(
    matches: Seq<(AliasId, PlaceId)>,
    alias: AliasId,
    places: Seq<PlaceId>,
    n: nat,
) -> Seq<(AliasId, PlaceId)>
    decreases n,
{
    if n == 0 {
        matches
    } else {
        let before = with_matches(matches, alias, places, (n - 1) as nat);
        if place_matched(before, places[n - 1]) {
            before
        } else {
            before.push((alias, places[n - 1]))
        }
    }
}

/// Whether a place is among the matches.
fn is_place_matched(matches: &Vec<(AliasId, PlaceId)>, place: PlaceId) -> (b: bool)
    ensures
        b == place_matched(matches@, place),
{
    let mut i: usize = 0;
    while i < matches.len()
        invariant
            i <= matches@.len(),
            forall|j: int| 0 <= j < i ==> (#[trigger] matches@[j]).1 != place,
        decreases matches@.len() - i,
    {
        if matches[i].1 == place {
            return true;
        }
        i = i + 1;
    }
    false
}

impl<'b, 'p> BodyToPetriNet<'b, 'p> {
    /// The atomics among the first `n` that may be the one operated on, with
    /// their places.
    pub open spec fn atomic_matches(&self, current: AliasId, n: nat) -> Seq<(AliasId, PlaceId)>
        decreases n,
    {
        if n == 0 {
            Seq::empty()
        } else {
            let before = self.atomic_matches(current, (n - 1) as nat);
            let (alias, places) = self.resources.atomic_places.entries@[n - 1];
            if self.alias.atomic_kind(current, alias).adds_arcs(self.alias_unknown_policy) {
                with_matches(before, alias, places@, places@.len())
            } else {
                before
            }
        }
    }

    /// All atomics that may be the one operated on, with their places.
    pub open spec fn all_atomic_matches(&self, current: AliasId) -> Seq<(AliasId, PlaceId)> {
        self.atomic_matches(current, self.resources.atomic_places.entries@.len())
    }

    /// The endpoint of a channel from the `from`th on that may be the one given.
    pub open spec fn channel_match(&self, channel: AliasId, from: int) -> Option<PlaceId>
        decreases self.resources.channel_places.entries@.len() - from,
    {
        let entries = self.resources.channel_places.entries@;
        if from < 0 || from >= entries.len() {
            None
        } else if self.alias.atomic_kind(channel, entries[from].0).adds_arcs(
            self.alias_unknown_policy,
        ) {
            Some(entries[from].1)
        } else {
            self.channel_match(channel, from + 1)
        }
    }

    /// All atomics that may be the one operated on, with their places, each
    /// place once.
    pub fn find_atomic_matches(&mut self, current_id: &AliasId) -> (r: Vec<(AliasId, PlaceId)>)
        requires
            old(self).wf(),
        ensures
            *final(self) == *old(self),
            r@ == old(self).all_atomic_matches(*current_id),
    {
        let mut matches: Vec<(AliasId, PlaceId)> = Vec::new();
        let mut i: usize = 0;
        while i < self.resources.atomic_places.entries.len()
            invariant
                i <= self.resources.atomic_places.entries@.len(),
                self.wf(),
                *self == *old(self),
                matches@ == self.atomic_matches(*current_id, i as nat),
            decreases self.resources.atomic_places.entries@.len() - i,
        {
            let alias = self.resources.atomic_places.entries[i].0;
            let kind = self.alias.alias_atomic(*current_id, alias);
            if kind.may_alias(self.alias_unknown_policy) {
                let ghost begun = matches@;
                let places = &self.resources.atomic_places.entries[i].1;
                let mut j: usize = 0;
                while j < places.len()
                    invariant
                        j <= places@.len(),
                        matches@ == with_matches(begun, alias, places@, j as nat),
                    decreases places@.len() - j,
                {
                    let place = places[j];
                    if !is_place_matched(&matches, place) {
                        matches.push((alias, place));
                    }
                    j = j + 1;
                }
            }
            i = i + 1;
        }
        matches
    }

    /// The place of a segment of a thread.
    pub fn ensure_seg_place(&mut self, tid: usize, seg: usize) -> (id: PlaceId)
        requires
            old(self).wf(),
        ensures
            final(self).wf(),
            final(self).alike(old(self)),
            final(self)@ == old(self)@.with_segment(tid, seg),
            id == old(self)@.segment_id(tid, seg),
            final(self)@.seg.places.contains_key((tid, seg)),
            final(self)@.seg.places[(tid, seg)] == id,
            id < final(self)@.net.places.len(),
    {
        if let Some(place) = self.seg.seg_place_of.get(&(tid, seg)) {
            return *place;
        }
        let name = "seg_t".to_owned().concat(index_text(tid).as_str()).concat("_s").concat(
            index_text(seg).as_str(),
        );
        let tokens: u64 = if seg == 0 {
            1
        } else {
            0
        };
        proof {
            reveal_strlit("");
            assert(""@ =~= Seq::<char>::empty());
        }
        let id = self.net.add_place(
            PtPlace {
                name,
                tokens,
                capacity: Some(u64::MAX),
                place_type: PlaceType::BasicBlock,
                span: "".to_owned(),
            },
        );
        self.seg.seg_place_of.insert((tid, seg), id);
        id
    }

    /// The place that serializes sequentially consistent operations.
    pub fn ensure_seqcst_place(&mut self) -> (id: PlaceId)
        requires
            old(self).wf(),
        ensures
            final(self).wf(),
            final(self).alike(old(self)),
            final(self)@ == old(self)@.with_seqcst(),
            id == old(self)@.seqcst_id(),
            final(self)@.seg.seqcst == Some(id),
            id < final(self)@.net.places.len(),
    {
        if let Some(place) = self.seg.seqcst_place {
            return place;
        }
        proof {
            reveal_strlit("");
            assert(""@ =~= Seq::<char>::empty());
        }
        let id = self.net.add_place(
            PtPlace {
                name: "SeqCst_Global".to_owned(),
                tokens: 1,
                capacity: Some(u64::MAX),
                place_type: PlaceType::Resources,
                span: "".to_owned(),
            },
        );
        self.seg.seqcst_place = Some(id);
        id
    }

    /// The arcs by which one atomic operation keeps to its ordering. A relaxed
    /// operation leaves its thread in its segment; any other moves it to the
    /// next; sequentially consistent ones also pass one place, one at a time.
    pub fn ordering_seg_arcs(&mut self, tid: usize, ord: AtomicOrdering) -> (arcs: Vec<
        (PlaceId, bool),
    >)
        requires
            old(self).wf(),
            ord != AtomicOrdering::Relaxed ==> old(self)@.seg.at(tid) < usize::MAX,
        ensures
            final(self).wf(),
            final(self).alike(old(self)),
            final(self)@ == old(self)@.ordered(tid, ord),
            arcs@ == old(self)@.order_arcs(tid, ord),
            arcs@[0] == (final(self)@.seg.places[(tid, old(self)@.seg.at(tid))], true),
            arcs@[1] == (final(self)@.seg.places[(tid, final(self)@.seg.at(tid))], false),
            ord != AtomicOrdering::Relaxed ==> arcs@[0].0 != arcs@[1].0,
    {
        let mut arcs: Vec<(PlaceId, bool)> = Vec::new();
        let current_seg = self.seg.current_seg(tid);
        let current_place = self.ensure_seg_place(tid, current_seg);
        match ord {
            AtomicOrdering::Relaxed => {
                arcs.push((current_place, true));
                arcs.push((current_place, false));
            },
            AtomicOrdering::Acquire | AtomicOrdering::Release | AtomicOrdering::AcqRel => {
                let next_seg = self.seg.bump(tid);
                let next_place = self.ensure_seg_place(tid, next_seg);
                arcs.push((current_place, true));
                arcs.push((next_place, false));
            },
            AtomicOrdering::SeqCst => {
                let next_seg = self.seg.bump(tid);
                let next_place = self.ensure_seg_place(tid, next_seg);
                let seqcst_place = self.ensure_seqcst_place();
                arcs.push((current_place, true));
                arcs.push((next_place, false));
                arcs.push((seqcst_place, true));
                arcs.push((seqcst_place, false));
            },
        }
        proof {
            assert(arcs@ =~= old(self)@.order_arcs(tid, ord));
            let from = (tid, old(self)@.seg.at(tid));
            let to = (tid, self@.seg.at(tid));
            assert(self@.seg.places.contains_key(from));
            assert(self@.seg.places.contains_key(to));
        }
        arcs
    }

    /// The place of the channel that an endpoint may belong to.
    pub fn find_channel_place(&mut self, channel_alias: AliasId) -> (r: Option<PlaceId>)
        requires
            old(self).wf(),
        ensures
            *final(self) == *old(self),
            r == old(self).channel_match(channel_alias, 0),
    {
        let mut i: usize = 0;
        while i < self.resources.channel_places.entries.len()
            invariant
                i <= self.resources.channel_places.entries@.len(),
                self.wf(),
                *self == *old(self),
                self.channel_match(channel_alias, 0) == self.channel_match(
                    channel_alias,
                    i as int,
                ),
            decreases self.resources.channel_places.entries@.len() - i,
        {
            let (alias, place) = self.resources.channel_places.entries[i];
            let kind = self.alias.alias_atomic(channel_alias, alias);
            if kind.may_alias(self.alias_unknown_policy) {
                return Some(place);
            }
            i = i + 1;
        }
        None
    }
}

/// The builder may give the type for an operation on the atomic.
pub open spec fn may_build<F: Fn(&AliasId, &AtomicOrdering, String) -> TransitionType>(
    builder: F,
    alias: AliasId,
    order: AtomicOrdering,
    span: Seq<char>,
    transition_type: TransitionTypeView,
) -> bool {
    exists|s: String, t: TransitionType| #[trigger]
        builder.ensures((&alias, &order, s), t) && s@ == span && t@ == transition_type
}

/// The builder may give the types for an operation on each of the atomics.
pub open spec fn may_build_all<F: Fn(&AliasId, &AtomicOrdering, String) -> TransitionType>(
    builder: F,
    matches: Seq<(AliasId, PlaceId)>,
    order: AtomicOrdering,
    span: Seq<char>,
    types: Seq<TransitionTypeView>,
) -> bool {
    &&& types.len() == matches.len()
    &&& forall|i: int|
        0 <= i < matches.len() ==> may_build(
            builder,
            (#[trigger] matches[i]).0,
            order,
            span,
            types[i],
        )
}

/// Adds arcs at a transition.
fn add_arcs<'b, 'p>(
    body: &mut BodyToPetriNet<'b, 'p>,
    arcs: &Vec<(PlaceId, bool)>,
    t: TransitionId,
)
    requires
        old(body).wf(),
    ensures
        final(body).wf(),
        final(body).alike(old(body)),
        final(body)@ == old(body)@.with_net(with_arcs(old(body)@.net, arcs@, t)),
{
    let ghost v = body@;
    let mut i: usize = 0;
    proof {
        assert(arcs@.take(0) =~= Seq::<(PlaceId, bool)>::empty());
    }
    while i < arcs.len()
        invariant
            i <= arcs@.len(),
            body.wf(),
            body.alike(old(body)),
            body@ == v.with_net(with_arcs(v.net, arcs@.take(i as int), t)),
        decreases arcs@.len() - i,
    {
        let (place, is_input) = arcs[i];
        proof {
            assert(arcs@.take(i + 1).drop_last() =~= arcs@.take(i as int));
            assert(arcs@.take(i + 1).last() == arcs@[i as int]);
        }
        if is_input {
            body.net.add_input_arc(place, t, 1);
        } else {
            body.net.add_output_arc(place, t, 1);
        }
        i = i + 1;
    }
    proof {
        assert(arcs@.take(i as int) =~= arcs@);
    }
}

/// Only the later types differ.
proof fn alternatives_agree(
    v: BodyView,
    op: AtomicOp,
    inside: PlaceId,
    arcs: Seq<(PlaceId, bool)>,
    matches: Seq<(AliasId, PlaceId)>,
    types: Seq<TransitionTypeView>,
    more: TransitionTypeView,
)
    requires
        matches.len() <= types.len(),
    ensures
        with_alternatives(v, op, inside, arcs, matches, types) == with_alternatives(
            v,
            op,
            inside,
            arcs,
            matches,
            types.push(more),
        ),
    decreases matches.len(),
{
    if matches.len() > 0 {
        alternatives_agree(v, op, inside, arcs, matches.drop_last(), types, more);
    }
}

impl<'b, 'p> BodyToPetriNet<'b, 'p> {
    /// Adds the operation on one of the resources that it may be on.
    fn add_alternative(
        &mut self,
        op_name: &str,
        order: AtomicOrdering,
        bb_idx: BasicBlock,
        target: Option<BasicBlock>,
        inside: PlaceId,
        arcs: &Vec<(PlaceId, bool)>,
        idx: usize,
        resource: PlaceId,
        transition_type: TransitionType,
    )
        requires
            old(self).wf(),
            target matches Some(t) ==> old(self)@.placed(t),
        ensures
            final(self).wf(),
            final(self).alike(old(self)),
            final(self)@ == with_alternative(
                old(self)@,
                (AtomicOp { op: op_name@, instance: old(self).instance_id, order, bb: bb_idx, target }),
                inside,
                arcs@,
                idx as nat,
                resource,
                transition_type@,
            ),
    {
        let name = "atomic_".to_owned().concat(index_text(self.instance_id).as_str()).concat(
            "_",
        ).concat(op_name).concat("_").concat(order.name_text()).concat("_").concat(
            index_text(bb_idx).as_str(),
        ).concat("_").concat(index_text(idx).as_str());
        let id = self.net.add_transition(PtTransition { name, transition_type });
        self.net.add_input_arc(inside, id, 1);
        self.net.add_input_arc(resource, id, 1);
        self.net.add_output_arc(resource, id, 1);
        add_arcs(self, arcs, id);
        if let Some(t) = target {
            self.net.add_output_arc(self.bb_graph.start(t), id, 1);
        }
    }

    /// Adds an atomic operation: a transition for each resource that it may be
    /// on, of the type that the builder gives. They share the arcs of the
    /// ordering, so that the operation moves its thread on once, whichever of
    /// them fires. Nothing is added where no resource matches or the ordering
    /// is not known.
    pub fn handle_atomic_basic_op<F: Fn(&AliasId, &AtomicOrdering, String) -> TransitionType>(
        &mut self,
        op_name: &str,
        current_id: AliasId,
        bb_end: TransitionId,
        target: &Option<BasicBlock>,
        bb_idx: &BasicBlock,
        span: &str,
        transition_builder: F,
    ) -> (r: bool)
        requires
            old(self).wf(),
            old(self).all_atomic_matches(current_id).len() > 0 && old(
                self,
            ).resources.atomic_orders@.contains_key(current_id) && old(
                self,
            ).resources.atomic_orders@[current_id] != AtomicOrdering::Relaxed ==> old(
                self,
            )@.seg.at(old(self).instance_id) < usize::MAX,
            old(self).all_atomic_matches(current_id).len() > 0 && old(
                self,
            ).resources.atomic_orders@.contains_key(current_id) ==> (target matches Some(t)
                ==> old(self)@.placed(*t)),
            forall|a: AliasId, o: AtomicOrdering, s: String| #[trigger]
                transition_builder.requires((&a, &o, s)),
        ensures
            final(self).wf(),
            final(self).alike(old(self)),
            r == (old(self).all_atomic_matches(current_id).len() > 0 && old(
                self,
            ).resources.atomic_orders@.contains_key(current_id)),
            !r ==> final(self)@ == old(self)@,
            r ==> exists|types: Seq<TransitionTypeView>| #[trigger]
                may_build_all(
                    transition_builder,
                    old(self).all_atomic_matches(current_id),
                    old(self).resources.atomic_orders@[current_id],
                    span@,
                    types,
                ) && final(self)@ == ({
                    let order = old(self).resources.atomic_orders@[current_id];
                    let v = with_inside(
                        old(self)@,
                        op_name@,
                        current_id.instance_id,
                        *bb_idx,
                        span@,
                        bb_end,
                    );
                    with_alternatives(
                        v.ordered(old(self).instance_id, order),
                        AtomicOp {
                            op: op_name@,
                            instance: old(self).instance_id,
                            order,
                            bb: *bb_idx,
                            target: *target,
                        },
                        old(self)@.next_place(),
                        v.order_arcs(old(self).instance_id, order),
                        old(self).all_atomic_matches(current_id),
                        types,
                    )
                }),
    {
        let matches = self.find_atomic_matches(&current_id);
        if matches.len() == 0 {
            return false;
        }
        let order = match self.resources.atomic_orders.get(&current_id) {
            Some(order) => *order,
            None => {
                return false;
            },
        };
        let tid = self.instance_id;
        let inside_name = "atomic_".to_owned().concat(op_name).concat("_in_").concat(
            index_text(current_id.instance_id).as_str(),
        ).concat("_").concat(index_text(*bb_idx).as_str());
        let inside = self.bb_place(inside_name, span.to_owned());
        self.net.add_output_arc(inside, bb_end, 1);
        let ghost v1 = self@;
        let arcs = self.ordering_seg_arcs(tid, order);
        let ghost v2 = self@;
        let ghost op = AtomicOp {
            op: op_name@,
            instance: self.instance_id,
            order,
            bb: *bb_idx,
            target: *target,
        };
        let ghost mut types: Seq<TransitionTypeView> = Seq::empty();
        let mut i: usize = 0;
        proof {
            assert(matches@.take(0) =~= Seq::<(AliasId, PlaceId)>::empty());
            ordered_keeps_blocks(v1, tid, order);
        }
        while i < matches.len()
            invariant
                i <= matches@.len(),
                self.wf(),
                self.alike(old(self)),
                forall|a: AliasId, o: AtomicOrdering, s: String| #[trigger]
                    transition_builder.requires((&a, &o, s)),
                target matches Some(t) ==> self@.placed(*t),
                op == (AtomicOp {
                    op: op_name@,
                    instance: self.instance_id,
                    order,
                    bb: *bb_idx,
                    target: *target,
                }),
                types.len() == i,
                forall|j: int|
                    0 <= j < i ==> may_build(
                        transition_builder,
                        (#[trigger] matches@[j]).0,
                        order,
                        span@,
                        types[j],
                    ),
                self@ == with_alternatives(
                    v2,
                    op,
                    inside,
                    arcs@,
                    matches@.take(i as int),
                    types,
                ),
            decreases matches@.len() - i,
        {
            let (alias, resource) = matches[i];
            let s = span.to_owned();
            let transition_type = transition_builder(&alias, &order, s);
            proof {
                assert(matches@.take(i + 1).drop_last() =~= matches@.take(i as int));
                assert(matches@.take(i + 1).last() == matches@[i as int]);
                alternatives_agree(
                    v2,
                    op,
                    inside,
                    arcs@,
                    matches@.take(i as int),
                    types,
                    transition_type@,
                );
                assert(may_build(transition_builder, alias, order, span@, transition_type@));
                types = types.push(transition_type@);
            }
            self.add_alternative(
                op_name,
                order,
                *bb_idx,
                *target,
                inside,
                &arcs,
                i,
                resource,
                transition_type,
            );
            i = i + 1;
        }
        proof {
            assert(matches@.take(i as int) =~= matches@);
            assert(may_build_all(transition_builder, matches@, order, span@, types));
        }
        true
    }
}

proof fn ordered_keeps_blocks(v: BodyView, tid: usize, order: AtomicOrdering)
    ensures
        v.ordered(tid, order).blocks == v.blocks,
{
}

proof fn alternatives_keep_segments(
    v: BodyView,
    op: AtomicOp,
    inside: PlaceId,
    arcs: Seq<(PlaceId, bool)>,
    matches: Seq<(AliasId, PlaceId)>,
    types: Seq<TransitionTypeView>,
)
    ensures
        with_alternatives(v, op, inside, arcs, matches, types).seg == v.seg,
    decreases matches.len(),
{
    if matches.len() > 0 {
        alternatives_keep_segments(v, op, inside, arcs, matches.drop_last(), types);
    }
}

/// One atomic operation moves its thread on by one segment, or by none if it is
/// relaxed, however many resources it may be on, and it moves no other thread.
pub proof fn operations_advance_once(
    v: BodyView,
    tid: usize,
    op: AtomicOp,
    inside: PlaceId,
    matches: Seq<(AliasId, PlaceId)>,
    types: Seq<TransitionTypeView>,
)
    requires
        op.order != AtomicOrdering::Relaxed ==> v.seg.at(tid) < usize::MAX,
    ensures
        ({
            let after = with_alternatives(
                v.ordered(tid, op.order),
                op,
                inside,
                v.order_arcs(tid, op.order),
                matches,
                types,
            );
            &&& after.seg.at(tid) == v.seg.at(tid) + (if op.order == AtomicOrdering::Relaxed {
                0int
            } else {
                1int
            })
            &&& forall|other: usize| other != tid ==> #[trigger] after.seg.at(other) == v.seg.at(
                other,
            )
        }),
{
    alternatives_keep_segments(
        v.ordered(tid, op.order),
        op,
        inside,
        v.order_arcs(tid, op.order),
        matches,
        types,
    );
}

/// All sequentially consistent operations, of whatever threads and with
/// whatever operations in between, take and give the token of one place: they
/// come one at a time.
pub proof fn seqcst_operations_share_a_place(
    v: BodyView,
    a: usize,
    between: Seq<(usize, AtomicOrdering)>,
    b: usize,
)
    ensures
        ({
            let first = v.order_arcs(a, AtomicOrdering::SeqCst);
            let second = after_operations(
                v.ordered(a, AtomicOrdering::SeqCst),
                between,
            ).order_arcs(b, AtomicOrdering::SeqCst);
            &&& first[2] == second[2]
            &&& first[3] == second[3]
            &&& first[2].0 == first[3].0
            &&& first[2].1
            &&& !first[3].1
        }),
{
    seqcst_place_stays(v.ordered(a, AtomicOrdering::SeqCst), between);
}

/// Each segment has a place of its own: asked for again, a segment has the place
/// that it had, and nothing is added; another segment, of the same thread or of
/// another, has another place.
pub proof fn segments_have_their_own_places(v: BodyView, a: (usize, usize), b: (usize, usize))
    requires
        v.segments_placed(),
        v.net.places.len() + 1 < usize::MAX,
    ensures
        v.with_segment(a.0, a.1).segments_placed(),
        v.with_segment(a.0, a.1).segment_id(a.0, a.1) == v.segment_id(a.0, a.1),
        v.with_segment(a.0, a.1).with_segment(a.0, a.1) == v.with_segment(a.0, a.1),
        v.with_segment(a.0, a.1).with_segment(b.0, b.1).segment_id(a.0, a.1) == v.segment_id(
            a.0,
            a.1,
        ),
        a != b ==> v.with_segment(a.0, a.1).segment_id(b.0, b.1) != v.segment_id(a.0, a.1),
{
}

/// The other translation has come as far with the thread: it is in the same
/// segment, and every segment that had a place has it still.
pub open spec fn keeps_thread(v: BodyView, w: BodyView, tid: usize) -> bool {
    &&& w.seg.at(tid) == v.seg.at(tid)
    &&& forall|k: (usize, usize)| #[trigger]
        v.seg.places.contains_key(k) ==> w.seg.places.contains_key(k) && w.seg.places[k]
            == v.seg.places[k]
}

/// The translation after operations of threads, first to last.
pub open spec fn after_operations(v: BodyView, operations: Seq<(usize, AtomicOrdering)>) -> BodyView
    decreases operations.len(),
{
    if operations.len() == 0 {
        v
    } else {
        after_operations(v, operations.drop_last()).ordered(
            operations.last().0,
            operations.last().1,
        )
    }
}

/// Operations of other threads leave a thread where it is.
pub proof fn other_threads_do_not_interfere(
    v: BodyView,
    operations: Seq<(usize, AtomicOrdering)>,
    tid: usize,
)
    requires
        forall|i: int| 0 <= i < operations.len() ==> (#[trigger] operations[i]).0 != tid,
    ensures
        keeps_thread(v, after_operations(v, operations), tid),
    decreases operations.len(),
{
    if operations.len() > 0 {
        let front = operations.drop_last();
        assert forall|i: int| 0 <= i < front.len() implies (#[trigger] front[i]).0 != tid by {
            assert(front[i] == operations[i]);
        }
        assert(operations[operations.len() - 1].0 != tid);
        other_threads_do_not_interfere(v, front, tid);
        let m = after_operations(v, front);
        assert(keeps_thread(m, m.ordered(operations.last().0, operations.last().1), tid));
    }
}

/// Each operation of a thread takes the token of its segment from the place
/// where the last one left it, whatever other threads do in between.
pub proof fn segment_token_is_handed_on(
    v: BodyView,
    tid: usize,
    first: AtomicOrdering,
    between: Seq<(usize, AtomicOrdering)>,
    second: AtomicOrdering,
)
    requires
        first != AtomicOrdering::Relaxed ==> v.seg.at(tid) < usize::MAX,
        forall|i: int| 0 <= i < between.len() ==> (#[trigger] between[i]).0 != tid,
    ensures
        after_operations(v.ordered(tid, first), between).order_arcs(tid, second)[0] == (
            v.order_arcs(tid, first)[1].0,
            true,
        ),
        !v.order_arcs(tid, first)[1].1,
{
    let left = v.ordered(tid, first);
    other_threads_do_not_interfere(left, between, tid);
    segment_token_stays(v, tid, first, after_operations(left, between), second);
}

/// Each operation of a thread takes the token of its segment from the place
/// where the last one left it, as long as what was recorded of the thread stays.
pub proof fn segment_token_stays(
    v: BodyView,
    tid: usize,
    first: AtomicOrdering,
    w: BodyView,
    second: AtomicOrdering,
)
    requires
        first != AtomicOrdering::Relaxed ==> v.seg.at(tid) < usize::MAX,
        keeps_thread(v.ordered(tid, first), w, tid),
    ensures
        w.order_arcs(tid, second)[0] == (v.order_arcs(tid, first)[1].0, true),
{
    let left = v.ordered(tid, first);
    let k = (tid, left.seg.at(tid));
    assert(left.seg.places.contains_key(k));
    assert(left.seg.places[k] == v.order_arcs(tid, first)[1].0);
}

/// How many of the arcs take a token.
pub open spec fn taking(arcs: Seq<(PlaceId, bool)>) -> nat
    decreases arcs.len(),
{
    if arcs.len() == 0 {
        0
    } else {
        taking(arcs.drop_last()) + (if arcs.last().1 {
            1nat
        } else {
            0nat
        })
    }
}

/// An operation gives as many tokens for its ordering as it takes.
pub proof fn orderings_are_balanced(v: BodyView, tid: usize, order: AtomicOrdering)
    ensures
        2 * taking(v.order_arcs(tid, order)) == v.order_arcs(tid, order).len(),
{
    reveal_with_fuel(taking, 5);
}

/// The place that serializes is the same after whatever operations.
pub proof fn seqcst_place_stays(v: BodyView, operations: Seq<(usize, AtomicOrdering)>)
    requires
        v.seg.seqcst is Some,
    ensures
        after_operations(v, operations).seg.seqcst == v.seg.seqcst,
    decreases operations.len(),
{
    if operations.len() > 0 {
        seqcst_place_stays(v, operations.drop_last());
    }
}

/// No place is matched twice.
pub open spec fn distinct_places(matches: Seq<(AliasId, PlaceId)>) -> bool {
    forall|i: int, j: int|
        0 <= i < j < matches.len() ==> (#[trigger] matches[i]).1 != (#[trigger] matches[j]).1
}

proof fn matches_grow(
    matches: Seq<(AliasId, PlaceId)>,
    alias: AliasId,
    places: Seq<PlaceId>,
    n: nat,
)
    requires
        n <= places.len(),
        distinct_places(matches),
    ensures
        ({
            let r = with_matches(matches, alias, places, n);
            &&& distinct_places(r)
            &&& forall|p: PlaceId| #[trigger] place_matched(matches, p) ==> place_matched(r, p)
            &&& forall|k: int| 0 <= k < n ==> place_matched(r, #[trigger] places[k])
            &&& forall|i: int|
                0 <= i < r.len() ==> matches.contains(#[trigger] r[i]) || (r[i].0 == alias
                    && places.contains(r[i].1))
        }),
    decreases n,
{
    let r = with_matches(matches, alias, places, n);
    if n > 0 {
        let before = with_matches(matches, alias, places, (n - 1) as nat);
        let place = places[n - 1];
        matches_grow(matches, alias, places, (n - 1) as nat);
        if !place_matched(before, place) {
            assert(r == before.push((alias, place)));
            assert forall|p: PlaceId| place_matched(before, p) implies #[trigger] place_matched(
                r,
                p,
            ) by {
                let i = choose|i: int| 0 <= i < before.len() && (#[trigger] before[i]).1 == p;
                assert(r[i].1 == p);
            }
            assert(r[before.len() as int].1 == place);
            assert(places.contains(place));
            assert forall|i: int, j: int| 0 <= i < j < r.len() implies (#[trigger] r[i]).1 != (
            #[trigger] r[j]).1 by {
                assert(r[i] == before[i]);
                if j < before.len() {
                    assert(r[j] == before[j]);
                }
            }
            assert forall|i: int| 0 <= i < r.len() implies matches.contains(#[trigger] r[i]) || (
            r[i].0 == alias && places.contains(r[i].1)) by {
                if i < before.len() {
                    assert(r[i] == before[i]);
                }
            }
        }
        assert forall|k: int| 0 <= k < n implies place_matched(r, #[trigger] places[k]) by {
            if k < n - 1 {
                assert(place_matched(before, places[k]));
            }
        }
    } else {
        assert forall|i: int| 0 <= i < r.len() implies matches.contains(#[trigger] r[i]) by {
            assert(matches[i] == r[i]);
        }
    }
}

/// An operation is matched with every place of every atomic that it may be on,
/// with no atomic that it cannot be on, and with no place twice.
pub proof fn every_alias_is_matched<'b, 'p>(body: BodyToPetriNet<'b, 'p>, current: AliasId, n: nat)
    requires
        n <= body.resources.atomic_places.entries@.len(),
    ensures
        ({
            let entries = body.resources.atomic_places.entries@;
            let r = body.atomic_matches(current, n);
            &&& distinct_places(r)
            &&& forall|e: int, k: int|
                0 <= e < n && 0 <= k < entries[e].1@.len() && body.alias.atomic_kind(
                    current,
                    entries[e].0,
                ).adds_arcs(body.alias_unknown_policy) ==> place_matched(
                    r,
                    #[trigger] entries[e].1@[k],
                )
            &&& forall|i: int|
                0 <= i < r.len() ==> body.alias.atomic_kind(
                    current,
                    (#[trigger] r[i]).0,
                ).adds_arcs(body.alias_unknown_policy)
        }),
    decreases n,
{
    if n > 0 {
        let m = (n - 1) as nat;
        let entries = body.resources.atomic_places.entries@;
        let before = body.atomic_matches(current, m);
        let r = body.atomic_matches(current, n);
        let (alias, places) = entries[m as int];
        every_alias_is_matched(body, current, m);
        matches_grow(before, alias, places@, places@.len());
        assert forall|e: int, k: int|
            0 <= e < n && 0 <= k < entries[e].1@.len() && body.alias.atomic_kind(
                current,
                entries[e].0,
            ).adds_arcs(body.alias_unknown_policy) implies place_matched(
            r,
            #[trigger] entries[e].1@[k],
        ) by {
            if e < m {
                assert(place_matched(before, entries[e].1@[k]));
            } else {
                assert(place_matched(r, places@[k]));
            }
        }
        assert forall|i: int| 0 <= i < r.len() implies body.alias.atomic_kind(
            current,
            (#[trigger] r[i]).0,
        ).adds_arcs(body.alias_unknown_policy) by {
            if before.contains(r[i]) {
                let j = choose|j: int| 0 <= j < before.len() && before[j] == r[i];
                assert(body.alias.atomic_kind(current, before[j].0).adds_arcs(
                    body.alias_unknown_policy,
                ));
            }
        }
    }
}

} // verus!

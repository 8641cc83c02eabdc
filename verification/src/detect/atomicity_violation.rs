//! Atomicity violations.
//!
//! The witness search for the three interleaving patterns runs over the shared
//! state graph. Memory orderings are enforced by the ordering-segment places of
//! the net, so the search matches operation kinds, threads and locations only.

use crate::concurrency::atomic::AtomicOrdering;
use crate::memory::pointsto::AliasId;
use crate::net::state_graph::{StateEdge, StateGraph};
use crate::net::structure::{TransitionId, TransitionType, TransitionTypeView};
use crate::report::{
    operation_views, violation_views, AtomicOperation, AtomicOperationView, AtomicReport,
    ViolationPattern, ViolationView,
};
use crate::text::{decimal, index_text};
use vstd::prelude::*;

verus! {

/// The number of search states after which the search stops.
pub const DEFAULT_MAX_STATES: usize = 200_000;

/// The length of the longest path that is searched.
pub const DEFAULT_MAX_DEPTH: usize = 10_000;

/// What an atomic event does.
#[derive(Debug, Clone, Copy, PartialEq, Eq, Structural)]
pub enum EvKind {
    Load,
    Store,
}

/// An atomic event.
#[derive(Debug)]
pub struct Ev {
    pub tid: usize,
    pub alias: AliasId,
    pub kind: EvKind,
    pub ord: AtomicOrdering,
    pub span: String,
}

/// An atomic event with its span as characters.
pub struct EvView {
    pub tid: usize,
    pub alias: AliasId,
    pub kind: EvKind,
    pub ord: AtomicOrdering,
    pub span: Seq<char>,
}

impl View for Ev {
    type V = EvView;

    open spec fn view(&self) -> EvView {
        EvView {
            tid: self.tid,
            alias: self.alias,
            kind: self.kind,
            ord: self.ord,
            span: self.span@,
        }
    }
}

impl Clone for Ev {
    fn clone(&self) -> (r: Self)
        ensures
            r == *self,
    {
        Ev {
            tid: self.tid,
            alias: self.alias,
            kind: self.kind,
            ord: self.ord,
            span: self.span.clone(),
        }
    }
}

/// The view of an optional event.
pub open spec fn ev_view(ev: Option<Ev>) -> Option<EvView> {
    match ev {
        Some(e) => Some(e@),
        None => None,
    }
}

/// The atomic event that a transition is. An exchange counts as a store with
/// its ordering on success.
pub open spec fn event_of(transition_type: TransitionTypeView) -> Option<EvView> {
    match transition_type {
        TransitionTypeView::AtomicLoad(alias, ord, span, tid) => Some(
            EvView { tid, alias, kind: EvKind::Load, ord, span },
        ),
        TransitionTypeView::AtomicStore(alias, ord, span, tid) => Some(
            EvView { tid, alias, kind: EvKind::Store, ord, span },
        ),
        TransitionTypeView::AtomicCmpXchg(alias, success, _, span, tid) => Some(
            EvView { tid, alias, kind: EvKind::Store, ord: success, span },
        ),
        _ => None,
    }
}

/// The atomic event that a transition is.
pub fn parse_event(transition_type: &TransitionType) -> (r: Option<Ev>)
    ensures
        ev_view(r) == event_of(transition_type@),
{
    match transition_type {
        TransitionType::AtomicLoad(alias, order, span, tid) => Some(
            Ev {
                tid: *tid,
                alias: *alias,
                kind: EvKind::Load,
                ord: *order,
                span: span.clone(),
            },
        ),
        TransitionType::AtomicStore(alias, order, span, tid) => Some(
            Ev {
                tid: *tid,
                alias: *alias,
                kind: EvKind::Store,
                ord: *order,
                span: span.clone(),
            },
        ),
        TransitionType::AtomicCmpXchg(alias, success, _failure, span, tid) => Some(
            Ev {
                tid: *tid,
                alias: *alias,
                kind: EvKind::Store,
                ord: *success,
                span: span.clone(),
            },
        ),
        _ => None,
    }
}

/// An interleaving pattern: a start and an end by one thread, with an event of
/// another thread in the middle.
#[derive(Debug, Clone, Copy, PartialEq, Eq, Structural)]
pub struct Rule {
    pub id: usize,
    pub start: EvKind,
    pub mid: EvKind,
    pub end: EvKind,
}

/// The number of patterns.
pub const RULE_COUNT: usize = 3;

/// The patterns: load, remote store, store; store, remote store, load; load,
/// remote store, load.
pub open spec fn rule_at(id: int) -> Rule {
    if id == 0 {
        Rule { id: 0, start: EvKind::Load, mid: EvKind::Store, end: EvKind::Store }
    } else if id == 1 {
        Rule { id: 1, start: EvKind::Store, mid: EvKind::Store, end: EvKind::Load }
    } else {
        Rule { id: 2, start: EvKind::Load, mid: EvKind::Store, end: EvKind::Load }
    }
}

/// The pattern with the given number.
fn rule(id: usize) -> (r: Rule)
    requires
        id < RULE_COUNT,
    ensures
        r == rule_at(id as int),
{
    if id == 0 {
        Rule { id: 0, start: EvKind::Load, mid: EvKind::Store, end: EvKind::Store }
    } else if id == 1 {
        Rule { id: 1, start: EvKind::Store, mid: EvKind::Store, end: EvKind::Load }
    } else {
        Rule { id: 2, start: EvKind::Load, mid: EvKind::Store, end: EvKind::Load }
    }
}

/// Which pattern a witness shows.
#[derive(Debug, Clone, Copy, PartialEq, Eq, Structural)]
pub enum WitnessKind {
    Av1,
    Av2,
    Av3,
}

/// The kind of the witnesses of a pattern.
pub open spec fn kind_of_rule(id: int) -> WitnessKind {
    if id == 0 {
        WitnessKind::Av1
    } else if id == 1 {
        WitnessKind::Av2
    } else {
        WitnessKind::Av3
    }
}

/// Three events that show a pattern.
#[derive(Debug)]
pub struct Witness {
    pub kind: WitnessKind,
    pub start: Ev,
    pub mid: Ev,
    pub end: Ev,
}

/// A witness with its texts as characters.
pub struct WitnessView {
    pub kind: WitnessKind,
    pub start: EvView,
    pub mid: EvView,
    pub end: EvView,
}

impl View for Witness {
    type V = WitnessView;

    open spec fn view(&self) -> WitnessView {
        WitnessView { kind: self.kind, start: self.start@, mid: self.mid@, end: self.end@ }
    }
}

/// The witnesses with their texts as characters.
pub open spec fn witness_views(witnesses: Seq<Witness>) -> Seq<WitnessView> {
    witnesses.map_values(|w: Witness| w@)
}

/// What locations are told apart by: the instance and the local.
#[derive(Debug, Clone, Copy, PartialEq, Eq, Structural)]
pub struct AliasKey {
    pub instance: usize,
    pub local: usize,
}

/// The key of a location.
pub open spec fn alias_key(alias: AliasId) -> AliasKey {
    AliasKey { instance: alias.instance_id, local: alias.local }
}

impl AliasKey {
    /// The key of a location.
    pub fn new(alias: AliasId) -> (r: Self)
        ensures
            r == alias_key(alias),
    {
        AliasKey { instance: alias.instance_id, local: alias.local }
    }
}

/// The latest start of a pattern by a thread on a location.
#[derive(Debug, Clone, Copy, PartialEq, Eq, Structural)]
pub struct StartEntry {
    pub key: AliasKey,
    pub tid: usize,
    /// The position in the trace.
    pub at: usize,
}

/// The latest remote event by the thread `by` since the start of the thread
/// `tid`.
#[derive(Debug, Clone, Copy, PartialEq, Eq, Structural)]
pub struct MidEntry {
    pub key: AliasKey,
    pub tid: usize,
    pub by: usize,
    /// The position in the trace.
    pub at: usize,
}

/// The order of keys, by instance and then by local.
pub open spec fn key_before(a: AliasKey, b: AliasKey) -> bool {
    a.instance < b.instance || (a.instance == b.instance && a.local < b.local)
}

/// The order of starts, by location and then by thread.
pub open spec fn start_before(a: StartEntry, b: StartEntry) -> bool {
    key_before(a.key, b.key) || (a.key == b.key && a.tid < b.tid)
}

/// The order of remote events, by location, thread and remote thread.
pub open spec fn mid_before(a: MidEntry, b: MidEntry) -> bool {
    key_before(a.key, b.key) || (a.key == b.key && (a.tid < b.tid || (a.tid == b.tid && a.by
        < b.by)))
}

/// Two starts are of one thread on one location.
pub open spec fn same_start(a: StartEntry, b: StartEntry) -> bool {
    a.key == b.key && a.tid == b.tid
}

/// Two remote events are of one pair of threads on one location.
pub open spec fn same_mid(a: MidEntry, b: MidEntry) -> bool {
    a.key == b.key && a.tid == b.tid && a.by == b.by
}

/// The starts with `e` in its place among them, instead of an earlier one of
/// the same thread and location.
pub open spec fn with_start(s: Seq<StartEntry>, e: StartEntry) -> Seq<StartEntry>
    decreases s.len(),
{
    if s.len() == 0 {
        seq![e]
    } else if same_start(s[0], e) {
        seq![e] + s.drop_first()
    } else if start_before(e, s[0]) {
        seq![e] + s
    } else {
        seq![s[0]] + with_start(s.drop_first(), e)
    }
}

/// The remote events with `e` in its place among them, instead of an earlier
/// one of the same threads and location.
pub open spec fn with_mid(s: Seq<MidEntry>, e: MidEntry) -> Seq<MidEntry>
    decreases s.len(),
{
    if s.len() == 0 {
        seq![e]
    } else if same_mid(s[0], e) {
        seq![e] + s.drop_first()
    } else if mid_before(e, s[0]) {
        seq![e] + s
    } else {
        seq![s[0]] + with_mid(s.drop_first(), e)
    }
}

/// The position of the latest start of a thread on a location.
pub open spec fn start_of(s: Seq<StartEntry>, key: AliasKey, tid: usize) -> Option<usize>
    decreases s.len(),
{
    if s.len() == 0 {
        None
    } else if s[0].key == key && s[0].tid == tid {
        Some(s[0].at)
    } else {
        start_of(s.drop_first(), key, tid)
    }
}

/// How far a pattern has come on a trace: the starts and the remote events, in
/// ascending order.
pub struct PatternState {
    pub last_start: Vec<StartEntry>,
    pub saw_mid_after_start: Vec<MidEntry>,
}

/// How far a pattern has come on a trace.
#[verifier::ext_equal]
pub struct PatternView {
    pub starts: Seq<StartEntry>,
    pub mids: Seq<MidEntry>,
}

impl View for PatternState {
    type V = PatternView;

    open spec fn view(&self) -> PatternView {
        PatternView { starts: self.last_start@, mids: self.saw_mid_after_start@ }
    }
}

impl PatternState {
    /// Nothing seen yet.
    fn new() -> (r: Self)
        ensures
            r@ == (PatternView { starts: Seq::empty(), mids: Seq::empty() }),
    {
        PatternState { last_start: Vec::new(), saw_mid_after_start: Vec::new() }
    }

    /// A copy.
    fn duplicate(&self) -> (r: Self)
        ensures
            r@ == self@,
    {
        let mut last_start: Vec<StartEntry> = Vec::new();
        let mut i: usize = 0;
        while i < self.last_start.len()
            invariant
                i <= self.last_start@.len(),
                last_start@ == self.last_start@.take(i as int),
            decreases self.last_start@.len() - i,
        {
            last_start.push(self.last_start[i]);
            i = i + 1;
            proof {
                assert(last_start@ =~= self.last_start@.take(i as int));
            }
        }
        let mut saw: Vec<MidEntry> = Vec::new();
        let mut j: usize = 0;
        while j < self.saw_mid_after_start.len()
            invariant
                j <= self.saw_mid_after_start@.len(),
                saw@ == self.saw_mid_after_start@.take(j as int),
            decreases self.saw_mid_after_start@.len() - j,
        {
            saw.push(self.saw_mid_after_start[j]);
            j = j + 1;
            proof {
                assert(saw@ =~= self.saw_mid_after_start@.take(j as int));
            }
        }
        proof {
            assert(last_start@ =~= self.last_start@);
            assert(saw@ =~= self.saw_mid_after_start@);
        }
        PatternState { last_start, saw_mid_after_start: saw }
    }
}

/// Puts a start in its place.
fn put_start(v: &mut Vec<StartEntry>, e: StartEntry)
    ensures
        final(v)@ == with_start(old(v)@, e),
{
    let ghost s = v@;
    let mut i: usize = 0;
    proof {
        assert(s.take(0) + with_start(s.skip(0), e) =~= with_start(s.skip(0), e));
        assert(s.skip(0) =~= s);
    }
    while i < v.len()
        invariant
            i <= v@.len(),
            v@ == s,
            s == old(v)@,
            with_start(s, e) == s.take(i as int) + with_start(s.skip(i as int), e),
        decreases v@.len() - i,
    {
        let x = v[i];
        proof {
            assert(s.skip(i as int)[0] == x);
            assert(s.skip(i as int).drop_first() =~= s.skip(i + 1));
        }
        if x.key == e.key && x.tid == e.tid {
            v.set(i, e);
            proof {
                assert(v@ =~= s.take(i as int) + (seq![e] + s.skip(i + 1)));
            }
            return;
        }
        if e.key.instance < x.key.instance || (e.key.instance == x.key.instance && (e.key.local
            < x.key.local || (e.key.local == x.key.local && e.tid < x.tid))) {
            v.insert(i, e);
            proof {
                assert(v@ =~= s.take(i as int) + (seq![e] + s.skip(i as int)));
            }
            return;
        }
        proof {
            assert(s.take(i as int) + (seq![x] + with_start(s.skip(i + 1), e)) =~= s.take(i + 1)
                + with_start(s.skip(i + 1), e));
        }
        i = i + 1;
    }
    v.push(e);
    proof {
        assert(s.skip(i as int).len() == 0);
        assert(v@ =~= s.take(i as int) + seq![e]);
    }
}

/// Puts a remote event in its place.
fn put_mid(v: &mut Vec<MidEntry>, e: MidEntry)
    ensures
        final(v)@ == with_mid(old(v)@, e),
{
    let ghost s = v@;
    let mut i: usize = 0;
    proof {
        assert(s.take(0) + with_mid(s.skip(0), e) =~= with_mid(s.skip(0), e));
        assert(s.skip(0) =~= s);
    }
    while i < v.len()
        invariant
            i <= v@.len(),
            v@ == s,
            s == old(v)@,
            with_mid(s, e) == s.take(i as int) + with_mid(s.skip(i as int), e),
        decreases v@.len() - i,
    {
        let x = v[i];
        proof {
            assert(s.skip(i as int)[0] == x);
            assert(s.skip(i as int).drop_first() =~= s.skip(i + 1));
        }
        if x.key == e.key && x.tid == e.tid && x.by == e.by {
            v.set(i, e);
            proof {
                assert(v@ =~= s.take(i as int) + (seq![e] + s.skip(i + 1)));
            }
            return;
        }
        if e.key.instance < x.key.instance || (e.key.instance == x.key.instance && (e.key.local
            < x.key.local || (e.key.local == x.key.local && (e.tid < x.tid || (e.tid == x.tid
            && e.by < x.by))))) {
            v.insert(i, e);
            proof {
                assert(v@ =~= s.take(i as int) + (seq![e] + s.skip(i as int)));
            }
            return;
        }
        proof {
            assert(s.take(i as int) + (seq![x] + with_mid(s.skip(i + 1), e)) =~= s.take(i + 1)
                + with_mid(s.skip(i + 1), e));
        }
        i = i + 1;
    }
    v.push(e);
    proof {
        assert(s.skip(i as int).len() == 0);
        assert(v@ =~= s.take(i as int) + seq![e]);
    }
}

/// The position of the latest start of a thread on a location.
fn find_start(v: &Vec<StartEntry>, key: AliasKey, tid: usize) -> (r: Option<usize>)
    ensures
        r == start_of(v@, key, tid),
{
    let mut i: usize = 0;
    proof {
        assert(v@.skip(0) =~= v@);
    }
    while i < v.len()
        invariant
            i <= v@.len(),
            start_of(v@, key, tid) == start_of(v@.skip(i as int), key, tid),
        decreases v@.len() - i,
    {
        proof {
            assert(v@.skip(i as int)[0] == v@[i as int]);
            assert(v@.skip(i as int).drop_first() =~= v@.skip(i + 1));
        }
        if v[i].key == key && v[i].tid == tid {
            return Some(v[i].at);
        }
        i = i + 1;
    }
    None
}

/// One path of the search: the state it has reached, the transitions fired, the
/// events they were, and how far each pattern has come.
pub struct Frame {
    pub node: usize,
    pub trace: Vec<TransitionId>,
    pub events: Vec<Option<Ev>>,
    pub pattern_states: Vec<PatternState>,
}

/// One path of the search.
#[verifier::ext_equal]
pub struct FrameView {
    pub node: usize,
    pub trace: Seq<TransitionId>,
    pub events: Seq<Option<EvView>>,
    pub states: Seq<PatternView>,
}

/// The events of a path.
pub open spec fn event_views(events: Seq<Option<Ev>>) -> Seq<Option<EvView>> {
    events.map_values(|e: Option<Ev>| ev_view(e))
}

/// How far the patterns have come.
pub open spec fn pattern_views(states: Seq<PatternState>) -> Seq<PatternView> {
    states.map_values(|p: PatternState| p@)
}

impl View for Frame {
    type V = FrameView;

    open spec fn view(&self) -> FrameView {
        FrameView {
            node: self.node,
            trace: self.trace@,
            events: event_views(self.events@),
            states: pattern_views(self.pattern_states@),
        }
    }
}

/// The recorded positions are positions of events.
pub open spec fn positions_ok(p: PatternView, events: Seq<Option<EvView>>) -> bool {
    &&& forall|j: int|
        0 <= j < p.starts.len() ==> (#[trigger] p.starts[j]).at < events.len()
            && events[p.starts[j].at as int] is Some
    &&& forall|j: int|
        0 <= j < p.mids.len() ==> (#[trigger] p.mids[j]).at < events.len()
            && events[p.mids[j].at as int] is Some
}

impl FrameView {
    /// Every transition has its entry among the events, every pattern its
    /// progress, and what is recorded are positions of events.
    pub open spec fn wf(self) -> bool {
        &&& self.events.len() == self.trace.len()
        &&& self.states.len() == RULE_COUNT
        &&& forall|r: int|
            0 <= r < RULE_COUNT ==> positions_ok(#[trigger] self.states[r], self.events)
    }
}

/// The path that has not left its first state.
pub open spec fn start_frame(node: usize) -> FrameView {
    FrameView {
        node,
        trace: Seq::empty(),
        events: Seq::empty(),
        states: Seq::new(
            RULE_COUNT as nat,
            |r: int| PatternView { starts: Seq::empty(), mids: Seq::empty() },
        ),
    }
}

impl Frame {
    /// The path that has not left its first state.
    fn new(node: usize) -> (r: Self)
        ensures
            r@ == start_frame(node),
            r@.wf(),
    {
        let mut pattern_states: Vec<PatternState> = Vec::new();
        let mut i: usize = 0;
        while i < RULE_COUNT
            invariant
                i <= RULE_COUNT,
                pattern_states@.len() == i,
                forall|r: int|
                    0 <= r < i ==> (#[trigger] pattern_states@[r])@ == (PatternView {
                        starts: Seq::empty(),
                        mids: Seq::empty(),
                    }),
            decreases RULE_COUNT - i,
        {
            pattern_states.push(PatternState::new());
            i = i + 1;
        }
        let f = Frame { node, trace: Vec::new(), events: Vec::new(), pattern_states };
        proof {
            assert(f@.states =~= start_frame(node).states);
            assert(f@.events =~= start_frame(node).events);
            assert(f@.trace =~= start_frame(node).trace);
            assert forall|r: int| 0 <= r < RULE_COUNT implies positions_ok(
                #[trigger] f@.states[r],
                f@.events,
            ) by {
                assert(start_frame(node).states[r].starts.len() == 0);
            }
        }
        f
    }

    /// A copy.
    fn duplicate(&self) -> (r: Self)
        ensures
            r@ == self@,
    {
        let mut trace: Vec<TransitionId> = Vec::new();
        let mut i: usize = 0;
        while i < self.trace.len()
            invariant
                i <= self.trace@.len(),
                trace@ == self.trace@.take(i as int),
            decreases self.trace@.len() - i,
        {
            trace.push(self.trace[i]);
            i = i + 1;
            proof {
                assert(trace@ =~= self.trace@.take(i as int));
            }
        }
        let mut events: Vec<Option<Ev>> = Vec::new();
        let mut j: usize = 0;
        while j < self.events.len()
            invariant
                j <= self.events@.len(),
                events@ == self.events@.take(j as int),
            decreases self.events@.len() - j,
        {
            let e = match &self.events[j] {
                Some(e) => Some(e.clone()),
                None => None,
            };
            events.push(e);
            j = j + 1;
            proof {
                assert(events@ =~= self.events@.take(j as int));
            }
        }
        let mut pattern_states: Vec<PatternState> = Vec::new();
        let mut k: usize = 0;
        while k < self.pattern_states.len()
            invariant
                k <= self.pattern_states@.len(),
                pattern_states@.len() == k,
                forall|r: int|
                    0 <= r < k ==> (#[trigger] pattern_states@[r])@ == self.pattern_states@[r]@,
            decreases self.pattern_states@.len() - k,
        {
            pattern_states.push(self.pattern_states[k].duplicate());
            k = k + 1;
        }
        let f = Frame { node: self.node, trace, events, pattern_states };
        proof {
            assert(f.trace@ =~= self.trace@);
            assert(f.events@ =~= self.events@);
            assert(f@.states =~= self@.states);
        }
        f
    }
}

/// The witnesses found, and the triples of transitions that they stand for.
#[verifier::ext_equal]
pub struct Found {
    pub witnesses: Seq<WitnessView>,
    pub seen: Seq<(usize, TransitionId, TransitionId, TransitionId)>,
}

/// Whether the remote event lies between the start of the thread and now.
pub open spec fn completes(m: MidEntry, key: AliasKey, tid: usize, start: usize, now: usize) -> bool {
    m.key == key && m.tid == tid && start < m.at && m.at < now
}

/// What is found once the end `ev` is seen after the start at `start` and the
/// remote event at `mid`: each triple of transitions counts once.
pub open spec fn noted(
    f: FrameView,
    rule: Rule,
    start: usize,
    mid: usize,
    ev: EvView,
    found: Found,
) -> Found {
    let triple = (
        rule.id,
        f.trace[start as int],
        f.trace[mid as int],
        f.trace.last(),
    );
    if found.seen.contains(triple) {
        found
    } else {
        Found {
            witnesses: found.witnesses.push(
                WitnessView {
                    kind: kind_of_rule(rule.id as int),
                    start: f.events[start as int]->0,
                    mid: f.events[mid as int]->0,
                    end: ev,
                },
            ),
            seen: found.seen.push(triple),
        }
    }
}

/// What is found after all remote events have been held against the end `ev`.
pub open spec fn all_noted(
    f: FrameView,
    rule: Rule,
    mids: Seq<MidEntry>,
    start: usize,
    ev: EvView,
    now: usize,
    found: Found,
) -> Found
    decreases mids.len(),
{
    if mids.len() == 0 {
        found
    } else {
        let before = all_noted(f, rule, mids.drop_last(), start, ev, now, found);
        if completes(mids.last(), alias_key(ev.alias), ev.tid, start, now) {
            noted(f, rule, start, mids.last().at, ev, before)
        } else {
            before
        }
    }
}

/// The remote events that the end did not complete.
pub open spec fn still_open(
    mids: Seq<MidEntry>,
    key: AliasKey,
    tid: usize,
    start: usize,
    now: usize,
) -> Seq<MidEntry> {
    mids.filter(|m: MidEntry| !completes(m, key, tid, start, now))
}

/// The remote events without those since a start of the thread.
pub open spec fn without_thread(mids: Seq<MidEntry>, key: AliasKey, tid: usize) -> Seq<MidEntry> {
    mids.filter(|m: MidEntry| !(m.key == key && m.tid == tid))
}

/// The remote events once the thread `by` has done one on the location: it is
/// remote to every other thread with a start there.
pub open spec fn with_remote(
    starts: Seq<StartEntry>,
    mids: Seq<MidEntry>,
    key: AliasKey,
    by: usize,
    at: usize,
) -> Seq<MidEntry>
    decreases starts.len(),
{
    if starts.len() == 0 {
        mids
    } else {
        let before = with_remote(starts.drop_last(), mids, key, by, at);
        if starts.last().key == key && starts.last().tid != by {
            with_mid(before, MidEntry { key, tid: starts.last().tid, by, at })
        } else {
            before
        }
    }
}

/// The position of the last transition of a path.
pub open spec fn position(f: FrameView) -> usize {
    if f.trace.len() == 0 {
        0
    } else {
        (f.trace.len() - 1) as usize
    }
}

/// The remote events after the event `ev` as an end.
pub open spec fn mids_after_end(f: FrameView, rule: Rule, ev: EvView) -> Seq<MidEntry> {
    let p = f.states[rule.id as int];
    let key = alias_key(ev.alias);
    match start_of(p.starts, key, ev.tid) {
        Some(start) if ev.kind == rule.end => still_open(
            p.mids,
            key,
            ev.tid,
            start,
            position(f),
        ),
        _ => p.mids,
    }
}

/// What is found after the event `ev` as an end.
pub open spec fn found_after_end(f: FrameView, rule: Rule, ev: EvView, found: Found) -> Found {
    let p = f.states[rule.id as int];
    match start_of(p.starts, alias_key(ev.alias), ev.tid) {
        Some(start) if ev.kind == rule.end => all_noted(
            f,
            rule,
            p.mids,
            start,
            ev,
            position(f),
            found,
        ),
        _ => found,
    }
}

/// How far a pattern has come after the event `ev`: first it may be an end,
/// then a remote event, then a start.
pub open spec fn pattern_after(f: FrameView, rule: Rule, ev: EvView) -> PatternView {
    let p = f.states[rule.id as int];
    let key = alias_key(ev.alias);
    let ended = mids_after_end(f, rule, ev);
    let seen = if ev.kind == rule.mid {
        with_remote(p.starts, ended, key, ev.tid, position(f))
    } else {
        ended
    };
    if ev.kind == rule.start {
        PatternView {
            starts: with_start(p.starts, StartEntry { key, tid: ev.tid, at: position(f) }),
            mids: without_thread(seen, key, ev.tid),
        }
    } else {
        PatternView { starts: p.starts, mids: seen }
    }
}

/// The path after its last event has been held against a pattern.
pub open spec fn matched(f: FrameView, rule: Rule, ev: EvView) -> FrameView {
    FrameView { states: f.states.update(rule.id as int, pattern_after(f, rule, ev)), ..f }
}

proof fn still_open_next(
    mids: Seq<MidEntry>,
    i: int,
    key: AliasKey,
    tid: usize,
    start: usize,
    now: usize,
)
    requires
        0 <= i < mids.len(),
    ensures
        still_open(mids.take(i + 1), key, tid, start, now) == if completes(
            mids[i],
            key,
            tid,
            start,
            now,
        ) {
            still_open(mids.take(i), key, tid, start, now)
        } else {
            still_open(mids.take(i), key, tid, start, now).push(mids[i])
        },
{
    reveal(Seq::filter);
    assert(mids.take(i + 1).drop_last() =~= mids.take(i));
}

proof fn without_thread_next(mids: Seq<MidEntry>, i: int, key: AliasKey, tid: usize)
    requires
        0 <= i < mids.len(),
    ensures
        without_thread(mids.take(i + 1), key, tid) == if mids[i].key == key && mids[i].tid == tid {
            without_thread(mids.take(i), key, tid)
        } else {
            without_thread(mids.take(i), key, tid).push(mids[i])
        },
{
    reveal(Seq::filter);
    assert(mids.take(i + 1).drop_last() =~= mids.take(i));
}

/// The entry put in its place, or an earlier one.
pub proof fn with_start_entries(s: Seq<StartEntry>, e: StartEntry, j: int)
    requires
        0 <= j < with_start(s, e).len(),
    ensures
        with_start(s, e)[j] == e || s.contains(with_start(s, e)[j]),
    decreases s.len(),
{
    if s.len() == 0 {
    } else if same_start(s[0], e) {
        if j > 0 {
            assert(with_start(s, e)[j] == s[j]);
        }
    } else if start_before(e, s[0]) {
        if j > 0 {
            assert(with_start(s, e)[j] == s[j - 1]);
        }
    } else if j == 0 {
        assert(with_start(s, e)[0] == s[0]);
    } else {
        let rest = s.drop_first();
        with_start_entries(rest, e, j - 1);
        assert(with_start(s, e)[j] == with_start(rest, e)[j - 1]);
        if rest.contains(with_start(rest, e)[j - 1]) {
            let k = choose|k: int|
                0 <= k < rest.len() && rest[k] == with_start(rest, e)[j - 1];
            assert(s[k + 1] == rest[k]);
        }
    }
}

/// The entry put in its place, or an earlier one.
pub proof fn with_mid_entries(s: Seq<MidEntry>, e: MidEntry, j: int)
    requires
        0 <= j < with_mid(s, e).len(),
    ensures
        with_mid(s, e)[j] == e || s.contains(with_mid(s, e)[j]),
    decreases s.len(),
{
    if s.len() == 0 {
    } else if same_mid(s[0], e) {
        if j > 0 {
            assert(with_mid(s, e)[j] == s[j]);
        }
    } else if mid_before(e, s[0]) {
        if j > 0 {
            assert(with_mid(s, e)[j] == s[j - 1]);
        }
    } else if j == 0 {
        assert(with_mid(s, e)[0] == s[0]);
    } else {
        let rest = s.drop_first();
        with_mid_entries(rest, e, j - 1);
        assert(with_mid(s, e)[j] == with_mid(rest, e)[j - 1]);
        if rest.contains(with_mid(rest, e)[j - 1]) {
            let k = choose|k: int| 0 <= k < rest.len() && rest[k] == with_mid(rest, e)[j - 1];
            assert(s[k + 1] == rest[k]);
        }
    }
}

/// A remote event that is recorded is the new one, for a thread with a start,
/// or was recorded before.
pub proof fn with_remote_entries(
    starts: Seq<StartEntry>,
    mids: Seq<MidEntry>,
    key: AliasKey,
    by: usize,
    at: usize,
    j: int,
)
    requires
        0 <= j < with_remote(starts, mids, key, by, at).len(),
    ensures
        ({
            let m = with_remote(starts, mids, key, by, at)[j];
            mids.contains(m) || (m.key == key && m.by == by && m.at == at && m.tid != by && exists|
                i: int,
            |
                0 <= i < starts.len() && (#[trigger] starts[i]).key == key && starts[i].tid
                    == m.tid)
        }),
    decreases starts.len(),
{
    if starts.len() == 0 {
        assert(mids.contains(mids[j]));
    } else {
        let front = starts.drop_last();
        let before = with_remote(front, mids, key, by, at);
        let all = with_remote(starts, mids, key, by, at);
        let last = starts.last();
        if last.key == key && last.tid != by {
            let e = MidEntry { key, tid: last.tid, by, at };
            with_mid_entries(before, e, j);
            if all[j] == e {
                assert(starts[starts.len() - 1] == last);
            } else {
                let k = choose|k: int| 0 <= k < before.len() && before[k] == all[j];
                with_remote_entries(front, mids, key, by, at, k);
                if !mids.contains(all[j]) {
                    let i = choose|i: int|
                        0 <= i < front.len() && (#[trigger] front[i]).key == key && front[i].tid
                            == all[j].tid;
                    assert(starts[i] == front[i]);
                }
            }
        } else {
            with_remote_entries(front, mids, key, by, at, j);
            if !mids.contains(all[j]) {
                let i = choose|i: int|
                    0 <= i < front.len() && (#[trigger] front[i]).key == key && front[i].tid
                        == all[j].tid;
                assert(starts[i] == front[i]);
            }
        }
    }
}

/// The latest start is one of the recorded starts.
pub proof fn start_of_entry(s: Seq<StartEntry>, key: AliasKey, tid: usize) -> (j: int)
    requires
        start_of(s, key, tid) is Some,
    ensures
        0 <= j < s.len(),
        s[j].key == key,
        s[j].tid == tid,
        start_of(s, key, tid) == Some(s[j].at),
    decreases s.len(),
{
    if s[0].key == key && s[0].tid == tid {
        0
    } else {
        let j = start_of_entry(s.drop_first(), key, tid);
        j + 1
    }
}

/// What is kept of the remote events was among them.
pub proof fn kept_entries(f: FrameView, rule: Rule, ev: EvView, j: int)
    requires
        0 <= j < mids_after_end(f, rule, ev).len(),
    ensures
        f.states[rule.id as int].mids.contains(mids_after_end(f, rule, ev)[j]),
{
    let p = f.states[rule.id as int];
    let key = alias_key(ev.alias);
    match start_of(p.starts, key, ev.tid) {
        Some(start) => {
            if ev.kind == rule.end {
                filter_entries(
                    p.mids,
                    |m: MidEntry| !completes(m, key, ev.tid, start, position(f)),
                    j,
                );
            } else {
                assert(p.mids.contains(p.mids[j]));
            }
        },
        None => {
            assert(p.mids.contains(p.mids[j]));
        },
    }
}

/// What a filter keeps was there and passes it.
pub proof fn filter_entries(s: Seq<MidEntry>, keep: spec_fn(MidEntry) -> bool, j: int)
    requires
        0 <= j < s.filter(keep).len(),
    ensures
        s.contains(s.filter(keep)[j]),
        keep(s.filter(keep)[j]),
    decreases s.len(),
{
    reveal(Seq::filter);
    if s.len() > 0 {
        let front = s.drop_last();
        if keep(s.last()) && j == front.filter(keep).len() {
            assert(s[s.len() - 1] == s.last());
        } else {
            filter_entries(front, keep, j);
            let k = choose|k: int| 0 <= k < front.len() && front[k] == front.filter(keep)[j];
            assert(s[k] == front[k]);
            assert(s.filter(keep)[j] == front.filter(keep)[j]);
        }
    }
}

/// Holding an event against a pattern keeps the positions valid.
proof fn matched_wf(f: FrameView, rule: Rule, ev: EvView)
    requires
        f.wf(),
        rule.id < RULE_COUNT,
        0 < f.trace.len() <= usize::MAX,
        f.events.last() == Some(ev),
    ensures
        matched(f, rule, ev).wf(),
{
    let p = f.states[rule.id as int];
    let q = pattern_after(f, rule, ev);
    let key = alias_key(ev.alias);
    let ended = mids_after_end(f, rule, ev);
    let now = position(f);
    assert(positions_ok(p, f.events));
    assert(f.events[now as int] == Some(ev));
    let seen = if ev.kind == rule.mid {
        with_remote(p.starts, ended, key, ev.tid, now)
    } else {
        ended
    };
    assert forall|j: int| 0 <= j < ended.len() implies (#[trigger] ended[j]).at < f.events.len()
        && f.events[ended[j].at as int] is Some by {
        kept_entries(f, rule, ev, j);
        let k = choose|k: int| 0 <= k < p.mids.len() && p.mids[k] == ended[j];
        assert(p.mids[k].at < f.events.len());
    }
    assert forall|j: int| 0 <= j < seen.len() implies (#[trigger] seen[j]).at < f.events.len()
        && f.events[seen[j].at as int] is Some by {
        if ev.kind == rule.mid {
            with_remote_entries(p.starts, ended, key, ev.tid, now, j);
            if ended.contains(seen[j]) {
                let k = choose|k: int| 0 <= k < ended.len() && ended[k] == seen[j];
                assert(ended[k].at < f.events.len());
            }
        } else {
            assert(ended[j].at < f.events.len());
        }
    }
    assert forall|j: int| 0 <= j < q.mids.len() implies (#[trigger] q.mids[j]).at < f.events.len()
        && f.events[q.mids[j].at as int] is Some by {
        if ev.kind == rule.start {
            filter_entries(seen, |m: MidEntry| !(m.key == key && m.tid == ev.tid), j);
            let k = choose|k: int| 0 <= k < seen.len() && seen[k] == q.mids[j];
            assert(seen[k].at < f.events.len());
        } else {
            assert(seen[j].at < f.events.len());
        }
    }
    assert forall|j: int| 0 <= j < q.starts.len() implies (#[trigger] q.starts[j]).at
        < f.events.len() && f.events[q.starts[j].at as int] is Some by {
        if ev.kind == rule.start {
            let e = StartEntry { key, tid: ev.tid, at: now };
            with_start_entries(p.starts, e, j);
            if p.starts.contains(q.starts[j]) {
                let k = choose|k: int| 0 <= k < p.starts.len() && p.starts[k] == q.starts[j];
                assert(p.starts[k].at < f.events.len());
            }
        } else {
            assert(p.starts[j].at < f.events.len());
        }
    }
    assert(positions_ok(q, f.events));
    let g = matched(f, rule, ev);
    assert forall|r: int| 0 <= r < RULE_COUNT implies positions_ok(#[trigger] g.states[r], g.events)
    by {
        if r != rule.id {
            assert(g.states[r] == f.states[r]);
        }
    }
}

/// The findings of the search so far.
pub open spec fn found_view(
    out: Seq<Witness>,
    seen: Seq<(usize, TransitionId, TransitionId, TransitionId)>,
) -> Found {
    Found { witnesses: witness_views(out), seen }
}

/// Whether a triple has been reported.
fn reported(
    seen: &Vec<(usize, TransitionId, TransitionId, TransitionId)>,
    triple: (usize, TransitionId, TransitionId, TransitionId),
) -> (b: bool)
    ensures
        b == seen@.contains(triple),
{
    let mut i: usize = 0;
    while i < seen.len()
        invariant
            i <= seen@.len(),
            forall|j: int| 0 <= j < i ==> seen@[j] != triple,
        decreases seen@.len() - i,
    {
        let s = seen[i];
        if s.0 == triple.0 && s.1 == triple.1 && s.2 == triple.2 && s.3 == triple.3 {
            assert(seen@[i as int] == triple);
            return true;
        }
        i = i + 1;
    }
    false
}

/// The kind of the witnesses of a pattern.
fn witness_kind(id: usize) -> (r: WitnessKind)
    ensures
        r == kind_of_rule(id as int),
{
    if id == 0 {
        WitnessKind::Av1
    } else if id == 1 {
        WitnessKind::Av2
    } else {
        WitnessKind::Av3
    }
}

/// Holds the remote events of a pattern against the end `ev` and reports the
/// witnesses.
fn note_completed(
    frame: &Frame,
    rule: &Rule,
    mids: &Vec<MidEntry>,
    start: usize,
    ev: &Ev,
    out: &mut Vec<Witness>,
    seen: &mut Vec<(usize, TransitionId, TransitionId, TransitionId)>,
)
    requires
        frame@.wf(),
        rule.id < RULE_COUNT,
        0 < frame@.trace.len(),
        start < frame@.events.len(),
        frame@.events[start as int] is Some,
        forall|j: int|
            0 <= j < mids@.len() ==> (#[trigger] mids@[j]).at < frame@.events.len()
                && frame@.events[mids@[j].at as int] is Some,
    ensures
        found_view(final(out)@, final(seen)@) == all_noted(
            frame@,
            *rule,
            mids@,
            start,
            ev@,
            position(frame@),
            found_view(old(out)@, old(seen)@),
        ),
{
    let ghost begun = found_view(out@, seen@);
    let ghost f = frame@;
    let key = AliasKey::new(ev.alias);
    let now: usize = frame.trace.len() - 1;
    let mut i: usize = 0;
    while i < mids.len()
        invariant
            i <= mids@.len(),
            f == frame@,
            frame@.wf(),
            rule.id < RULE_COUNT,
            0 < frame@.trace.len(),
            now == position(frame@),
            now == frame@.trace.len() - 1,
            key == alias_key(ev@.alias),
            start < frame@.events.len(),
            frame@.events[start as int] is Some,
            forall|j: int|
                0 <= j < mids@.len() ==> (#[trigger] mids@[j]).at < frame@.events.len()
                    && frame@.events[mids@[j].at as int] is Some,
            found_view(out@, seen@) == all_noted(
                frame@,
                *rule,
                mids@.take(i as int),
                start,
                ev@,
                now,
                begun,
            ),
        decreases mids@.len() - i,
    {
        let m = mids[i];
        let ghost before = found_view(out@, seen@);
        proof {
            assert(mids@.take(i + 1).drop_last() =~= mids@.take(i as int));
            assert(mids@.take(i + 1).last() == m);
        }
        if m.key == key && m.tid == ev.tid && start < m.at && m.at < now {
            let triple = (rule.id, frame.trace[start], frame.trace[m.at], frame.trace[now]);
            if !reported(seen, triple) {
                let ghost earlier = out@;
                match (&frame.events[start], &frame.events[m.at]) {
                    (Some(s), Some(x)) => {
                        let w = Witness {
                            kind: witness_kind(rule.id),
                            start: s.clone(),
                            mid: x.clone(),
                            end: ev.clone(),
                        };
                        out.push(w);
                        seen.push(triple);
                        proof {
                            assert(f.events[start as int] == Some(s@));
                            assert(f.events[m.at as int] == Some(x@));
                            assert(witness_views(out@) =~= witness_views(earlier).push(w@));
                            assert(found_view(out@, seen@) == noted(
                                frame@,
                                *rule,
                                start,
                                m.at,
                                ev@,
                                before,
                            ));
                        }
                    },
                    _ => {
                        proof {
                            assert(f.events[start as int] is Some);
                            assert(f.events[m.at as int] is Some);
                            assert(false);
                        }
                    },
                }
            }
        }
        i = i + 1;
    }
    proof {
        assert(mids@.take(i as int) =~= mids@);
    }
}

/// The remote events that an end did not complete.
fn keep_open(
    mids: &Vec<MidEntry>,
    key: AliasKey,
    tid: usize,
    start: usize,
    now: usize,
) -> (r: Vec<MidEntry>)
    ensures
        r@ == still_open(mids@, key, tid, start, now),
{
    let mut kept: Vec<MidEntry> = Vec::new();
    let mut i: usize = 0;
    proof {
        reveal(Seq::filter);
        assert(mids@.take(0).len() == 0);
    }
    while i < mids.len()
        invariant
            i <= mids@.len(),
            kept@ == still_open(mids@.take(i as int), key, tid, start, now),
        decreases mids@.len() - i,
    {
        let m = mids[i];
        proof {
            still_open_next(mids@, i as int, key, tid, start, now);
        }
        if !(m.key == key && m.tid == tid && start < m.at && m.at < now) {
            kept.push(m);
        }
        i = i + 1;
    }
    proof {
        assert(mids@.take(i as int) =~= mids@);
    }
    kept
}

/// The remote events without those since a start of the thread.
fn drop_thread(mids: &Vec<MidEntry>, key: AliasKey, tid: usize) -> (r: Vec<MidEntry>)
    ensures
        r@ == without_thread(mids@, key, tid),
{
    let mut kept: Vec<MidEntry> = Vec::new();
    let mut i: usize = 0;
    proof {
        reveal(Seq::filter);
        assert(mids@.take(0).len() == 0);
    }
    while i < mids.len()
        invariant
            i <= mids@.len(),
            kept@ == without_thread(mids@.take(i as int), key, tid),
        decreases mids@.len() - i,
    {
        let m = mids[i];
        proof {
            without_thread_next(mids@, i as int, key, tid);
        }
        if !(m.key == key && m.tid == tid) {
            kept.push(m);
        }
        i = i + 1;
    }
    proof {
        assert(mids@.take(i as int) =~= mids@);
    }
    kept
}

/// Records a remote event for every other thread with a start.
fn record_remote(
    starts: &Vec<StartEntry>,
    mids: &mut Vec<MidEntry>,
    key: AliasKey,
    by: usize,
    at: usize,
)
    ensures
        final(mids)@ == with_remote(starts@, old(mids)@, key, by, at),
{
    let ghost begun = mids@;
    let mut i: usize = 0;
    while i < starts.len()
        invariant
            i <= starts@.len(),
            mids@ == with_remote(starts@.take(i as int), begun, key, by, at),
        decreases starts@.len() - i,
    {
        let s = starts[i];
        proof {
            assert(starts@.take(i + 1).drop_last() =~= starts@.take(i as int));
            assert(starts@.take(i + 1).last() == s);
        }
        if s.key == key && s.tid != by {
            put_mid(mids, MidEntry { key, tid: s.tid, by, at });
        }
        i = i + 1;
    }
    proof {
        assert(starts@.take(i as int) =~= starts@);
    }
}

/// Holds the last event of a path against a pattern.
fn try_match(
    frame: &mut Frame,
    rule: &Rule,
    ev: &Ev,
    out: &mut Vec<Witness>,
    seen: &mut Vec<(usize, TransitionId, TransitionId, TransitionId)>,
)
    requires
        old(frame)@.wf(),
        rule.id < RULE_COUNT,
        0 < old(frame)@.trace.len(),
        old(frame)@.events.last() == Some(ev@),
    ensures
        final(frame)@ == matched(old(frame)@, *rule, ev@),
        final(frame)@.wf(),
        found_view(final(out)@, final(seen)@) == found_after_end(
            old(frame)@,
            *rule,
            ev@,
            found_view(old(out)@, old(seen)@),
        ),
{
    let ghost f = frame@;
    let now: usize = frame.trace.len() - 1;
    let key = AliasKey::new(ev.alias);
    let mut state = frame.pattern_states[rule.id].duplicate();
    let ghost p = state@;
    proof {
        assert(p == f.states[rule.id as int]);
        assert(positions_ok(p, f.events));
    }
    if ev.kind == rule.end {
        match find_start(&state.last_start, key, ev.tid) {
            Some(start) => {
                proof {
                    let j = start_of_entry(p.starts, key, ev.tid);
                    assert(p.starts[j].at == start);
                }
                note_completed(frame, rule, &state.saw_mid_after_start, start, ev, out, seen);
                state.saw_mid_after_start = keep_open(
                    &state.saw_mid_after_start,
                    key,
                    ev.tid,
                    start,
                    now,
                );
            },
            None => {},
        }
    }
    proof {
        assert(state@.mids == mids_after_end(f, *rule, ev@));
        assert(state@.starts == p.starts);
    }
    if ev.kind == rule.mid {
        record_remote(&state.last_start, &mut state.saw_mid_after_start, key, ev.tid, now);
    }
    if ev.kind == rule.start {
        put_start(&mut state.last_start, StartEntry { key, tid: ev.tid, at: now });
        state.saw_mid_after_start = drop_thread(&state.saw_mid_after_start, key, ev.tid);
    }
    proof {
        assert(state@ == pattern_after(f, *rule, ev@));
    }
    let ghost q = state@;
    frame.pattern_states.set(rule.id, state);
    proof {
        assert(frame@.states =~= f.states.update(rule.id as int, q));
        matched_wf(f, *rule, ev@);
    }
}

/// One recorded start, with its pattern.
pub type StartRow = (usize, usize, usize, usize, usize);

/// One recorded remote event, with its pattern.
pub type MidRow = (usize, usize, usize, usize, usize, usize);

/// The row of a start.
pub open spec fn start_row(rule: int, e: StartEntry) -> StartRow {
    (rule as usize, e.key.instance, e.key.local, e.tid, e.at)
}

/// The row of a remote event.
pub open spec fn mid_row(rule: int, m: MidEntry) -> MidRow {
    (rule as usize, m.key.instance, m.key.local, m.tid, m.by, m.at)
}

/// The starts of all patterns, in ascending order.
pub open spec fn start_rows(states: Seq<PatternView>) -> Seq<StartRow>
    decreases states.len(),
{
    if states.len() == 0 {
        Seq::empty()
    } else {
        start_rows(states.drop_last()) + states.last().starts.map_values(
            |e: StartEntry| start_row(states.len() - 1, e),
        )
    }
}

/// The remote events of all patterns, in ascending order.
pub open spec fn mid_rows(states: Seq<PatternView>) -> Seq<MidRow>
    decreases states.len(),
{
    if states.len() == 0 {
        Seq::empty()
    } else {
        mid_rows(states.drop_last()) + states.last().mids.map_values(
            |m: MidEntry| mid_row(states.len() - 1, m),
        )
    }
}

/// What paths are told apart by: the state reached and the progress of the
/// patterns.
pub struct StateFingerprint {
    pub node: usize,
    pub last_starts: Vec<StartRow>,
    pub saw_entries: Vec<MidRow>,
}

/// What paths are told apart by.
#[verifier::ext_equal]
pub struct FingerprintView {
    pub node: usize,
    pub starts: Seq<StartRow>,
    pub mids: Seq<MidRow>,
}

impl View for StateFingerprint {
    type V = FingerprintView;

    open spec fn view(&self) -> FingerprintView {
        FingerprintView {
            node: self.node,
            starts: self.last_starts@,
            mids: self.saw_entries@,
        }
    }
}

/// The fingerprint of a path.
pub open spec fn fingerprint(f: FrameView) -> FingerprintView {
    FingerprintView { node: f.node, starts: start_rows(f.states), mids: mid_rows(f.states) }
}

impl StateFingerprint {
    /// The fingerprint of a path.
    pub fn from_frame(frame: &Frame) -> (r: Self)
        ensures
            r@ == fingerprint(frame@),
    {
        let mut last_starts: Vec<StartRow> = Vec::new();
        let mut saw_entries: Vec<MidRow> = Vec::new();
        let ghost states = frame@.states;
        let mut r: usize = 0;
        while r < frame.pattern_states.len()
            invariant
                r <= frame.pattern_states@.len(),
                states == frame@.states,
                last_starts@ == start_rows(states.take(r as int)),
                saw_entries@ == mid_rows(states.take(r as int)),
            decreases frame.pattern_states@.len() - r,
        {
            let state = &frame.pattern_states[r];
            let ghost front = states.take(r as int);
            let ghost starts = last_starts@;
            let ghost mids = saw_entries@;
            proof {
                assert(states.take(r + 1).drop_last() =~= front);
                assert(states.take(r + 1).last() == state@);
            }
            let mut i: usize = 0;
            while i < state.last_start.len()
                invariant
                    i <= state.last_start@.len(),
                    r < frame.pattern_states@.len(),
                    last_starts@ == starts + state.last_start@.take(i as int).map_values(
                        |e: StartEntry| start_row(r as int, e),
                    ),
                decreases state.last_start@.len() - i,
            {
                let e = state.last_start[i];
                last_starts.push((r, e.key.instance, e.key.local, e.tid, e.at));
                proof {
                    assert(last_starts@ =~= starts + state.last_start@.take(i + 1).map_values(
                        |e: StartEntry| start_row(r as int, e),
                    ));
                }
                i = i + 1;
            }
            let mut j: usize = 0;
            while j < state.saw_mid_after_start.len()
                invariant
                    j <= state.saw_mid_after_start@.len(),
                    r < frame.pattern_states@.len(),
                    saw_entries@ == mids + state.saw_mid_after_start@.take(j as int).map_values(
                        |m: MidEntry| mid_row(r as int, m),
                    ),
                decreases state.saw_mid_after_start@.len() - j,
            {
                let m = state.saw_mid_after_start[j];
                saw_entries.push((r, m.key.instance, m.key.local, m.tid, m.by, m.at));
                proof {
                    assert(saw_entries@ =~= mids + state.saw_mid_after_start@.take(
                        j + 1,
                    ).map_values(|m: MidEntry| mid_row(r as int, m)));
                }
                j = j + 1;
            }
            proof {
                let last = state@;
                assert(state.last_start@.take(i as int) =~= last.starts);
                assert(state.saw_mid_after_start@.take(j as int) =~= last.mids);
                assert(last_starts@ =~= start_rows(states.take(r + 1)));
                assert(saw_entries@ =~= mid_rows(states.take(r + 1)));
            }
            r = r + 1;
        }
        proof {
            assert(states.take(r as int) =~= states);
        }
        StateFingerprint { node: frame.node, last_starts, saw_entries }
    }

    /// Whether two fingerprints are the same.
    fn same(&self, other: &Self) -> (b: bool)
        ensures
            b == (self@ == other@),
    {
        if self.node != other.node || self.last_starts.len() != other.last_starts.len()
            || self.saw_entries.len() != other.saw_entries.len() {
            return false;
        }
        let mut i: usize = 0;
        while i < self.last_starts.len()
            invariant
                i <= self.last_starts@.len(),
                self.last_starts@.len() == other.last_starts@.len(),
                forall|k: int| 0 <= k < i ==> self.last_starts@[k] == other.last_starts@[k],
            decreases self.last_starts@.len() - i,
        {
            let a = self.last_starts[i];
            let b = other.last_starts[i];
            if !(a.0 == b.0 && a.1 == b.1 && a.2 == b.2 && a.3 == b.3 && a.4 == b.4) {
                assert(self@.starts[i as int] != other@.starts[i as int]);
                return false;
            }
            i = i + 1;
        }
        let mut j: usize = 0;
        while j < self.saw_entries.len()
            invariant
                j <= self.saw_entries@.len(),
                self.saw_entries@.len() == other.saw_entries@.len(),
                forall|k: int| 0 <= k < j ==> self.saw_entries@[k] == other.saw_entries@[k],
            decreases self.saw_entries@.len() - j,
        {
            let a = self.saw_entries[j];
            let b = other.saw_entries[j];
            if !(a.0 == b.0 && a.1 == b.1 && a.2 == b.2 && a.3 == b.3 && a.4 == b.4 && a.5
                == b.5) {
                assert(self@.mids[j as int] != other@.mids[j as int]);
                return false;
            }
            j = j + 1;
        }
        proof {
            assert(self@.starts =~= other@.starts);
            assert(self@.mids =~= other@.mids);
        }
        true
    }
}

/// The fingerprints met so far.
pub open spec fn fingerprint_views(visited: Seq<StateFingerprint>) -> Seq<FingerprintView> {
    visited.map_values(|fp: StateFingerprint| fp@)
}

/// Whether a fingerprint has been met.
fn met(visited: &Vec<StateFingerprint>, fp: &StateFingerprint) -> (b: bool)
    ensures
        b == fingerprint_views(visited@).contains(fp@),
{
    let mut i: usize = 0;
    while i < visited.len()
        invariant
            i <= visited@.len(),
            forall|k: int| 0 <= k < i ==> (#[trigger] visited@[k])@ != fp@,
        decreases visited@.len() - i,
    {
        if visited[i].same(fp) {
            proof {
                assert(fingerprint_views(visited@)[i as int] == fp@);
            }
            return true;
        }
        i = i + 1;
    }
    proof {
        assert forall|k: int|
            0 <= k < visited@.len() implies #[trigger] fingerprint_views(visited@)[k] != fp@ by {
            assert(visited@[k]@ != fp@);
        }
    }
    false
}

/// The edges with `x` in its place by transition, after those of the same
/// transition.
pub open spec fn with_edge(
    edges: Seq<StateEdge>,
    s: Seq<(usize, usize)>,
    x: (usize, usize),
) -> Seq<(usize, usize)>
    decreases s.len(),
{
    if s.len() == 0 {
        seq![x]
    } else if edges[s.last().1 as int].transition <= edges[x.1 as int].transition {
        s.push(x)
    } else {
        with_edge(edges, s.drop_last(), x).push(s.last())
    }
}

/// The edges in ascending order of their transitions; edges of one transition
/// keep their order.
pub open spec fn by_transition(edges: Seq<StateEdge>, s: Seq<(usize, usize)>) -> Seq<(usize, usize)>
    decreases s.len(),
{
    if s.len() == 0 {
        Seq::empty()
    } else {
        with_edge(edges, by_transition(edges, s.drop_last()), s.last())
    }
}

/// Every listed edge is `x` or was listed.
pub proof fn with_edge_entries(
    edges: Seq<StateEdge>,
    s: Seq<(usize, usize)>,
    x: (usize, usize),
    j: int,
)
    requires
        0 <= j < with_edge(edges, s, x).len(),
    ensures
        with_edge(edges, s, x)[j] == x || s.contains(with_edge(edges, s, x)[j]),
    decreases s.len(),
{
    let all = with_edge(edges, s, x);
    if s.len() == 0 {
    } else if edges[s.last().1 as int].transition <= edges[x.1 as int].transition {
        if j < s.len() {
            assert(all[j] == s[j]);
        }
    } else if j == all.len() - 1 {
        assert(s[s.len() - 1] == all[j]);
    } else {
        let front = s.drop_last();
        with_edge_entries(edges, front, x, j);
        assert(all[j] == with_edge(edges, front, x)[j]);
        if front.contains(all[j]) {
            let k = choose|k: int| 0 <= k < front.len() && front[k] == all[j];
            assert(s[k] == all[j]);
        }
    }
}

/// Every edge in the ordered list was listed.
pub proof fn by_transition_entries(edges: Seq<StateEdge>, s: Seq<(usize, usize)>, j: int)
    requires
        0 <= j < by_transition(edges, s).len(),
    ensures
        s.contains(by_transition(edges, s)[j]),
    decreases s.len(),
{
    if s.len() > 0 {
        let front = s.drop_last();
        let ordered = by_transition(edges, front);
        let x = by_transition(edges, s)[j];
        with_edge_entries(edges, ordered, s.last(), j);
        if x == s.last() {
            assert(s[s.len() - 1] == x);
        } else {
            let k = choose|k: int| 0 <= k < ordered.len() && ordered[k] == x;
            by_transition_entries(edges, front, k);
            let m = choose|m: int| 0 <= m < front.len() && front[m] == x;
            assert(s[m] == x);
        }
    }
}

/// Puts an edge in its place.
fn put_edge(edges: &Vec<StateEdge>, v: &mut Vec<(usize, usize)>, x: (usize, usize))
    requires
        x.1 < edges@.len(),
        forall|j: int| 0 <= j < old(v)@.len() ==> (#[trigger] old(v)@[j]).1 < edges@.len(),
    ensures
        final(v)@ == with_edge(edges@, old(v)@, x),
{
    let ghost s = v@;
    let mut i: usize = v.len();
    proof {
        assert(s.take(i as int) =~= s);
        assert(with_edge(edges@, s, x) =~= with_edge(edges@, s.take(i as int), x) + s.skip(
            i as int,
        ));
    }
    while i > 0
        invariant
            i <= s.len(),
            v@ == s,
            s == old(v)@,
            x.1 < edges@.len(),
            forall|j: int| 0 <= j < s.len() ==> (#[trigger] s[j]).1 < edges@.len(),
            with_edge(edges@, s, x) == with_edge(edges@, s.take(i as int), x) + s.skip(i as int),
        decreases i,
    {
        let y = v[i - 1];
        proof {
            assert(s[i - 1].1 < edges@.len());
            assert(s.take(i as int).last() == y);
            assert(s.take(i as int).drop_last() =~= s.take(i - 1));
        }
        if edges[y.1].transition <= edges[x.1].transition {
            v.insert(i, x);
            proof {
                assert(v@ =~= s.take(i as int).push(x) + s.skip(i as int));
            }
            return;
        }
        proof {
            let rest = with_edge(edges@, s.take(i - 1), x);
            assert(rest.push(y) + s.skip(i as int) =~= rest + s.skip(i - 1));
        }
        i = i - 1;
    }
    v.insert(0, x);
    proof {
        assert(s.take(0).len() == 0);
        assert(v@ =~= seq![x] + s.skip(0));
    }
}

/// The edges in ascending order of their transitions.
fn sort_by_transition(edges: &Vec<StateEdge>, s: &Vec<(usize, usize)>) -> (r: Vec<(usize, usize)>)
    requires
        forall|j: int| 0 <= j < s@.len() ==> (#[trigger] s@[j]).1 < edges@.len(),
    ensures
        r@ == by_transition(edges@, s@),
        forall|j: int| 0 <= j < r@.len() ==> s@.contains(#[trigger] r@[j]),
{
    let mut sorted: Vec<(usize, usize)> = Vec::new();
    let mut i: usize = 0;
    while i < s.len()
        invariant
            i <= s@.len(),
            forall|j: int| 0 <= j < s@.len() ==> (#[trigger] s@[j]).1 < edges@.len(),
            sorted@ == by_transition(edges@, s@.take(i as int)),
        decreases s@.len() - i,
    {
        proof {
            assert(s@.take(i + 1).drop_last() =~= s@.take(i as int));
            assert forall|j: int| 0 <= j < sorted@.len() implies (#[trigger] sorted@[j]).1
                < edges@.len() by {
                by_transition_entries(edges@, s@.take(i as int), j);
                let k = choose|k: int|
                    0 <= k < i && s@.take(i as int)[k] == sorted@[j];
                assert(s@[k].1 < edges@.len());
            }
        }
        put_edge(edges, &mut sorted, s[i]);
        i = i + 1;
    }
    proof {
        assert(s@.take(i as int) =~= s@);
        assert forall|j: int| 0 <= j < sorted@.len() implies s@.contains(#[trigger] sorted@[j]) by {
            by_transition_entries(edges@, s@, j);
        }
    }
    sorted
}

/// The path after its last event has been held against the first `n` patterns.
pub open spec fn held(f: FrameView, ev: EvView, n: nat) -> FrameView
    decreases n,
{
    if n == 0 {
        f
    } else {
        matched(held(f, ev, (n - 1) as nat), rule_at(n - 1), ev)
    }
}

/// What is found once the last event of a path has been held against the first
/// `n` patterns.
pub open spec fn found_held(f: FrameView, ev: EvView, n: nat, found: Found) -> Found
    decreases n,
{
    if n == 0 {
        found
    } else {
        found_after_end(
            held(f, ev, (n - 1) as nat),
            rule_at(n - 1),
            ev,
            found_held(f, ev, (n - 1) as nat, found),
        )
    }
}

/// The path with one more edge, before the patterns look at it.
pub open spec fn extended(f: FrameView, edge: StateEdge) -> FrameView {
    FrameView {
        node: edge.target,
        trace: f.trace.push(edge.transition),
        events: f.events.push(event_of(edge.transition_type@)),
        states: f.states,
    }
}

/// The path with one more edge.
pub open spec fn advanced(f: FrameView, edge: StateEdge) -> FrameView {
    match event_of(edge.transition_type@) {
        Some(ev) => held(extended(f, edge), ev, RULE_COUNT as nat),
        None => extended(f, edge),
    }
}

/// What is found with one more edge.
pub open spec fn found_advanced(f: FrameView, edge: StateEdge, found: Found) -> Found {
    match event_of(edge.transition_type@) {
        Some(ev) => found_held(extended(f, edge), ev, RULE_COUNT as nat, found),
        None => found,
    }
}

/// How far the search has come: the paths to continue, the fingerprints met,
/// and what was found.
#[verifier::ext_equal]
pub struct SearchView {
    pub stack: Seq<FrameView>,
    pub visited: Seq<FingerprintView>,
    pub found: Found,
}

/// The paths to continue once `f` has been continued along the edges.
pub open spec fn stacked(
    edges: Seq<StateEdge>,
    f: FrameView,
    along: Seq<(usize, usize)>,
    stack: Seq<FrameView>,
) -> Seq<FrameView> {
    stack + along.map_values(|x: (usize, usize)| advanced(f, edges[x.1 as int]))
}

/// What is found once `f` has been continued along the edges.
pub open spec fn found_along(
    edges: Seq<StateEdge>,
    f: FrameView,
    along: Seq<(usize, usize)>,
    found: Found,
) -> Found
    decreases along.len(),
{
    if along.len() == 0 {
        found
    } else {
        found_advanced(
            f,
            edges[along.last().1 as int],
            found_along(edges, f, along.drop_last(), found),
        )
    }
}

/// The edges along which a path that has reached `node` is continued.
pub open spec fn edges_along(g: StateGraph, node: usize) -> Seq<(usize, usize)> {
    by_transition(g.edges@, g.outgoing_edges(node))
}

/// The search after one path has been taken from the stack: a path that is too
/// long, or that tells nothing new, is dropped, and so is every path once
/// enough fingerprints have been met.
pub open spec fn search_step(
    g: StateGraph,
    max_states: nat,
    max_depth: nat,
    s: SearchView,
) -> SearchView {
    let f = s.stack.last();
    let rest = s.stack.drop_last();
    if s.visited.len() >= max_states || f.trace.len() >= max_depth || s.visited.contains(
        fingerprint(f),
    ) {
        SearchView { stack: rest, ..s }
    } else {
        let visited = s.visited.push(fingerprint(f));
        let along = if visited.len() >= max_states {
            Seq::empty()
        } else {
            edges_along(g, f.node)
        };
        SearchView {
            stack: stacked(g.edges@, f, along, rest),
            visited,
            found: found_along(g.edges@, f, along, s.found),
        }
    }
}

/// What the search finds from where it has come to.
pub open spec fn search(g: StateGraph, max_states: nat, max_depth: nat, s: SearchView) -> Found
    decreases max_states - s.visited.len(), s.stack.len(),
{
    if s.stack.len() == 0 {
        s.found
    } else {
        search(g, max_states, max_depth, search_step(g, max_states, max_depth, s))
    }
}

/// The search that has only the initial state to begin with.
pub open spec fn search_start(g: StateGraph) -> SearchView {
    SearchView {
        stack: seq![start_frame(g.initial)],
        visited: Seq::empty(),
        found: Found { witnesses: Seq::empty(), seen: Seq::empty() },
    }
}

/// The witnesses of a state graph within the limits, in the order in which the
/// search finds them.
pub open spec fn witnesses_of(g: StateGraph, max_states: nat, max_depth: nat) -> Seq<WitnessView> {
    search(g, max_states, max_depth, search_start(g)).witnesses
}

/// One more edge keeps the positions valid.
proof fn extended_wf(f: FrameView, edge: StateEdge)
    requires
        f.wf(),
    ensures
        extended(f, edge).wf(),
{
    let g = extended(f, edge);
    assert forall|r: int| 0 <= r < RULE_COUNT implies positions_ok(#[trigger] g.states[r], g.events)
    by {
        let p = f.states[r];
        assert(positions_ok(p, f.events));
        assert forall|j: int| 0 <= j < p.starts.len() implies (#[trigger] p.starts[j]).at
            < g.events.len() && g.events[p.starts[j].at as int] is Some by {
            assert(g.events[p.starts[j].at as int] == f.events[p.starts[j].at as int]);
        }
        assert forall|j: int| 0 <= j < p.mids.len() implies (#[trigger] p.mids[j]).at
            < g.events.len() && g.events[p.mids[j].at as int] is Some by {
            assert(g.events[p.mids[j].at as int] == f.events[p.mids[j].at as int]);
        }
    }
}

/// Continues a path along one edge.
fn advance(
    frame: &Frame,
    edge: &StateEdge,
    out: &mut Vec<Witness>,
    seen: &mut Vec<(usize, TransitionId, TransitionId, TransitionId)>,
) -> (next: Frame)
    requires
        frame@.wf(),
    ensures
        next@ == advanced(frame@, *edge),
        next@.wf(),
        found_view(final(out)@, final(seen)@) == found_advanced(
            frame@,
            *edge,
            found_view(old(out)@, old(seen)@),
        ),
{
    let ghost begun = found_view(out@, seen@);
    let event = parse_event(&edge.transition_type);
    let mut next = frame.duplicate();
    next.node = edge.target;
    next.trace.push(edge.transition);
    let ghost events = next.events@;
    match event {
        Some(ev) => {
            next.events.push(Some(ev.clone()));
            let ghost f = extended(frame@, *edge);
            proof {
                assert(event_views(next.events@) =~= event_views(events).push(Some(ev@)));
                assert(next@ =~= f);
                extended_wf(frame@, *edge);
            }
            let mut r: usize = 0;
            while r < RULE_COUNT
                invariant
                    r <= RULE_COUNT,
                    next@ == held(f, ev@, r as nat),
                    next@.wf(),
                    next@.trace == f.trace,
                    next@.events == f.events,
                    f == extended(frame@, *edge),
                    f.events.last() == Some(ev@),
                    0 < f.trace.len(),
                    found_view(out@, seen@) == found_held(f, ev@, r as nat, begun),
                decreases RULE_COUNT - r,
            {
                try_match(&mut next, &rule(r), &ev, out, seen);
                r = r + 1;
            }
        },
        None => {
            next.events.push(None);
            proof {
                assert(event_views(next.events@) =~= event_views(events).push(None));
                assert(next@ =~= extended(frame@, *edge));
                extended_wf(frame@, *edge);
            }
        },
    }
    next
}

/// The paths to continue.
pub open spec fn frame_views(stack: Seq<Frame>) -> Seq<FrameView> {
    stack.map_values(|f: Frame| f@)
}

/// The search for witnesses.
fn detect_witnesses(state_graph: &StateGraph, max_states: usize, max_depth: usize) -> (r: Vec<
    Witness,
>)
    requires
        state_graph.wf(),
    ensures
        witness_views(r@) == witnesses_of(*state_graph, max_states as nat, max_depth as nat),
{
    let mut witnesses: Vec<Witness> = Vec::new();
    let mut seen: Vec<(usize, TransitionId, TransitionId, TransitionId)> = Vec::new();
    let mut visited: Vec<StateFingerprint> = Vec::new();
    let mut stack: Vec<Frame> = Vec::new();
    stack.push(Frame::new(state_graph.initial));
    let ghost whole = search(
        *state_graph,
        max_states as nat,
        max_depth as nat,
        search_start(*state_graph),
    );
    proof {
        let s = search_start(*state_graph);
        assert(frame_views(stack@) =~= s.stack);
        assert(fingerprint_views(visited@) =~= s.visited);
        assert(witness_views(witnesses@) =~= s.found.witnesses);
        assert(seen@ =~= s.found.seen);
    }
    while stack.len() > 0
        invariant
            state_graph.wf(),
            forall|k: int| 0 <= k < stack@.len() ==> (#[trigger] stack@[k])@.wf(),
            whole == search(
                *state_graph,
                max_states as nat,
                max_depth as nat,
                SearchView {
                    stack: frame_views(stack@),
                    visited: fingerprint_views(visited@),
                    found: found_view(witnesses@, seen@),
                },
            ),
        decreases max_states - visited@.len(), stack@.len(),
    {
        let ghost s = SearchView {
            stack: frame_views(stack@),
            visited: fingerprint_views(visited@),
            found: found_view(witnesses@, seen@),
        };
        let ghost paths = stack@;
        let frame = stack.pop().unwrap();
        let ghost f = frame@;
        let ghost rest = s.stack.drop_last();
        proof {
            assert(frame == paths.last());
            assert(f == s.stack.last());
            assert(frame_views(stack@) =~= rest);
        }
        if visited.len() >= max_states || frame.trace.len() >= max_depth {
            proof {
                assert(search_step(*state_graph, max_states as nat, max_depth as nat, s)
                    =~= SearchView { stack: rest, ..s });
            }
            continue;
        }
        let fp = StateFingerprint::from_frame(&frame);
        if met(&visited, &fp) {
            continue;
        }
        visited.push(fp);
        proof {
            assert(fingerprint_views(visited@) =~= s.visited.push(fingerprint(f)));
        }
        if visited.len() >= max_states {
            proof {
                let t = search_step(*state_graph, max_states as nat, max_depth as nat, s);
                assert(t.stack =~= rest);
                assert(t.found == s.found);
            }
            continue;
        }
        let listed = state_graph.edges_of(frame.node);
        let edges = sort_by_transition(&state_graph.edges, &listed);
        let ghost along = edges_along(*state_graph, f.node);
        proof {
            assert(edges@ == along);
        }
        let mut i: usize = 0;
        while i < edges.len()
            invariant
                i <= edges@.len(),
                edges@ == along,
                frame@ == f,
                f.wf(),
                state_graph.wf(),
                forall|j: int|
                    0 <= j < edges@.len() ==> (#[trigger] edges@[j]).1 < state_graph.edges@.len(),
                forall|k: int| 0 <= k < stack@.len() ==> (#[trigger] stack@[k])@.wf(),
                frame_views(stack@) == stacked(
                    state_graph.edges@,
                    f,
                    along.take(i as int),
                    rest,
                ),
                found_view(witnesses@, seen@) == found_along(
                    state_graph.edges@,
                    f,
                    along.take(i as int),
                    s.found,
                ),
            decreases edges@.len() - i,
        {
            let at = edges[i].1;
            let ghost paths = stack@;
            let next = advance(&frame, &state_graph.edges[at], &mut witnesses, &mut seen);
            let ghost n = next@;
            stack.push(next);
            proof {
                assert(along.take(i + 1).drop_last() =~= along.take(i as int));
                assert(frame_views(stack@) =~= frame_views(paths).push(n));
                assert(stacked(state_graph.edges@, f, along.take(i + 1), rest) =~= stacked(
                    state_graph.edges@,
                    f,
                    along.take(i as int),
                    rest,
                ).push(n));
            }
            i = i + 1;
        }
        proof {
            assert(along.take(i as int) =~= along);
        }
    }
    witnesses
}

/// An operation of a violation: what it is and by which thread, its ordering,
/// its location and its span.
pub open spec fn operation_of(operation: Seq<char>, ev: EvView) -> AtomicOperationView {
    AtomicOperationView {
        operation_type: operation + decimal(ev.tid as nat),
        ordering: ev.ord.name(),
        variable: ev.alias.debug(),
        location: ev.span,
    }
}

/// The violation that a witness shows.
pub open spec fn violation_of(w: WitnessView) -> ViolationView {
    let load = "load@tid"@;
    let store = "store@tid"@;
    match w.kind {
        WitnessKind::Av1 => ViolationView {
            load_op: operation_of(load, w.start),
            store_ops: seq![operation_of(store, w.mid), operation_of(store, w.end)],
        },
        WitnessKind::Av2 => ViolationView {
            load_op: operation_of(load, w.end),
            store_ops: seq![operation_of(store, w.start), operation_of(store, w.mid)],
        },
        WitnessKind::Av3 => ViolationView {
            load_op: operation_of(load, w.start),
            store_ops: seq![operation_of(store, w.mid)],
        },
    }
}

/// The violations that the witnesses show, each once, in the order in which
/// they first occur.
pub open spec fn violations_of(witnesses: Seq<WitnessView>) -> Seq<ViolationView>
    decreases witnesses.len(),
{
    if witnesses.len() == 0 {
        Seq::empty()
    } else {
        let before = violations_of(witnesses.drop_last());
        let v = violation_of(witnesses.last());
        if before.contains(v) {
            before
        } else {
            before.push(v)
        }
    }
}

/// An operation of a violation.
fn atomic_op(operation: &str, ev: &Ev) -> (r: AtomicOperation)
    ensures
        r@ == operation_of(operation@, ev@),
{
    AtomicOperation {
        operation_type: operation.to_owned().concat(index_text(ev.tid).as_str()),
        ordering: ev.ord.name_text().to_owned(),
        variable: ev.alias.debug_text(),
        location: ev.span.clone(),
    }
}

/// The violation that a witness shows.
fn violation(witness: &Witness) -> (r: ViolationPattern)
    ensures
        r@ == violation_of(witness@),
{
    let mut store_ops: Vec<AtomicOperation> = Vec::new();
    let load_op = match witness.kind {
        WitnessKind::Av1 => {
            store_ops.push(atomic_op("store@tid", &witness.mid));
            store_ops.push(atomic_op("store@tid", &witness.end));
            atomic_op("load@tid", &witness.start)
        },
        WitnessKind::Av2 => {
            store_ops.push(atomic_op("store@tid", &witness.start));
            store_ops.push(atomic_op("store@tid", &witness.mid));
            atomic_op("load@tid", &witness.end)
        },
        WitnessKind::Av3 => {
            store_ops.push(atomic_op("store@tid", &witness.mid));
            atomic_op("load@tid", &witness.start)
        },
    };
    proof {
        assert(operation_views(store_ops@) =~= violation_of(witness@).store_ops);
    }
    ViolationPattern { load_op, store_ops }
}

/// The violations that the witnesses show, each once.
fn dedupe_patterns(witnesses: &Vec<Witness>) -> (r: Vec<ViolationPattern>)
    ensures
        violation_views(r@) == violations_of(witness_views(witnesses@)),
{
    let mut patterns: Vec<ViolationPattern> = Vec::new();
    let ghost all = witness_views(witnesses@);
    let mut i: usize = 0;
    proof {
        assert(violation_views(patterns@) =~= violations_of(all.take(0)));
    }
    while i < witnesses.len()
        invariant
            i <= witnesses@.len(),
            all == witness_views(witnesses@),
            violation_views(patterns@) == violations_of(all.take(i as int)),
        decreases witnesses@.len() - i,
    {
        let pattern = violation(&witnesses[i]);
        proof {
            assert(all.take(i + 1).drop_last() =~= all.take(i as int));
            assert(all.take(i + 1).last() == witnesses@[i as int]@);
        }
        let ghost before = patterns@;
        let ghost v = pattern@;
        if !listed(&patterns, &pattern) {
            patterns.push(pattern);
            proof {
                assert(violation_views(patterns@) =~= violation_views(before).push(v));
            }
        }
        i = i + 1;
    }
    proof {
        assert(all.take(i as int) =~= all);
    }
    patterns
}

/// Whether a violation is listed.
fn listed(patterns: &Vec<ViolationPattern>, pattern: &ViolationPattern) -> (b: bool)
    ensures
        b == violation_views(patterns@).contains(pattern@),
{
    let mut i: usize = 0;
    while i < patterns.len()
        invariant
            i <= patterns@.len(),
            forall|k: int| 0 <= k < i ==> (#[trigger] patterns@[k])@ != pattern@,
        decreases patterns@.len() - i,
    {
        if patterns[i].same(pattern) {
            proof {
                assert(violation_views(patterns@)[i as int] == pattern@);
            }
            return true;
        }
        i = i + 1;
    }
    proof {
        assert forall|k: int|
            0 <= k < patterns@.len() implies #[trigger] violation_views(patterns@)[k] != pattern@ by {
            assert(patterns@[k]@ != pattern@);
        }
    }
    false
}

/// The atomicity detector.
pub struct AtomicityViolationDetector<'a> {
    pub state_graph: &'a StateGraph,
    pub max_states: usize,
    pub max_depth: usize,
}

impl<'a> AtomicityViolationDetector<'a> {
    /// A detector with the default limits.
    pub fn new(state_graph: &'a StateGraph) -> (r: Self)
        ensures
            r.state_graph == state_graph,
            r.max_states == DEFAULT_MAX_STATES,
            r.max_depth == DEFAULT_MAX_DEPTH,
            r.max_states == 200_000,
            r.max_depth == 10_000,
    {
        AtomicityViolationDetector {
            state_graph,
            max_states: DEFAULT_MAX_STATES,
            max_depth: DEFAULT_MAX_DEPTH,
        }
    }

    /// A detector with the given limits.
    pub fn with_limits(
        state_graph: &'a StateGraph,
        max_states: usize,
        max_depth: usize,
    ) -> (r: Self)
        ensures
            r.state_graph == state_graph,
            r.max_states == max_states,
            r.max_depth == max_depth,
    {
        AtomicityViolationDetector { state_graph, max_states, max_depth }
    }

    /// The witnesses that the detector finds.
    pub open spec fn witnesses(&self) -> Seq<WitnessView> {
        witnesses_of(*self.state_graph, self.max_states as nat, self.max_depth as nat)
    }

    /// Runs the detector.
    pub fn detect(&self) -> (report: AtomicReport)
        requires
            self.state_graph.wf(),
        ensures
            report.tool_name@ == "Petri Net Atomicity Violation Detector"@,
            report.has_violation == (self.witnesses().len() > 0),
            violation_views(report.violations@) == violations_of(self.witnesses()),
            report.violation_count == report.violations@.len(),
    {
        let mut report = AtomicReport::new("Petri Net Atomicity Violation Detector".to_owned());
        let witnesses = detect_witnesses(self.state_graph, self.max_states, self.max_depth);
        proof {
            assert(violation_views(report.violations@) =~= Seq::<ViolationView>::empty());
        }
        if witnesses.len() > 0 {
            report.has_violation = true;
            report.violations = dedupe_patterns(&witnesses);
            report.violation_count = report.violations.len();
        }
        report
    }
}

} // verus!

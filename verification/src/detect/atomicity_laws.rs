//! What the atomicity detector promises: every witness is a real interruption
//! on a path of the state graph, and a search that was not cut short misses
//! none.

use super::atomicity_reports::{
    along_tells, ends_by, grows, is_report, reports, reports_stay, told, transitions_do_one_thing,
};
use super::atomicity_violation::{
    advanced, alias_key, all_noted, by_transition, by_transition_entries, completes, edges_along,
    event_of, extended, fingerprint, found_advanced, found_after_end, found_along, found_held, held,
    kind_of_rule, mid_before, mid_row, mid_rows, mids_after_end, noted, pattern_after, position,
    rule_at, same_mid, same_start, search, search_start, search_step, stacked, start_before,
    start_frame, start_of, start_of_entry, start_row, start_rows, violation_of, violations_of,
    with_edge, with_mid, with_remote, with_start, witnesses_of, AliasKey,
    AtomicityViolationDetector, EvKind, EvView, FingerprintView, Found, FrameView, MidEntry,
    PatternView, Rule, SearchView, StartEntry, WitnessKind, WitnessView, RULE_COUNT,
};
use crate::report::AtomicOperationView;
use crate::text::decimal;
use crate::net::state_graph::{
    graph_edges, is_walk, outgoing_complete, outgoing_sound, walk_node, StateEdge, StateGraph,
};
use crate::concurrency::atomic::AtomicOrdering;
use crate::memory::pointsto::AliasId;
use crate::net::structure::{TransitionId, TransitionTypeView};
use vstd::prelude::*;

verus! {

/// The event is of the given kind, by the given thread on the given location.
pub open spec fn does(e: Option<EvView>, kind: EvKind, key: AliasKey, tid: usize) -> bool {
    match e {
        Some(x) => x.kind == kind && alias_key(x.alias) == key && x.tid == tid,
        None => false,
    }
}

/// The events at `i`, `j` and `k` show a pattern: a thread starts at `i` and
/// ends at `k` on one location, with no other start of its own there in
/// between, and another thread interferes at `j`.
pub open spec fn interrupted(
    events: Seq<Option<EvView>>,
    rule: Rule,
    i: int,
    j: int,
    k: int,
) -> bool {
    &&& 0 <= i < j < k < events.len()
    &&& events[i] is Some && events[j] is Some && events[k] is Some
    &&& ({
        let key = alias_key((events[i]->0).alias);
        let tid = (events[i]->0).tid;
        let by = (events[j]->0).tid;
        &&& by != tid
        &&& does(events[i], rule.start, key, tid)
        &&& does(events[j], rule.mid, key, by)
        &&& does(events[k], rule.end, key, tid)
        &&& forall|t: int| i < t < k ==> !does(#[trigger] events[t], rule.start, key, tid)
    })
}

/// The events along a walk.
pub open spec fn walk_events(g: StateGraph, walk: Seq<int>) -> Seq<Option<EvView>> {
    walk.map_values(|e: int| event_of(g.edges@[e].transition_type@))
}

/// The path of the search along a walk.
pub open spec fn run(g: StateGraph, walk: Seq<int>) -> FrameView
    decreases walk.len(),
{
    if walk.len() == 0 {
        start_frame(g.initial)
    } else {
        advanced(run(g, walk.drop_last()), g.edges@[walk.last()])
    }
}

/// The thread has started a pattern on the location.
pub open spec fn started(
    events: Seq<Option<EvView>>,
    rule: Rule,
    key: AliasKey,
    tid: usize,
) -> bool {
    exists|t: int| 0 <= t < events.len() && does(#[trigger] events[t], rule.start, key, tid)
}

/// At `t` the thread `by` interferes with a start of the thread `tid`, which
/// has neither started anew nor ended since.
pub open spec fn pends_from(
    events: Seq<Option<EvView>>,
    rule: Rule,
    key: AliasKey,
    tid: usize,
    by: usize,
    t: int,
) -> bool {
    &&& 0 <= t < events.len()
    &&& by != tid
    &&& does(events[t], rule.mid, key, by)
    &&& started(events.take(t), rule, key, tid)
    &&& forall|u: int|
        t < u < events.len() ==> !does(#[trigger] events[u], rule.start, key, tid) && !does(
            events[u],
            rule.end,
            key,
            tid,
        )
}

/// The thread `by` has interfered with a start of the thread `tid`.
pub open spec fn pending(
    events: Seq<Option<EvView>>,
    rule: Rule,
    key: AliasKey,
    tid: usize,
    by: usize,
) -> bool {
    exists|t: int| pends_from(events, rule, key, tid, by, t)
}

/// A start of the thread is recorded.
pub open spec fn has_start(s: Seq<StartEntry>, key: AliasKey, tid: usize) -> bool {
    exists|j: int| 0 <= j < s.len() && (#[trigger] s[j]).key == key && s[j].tid == tid
}

/// A remote event by the thread `by` is recorded.
pub open spec fn has_mid(s: Seq<MidEntry>, key: AliasKey, tid: usize, by: usize) -> bool {
    exists|j: int|
        0 <= j < s.len() && (#[trigger] s[j]).key == key && s[j].tid == tid && s[j].by == by
}

/// The starts are in ascending order.
pub open spec fn starts_ascend(s: Seq<StartEntry>) -> bool {
    forall|i: int, j: int| 0 <= i < j < s.len() ==> start_before(#[trigger] s[i], #[trigger] s[j])
}

/// The remote events are in ascending order.
pub open spec fn mids_ascend(s: Seq<MidEntry>) -> bool {
    forall|i: int, j: int| 0 <= i < j < s.len() ==> mid_before(#[trigger] s[i], #[trigger] s[j])
}

/// The start lies before the remote event and is of the same thread.
pub open spec fn start_precedes(e: StartEntry, m: MidEntry) -> bool {
    e.key == m.key && e.tid == m.tid && e.at < m.at
}

/// The progress of a pattern is that of the events.
#[verifier::opaque]
pub open spec fn progress(p: PatternView, events: Seq<Option<EvView>>, rule: Rule) -> bool {
    &&& starts_ascend(p.starts)
    &&& mids_ascend(p.mids)
    &&& forall|j: int| 0 <= j < p.starts.len() ==> latest_start(#[trigger] p.starts[j], events, rule)
    &&& forall|j: int|
        0 <= j < p.mids.len() ==> remote_event(#[trigger] p.mids[j], p.starts, events, rule)
    &&& forall|key: AliasKey, tid: usize| #[trigger]
        has_start(p.starts, key, tid) <==> started(events, rule, key, tid)
    &&& forall|key: AliasKey, tid: usize, by: usize| #[trigger]
        has_mid(p.mids, key, tid, by) <==> pending(events, rule, key, tid, by)
}

/// The entry is the latest start of its thread on its location.
pub open spec fn latest_start(e: StartEntry, events: Seq<Option<EvView>>, rule: Rule) -> bool {
    &&& e.at < events.len()
    &&& does(events[e.at as int], rule.start, e.key, e.tid)
    &&& forall|t: int|
        e.at < t < events.len() ==> !does(#[trigger] events[t], rule.start, e.key, e.tid)
}

/// The entry is an event of another thread after a recorded start.
pub open spec fn remote_event(
    m: MidEntry,
    starts: Seq<StartEntry>,
    events: Seq<Option<EvView>>,
    rule: Rule,
) -> bool {
    &&& m.at < events.len()
    &&& m.by != m.tid
    &&& does(events[m.at as int], rule.mid, m.key, m.by)
    &&& exists|i: int| 0 <= i < starts.len() && start_precedes(#[trigger] starts[i], m)
}

// Ascending lists.

proof fn with_start_ascends(s: Seq<StartEntry>, e: StartEntry)
    requires
        starts_ascend(s),
    ensures
        starts_ascend(with_start(s, e)),
        forall|x: StartEntry| #[trigger]
            with_start(s, e).contains(x) <==> x == e || (s.contains(x) && !same_start(x, e)),
    decreases s.len(),
{
    let r = with_start(s, e);
    if s.len() == 0 {
        assert(r =~= seq![e]);
        assert(r[0] == e);
    } else {
        let rest = s.drop_first();
        assert(starts_ascend(rest)) by {
            assert forall|i: int, j: int| 0 <= i < j < rest.len() implies start_before(
                #[trigger] rest[i],
                #[trigger] rest[j],
            ) by {
                assert(rest[i] == s[i + 1] && rest[j] == s[j + 1]);
            }
        }
        assert forall|x: StartEntry| s.contains(x) <==> x == s[0] || rest.contains(x) by {
            if s.contains(x) {
                let i = choose|i: int| 0 <= i < s.len() && s[i] == x;
                if i > 0 {
                    assert(rest[i - 1] == x);
                }
            }
            if rest.contains(x) {
                let i = choose|i: int| 0 <= i < rest.len() && rest[i] == x;
                assert(s[i + 1] == x);
            }
            assert(s[0] == s[0]);
        }
        assert forall|x: StartEntry| rest.contains(x) implies start_before(s[0], x) by {
            let i = choose|i: int| 0 <= i < rest.len() && rest[i] == x;
            assert(s[i + 1] == x);
        }
        if same_start(s[0], e) {
            prepend_start(e, rest);
        } else if start_before(e, s[0]) {
            assert forall|x: StartEntry| s.contains(x) implies start_before(e, x) by {
                if x != s[0] {
                    assert(start_before(s[0], x));
                }
            }
            prepend_start(e, s);
        } else {
            with_start_ascends(rest, e);
            assert forall|x: StartEntry| with_start(rest, e).contains(x) implies start_before(
                s[0],
                x,
            ) by {
                if x != e {
                    assert(rest.contains(x));
                }
            }
            prepend_start(s[0], with_start(rest, e));
        }
        assert forall|x: StartEntry| #[trigger] r.contains(x) <==> x == e || (s.contains(x) && !same_start(
            x,
            e,
        )) by {
            if rest.contains(x) {
                assert(start_before(s[0], x));
            }
            if s.contains(x) && start_before(e, s[0]) {
                assert(x == s[0] || start_before(s[0], x));
            }
            if !same_start(s[0], e) && !start_before(e, s[0]) {
                assert(with_start(rest, e).contains(x) <==> x == e || (rest.contains(x) && !same_start(
                    x,
                    e,
                )));
            }
        }
    }
}

proof fn prepend_start(e: StartEntry, s: Seq<StartEntry>)
    requires
        starts_ascend(s),
        forall|x: StartEntry| s.contains(x) ==> start_before(e, x),
    ensures
        starts_ascend(seq![e] + s),
        forall|x: StartEntry| (seq![e] + s).contains(x) <==> x == e || s.contains(x),
{
    let r = seq![e] + s;
    assert forall|i: int, j: int| 0 <= i < j < r.len() implies start_before(
        #[trigger] r[i],
        #[trigger] r[j],
    ) by {
        assert(r[j] == s[j - 1]);
        if i == 0 {
            assert(s.contains(s[j - 1]));
        } else {
            assert(r[i] == s[i - 1]);
        }
    }
    assert forall|x: StartEntry| r.contains(x) <==> x == e || s.contains(x) by {
        if r.contains(x) {
            let i = choose|i: int| 0 <= i < r.len() && r[i] == x;
            if i > 0 {
                assert(s[i - 1] == x);
            }
        }
        if s.contains(x) {
            let i = choose|i: int| 0 <= i < s.len() && s[i] == x;
            assert(r[i + 1] == x);
        }
        assert(r[0] == e);
    }
}

proof fn with_mid_ascends(s: Seq<MidEntry>, e: MidEntry)
    requires
        mids_ascend(s),
    ensures
        mids_ascend(with_mid(s, e)),
        forall|x: MidEntry| #[trigger]
            with_mid(s, e).contains(x) <==> x == e || (s.contains(x) && !same_mid(x, e)),
    decreases s.len(),
{
    let r = with_mid(s, e);
    if s.len() == 0 {
        assert(r =~= seq![e]);
        assert(r[0] == e);
    } else {
        let rest = s.drop_first();
        assert(mids_ascend(rest)) by {
            assert forall|i: int, j: int| 0 <= i < j < rest.len() implies mid_before(
                #[trigger] rest[i],
                #[trigger] rest[j],
            ) by {
                assert(rest[i] == s[i + 1] && rest[j] == s[j + 1]);
            }
        }
        assert forall|x: MidEntry| s.contains(x) <==> x == s[0] || rest.contains(x) by {
            if s.contains(x) {
                let i = choose|i: int| 0 <= i < s.len() && s[i] == x;
                if i > 0 {
                    assert(rest[i - 1] == x);
                }
            }
            if rest.contains(x) {
                let i = choose|i: int| 0 <= i < rest.len() && rest[i] == x;
                assert(s[i + 1] == x);
            }
            assert(s[0] == s[0]);
        }
        assert forall|x: MidEntry| rest.contains(x) implies mid_before(s[0], x) by {
            let i = choose|i: int| 0 <= i < rest.len() && rest[i] == x;
            assert(s[i + 1] == x);
        }
        if same_mid(s[0], e) {
            prepend_mid(e, rest);
        } else if mid_before(e, s[0]) {
            assert forall|x: MidEntry| s.contains(x) implies mid_before(e, x) by {
                if x != s[0] {
                    assert(mid_before(s[0], x));
                }
            }
            prepend_mid(e, s);
        } else {
            with_mid_ascends(rest, e);
            assert forall|x: MidEntry| with_mid(rest, e).contains(x) implies mid_before(
                s[0],
                x,
            ) by {
                if x != e {
                    assert(rest.contains(x));
                }
            }
            prepend_mid(s[0], with_mid(rest, e));
        }
        assert forall|x: MidEntry| #[trigger] r.contains(x) <==> x == e || (s.contains(x) && !same_mid(
            x,
            e,
        )) by {
            if rest.contains(x) {
                assert(mid_before(s[0], x));
            }
            if s.contains(x) && mid_before(e, s[0]) {
                assert(x == s[0] || mid_before(s[0], x));
            }
            if !same_mid(s[0], e) && !mid_before(e, s[0]) {
                assert(with_mid(rest, e).contains(x) <==> x == e || (rest.contains(x) && !same_mid(
                    x,
                    e,
                )));
            }
        }
    }
}

proof fn prepend_mid(e: MidEntry, s: Seq<MidEntry>)
    requires
        mids_ascend(s),
        forall|x: MidEntry| s.contains(x) ==> mid_before(e, x),
    ensures
        mids_ascend(seq![e] + s),
        forall|x: MidEntry| (seq![e] + s).contains(x) <==> x == e || s.contains(x),
{
    let r = seq![e] + s;
    assert forall|i: int, j: int| 0 <= i < j < r.len() implies mid_before(
        #[trigger] r[i],
        #[trigger] r[j],
    ) by {
        assert(r[j] == s[j - 1]);
        if i == 0 {
            assert(s.contains(s[j - 1]));
        } else {
            assert(r[i] == s[i - 1]);
        }
    }
    assert forall|x: MidEntry| r.contains(x) <==> x == e || s.contains(x) by {
        if r.contains(x) {
            let i = choose|i: int| 0 <= i < r.len() && r[i] == x;
            if i > 0 {
                assert(s[i - 1] == x);
            }
        }
        if s.contains(x) {
            let i = choose|i: int| 0 <= i < s.len() && s[i] == x;
            assert(r[i + 1] == x);
        }
        assert(r[0] == e);
    }
}

proof fn filter_ascends(s: Seq<MidEntry>, keep: spec_fn(MidEntry) -> bool)
    requires
        mids_ascend(s),
    ensures
        mids_ascend(s.filter(keep)),
        forall|x: MidEntry| #[trigger] s.filter(keep).contains(x) <==> s.contains(x) && keep(x),
    decreases s.len(),
{
    reveal(Seq::filter);
    if s.len() == 0 {
        assert(s.filter(keep) =~= s);
    } else {
        let front = s.drop_last();
        let kept = front.filter(keep);
        let last = s.last();
        assert(mids_ascend(front)) by {
            assert forall|i: int, j: int| 0 <= i < j < front.len() implies mid_before(
                #[trigger] front[i],
                #[trigger] front[j],
            ) by {
                assert(front[i] == s[i] && front[j] == s[j]);
            }
        }
        filter_ascends(front, keep);
        let r = s.filter(keep);
        assert forall|x: MidEntry| s.contains(x) <==> x == last || front.contains(x) by {
            if s.contains(x) {
                let i = choose|i: int| 0 <= i < s.len() && s[i] == x;
                if i < front.len() {
                    assert(front[i] == x);
                }
            }
            if front.contains(x) {
                let i = choose|i: int| 0 <= i < front.len() && front[i] == x;
                assert(s[i] == x);
            }
            assert(s[s.len() - 1] == last);
        }
        if keep(last) {
            assert(r == kept.push(last));
            assert forall|i: int, j: int| 0 <= i < j < r.len() implies mid_before(
                #[trigger] r[i],
                #[trigger] r[j],
            ) by {
                assert(r[i] == kept[i]);
                if j < kept.len() {
                    assert(r[j] == kept[j]);
                } else {
                    assert(kept.contains(kept[i]));
                    let k = choose|k: int| 0 <= k < front.len() && front[k] == kept[i];
                    assert(s[k] == kept[i] && s[s.len() - 1] == last);
                }
            }
            assert forall|x: MidEntry| #[trigger] r.contains(x) <==> x == last || kept.contains(
                x,
            ) by {
                if r.contains(x) {
                    let i = choose|i: int| 0 <= i < r.len() && r[i] == x;
                    if i < kept.len() {
                        assert(kept[i] == x);
                    }
                }
                if kept.contains(x) {
                    let i = choose|i: int| 0 <= i < kept.len() && kept[i] == x;
                    assert(r[i] == x);
                }
                assert(r[kept.len() as int] == last);
            }
        }
    }
}

proof fn with_remote_ascends(
    starts: Seq<StartEntry>,
    mids: Seq<MidEntry>,
    key: AliasKey,
    by: usize,
    at: usize,
)
    requires
        mids_ascend(mids),
    ensures
        mids_ascend(with_remote(starts, mids, key, by, at)),
        forall|x: MidEntry| #[trigger]
            with_remote(starts, mids, key, by, at).contains(x) ==> (mids.contains(x) || (x.key
                == key && x.by == by && x.at == at && x.tid != by && has_start(starts, key, x.tid))),
        forall|k: AliasKey, t: usize, b: usize| #[trigger]
            has_mid(with_remote(starts, mids, key, by, at), k, t, b) <==> (has_mid(mids, k, t, b)
                || (k == key && b == by && t != by && has_start(starts, key, t))),
    decreases starts.len(),
{
    let r = with_remote(starts, mids, key, by, at);
    if starts.len() == 0 {
    } else {
        let front = starts.drop_last();
        let last = starts.last();
        let before = with_remote(front, mids, key, by, at);
        with_remote_ascends(front, mids, key, by, at);
        assert forall|t: usize| has_start(starts, key, t) <==> has_start(front, key, t) || (
        last.key == key && last.tid == t) by {
            if has_start(starts, key, t) {
                let j = choose|j: int|
                    0 <= j < starts.len() && (#[trigger] starts[j]).key == key && starts[j].tid
                        == t;
                if j < front.len() {
                    assert(front[j] == starts[j]);
                }
            }
            if has_start(front, key, t) {
                let j = choose|j: int|
                    0 <= j < front.len() && (#[trigger] front[j]).key == key && front[j].tid == t;
                assert(starts[j] == front[j]);
            }
            assert(starts[starts.len() - 1] == last);
        }
        if last.key == key && last.tid != by {
            let e = MidEntry { key, tid: last.tid, by, at };
            with_mid_ascends(before, e);
            assert forall|k: AliasKey, t: usize, b: usize| #[trigger] has_mid(r, k, t, b) <==> (
            has_mid(before, k, t, b) || (k == key && t == last.tid && b == by)) by {
                if has_mid(r, k, t, b) {
                    let j = choose|j: int|
                        0 <= j < r.len() && (#[trigger] r[j]).key == k && r[j].tid == t && r[j].by
                            == b;
                    assert(r.contains(r[j]));
                    if r[j] != e {
                        let i = choose|i: int| 0 <= i < before.len() && before[i] == r[j];
                        assert(before[i].key == k);
                    }
                }
                if has_mid(before, k, t, b) {
                    let j = choose|j: int|
                        0 <= j < before.len() && (#[trigger] before[j]).key == k && before[j].tid
                            == t && before[j].by == b;
                    assert(before.contains(before[j]));
                    if !same_mid(before[j], e) {
                        assert(r.contains(before[j]));
                        let i = choose|i: int| 0 <= i < r.len() && r[i] == before[j];
                        assert(r[i].key == k);
                    }
                }
                if k == key && t == last.tid && b == by {
                    assert(r.contains(e));
                    let i = choose|i: int| 0 <= i < r.len() && r[i] == e;
                    assert(r[i].key == k);
                } else if has_mid(before, k, t, b) {
                    assert(has_mid(r, k, t, b));
                }
            }
        }
    }
}

// What one more event changes.

proof fn started_push(events: Seq<Option<EvView>>, x: Option<EvView>, rule: Rule, key: AliasKey, tid: usize)
    ensures
        started(events.push(x), rule, key, tid) <==> started(events, rule, key, tid) || does(
            x,
            rule.start,
            key,
            tid,
        ),
{
    let all = events.push(x);
    if started(all, rule, key, tid) {
        let t = choose|t: int|
            0 <= t < all.len() && does(#[trigger] all[t], rule.start, key, tid);
        if t < events.len() {
            assert(events[t] == all[t]);
        }
    }
    if started(events, rule, key, tid) {
        let t = choose|t: int|
            0 <= t < events.len() && does(#[trigger] events[t], rule.start, key, tid);
        assert(all[t] == events[t]);
    }
    assert(all[events.len() as int] == x);
}

proof fn pending_push(
    events: Seq<Option<EvView>>,
    x: Option<EvView>,
    rule: Rule,
    key: AliasKey,
    tid: usize,
    by: usize,
)
    ensures
        pending(events.push(x), rule, key, tid, by) <==> (pending(events, rule, key, tid, by)
            && !does(x, rule.start, key, tid) && !does(x, rule.end, key, tid)) || (does(
            x,
            rule.mid,
            key,
            by,
        ) && by != tid && started(events, rule, key, tid)),
{
    let all = events.push(x);
    let n = events.len() as int;
    assert(all[n] == x);
    assert(all.take(n) =~= events);
    if pending(all, rule, key, tid, by) {
        let t = choose|t: int| pends_from(all, rule, key, tid, by, t);
        if t < n {
            assert(all[t] == events[t]);
            assert(all.take(t) =~= events.take(t));
            assert forall|u: int| t < u < events.len() implies !does(
                #[trigger] events[u],
                rule.start,
                key,
                tid,
            ) && !does(events[u], rule.end, key, tid) by {
                assert(all[u] == events[u]);
            }
            assert(pends_from(events, rule, key, tid, by, t));
        }
    }
    if pending(events, rule, key, tid, by) && !does(x, rule.start, key, tid) && !does(
        x,
        rule.end,
        key,
        tid,
    ) {
        let t = choose|t: int| pends_from(events, rule, key, tid, by, t);
        assert(all[t] == events[t]);
        assert(all.take(t) =~= events.take(t));
        assert forall|u: int| t < u < all.len() implies !does(
            #[trigger] all[u],
            rule.start,
            key,
            tid,
        ) && !does(all[u], rule.end, key, tid) by {
            if u < n {
                assert(all[u] == events[u]);
            }
        }
        assert(pends_from(all, rule, key, tid, by, t));
    }
    if does(x, rule.mid, key, by) && by != tid && started(events, rule, key, tid) {
        assert(pends_from(all, rule, key, tid, by, n));
    }
}

/// A start is recorded exactly where the latest one can be looked up.
proof fn start_of_some(s: Seq<StartEntry>, key: AliasKey, tid: usize)
    ensures
        start_of(s, key, tid) is Some <==> has_start(s, key, tid),
    decreases s.len(),
{
    if s.len() > 0 {
        let rest = s.drop_first();
        start_of_some(rest, key, tid);
        if has_start(s, key, tid) {
            let j = choose|j: int|
                0 <= j < s.len() && (#[trigger] s[j]).key == key && s[j].tid == tid;
            if j > 0 {
                assert(rest[j - 1] == s[j]);
            }
        }
        if has_start(rest, key, tid) {
            let j = choose|j: int|
                0 <= j < rest.len() && (#[trigger] rest[j]).key == key && rest[j].tid == tid;
            assert(s[j + 1] == rest[j]);
        }
        assert(s[0] == s[0]);
    }
}

/// The remote events that an end leaves are those of other threads or
/// locations.
proof fn end_clears_the_thread(
    f: FrameView,
    rule: Rule,
    ev: EvView,
)
    requires
        0 < f.events.len() == f.trace.len() <= usize::MAX,
        progress(f.states[rule.id as int], f.events.drop_last(), rule),
    ensures
        mids_ascend(mids_after_end(f, rule, ev)),
        forall|x: MidEntry| #[trigger]
            mids_after_end(f, rule, ev).contains(x) <==> f.states[rule.id as int].mids.contains(x)
                && !(ev.kind == rule.end && x.key == alias_key(ev.alias) && x.tid == ev.tid),
{
    reveal(progress);
    let p = f.states[rule.id as int];
    let prev = f.events.drop_last();
    let key = alias_key(ev.alias);
    let now = position(f);
    let ended = mids_after_end(f, rule, ev);
    start_of_some(p.starts, key, ev.tid);
    if ev.kind == rule.end {
        match start_of(p.starts, key, ev.tid) {
            Some(start) => {
                let keep = |m: MidEntry| !completes(m, key, ev.tid, start, now);
                filter_ascends(p.mids, keep);
                assert(ended == p.mids.filter(keep));
                let j = start_of_entry(p.starts, key, ev.tid);
                assert forall|x: MidEntry| p.mids.contains(x) && x.key == key && x.tid
                    == ev.tid implies completes(x, key, ev.tid, start, now) by {
                    let k = choose|k: int| 0 <= k < p.mids.len() && p.mids[k] == x;
                    assert(remote_event(p.mids[k], p.starts, prev, rule));
                    let i = choose|i: int|
                        0 <= i < p.starts.len() && start_precedes(#[trigger] p.starts[i], x);
                    if i < j {
                        assert(start_before(p.starts[i], p.starts[j]));
                    } else if j < i {
                        assert(start_before(p.starts[j], p.starts[i]));
                    }
                }
            },
            None => {
                assert forall|x: MidEntry| p.mids.contains(x) implies !(x.key == key && x.tid
                    == ev.tid) by {
                    let k = choose|k: int| 0 <= k < p.mids.len() && p.mids[k] == x;
                    assert(remote_event(p.mids[k], p.starts, prev, rule));
                    let i = choose|i: int|
                        0 <= i < p.starts.len() && start_precedes(#[trigger] p.starts[i], x);
                    assert(p.starts[i].key == x.key);
                }
            },
        }
    }
}

proof fn has_mid_of_subset(s: Seq<MidEntry>, x: MidEntry)
    requires
        s.contains(x),
    ensures
        has_mid(s, x.key, x.tid, x.by),
{
    let i = choose|i: int| 0 <= i < s.len() && s[i] == x;
    assert(s[i].key == x.key);
}

proof fn mid_entry_of(s: Seq<MidEntry>, key: AliasKey, tid: usize, by: usize) -> (x: MidEntry)
    requires
        has_mid(s, key, tid, by),
    ensures
        s.contains(x),
        x.key == key,
        x.tid == tid,
        x.by == by,
{
    let i = choose|i: int|
        0 <= i < s.len() && (#[trigger] s[i]).key == key && s[i].tid == tid && s[i].by == by;
    assert(s.contains(s[i]));
    s[i]
}

/// Holding an event against a pattern keeps its progress that of the events.
proof fn progress_step(f: FrameView, rule: Rule, ev: EvView)
    requires
        0 < f.events.len() == f.trace.len() <= usize::MAX,
        f.events.last() == Some(ev),
        progress(f.states[rule.id as int], f.events.drop_last(), rule),
    ensures
        progress(pattern_after(f, rule, ev), f.events, rule),
{
    reveal(progress);
    let p = f.states[rule.id as int];
    let q = pattern_after(f, rule, ev);
    let prev = f.events.drop_last();
    let events = f.events;
    let key = alias_key(ev.alias);
    let now = position(f);
    let x = Some(ev);
    assert(events =~= prev.push(x));
    assert(events[now as int] == x);
    let ended = mids_after_end(f, rule, ev);
    end_clears_the_thread(f, rule, ev);
    let seen = if ev.kind == rule.mid {
        with_remote(p.starts, ended, key, ev.tid, now)
    } else {
        ended
    };
    if ev.kind == rule.mid {
        with_remote_ascends(p.starts, ended, key, ev.tid, now);
    }
    let new = StartEntry { key, tid: ev.tid, at: now };
    let keep = |m: MidEntry| !(m.key == key && m.tid == ev.tid);
    if ev.kind == rule.start {
        with_start_ascends(p.starts, new);
        filter_ascends(seen, keep);
        assert(q.mids == seen.filter(keep));
    }
    assert(mids_ascend(seen));
    // The starts.
    assert forall|j: int| 0 <= j < q.starts.len() implies latest_start(
        #[trigger] q.starts[j],
        events,
        rule,
    ) by {
        let e = q.starts[j];
        assert(q.starts.contains(e));
        if ev.kind == rule.start && e == new {
        } else {
            assert(p.starts.contains(e));
            let k = choose|k: int| 0 <= k < p.starts.len() && p.starts[k] == e;
            assert(latest_start(p.starts[k], prev, rule));
            assert(events[e.at as int] == prev[e.at as int]);
            assert forall|t: int| e.at < t < events.len() implies !does(
                #[trigger] events[t],
                rule.start,
                e.key,
                e.tid,
            ) by {
                if t < prev.len() {
                    assert(events[t] == prev[t]);
                }
            }
        }
    }
    assert forall|k: AliasKey, t: usize| #[trigger] has_start(q.starts, k, t) <==> started(
        events,
        rule,
        k,
        t,
    ) by {
        started_push(prev, x, rule, k, t);
        assert(has_start(p.starts, k, t) <==> started(prev, rule, k, t));
        if ev.kind == rule.start {
            if has_start(q.starts, k, t) {
                let j = choose|j: int|
                    0 <= j < q.starts.len() && (#[trigger] q.starts[j]).key == k && q.starts[j].tid
                        == t;
                assert(q.starts.contains(q.starts[j]));
                if q.starts[j] != new {
                    let i = choose|i: int| 0 <= i < p.starts.len() && p.starts[i] == q.starts[j];
                    assert(p.starts[i].key == k);
                }
            }
            if has_start(p.starts, k, t) {
                let j = choose|j: int|
                    0 <= j < p.starts.len() && (#[trigger] p.starts[j]).key == k && p.starts[j].tid
                        == t;
                assert(p.starts.contains(p.starts[j]));
                if !same_start(p.starts[j], new) {
                    assert(q.starts.contains(p.starts[j]));
                    let i = choose|i: int| 0 <= i < q.starts.len() && q.starts[i] == p.starts[j];
                    assert(q.starts[i].key == k);
                }
            }
            assert(q.starts.contains(new));
            let i = choose|i: int| 0 <= i < q.starts.len() && q.starts[i] == new;
            assert(q.starts[i].key == key);
        }
    }
    // The remote events.
    assert forall|j: int| 0 <= j < q.mids.len() implies remote_event(
        #[trigger] q.mids[j],
        q.starts,
        events,
        rule,
    ) by {
        let m = q.mids[j];
        assert(q.mids.contains(m));
        assert(seen.contains(m));
        assert(exists|i: int| 0 <= i < p.starts.len() && start_precedes(#[trigger] p.starts[i], m)
            && m.at < events.len() && m.by != m.tid && does(
            events[m.at as int],
            rule.mid,
            m.key,
            m.by,
        )) by {
            if ended.contains(m) {
                assert(p.mids.contains(m));
                let k = choose|k: int| 0 <= k < p.mids.len() && p.mids[k] == m;
                assert(remote_event(p.mids[k], p.starts, prev, rule));
                assert(events[m.at as int] == prev[m.at as int]);
            } else {
                assert(ev.kind == rule.mid);
                assert(has_start(p.starts, key, m.tid));
                let i = choose|i: int|
                    0 <= i < p.starts.len() && (#[trigger] p.starts[i]).key == key
                        && p.starts[i].tid == m.tid;
                assert(latest_start(p.starts[i], prev, rule));
                assert(start_precedes(p.starts[i], m));
            }
        }
        let i = choose|i: int|
            0 <= i < p.starts.len() && start_precedes(#[trigger] p.starts[i], m);
        assert(p.starts.contains(p.starts[i]));
        if ev.kind == rule.start {
            assert(keep(m));
            assert(q.starts.contains(p.starts[i]));
            let k = choose|k: int| 0 <= k < q.starts.len() && q.starts[k] == p.starts[i];
            assert(start_precedes(q.starts[k], m));
        } else {
            assert(start_precedes(q.starts[i], m));
        }
    }
    assert forall|k: AliasKey, t: usize, b: usize| #[trigger] has_mid(q.mids, k, t, b) <==> pending(
        events,
        rule,
        k,
        t,
        b,
    ) by {
        pending_push(prev, x, rule, k, t, b);
        assert(has_start(p.starts, k, t) <==> started(prev, rule, k, t));
        assert(has_mid(p.mids, k, t, b) <==> pending(prev, rule, k, t, b));
        // After the end.
        let cleared = ev.kind == rule.end && k == key && t == ev.tid;
        if has_mid(ended, k, t, b) {
            let m = mid_entry_of(ended, k, t, b);
            assert(p.mids.contains(m));
            has_mid_of_subset(p.mids, m);
        }
        if has_mid(p.mids, k, t, b) && !cleared {
            let m = mid_entry_of(p.mids, k, t, b);
            assert(ended.contains(m));
            has_mid_of_subset(ended, m);
        }
        assert(has_mid(ended, k, t, b) <==> has_mid(p.mids, k, t, b) && !cleared);
        let remote = ev.kind == rule.mid && k == key && b == ev.tid && t != b && has_start(
            p.starts,
            k,
            t,
        );
        assert(has_mid(seen, k, t, b) <==> has_mid(ended, k, t, b) || remote);
        if ev.kind == rule.start {
            if has_mid(q.mids, k, t, b) {
                let m = mid_entry_of(q.mids, k, t, b);
                assert(seen.contains(m));
                has_mid_of_subset(seen, m);
            }
            if has_mid(seen, k, t, b) && !(k == key && t == ev.tid) {
                let m = mid_entry_of(seen, k, t, b);
                assert(q.mids.contains(m));
                has_mid_of_subset(q.mids, m);
            }
        }
    }
}

/// An event that is no atomic event changes nothing.
proof fn progress_idle(p: PatternView, events: Seq<Option<EvView>>, rule: Rule)
    requires
        progress(p, events, rule),
    ensures
        progress(p, events.push(None), rule),
{
    reveal(progress);
    let all = events.push(None);
    assert forall|j: int| 0 <= j < p.starts.len() implies latest_start(
        #[trigger] p.starts[j],
        all,
        rule,
    ) by {
        let e = p.starts[j];
        assert(latest_start(e, events, rule));
        assert(all[e.at as int] == events[e.at as int]);
        assert forall|t: int| e.at < t < all.len() implies !does(
            #[trigger] all[t],
            rule.start,
            e.key,
            e.tid,
        ) by {
            if t < events.len() {
                assert(all[t] == events[t]);
            }
        }
    }
    assert forall|j: int| 0 <= j < p.mids.len() implies remote_event(
        #[trigger] p.mids[j],
        p.starts,
        all,
        rule,
    ) by {
        assert(remote_event(p.mids[j], p.starts, events, rule));
        assert(all[p.mids[j].at as int] == events[p.mids[j].at as int]);
    }
    assert forall|k: AliasKey, t: usize| #[trigger] has_start(p.starts, k, t) <==> started(
        all,
        rule,
        k,
        t,
    ) by {
        started_push(events, None, rule, k, t);
    }
    assert forall|k: AliasKey, t: usize, b: usize| #[trigger] has_mid(p.mids, k, t, b) <==> pending(
        all,
        rule,
        k,
        t,
        b,
    ) by {
        pending_push(events, None, rule, k, t, b);
    }
}

// Paths of the search.

pub(crate) proof fn held_facts(f: FrameView, ev: EvView, n: nat)
    requires
        f.states.len() == RULE_COUNT,
        n <= RULE_COUNT,
    ensures
        held(f, ev, n).node == f.node,
        held(f, ev, n).trace == f.trace,
        held(f, ev, n).events == f.events,
        held(f, ev, n).states.len() == RULE_COUNT,
        forall|r: int|
            0 <= r < n ==> #[trigger] held(f, ev, n).states[r] == pattern_after(f, rule_at(r), ev),
        forall|r: int| n <= r < RULE_COUNT ==> #[trigger] held(f, ev, n).states[r] == f.states[r],
    decreases n,
{
    if n > 0 {
        let m = (n - 1) as nat;
        held_facts(f, ev, m);
        let h = held(f, ev, m);
        assert(h.states[n - 1] == f.states[n - 1]);
        assert(pattern_after(h, rule_at(n - 1), ev) == pattern_after(f, rule_at(n - 1), ev));
        assert forall|r: int| 0 <= r < n implies #[trigger] held(f, ev, n).states[r]
            == pattern_after(f, rule_at(r), ev) by {
            if r < m {
                assert(h.states[r] == pattern_after(f, rule_at(r), ev));
            }
        }
        assert forall|r: int| n <= r < RULE_COUNT implies #[trigger] held(f, ev, n).states[r]
            == f.states[r] by {
            assert(h.states[r] == f.states[r]);
        }
    }
}

/// The search path along a walk records the walk.
pub open spec fn follows(g: StateGraph, f: FrameView, walk: Seq<int>) -> bool {
    &&& f.node == walk_node(g, g.initial, walk, walk.len() as int)
    &&& f.events == walk_events(g, walk)
    &&& f.trace.len() == walk.len()
    &&& f.states.len() == RULE_COUNT
    &&& forall|r: int|
        0 <= r < RULE_COUNT ==> progress(#[trigger] f.states[r], f.events, rule_at(r))
}

proof fn progress_begins(rule: Rule)
    ensures
        progress(
            PatternView { starts: Seq::empty(), mids: Seq::empty() },
            Seq::<Option<EvView>>::empty(),
            rule,
        ),
{
    reveal(progress);
    let p = PatternView { starts: Seq::empty(), mids: Seq::empty() };
    let events = Seq::<Option<EvView>>::empty();
    assert forall|k: AliasKey, t: usize, b: usize| #[trigger] has_mid(p.mids, k, t, b) <==> pending(
        events,
        rule,
        k,
        t,
        b,
    ) by {
        if pending(events, rule, k, t, b) {
            let u = choose|u: int| pends_from(events, rule, k, t, b, u);
            assert(0 <= u < events.len());
        }
    }
}

proof fn advanced_follows(g: StateGraph, f: FrameView, walk: Seq<int>, e: int)
    requires
        follows(g, f, walk),
        walk.len() < usize::MAX,
    ensures
        follows(g, advanced(f, g.edges@[e]), walk.push(e)),
{
    let edge = g.edges@[e];
    let x = extended(f, edge);
    let longer = walk.push(e);
    assert(x.events =~= walk_events(g, longer));
    assert(longer[longer.len() - 1] == e);
    match event_of(edge.transition_type@) {
        Some(ev) => {
            held_facts(x, ev, RULE_COUNT as nat);
            let h = held(x, ev, RULE_COUNT as nat);
            assert forall|r: int| 0 <= r < RULE_COUNT implies progress(
                #[trigger] h.states[r],
                h.events,
                rule_at(r),
            ) by {
                assert(x.events.drop_last() =~= f.events);
                assert(progress(f.states[r], f.events, rule_at(r)));
                progress_step(x, rule_at(r), ev);
            }
        },
        None => {
            assert forall|r: int| 0 <= r < RULE_COUNT implies progress(
                #[trigger] x.states[r],
                x.events,
                rule_at(r),
            ) by {
                assert(progress(f.states[r], f.events, rule_at(r)));
                progress_idle(f.states[r], f.events, rule_at(r));
            }
        },
    }
}

pub(crate) proof fn run_follows(g: StateGraph, walk: Seq<int>)
    requires
        walk.len() <= usize::MAX,
    ensures
        follows(g, run(g, walk), walk),
    decreases walk.len(),
{
    let f = run(g, walk);
    if walk.len() == 0 {
        assert(f.events =~= walk_events(g, walk));
        assert forall|r: int| 0 <= r < RULE_COUNT implies progress(
            #[trigger] f.states[r],
            f.events,
            rule_at(r),
        ) by {
            progress_begins(rule_at(r));
            assert(f.states[r] == PatternView { starts: Seq::empty(), mids: Seq::empty() });
        }
    } else {
        let front = walk.drop_last();
        run_follows(g, front);
        assert(front.push(walk.last()) =~= walk);
        advanced_follows(g, run(g, front), front, walk.last());
    }
}

// Every witness is real.

/// The witness is the interruption of a pattern on a walk of at most `limit`
/// edges from the initial state.
pub open spec fn shows(
    g: StateGraph,
    limit: nat,
    w: WitnessView,
    walk: Seq<int>,
    r: int,
    i: int,
    j: int,
    k: int,
) -> bool {
    let events = walk_events(g, walk);
    &&& 0 <= r < RULE_COUNT
    &&& is_walk(g, g.initial, walk)
    &&& walk.len() <= limit
    &&& interrupted(events, rule_at(r), i, j, k)
    &&& w == (WitnessView {
        kind: kind_of_rule(r),
        start: events[i]->0,
        mid: events[j]->0,
        end: events[k]->0,
    })
}

/// Some walk of at most `limit` edges from the initial state shows the witness.
pub open spec fn shown(g: StateGraph, limit: nat, w: WitnessView) -> bool {
    exists|walk: Seq<int>, r: int, i: int, j: int, k: int| shows(g, limit, w, walk, r, i, j, k)
}

/// All witnesses are real, and each triple of transitions counted once.
#[verifier::opaque]
pub open spec fn sound(g: StateGraph, limit: nat, found: Found) -> bool {
    &&& forall|n: int|
        0 <= n < found.witnesses.len() ==> shown(g, limit, #[trigger] found.witnesses[n])
    &&& found.seen.len() == found.witnesses.len()
    &&& found.seen.no_duplicates()
}

proof fn push_sound(
    g: StateGraph,
    limit: nat,
    found: Found,
    w: WitnessView,
    triple: (usize, TransitionId, TransitionId, TransitionId),
)
    requires
        sound(g, limit, found),
        shown(g, limit, w),
        !found.seen.contains(triple),
    ensures
        sound(
            g,
            limit,
            Found { witnesses: found.witnesses.push(w), seen: found.seen.push(triple) },
        ),
{
    reveal(sound);
    let after = Found { witnesses: found.witnesses.push(w), seen: found.seen.push(triple) };
    assert forall|n: int| 0 <= n < after.witnesses.len() implies shown(
        g,
        limit,
        #[trigger] after.witnesses[n],
    ) by {
        if n < found.witnesses.len() {
            assert(after.witnesses[n] == found.witnesses[n]);
        }
    }
    assert forall|a: int, b: int|
        0 <= a < after.seen.len() && 0 <= b < after.seen.len() && a != b implies after.seen[a]
        != after.seen[b] by {
        if a < found.seen.len() && b < found.seen.len() {
            assert(found.seen[a] != found.seen[b]);
        } else if a < found.seen.len() {
            assert(found.seen.contains(found.seen[a]));
        } else {
            assert(found.seen.contains(found.seen[b]));
        }
    }
}

proof fn noted_sound(
    g: StateGraph,
    limit: nat,
    f: FrameView,
    walk: Seq<int>,
    r: int,
    start: usize,
    mid: usize,
    ev: EvView,
    found: Found,
)
    requires
        0 <= r < RULE_COUNT,
        is_walk(g, g.initial, walk),
        walk.len() <= limit,
        f.events == walk_events(g, walk),
        f.events.last() == Some(ev),
        interrupted(f.events, rule_at(r), start as int, mid as int, f.events.len() - 1),
        sound(g, limit, found),
    ensures
        sound(g, limit, noted(f, rule_at(r), start, mid, ev, found)),
        noted(f, rule_at(r), start, mid, ev, found).witnesses.len() > 0,
        noted(f, rule_at(r), start, mid, ev, found).witnesses.len() >= found.witnesses.len(),
{
    let triple = (
        rule_at(r).id,
        f.trace[start as int],
        f.trace[mid as int],
        f.trace.last(),
    );
    if found.seen.contains(triple) {
        reveal(sound);
        let n = choose|n: int| 0 <= n < found.seen.len() && found.seen[n] == triple;
        assert(found.seen.len() > 0);
    } else {
        let w = WitnessView {
            kind: kind_of_rule(r),
            start: f.events[start as int]->0,
            mid: f.events[mid as int]->0,
            end: ev,
        };
        assert(shows(g, limit, w, walk, r, start as int, mid as int, f.events.len() - 1));
        push_sound(g, limit, found, w, triple);
    }
}

/// Where an end follows a recorded interference, the events show the pattern.
proof fn completed_is_interrupted(f: FrameView, r: int, ev: EvView, start: usize, x: MidEntry)
    requires
        0 <= r < RULE_COUNT,
        0 < f.events.len() == f.trace.len() <= usize::MAX,
        f.events.last() == Some(ev),
        ev.kind == rule_at(r).end,
        progress(f.states[r], f.events.drop_last(), rule_at(r)),
        start_of(f.states[r].starts, alias_key(ev.alias), ev.tid) == Some(start),
        f.states[r].mids.contains(x),
        completes(x, alias_key(ev.alias), ev.tid, start, position(f)),
    ensures
        interrupted(f.events, rule_at(r), start as int, x.at as int, f.events.len() - 1),
{
    reveal(progress);
    let rule = rule_at(r);
    let key = alias_key(ev.alias);
    let p = f.states[r];
    let prev = f.events.drop_last();
    let s = start_of_entry(p.starts, key, ev.tid);
    assert(latest_start(p.starts[s], prev, rule));
    let m = choose|m: int| 0 <= m < p.mids.len() && p.mids[m] == x;
    assert(remote_event(p.mids[m], p.starts, prev, rule));
    assert(f.events[start as int] == prev[start as int]);
    assert(f.events[x.at as int] == prev[x.at as int]);
    assert forall|t: int| start < t < f.events.len() - 1 implies !does(
        #[trigger] f.events[t],
        rule.start,
        key,
        ev.tid,
    ) by {
        assert(f.events[t] == prev[t]);
    }
}

/// An end after an interference is found, whichever way the search came.
#[verifier::spinoff_prover]
proof fn end_is_found(
    g: StateGraph,
    limit: nat,
    f: FrameView,
    walk: Seq<int>,
    r: int,
    ev: EvView,
    mids: Seq<MidEntry>,
    start: usize,
    found: Found,
)
    requires
        0 <= r < RULE_COUNT,
        is_walk(g, g.initial, walk),
        walk.len() <= limit,
        f.events == walk_events(g, walk),
        f.events.last() == Some(ev),
        forall|n: int|
            0 <= n < mids.len() && completes(
                #[trigger] mids[n],
                alias_key(ev.alias),
                ev.tid,
                start,
                position(f),
            ) ==> interrupted(
                f.events,
                rule_at(r),
                start as int,
                mids[n].at as int,
                f.events.len() - 1,
            ),
        sound(g, limit, found),
    ensures
        sound(g, limit, all_noted(f, rule_at(r), mids, start, ev, position(f), found)),
        all_noted(f, rule_at(r), mids, start, ev, position(f), found).witnesses.len()
            >= found.witnesses.len(),
        (exists|n: int|
            0 <= n < mids.len() && completes(
                #[trigger] mids[n],
                alias_key(ev.alias),
                ev.tid,
                start,
                position(f),
            )) ==> all_noted(f, rule_at(r), mids, start, ev, position(f), found).witnesses.len() > 0,
    decreases mids.len(),
{
    let rule = rule_at(r);
    let key = alias_key(ev.alias);
    let now = position(f);
    if mids.len() > 0 {
        let front = mids.drop_last();
        let last = mids.last();
        assert forall|n: int|
            0 <= n < front.len() && completes(
                #[trigger] front[n],
                key,
                ev.tid,
                start,
                now,
            ) implies interrupted(
            f.events,
            rule,
            start as int,
            front[n].at as int,
            f.events.len() - 1,
        ) by {
            assert(front[n] == mids[n]);
        }
        end_is_found(g, limit, f, walk, r, ev, front, start, found);
        let before = all_noted(f, rule, front, start, ev, now, found);
        if completes(last, key, ev.tid, start, now) {
            assert(mids[mids.len() - 1] == last);
            noted_sound(g, limit, f, walk, r, start, last.at, ev, before);
        } else {
            if exists|n: int|
                0 <= n < mids.len() && completes(#[trigger] mids[n], key, ev.tid, start, now) {
                let n = choose|n: int|
                    0 <= n < mids.len() && completes(#[trigger] mids[n], key, ev.tid, start, now);
                assert(front[n] == mids[n]);
            }
        }
    }
}

/// The edge ends a pattern that another thread has interfered with.
pub open spec fn ends_interrupted(f: FrameView, x: Option<EvView>, r: int) -> bool {
    match x {
        Some(ev) => ev.kind == rule_at(r).end && exists|by: usize|
            has_mid(f.states[r].mids, alias_key(ev.alias), ev.tid, by),
        None => false,
    }
}

/// A recorded interference lies between the latest start and now.
pub(crate) proof fn interference_completes(
    p: PatternView,
    events: Seq<Option<EvView>>,
    rule: Rule,
    key: AliasKey,
    tid: usize,
    by: usize,
) -> (k: int)
    requires
        progress(p, events, rule),
        events.len() <= usize::MAX,
        has_mid(p.mids, key, tid, by),
    ensures
        start_of(p.starts, key, tid) is Some,
        0 <= k < p.mids.len(),
        completes(p.mids[k], key, tid, start_of(p.starts, key, tid)->0, events.len() as usize),
        p.mids[k].by == by,
{
    reveal(progress);
    let k = choose|k: int|
        0 <= k < p.mids.len() && (#[trigger] p.mids[k]).key == key && p.mids[k].tid == tid
            && p.mids[k].by == by;
    assert(remote_event(p.mids[k], p.starts, events, rule));
    let i = choose|i: int|
        0 <= i < p.starts.len() && start_precedes(#[trigger] p.starts[i], p.mids[k]);
    assert(p.starts[i].key == key);
    start_of_some(p.starts, key, tid);
    let s = start_of_entry(p.starts, key, tid);
    if i < s {
        assert(start_before(p.starts[i], p.starts[s]));
    } else if s < i {
        assert(start_before(p.starts[s], p.starts[i]));
    }
    k
}

proof fn found_after_end_sound(
    g: StateGraph,
    limit: nat,
    h: FrameView,
    walk: Seq<int>,
    r: int,
    ev: EvView,
    found: Found,
)
    requires
        0 <= r < RULE_COUNT,
        0 < h.events.len() == h.trace.len() <= usize::MAX,
        is_walk(g, g.initial, walk),
        walk.len() <= limit,
        h.events == walk_events(g, walk),
        h.events.last() == Some(ev),
        progress(h.states[r], h.events.drop_last(), rule_at(r)),
        sound(g, limit, found),
    ensures
        sound(g, limit, found_after_end(h, rule_at(r), ev, found)),
        found_after_end(h, rule_at(r), ev, found).witnesses.len() >= found.witnesses.len(),
        ends_interrupted(h, Some(ev), r) ==> found_after_end(
            h,
            rule_at(r),
            ev,
            found,
        ).witnesses.len() > 0,
{
    let rule = rule_at(r);
    let key = alias_key(ev.alias);
    let p = h.states[r];
    let prev = h.events.drop_last();
    if ev.kind == rule.end {
        match start_of(p.starts, key, ev.tid) {
            Some(start) => {
                assert forall|n: int|
                    0 <= n < p.mids.len() && completes(
                        #[trigger] p.mids[n],
                        key,
                        ev.tid,
                        start,
                        position(h),
                    ) implies interrupted(
                    h.events,
                    rule,
                    start as int,
                    p.mids[n].at as int,
                    h.events.len() - 1,
                ) by {
                    assert(p.mids.contains(p.mids[n]));
                    completed_is_interrupted(h, r, ev, start, p.mids[n]);
                }
                end_is_found(g, limit, h, walk, r, ev, p.mids, start, found);
            },
            None => {},
        }
        if ends_interrupted(h, Some(ev), r) {
            let by = choose|by: usize| has_mid(p.mids, key, ev.tid, by);
            interference_completes(p, prev, rule, key, ev.tid, by);
        }
    }
}

proof fn found_held_sound(
    g: StateGraph,
    limit: nat,
    f: FrameView,
    walk: Seq<int>,
    e: int,
    ev: EvView,
    n: nat,
    found: Found,
)
    requires
        follows(g, f, walk),
        walk.len() < limit <= usize::MAX,
        is_walk(g, g.initial, walk.push(e)),
        event_of(g.edges@[e].transition_type@) == Some(ev),
        n <= RULE_COUNT,
        sound(g, limit, found),
    ensures
        sound(g, limit, found_held(extended(f, g.edges@[e]), ev, n, found)),
        found_held(extended(f, g.edges@[e]), ev, n, found).witnesses.len()
            >= found.witnesses.len(),
        (exists|r: int| 0 <= r < n && #[trigger] ends_interrupted(f, Some(ev), r)) ==> found_held(
            extended(f, g.edges@[e]),
            ev,
            n,
            found,
        ).witnesses.len() > 0,
    decreases n,
{
    let x = extended(f, g.edges@[e]);
    if n > 0 {
        let m = (n - 1) as nat;
        found_held_sound(g, limit, f, walk, e, ev, m, found);
        let before = found_held(x, ev, m, found);
        held_facts(x, ev, m);
        let h = held(x, ev, m);
        let r = n - 1;
        assert(h.states[r] == x.states[r]);
        assert(h.events =~= walk_events(g, walk.push(e)));
        assert(h.events.drop_last() =~= f.events);
        assert(progress(f.states[r], f.events, rule_at(r)));
        found_after_end_sound(g, limit, h, walk.push(e), r, ev, before);
        assert(ends_interrupted(h, Some(ev), r) == ends_interrupted(f, Some(ev), r));
        if exists|q: int| 0 <= q < n && #[trigger] ends_interrupted(f, Some(ev), q) {
            let q = choose|q: int| 0 <= q < n && #[trigger] ends_interrupted(f, Some(ev), q);
            if q < m {
                assert(before.witnesses.len() > 0);
            }
        }
    }
}

/// A path of the search is the path along the walk.
pub open spec fn reached(g: StateGraph, f: FrameView, walk: Seq<int>, limit: nat) -> bool {
    is_walk(g, g.initial, walk) && walk.len() <= limit && f == run(g, walk)
}

/// A path of the search is the path along some walk.
pub open spec fn on_walk(g: StateGraph, f: FrameView, limit: nat) -> bool {
    exists|walk: Seq<int>| reached(g, f, walk, limit)
}

/// Every path to continue is the path along some walk.
pub open spec fn on_walks(g: StateGraph, stack: Seq<FrameView>, limit: nat) -> bool {
    forall|m: int| 0 <= m < stack.len() ==> on_walk(g, #[trigger] stack[m], limit)
}

/// The edges along which the search continues are those that leave the state.
proof fn along_sound(g: StateGraph, node: usize, n: int)
    requires
        g.wf(),
        0 <= n < edges_along(g, node).len(),
    ensures
        edges_along(g, node)[n].1 < g.edges@.len(),
        g.edges@[edges_along(g, node)[n].1 as int].source == node,
{
    let listed = g.outgoing_edges(node);
    by_transition_entries(g.edges@, listed, n);
    let k = choose|k: int| 0 <= k < listed.len() && listed[k] == edges_along(g, node)[n];
    let e = outgoing_sound(graph_edges(g.graph), node, k);
    assert(graph_edges(g.graph)[e].2 == e);
}

proof fn with_edge_complete(edges: Seq<StateEdge>, s: Seq<(usize, usize)>, x: (usize, usize))
    ensures
        with_edge(edges, s, x).contains(x),
        forall|y: (usize, usize)| #[trigger] s.contains(y) ==> with_edge(edges, s, x).contains(y),
    decreases s.len(),
{
    let r = with_edge(edges, s, x);
    if s.len() == 0 {
        assert(r[0] == x);
    } else if edges[s.last().1 as int].transition <= edges[x.1 as int].transition {
        assert(r[s.len() as int] == x);
        assert forall|y: (usize, usize)| #[trigger] s.contains(y) implies r.contains(y) by {
            let i = choose|i: int| 0 <= i < s.len() && s[i] == y;
            assert(r[i] == y);
        }
    } else {
        let front = s.drop_last();
        let before = with_edge(edges, front, x);
        with_edge_complete(edges, front, x);
        assert forall|y: (usize, usize)| y == x || #[trigger] s.contains(y) implies r.contains(y) by {
            if y == s.last() {
                assert(r[before.len() as int] == y);
            } else {
                if s.contains(y) {
                    let i = choose|i: int| 0 <= i < s.len() && s[i] == y;
                    assert(front[i] == y);
                    assert(front.contains(y));
                }
                assert(before.contains(y));
                let i = choose|i: int| 0 <= i < before.len() && before[i] == y;
                assert(r[i] == y);
            }
        }
    }
}

proof fn by_transition_complete(edges: Seq<StateEdge>, s: Seq<(usize, usize)>, y: (usize, usize))
    requires
        s.contains(y),
    ensures
        by_transition(edges, s).contains(y),
    decreases s.len(),
{
    let front = s.drop_last();
    with_edge_complete(edges, by_transition(edges, front), s.last());
    if y != s.last() {
        let i = choose|i: int| 0 <= i < s.len() && s[i] == y;
        assert(front[i] == y);
        by_transition_complete(edges, front, y);
    }
}

proof fn along_complete(g: StateGraph, node: usize, e: int) -> (n: int)
    requires
        g.wf(),
        0 <= e < g.edges@.len(),
        g.edges@[e].source == node,
    ensures
        0 <= n < edges_along(g, node).len(),
        edges_along(g, node)[n].1 == e,
{
    let edges = graph_edges(g.graph);
    assert(g.edges.len() == g.edges@.len());
    assert(edges[e].2 == e);
    outgoing_complete(edges, node, e);
    let y = (edges[e].1, edges[e].2);
    by_transition_complete(g.edges@, g.outgoing_edges(node), y);
    let along = edges_along(g, node);
    choose|n: int| 0 <= n < along.len() && along[n] == y
}

proof fn found_advanced_sound(g: StateGraph, limit: nat, walk: Seq<int>, e: int, found: Found)
    requires
        is_walk(g, g.initial, walk.push(e)),
        walk.len() < limit <= usize::MAX,
        sound(g, limit, found),
    ensures
        sound(g, limit, found_advanced(run(g, walk), g.edges@[e], found)),
        found_advanced(run(g, walk), g.edges@[e], found).witnesses.len()
            >= found.witnesses.len(),
        forall|r: int|
            0 <= r < RULE_COUNT && #[trigger] ends_interrupted(
                run(g, walk),
                event_of(g.edges@[e].transition_type@),
                r,
            ) ==> found_advanced(run(g, walk), g.edges@[e], found).witnesses.len() > 0,
{
    run_follows(g, walk);
    match event_of(g.edges@[e].transition_type@) {
        Some(ev) => {
            found_held_sound(g, limit, run(g, walk), walk, e, ev, RULE_COUNT as nat, found);
        },
        None => {},
    }
}

pub(crate) proof fn walk_push(g: StateGraph, walk: Seq<int>, e: int)
    requires
        is_walk(g, g.initial, walk),
        0 <= e < g.edges@.len(),
        g.edges@[e].source == walk_node(g, g.initial, walk, walk.len() as int),
    ensures
        is_walk(g, g.initial, walk.push(e)),
        run(g, walk.push(e)) == advanced(run(g, walk), g.edges@[e]),
{
    let longer = walk.push(e);
    assert(longer.drop_last() =~= walk);
    assert forall|i: int| 0 <= i < longer.len() implies 0 <= #[trigger] longer[i] < g.edges@.len()
        && g.edges@[longer[i]].source == walk_node(g, g.initial, longer, i) by {
        if i > 0 {
            assert(longer[i - 1] == walk[i - 1]);
        }
        if i < walk.len() {
            assert(longer[i] == walk[i]);
        }
    }
}

proof fn found_along_sound(
    g: StateGraph,
    limit: nat,
    walk: Seq<int>,
    along: Seq<(usize, usize)>,
    found: Found,
)
    requires
        is_walk(g, g.initial, walk),
        walk.len() < limit <= usize::MAX,
        forall|n: int|
            0 <= n < along.len() ==> (#[trigger] along[n]).1 < g.edges@.len()
                && g.edges@[along[n].1 as int].source == run(g, walk).node,
        sound(g, limit, found),
    ensures
        sound(g, limit, found_along(g.edges@, run(g, walk), along, found)),
        found_along(g.edges@, run(g, walk), along, found).witnesses.len()
            >= found.witnesses.len(),
        forall|n: int, r: int|
            0 <= n < along.len() && 0 <= r < RULE_COUNT && #[trigger] ends_interrupted(
                run(g, walk),
                event_of(g.edges@[(#[trigger] along[n]).1 as int].transition_type@),
                r,
            ) ==> found_along(g.edges@, run(g, walk), along, found).witnesses.len() > 0,
    decreases along.len(),
{
    if along.len() > 0 {
        let front = along.drop_last();
        let last = along.last();
        let f = run(g, walk);
        assert forall|n: int| 0 <= n < front.len() implies (#[trigger] front[n]).1 < g.edges@.len()
            && g.edges@[front[n].1 as int].source == f.node by {
            assert(front[n] == along[n]);
        }
        found_along_sound(g, limit, walk, front, found);
        let before = found_along(g.edges@, f, front, found);
        assert(along[along.len() - 1] == last);
        run_follows(g, walk);
        walk_push(g, walk, last.1 as int);
        found_advanced_sound(g, limit, walk, last.1 as int, before);
        let after = found_along(g.edges@, f, along, found);
        assert forall|n: int, r: int|
            0 <= n < along.len() && 0 <= r < RULE_COUNT && #[trigger] ends_interrupted(
                f,
                event_of(g.edges@[(#[trigger] along[n]).1 as int].transition_type@),
                r,
            ) implies after.witnesses.len() > 0 by {
            if n < front.len() {
                assert(front[n] == along[n]);
            }
        }
    }
}

proof fn stacked_on_walks(
    g: StateGraph,
    walk: Seq<int>,
    along: Seq<(usize, usize)>,
    rest: Seq<FrameView>,
    limit: nat,
)
    requires
        is_walk(g, g.initial, walk),
        walk.len() < limit <= usize::MAX,
        forall|n: int|
            0 <= n < along.len() ==> (#[trigger] along[n]).1 < g.edges@.len()
                && g.edges@[along[n].1 as int].source == run(g, walk).node,
        on_walks(g, rest, limit),
    ensures
        on_walks(g, stacked(g.edges@, run(g, walk), along, rest), limit),
{
    let f = run(g, walk);
    let stack = stacked(g.edges@, f, along, rest);
    run_follows(g, walk);
    assert forall|m: int| 0 <= m < stack.len() implies on_walk(g, #[trigger] stack[m], limit) by {
        if m < rest.len() {
            assert(stack[m] == rest[m]);
        } else {
            let e = along[m - rest.len()].1 as int;
            walk_push(g, walk, e);
            assert(stack[m] == advanced(f, g.edges@[e]));
            assert(reached(g, stack[m], walk.push(e), limit));
        }
    }
}

/// A step of the search keeps its findings real and its paths on walks.
proof fn step_sound(g: StateGraph, max_states: nat, max_depth: nat, s: SearchView)
    requires
        g.wf(),
        max_depth <= usize::MAX,
        s.stack.len() > 0,
        on_walks(g, s.stack, max_depth),
        sound(g, max_depth, s.found),
    ensures
        on_walks(g, search_step(g, max_states, max_depth, s).stack, max_depth),
        sound(g, max_depth, search_step(g, max_states, max_depth, s).found),
        search_step(g, max_states, max_depth, s).found.witnesses.len()
            >= s.found.witnesses.len(),
{
    let f = s.stack.last();
    let rest = s.stack.drop_last();
    assert(s.stack[s.stack.len() - 1] == f);
    let walk = choose|walk: Seq<int>| reached(g, f, walk, max_depth);
    assert(reached(g, f, walk, max_depth));
    assert(on_walks(g, rest, max_depth)) by {
        assert forall|m: int| 0 <= m < rest.len() implies on_walk(
            g,
            #[trigger] rest[m],
            max_depth,
        ) by {
            assert(rest[m] == s.stack[m]);
        }
    }
    run_follows(g, walk);
    if !(s.visited.len() >= max_states || f.trace.len() >= max_depth || s.visited.contains(
        fingerprint(f),
    )) {
        let along = if s.visited.len() + 1 >= max_states {
            Seq::<(usize, usize)>::empty()
        } else {
            edges_along(g, f.node)
        };
        assert forall|n: int| 0 <= n < along.len() implies (#[trigger] along[n]).1 < g.edges@.len()
            && g.edges@[along[n].1 as int].source == f.node by {
            along_sound(g, f.node, n);
        }
        found_along_sound(g, max_depth, walk, along, s.found);
        stacked_on_walks(g, walk, along, rest, max_depth);
    }
}

proof fn search_sound(g: StateGraph, max_states: nat, max_depth: nat, s: SearchView)
    requires
        g.wf(),
        max_depth <= usize::MAX,
        on_walks(g, s.stack, max_depth),
        sound(g, max_depth, s.found),
    ensures
        sound(g, max_depth, search(g, max_states, max_depth, s)),
        search(g, max_states, max_depth, s).witnesses.len() >= s.found.witnesses.len(),
    decreases max_states - s.visited.len(), s.stack.len(),
{
    if s.stack.len() > 0 {
        step_sound(g, max_states, max_depth, s);
        search_sound(g, max_states, max_depth, search_step(g, max_states, max_depth, s));
    }
}

proof fn start_sound(g: StateGraph, max_depth: nat)
    ensures
        on_walks(g, search_start(g).stack, max_depth),
        sound(g, max_depth, search_start(g).found),
{
    reveal(sound);
    let s = search_start(g);
    assert forall|m: int| 0 <= m < s.stack.len() implies on_walk(g, #[trigger] s.stack[m], max_depth) by {
        assert(reached(g, s.stack[m], Seq::<int>::empty(), max_depth));
    }
}

/// Every witness that the detector reports is real: there is a walk of at most
/// `max_depth` edges from the initial state on which one thread starts and ends
/// a pattern on a location and another thread interferes in between.
pub proof fn every_witness_is_real(g: StateGraph, max_states: usize, max_depth: usize, n: int)
    requires
        g.wf(),
        0 <= n < witnesses_of(g, max_states as nat, max_depth as nat).len(),
    ensures
        shown(g, max_depth as nat, witnesses_of(g, max_states as nat, max_depth as nat)[n]),
{
    start_sound(g, max_depth as nat);
    search_sound(g, max_states as nat, max_depth as nat, search_start(g));
    reveal(sound);
}

/// Each triple of transitions is reported once per pattern.
pub proof fn each_triple_is_reported_once(g: StateGraph, max_states: usize, max_depth: usize)
    requires
        g.wf(),
    ensures
        search(g, max_states as nat, max_depth as nat, search_start(g)).seen.no_duplicates(),
        search(g, max_states as nat, max_depth as nat, search_start(g)).seen.len()
            == witnesses_of(g, max_states as nat, max_depth as nat).len(),
{
    start_sound(g, max_depth as nat);
    search_sound(g, max_states as nat, max_depth as nat, search_start(g));
    reveal(sound);
}

// A search that was not cut short misses nothing.

/// The search drops no path for its length or for the number of fingerprints:
/// a path that is not continued has a fingerprint that was met before.
pub open spec fn exhausts(g: StateGraph, max_states: nat, max_depth: nat, s: SearchView) -> bool
    decreases max_states - s.visited.len(), s.stack.len(),
{
    s.stack.len() == 0 || {
        &&& s.visited.contains(fingerprint(s.stack.last())) || (s.stack.last().trace.len()
            < max_depth && s.visited.len() + 1 < max_states)
        &&& exhausts(g, max_states, max_depth, search_step(g, max_states, max_depth, s))
    }
}

/// The same threads have started, and the same interferences are pending.
pub open spec fn alike(a: Seq<Option<EvView>>, b: Seq<Option<EvView>>) -> bool {
    &&& forall|r: int, key: AliasKey, tid: usize|
        0 <= r < RULE_COUNT ==> (#[trigger] started(a, rule_at(r), key, tid) <==> started(
            b,
            rule_at(r),
            key,
            tid,
        ))
    &&& forall|r: int, key: AliasKey, tid: usize, by: usize|
        0 <= r < RULE_COUNT ==> (#[trigger] pending(a, rule_at(r), key, tid, by) <==> pending(
            b,
            rule_at(r),
            key,
            tid,
            by,
        ))
}

proof fn alike_push(a: Seq<Option<EvView>>, b: Seq<Option<EvView>>, x: Option<EvView>)
    requires
        alike(a, b),
    ensures
        alike(a.push(x), b.push(x)),
{
    assert forall|r: int, key: AliasKey, tid: usize| 0 <= r < RULE_COUNT implies (#[trigger] started(
        a.push(x),
        rule_at(r),
        key,
        tid,
    ) <==> started(b.push(x), rule_at(r), key, tid)) by {
        started_push(a, x, rule_at(r), key, tid);
        started_push(b, x, rule_at(r), key, tid);
    }
    assert forall|r: int, key: AliasKey, tid: usize, by: usize| 0 <= r < RULE_COUNT implies (
    #[trigger] pending(a.push(x), rule_at(r), key, tid, by) <==> pending(
        b.push(x),
        rule_at(r),
        key,
        tid,
        by,
    )) by {
        pending_push(a, x, rule_at(r), key, tid, by);
        pending_push(b, x, rule_at(r), key, tid, by);
        assert(started(a, rule_at(r), key, tid) <==> started(b, rule_at(r), key, tid));
    }
}

proof fn row_of_start(states: Seq<PatternView>, r: int, j: int) -> (n: int)
    requires
        0 <= r < states.len() <= usize::MAX,
        0 <= j < states[r].starts.len(),
    ensures
        0 <= n < start_rows(states).len(),
        start_rows(states)[n] == start_row(r, states[r].starts[j]),
    decreases states.len(),
{
    let front = states.drop_last();
    if r == states.len() - 1 {
        start_rows(front).len() + j
    } else {
        let n = row_of_start(front, r, j);
        assert(front[r] == states[r]);
        n
    }
}

proof fn start_of_row(states: Seq<PatternView>, n: int) -> (p: (int, int))
    requires
        0 <= n < start_rows(states).len(),
        states.len() <= usize::MAX,
    ensures
        0 <= p.0 < states.len(),
        0 <= p.1 < states[p.0].starts.len(),
        start_rows(states)[n] == start_row(p.0, states[p.0].starts[p.1]),
    decreases states.len(),
{
    let front = states.drop_last();
    let before = start_rows(front);
    if n < before.len() {
        let p = start_of_row(front, n);
        assert(front[p.0] == states[p.0]);
        p
    } else {
        (states.len() - 1, n - before.len())
    }
}

proof fn row_of_mid(states: Seq<PatternView>, r: int, j: int) -> (n: int)
    requires
        0 <= r < states.len() <= usize::MAX,
        0 <= j < states[r].mids.len(),
    ensures
        0 <= n < mid_rows(states).len(),
        mid_rows(states)[n] == mid_row(r, states[r].mids[j]),
    decreases states.len(),
{
    let front = states.drop_last();
    if r == states.len() - 1 {
        mid_rows(front).len() + j
    } else {
        let n = row_of_mid(front, r, j);
        assert(front[r] == states[r]);
        n
    }
}

proof fn mid_of_row(states: Seq<PatternView>, n: int) -> (p: (int, int))
    requires
        0 <= n < mid_rows(states).len(),
        states.len() <= usize::MAX,
    ensures
        0 <= p.0 < states.len(),
        0 <= p.1 < states[p.0].mids.len(),
        mid_rows(states)[n] == mid_row(p.0, states[p.0].mids[p.1]),
    decreases states.len(),
{
    let front = states.drop_last();
    let before = mid_rows(front);
    if n < before.len() {
        let p = mid_of_row(front, n);
        assert(front[p.0] == states[p.0]);
        p
    } else {
        (states.len() - 1, n - before.len())
    }
}

/// Rows that are the same record the same starts.
proof fn rows_give_starts(a: Seq<PatternView>, b: Seq<PatternView>, r: int, key: AliasKey, tid: usize)
    requires
        a.len() == RULE_COUNT,
        b.len() == RULE_COUNT,
        start_rows(a) == start_rows(b),
        0 <= r < RULE_COUNT,
        has_start(a[r].starts, key, tid),
    ensures
        has_start(b[r].starts, key, tid),
{
    let j = choose|j: int|
        0 <= j < a[r].starts.len() && (#[trigger] a[r].starts[j]).key == key && a[r].starts[j].tid
            == tid;
    let n = row_of_start(a, r, j);
    let p = start_of_row(b, n);
    assert(start_row(p.0, b[p.0].starts[p.1]) == start_row(r, a[r].starts[j]));
    assert(b[r].starts[p.1].key == key);
}

/// Rows that are the same record the same interferences.
proof fn rows_give_mids(
    a: Seq<PatternView>,
    b: Seq<PatternView>,
    r: int,
    key: AliasKey,
    tid: usize,
    by: usize,
)
    requires
        a.len() == RULE_COUNT,
        b.len() == RULE_COUNT,
        mid_rows(a) == mid_rows(b),
        0 <= r < RULE_COUNT,
        has_mid(a[r].mids, key, tid, by),
    ensures
        has_mid(b[r].mids, key, tid, by),
{
    let j = choose|j: int|
        0 <= j < a[r].mids.len() && (#[trigger] a[r].mids[j]).key == key && a[r].mids[j].tid == tid
            && a[r].mids[j].by == by;
    let n = row_of_mid(a, r, j);
    let p = mid_of_row(b, n);
    assert(mid_row(p.0, b[p.0].mids[p.1]) == mid_row(r, a[r].mids[j]));
    assert(b[r].mids[p.1].key == key);
}

/// Paths with the same fingerprint behave alike.
proof fn same_fingerprint_alike(g: StateGraph, v: Seq<int>, w: Seq<int>)
    requires
        v.len() <= usize::MAX,
        w.len() <= usize::MAX,
        fingerprint(run(g, v)) == fingerprint(run(g, w)),
    ensures
        alike(walk_events(g, v), walk_events(g, w)),
        run(g, v).node == run(g, w).node,
{
    run_follows(g, v);
    run_follows(g, w);
    let a = run(g, v);
    let b = run(g, w);
    assert forall|r: int, key: AliasKey, tid: usize| 0 <= r < RULE_COUNT implies (#[trigger] started(
        a.events,
        rule_at(r),
        key,
        tid,
    ) <==> started(b.events, rule_at(r), key, tid)) by {
        recorded_starts(a.states[r], a.events, rule_at(r), key, tid);
        recorded_starts(b.states[r], b.events, rule_at(r), key, tid);
        if has_start(a.states[r].starts, key, tid) {
            rows_give_starts(a.states, b.states, r, key, tid);
        }
        if has_start(b.states[r].starts, key, tid) {
            rows_give_starts(b.states, a.states, r, key, tid);
        }
    }
    assert forall|r: int, key: AliasKey, tid: usize, by: usize| 0 <= r < RULE_COUNT implies (
    #[trigger] pending(a.events, rule_at(r), key, tid, by) <==> pending(
        b.events,
        rule_at(r),
        key,
        tid,
        by,
    )) by {
        recorded_mids(a.states[r], a.events, rule_at(r), key, tid, by);
        recorded_mids(b.states[r], b.events, rule_at(r), key, tid, by);
        if has_mid(a.states[r].mids, key, tid, by) {
            rows_give_mids(a.states, b.states, r, key, tid, by);
        }
        if has_mid(b.states[r].mids, key, tid, by) {
            rows_give_mids(b.states, a.states, r, key, tid, by);
        }
    }
}

proof fn recorded_starts(
    p: PatternView,
    events: Seq<Option<EvView>>,
    rule: Rule,
    key: AliasKey,
    tid: usize,
)
    requires
        progress(p, events, rule),
    ensures
        has_start(p.starts, key, tid) <==> started(events, rule, key, tid),
{
    reveal(progress);
}

proof fn recorded_mids(
    p: PatternView,
    events: Seq<Option<EvView>>,
    rule: Rule,
    key: AliasKey,
    tid: usize,
    by: usize,
)
    requires
        progress(p, events, rule),
    ensures
        has_mid(p.mids, key, tid, by) <==> pending(events, rule, key, tid, by),
{
    reveal(progress);
}

/// The path is continued or has been met.
pub open spec fn covered(s: SearchView, f: FrameView) -> bool {
    s.visited.contains(fingerprint(f)) || s.stack.contains(f)
}

/// Every continuation of the walk along one edge is covered, and what it ends
/// is found.
pub open spec fn expanded(g: StateGraph, s: SearchView, v: Seq<int>, limit: nat) -> bool {
    &&& is_walk(g, g.initial, v)
    &&& v.len() < limit
    &&& forall|e: int|
        0 <= e < g.edges@.len() && (#[trigger] g.edges@[e]).source == run(g, v).node ==> covered(
            s,
            advanced(run(g, v), g.edges@[e]),
        )
    &&& forall|e: int, r: int|
        0 <= e < g.edges@.len() && g.edges@[e].source == run(g, v).node && 0 <= r < RULE_COUNT
            && #[trigger] ends_interrupted(
            run(g, v),
            event_of((#[trigger] g.edges@[e]).transition_type@),
            r,
        ) ==> s.found.witnesses.len() > 0
    &&& transitions_do_one_thing(g) ==> forall|e: int, r: int, by: usize|
        0 <= e < g.edges@.len() && g.edges@[e].source == run(g, v).node && 0 <= r < RULE_COUNT
            && #[trigger] ends_by(
            run(g, v),
            event_of((#[trigger] g.edges@[e]).transition_type@),
            r,
            by,
        ) ==> reports(s.found, r, event_of(g.edges@[e].transition_type@)->0, by)
}

/// The fingerprint is that of a walk whose continuations are covered.
pub open spec fn settled(g: StateGraph, s: SearchView, fp: FingerprintView, limit: nat) -> bool {
    exists|v: Seq<int>| fingerprint(#[trigger] run(g, v)) == fp && expanded(g, s, v, limit)
}

/// Every fingerprint met is settled, and so is the initial state, once it has
/// been taken from the stack.
pub open spec fn closed_search(g: StateGraph, s: SearchView, limit: nat) -> bool {
    &&& covered(s, start_frame(g.initial))
    &&& forall|n: int| 0 <= n < s.visited.len() ==> settled(g, s, #[trigger] s.visited[n], limit)
}

/// What was covered stays covered when the path taken has been met.
proof fn covered_after(s: SearchView, t: SearchView, f: FrameView)
    requires
        s.stack.len() > 0,
        covered(s, f),
        forall|fp: FingerprintView| #[trigger] s.visited.contains(fp) ==> t.visited.contains(fp),
        t.visited.contains(fingerprint(s.stack.last())),
        forall|n: int| 0 <= n < s.stack.len() - 1 ==> t.stack.contains(#[trigger] s.stack[n]),
    ensures
        covered(t, f),
{
    if s.stack.contains(f) {
        let n = choose|n: int| 0 <= n < s.stack.len() && s.stack[n] == f;
        if n == s.stack.len() - 1 {
            assert(f == s.stack.last());
        }
    }
}

proof fn settled_after(
    g: StateGraph,
    s: SearchView,
    t: SearchView,
    fp: FingerprintView,
    limit: nat,
)
    requires
        s.stack.len() > 0,
        settled(g, s, fp, limit),
        forall|x: FingerprintView| #[trigger] s.visited.contains(x) ==> t.visited.contains(x),
        t.visited.contains(fingerprint(s.stack.last())),
        forall|n: int| 0 <= n < s.stack.len() - 1 ==> t.stack.contains(#[trigger] s.stack[n]),
        grows(s.found, t.found),
    ensures
        settled(g, t, fp, limit),
{
    let v = choose|v: Seq<int>|
        fingerprint(#[trigger] run(g, v)) == fp && expanded(g, s, v, limit);
    assert forall|e: int|
        0 <= e < g.edges@.len() && (#[trigger] g.edges@[e]).source == run(
            g,
            v,
        ).node implies covered(t, advanced(run(g, v), g.edges@[e])) by {
        covered_after(s, t, advanced(run(g, v), g.edges@[e]));
    }
    if transitions_do_one_thing(g) {
        assert forall|e: int, r: int, by: usize|
            0 <= e < g.edges@.len() && g.edges@[e].source == run(g, v).node && 0 <= r < RULE_COUNT
                && #[trigger] ends_by(
                run(g, v),
                event_of((#[trigger] g.edges@[e]).transition_type@),
                r,
                by,
            ) implies reports(t.found, r, event_of(g.edges@[e].transition_type@)->0, by) by {
            reports_stay(
                s.found,
                t.found,
                r,
                event_of(g.edges@[e].transition_type@)->0,
                by,
            );
        }
    }
    assert(expanded(g, t, v, limit));
}

/// A path that the search has just continued is expanded.
proof fn continued_is_expanded(
    g: StateGraph,
    walk: Seq<int>,
    rest: Seq<FrameView>,
    visited: Seq<FingerprintView>,
    found: Found,
    limit: nat,
)
    requires
        g.wf(),
        is_walk(g, g.initial, walk),
        walk.len() < limit <= usize::MAX,
        sound(g, limit, found),
        told(g, found),
    ensures
        expanded(
            g,
            SearchView {
                stack: stacked(g.edges@, run(g, walk), edges_along(g, run(g, walk).node), rest),
                visited,
                found: found_along(
                    g.edges@,
                    run(g, walk),
                    edges_along(g, run(g, walk).node),
                    found,
                ),
            },
            walk,
            limit,
        ),
{
    let f = run(g, walk);
    let along = edges_along(g, f.node);
    let t = SearchView {
        stack: stacked(g.edges@, f, along, rest),
        visited,
        found: found_along(g.edges@, f, along, found),
    };
    assert forall|k: int| 0 <= k < along.len() implies (#[trigger] along[k]).1 < g.edges@.len()
        && g.edges@[along[k].1 as int].source == f.node by {
        along_sound(g, f.node, k);
    }
    found_along_sound(g, limit, walk, along, found);
    along_tells(g, walk, along, found);
    assert forall|e: int|
        0 <= e < g.edges@.len() && (#[trigger] g.edges@[e]).source == f.node implies covered(
        t,
        advanced(f, g.edges@[e]),
    ) by {
        let k = along_complete(g, f.node, e);
        assert(t.stack[rest.len() + k] == advanced(f, g.edges@[e]));
    }
    assert forall|e: int, r: int|
        0 <= e < g.edges@.len() && g.edges@[e].source == f.node && 0 <= r < RULE_COUNT
            && #[trigger] ends_interrupted(
            f,
            event_of((#[trigger] g.edges@[e]).transition_type@),
            r,
        ) implies t.found.witnesses.len() > 0 by {
        let k = along_complete(g, f.node, e);
        assert(ends_interrupted(f, event_of(g.edges@[along[k].1 as int].transition_type@), r));
    }
    if transitions_do_one_thing(g) {
        assert forall|e: int, r: int, by: usize|
            0 <= e < g.edges@.len() && g.edges@[e].source == f.node && 0 <= r < RULE_COUNT
                && #[trigger] ends_by(
                f,
                event_of((#[trigger] g.edges@[e]).transition_type@),
                r,
                by,
            ) implies reports(t.found, r, event_of(g.edges@[e].transition_type@)->0, by) by {
            let k = along_complete(g, f.node, e);
            assert(ends_by(
                f,
                event_of(g.edges@[along[k].1 as int].transition_type@),
                r,
                by,
            ));
        }
    }
}

/// A step of the search keeps its witnesses, each with its transitions.
proof fn step_tells(g: StateGraph, max_states: nat, max_depth: nat, s: SearchView)
    requires
        g.wf(),
        max_depth <= usize::MAX,
        s.stack.len() > 0,
        on_walks(g, s.stack, max_depth),
        told(g, s.found),
    ensures
        told(g, search_step(g, max_states, max_depth, s).found),
        grows(s.found, search_step(g, max_states, max_depth, s).found),
{
    let f = s.stack.last();
    assert(s.stack[s.stack.len() - 1] == f);
    let walk = choose|walk: Seq<int>| reached(g, f, walk, max_depth);
    assert(reached(g, f, walk, max_depth));
    run_follows(g, walk);
    if !(s.visited.len() >= max_states || f.trace.len() >= max_depth || s.visited.contains(
        fingerprint(f),
    )) {
        let along = if s.visited.len() + 1 >= max_states {
            Seq::<(usize, usize)>::empty()
        } else {
            edges_along(g, f.node)
        };
        assert forall|n: int| 0 <= n < along.len() implies (#[trigger] along[n]).1
            < g.edges@.len() by {
            along_sound(g, f.node, n);
        }
        along_tells(g, walk, along, s.found);
    }
}

/// The search goes on from everything but the path that it takes.
proof fn step_keeps(g: StateGraph, max_states: nat, max_depth: nat, s: SearchView)
    requires
        s.stack.len() > 0,
        s.visited.contains(fingerprint(s.stack.last())) || (s.stack.last().trace.len() < max_depth
            && s.visited.len() + 1 < max_states),
    ensures
        ({
            let t = search_step(g, max_states, max_depth, s);
            let f = s.stack.last();
            &&& forall|x: FingerprintView| #[trigger]
                s.visited.contains(x) ==> t.visited.contains(x)
            &&& t.visited.contains(fingerprint(f))
            &&& forall|n: int|
                0 <= n < s.stack.len() - 1 ==> t.stack.contains(#[trigger] s.stack[n])
            &&& forall|n: int|
                0 <= n < t.visited.len() ==> s.visited.contains(#[trigger] t.visited[n]) || (
                t.visited[n] == fingerprint(f) && f.trace.len() < max_depth && t.stack == stacked(
                    g.edges@,
                    f,
                    edges_along(g, f.node),
                    s.stack.drop_last(),
                ) && t.found == found_along(g.edges@, f, edges_along(g, f.node), s.found))
        }),
{
    let t = search_step(g, max_states, max_depth, s);
    let f = s.stack.last();
    let rest = s.stack.drop_last();
    if s.visited.contains(fingerprint(f)) {
        assert(t.visited == s.visited);
        assert(t.stack == rest);
        assert forall|n: int| 0 <= n < t.visited.len() implies s.visited.contains(
            #[trigger] t.visited[n],
        ) by {
        }
    } else {
        assert(t.visited == s.visited.push(fingerprint(f)));
        assert(t.visited[s.visited.len() as int] == fingerprint(f));
        assert forall|x: FingerprintView| #[trigger] s.visited.contains(
            x,
        ) implies t.visited.contains(x) by {
            let n = choose|n: int| 0 <= n < s.visited.len() && s.visited[n] == x;
            assert(t.visited[n] == x);
        }
    }
    assert forall|n: int| 0 <= n < s.stack.len() - 1 implies t.stack.contains(
        #[trigger] s.stack[n],
    ) by {
        assert(t.stack[n] == s.stack[n]);
    }
}

proof fn step_closed(g: StateGraph, max_states: nat, max_depth: nat, s: SearchView)
    requires
        g.wf(),
        max_depth <= usize::MAX,
        s.stack.len() > 0,
        on_walks(g, s.stack, max_depth),
        sound(g, max_depth, s.found),
        told(g, s.found),
        closed_search(g, s, max_depth),
        s.visited.contains(fingerprint(s.stack.last())) || (s.stack.last().trace.len() < max_depth
            && s.visited.len() + 1 < max_states),
    ensures
        closed_search(g, search_step(g, max_states, max_depth, s), max_depth),
{
    let t = search_step(g, max_states, max_depth, s);
    step_tells(g, max_states, max_depth, s);
    step_keeps(g, max_states, max_depth, s);
    covered_after(s, t, start_frame(g.initial));
    assert forall|n: int| 0 <= n < t.visited.len() implies settled(
        g,
        t,
        #[trigger] t.visited[n],
        max_depth,
    ) by {
        if s.visited.contains(t.visited[n]) {
            let m = choose|m: int| 0 <= m < s.visited.len() && s.visited[m] == t.visited[n];
            assert(settled(g, s, s.visited[m], max_depth));
            settled_after(g, s, t, s.visited[m], max_depth);
        } else {
            taken_is_settled(g, s, t, max_depth);
        }
    }
}

/// The path that the search has just continued is settled.
proof fn taken_is_settled(g: StateGraph, s: SearchView, t: SearchView, limit: nat)
    requires
        g.wf(),
        limit <= usize::MAX,
        s.stack.len() > 0,
        on_walks(g, s.stack, limit),
        sound(g, limit, s.found),
        told(g, s.found),
        s.stack.last().trace.len() < limit,
        t.stack == stacked(
            g.edges@,
            s.stack.last(),
            edges_along(g, s.stack.last().node),
            s.stack.drop_last(),
        ),
        t.found == found_along(
            g.edges@,
            s.stack.last(),
            edges_along(g, s.stack.last().node),
            s.found,
        ),
    ensures
        settled(g, t, fingerprint(s.stack.last()), limit),
{
    let f = s.stack.last();
    assert(s.stack[s.stack.len() - 1] == f);
    assert(on_walk(g, f, limit));
    let walk = choose|walk: Seq<int>| reached(g, f, walk, limit);
    assert(walk.len() < limit) by {
        run_follows(g, walk);
    }
    continued_is_expanded(g, walk, s.stack.drop_last(), t.visited, s.found, limit);
    assert(expanded(g, t, walk, limit));
}

/// Where the search ends, nothing is left to continue.
proof fn search_closes(g: StateGraph, max_states: nat, max_depth: nat, s: SearchView) -> (t:
    SearchView)
    requires
        g.wf(),
        max_depth <= usize::MAX,
        on_walks(g, s.stack, max_depth),
        sound(g, max_depth, s.found),
        told(g, s.found),
        closed_search(g, s, max_depth),
        exhausts(g, max_states, max_depth, s),
    ensures
        t.stack.len() == 0,
        t.found == search(g, max_states, max_depth, s),
        closed_search(g, t, max_depth),
    decreases max_states - s.visited.len(), s.stack.len(),
{
    if s.stack.len() == 0 {
        s
    } else {
        step_sound(g, max_states, max_depth, s);
        step_tells(g, max_states, max_depth, s);
        step_closed(g, max_states, max_depth, s);
        search_closes(g, max_states, max_depth, search_step(g, max_states, max_depth, s))
    }
}

/// A walk that the search has settled and that behaves like `w`.
proof fn walk_is_matched(g: StateGraph, t: SearchView, w: Seq<int>, limit: nat) -> (v: Seq<int>)
    requires
        limit <= usize::MAX,
        t.stack.len() == 0,
        closed_search(g, t, limit),
        is_walk(g, g.initial, w),
    ensures
        expanded(g, t, v, limit),
        run(g, v).node == walk_node(g, g.initial, w, w.len() as int),
        alike(walk_events(g, v), walk_events(g, w)),
    decreases w.len(),
{
    if w.len() == 0 {
        let fp = fingerprint(start_frame(g.initial));
        let n = choose|n: int| 0 <= n < t.visited.len() && t.visited[n] == fp;
        assert(settled(g, t, t.visited[n], limit));
        let v = choose|v: Seq<int>|
            fingerprint(#[trigger] run(g, v)) == fp && expanded(g, t, v, limit);
        same_fingerprint_alike(g, v, w);
        v
    } else {
        let front = w.drop_last();
        let e = w.last();
        assert(is_walk(g, g.initial, front)) by {
            assert forall|i: int| 0 <= i < front.len() implies 0 <= #[trigger] front[i]
                < g.edges@.len() && g.edges@[front[i]].source == walk_node(
                g,
                g.initial,
                front,
                i,
            ) by {
                assert(front[i] == w[i]);
                if i > 0 {
                    assert(front[i - 1] == w[i - 1]);
                }
            }
        }
        let u = walk_is_matched(g, t, front, limit);
        let last = w.len() - 1;
        assert(w[last] == e);
        assert(walk_node(g, g.initial, w, last) == walk_node(g, g.initial, front, last)) by {
            if last > 0 {
                assert(front[last - 1] == w[last - 1]);
            }
        }
        assert(g.edges@[e].source == run(g, u).node);
        run_follows(g, u);
        walk_push(g, u, e);
        let next = u.push(e);
        assert(covered(t, advanced(run(g, u), g.edges@[e])));
        let fp = fingerprint(run(g, next));
        let n = choose|n: int| 0 <= n < t.visited.len() && t.visited[n] == fp;
        assert(settled(g, t, t.visited[n], limit));
        let v = choose|v: Seq<int>|
            fingerprint(#[trigger] run(g, v)) == fp && expanded(g, t, v, limit);
        same_fingerprint_alike(g, v, next);
        run_follows(g, next);
        let x = event_of(g.edges@[e].transition_type@);
        alike_push(walk_events(g, u), walk_events(g, front), x);
        assert(walk_events(g, next) =~= walk_events(g, u).push(x));
        assert(walk_events(g, w) =~= walk_events(g, front).push(x));
        assert(next[next.len() - 1] == e);
        v
    }
}

/// The first end of the thread after the interference.
proof fn first_end(
    events: Seq<Option<EvView>>,
    rule: Rule,
    key: AliasKey,
    tid: usize,
    j: int,
    k: int,
) -> (t: int)
    requires
        0 <= j < k < events.len(),
        does(events[k], rule.end, key, tid),
    ensures
        j < t <= k,
        does(events[t], rule.end, key, tid),
        forall|u: int| j < u < t ==> !does(#[trigger] events[u], rule.end, key, tid),
    decreases k - j,
{
    if exists|u: int| j < u < k && does(#[trigger] events[u], rule.end, key, tid) {
        let u = choose|u: int| j < u < k && does(#[trigger] events[u], rule.end, key, tid);
        first_end(events, rule, key, tid, j, u)
    } else {
        k
    }
}

/// Where a walk shows a pattern, an interference is pending at some end.
proof fn interruption_is_pending(
    events: Seq<Option<EvView>>,
    rule: Rule,
    i: int,
    j: int,
    k: int,
) -> (t: int)
    requires
        interrupted(events, rule, i, j, k),
    ensures
        j < t <= k,
        events[t] is Some,
        (events[t]->0).kind == rule.end,
        pending(
            events.take(t),
            rule,
            alias_key((events[t]->0).alias),
            (events[t]->0).tid,
            (events[j]->0).tid,
        ),
{
    let key = alias_key((events[i]->0).alias);
    let tid = (events[i]->0).tid;
    let by = (events[j]->0).tid;
    let t = first_end(events, rule, key, tid, j, k);
    let before = events.take(t);
    assert(before[j] == events[j]);
    assert(started(before.take(j), rule, key, tid)) by {
        assert(before.take(j)[i] == events[i]);
    }
    assert forall|u: int| j < u < before.len() implies !does(
        #[trigger] before[u],
        rule.start,
        key,
        tid,
    ) && !does(before[u], rule.end, key, tid) by {
        assert(before[u] == events[u]);
    }
    assert(pends_from(before, rule, key, tid, by, j));
    t
}

/// A walk that the search has settled and on which the edge ends the pattern
/// that is interrupted on another walk.
proof fn interruption_is_settled(
    g: StateGraph,
    max_states: usize,
    max_depth: usize,
    walk: Seq<int>,
    r: int,
    key: AliasKey,
    tid: usize,
    by: usize,
    n: int,
) -> (c: (SearchView, Seq<int>))
    requires
        g.wf(),
        exhausts(g, max_states as nat, max_depth as nat, search_start(g)),
        is_walk(g, g.initial, walk),
        0 <= r < RULE_COUNT,
        0 <= n < walk.len(),
        does(walk_events(g, walk)[n], rule_at(r).end, key, tid),
        pending(walk_events(g, walk).take(n), rule_at(r), key, tid, by),
    ensures
        c.0.found.witnesses == witnesses_of(g, max_states as nat, max_depth as nat),
        expanded(g, c.0, c.1, max_depth as nat),
        g.edges@[walk[n]].source == run(g, c.1).node,
        ends_by(run(g, c.1), event_of(g.edges@[walk[n]].transition_type@), r, by),
{
    let s = search_start(g);
    let limit = max_depth as nat;
    start_sound(g, limit);
    assert(s.stack[0] == start_frame(g.initial));
    let t = search_closes(g, max_states as nat, limit, s);
    let events = walk_events(g, walk);
    let rule = rule_at(r);
    let front = walk.take(n);
    assert(is_walk(g, g.initial, front)) by {
        assert forall|m: int| 0 <= m < front.len() implies 0 <= #[trigger] front[m]
            < g.edges@.len() && g.edges@[front[m]].source == walk_node(g, g.initial, front, m) by {
            assert(front[m] == walk[m]);
            if m > 0 {
                assert(front[m - 1] == walk[m - 1]);
            }
        }
    }
    let v = walk_is_matched(g, t, front, limit);
    assert(walk_events(g, front) =~= events.take(n));
    let e = walk[n];
    assert(events[n] == event_of(g.edges@[e].transition_type@));
    assert(g.edges@[e].source == run(g, v).node) by {
        if n > 0 {
            assert(front[n - 1] == walk[n - 1]);
        }
    }
    run_follows(g, v);
    assert(pending(walk_events(g, v), rule, key, tid, by) <==> pending(
        walk_events(g, front),
        rule,
        key,
        tid,
        by,
    ));
    recorded_mids(run(g, v).states[r], walk_events(g, v), rule, key, tid, by);
    (t, v)
}

/// Where the search was not cut short and some walk from the initial state
/// shows a pattern, the detector reports a violation.
pub proof fn every_interruption_is_found(
    g: StateGraph,
    max_states: usize,
    max_depth: usize,
    walk: Seq<int>,
    r: int,
    i: int,
    j: int,
    k: int,
)
    requires
        g.wf(),
        exhausts(g, max_states as nat, max_depth as nat, search_start(g)),
        is_walk(g, g.initial, walk),
        0 <= r < RULE_COUNT,
        interrupted(walk_events(g, walk), rule_at(r), i, j, k),
    ensures
        witnesses_of(g, max_states as nat, max_depth as nat).len() > 0,
{
    let events = walk_events(g, walk);
    let n = interruption_is_pending(events, rule_at(r), i, j, k);
    let ev = events[n]->0;
    let by = (events[j]->0).tid;
    let (t, v) = interruption_is_settled(
        g,
        max_states,
        max_depth,
        walk,
        r,
        alias_key(ev.alias),
        ev.tid,
        by,
        n,
    );
    assert(ends_interrupted(run(g, v), event_of(g.edges@[walk[n]].transition_type@), r));
}

proof fn expanded_reports(
    g: StateGraph,
    s: SearchView,
    v: Seq<int>,
    limit: nat,
    e: int,
    r: int,
    by: usize,
)
    requires
        expanded(g, s, v, limit),
        transitions_do_one_thing(g),
        0 <= e < g.edges@.len(),
        g.edges@[e].source == run(g, v).node,
        0 <= r < RULE_COUNT,
        ends_by(run(g, v), event_of(g.edges@[e].transition_type@), r, by),
    ensures
        reports(s.found, r, event_of(g.edges@[e].transition_type@)->0, by),
{
}

/// Where the first end after the interference is at `k`, the interference is
/// pending there.
proof fn interruption_pends(
    events: Seq<Option<EvView>>,
    rule: Rule,
    i: int,
    j: int,
    k: int,
    key: AliasKey,
    tid: usize,
)
    requires
        interrupted(events, rule, i, j, k),
        key == alias_key((events[i]->0).alias),
        tid == (events[i]->0).tid,
        forall|t: int| j < t < k ==> !does(#[trigger] events[t], rule.end, key, tid),
    ensures
        does(events[k], rule.end, key, tid),
        pending(events.take(k), rule, key, tid, (events[j]->0).tid),
{
    let by = (events[j]->0).tid;
    let before = events.take(k);
    assert(before[j] == events[j]);
    assert(started(before.take(j), rule, key, tid)) by {
        assert(before.take(j)[i] == events[i]);
    }
    assert forall|u: int| j < u < before.len() implies !does(
        #[trigger] before[u],
        rule.start,
        key,
        tid,
    ) && !does(before[u], rule.end, key, tid) by {
        assert(before[u] == events[u]);
    }
    assert(pends_from(before, rule, key, tid, by, j));
}

/// Where the search was not cut short, every pattern that some walk from the
/// initial state shows is reported as what it is: a witness of its kind, with
/// the first end after the interference, by the interfering thread and of the
/// interrupted one.
pub proof fn every_interruption_is_reported(
    g: StateGraph,
    max_states: usize,
    max_depth: usize,
    walk: Seq<int>,
    r: int,
    i: int,
    j: int,
    k: int,
) -> (n: int)
    requires
        g.wf(),
        transitions_do_one_thing(g),
        exhausts(g, max_states as nat, max_depth as nat, search_start(g)),
        is_walk(g, g.initial, walk),
        0 <= r < RULE_COUNT,
        interrupted(walk_events(g, walk), rule_at(r), i, j, k),
        forall|t: int|
            j < t < k ==> !does(
                #[trigger] walk_events(g, walk)[t],
                rule_at(r).end,
                alias_key((walk_events(g, walk)[i]->0).alias),
                (walk_events(g, walk)[i]->0).tid,
            ),
    ensures
        0 <= n < witnesses_of(g, max_states as nat, max_depth as nat).len(),
        is_report(
            witnesses_of(g, max_states as nat, max_depth as nat)[n],
            r,
            walk_events(g, walk)[k]->0,
            (walk_events(g, walk)[j]->0).tid,
        ),
{
    let events = walk_events(g, walk);
    let ev = events[k]->0;
    let by = (events[j]->0).tid;
    let key = alias_key((events[i]->0).alias);
    let tid = (events[i]->0).tid;
    interruption_pends(events, rule_at(r), i, j, k, key, tid);
    let (t, v) = interruption_is_settled(
        g,
        max_states,
        max_depth,
        walk,
        r,
        key,
        tid,
        by,
        k,
    );
    let e = walk[k];
    assert(events[k] == event_of(g.edges@[e].transition_type@));
    expanded_reports(g, t, v, max_depth as nat, e, r, by);
    choose|n: int|
        0 <= n < t.found.witnesses.len() && is_report(#[trigger] t.found.witnesses[n], r, ev, by)
}

/// The transition is an atomic access of the thread to the local of the
/// instance, whatever its ordering: a load, or a store or exchange.
pub open spec fn accesses(
    t: TransitionTypeView,
    instance: usize,
    local: usize,
    tid: usize,
    stores: bool,
) -> bool {
    match t {
        TransitionTypeView::AtomicLoad(a, _, _, by) => !stores && a.instance_id == instance
            && a.local == local && by == tid,
        TransitionTypeView::AtomicStore(a, _, _, by) => stores && a.instance_id == instance
            && a.local == local && by == tid,
        TransitionTypeView::AtomicCmpXchg(a, _, _, _, by) => stores && a.instance_id == instance
            && a.local == local && by == tid,
        _ => false,
    }
}

/// The transition at a position of a walk.
pub open spec fn step_at(g: StateGraph, walk: Seq<int>, i: int) -> TransitionTypeView {
    g.edges@[walk[i]].transition_type@
}

/// On the walk a thread accesses an atomic at `i` and comes back to it at `k`,
/// not with a second store after a store, and another thread stores in between
/// at `j`. The thread does not begin anew after `i`, nor come back before `k`.
pub open spec fn comes_between(
    g: StateGraph,
    walk: Seq<int>,
    instance: usize,
    local: usize,
    tid: usize,
    by: usize,
    first_stores: bool,
    last_stores: bool,
    i: int,
    j: int,
    k: int,
) -> bool {
    &&& 0 <= i < j < k < walk.len()
    &&& tid != by
    &&& !(first_stores && last_stores)
    &&& accesses(step_at(g, walk, i), instance, local, tid, first_stores)
    &&& accesses(step_at(g, walk, j), instance, local, by, true)
    &&& accesses(step_at(g, walk, k), instance, local, tid, last_stores)
    &&& forall|t: int|
        i < t < k ==> !accesses(#[trigger] step_at(g, walk, t), instance, local, tid, first_stores)
    &&& forall|t: int|
        j < t < k ==> !accesses(#[trigger] step_at(g, walk, t), instance, local, tid, last_stores)
}

proof fn access_does(
    g: StateGraph,
    walk: Seq<int>,
    t: int,
    instance: usize,
    local: usize,
    tid: usize,
    stores: bool,
)
    requires
        0 <= t < walk.len(),
    ensures
        accesses(step_at(g, walk, t), instance, local, tid, stores) <==> does(
            walk_events(g, walk)[t],
            if stores {
                EvKind::Store
            } else {
                EvKind::Load
            },
            AliasKey { instance, local },
            tid,
        ),
{
}

/// Where the search was not cut short, an access that a store of another thread
/// separates from the next of its thread is reported: a load before a store as
/// the first kind, a store before a load as the second, and a load before a
/// load as the third, with what the last access is and the threads of all
/// three.
pub proof fn separated_accesses_are_reported(
    g: StateGraph,
    max_states: usize,
    max_depth: usize,
    walk: Seq<int>,
    instance: usize,
    local: usize,
    tid: usize,
    by: usize,
    first_stores: bool,
    last_stores: bool,
    i: int,
    j: int,
    k: int,
) -> (n: int)
    requires
        g.wf(),
        transitions_do_one_thing(g),
        exhausts(g, max_states as nat, max_depth as nat, search_start(g)),
        is_walk(g, g.initial, walk),
        comes_between(
            g,
            walk,
            instance,
            local,
            tid,
            by,
            first_stores,
            last_stores,
            i,
            j,
            k,
        ),
    ensures
        ({
            let all = witnesses_of(g, max_states as nat, max_depth as nat);
            let w = all[n];
            &&& 0 <= n < all.len()
            &&& w.kind == (if last_stores {
                WitnessKind::Av1
            } else if first_stores {
                WitnessKind::Av2
            } else {
                WitnessKind::Av3
            })
            &&& w.start.tid == tid
            &&& w.mid.tid == by
            &&& w.end.tid == tid
            &&& Some(w.end) == event_of(step_at(g, walk, k))
            &&& w.start.alias.instance_id == instance && w.start.alias.local == local
            &&& w.mid.alias.instance_id == instance && w.mid.alias.local == local
            &&& w.start.kind == (if first_stores {
                EvKind::Store
            } else {
                EvKind::Load
            })
            &&& w.mid.kind == EvKind::Store
        }),
{
    let r: int = if last_stores {
        0
    } else if first_stores {
        1
    } else {
        2
    };
    let events = walk_events(g, walk);
    let key = AliasKey { instance, local };
    let rule = rule_at(r);
    access_does(g, walk, i, instance, local, tid, first_stores);
    access_does(g, walk, j, instance, local, by, true);
    access_does(g, walk, k, instance, local, tid, last_stores);
    assert forall|t: int| i < t < k implies !does(#[trigger] events[t], rule.start, key, tid) by {
        access_does(g, walk, t, instance, local, tid, first_stores);
        assert(!accesses(step_at(g, walk, t), instance, local, tid, first_stores));
    }
    assert forall|t: int| j < t < k implies !does(#[trigger] events[t], rule.end, key, tid) by {
        access_does(g, walk, t, instance, local, tid, last_stores);
        assert(!accesses(step_at(g, walk, t), instance, local, tid, last_stores));
    }
    assert(interrupted(events, rule, i, j, k));
    every_interruption_is_reported(g, max_states, max_depth, walk, r, i, j, k)
}

/// Every witness is such a separation, on a walk of at most `max_depth` edges
/// from the initial state.
pub proof fn reported_accesses_are_separated(
    g: StateGraph,
    max_states: usize,
    max_depth: usize,
    n: int,
) -> (r: (Seq<int>, int, int, int))
    requires
        g.wf(),
        0 <= n < witnesses_of(g, max_states as nat, max_depth as nat).len(),
    ensures
        ({
            let w = witnesses_of(g, max_states as nat, max_depth as nat)[n];
            let (walk, i, j, k) = r;
            let instance = w.start.alias.instance_id;
            let local = w.start.alias.local;
            let tid = w.start.tid;
            let first_stores = w.kind == WitnessKind::Av2;
            let last_stores = w.kind == WitnessKind::Av1;
            &&& is_walk(g, g.initial, walk)
            &&& 0 <= i < j < k < walk.len() <= max_depth
            &&& Some(w.start) == event_of(step_at(g, walk, i))
            &&& Some(w.mid) == event_of(step_at(g, walk, j))
            &&& Some(w.end) == event_of(step_at(g, walk, k))
            &&& w.mid.tid != tid
            &&& accesses(step_at(g, walk, i), instance, local, tid, first_stores)
            &&& accesses(step_at(g, walk, j), instance, local, w.mid.tid, true)
            &&& accesses(step_at(g, walk, k), instance, local, tid, last_stores)
            &&& forall|t: int|
                i < t < k ==> !accesses(
                    #[trigger] step_at(g, walk, t),
                    instance,
                    local,
                    tid,
                    first_stores,
                )
        }),
{
    every_witness_is_real(g, max_states, max_depth, n);
    let w = witnesses_of(g, max_states as nat, max_depth as nat)[n];
    let limit = max_depth as nat;
    let (walk, r, i, j, k) = choose|walk: Seq<int>, r: int, i: int, j: int, k: int|
        shows(g, limit, w, walk, r, i, j, k);
    let instance = w.start.alias.instance_id;
    let local = w.start.alias.local;
    let tid = w.start.tid;
    let first_stores = w.kind == WitnessKind::Av2;
    let last_stores = w.kind == WitnessKind::Av1;
    access_does(g, walk, i, instance, local, tid, first_stores);
    access_does(g, walk, j, instance, local, w.mid.tid, true);
    access_does(g, walk, k, instance, local, tid, last_stores);
    let events = walk_events(g, walk);
    let key = AliasKey { instance, local };
    assert forall|t: int| i < t < k implies !accesses(
        #[trigger] step_at(g, walk, t),
        instance,
        local,
        tid,
        first_stores,
    ) by {
        access_does(g, walk, t, instance, local, tid, first_stores);
        assert(!does(events[t], rule_at(r).start, key, tid));
    }
    (walk, i, j, k)
}

/// A violation shows the accesses of its witness, with their threads, orderings,
/// variables and places in the program: the load, and the stores in their order.
pub proof fn violations_show_their_accesses(w: WitnessView)
    ensures
        ({
            let v = violation_of(w);
            let load = |e: EvView| AtomicOperationView {
                operation_type: "load@tid"@ + decimal(e.tid as nat),
                ordering: e.ord.name(),
                variable: e.alias.debug(),
                location: e.span,
            };
            let store = |e: EvView| AtomicOperationView {
                operation_type: "store@tid"@ + decimal(e.tid as nat),
                ordering: e.ord.name(),
                variable: e.alias.debug(),
                location: e.span,
            };
            match w.kind {
                WitnessKind::Av1 => v.load_op == load(w.start) && v.store_ops == seq![
                    store(w.mid),
                    store(w.end),
                ],
                WitnessKind::Av2 => v.load_op == load(w.end) && v.store_ops == seq![
                    store(w.start),
                    store(w.mid),
                ],
                WitnessKind::Av3 => v.load_op == load(w.start) && v.store_ops == seq![store(w.mid)],
            }
        }),
{
}

/// Every atomic access is an event of its thread on its location, whatever its
/// ordering: a load is a load, and a store and an exchange are stores, the
/// exchange with its ordering on success.
pub proof fn atomic_accesses_are_events(
    alias: AliasId,
    order: AtomicOrdering,
    failure: AtomicOrdering,
    span: Seq<char>,
    tid: usize,
)
    ensures
        ({
            let load = event_of(TransitionTypeView::AtomicLoad(alias, order, span, tid));
            let store = event_of(TransitionTypeView::AtomicStore(alias, order, span, tid));
            let exchange = event_of(
                TransitionTypeView::AtomicCmpXchg(alias, order, failure, span, tid),
            );
            &&& load == Some(EvView { tid, alias, kind: EvKind::Load, ord: order, span })
            &&& store == Some(EvView { tid, alias, kind: EvKind::Store, ord: order, span })
            &&& exchange == Some(EvView { tid, alias, kind: EvKind::Store, ord: order, span })
        }),
{
}

/// Nothing but an atomic access is an event.
pub proof fn only_atomic_accesses_are_events(t: TransitionTypeView)
    requires
        event_of(t) is Some,
    ensures
        t is AtomicLoad || t is AtomicStore || t is AtomicCmpXchg,
{
}

/// The violations of a report are listed once each.
pub proof fn violations_are_distinct(witnesses: Seq<WitnessView>)
    ensures
        violations_of(witnesses).no_duplicates(),
        (violations_of(witnesses).len() > 0) == (witnesses.len() > 0),
        forall|n: int|
            0 <= n < witnesses.len() ==> violations_of(witnesses).contains(
                violation_of(#[trigger] witnesses[n]),
            ),
    decreases witnesses.len(),
{
    if witnesses.len() > 0 {
        let front = witnesses.drop_last();
        let before = violations_of(front);
        let v = violation_of(witnesses.last());
        let all = violations_of(witnesses);
        violations_are_distinct(front);
        if !before.contains(v) {
            assert forall|a: int, b: int|
                0 <= a < all.len() && 0 <= b < all.len() && a != b implies all[a] != all[b] by {
                if a < before.len() && b < before.len() {
                    assert(before[a] != before[b]);
                } else if a < before.len() {
                    assert(before.contains(before[a]));
                } else {
                    assert(before.contains(before[b]));
                }
            }
            assert(all[before.len() as int] == v);
        } else {
            let m = choose|m: int| 0 <= m < before.len() && before[m] == v;
            assert(before.len() > 0);
        }
        assert forall|n: int| 0 <= n < witnesses.len() implies all.contains(
            violation_of(#[trigger] witnesses[n]),
        ) by {
            if n < front.len() {
                assert(front[n] == witnesses[n]);
                let x = violation_of(front[n]);
                let m = choose|m: int| 0 <= m < before.len() && before[m] == x;
                assert(all[m] == x);
            }
        }
    }
}

/// The search tries the edges that leave a state in the order of their
/// transitions, all of them.
pub proof fn edges_are_tried_in_order(g: StateGraph, node: usize, i: int, j: int)
    requires
        0 <= i <= j < edges_along(g, node).len(),
    ensures
        g.edges@[edges_along(g, node)[i].1 as int].transition
            <= g.edges@[edges_along(g, node)[j].1 as int].transition,
        edges_along(g, node).len() == g.outgoing_edges(node).len(),
{
    by_transition_ascends(g.edges@, g.outgoing_edges(node));
}

/// The edges are in ascending order of their transitions.
spec fn tried_in_order(edges: Seq<StateEdge>, s: Seq<(usize, usize)>) -> bool {
    forall|i: int, j: int|
        0 <= i <= j < s.len() ==> edges[(#[trigger] s[i]).1 as int].transition <= edges[(
        #[trigger] s[j]).1 as int].transition
}

proof fn with_edge_ascends(edges: Seq<StateEdge>, s: Seq<(usize, usize)>, x: (usize, usize))
    requires
        tried_in_order(edges, s),
    ensures
        tried_in_order(edges, with_edge(edges, s, x)),
        with_edge(edges, s, x).len() == s.len() + 1,
        forall|i: int|
            0 <= i < with_edge(edges, s, x).len() ==> s.contains(
                #[trigger] with_edge(edges, s, x)[i],
            ) || with_edge(edges, s, x)[i] == x,
    decreases s.len(),
{
    let r = with_edge(edges, s, x);
    if s.len() > 0 {
        let front = s.drop_last();
        let last = s.last();
        assert(s[s.len() - 1] == last);
        if edges[last.1 as int].transition <= edges[x.1 as int].transition {
            assert forall|i: int, j: int| 0 <= i <= j < r.len() implies edges[(
            #[trigger] r[i]).1 as int].transition <= edges[(
            #[trigger] r[j]).1 as int].transition by {
                if i < s.len() {
                    assert(r[i] == s[i]);
                    assert(edges[s[i].1 as int].transition <= edges[s[s.len()
                        - 1].1 as int].transition);
                }
                if j < s.len() {
                    assert(r[j] == s[j]);
                }
            }
            assert forall|i: int| 0 <= i < r.len() implies s.contains(#[trigger] r[i]) || r[i]
                == x by {
                if i < s.len() {
                    assert(r[i] == s[i]);
                }
            }
        } else {
            assert forall|i: int, j: int| 0 <= i <= j < front.len() implies edges[(
            #[trigger] front[i]).1 as int].transition <= edges[(
            #[trigger] front[j]).1 as int].transition by {
                assert(front[i] == s[i] && front[j] == s[j]);
            }
            with_edge_ascends(edges, front, x);
            let q = with_edge(edges, front, x);
            assert forall|i: int| 0 <= i < q.len() implies edges[(
            #[trigger] q[i]).1 as int].transition <= edges[last.1 as int].transition && (
            s.contains(q[i]) || q[i] == x) by {
                if front.contains(q[i]) {
                    let k = choose|k: int| 0 <= k < front.len() && front[k] == q[i];
                    assert(s[k] == q[i]);
                    assert(edges[s[k].1 as int].transition <= edges[s[s.len()
                        - 1].1 as int].transition);
                }
            }
            assert forall|i: int, j: int| 0 <= i <= j < r.len() implies edges[(
            #[trigger] r[i]).1 as int].transition <= edges[(
            #[trigger] r[j]).1 as int].transition by {
                if i < q.len() {
                    assert(r[i] == q[i]);
                }
                if j < q.len() {
                    assert(r[j] == q[j]);
                }
            }
            assert forall|i: int| 0 <= i < r.len() implies s.contains(#[trigger] r[i]) || r[i]
                == x by {
                if i < q.len() {
                    assert(r[i] == q[i]);
                }
            }
        }
    }
}

proof fn by_transition_ascends(edges: Seq<StateEdge>, s: Seq<(usize, usize)>)
    ensures
        tried_in_order(edges, by_transition(edges, s)),
        by_transition(edges, s).len() == s.len(),
    decreases s.len(),
{
    if s.len() > 0 {
        by_transition_ascends(edges, s.drop_last());
        with_edge_ascends(edges, by_transition(edges, s.drop_last()), s.last());
    }
}

/// Every violation that is listed is that of some witness.
pub proof fn violations_have_a_witness(witnesses: Seq<WitnessView>, m: int) -> (n: int)
    requires
        0 <= m < violations_of(witnesses).len(),
    ensures
        0 <= n < witnesses.len(),
        violations_of(witnesses)[m] == violation_of(witnesses[n]),
    decreases witnesses.len(),
{
    let front = witnesses.drop_last();
    let before = violations_of(front);
    if m < before.len() {
        violations_have_a_witness(front, m)
    } else {
        witnesses.len() - 1
    }
}

/// The search tells two paths apart by the state that they lead to and by how
/// far the patterns have come on them, and by nothing else.
pub proof fn paths_are_told_apart_by_their_progress(f: FrameView, h: FrameView)
    ensures
        f.node == h.node && f.states == h.states ==> fingerprint(f) == fingerprint(h),
        fingerprint(f) == fingerprint(h) ==> f.node == h.node,
{
}

proof fn exhausts_within(
    g: StateGraph,
    max_states: nat,
    max_depth: nat,
    s: SearchView,
    all: Set<FingerprintView>,
)
    requires
        g.wf(),
        max_depth <= usize::MAX,
        on_walks(g, s.stack, max_depth),
        sound(g, max_depth, s.found),
        all.finite(),
        all.len() < max_states,
        s.visited.no_duplicates(),
        forall|n: int| 0 <= n < s.visited.len() ==> all.contains(#[trigger] s.visited[n]),
        forall|walk: Seq<int>| #[trigger]
            is_walk(g, g.initial, walk) ==> walk.len() < max_depth && all.contains(
                fingerprint(run(g, walk)),
            ),
    ensures
        exhausts(g, max_states, max_depth, s),
    decreases max_states - s.visited.len(), s.stack.len(),
{
    if s.stack.len() > 0 {
        let f = s.stack.last();
        assert(s.stack[s.stack.len() - 1] == f);
        assert(on_walk(g, f, max_depth));
        let walk = choose|walk: Seq<int>| reached(g, f, walk, max_depth);
        assert(reached(g, f, walk, max_depth));
        assert(is_walk(g, g.initial, walk));
        run_follows(g, walk);
        let fp = fingerprint(f);
        let t = search_step(g, max_states, max_depth, s);
        step_sound(g, max_states, max_depth, s);
        if s.visited.contains(fp) {
            exhausts_within(g, max_states, max_depth, t, all);
        } else {
            let seen = s.visited.to_set();
            s.visited.unique_seq_to_set();
            assert(seen.subset_of(all.remove(fp))) by {
                assert forall|x: FingerprintView| #[trigger] seen.contains(x) implies all.remove(
                    fp,
                ).contains(x) by {
                    let n = choose|n: int| 0 <= n < s.visited.len() && s.visited[n] == x;
                    assert(all.contains(s.visited[n]));
                }
            }
            vstd::set_lib::lemma_len_subset(seen, all.remove(fp));
            assert(s.visited.len() + 1 <= all.len());
            let visited = s.visited.push(fp);
            assert(t.visited == visited);
            assert forall|a: int, b: int|
                0 <= a < visited.len() && 0 <= b < visited.len() && a != b implies visited[a]
                != visited[b] by {
                if a < s.visited.len() && b < s.visited.len() {
                    assert(s.visited[a] != s.visited[b]);
                } else if a < s.visited.len() {
                    assert(s.visited.contains(s.visited[a]));
                } else {
                    assert(s.visited.contains(s.visited[b]));
                }
            }
            assert forall|n: int| 0 <= n < t.visited.len() implies all.contains(
                #[trigger] t.visited[n],
            ) by {
                if n < s.visited.len() {
                    assert(t.visited[n] == s.visited[n]);
                }
            }
            exhausts_within(g, max_states, max_depth, t, all);
        }
    }
}

/// A graph with fewer walks from its initial state than the detector may meet
/// states, all of them shorter than it may follow, is searched through.
pub proof fn small_graphs_are_searched_through(
    g: StateGraph,
    max_states: usize,
    max_depth: usize,
    walks: Set<Seq<int>>,
)
    requires
        g.wf(),
        walks.finite(),
        walks.len() < max_states,
        forall|walk: Seq<int>| #[trigger]
            is_walk(g, g.initial, walk) ==> walks.contains(walk) && walk.len() < max_depth,
    ensures
        exhausts(g, max_states as nat, max_depth as nat, search_start(g)),
{
    let print = |walk: Seq<int>| fingerprint(run(g, walk));
    let all = walks.map(print);
    vstd::set_lib::lemma_map_size_bound(walks, all, print);
    assert forall|walk: Seq<int>| #[trigger] is_walk(g, g.initial, walk) implies walk.len()
        < max_depth && all.contains(fingerprint(run(g, walk))) by {
        assert(walks.contains(walk));
        assert(print(walk) == fingerprint(run(g, walk)));
    }
    start_sound(g, max_depth as nat);
    exhausts_within(g, max_states as nat, max_depth as nat, search_start(g), all);
}

/// A detector reports the witnesses of its whole graph within its limits.
pub proof fn detectors_report_all_witnesses<'a>(d: AtomicityViolationDetector<'a>)
    ensures
        d.witnesses() == witnesses_of(*d.state_graph, d.max_states as nat, d.max_depth as nat),
{
}

} // verus!

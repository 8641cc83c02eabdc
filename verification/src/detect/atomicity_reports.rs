//! What the atomicity detector finds on one path: each interruption that the
//! path completes is among its witnesses.

use super::atomicity_laws::{
    follows, has_mid, held_facts, interference_completes, latest_start, progress, remote_event, run,
    run_follows, walk_events,
};
use super::atomicity_violation::{
    advanced, alias_key, all_noted, completes, edges_along, event_of, extended, fingerprint,
    found_advanced, found_after_end, found_along, found_held, held, kind_of_rule, noted, position,
    rule_at, search, search_step, start_of, start_of_entry, EvView, Found, FrameView, MidEntry,
    Rule, SearchView, WitnessView, RULE_COUNT,
};
use crate::net::state_graph::{is_walk, walk_node, StateEdge, StateGraph};
use crate::net::structure::TransitionId;
use vstd::prelude::*;

verus! {

/// Edges by one transition do one thing.
pub open spec fn transitions_do_one_thing(g: StateGraph) -> bool {
    forall|d: int, e: int|
        0 <= d < g.edges@.len() && 0 <= e < g.edges@.len() && (#[trigger] g.edges@[d]).transition
            == (#[trigger] g.edges@[e]).transition ==> g.edges@[d].transition_type@
            == g.edges@[e].transition_type@
}

/// All witnesses are still there, and others may have come after them.
pub open spec fn grows(a: Found, b: Found) -> bool {
    a.witnesses.len() <= b.witnesses.len() && forall|n: int|
        0 <= n < a.witnesses.len() ==> #[trigger] b.witnesses[n] == a.witnesses[n]
}

/// Some edge by the transition is the event.
pub open spec fn fires(g: StateGraph, t: TransitionId, ev: EvView) -> bool {
    exists|e: int|
        0 <= e < g.edges@.len() && (#[trigger] g.edges@[e]).transition == t && event_of(
            g.edges@[e].transition_type@,
        ) == Some(ev)
}

/// The witness is that of the pattern and the three transitions.
pub open spec fn told_at(
    g: StateGraph,
    s: (usize, TransitionId, TransitionId, TransitionId),
    w: WitnessView,
) -> bool {
    &&& s.0 < RULE_COUNT
    &&& w.kind == kind_of_rule(s.0 as int)
    &&& fires(g, s.1, w.start)
    &&& fires(g, s.2, w.mid)
    &&& fires(g, s.3, w.end)
}

/// Every triple of transitions that was counted has its witness.
pub open spec fn told(g: StateGraph, found: Found) -> bool {
    &&& found.seen.len() == found.witnesses.len()
    &&& forall|n: int|
        0 <= n < found.seen.len() ==> told_at(g, #[trigger] found.seen[n], found.witnesses[n])
}

/// The path of the search records the transitions and events of the walk.
pub open spec fn records(g: StateGraph, f: FrameView, walk: Seq<int>) -> bool {
    &&& f.trace.len() == walk.len()
    &&& f.events == walk_events(g, walk)
    &&& forall|i: int|
        0 <= i < walk.len() ==> 0 <= #[trigger] walk[i] < g.edges@.len() && f.trace[i]
            == g.edges@[walk[i]].transition
}

proof fn run_records(g: StateGraph, walk: Seq<int>)
    requires
        walk.len() <= usize::MAX,
        is_walk(g, g.initial, walk),
    ensures
        records(g, run(g, walk), walk),
    decreases walk.len(),
{
    run_follows(g, walk);
    if walk.len() > 0 {
        let front = walk.drop_last();
        let e = walk.last();
        assert(walk[walk.len() - 1] == e);
        assert(is_walk(g, g.initial, front)) by {
            assert forall|i: int| 0 <= i < front.len() implies 0 <= #[trigger] front[i]
                < g.edges@.len() && g.edges@[front[i]].source == walk_node(
                g,
                g.initial,
                front,
                i,
            ) by {
                assert(front[i] == walk[i]);
                if i > 0 {
                    assert(front[i - 1] == walk[i - 1]);
                }
            }
        }
        run_records(g, front);
        run_follows(g, front);
        let f = run(g, front);
        let edge = g.edges@[e];
        let x = extended(f, edge);
        match event_of(edge.transition_type@) {
            Some(ev) => {
                held_facts(x, ev, RULE_COUNT as nat);
            },
            None => {},
        }
        assert(run(g, walk).trace == x.trace);
        assert forall|i: int| 0 <= i < walk.len() implies 0 <= #[trigger] walk[i] < g.edges@.len()
            && run(g, walk).trace[i] == g.edges@[walk[i]].transition by {
            if i < front.len() {
                assert(walk[i] == front[i]);
            }
        }
    }
}

/// The witness of a start, an interference and an end on the path.
pub open spec fn witness_of(f: FrameView, r: int, start: int, mid: int) -> WitnessView {
    WitnessView {
        kind: kind_of_rule(r),
        start: f.events[start]->0,
        mid: f.events[mid]->0,
        end: f.events.last()->0,
    }
}

proof fn noted_tells(
    g: StateGraph,
    f: FrameView,
    walk: Seq<int>,
    r: int,
    start: usize,
    mid: usize,
    ev: EvView,
    found: Found,
)
    requires
        told(g, found),
        records(g, f, walk),
        0 <= r < RULE_COUNT,
        start < f.events.len(),
        mid < f.events.len(),
        f.events[start as int] is Some,
        f.events[mid as int] is Some,
        f.events.len() > 0,
        f.events.last() == Some(ev),
    ensures
        told(g, noted(f, rule_at(r), start, mid, ev, found)),
        grows(found, noted(f, rule_at(r), start, mid, ev, found)),
        transitions_do_one_thing(g) ==> noted(
            f,
            rule_at(r),
            start,
            mid,
            ev,
            found,
        ).witnesses.contains(witness_of(f, r, start as int, mid as int)),
{
    let after = noted(f, rule_at(r), start, mid, ev, found);
    let w = witness_of(f, r, start as int, mid as int);
    let triple = (rule_at(r).id, f.trace[start as int], f.trace[mid as int], f.trace.last());
    let last = walk.len() - 1;
    let a = walk[start as int];
    let b = walk[mid as int];
    let c = walk[last];
    assert(f.events[start as int] == event_of(g.edges@[a].transition_type@));
    assert(f.events[mid as int] == event_of(g.edges@[b].transition_type@));
    assert(f.events[last] == event_of(g.edges@[c].transition_type@));
    assert(f.trace[start as int] == g.edges@[a].transition);
    assert(f.trace[mid as int] == g.edges@[b].transition);
    assert(f.trace[last] == g.edges@[c].transition);
    if found.seen.contains(triple) {
        let n = choose|n: int| 0 <= n < found.seen.len() && found.seen[n] == triple;
        assert(told_at(g, found.seen[n], found.witnesses[n]));
        let x = found.witnesses[n];
        if transitions_do_one_thing(g) {
            let i = choose|e: int|
                0 <= e < g.edges@.len() && (#[trigger] g.edges@[e]).transition == triple.1
                    && event_of(g.edges@[e].transition_type@) == Some(x.start);
            let j = choose|e: int|
                0 <= e < g.edges@.len() && (#[trigger] g.edges@[e]).transition == triple.2
                    && event_of(g.edges@[e].transition_type@) == Some(x.mid);
            let k = choose|e: int|
                0 <= e < g.edges@.len() && (#[trigger] g.edges@[e]).transition == triple.3
                    && event_of(g.edges@[e].transition_type@) == Some(x.end);
            assert(g.edges@[i].transition_type@ == g.edges@[a].transition_type@);
            assert(g.edges@[j].transition_type@ == g.edges@[b].transition_type@);
            assert(g.edges@[k].transition_type@ == g.edges@[c].transition_type@);
            assert(x == w);
            assert(after.witnesses[n] == w);
        }
    } else {
        let n = found.witnesses.len() as int;
        assert(after.witnesses[n] == w);
        assert(fires(g, triple.1, w.start));
        assert(fires(g, triple.2, w.mid));
        assert(fires(g, triple.3, w.end));
        assert forall|m: int| 0 <= m < after.seen.len() implies told_at(
            g,
            #[trigger] after.seen[m],
            after.witnesses[m],
        ) by {
            if m < n {
                assert(after.seen[m] == found.seen[m]);
                assert(after.witnesses[m] == found.witnesses[m]);
            }
        }
    }
}

proof fn grows_contains(a: Found, b: Found, w: WitnessView)
    requires
        grows(a, b),
        a.witnesses.contains(w),
    ensures
        b.witnesses.contains(w),
{
    let n = choose|n: int| 0 <= n < a.witnesses.len() && a.witnesses[n] == w;
    assert(b.witnesses[n] == w);
}

proof fn all_noted_tells(
    g: StateGraph,
    f: FrameView,
    walk: Seq<int>,
    r: int,
    mids: Seq<MidEntry>,
    start: usize,
    ev: EvView,
    found: Found,
)
    requires
        told(g, found),
        records(g, f, walk),
        0 <= r < RULE_COUNT,
        0 < f.events.len() == f.trace.len() <= usize::MAX,
        start < f.events.len(),
        f.events[start as int] is Some,
        f.events.last() == Some(ev),
        forall|n: int|
            0 <= n < mids.len() && completes(
                #[trigger] mids[n],
                alias_key(ev.alias),
                ev.tid,
                start,
                position(f),
            ) ==> f.events[mids[n].at as int] is Some,
    ensures
        ({
            let after = all_noted(f, rule_at(r), mids, start, ev, position(f), found);
            &&& told(g, after)
            &&& grows(found, after)
            &&& forall|n: int|
                0 <= n < mids.len() && completes(
                    #[trigger] mids[n],
                    alias_key(ev.alias),
                    ev.tid,
                    start,
                    position(f),
                ) && transitions_do_one_thing(g) ==> after.witnesses.contains(
                    witness_of(f, r, start as int, mids[n].at as int),
                )
        }),
    decreases mids.len(),
{
    let key = alias_key(ev.alias);
    let now = position(f);
    if mids.len() > 0 {
        let front = mids.drop_last();
        let last = mids.last();
        assert forall|n: int|
            0 <= n < front.len() && completes(
                #[trigger] front[n],
                key,
                ev.tid,
                start,
                now,
            ) implies f.events[front[n].at as int] is Some by {
            assert(front[n] == mids[n]);
        }
        all_noted_tells(g, f, walk, r, front, start, ev, found);
        let before = all_noted(f, rule_at(r), front, start, ev, now, found);
        let after = all_noted(f, rule_at(r), mids, start, ev, now, found);
        assert(mids[mids.len() - 1] == last);
        if completes(last, key, ev.tid, start, now) {
            noted_tells(g, f, walk, r, start, last.at, ev, before);
        }
        assert forall|n: int|
            0 <= n < mids.len() && completes(
                #[trigger] mids[n],
                key,
                ev.tid,
                start,
                now,
            ) && transitions_do_one_thing(g) implies after.witnesses.contains(
            witness_of(f, r, start as int, mids[n].at as int),
        ) by {
            if n < front.len() {
                assert(front[n] == mids[n]);
                grows_contains(before, after, witness_of(f, r, start as int, front[n].at as int));
            }
        }
    }
}

/// A witness is that of the pattern, with the end and the interfering thread,
/// on the location and of the thread of the end.
pub open spec fn is_report(w: WitnessView, r: int, ev: EvView, by: usize) -> bool {
    let rule = rule_at(r);
    &&& w.kind == kind_of_rule(r)
    &&& w.end == ev
    &&& w.start.kind == rule.start
    &&& w.start.tid == ev.tid
    &&& alias_key(w.start.alias) == alias_key(ev.alias)
    &&& w.mid.kind == rule.mid
    &&& w.mid.tid == by
    &&& alias_key(w.mid.alias) == alias_key(ev.alias)
}

/// Some witness reports the pattern.
pub open spec fn reports(found: Found, r: int, ev: EvView, by: usize) -> bool {
    exists|n: int|
        0 <= n < found.witnesses.len() && is_report(#[trigger] found.witnesses[n], r, ev, by)
}

pub(crate) proof fn reports_stay(a: Found, b: Found, r: int, ev: EvView, by: usize)
    requires
        grows(a, b),
        reports(a, r, ev, by),
    ensures
        reports(b, r, ev, by),
{
    let n = choose|n: int|
        0 <= n < a.witnesses.len() && is_report(#[trigger] a.witnesses[n], r, ev, by);
    assert(b.witnesses[n] == a.witnesses[n]);
}

/// The event ends a pattern that the thread has interfered with.
pub open spec fn ends_by(f: FrameView, x: Option<EvView>, r: int, by: usize) -> bool {
    match x {
        Some(ev) => ev.kind == rule_at(r).end && has_mid(
            f.states[r].mids,
            alias_key(ev.alias),
            ev.tid,
            by,
        ),
        None => false,
    }
}

proof fn after_end_tells(
    g: StateGraph,
    h: FrameView,
    walk: Seq<int>,
    r: int,
    ev: EvView,
    found: Found,
)
    requires
        told(g, found),
        records(g, h, walk),
        0 <= r < RULE_COUNT,
        0 < h.events.len() == h.trace.len() <= usize::MAX,
        h.events.last() == Some(ev),
        progress(h.states[r], h.events.drop_last(), rule_at(r)),
    ensures
        ({
            let after = found_after_end(h, rule_at(r), ev, found);
            &&& told(g, after)
            &&& grows(found, after)
            &&& forall|by: usize| #[trigger]
                ends_by(h, Some(ev), r, by) && transitions_do_one_thing(g) ==> reports(
                    after,
                    r,
                    ev,
                    by,
                )
        }),
{
    let rule = rule_at(r);
    let key = alias_key(ev.alias);
    let p = h.states[r];
    let prev = h.events.drop_last();
    let after = found_after_end(h, rule, ev, found);
    if ev.kind == rule.end {
        match start_of(p.starts, key, ev.tid) {
            Some(start) => {
                let s = start_of_entry(p.starts, key, ev.tid);
                assert(latest_start(p.starts[s], prev, rule)) by {
                    reveal(progress);
                }
                assert(h.events[start as int] == prev[start as int]);
                assert forall|n: int|
                    0 <= n < p.mids.len() && completes(
                        #[trigger] p.mids[n],
                        key,
                        ev.tid,
                        start,
                        position(h),
                    ) implies h.events[p.mids[n].at as int] is Some by {
                    assert(remote_event(p.mids[n], p.starts, prev, rule)) by {
                        reveal(progress);
                    }
                    assert(h.events[p.mids[n].at as int] == prev[p.mids[n].at as int]);
                }
                all_noted_tells(g, h, walk, r, p.mids, start, ev, found);
                assert forall|by: usize| #[trigger]
                    ends_by(h, Some(ev), r, by) && transitions_do_one_thing(g) implies reports(
                    after,
                    r,
                    ev,
                    by,
                ) by {
                    let k = interference_completes(p, prev, rule, key, ev.tid, by);
                    assert(completes(p.mids[k], key, ev.tid, start, position(h)));
                    let w = witness_of(h, r, start as int, p.mids[k].at as int);
                    assert(after.witnesses.contains(w));
                    assert(remote_event(p.mids[k], p.starts, prev, rule)) by {
                        reveal(progress);
                    }
                    assert(h.events[p.mids[k].at as int] == prev[p.mids[k].at as int]);
                    assert(is_report(w, r, ev, by));
                    let n = choose|n: int|
                        0 <= n < after.witnesses.len() && after.witnesses[n] == w;
                    assert(is_report(after.witnesses[n], r, ev, by));
                }
            },
            None => {
                assert forall|by: usize| #[trigger] ends_by(h, Some(ev), r, by) implies false by {
                    interference_completes(p, prev, rule, key, ev.tid, by);
                }
            },
        }
    }
}

proof fn held_tells(
    g: StateGraph,
    f: FrameView,
    walk: Seq<int>,
    e: int,
    ev: EvView,
    n: nat,
    found: Found,
)
    requires
        told(g, found),
        follows(g, f, walk),
        records(g, f, walk),
        walk.len() < usize::MAX,
        0 <= e < g.edges@.len(),
        event_of(g.edges@[e].transition_type@) == Some(ev),
        n <= RULE_COUNT,
    ensures
        ({
            let after = found_held(extended(f, g.edges@[e]), ev, n, found);
            &&& told(g, after)
            &&& grows(found, after)
            &&& forall|r: int, by: usize|
                0 <= r < n && #[trigger] ends_by(f, Some(ev), r, by) && transitions_do_one_thing(
                    g,
                ) ==> reports(after, r, ev, by)
        }),
    decreases n,
{
    let x = extended(f, g.edges@[e]);
    if n > 0 {
        let m = (n - 1) as nat;
        held_tells(g, f, walk, e, ev, m, found);
        let before = found_held(x, ev, m, found);
        let after = found_held(x, ev, n, found);
        held_facts(x, ev, m);
        let h = held(x, ev, m);
        let r = n - 1;
        let longer = walk.push(e);
        assert(h.states[r] == x.states[r]);
        assert(h.events =~= walk_events(g, longer));
        assert(h.events.drop_last() =~= f.events);
        assert(progress(f.states[r], f.events, rule_at(r)));
        assert forall|i: int| 0 <= i < longer.len() implies 0 <= #[trigger] longer[i]
            < g.edges@.len() && h.trace[i] == g.edges@[longer[i]].transition by {
            if i < walk.len() {
                assert(longer[i] == walk[i]);
            }
        }
        after_end_tells(g, h, longer, r, ev, before);
        assert forall|q: int, by: usize|
            0 <= q < n && #[trigger] ends_by(f, Some(ev), q, by) && transitions_do_one_thing(
                g,
            ) implies reports(after, q, ev, by) by {
            if q < m {
                reports_stay(before, after, q, ev, by);
            } else {
                assert(ends_by(h, Some(ev), r, by));
            }
        }
    }
}

proof fn advanced_tells(g: StateGraph, walk: Seq<int>, e: int, found: Found)
    requires
        told(g, found),
        is_walk(g, g.initial, walk),
        walk.len() < usize::MAX,
        0 <= e < g.edges@.len(),
    ensures
        ({
            let f = run(g, walk);
            let x = event_of(g.edges@[e].transition_type@);
            let after = found_advanced(f, g.edges@[e], found);
            &&& told(g, after)
            &&& grows(found, after)
            &&& forall|r: int, by: usize|
                0 <= r < RULE_COUNT && #[trigger] ends_by(f, x, r, by) && transitions_do_one_thing(
                    g,
                ) ==> reports(after, r, x->0, by)
        }),
{
    run_follows(g, walk);
    run_records(g, walk);
    match event_of(g.edges@[e].transition_type@) {
        Some(ev) => {
            held_tells(g, run(g, walk), walk, e, ev, RULE_COUNT as nat, found);
        },
        None => {},
    }
}

/// Continuing a path along some edges finds every interruption that one of them
/// completes.
pub(crate) proof fn along_tells(
    g: StateGraph,
    walk: Seq<int>,
    along: Seq<(usize, usize)>,
    found: Found,
)
    requires
        told(g, found),
        is_walk(g, g.initial, walk),
        walk.len() < usize::MAX,
        forall|n: int| 0 <= n < along.len() ==> (#[trigger] along[n]).1 < g.edges@.len(),
    ensures
        ({
            let f = run(g, walk);
            let after = found_along(g.edges@, f, along, found);
            &&& told(g, after)
            &&& grows(found, after)
            &&& forall|n: int, r: int, by: usize|
                0 <= n < along.len() && 0 <= r < RULE_COUNT && #[trigger] ends_by(
                    f,
                    event_of(g.edges@[(#[trigger] along[n]).1 as int].transition_type@),
                    r,
                    by,
                ) && transitions_do_one_thing(g) ==> reports(
                    after,
                    r,
                    event_of(g.edges@[along[n].1 as int].transition_type@)->0,
                    by,
                )
        }),
    decreases along.len(),
{
    if along.len() > 0 {
        let f = run(g, walk);
        let front = along.drop_last();
        let last = along.last();
        assert forall|n: int| 0 <= n < front.len() implies (#[trigger] front[n]).1
            < g.edges@.len() by {
            assert(front[n] == along[n]);
        }
        along_tells(g, walk, front, found);
        let before = found_along(g.edges@, f, front, found);
        let after = found_along(g.edges@, f, along, found);
        assert(along[along.len() - 1] == last);
        advanced_tells(g, walk, last.1 as int, before);
        assert forall|n: int, r: int, by: usize|
            0 <= n < along.len() && 0 <= r < RULE_COUNT && #[trigger] ends_by(
                f,
                event_of(g.edges@[(#[trigger] along[n]).1 as int].transition_type@),
                r,
                by,
            ) && transitions_do_one_thing(g) implies reports(
            after,
            r,
            event_of(g.edges@[along[n].1 as int].transition_type@)->0,
            by,
        ) by {
            if n < front.len() {
                assert(front[n] == along[n]);
                reports_stay(
                    before,
                    after,
                    r,
                    event_of(g.edges@[along[n].1 as int].transition_type@)->0,
                    by,
                );
            }
        }
    }
}

proof fn all_noted_grows(
    f: FrameView,
    rule: Rule,
    mids: Seq<MidEntry>,
    start: usize,
    ev: EvView,
    now: usize,
    found: Found,
)
    ensures
        grows(found, all_noted(f, rule, mids, start, ev, now, found)),
    decreases mids.len(),
{
    if mids.len() > 0 {
        all_noted_grows(f, rule, mids.drop_last(), start, ev, now, found);
    }
}

proof fn held_grows(f: FrameView, ev: EvView, n: nat, found: Found)
    ensures
        grows(found, found_held(f, ev, n, found)),
    decreases n,
{
    if n > 0 {
        let m = (n - 1) as nat;
        held_grows(f, ev, m, found);
        let h = held(f, ev, m);
        let rule = rule_at(n - 1);
        let before = found_held(f, ev, m, found);
        let p = h.states[rule.id as int];
        match start_of(p.starts, alias_key(ev.alias), ev.tid) {
            Some(start) => {
                all_noted_grows(h, rule, p.mids, start, ev, position(h), before);
            },
            None => {},
        }
    }
}

proof fn along_grows(
    edges: Seq<StateEdge>,
    f: FrameView,
    along: Seq<(usize, usize)>,
    found: Found,
)
    ensures
        grows(found, found_along(edges, f, along, found)),
    decreases along.len(),
{
    if along.len() > 0 {
        along_grows(edges, f, along.drop_last(), found);
        let before = found_along(edges, f, along.drop_last(), found);
        let edge = edges[along.last().1 as int];
        match event_of(edge.transition_type@) {
            Some(ev) => {
                held_grows(extended(f, edge), ev, RULE_COUNT as nat, before);
            },
            None => {},
        }
    }
}

/// What the search has found at any point it reports in the end, also where it
/// is cut short.
pub proof fn findings_are_reported(
    g: StateGraph,
    max_states: nat,
    max_depth: nat,
    s: SearchView,
)
    ensures
        grows(s.found, search(g, max_states, max_depth, s)),
    decreases max_states - s.visited.len(), s.stack.len(),
{
    if s.stack.len() > 0 {
        let f = s.stack.last();
        let t = search_step(g, max_states, max_depth, s);
        let along = if s.visited.len() + 1 >= max_states {
            Seq::<(usize, usize)>::empty()
        } else {
            edges_along(g, f.node)
        };
        along_grows(g.edges@, f, along, s.found);
        assert(grows(s.found, t.found));
        findings_are_reported(g, max_states, max_depth, t);
    }
}

/// A path that is neither too long nor met before is continued along all its
/// edges as long as the limit on states is not reached, and what they complete
/// is found at once.
pub proof fn paths_are_continued(
    g: StateGraph,
    max_states: nat,
    max_depth: nat,
    s: SearchView,
)
    requires
        s.stack.len() > 0,
        s.stack.last().trace.len() < max_depth,
        s.visited.len() + 1 < max_states,
        !s.visited.contains(fingerprint(s.stack.last())),
    ensures
        ({
            let f = s.stack.last();
            let t = search_step(g, max_states, max_depth, s);
            let along = edges_along(g, f.node);
            &&& t.visited == s.visited.push(fingerprint(f))
            &&& t.stack.len() == s.stack.len() - 1 + along.len()
            &&& forall|n: int|
                0 <= n < along.len() ==> t.stack[s.stack.len() - 1 + n] == advanced(
                    f,
                    g.edges@[(#[trigger] along[n]).1 as int],
                )
            &&& t.found == found_along(g.edges@, f, along, s.found)
        }),
{
}

} // verus!

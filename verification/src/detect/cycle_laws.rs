//! What the search for cyclic waits promises: a closed cycle on which a lock
//! can never be taken is not missed.

use super::deadlock::{deadlocks, deadlocks_listed, is_normal_exit, is_stuck, some_stuck};
use super::lock_cycles::{
    all_blocked, blocked_at, blocked_locks, blocked_throughout, consistently_blocked,
    cycle_deadlocks, cycle_from, explored, explored_edges, groups_after, groups_are_real, has_group,
    is_cycle, is_lock, joined, lock_of, path_ok, searched, stable, takes, CycleSearch,
};
use super::shortest_path::distinct_below;
use crate::net::state_graph::{graph_edges, outgoing_complete, outgoing_sound, StateGraph};
use crate::net::structure::{TransitionId, TransitionTypeView};
use crate::text::contains_text;
use vstd::prelude::*;

verus! {

/// The transition takes the lock, as a mutex, for reading or for writing.
pub open spec fn acquires(transition_type: TransitionTypeView, lock: usize) -> bool {
    ||| transition_type == TransitionTypeView::Lock(lock)
    ||| transition_type == TransitionTypeView::RwLockRead(lock)
    ||| transition_type == TransitionTypeView::RwLockWrite(lock)
}

/// Some transition of the graph takes the lock.
pub open spec fn is_wanted(g: StateGraph, lock: usize) -> bool {
    exists|e: int|
        0 <= e < g.edges@.len() && acquires((#[trigger] g.edges@[e]).transition_type@, lock)
}

/// Some transition takes the lock, and none of those that do is enabled at any
/// of the states.
pub open spec fn is_starved(g: StateGraph, states: Seq<usize>, lock: usize) -> bool {
    &&& is_wanted(g, lock)
    &&& forall|e: int, i: int|
        0 <= e < g.edges@.len() && acquires((#[trigger] g.edges@[e]).transition_type@, lock) && 0
            <= i < states.len() ==> !g.states@[(#[trigger] states[i]) as int].enabled@.contains(
            g.edges@[e].transition,
        )
}

/// The position after `i` on the cycle.
pub open spec fn next_on(cycle: Seq<usize>, i: int) -> int {
    if i + 1 < cycle.len() {
        i + 1
    } else {
        0
    }
}

/// The state at `i` leads to the next on the cycle, and nowhere else.
pub open spec fn leads_round(g: StateGraph, cycle: Seq<usize>, i: int) -> bool {
    &&& joined(g, cycle[i], cycle[next_on(cycle, i)])
    &&& forall|e: int|
        0 <= e < g.edges@.len() && (#[trigger] g.edges@[e]).source == cycle[i]
            ==> g.edges@[e].target == cycle[next_on(cycle, i)]
}

/// Different states, each of which leads to the next and nowhere else, the last
/// to the first.
pub open spec fn goes_round(g: StateGraph, cycle: Seq<usize>) -> bool {
    &&& cycle.len() > 0
    &&& cycle.no_duplicates()
    &&& forall|i: int| 0 <= i < cycle.len() ==> #[trigger] leads_round(g, cycle, i)
}

/// The locks that a transition takes are those that it acquires.
pub proof fn locks_are_taken_in_three_ways(transition_type: TransitionTypeView, lock: usize)
    ensures
        lock_of(transition_type) == Some(lock) <==> acquires(transition_type, lock),
{
}

proof fn starved_is_blocked(g: StateGraph, cycle: Seq<usize>, lock: usize)
    ensures
        is_wanted(g, lock) <==> is_lock(g.edges@, lock),
        is_starved(g, cycle, lock) <==> blocked_locks(g, cycle).contains(lock),
{
    assert forall|t: TransitionTypeView| #[trigger] lock_of(t) == Some(lock) <==> acquires(
        t,
        lock,
    ) by {
        locks_are_taken_in_three_ways(t, lock);
    }
    if is_wanted(g, lock) {
        let e = choose|e: int|
            0 <= e < g.edges@.len() && acquires((#[trigger] g.edges@[e]).transition_type@, lock);
        assert(lock_of(g.edges@[e].transition_type@) == Some(lock));
    }
    if is_lock(g.edges@, lock) {
        let e = choose|e: int|
            0 <= e < g.edges@.len() && lock_of((#[trigger] g.edges@[e]).transition_type@) == Some(
                lock,
            );
        assert(acquires(g.edges@[e].transition_type@, lock));
    }
    if is_starved(g, cycle, lock) {
        assert forall|i: int| 0 <= i < cycle.len() implies blocked_at(
            g,
            #[trigger] cycle[i],
            lock,
        ) by {
            assert forall|t: TransitionId| #[trigger] takes(
                g.edges@,
                lock,
                t,
            ) implies !g.states@[cycle[i] as int].enabled@.contains(t) by {
                let e = choose|e: int|
                    0 <= e < g.edges@.len() && lock_of((#[trigger] g.edges@[e]).transition_type@)
                        == Some(lock) && g.edges@[e].transition == t;
                assert(acquires(g.edges@[e].transition_type@, lock));
            }
        }
    }
    if blocked_locks(g, cycle).contains(lock) {
        assert forall|e: int, i: int|
            0 <= e < g.edges@.len() && acquires((#[trigger] g.edges@[e]).transition_type@, lock)
                && 0 <= i < cycle.len() implies !g.states@[(
        #[trigger] cycle[i]) as int].enabled@.contains(g.edges@[e].transition) by {
            assert(lock_of(g.edges@[e].transition_type@) == Some(lock));
            assert(takes(g.edges@, lock, g.edges@[e].transition));
            assert(blocked_at(g, cycle[i], lock));
        }
    }
}

/// The other search has met at least the same states and found at least the
/// same groups.
spec fn goes_on(s: CycleSearch, t: CycleSearch) -> bool {
    &&& t.visited.len() == s.visited.len()
    &&& forall|i: int| 0 <= i < s.visited.len() && #[trigger] s.visited[i] ==> t.visited[i]
    &&& forall|b: Set<usize>| #[trigger] has_group(s.groups, b) ==> has_group(t.groups, b)
}

proof fn groups_stay(g: StateGraph, path: Seq<usize>, node: usize, groups: Seq<(Set<usize>, usize)>)
    ensures
        forall|b: Set<usize>| #[trigger]
            has_group(groups, b) ==> has_group(groups_after(g, path, node, groups), b),
{
    let after = groups_after(g, path, node, groups);
    assert forall|b: Set<usize>| #[trigger] has_group(groups, b) implies has_group(after, b) by {
        let i = choose|i: int| 0 <= i < groups.len() && (#[trigger] groups[i]).0 == b;
        assert(after[i].0 == b);
    }
}

proof fn outgoing_in_range(g: StateGraph, node: usize)
    requires
        g.wf(),
    ensures
        in_range(g, g.outgoing_edges(node)),
{
    let along = g.outgoing_edges(node);
    assert forall|k: int| 0 <= k < along.len() implies (#[trigger] along[k]).0 < g.states@.len() by {
        let e = outgoing_sound(graph_edges(g.graph), node, k);
        assert(graph_edges(g.graph)[e].1 == g.edges@[e].target);
    }
}

/// The edges lead to states of the graph.
spec fn in_range(g: StateGraph, along: Seq<(usize, usize)>) -> bool {
    forall|k: int| 0 <= k < along.len() ==> (#[trigger] along[k]).0 < g.states@.len()
}

proof fn rest_in_range(g: StateGraph, along: Seq<(usize, usize)>)
    requires
        in_range(g, along),
        along.len() > 0,
    ensures
        along[0].0 < g.states@.len(),
        in_range(g, along.drop_first()),
{
    let rest = along.drop_first();
    assert forall|k: int| 0 <= k < rest.len() implies (#[trigger] rest[k]).0 < g.states@.len() by {
        assert(rest[k] == along[k + 1]);
    }
}

proof fn explored_goes_on(g: StateGraph, node: usize, path: Seq<usize>, s: CycleSearch)
    requires
        g.wf(),
        s.visited.len() == g.states@.len(),
        node < g.states@.len(),
    ensures
        goes_on(s, explored(g, node, path, s)),
        path.len() < g.states@.len() ==> explored(g, node, path, s).visited[node as int],
    decreases g.states@.len() - path.len(), 0nat,
{
    if path.len() < g.states@.len() {
        let t = CycleSearch { visited: s.visited.update(node as int, true), ..s };
        outgoing_in_range(g, node);
        explored_edges_go_on(g, path.push(node), g.outgoing_edges(node), t);
        assert(t.visited[node as int]);
        let u = explored(g, node, path, s);
        assert forall|i: int| 0 <= i < s.visited.len() && #[trigger] s.visited[i] implies u.visited[i] by {
            assert(t.visited[i]);
        }
        assert forall|b: Set<usize>| #[trigger] has_group(s.groups, b) implies has_group(
            u.groups,
            b,
        ) by {
            assert(has_group(t.groups, b));
        }
    }
}

proof fn explored_edges_go_on(
    g: StateGraph,
    path: Seq<usize>,
    along: Seq<(usize, usize)>,
    s: CycleSearch,
)
    requires
        g.wf(),
        s.visited.len() == g.states@.len(),
        in_range(g, along),
    ensures
        goes_on(s, explored_edges(g, path, along, s)),
    decreases g.states@.len() - path.len(), along.len(),
{
    if along.len() > 0 {
        let next = along[0].0;
        rest_in_range(g, along);
        let t = if !s.visited[next as int] {
            explored(g, next, path, s)
        } else if path.contains(next) {
            CycleSearch { groups: groups_after(g, path, next, s.groups), ..s }
        } else {
            s
        };
        assert(goes_on(s, t)) by {
            if !s.visited[next as int] {
                explored_goes_on(g, next, path, s);
            } else if path.contains(next) {
                groups_stay(g, path, next, s.groups);
            }
        }
        explored_edges_go_on(g, path, along.drop_first(), t);
    }
}

proof fn longer_path_ok(g: StateGraph, path: Seq<usize>, node: usize, visited: Seq<bool>)
    requires
        path_ok(g, path, visited),
        node < g.states@.len(),
        !visited[node as int],
    ensures
        path_ok(g, path.push(node), visited.update(node as int, true)),
        path.len() < g.states@.len(),
{
    let longer = path.push(node);
    assert forall|a: int, b: int|
        0 <= a < longer.len() && 0 <= b < longer.len() && a != b implies longer[a] != longer[b] by {
        if a < path.len() && b < path.len() {
            assert(path[a] != path[b]);
        } else if a < path.len() {
            assert(visited[path[a] as int]);
        } else {
            assert(visited[path[b] as int]);
        }
    }
    assert forall|i: int| 0 <= i < longer.len() implies #[trigger] longer[i] < g.states@.len() by {
        if i < path.len() {
            assert(path[i] < g.states@.len());
        }
    }
    assert forall|i: int| 0 <= i < longer.len() implies visited.update(node as int, true)[
    #[trigger] longer[i] as int] by {
        if i < path.len() {
            assert(visited[path[i] as int]);
        }
    }
    distinct_below(longer, g.states@.len());
}

proof fn path_stays_ok(g: StateGraph, path: Seq<usize>, s: CycleSearch, t: CycleSearch)
    requires
        path_ok(g, path, s.visited),
        goes_on(s, t),
    ensures
        path_ok(g, path, t.visited),
{
    assert forall|i: int| 0 <= i < path.len() implies t.visited[#[trigger] path[i] as int] by {
        assert(s.visited[path[i] as int]);
        assert(path[i] < g.states@.len());
    }
}

/// The cycle from another of its states on.
spec fn rotated(cycle: Seq<usize>, j: int) -> Seq<usize> {
    cycle.skip(j) + cycle.take(j)
}

proof fn rotation_goes_round(g: StateGraph, cycle: Seq<usize>, j: int)
    requires
        goes_round(g, cycle),
        0 <= j < cycle.len(),
    ensures
        goes_round(g, rotated(cycle, j)),
        rotated(cycle, j)[0] == cycle[j],
        forall|x: usize| #[trigger] rotated(cycle, j).contains(x) <==> cycle.contains(x),
{
    let d = rotated(cycle, j);
    let n = cycle.len();
    assert forall|i: int| 0 <= i < n implies #[trigger] d[i] == cycle[if i + j < n {
        i + j
    } else {
        i + j - n
    }] by {
    }
    assert forall|x: usize| #[trigger] d.contains(x) <==> cycle.contains(x) by {
        if d.contains(x) {
            let i = choose|i: int| 0 <= i < n && d[i] == x;
            let k = if i + j < n {
                i + j
            } else {
                i + j - n
            };
            assert(cycle[k] == x);
        }
        if cycle.contains(x) {
            let k = choose|k: int| 0 <= k < n && cycle[k] == x;
            let i = if k >= j {
                k - j
            } else {
                k - j + n
            };
            assert(d[i] == x);
        }
    }
    assert forall|i: int| 0 <= i < n implies #[trigger] leads_round(g, d, i) by {
        let k = if i + j < n {
            i + j
        } else {
            i + j - n
        };
        assert(d[i] == cycle[k]);
        assert(d[next_on(d, i)] == cycle[next_on(cycle, k)]);
        assert(leads_round(g, cycle, k));
    }
    assert forall|a: int, b: int| 0 <= a < n && 0 <= b < n && a != b implies d[a] != d[b] by {
        let x = if a + j < n {
            a + j
        } else {
            a + j - n
        };
        let y = if b + j < n {
            b + j
        } else {
            b + j - n
        };
        assert(d[a] == cycle[x] && d[b] == cycle[y]);
        assert(x != y);
    }
}

/// The same states are blocked alike.
proof fn same_states_same_locks(g: StateGraph, a: Seq<usize>, b: Seq<usize>)
    requires
        forall|x: usize| #[trigger] a.contains(x) <==> b.contains(x),
    ensures
        blocked_locks(g, a) == blocked_locks(g, b),
{
    assert forall|l: usize| #[trigger] blocked_locks(g, a).contains(l) <==> blocked_locks(
        g,
        b,
    ).contains(l) by {
        if blocked_throughout(g, a, l) {
            assert forall|i: int| 0 <= i < b.len() implies blocked_at(g, #[trigger] b[i], l) by {
                assert(b.contains(b[i]));
                assert(a.contains(b[i]));
                let k = choose|k: int| 0 <= k < a.len() && a[k] == b[i];
                assert(blocked_at(g, a[k], l));
            }
        }
        if blocked_throughout(g, b, l) {
            assert forall|i: int| 0 <= i < a.len() implies blocked_at(g, #[trigger] a[i], l) by {
                assert(a.contains(a[i]));
                assert(b.contains(a[i]));
                let k = choose|k: int| 0 <= k < b.len() && b[k] == a[i];
                assert(blocked_at(g, b[k], l));
            }
        }
    }
    assert(blocked_locks(g, a) =~= blocked_locks(g, b));
}

/// The edges that leave a state of the cycle lead to the next, and there is
/// one.
proof fn edges_go_round(g: StateGraph, cycle: Seq<usize>, i: int)
    requires
        g.wf(),
        goes_round(g, cycle),
        0 <= i < cycle.len(),
    ensures
        g.outgoing_edges(cycle[i]).len() > 0,
        forall|k: int|
            0 <= k < g.outgoing_edges(cycle[i]).len() ==> (#[trigger] g.outgoing_edges(
                cycle[i],
            )[k]).0 == cycle[next_on(cycle, i)],
        cycle[i] < g.states@.len(),
{
    let edges = graph_edges(g.graph);
    let along = g.outgoing_edges(cycle[i]);
    assert(leads_round(g, cycle, i));
    let e = choose|e: int|
        0 <= e < g.edges@.len() && (#[trigger] g.edges@[e]).source == cycle[i]
            && g.edges@[e].target == cycle[next_on(cycle, i)];
    assert(edges[e].0 == g.edges@[e].source);
    outgoing_complete(edges, cycle[i], e);
    assert forall|k: int| 0 <= k < along.len() implies (#[trigger] along[k]).0
        == cycle[next_on(cycle, i)] by {
        let e = outgoing_sound(edges, cycle[i], k);
        assert(edges[e].0 == g.edges@[e].source);
        assert(edges[e].1 == g.edges@[e].target);
        assert(g.edges@[e].source == cycle[i]);
    }
}

proof fn cycle_from_end(path: Seq<usize>, cycle: Seq<usize>)
    requires
        cycle.len() > 0,
        !path.contains(cycle[0]),
    ensures
        cycle_from(path + cycle, cycle[0]) == cycle,
    decreases path.len(),
{
    if path.len() == 0 {
        assert(path + cycle =~= cycle);
    } else {
        assert((path + cycle)[0] == path[0]);
        assert(path.contains(path[0]));
        let rest = path.drop_first();
        assert((path + cycle).drop_first() =~= rest + cycle);
        assert(!rest.contains(cycle[0])) by {
            if rest.contains(cycle[0]) {
                let i = choose|i: int| 0 <= i < rest.len() && rest[i] == cycle[0];
                assert(path[i + 1] == cycle[0]);
            }
        }
        cycle_from_end(rest, cycle);
    }
}

/// The search that has entered the cycle follows it round and records it.
proof fn round_is_recorded(g: StateGraph, cycle: Seq<usize>, path: Seq<usize>, k: int, s: CycleSearch)
    requires
        g.wf(),
        goes_round(g, cycle),
        consistently_blocked(g, cycle) is Some,
        blocked_locks(g, cycle) != Set::<usize>::empty(),
        0 <= k < cycle.len(),
        path_ok(g, path + cycle.take(k), s.visited),
        forall|i: int| 0 <= i < cycle.len() ==> !path.contains(#[trigger] cycle[i]),
        forall|i: int| k <= i < cycle.len() ==> !s.visited[#[trigger] cycle[i] as int],
    ensures
        has_group(
            explored(g, cycle[k], path + cycle.take(k), s).groups,
            blocked_locks(g, cycle),
        ),
    decreases cycle.len() - k,
{
    let b = blocked_locks(g, cycle);
    let before = path + cycle.take(k);
    let longer = path + cycle.take(k + 1);
    let node = cycle[k];
    edges_go_round(g, cycle, k);
    longer_path_ok(g, before, node, s.visited);
    assert(before.push(node) =~= longer);
    let along = g.outgoing_edges(node);
    let t = CycleSearch { visited: s.visited.update(node as int, true), ..s };
    let next = along[0].0;
    assert(next == cycle[next_on(cycle, k)]);
    let first = if !t.visited[next as int] {
        explored(g, next, longer, t)
    } else if longer.contains(next) {
        CycleSearch { groups: groups_after(g, longer, next, t.groups), ..t }
    } else {
        t
    };
    if k + 1 < cycle.len() {
        assert forall|i: int| k + 1 <= i < cycle.len() implies !t.visited[
        #[trigger] cycle[i] as int] by {
            assert(cycle[i] != cycle[k]);
            edges_go_round(g, cycle, i);
        }
        round_is_recorded(g, cycle, path, k + 1, t);
    } else {
        assert(longer =~= path + cycle);
        assert(longer[path.len() as int] == cycle[0]);
        assert(t.visited[next as int]) by {
            if k > 0 {
                assert(before[path.len() as int] == cycle[0]);
                assert(s.visited[before[path.len() as int] as int]);
            }
        }
        cycle_from_end(path, cycle);
        let groups = first.groups;
        if has_group(t.groups, b) {
            groups_stay(g, longer, next, t.groups);
        } else {
            assert(groups == t.groups.push((b, cycle[0])));
            assert(groups[t.groups.len() as int].0 == b);
        }
    }
    assert(has_group(first.groups, b));
    outgoing_in_range(g, node);
    rest_in_range(g, along);
    assert(first.visited.len() == g.states@.len()) by {
        if k + 1 < cycle.len() {
            explored_goes_on(g, next, longer, t);
        }
    }
    explored_edges_go_on(g, longer, along.drop_first(), first);
}

/// No state of the cycle has been met, or the cycle has been recorded.
spec fn met_or_not(g: StateGraph, cycle: Seq<usize>, s: CycleSearch) -> bool {
    has_group(s.groups, blocked_locks(g, cycle)) || forall|i: int|
        0 <= i < cycle.len() ==> !s.visited[#[trigger] cycle[i] as int]
}

proof fn explored_meets(
    g: StateGraph,
    cycle: Seq<usize>,
    node: usize,
    path: Seq<usize>,
    s: CycleSearch,
)
    requires
        g.wf(),
        goes_round(g, cycle),
        consistently_blocked(g, cycle) is Some,
        blocked_locks(g, cycle) != Set::<usize>::empty(),
        path_ok(g, path, s.visited),
        node < g.states@.len(),
        !s.visited[node as int],
        forall|i: int| 0 <= i < cycle.len() ==> !path.contains(#[trigger] cycle[i]),
        met_or_not(g, cycle, s),
    ensures
        met_or_not(g, cycle, explored(g, node, path, s)),
    decreases g.states@.len() - path.len(), 0nat,
{
    let b = blocked_locks(g, cycle);
    longer_path_ok(g, path, node, s.visited);
    if has_group(s.groups, b) {
        explored_goes_on(g, node, path, s);
    } else if cycle.contains(node) {
        let j = choose|j: int| 0 <= j < cycle.len() && cycle[j] == node;
        let d = rotated(cycle, j);
        rotation_goes_round(g, cycle, j);
        same_states_same_locks(g, cycle, d);
        assert(stable(g, d) == stable(g, cycle)) by {
            round_is_stable(g, cycle);
            round_is_stable(g, d);
        }
        assert(path + d.take(0) =~= path);
        assert forall|i: int| 0 <= i < d.len() implies !path.contains(#[trigger] d[i])
            && !s.visited[d[i] as int] by {
            assert(d.contains(d[i]));
            let k = choose|k: int| 0 <= k < cycle.len() && cycle[k] == d[i];
            assert(!path.contains(cycle[k]));
            assert(!s.visited[cycle[k] as int]);
        }
        round_is_recorded(g, d, path, 0, s);
    } else {
        let longer = path.push(node);
        let t = CycleSearch { visited: s.visited.update(node as int, true), ..s };
        assert forall|i: int| 0 <= i < cycle.len() implies !longer.contains(#[trigger] cycle[i])
            && !t.visited[cycle[i] as int] by {
            assert(cycle.contains(cycle[i]));
            assert(!path.contains(cycle[i]));
            assert(!s.visited[cycle[i] as int]);
            edges_go_round(g, cycle, i);
            if longer.contains(cycle[i]) {
                let k = choose|k: int| 0 <= k < longer.len() && longer[k] == cycle[i];
                if k < path.len() {
                    assert(path[k] == cycle[i]);
                }
            }
        }
        outgoing_in_range(g, node);
        explored_edges_meet(g, cycle, longer, g.outgoing_edges(node), t);
    }
}

proof fn explored_edges_meet(
    g: StateGraph,
    cycle: Seq<usize>,
    path: Seq<usize>,
    along: Seq<(usize, usize)>,
    s: CycleSearch,
)
    requires
        g.wf(),
        goes_round(g, cycle),
        consistently_blocked(g, cycle) is Some,
        blocked_locks(g, cycle) != Set::<usize>::empty(),
        path_ok(g, path, s.visited),
        in_range(g, along),
        forall|i: int| 0 <= i < cycle.len() ==> !path.contains(#[trigger] cycle[i]),
        met_or_not(g, cycle, s),
    ensures
        met_or_not(g, cycle, explored_edges(g, path, along, s)),
    decreases g.states@.len() - path.len(), along.len(),
{
    if along.len() > 0 {
        let next = along[0].0;
        rest_in_range(g, along);
        let t = if !s.visited[next as int] {
            explored(g, next, path, s)
        } else if path.contains(next) {
            CycleSearch { groups: groups_after(g, path, next, s.groups), ..s }
        } else {
            s
        };
        if !s.visited[next as int] {
            longer_path_ok(g, path, next, s.visited);
            explored_meets(g, cycle, next, path, s);
            explored_goes_on(g, next, path, s);
        } else if path.contains(next) {
            groups_stay(g, path, next, s.groups);
        }
        path_stays_ok(g, path, s, t);
        explored_edges_meet(g, cycle, path, along.drop_first(), t);
    }
}

proof fn searched_meets(g: StateGraph, cycle: Seq<usize>, n: nat)
    requires
        g.wf(),
        goes_round(g, cycle),
        consistently_blocked(g, cycle) is Some,
        blocked_locks(g, cycle) != Set::<usize>::empty(),
        n <= g.states@.len(),
    ensures
        searched(g, n).visited.len() == g.states@.len(),
        forall|x: int| 0 <= x < n ==> #[trigger] searched(g, n).visited[x],
        met_or_not(g, cycle, searched(g, n)),
    decreases n,
{
    if n == 0 {
        assert forall|i: int| 0 <= i < cycle.len() implies !searched(g, 0).visited[
        #[trigger] cycle[i] as int] by {
            edges_go_round(g, cycle, i);
        }
    } else {
        let m = (n - 1) as nat;
        searched_meets(g, cycle, m);
        let s = searched(g, m);
        if !s.visited[n - 1] {
            let none = Seq::<usize>::empty();
            assert(g.states.len() == g.states@.len());
            explored_meets(g, cycle, m as usize, none, s);
            explored_goes_on(g, m as usize, none, s);
            assert forall|x: int| 0 <= x < n implies #[trigger] searched(g, n).visited[x] by {
                if x < m {
                    assert(s.visited[x]);
                }
            }
        }
    }
}

proof fn round_is_stable(g: StateGraph, cycle: Seq<usize>)
    requires
        goes_round(g, cycle),
    ensures
        stable(g, cycle),
{
    assert forall|e: int|
        0 <= e < g.edges@.len() && cycle.contains(
            (#[trigger] g.edges@[e]).source,
        ) implies cycle.contains(g.edges@[e].target) by {
        let i = choose|i: int| 0 <= i < cycle.len() && cycle[i] == g.edges@[e].source;
        assert(leads_round(g, cycle, i));
        assert(g.edges@[e].target == cycle[next_on(cycle, i)]);
    }
}

/// Where no state is stuck, a closed cycle on which some lock can never be
/// taken, and some other can, is reported: by a state of a cycle that nothing
/// leads out of and on which just the same locks can never be taken.
pub proof fn closed_cycles_are_reported(
    g: StateGraph,
    cycle: Seq<usize>,
    starved: usize,
    other: usize,
) -> (r: (usize, Seq<usize>))
    requires
        g.wf(),
        forall|i: usize| i < g.states@.len() ==> !#[trigger] is_stuck(g, i),
        goes_round(g, cycle),
        is_starved(g, cycle, starved),
        is_wanted(g, other),
        !is_starved(g, cycle, other),
    ensures
        deadlocks(g, g.states@.len()).contains(r.0),
        r.1.contains(r.0),
        is_cycle(g, r.1),
        stable(g, r.1),
        forall|l: usize| #[trigger] is_starved(g, r.1, l) <==> is_starved(g, cycle, l),
{
    let b = blocked_locks(g, cycle);
    let n = g.states@.len();
    starved_is_blocked(g, cycle, starved);
    starved_is_blocked(g, cycle, other);
    round_is_stable(g, cycle);
    assert(b.contains(starved));
    assert(!all_blocked(g, cycle)) by {
        assert(is_lock(g.edges@, other));
        assert(!b.contains(other));
    }
    assert(consistently_blocked(g, cycle) == Some(b));
    searched_meets(g, cycle, n);
    edges_go_round(g, cycle, 0);
    assert(searched(g, n).visited[cycle[0] as int]);
    assert(has_group(searched(g, n).groups, b));
    let groups = searched(g, n).groups;
    let i = choose|i: int| 0 <= i < groups.len() && (#[trigger] groups[i]).0 == b;
    let d = groups_are_real(g, i);
    let state = groups[i].1;
    assert(cycle_deadlocks(g).contains(state));
    assert(state < n) by {
        let k = choose|k: int| 0 <= k < d.len() && d[k] == state;
        if k > 0 {
            assert(joined(g, d[k - 1], d[k]));
        } else {
            assert(joined(g, d.last(), d[0]));
        }
    }
    deadlocks_listed(g, n);
    assert(!some_stuck(g));
    assert forall|l: usize| #[trigger] is_starved(g, d, l) <==> is_starved(g, cycle, l) by {
        starved_is_blocked(g, d, l);
        starved_is_blocked(g, cycle, l);
    }
    (state, d)
}

/// Every state reported for want of a stuck one lies on a cycle that nothing
/// leads out of, on which some wanted lock can never be taken and some other
/// can.
pub proof fn reported_cycles_starve(g: StateGraph, state: usize) -> (r: (Seq<usize>, usize, usize))
    requires
        g.wf(),
        forall|i: usize| i < g.states@.len() ==> !#[trigger] is_stuck(g, i),
        deadlocks(g, g.states@.len()).contains(state),
    ensures
        r.0.contains(state),
        is_cycle(g, r.0),
        forall|e: int|
            0 <= e < g.edges@.len() && r.0.contains((#[trigger] g.edges@[e]).source)
                ==> r.0.contains(g.edges@[e].target),
        is_starved(g, r.0, r.1),
        is_wanted(g, r.2),
        !is_starved(g, r.0, r.2),
{
    let n = g.states@.len();
    deadlocks_listed(g, n);
    assert(!some_stuck(g));
    let groups = searched(g, n).groups;
    let i = choose|i: int| 0 <= i < groups.len() && (#[trigger] groups[i]).1 == state;
    let d = groups_are_real(g, i);
    let b = blocked_locks(g, d);
    assert(exists|l: usize| b.contains(l)) by {
        if forall|l: usize| !b.contains(l) {
            assert(b =~= Set::<usize>::empty());
        }
    }
    let starved = choose|l: usize| b.contains(l);
    let other = choose|l: usize| #[trigger] is_lock(g.edges@, l) && !b.contains(l);
    starved_is_blocked(g, d, starved);
    starved_is_blocked(g, d, other);
    (d, starved, other)
}

/// A state that no edge leaves and that shows no token at the end of `main` is
/// reported.
pub proof fn states_without_a_way_on_are_reported(g: StateGraph, node: usize)
    requires
        node < g.states@.len(),
        forall|e: int| 0 <= e < g.edges@.len() ==> (#[trigger] g.edges@[e]).source != node,
        forall|i: int|
            0 <= i < g.states@[node as int].places@.len() ==> (
            #[trigger] g.states@[node as int].places@[i]).tokens == 0 || !contains_text(
                g.states@[node as int].places@[i].name@,
                "main_end"@,
            ),
    ensures
        deadlocks(g, g.states@.len()).contains(node),
{
    deadlocks_listed(g, g.states@.len());
    assert(!is_normal_exit(g.states@[node as int]));
    assert(is_stuck(g, node));
    assert(some_stuck(g));
}

/// Where some state is stuck, no state with a way on is reported, and none that
/// shows a token at the end of `main`.
pub proof fn states_with_a_way_on_are_not_reported(
    g: StateGraph,
    stuck: usize,
    node: usize,
    e: int,
    i: int,
)
    requires
        stuck < g.states@.len(),
        is_stuck(g, stuck),
        deadlocks(g, g.states@.len()).contains(node),
    ensures
        0 <= e < g.edges@.len() ==> g.edges@[e].source != node,
        0 <= i < g.states@[node as int].places@.len() && contains_text(
            g.states@[node as int].places@[i].name@,
            "main_end"@,
        ) ==> g.states@[node as int].places@[i].tokens == 0,
{
    deadlocks_listed(g, g.states@.len());
    assert(some_stuck(g));
    assert(is_stuck(g, node));
    assert(!is_normal_exit(g.states@[node as int]));
}

/// The locks that are answered for a cycle are those that can never be taken on
/// it. There is no answer where something leads out of the cycle, where no
/// wanted lock can be taken, or where the cycle has several states and every
/// wanted lock can be taken at one of them.
pub proof fn starved_locks_are_answered(g: StateGraph, cycle: Seq<usize>)
    ensures
        ({
            let leads_out = exists|e: int|
                0 <= e < g.edges@.len() && cycle.contains((#[trigger] g.edges@[e]).source)
                    && !cycle.contains(g.edges@[e].target);
            let all_starved = forall|l: usize| #[trigger]
                is_wanted(g, l) ==> is_starved(g, cycle, l);
            let none_starved = forall|l: usize| !#[trigger] is_starved(g, cycle, l);
            &&& consistently_blocked(g, cycle) is None <==> leads_out || all_starved || (
            cycle.len() > 1 && none_starved)
            &&& consistently_blocked(g, cycle) matches Some(b) ==> forall|l: usize| #[trigger]
                b.contains(l) <==> is_starved(g, cycle, l)
        }),
{
    let b = blocked_locks(g, cycle);
    assert forall|l: usize|
        #![trigger is_wanted(g, l)]
        #![trigger is_starved(g, cycle, l)]
        #![trigger b.contains(l)]
        #![trigger is_lock(g.edges@, l)]
        (is_wanted(g, l) <==> is_lock(g.edges@, l)) && (is_starved(g, cycle, l) <==> b.contains(
            l,
        )) by {
        starved_is_blocked(g, cycle, l);
    }
    if forall|l: usize| !#[trigger] is_starved(g, cycle, l) {
        assert forall|l: usize| !b.contains(l) by {
            assert(!is_starved(g, cycle, l));
        }
        assert(b =~= Set::<usize>::empty());
    }
    if b == Set::<usize>::empty() {
        assert forall|l: usize| !#[trigger] is_starved(g, cycle, l) by {
            assert(!b.contains(l));
        }
    }
    if forall|l: usize| #[trigger] is_wanted(g, l) ==> is_starved(g, cycle, l) {
        assert forall|l: usize| #[trigger] is_lock(g.edges@, l) implies b.contains(l) by {
            assert(is_wanted(g, l));
        }
        assert(all_blocked(g, cycle));
    }
    if all_blocked(g, cycle) {
        assert forall|l: usize| #[trigger] is_wanted(g, l) implies is_starved(g, cycle, l) by {
            assert(is_lock(g.edges@, l));
        }
    }
}

proof fn cycle_from_first(path: Seq<usize>, i: int)
    requires
        0 <= i < path.len(),
        forall|j: int| 0 <= j < i ==> #[trigger] path[j] != path[i],
    ensures
        cycle_from(path, path[i]) == path.skip(i),
    decreases path.len(),
{
    if i == 0 {
        assert(path.skip(0) =~= path);
    } else {
        let rest = path.drop_first();
        assert(path[0] != path[i]);
        assert(rest[i - 1] == path[i]);
        assert forall|j: int| 0 <= j < i - 1 implies #[trigger] rest[j] != rest[i - 1] by {
            assert(rest[j] == path[j + 1]);
        }
        cycle_from_first(rest, i - 1);
        assert(rest.skip(i - 1) =~= path.skip(i));
    }
}

/// The locks are those that can never be taken on the cycle.
pub open spec fn are_starved(g: StateGraph, locks: Set<usize>, cycle: Seq<usize>) -> bool {
    forall|l: usize| #[trigger] locks.contains(l) <==> is_starved(g, cycle, l)
}

/// Some group holds just the locks that can never be taken on the cycle.
pub open spec fn starvation_is_recorded(
    g: StateGraph,
    groups: Seq<(Set<usize>, usize)>,
    cycle: Seq<usize>,
) -> bool {
    exists|k: int| 0 <= k < groups.len() && are_starved(g, (#[trigger] groups[k]).0, cycle)
}

proof fn recorded_iff_group(g: StateGraph, groups: Seq<(Set<usize>, usize)>, cycle: Seq<usize>)
    ensures
        starvation_is_recorded(g, groups, cycle) <==> has_group(groups, blocked_locks(g, cycle)),
{
    let b = blocked_locks(g, cycle);
    assert forall|l: usize| #[trigger] b.contains(l) <==> is_starved(g, cycle, l) by {
        starved_is_blocked(g, cycle, l);
    }
    if has_group(groups, b) {
        let k = choose|k: int| 0 <= k < groups.len() && (#[trigger] groups[k]).0 == b;
        assert(are_starved(g, groups[k].0, cycle));
    }
    if starvation_is_recorded(g, groups, cycle) {
        let k = choose|k: int|
            0 <= k < groups.len() && are_starved(g, (#[trigger] groups[k]).0, cycle);
        assert forall|l: usize| #[trigger] groups[k].0.contains(l) <==> b.contains(l) by {
            assert(b.contains(l) <==> is_starved(g, cycle, l));
        }
        assert(groups[k].0 =~= b);
    }
}

/// A path that an edge closes to a cycle is recorded, whatever other edges its
/// states have: nothing leads out of the cycle, some wanted lock can never be
/// taken on it, and some other can.
pub proof fn closed_paths_are_recorded(
    g: StateGraph,
    path: Seq<usize>,
    i: int,
    groups: Seq<(Set<usize>, usize)>,
    starved: usize,
    other: usize,
)
    requires
        0 <= i < path.len(),
        forall|j: int| 0 <= j < i ==> #[trigger] path[j] != path[i],
        forall|e: int|
            0 <= e < g.edges@.len() && path.skip(i).contains((#[trigger] g.edges@[e]).source)
                ==> path.skip(i).contains(g.edges@[e].target),
        is_starved(g, path.skip(i), starved),
        is_wanted(g, other),
        !is_starved(g, path.skip(i), other),
    ensures
        starvation_is_recorded(g, groups_after(g, path, path[i], groups), path.skip(i)),
{
    let cycle = path.skip(i);
    let b = blocked_locks(g, cycle);
    let after = groups_after(g, path, path[i], groups);
    cycle_from_first(path, i);
    starved_is_blocked(g, cycle, starved);
    starved_is_blocked(g, cycle, other);
    assert(b.contains(starved));
    assert(stable(g, cycle));
    assert(!all_blocked(g, cycle)) by {
        assert(is_lock(g.edges@, other));
        assert(!b.contains(other));
    }
    assert(consistently_blocked(g, cycle) == Some(b));
    if has_group(groups, b) {
        groups_stay(g, path, path[i], groups);
    } else {
        assert(after == groups.push((b, cycle[0])));
        assert(after[groups.len() as int].0 == b);
    }
    recorded_iff_group(g, after, cycle);
}

/// Every edge that leads from the end of the search path back to a state on it
/// is followed, and what it closes is recorded and stays so.
pub proof fn edges_back_are_followed(
    g: StateGraph,
    path: Seq<usize>,
    along: Seq<(usize, usize)>,
    s: CycleSearch,
    k: int,
    i: int,
    starved: usize,
    other: usize,
)
    requires
        g.wf(),
        path_ok(g, path, s.visited),
        forall|n: int| 0 <= n < along.len() ==> (#[trigger] along[n]).0 < g.states@.len(),
        0 <= k < along.len(),
        0 <= i < path.len(),
        along[k].0 == path[i],
        forall|e: int|
            0 <= e < g.edges@.len() && path.skip(i).contains((#[trigger] g.edges@[e]).source)
                ==> path.skip(i).contains(g.edges@[e].target),
        is_starved(g, path.skip(i), starved),
        is_wanted(g, other),
        !is_starved(g, path.skip(i), other),
    ensures
        starvation_is_recorded(g, explored_edges(g, path, along, s).groups, path.skip(i)),
    decreases along.len(),
{
    let next = along[0].0;
    assert(in_range(g, along));
    rest_in_range(g, along);
    let t = if !s.visited[next as int] {
        explored(g, next, path, s)
    } else if path.contains(next) {
        CycleSearch { groups: groups_after(g, path, next, s.groups), ..s }
    } else {
        s
    };
    assert(goes_on(s, t)) by {
        if !s.visited[next as int] {
            explored_goes_on(g, next, path, s);
        } else if path.contains(next) {
            groups_stay(g, path, next, s.groups);
        }
    }
    path_stays_ok(g, path, s, t);
    let rest = along.drop_first();
    if k == 0 {
        assert(path.contains(path[i]));
        assert(s.visited[path[i] as int]);
        closed_paths_are_recorded(g, path, i, s.groups, starved, other);
        recorded_iff_group(g, t.groups, path.skip(i));
        explored_edges_go_on(g, path, rest, t);
        recorded_iff_group(g, explored_edges(g, path, rest, t).groups, path.skip(i));
    } else {
        assert(rest[k - 1] == along[k]);
        assert forall|n: int| 0 <= n < rest.len() implies (#[trigger] rest[n]).0
            < g.states@.len() by {
            assert(rest[n] == along[n + 1]);
        }
        edges_back_are_followed(g, path, rest, t, k - 1, i, starved, other);
    }
}

} // verus!

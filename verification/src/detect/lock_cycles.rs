//! Cyclic waits: cycles of states that nothing leads out of, on which some
//! locks can never be taken.

use super::shortest_path::distinct_below;
use crate::net::state_graph::{graph_edges, outgoing_sound, StateEdge, StateGraph};
use crate::net::structure::{TransitionId, TransitionType, TransitionTypeView};
use vstd::prelude::*;

verus! {

/// The lock that a transition takes.
pub open spec fn lock_of(transition_type: TransitionTypeView) -> Option<usize> {
    match transition_type {
        TransitionTypeView::Lock(lock) => Some(lock),
        TransitionTypeView::RwLockWrite(lock) => Some(lock),
        TransitionTypeView::RwLockRead(lock) => Some(lock),
        _ => None,
    }
}

/// The lock that a transition takes.
fn lock_id(transition_type: &TransitionType) -> (r: Option<usize>)
    ensures
        r == lock_of(transition_type@),
{
    match transition_type {
        TransitionType::Lock(lock) => Some(*lock),
        TransitionType::RwLockWrite(lock) => Some(*lock),
        TransitionType::RwLockRead(lock) => Some(*lock),
        _ => None,
    }
}

/// Some edge takes the lock by the transition.
pub open spec fn takes(edges: Seq<StateEdge>, lock: usize, transition: TransitionId) -> bool {
    exists|e: int|
        0 <= e < edges.len() && lock_of((#[trigger] edges[e]).transition_type@) == Some(lock)
            && edges[e].transition == transition
}

/// Some edge takes the lock.
pub open spec fn is_lock(edges: Seq<StateEdge>, lock: usize) -> bool {
    exists|e: int|
        0 <= e < edges.len() && lock_of((#[trigger] edges[e]).transition_type@) == Some(lock)
}

/// The numbers are in strictly ascending order.
pub open spec fn ascending(s: Seq<usize>) -> bool {
    forall|i: int, j: int| 0 <= i < j < s.len() ==> #[trigger] s[i] < #[trigger] s[j]
}

/// Puts a number in its place, unless it is there.
fn put_number(v: &mut Vec<usize>, x: usize)
    requires
        ascending(old(v)@),
    ensures
        ascending(final(v)@),
        forall|y: usize| #[trigger] final(v)@.contains(y) <==> y == x || old(v)@.contains(y),
{
    let ghost s = v@;
    let mut i: usize = 0;
    while i < v.len() && v[i] < x
        invariant
            i <= v@.len(),
            v@ == s,
            forall|j: int| 0 <= j < i ==> s[j] < x,
        decreases v@.len() - i,
    {
        i = i + 1;
    }
    if i < v.len() && v[i] == x {
        proof {
            assert(s.contains(s[i as int]));
        }
        return;
    }
    v.insert(i, x);
    proof {
        assert(v@ == s.insert(i as int, x));
        assert forall|a: int, b: int| 0 <= a < b < v@.len() implies #[trigger] v@[a]
            < #[trigger] v@[b] by {
            if a < i {
                assert(v@[a] == s[a]);
            } else if a > i {
                assert(v@[a] == s[a - 1]);
            }
            if b < i {
                assert(v@[b] == s[b]);
            } else if b > i {
                assert(v@[b] == s[b - 1]);
                if b - 1 > i {
                    assert(s[i as int] < s[b - 1]);
                }
            }
        }
        assert forall|y: usize| #[trigger] v@.contains(y) <==> y == x || s.contains(y) by {
            if v@.contains(y) {
                let k = choose|k: int| 0 <= k < v@.len() && v@[k] == y;
                if k < i {
                    assert(s[k] == y);
                } else if k > i {
                    assert(s[k - 1] == y);
                }
            }
            if s.contains(y) {
                let k = choose|k: int| 0 <= k < s.len() && s[k] == y;
                if k < i {
                    assert(v@[k] == y);
                } else {
                    assert(v@[k + 1] == y);
                }
            }
            assert(v@[i as int] == x);
        }
    }
}

/// The transitions by which a lock is taken.
#[derive(Debug)]
pub struct LockTransitions {
    pub lock: usize,
    pub transitions: Vec<TransitionId>,
}

/// The entry lists the transitions of its lock, each once, in ascending order.
pub open spec fn entry_ok(entry: LockTransitions, edges: Seq<StateEdge>) -> bool {
    &&& is_lock(edges, entry.lock)
    &&& ascending(entry.transitions@)
    &&& forall|t: TransitionId| #[trigger]
        entry.transitions@.contains(t) <==> takes(edges, entry.lock, t)
}

/// Every lock has one entry, in ascending order of the locks.
pub open spec fn table_ok(table: Seq<LockTransitions>, edges: Seq<StateEdge>) -> bool {
    &&& forall|i: int, j: int|
        0 <= i < j < table.len() ==> (#[trigger] table[i]).lock < (#[trigger] table[j]).lock
    &&& forall|i: int| 0 <= i < table.len() ==> entry_ok(#[trigger] table[i], edges)
    &&& forall|l: usize| #[trigger]
        is_lock(edges, l) ==> exists|i: int| 0 <= i < table.len() && (#[trigger] table[i]).lock == l
}

proof fn one_more_edge(edges: Seq<StateEdge>, n: int)
    requires
        0 <= n < edges.len(),
    ensures
        forall|l: usize| #[trigger]
            is_lock(edges.take(n + 1), l) <==> is_lock(edges.take(n), l) || lock_of(
                edges[n].transition_type@,
            ) == Some(l),
        forall|l: usize, t: TransitionId| #[trigger]
            takes(edges.take(n + 1), l, t) <==> takes(edges.take(n), l, t) || (lock_of(
                edges[n].transition_type@,
            ) == Some(l) && edges[n].transition == t),
{
    let a = edges.take(n);
    let b = edges.take(n + 1);
    assert(b[n] == edges[n]);
    assert forall|l: usize| #[trigger] is_lock(b, l) <==> is_lock(a, l) || lock_of(
        edges[n].transition_type@,
    ) == Some(l) by {
        if is_lock(a, l) {
            let e = choose|e: int|
                0 <= e < a.len() && lock_of((#[trigger] a[e]).transition_type@) == Some(l);
            assert(b[e] == a[e]);
        }
        if is_lock(b, l) {
            let e = choose|e: int|
                0 <= e < b.len() && lock_of((#[trigger] b[e]).transition_type@) == Some(l);
            if e < n {
                assert(a[e] == b[e]);
            }
        }
    }
    assert forall|l: usize, t: TransitionId| #[trigger] takes(b, l, t) <==> takes(a, l, t) || (
    lock_of(edges[n].transition_type@) == Some(l) && edges[n].transition == t) by {
        if takes(a, l, t) {
            let e = choose|e: int|
                0 <= e < a.len() && lock_of((#[trigger] a[e]).transition_type@) == Some(l)
                    && a[e].transition == t;
            assert(b[e] == a[e]);
        }
        if takes(b, l, t) {
            let e = choose|e: int|
                0 <= e < b.len() && lock_of((#[trigger] b[e]).transition_type@) == Some(l)
                    && b[e].transition == t;
            if e < n {
                assert(a[e] == b[e]);
            }
        }
    }
}

proof fn same_transitions(entry: LockTransitions, a: Seq<StateEdge>, b: Seq<StateEdge>)
    requires
        entry_ok(entry, a),
        is_lock(b, entry.lock),
        forall|t: TransitionId| #[trigger]
            takes(b, entry.lock, t) <==> takes(a, entry.lock, t),
    ensures
        entry_ok(entry, b),
{
    assert forall|t: TransitionId| #[trigger] entry.transitions@.contains(t) <==> takes(
        b,
        entry.lock,
        t,
    ) by {
        assert(takes(b, entry.lock, t) <==> takes(a, entry.lock, t));
    }
}

/// Adds one transition to the entry of its lock.
fn add_transition(
    table: &mut Vec<LockTransitions>,
    lock: usize,
    transition: TransitionId,
    Ghost(edges): Ghost<Seq<StateEdge>>,
    Ghost(n): Ghost<int>,
)
    requires
        0 <= n < edges.len(),
        lock_of(edges[n].transition_type@) == Some(lock),
        edges[n].transition == transition,
        table_ok(old(table)@, edges.take(n)),
    ensures
        table_ok(final(table)@, edges.take(n + 1)),
{
    let ghost a = edges.take(n);
    let ghost b = edges.take(n + 1);
    let ghost s = table@;
    let mut i: usize = 0;
    while i < table.len() && table[i].lock < lock
        invariant
            i <= table@.len(),
            table@ == s,
            forall|j: int| 0 <= j < i ==> (#[trigger] s[j]).lock < lock,
        decreases table@.len() - i,
    {
        i = i + 1;
    }
    proof {
        one_more_edge(edges, n);
    }
    if i < table.len() && table[i].lock == lock {
        let ghost entry = s[i as int];
        proof {
            assert(entry_ok(entry, a));
        }
        put_number(&mut table[i].transitions, transition);
        proof {
            let t = table@;
            assert(t[i as int].lock == lock);
            assert(entry_ok(t[i as int], b)) by {
                assert forall|x: TransitionId| #[trigger] t[i as int].transitions@.contains(
                    x,
                ) <==> takes(b, lock, x) by {
                    assert(entry.transitions@.contains(x) <==> takes(a, lock, x));
                    assert(takes(b, lock, x) <==> takes(a, lock, x) || x == transition);
                }
                assert(is_lock(b, lock));
            }
            assert forall|j: int| 0 <= j < t.len() implies entry_ok(#[trigger] t[j], b) by {
                if j != i {
                    assert(t[j] == s[j]);
                    assert(entry_ok(s[j], a));
                    assert(s[j].lock != lock) by {
                        if j < i {
                            assert(s[j].lock < s[i as int].lock);
                        } else {
                            assert(s[i as int].lock < s[j].lock);
                        }
                    }
                    same_transitions(s[j], a, b);
                }
            }
            assert forall|j: int, k: int| 0 <= j < k < t.len() implies (#[trigger] t[j]).lock < (
            #[trigger] t[k]).lock by {
                assert(t[j].lock == s[j].lock && t[k].lock == s[k].lock);
            }
            assert forall|l: usize| #[trigger] is_lock(b, l) implies exists|j: int|
                0 <= j < t.len() && (#[trigger] t[j]).lock == l by {
                if l == lock {
                    assert(t[i as int].lock == l);
                } else {
                    assert(is_lock(a, l));
                    let j = choose|j: int| 0 <= j < s.len() && (#[trigger] s[j]).lock == l;
                    assert(t[j].lock == l);
                }
            }
        }
        return;
    }
    let mut transitions: Vec<TransitionId> = Vec::new();
    transitions.push(transition);
    proof {
        assert(!is_lock(a, lock)) by {
            if is_lock(a, lock) {
                let j = choose|j: int| 0 <= j < s.len() && (#[trigger] s[j]).lock == lock;
                if j > i {
                    assert(s[i as int].lock < s[j].lock);
                }
            }
        }
    }
    let entry = LockTransitions { lock, transitions };
    table.insert(i, entry);
    proof {
        let t = table@;
        assert(t == s.insert(i as int, entry));
        assert(is_lock(b, lock));
        assert(entry_ok(entry, b)) by {
            assert forall|x: TransitionId| #[trigger] entry.transitions@.contains(x) <==> takes(
                b,
                lock,
                x,
            ) by {
                assert(entry.transitions@[0] == transition);
                if takes(a, lock, x) {
                    let e = choose|e: int|
                        0 <= e < a.len() && lock_of((#[trigger] a[e]).transition_type@) == Some(
                            lock,
                        ) && a[e].transition == x;
                    assert(is_lock(a, lock));
                }
                assert(takes(b, lock, x) <==> takes(a, lock, x) || x == transition);
            }
        }
        assert forall|j: int| 0 <= j < t.len() implies entry_ok(#[trigger] t[j], b) by {
            if j != i {
                let k = if j < i {
                    j
                } else {
                    j - 1
                };
                assert(t[j] == s[k]);
                assert(entry_ok(s[k], a));
                assert(is_lock(a, s[k].lock));
                same_transitions(s[k], a, b);
            }
        }
        assert forall|j: int, k: int| 0 <= j < k < t.len() implies (#[trigger] t[j]).lock < (
        #[trigger] t[k]).lock by {
            let x = if j < i {
                j
            } else {
                j - 1
            };
            let y = if k < i {
                k
            } else {
                k - 1
            };
            if j != i {
                assert(t[j] == s[x]);
            }
            if k != i {
                assert(t[k] == s[y]);
                if j == i && y > i {
                    assert(s[i as int].lock < s[y].lock);
                }
            }
        }
        assert forall|l: usize| #[trigger] is_lock(b, l) implies exists|j: int|
            0 <= j < t.len() && (#[trigger] t[j]).lock == l by {
            if l == lock {
                assert(t[i as int].lock == l);
            } else {
                assert(is_lock(a, l));
                let j = choose|j: int| 0 <= j < s.len() && (#[trigger] s[j]).lock == l;
                if j < i {
                    assert(t[j].lock == l);
                } else {
                    assert(t[j + 1].lock == l);
                }
            }
        }
    }
}

/// The transitions by which each lock is taken.
pub fn collect_lock_transitions(state_graph: &StateGraph) -> (table: Vec<LockTransitions>)
    ensures
        table_ok(table@, state_graph.edges@),
{
    let mut table: Vec<LockTransitions> = Vec::new();
    let ghost edges = state_graph.edges@;
    let mut i: usize = 0;
    while i < state_graph.edges.len()
        invariant
            i <= edges.len(),
            edges == state_graph.edges@,
            table_ok(table@, edges.take(i as int)),
        decreases edges.len() - i,
    {
        match lock_id(&state_graph.edges[i].transition_type) {
            Some(lock) => {
                add_transition(
                    &mut table,
                    lock,
                    state_graph.edges[i].transition,
                    Ghost(edges),
                    Ghost(i as int),
                );
            },
            None => {
                proof {
                    one_more_edge(edges, i as int);
                    assert forall|j: int| 0 <= j < table@.len() implies entry_ok(
                        #[trigger] table@[j],
                        edges.take(i + 1),
                    ) by {
                        assert(entry_ok(table@[j], edges.take(i as int)));
                        assert(is_lock(edges.take(i as int), table@[j].lock));
                        same_transitions(table@[j], edges.take(i as int), edges.take(i + 1));
                    }
                    assert forall|l: usize| #[trigger] is_lock(
                        edges.take(i + 1),
                        l,
                    ) implies exists|j: int|
                        0 <= j < table@.len() && (#[trigger] table@[j]).lock == l by {
                        assert(is_lock(edges.take(i as int), l));
                    }
                }
            },
        }
        i = i + 1;
    }
    proof {
        assert(edges.take(i as int) =~= edges);
    }
    table
}

/// No transition that takes the lock is enabled at the state.
pub open spec fn blocked_at(g: StateGraph, node: usize, lock: usize) -> bool {
    forall|t: TransitionId| #[trigger]
        takes(g.edges@, lock, t) ==> !g.states@[node as int].enabled@.contains(t)
}

/// The lock cannot be taken at any of the states.
pub open spec fn blocked_throughout(g: StateGraph, cycle: Seq<usize>, lock: usize) -> bool {
    forall|i: int| 0 <= i < cycle.len() ==> blocked_at(g, #[trigger] cycle[i], lock)
}

/// The locks that cannot be taken at any state of the cycle.
pub open spec fn blocked_locks(g: StateGraph, cycle: Seq<usize>) -> Set<usize> {
    Set::new(|l: usize| is_lock(g.edges@, l) && blocked_throughout(g, cycle, l))
}

/// No edge leads out of the cycle.
pub open spec fn stable(g: StateGraph, cycle: Seq<usize>) -> bool {
    forall|e: int|
        0 <= e < g.edges@.len() && cycle.contains((#[trigger] g.edges@[e]).source)
            ==> cycle.contains(g.edges@[e].target)
}

/// Every lock is blocked on the cycle.
pub open spec fn all_blocked(g: StateGraph, cycle: Seq<usize>) -> bool {
    forall|l: usize| #[trigger] is_lock(g.edges@, l) ==> blocked_locks(g, cycle).contains(l)
}

/// The locks that are blocked on a stable cycle where not every lock is. A
/// cycle of several states where none is blocked has no answer.
pub open spec fn consistently_blocked(g: StateGraph, cycle: Seq<usize>) -> Option<Set<usize>> {
    if (cycle.len() > 1 && blocked_locks(g, cycle) == Set::<usize>::empty()) || all_blocked(
        g,
        cycle,
    ) || !stable(g, cycle) {
        None
    } else {
        Some(blocked_locks(g, cycle))
    }
}

/// Whether a number is in the list.
pub fn has_number(v: &Vec<usize>, x: usize) -> (b: bool)
    ensures
        b == v@.contains(x),
{
    let mut i: usize = 0;
    while i < v.len()
        invariant
            i <= v@.len(),
            forall|j: int| 0 <= j < i ==> v@[j] != x,
        decreases v@.len() - i,
    {
        if v[i] == x {
            return true;
        }
        i = i + 1;
    }
    false
}

/// Whether a transition is enabled at a state.
fn is_transition_enabled(g: &StateGraph, state: usize, transition: TransitionId) -> (b: bool)
    requires
        state < g.states@.len(),
    ensures
        b == g.states@[state as int].enabled@.contains(transition),
{
    has_number(&g.states[state].enabled, transition)
}

/// Whether a lock cannot be taken at a state.
fn is_blocked(g: &StateGraph, node: usize, entry: &LockTransitions) -> (b: bool)
    requires
        node < g.states@.len(),
        entry_ok(*entry, g.edges@),
    ensures
        b == blocked_at(*g, node, entry.lock),
{
    let mut i: usize = 0;
    while i < entry.transitions.len()
        invariant
            i <= entry.transitions@.len(),
            node < g.states@.len(),
            entry_ok(*entry, g.edges@),
            forall|j: int|
                0 <= j < i ==> !g.states@[node as int].enabled@.contains(
                    #[trigger] entry.transitions@[j],
                ),
        decreases entry.transitions@.len() - i,
    {
        let t = entry.transitions[i];
        if is_transition_enabled(g, node, t) {
            proof {
                assert(entry.transitions@.contains(t));
                assert(takes(g.edges@, entry.lock, t));
            }
            return false;
        }
        i = i + 1;
    }
    proof {
        assert forall|t: TransitionId| #[trigger] takes(
            g.edges@,
            entry.lock,
            t,
        ) implies !g.states@[node as int].enabled@.contains(t) by {
            assert(entry.transitions@.contains(t));
            let j = choose|j: int|
                0 <= j < entry.transitions@.len() && entry.transitions@[j] == t;
            assert(!g.states@[node as int].enabled@.contains(entry.transitions@[j]));
        }
    }
    true
}

/// Whether no edge leads out of the cycle.
fn is_stable(g: &StateGraph, cycle: &Vec<usize>) -> (b: bool)
    requires
        g.wf(),
    ensures
        b == stable(*g, cycle@),
{
    let mut i: usize = 0;
    while i < cycle.len()
        invariant
            i <= cycle@.len(),
            g.wf(),
            forall|j: int, e: int|
                0 <= j < i && 0 <= e < g.edges@.len() && (#[trigger] g.edges@[e]).source
                    == #[trigger] cycle@[j] ==> cycle@.contains(g.edges@[e].target),
        decreases cycle@.len() - i,
    {
        let along = g.edges_of(cycle[i]);
        let mut k: usize = 0;
        while k < along.len()
            invariant
                k <= along@.len(),
                i < cycle@.len(),
                forall|m: int|
                    0 <= m < along@.len() ==> (#[trigger] along@[m]).1 < g.edges@.len()
                        && g.edges@[along@[m].1 as int].source == cycle@[i as int]
                        && g.edges@[along@[m].1 as int].target == along@[m].0,
                forall|m: int| 0 <= m < k ==> cycle@.contains((#[trigger] along@[m]).0),
            decreases along@.len() - k,
        {
            if !has_number(cycle, along[k].0) {
                proof {
                    let e = along@[k as int].1 as int;
                    assert(cycle@.contains(cycle@[i as int]));
                    assert(cycle@.contains(g.edges@[e].source));
                }
                return false;
            }
            k = k + 1;
        }
        proof {
            assert forall|e: int|
                0 <= e < g.edges@.len() && (#[trigger] g.edges@[e]).source
                    == cycle@[i as int] implies cycle@.contains(g.edges@[e].target) by {
                let x = (g.edges@[e].target, e as usize);
                assert(along@.contains(x));
                let m = choose|m: int| 0 <= m < along@.len() && along@[m] == x;
                assert(cycle@.contains(along@[m].0));
            }
        }
        i = i + 1;
    }
    proof {
        assert forall|e: int|
            0 <= e < g.edges@.len() && cycle@.contains(
                (#[trigger] g.edges@[e]).source,
            ) implies cycle@.contains(g.edges@[e].target) by {
            let j = choose|j: int| 0 <= j < cycle@.len() && cycle@[j] == g.edges@[e].source;
            assert(g.edges@[e].source == cycle@[j]);
        }
    }
    true
}

/// The positions are those of the entries whose locks are blocked on the cycle.
pub open spec fn kept_ok(
    kept: Seq<usize>,
    table: Seq<LockTransitions>,
    g: StateGraph,
    cycle: Seq<usize>,
) -> bool {
    &&& ascending(kept)
    &&& forall|j: int| 0 <= j < kept.len() ==> #[trigger] kept[j] < table.len()
    &&& forall|p: int|
        0 <= p < table.len() ==> (kept.contains(p as usize) <==> blocked_throughout(
            g,
            cycle,
            (#[trigger] table[p]).lock,
        ))
}

/// Keeps the entries whose locks are blocked at one more state.
fn keep_blocked(
    g: &StateGraph,
    table: &Vec<LockTransitions>,
    kept: &Vec<usize>,
    node: usize,
    Ghost(cycle): Ghost<Seq<usize>>,
) -> (r: Vec<usize>)
    requires
        node < g.states@.len(),
        table_ok(table@, g.edges@),
        kept_ok(kept@, table@, *g, cycle),
    ensures
        kept_ok(r@, table@, *g, cycle.push(node)),
{
    let count: usize = table.len();
    let mut r: Vec<usize> = Vec::new();
    let mut i: usize = 0;
    while i < kept.len()
        invariant
            i <= kept@.len(),
            node < g.states@.len(),
            table_ok(table@, g.edges@),
            kept_ok(kept@, table@, *g, cycle),
            ascending(r@),
            forall|j: int| 0 <= j < r@.len() ==> kept@.take(i as int).contains(#[trigger] r@[j]),
            forall|j: int|
                0 <= j < i ==> (r@.contains(#[trigger] kept@[j]) <==> blocked_at(
                    *g,
                    node,
                    table@[kept@[j] as int].lock,
                )),
        decreases kept@.len() - i,
    {
        let p = kept[i];
        let ghost before = r@;
        proof {
            assert(p < table@.len());
            assert(entry_ok(table@[p as int], g.edges@));
            assert forall|j: int| 0 <= j < before.len() implies #[trigger] before[j] < p by {
                let k = choose|k: int| 0 <= k < i && kept@.take(i as int)[k] == before[j];
                assert(kept@[k] < kept@[i as int]);
            }
            assert forall|j: int| 0 <= j < before.len() implies kept@.take(i + 1).contains(
                #[trigger] before[j],
            ) by {
                let k = choose|k: int| 0 <= k < i && kept@.take(i as int)[k] == before[j];
                assert(kept@.take(i + 1)[k] == before[j]);
            }
        }
        if is_blocked(g, node, &table[p]) {
            r.push(p);
            proof {
                assert(kept@.take(i + 1)[i as int] == p);
                assert(r@[before.len() as int] == p);
                assert forall|j: int| 0 <= j < i implies (r@.contains(#[trigger] kept@[j])
                    <==> blocked_at(*g, node, table@[kept@[j] as int].lock)) by {
                    assert(kept@[j] < kept@[i as int]);
                    if before.contains(kept@[j]) {
                        let k = choose|k: int| 0 <= k < before.len() && before[k] == kept@[j];
                        assert(r@[k] == kept@[j]);
                    }
                    if r@.contains(kept@[j]) {
                        let k = choose|k: int| 0 <= k < r@.len() && r@[k] == kept@[j];
                        assert(before[k] == kept@[j]);
                    }
                }
            }
        } else {
            proof {
                if before.contains(p) {
                    let k = choose|k: int| 0 <= k < before.len() && before[k] == p;
                    assert(before[k] < p);
                }
            }
        }
        i = i + 1;
    }
    proof {
        assert(kept@.take(i as int) =~= kept@);
        let more = cycle.push(node);
        assert forall|j: int| 0 <= j < r@.len() implies #[trigger] r@[j] < table@.len() by {
            let k = choose|k: int| 0 <= k < kept@.len() && kept@[k] == r@[j];
            assert(kept@[k] < table@.len());
        }
        assert forall|p: int| 0 <= p < table@.len() implies (r@.contains(p as usize)
            <==> blocked_throughout(*g, more, (#[trigger] table@[p]).lock)) by {
            let lock = table@[p].lock;
            assert(p < count);
            assert(kept@.contains(p as usize) <==> blocked_throughout(*g, cycle, lock));
            assert(blocked_throughout(*g, more, lock) <==> blocked_throughout(*g, cycle, lock)
                && blocked_at(*g, node, lock)) by {
                assert(more[cycle.len() as int] == node);
                if blocked_throughout(*g, more, lock) {
                    assert forall|m: int| 0 <= m < cycle.len() implies blocked_at(
                        *g,
                        #[trigger] cycle[m],
                        lock,
                    ) by {
                        assert(more[m] == cycle[m]);
                    }
                }
            }
            if r@.contains(p as usize) {
                let j = choose|j: int| 0 <= j < r@.len() && r@[j] == p;
                assert(kept@.contains(r@[j]));
                let k = choose|k: int| 0 <= k < kept@.len() && kept@[k] == p;
                assert(r@.contains(kept@[k]));
            }
            if blocked_throughout(*g, more, lock) {
                let k = choose|k: int| 0 <= k < kept@.len() && kept@[k] == p;
                assert(r@.contains(kept@[k]));
            }
        }
    }
    r
}

/// The locks that are blocked on a stable cycle where not every lock is, in
/// ascending order.
pub fn get_consistently_blocked_transitions(g: &StateGraph, cycle: &Vec<usize>) -> (r: Option<
    Vec<usize>,
>)
    requires
        g.wf(),
        0 < cycle@.len(),
        forall|i: int| 0 <= i < cycle@.len() ==> #[trigger] cycle@[i] < g.states@.len(),
    ensures
        match r {
            Some(v) => ascending(v@) && consistently_blocked(*g, cycle@) == Some(v@.to_set()),
            None => consistently_blocked(*g, cycle@) is None,
        },
{
    let table = collect_lock_transitions(g);
    let count: usize = table.len();
    let mut kept: Vec<usize> = Vec::new();
    let mut p: usize = 0;
    while p < table.len()
        invariant
            p <= table@.len(),
            kept@.len() == p,
            forall|j: int| 0 <= j < p ==> #[trigger] kept@[j] == j,
        decreases table@.len() - p,
    {
        kept.push(p);
        p = p + 1;
    }
    proof {
        assert forall|q: int| 0 <= q < table@.len() implies (kept@.contains(q as usize)
            <==> blocked_throughout(*g, cycle@.take(0), (#[trigger] table@[q]).lock)) by {
            assert(kept@[q] == q);
        }
        assert(kept_ok(kept@, table@, *g, cycle@.take(0)));
    }
    let mut i: usize = 0;
    while i < cycle.len()
        invariant
            g.wf(),
            i <= cycle@.len(),
            0 < cycle@.len(),
            forall|j: int| 0 <= j < cycle@.len() ==> #[trigger] cycle@[j] < g.states@.len(),
            count == table@.len(),
            table_ok(table@, g.edges@),
            kept_ok(kept@, table@, *g, cycle@.take(i as int)),
            i > 1 ==> kept@.len() > 0,
        decreases cycle@.len() - i,
    {
        let ghost front = cycle@.take(i as int);
        kept = keep_blocked(g, &table, &kept, cycle[i], Ghost(front));
        proof {
            assert(front.push(cycle@[i as int]) =~= cycle@.take(i + 1));
        }
        i = i + 1;
        if kept.len() == 0 && i > 1 {
            proof {
                nothing_kept(*g, cycle@, table@, kept@, i as int);
            }
            return None;
        }
    }
    proof {
        assert(cycle@.take(i as int) =~= cycle@);
    }
    let mut blocked: Vec<usize> = Vec::new();
    let mut k: usize = 0;
    while k < kept.len()
        invariant
            k <= kept@.len(),
            table_ok(table@, g.edges@),
            kept_ok(kept@, table@, *g, cycle@),
            blocked@.len() == k,
            forall|j: int| 0 <= j < k ==> #[trigger] blocked@[j] == table@[kept@[j] as int].lock,
        decreases kept@.len() - k,
    {
        proof {
            assert(kept@[k as int] < table@.len());
        }
        blocked.push(table[kept[k]].lock);
        k = k + 1;
    }
    proof {
        blocked_are_the_locks(*g, cycle@, table@, kept@, blocked@);
    }
    let stays = is_stable(g, cycle);
    let mut all = true;
    let mut q: usize = 0;
    while q < table.len()
        invariant
            q <= table@.len(),
            all == forall|j: int| 0 <= j < q ==> blocked@.contains((#[trigger] table@[j]).lock),
        decreases table@.len() - q,
    {
        if !has_number(&blocked, table[q].lock) {
            all = false;
        }
        q = q + 1;
    }
    proof {
        let set = blocked@.to_set();
        assert(all == all_blocked(*g, cycle@)) by {
            if all {
                assert forall|l: usize| #[trigger] is_lock(g.edges@, l) implies blocked_locks(
                    *g,
                    cycle@,
                ).contains(l) by {
                    let j = choose|j: int| 0 <= j < table@.len() && (#[trigger] table@[j]).lock == l;
                    assert(blocked@.contains(table@[j].lock));
                    assert(set.contains(l));
                }
            } else {
                let j = choose|j: int|
                    0 <= j < table@.len() && !blocked@.contains((#[trigger] table@[j]).lock);
                assert(entry_ok(table@[j], g.edges@));
                assert(is_lock(g.edges@, table@[j].lock));
                assert(!set.contains(table@[j].lock));
            }
        }
        if cycle@.len() > 1 {
            assert(kept@.len() > 0);
            assert(set.contains(blocked@[0]));
        }
    }
    if all || !stays {
        None
    } else {
        Some(blocked)
    }
}

/// Where no entry is kept, no lock is blocked on the whole cycle.
proof fn nothing_kept(
    g: StateGraph,
    cycle: Seq<usize>,
    table: Seq<LockTransitions>,
    kept: Seq<usize>,
    n: int,
)
    requires
        table_ok(table, g.edges@),
        0 <= n <= cycle.len(),
        kept_ok(kept, table, g, cycle.take(n)),
        kept.len() == 0,
    ensures
        blocked_locks(g, cycle) == Set::<usize>::empty(),
{
    assert forall|l: usize| !blocked_locks(g, cycle).contains(l) by {
        if blocked_locks(g, cycle).contains(l) {
            let p = choose|p: int| 0 <= p < table.len() && (#[trigger] table[p]).lock == l;
            assert forall|i: int| 0 <= i < n implies blocked_at(
                g,
                #[trigger] cycle.take(n)[i],
                table[p].lock,
            ) by {
                assert(cycle.take(n)[i] == cycle[i]);
            }
            assert(kept.contains(p as usize));
        }
    }
    assert(blocked_locks(g, cycle) =~= Set::<usize>::empty());
}

/// The locks of the kept entries are the blocked ones.
proof fn blocked_are_the_locks(
    g: StateGraph,
    cycle: Seq<usize>,
    table: Seq<LockTransitions>,
    kept: Seq<usize>,
    blocked: Seq<usize>,
)
    requires
        table_ok(table, g.edges@),
        table.len() <= usize::MAX,
        kept_ok(kept, table, g, cycle),
        blocked.len() == kept.len(),
        forall|j: int| 0 <= j < kept.len() ==> #[trigger] blocked[j] == table[kept[j] as int].lock,
    ensures
        ascending(blocked),
        blocked.to_set() == blocked_locks(g, cycle),
{
    assert forall|i: int, j: int| 0 <= i < j < blocked.len() implies #[trigger] blocked[i]
        < #[trigger] blocked[j] by {
        assert(kept[i] < kept[j]);
        assert(kept[j] < table.len());
        assert(table[kept[i] as int].lock < table[kept[j] as int].lock);
    }
    assert forall|l: usize| #[trigger] blocked.to_set().contains(l) <==> blocked_locks(
        g,
        cycle,
    ).contains(l) by {
        if blocked.contains(l) {
            let j = choose|j: int| 0 <= j < blocked.len() && blocked[j] == l;
            let p = kept[j] as int;
            assert(kept[j] < table.len());
            assert(kept.contains(p as usize));
            assert(entry_ok(table[p], g.edges@));
        }
        if blocked_locks(g, cycle).contains(l) {
            let p = choose|p: int| 0 <= p < table.len() && (#[trigger] table[p]).lock == l;
            assert(kept.contains(p as usize));
            let j = choose|j: int| 0 <= j < kept.len() && kept[j] == p;
            assert(blocked[j] == l);
        }
    }
    assert(blocked.to_set() =~= blocked_locks(g, cycle));
}

/// How far the search for cycles has come: which states it has met, and for
/// each set of blocked locks a state of the first cycle that showed it.
#[verifier::ext_equal]
pub struct CycleSearch {
    pub visited: Seq<bool>,
    pub groups: Seq<(Set<usize>, usize)>,
}

/// The groups with one more cycle: it counts where no earlier one has the same
/// blocked locks.
pub open spec fn with_group(
    groups: Seq<(Set<usize>, usize)>,
    blocked: Set<usize>,
    state: usize,
) -> Seq<(Set<usize>, usize)> {
    if has_group(groups, blocked) {
        groups
    } else {
        groups.push((blocked, state))
    }
}

/// A cycle with these blocked locks was found.
pub open spec fn has_group(groups: Seq<(Set<usize>, usize)>, blocked: Set<usize>) -> bool {
    exists|i: int| 0 <= i < groups.len() && (#[trigger] groups[i]).0 == blocked
}

/// The part of the path from its first state `node` on.
pub open spec fn cycle_from(path: Seq<usize>, node: usize) -> Seq<usize>
    decreases path.len(),
{
    if path.len() == 0 || path[0] == node {
        path
    } else {
        cycle_from(path.drop_first(), node)
    }
}

/// The groups once an edge leads back to the state `node` of the path.
pub open spec fn groups_after(
    g: StateGraph,
    path: Seq<usize>,
    node: usize,
    groups: Seq<(Set<usize>, usize)>,
) -> Seq<(Set<usize>, usize)> {
    let cycle = cycle_from(path, node);
    match consistently_blocked(g, cycle) {
        Some(blocked) if blocked != Set::<usize>::empty() => with_group(groups, blocked, cycle[0]),
        _ => groups,
    }
}

/// The search after it has gone from the end of the path to `node`.
pub open spec fn explored(
    g: StateGraph,
    node: usize,
    path: Seq<usize>,
    s: CycleSearch,
) -> CycleSearch
    decreases g.states@.len() - path.len(), 0nat,
{
    if path.len() >= g.states@.len() {
        s
    } else {
        explored_edges(
            g,
            path.push(node),
            g.outgoing_edges(node),
            CycleSearch { visited: s.visited.update(node as int, true), ..s },
        )
    }
}

/// The search after it has followed the edges from the end of the path: a new
/// state is explored, and an edge back to the path closes a cycle.
pub open spec fn explored_edges(
    g: StateGraph,
    path: Seq<usize>,
    along: Seq<(usize, usize)>,
    s: CycleSearch,
) -> CycleSearch
    decreases g.states@.len() - path.len(), along.len(),
{
    if along.len() == 0 {
        s
    } else {
        let next = along[0].0;
        let t = if !s.visited[next as int] {
            explored(g, next, path, s)
        } else if path.contains(next) {
            CycleSearch { groups: groups_after(g, path, next, s.groups), ..s }
        } else {
            s
        };
        explored_edges(g, path, along.drop_first(), t)
    }
}

/// The search after the first `n` states have been taken as starts.
pub open spec fn searched(g: StateGraph, n: nat) -> CycleSearch
    decreases n,
{
    if n == 0 {
        CycleSearch {
            visited: Seq::new(g.states@.len(), |i: int| false),
            groups: Seq::empty(),
        }
    } else {
        let s = searched(g, (n - 1) as nat);
        if s.visited[n - 1] {
            s
        } else {
            explored(g, (n - 1) as usize, Seq::empty(), s)
        }
    }
}

/// One state for each set of locks that some stable cycle keeps blocked.
pub open spec fn cycle_deadlocks(g: StateGraph) -> Set<usize> {
    let groups = searched(g, g.states@.len()).groups;
    Set::new(|x: usize| exists|i: int| 0 <= i < groups.len() && (#[trigger] groups[i]).1 == x)
}

/// A set of locks, and a state of the first cycle that keeps them blocked.
#[derive(Debug)]
pub struct CycleGroup {
    pub blocked: Vec<usize>,
    pub state: usize,
}

/// The groups with their locks as sets.
pub open spec fn group_views(groups: Seq<CycleGroup>) -> Seq<(Set<usize>, usize)> {
    groups.map_values(|x: CycleGroup| (x.blocked@.to_set(), x.state))
}

/// The locks of every group are listed in ascending order.
pub open spec fn groups_ok(groups: Seq<CycleGroup>) -> bool {
    forall|i: int| 0 <= i < groups.len() ==> ascending((#[trigger] groups[i]).blocked@)
}

/// Ascending lists of the same numbers are the same.
proof fn ascending_same(a: Seq<usize>, b: Seq<usize>)
    requires
        ascending(a),
        ascending(b),
        a.to_set() == b.to_set(),
    ensures
        a == b,
    decreases a.len(),
{
    if a.len() == 0 {
        if b.len() > 0 {
            assert(b.to_set().contains(b[0]));
            assert(a.contains(b[0]));
        }
        assert(a =~= b);
    } else {
        let x = a.last();
        assert(a[a.len() - 1] == x);
        assert(a.to_set().contains(x));
        assert(b.contains(x));
        let j = choose|j: int| 0 <= j < b.len() && b[j] == x;
        let y = b.last();
        assert(b[b.len() - 1] == y);
        assert(b.to_set().contains(y));
        assert(a.contains(y));
        let i = choose|i: int| 0 <= i < a.len() && a[i] == y;
        if i < a.len() - 1 {
            assert(a[i] < a[a.len() - 1]);
        }
        if j < b.len() - 1 {
            assert(b[j] < b[b.len() - 1]);
        }
        assert(x == y);
        let c = a.drop_last();
        let d = b.drop_last();
        assert forall|z: usize| #[trigger] c.to_set().contains(z) <==> d.to_set().contains(z) by {
            if c.contains(z) {
                let k = choose|k: int| 0 <= k < c.len() && c[k] == z;
                assert(a[k] < a[a.len() - 1]);
                assert(a.to_set().contains(a[k]));
                assert(b.contains(z));
                let m = choose|m: int| 0 <= m < b.len() && b[m] == z;
                assert(d[m] == z);
            }
            if d.contains(z) {
                let k = choose|k: int| 0 <= k < d.len() && d[k] == z;
                assert(b[k] < b[b.len() - 1]);
                assert(b.to_set().contains(b[k]));
                assert(a.contains(z));
                let m = choose|m: int| 0 <= m < a.len() && a[m] == z;
                assert(c[m] == z);
            }
        }
        assert(c.to_set() =~= d.to_set());
        ascending_same(c, d);
        assert(a =~= c.push(x));
        assert(b =~= d.push(y));
    }
}

/// Whether two lists are the same.
fn same_numbers(a: &Vec<usize>, b: &Vec<usize>) -> (r: bool)
    ensures
        r == (a@ == b@),
{
    if a.len() != b.len() {
        return false;
    }
    let mut i: usize = 0;
    while i < a.len()
        invariant
            i <= a@.len(),
            a@.len() == b@.len(),
            forall|j: int| 0 <= j < i ==> a@[j] == b@[j],
        decreases a@.len() - i,
    {
        if a[i] != b[i] {
            return false;
        }
        i = i + 1;
    }
    proof {
        assert(a@ =~= b@);
    }
    true
}

/// Records a cycle, unless one with the same blocked locks is there.
fn record_group(groups: &mut Vec<CycleGroup>, blocked: Vec<usize>, state: usize)
    requires
        ascending(blocked@),
        groups_ok(old(groups)@),
    ensures
        groups_ok(final(groups)@),
        group_views(final(groups)@) == with_group(
            group_views(old(groups)@),
            blocked@.to_set(),
            state,
        ),
{
    let ghost views = group_views(groups@);
    let mut i: usize = 0;
    while i < groups.len()
        invariant
            i <= groups@.len(),
            groups@ == old(groups)@,
            views == group_views(groups@),
            groups_ok(groups@),
            ascending(blocked@),
            forall|j: int| 0 <= j < i ==> (#[trigger] views[j]).0 != blocked@.to_set(),
        decreases groups@.len() - i,
    {
        if same_numbers(&groups[i].blocked, &blocked) {
            proof {
                assert(views[i as int].0 == blocked@.to_set());
            }
            return;
        }
        proof {
            if views[i as int].0 == blocked@.to_set() {
                ascending_same(groups@[i as int].blocked@, blocked@);
            }
        }
        i = i + 1;
    }
    let ghost before = groups@;
    let entry = CycleGroup { blocked, state };
    groups.push(entry);
    proof {
        assert(group_views(groups@) =~= views.push((entry.blocked@.to_set(), state)));
        assert forall|j: int| 0 <= j < groups@.len() implies ascending(
            (#[trigger] groups@[j]).blocked@,
        ) by {
            if j < before.len() {
                assert(groups@[j] == before[j]);
            }
        }
    }
}

/// The part of the path from its first state `node` on.
fn path_from(path: &Vec<usize>, node: usize) -> (r: Vec<usize>)
    ensures
        r@ == cycle_from(path@, node),
{
    let mut i: usize = 0;
    proof {
        assert(path@.skip(0) =~= path@);
    }
    while i < path.len() && path[i] != node
        invariant
            i <= path@.len(),
            cycle_from(path@, node) == cycle_from(path@.skip(i as int), node),
        decreases path@.len() - i,
    {
        proof {
            assert(path@.skip(i as int)[0] == path@[i as int]);
            assert(path@.skip(i as int).drop_first() =~= path@.skip(i + 1));
        }
        i = i + 1;
    }
    let mut r: Vec<usize> = Vec::new();
    let mut k: usize = i;
    while k < path.len()
        invariant
            i <= k <= path@.len(),
            r@ == path@.subrange(i as int, k as int),
        decreases path@.len() - k,
    {
        r.push(path[k]);
        k = k + 1;
        proof {
            assert(r@ =~= path@.subrange(i as int, k as int));
        }
    }
    proof {
        assert(r@ =~= path@.skip(i as int));
        if i < path@.len() {
            assert(path@.skip(i as int)[0] == path@[i as int]);
        }
    }
    r
}

proof fn cycle_from_states(path: Seq<usize>, node: usize)
    requires
        path.contains(node),
    ensures
        cycle_from(path, node).len() > 0,
        cycle_from(path, node)[0] == node,
        cycle_from(path, node).len() <= path.len(),
        cycle_from(path, node) == path.skip(path.len() - cycle_from(path, node).len()),
    decreases path.len(),
{
    let i = choose|i: int| 0 <= i < path.len() && path[i] == node;
    if path[0] == node {
        assert(path.skip(0) =~= path);
    } else {
        let rest = path.drop_first();
        assert(rest[i - 1] == node);
        cycle_from_states(rest, node);
        let c = cycle_from(rest, node);
        assert(rest.skip(rest.len() - c.len()) =~= path.skip(path.len() - c.len()));
    }
}

/// The path is made of different states of the graph that have been met.
pub open spec fn path_ok(g: StateGraph, path: Seq<usize>, visited: Seq<bool>) -> bool {
    &&& visited.len() == g.states@.len()
    &&& path.no_duplicates()
    &&& forall|i: int| 0 <= i < path.len() ==> #[trigger] path[i] < g.states@.len()
    &&& forall|i: int| 0 <= i < path.len() ==> visited[#[trigger] path[i] as int]
}

/// Follows the edges from the end of the path to `current` and on.
fn find_deadlock_cycles(
    g: &StateGraph,
    current: usize,
    visited: &mut Vec<bool>,
    groups: &mut Vec<CycleGroup>,
    path: &mut Vec<usize>,
)
    requires
        g.wf(),
        current < g.states@.len(),
        path_ok(*g, old(path)@, old(visited)@),
        !old(visited)@[current as int],
        groups_ok(old(groups)@),
    ensures
        final(path)@ == old(path)@,
        final(visited)@.len() == old(visited)@.len(),
        forall|i: int|
            0 <= i < old(visited)@.len() && #[trigger] old(visited)@[i] ==> final(visited)@[i],
        groups_ok(final(groups)@),
        explored(
            *g,
            current,
            old(path)@,
            CycleSearch { visited: old(visited)@, groups: group_views(old(groups)@) },
        ) == (CycleSearch { visited: final(visited)@, groups: group_views(final(groups)@) }),
    decreases g.states@.len() - old(path)@.len(),
{
    let ghost p0 = path@;
    let ghost s0 = CycleSearch { visited: visited@, groups: group_views(groups@) };
    proof {
        let longer = p0.push(current);
        assert forall|a: int, b: int|
            0 <= a < longer.len() && 0 <= b < longer.len() && a != b implies longer[a]
            != longer[b] by {
            if a < p0.len() && b < p0.len() {
                assert(p0[a] != p0[b]);
            } else if a < p0.len() {
                assert(visited@[p0[a] as int]);
            } else {
                assert(visited@[p0[b] as int]);
            }
        }
        assert forall|i: int| 0 <= i < longer.len() implies #[trigger] longer[i]
            < g.states@.len() by {
            if i < p0.len() {
                assert(p0[i] < g.states@.len());
            }
        }
        distinct_below(longer, g.states@.len());
    }
    visited.set(current, true);
    path.push(current);
    let ghost longer = path@;
    let along = g.edges_of(current);
    let ghost s1 = CycleSearch { visited: visited@, groups: group_views(groups@) };
    proof {
        assert(s1.visited =~= s0.visited.update(current as int, true));
        assert(along@.skip(0) =~= along@);
        assert forall|i: int| 0 <= i < longer.len() implies visited@[#[trigger] longer[i] as int] by {
            if i < p0.len() {
                assert(s0.visited[p0[i] as int]);
            }
        }
    }
    let mut k: usize = 0;
    while k < along.len()
        invariant
            g.wf(),
            k <= along@.len(),
            path@ == longer,
            longer == p0.push(current),
            p0.len() < g.states@.len(),
            p0 == old(path)@,
            path_ok(*g, path@, visited@),
            groups_ok(groups@),
            s0.visited.len() == visited@.len(),
            forall|i: int|
                0 <= i < s0.visited.len() && #[trigger] s0.visited[i] ==> visited@[i],
            forall|m: int|
                0 <= m < along@.len() ==> (#[trigger] along@[m]).1 < g.edges@.len()
                    && g.edges@[along@[m].1 as int].target == along@[m].0,
            explored_edges(*g, longer, along@, s1) == explored_edges(
                *g,
                longer,
                along@.skip(k as int),
                CycleSearch { visited: visited@, groups: group_views(groups@) },
            ),
        decreases along@.len() - k,
    {
        let next = along[k].0;
        proof {
            assert(g.edges@[along@[k as int].1 as int].target == next);
            assert(next < g.states@.len());
            assert(along@.skip(k as int)[0] == along@[k as int]);
            assert(along@.skip(k as int).drop_first() =~= along@.skip(k + 1));
        }
        if !visited[next] {
            find_deadlock_cycles(g, next, visited, groups, path);
        } else if has_number(path, next) {
            let cycle = path_from(path, next);
            proof {
                cycle_from_states(longer, next);
                assert forall|i: int| 0 <= i < cycle@.len() implies #[trigger] cycle@[i]
                    < g.states@.len() by {
                    assert(cycle@[i] == longer[longer.len() - cycle@.len() + i]);
                }
            }
            match get_consistently_blocked_transitions(g, &cycle) {
                Some(blocked) => {
                    if blocked.len() > 0 {
                        proof {
                            assert(blocked@.to_set().contains(blocked@[0]));
                        }
                        record_group(groups, blocked, cycle[0]);
                    } else {
                        proof {
                            assert(blocked@.to_set() =~= Set::<usize>::empty());
                        }
                    }
                },
                None => {},
            }
        }
        k = k + 1;
    }
    path.pop();
    proof {
        assert(path@ =~= p0);
        assert(along@.skip(k as int).len() == 0);
    }
}

/// One state for each set of locks that some stable cycle keeps blocked.
pub fn detect_cycle_deadlocks(g: &StateGraph) -> (r: Vec<usize>)
    requires
        g.wf(),
    ensures
        r@.to_set() == cycle_deadlocks(*g),
{
    let n: usize = g.node_count();
    let mut visited: Vec<bool> = Vec::new();
    let mut i: usize = 0;
    while i < n
        invariant
            i <= n,
            visited@.len() == i,
            forall|x: int| 0 <= x < i ==> !(#[trigger] visited@[x]),
        decreases n - i,
    {
        visited.push(false);
        i = i + 1;
    }
    let mut groups: Vec<CycleGroup> = Vec::new();
    let mut path: Vec<usize> = Vec::new();
    proof {
        assert(visited@ =~= searched(*g, 0).visited);
        assert(group_views(groups@) =~= searched(*g, 0).groups);
    }
    let mut start: usize = 0;
    while start < n
        invariant
            g.wf(),
            n == g.states@.len(),
            start <= n,
            path@.len() == 0,
            visited@.len() == n,
            groups_ok(groups@),
            searched(*g, start as nat) == (CycleSearch {
                visited: visited@,
                groups: group_views(groups@),
            }),
        decreases n - start,
    {
        proof {
            assert(path@ =~= Seq::<usize>::empty());
        }
        if !visited[start] {
            find_deadlock_cycles(g, start, &mut visited, &mut groups, &mut path);
        }
        start = start + 1;
    }
    let mut r: Vec<usize> = Vec::new();
    let mut k: usize = 0;
    while k < groups.len()
        invariant
            k <= groups@.len(),
            r@.len() == k,
            forall|j: int| 0 <= j < k ==> #[trigger] r@[j] == groups@[j].state,
        decreases groups@.len() - k,
    {
        r.push(groups[k].state);
        k = k + 1;
    }
    proof {
        let views = group_views(groups@);
        assert forall|x: usize| #[trigger] r@.to_set().contains(x) <==> cycle_deadlocks(
            *g,
        ).contains(x) by {
            if r@.contains(x) {
                let j = choose|j: int| 0 <= j < r@.len() && r@[j] == x;
                assert(views[j].1 == x);
            }
            if cycle_deadlocks(*g).contains(x) {
                let j = choose|j: int| 0 <= j < views.len() && (#[trigger] views[j]).1 == x;
                assert(r@[j] == x);
            }
        }
        assert(r@.to_set() =~= cycle_deadlocks(*g));
    }
    r
}

/// Some edge leads from one state to the other.
pub open spec fn joined(g: StateGraph, a: usize, b: usize) -> bool {
    exists|e: int|
        0 <= e < g.edges@.len() && (#[trigger] g.edges@[e]).source == a && g.edges@[e].target == b
}

/// Each state of the path leads to the next.
pub open spec fn chained(g: StateGraph, path: Seq<usize>) -> bool {
    forall|i: int| 0 < i < path.len() ==> joined(g, path[i - 1], #[trigger] path[i])
}

/// Each state of the cycle leads to the next, and the last to the first.
pub open spec fn is_cycle(g: StateGraph, cycle: Seq<usize>) -> bool {
    cycle.len() > 0 && chained(g, cycle) && joined(g, cycle.last(), cycle[0])
}

/// A cycle that nothing leads out of and on which some locks, but not all, can
/// never be taken.
pub open spec fn waits_forever(g: StateGraph, cycle: Seq<usize>) -> bool {
    &&& is_cycle(g, cycle)
    &&& stable(g, cycle)
    &&& blocked_locks(g, cycle) != Set::<usize>::empty()
    &&& !all_blocked(g, cycle)
}

/// The group has its state and its locks from such a cycle.
pub open spec fn group_shown(g: StateGraph, group: (Set<usize>, usize), cycle: Seq<usize>) -> bool {
    waits_forever(g, cycle) && cycle.contains(group.1) && blocked_locks(g, cycle) == group.0
}

/// Some cycle shows the group.
pub open spec fn group_real(g: StateGraph, group: (Set<usize>, usize)) -> bool {
    exists|cycle: Seq<usize>| group_shown(g, group, cycle)
}

/// Every group is shown by some cycle, and no two have the same locks.
pub open spec fn groups_sound(g: StateGraph, groups: Seq<(Set<usize>, usize)>) -> bool {
    &&& forall|i: int| 0 <= i < groups.len() ==> group_real(g, #[trigger] groups[i])
    &&& forall|i: int, j: int|
        0 <= i < j < groups.len() ==> (#[trigger] groups[i]).0 != (#[trigger] groups[j]).0
}

proof fn groups_after_sound(
    g: StateGraph,
    path: Seq<usize>,
    node: usize,
    groups: Seq<(Set<usize>, usize)>,
)
    requires
        groups_sound(g, groups),
        chained(g, path),
        path.contains(node),
        joined(g, path.last(), node),
    ensures
        groups_sound(g, groups_after(g, path, node, groups)),
{
    let cycle = cycle_from(path, node);
    cycle_from_states(path, node);
    let d = path.len() - cycle.len();
    match consistently_blocked(g, cycle) {
        Some(blocked) => {
            if blocked != Set::<usize>::empty() && !has_group(groups, blocked) {
                assert(is_cycle(g, cycle)) by {
                    assert forall|i: int| 0 < i < cycle.len() implies joined(
                        g,
                        cycle[i - 1],
                        #[trigger] cycle[i],
                    ) by {
                        assert(cycle[i] == path[d + i] && cycle[i - 1] == path[d + i - 1]);
                    }
                    assert(cycle.last() == path.last());
                }
                let x = (blocked, cycle[0]);
                assert(cycle.contains(cycle[0]));
                assert(group_shown(g, x, cycle));
                let after = groups.push(x);
                assert forall|i: int| 0 <= i < after.len() implies group_real(
                    g,
                    #[trigger] after[i],
                ) by {
                    if i < groups.len() {
                        assert(after[i] == groups[i]);
                    }
                }
                assert forall|i: int, j: int| 0 <= i < j < after.len() implies (
                #[trigger] after[i]).0 != (#[trigger] after[j]).0 by {
                    assert(after[i] == groups[i]);
                    if j < groups.len() {
                        assert(after[j] == groups[j]);
                    }
                }
                assert(groups_after(g, path, node, groups) == after);
            }
        },
        None => {},
    }
}

proof fn explored_sound(g: StateGraph, node: usize, path: Seq<usize>, s: CycleSearch)
    requires
        g.wf(),
        groups_sound(g, s.groups),
        chained(g, path),
        path.len() > 0 ==> joined(g, path.last(), node),
    ensures
        groups_sound(g, explored(g, node, path, s).groups),
    decreases g.states@.len() - path.len(), 0nat,
{
    if path.len() < g.states@.len() {
        let longer = path.push(node);
        let along = g.outgoing_edges(node);
        assert forall|i: int| 0 < i < longer.len() implies joined(
            g,
            longer[i - 1],
            #[trigger] longer[i],
        ) by {
            if i < path.len() {
                assert(longer[i] == path[i]);
            }
        }
        assert forall|k: int| 0 <= k < along.len() implies joined(
            g,
            node,
            (#[trigger] along[k]).0,
        ) by {
            let e = outgoing_sound(graph_edges(g.graph), node, k);
            assert(graph_edges(g.graph)[e].0 == g.edges@[e].source);
            assert(graph_edges(g.graph)[e].1 == g.edges@[e].target);
        }
        explored_edges_sound(
            g,
            longer,
            along,
            CycleSearch { visited: s.visited.update(node as int, true), ..s },
        );
    }
}

proof fn explored_edges_sound(
    g: StateGraph,
    path: Seq<usize>,
    along: Seq<(usize, usize)>,
    s: CycleSearch,
)
    requires
        g.wf(),
        groups_sound(g, s.groups),
        chained(g, path),
        path.len() > 0,
        forall|k: int| 0 <= k < along.len() ==> joined(g, path.last(), (#[trigger] along[k]).0),
    ensures
        groups_sound(g, explored_edges(g, path, along, s).groups),
    decreases g.states@.len() - path.len(), along.len(),
{
    if along.len() > 0 {
        let next = along[0].0;
        let t = if !s.visited[next as int] {
            explored(g, next, path, s)
        } else if path.contains(next) {
            CycleSearch { groups: groups_after(g, path, next, s.groups), ..s }
        } else {
            s
        };
        if !s.visited[next as int] {
            explored_sound(g, next, path, s);
        } else if path.contains(next) {
            groups_after_sound(g, path, next, s.groups);
        }
        let rest = along.drop_first();
        assert forall|k: int| 0 <= k < rest.len() implies joined(
            g,
            path.last(),
            (#[trigger] rest[k]).0,
        ) by {
            assert(rest[k] == along[k + 1]);
        }
        explored_edges_sound(g, path, rest, t);
    }
}

proof fn searched_sound(g: StateGraph, n: nat)
    requires
        g.wf(),
    ensures
        groups_sound(g, searched(g, n).groups),
    decreases n,
{
    if n > 0 {
        searched_sound(g, (n - 1) as nat);
        let s = searched(g, (n - 1) as nat);
        if !s.visited[n - 1] {
            explored_sound(g, (n - 1) as usize, Seq::empty(), s);
        }
    }
}

/// The state and the locks of every group are those of a cycle that nothing
/// leads out of and on which these locks, but not all, can never be taken.
pub proof fn groups_are_real(g: StateGraph, i: int) -> (cycle: Seq<usize>)
    requires
        g.wf(),
        0 <= i < searched(g, g.states@.len()).groups.len(),
    ensures
        waits_forever(g, cycle),
        cycle.contains(searched(g, g.states@.len()).groups[i].1),
        blocked_locks(g, cycle) == searched(g, g.states@.len()).groups[i].0,
{
    searched_sound(g, g.states@.len());
    let groups = searched(g, g.states@.len()).groups;
    assert(group_real(g, groups[i]));
    choose|cycle: Seq<usize>| group_shown(g, groups[i], cycle)
}

/// Every state reported for a cyclic wait lies on a cycle that nothing leads
/// out of and on which some locks, but not all, can never be taken.
pub proof fn cyclic_waits_are_real(g: StateGraph, state: usize) -> (cycle: Seq<usize>)
    requires
        g.wf(),
        cycle_deadlocks(g).contains(state),
    ensures
        waits_forever(g, cycle),
        cycle.contains(state),
{
    let groups = searched(g, g.states@.len()).groups;
    let i = choose|i: int| 0 <= i < groups.len() && (#[trigger] groups[i]).1 == state;
    groups_are_real(g, i)
}

} // verus!

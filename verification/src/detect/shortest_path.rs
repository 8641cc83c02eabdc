//! Shortest paths through the state graph.

use crate::net::state_graph::{
    graph_edges, is_walk, outgoing_complete, outgoing_sound, walk_node, StateGraph,
};
use vstd::prelude::*;

verus! {

/// A state met by the breadth-first search: the position of the visit that it
/// was met from, and the edge that led to it.
#[derive(Clone, Copy, Debug, PartialEq, Eq, Structural)]
pub struct Visit {
    pub node: usize,
    pub parent: usize,
    pub edge: usize,
}

/// The state has been met.
pub open spec fn has_node(order: Seq<Visit>, node: usize) -> bool {
    exists|p: int| 0 <= p < order.len() && (#[trigger] order[p]).node == node
}

/// The visits after the edges that leave the visit at `from`: each state that
/// was not met before is met now.
pub open spec fn discovered(
    order: Seq<Visit>,
    from: usize,
    along: Seq<(usize, usize)>,
) -> Seq<Visit>
    decreases along.len(),
{
    if along.len() == 0 {
        order
    } else {
        let before = discovered(order, from, along.drop_last());
        let (node, edge) = along.last();
        if has_node(before, node) {
            before
        } else {
            before.push(Visit { node, parent: from, edge })
        }
    }
}

/// The visits of the search that has handled the first `h` of them, until it
/// comes to `target` or has nothing left.
pub open spec fn visits(
    g: StateGraph,
    target: usize,
    order: Seq<Visit>,
    h: nat,
) -> Seq<Visit>
    decreases g.states@.len() - h,
{
    if h >= order.len() || h >= g.states@.len() || order[h as int].node == target {
        order
    } else {
        visits(
            g,
            target,
            discovered(order, h as usize, g.outgoing_edges(order[h as int].node)),
            h + 1,
        )
    }
}

/// The search that has met the initial state only.
pub open spec fn first_visit(g: StateGraph) -> Seq<Visit> {
    seq![Visit { node: g.initial, parent: 0, edge: 0 }]
}

/// The position of the visit of a state.
pub open spec fn visit_of(order: Seq<Visit>, node: usize) -> Option<nat>
    decreases order.len(),
{
    if order.len() == 0 {
        None
    } else if order.last().node == node {
        Some((order.len() - 1) as nat)
    } else {
        visit_of(order.drop_last(), node)
    }
}

/// The edges that led to a visit, first to last.
pub open spec fn path_of(order: Seq<Visit>, p: nat) -> Seq<usize>
    decreases p,
{
    if p == 0 || p >= order.len() || order[p as int].parent >= p {
        Seq::empty()
    } else {
        path_of(order, order[p as int].parent as nat).push(order[p as int].edge)
    }
}

/// The edges of a shortest path from the initial state; none where the state
/// is the initial one or cannot be reached.
pub open spec fn path_to(g: StateGraph, target: usize) -> Seq<usize> {
    let order = visits(g, target, first_visit(g), 0);
    match visit_of(order, target) {
        Some(p) => path_of(order, p),
        None => Seq::empty(),
    }
}

/// Numbers below a bound that are all different are no more than the bound.
pub proof fn distinct_below(s: Seq<usize>, n: nat)
    requires
        s.no_duplicates(),
        forall|i: int| 0 <= i < s.len() ==> #[trigger] s[i] < n,
    ensures
        s.len() <= n,
    decreases n,
{
    if n == 0 {
        if s.len() > 0 {
            assert(s[0] < 0);
        }
    } else if exists|i: int| 0 <= i < s.len() && s[i] == n - 1 {
        let i = choose|i: int| 0 <= i < s.len() && s[i] == n - 1;
        let rest = s.remove(i);
        assert forall|a: int, b: int|
            0 <= a < rest.len() && 0 <= b < rest.len() && a != b implies rest[a] != rest[b] by {
            let x = if a < i {
                a
            } else {
                a + 1
            };
            let y = if b < i {
                b
            } else {
                b + 1
            };
            assert(rest[a] == s[x] && rest[b] == s[y]);
        }
        assert forall|a: int| 0 <= a < rest.len() implies #[trigger] rest[a] < n - 1 by {
            let x = if a < i {
                a
            } else {
                a + 1
            };
            assert(rest[a] == s[x]);
            assert(s[x] != s[i]);
        }
        distinct_below(rest, (n - 1) as nat);
    } else {
        assert forall|a: int| 0 <= a < s.len() implies #[trigger] s[a] < n - 1 by {
            assert(s[a] != n - 1);
        }
        distinct_below(s, (n - 1) as nat);
    }
}

/// No state is visited twice, and every visited state is one of the graph.
pub open spec fn visits_ok(g: StateGraph, order: Seq<Visit>) -> bool {
    &&& forall|p: int| 0 <= p < order.len() ==> (#[trigger] order[p]).node < g.states@.len()
    &&& forall|p: int, q: int|
        0 <= p < q < order.len() ==> (#[trigger] order[p]).node != (#[trigger] order[q]).node
}

proof fn visits_bounded(g: StateGraph, order: Seq<Visit>)
    requires
        visits_ok(g, order),
    ensures
        order.len() <= g.states@.len(),
{
    let nodes = order.map_values(|v: Visit| v.node);
    assert forall|a: int, b: int|
        0 <= a < nodes.len() && 0 <= b < nodes.len() && a != b implies nodes[a] != nodes[b] by {
        if a < b {
            assert(order[a].node != order[b].node);
        } else {
            assert(order[b].node != order[a].node);
        }
    }
    assert forall|a: int| 0 <= a < nodes.len() implies #[trigger] nodes[a] < g.states@.len() by {
        assert(order[a].node < g.states@.len());
    }
    distinct_below(nodes, g.states@.len());
}

proof fn discovered_ok(g: StateGraph, order: Seq<Visit>, from: usize, along: Seq<(usize, usize)>)
    requires
        visits_ok(g, order),
        forall|k: int| 0 <= k < along.len() ==> (#[trigger] along[k]).0 < g.states@.len(),
    ensures
        visits_ok(g, discovered(order, from, along)),
        order.len() <= discovered(order, from, along).len(),
        forall|p: int|
            0 <= p < order.len() ==> #[trigger] discovered(order, from, along)[p] == order[p],
    decreases along.len(),
{
    if along.len() > 0 {
        let front = along.drop_last();
        assert forall|k: int| 0 <= k < front.len() implies (#[trigger] front[k]).0
            < g.states@.len() by {
            assert(front[k] == along[k]);
        }
        discovered_ok(g, order, from, front);
        let before = discovered(order, from, front);
        let (node, edge) = along.last();
        assert(along[along.len() - 1].0 < g.states@.len());
        if !has_node(before, node) {
            let after = before.push(Visit { node, parent: from, edge });
            assert forall|p: int, q: int| 0 <= p < q < after.len() implies (
            #[trigger] after[p]).node != (#[trigger] after[q]).node by {
                assert(after[p] == before[p]);
                if q < before.len() {
                    assert(after[q] == before[q]);
                }
            }
            assert forall|p: int| 0 <= p < after.len() implies (#[trigger] after[p]).node
                < g.states@.len() by {
                if p < before.len() {
                    assert(after[p] == before[p]);
                }
            }
            assert forall|p: int| 0 <= p < order.len() implies #[trigger] after[p] == order[p] by {
                assert(before[p] == order[p]);
            }
        }
    }
}

/// The states that the listed edges lead to are states of the graph.
proof fn outgoing_states(g: StateGraph, node: usize)
    requires
        g.wf(),
    ensures
        forall|k: int|
            0 <= k < g.outgoing_edges(node).len() ==> (#[trigger] g.outgoing_edges(node)[k]).0
                < g.states@.len(),
{
    assert forall|k: int| 0 <= k < g.outgoing_edges(node).len() implies (
    #[trigger] g.outgoing_edges(node)[k]).0 < g.states@.len() by {
        let e = outgoing_sound(graph_edges(g.graph), node, k);
        assert(g.edges@[e].target < g.states@.len());
        assert(graph_edges(g.graph)[e].1 == g.edges@[e].target);
    }
}

/// Marks every state that the edges lead to, and records the new ones.
fn discover(
    order: &mut Vec<Visit>,
    seen: &mut Vec<bool>,
    from: usize,
    along: &Vec<(usize, usize)>,
    Ghost(g): Ghost<StateGraph>,
)
    requires
        visits_ok(g, old(order)@),
        old(seen)@.len() == g.states@.len(),
        forall|x: usize|
            x < g.states@.len() ==> (#[trigger] old(seen)@[x as int] == has_node(old(order)@, x)),
        forall|k: int| 0 <= k < along@.len() ==> (#[trigger] along@[k]).0 < g.states@.len(),
    ensures
        final(order)@ == discovered(old(order)@, from, along@),
        final(seen)@.len() == g.states@.len(),
        forall|x: usize|
            x < g.states@.len() ==> (#[trigger] final(seen)@[x as int] == has_node(
                final(order)@,
                x,
            )),
{
    let ghost begun = order@;
    let mut k: usize = 0;
    while k < along.len()
        invariant
            k <= along@.len(),
            order@ == discovered(begun, from, along@.take(k as int)),
            seen@.len() == g.states@.len(),
            forall|x: usize|
                x < g.states@.len() ==> (#[trigger] seen@[x as int] == has_node(order@, x)),
            forall|j: int| 0 <= j < along@.len() ==> (#[trigger] along@[j]).0 < g.states@.len(),
        decreases along@.len() - k,
    {
        let (node, edge) = along[k];
        proof {
            assert(along@[k as int].0 < g.states@.len());
            assert(along@.take(k + 1).drop_last() =~= along@.take(k as int));
            assert(along@.take(k + 1).last() == along@[k as int]);
            assert(seen@[node as int] == has_node(order@, node));
        }
        if !seen[node] {
            let ghost before = order@;
            let v = Visit { node, parent: from, edge };
            order.push(v);
            seen.set(node, true);
            proof {
                assert forall|x: usize| x < g.states@.len() implies (#[trigger] seen@[x as int]
                    == has_node(order@, x)) by {
                    if x == node {
                        assert(order@[before.len() as int].node == x);
                    } else if has_node(before, x) {
                        let p = choose|p: int|
                            0 <= p < before.len() && (#[trigger] before[p]).node == x;
                        assert(order@[p].node == x);
                    } else if has_node(order@, x) {
                        let p = choose|p: int|
                            0 <= p < order@.len() && (#[trigger] order@[p]).node == x;
                        assert(p < before.len());
                        assert(before[p].node == x);
                    }
                }
            }
        }
        k = k + 1;
    }
    proof {
        assert(along@.take(k as int) =~= along@);
    }
}

/// The position of the visit of a state.
fn find_visit(order: &Vec<Visit>, node: usize) -> (r: Option<usize>)
    ensures
        r == match visit_of(order@, node) {
            Some(p) => Some(p as usize),
            None => None,
        },
        r matches Some(p) ==> p < order@.len() && visit_of(order@, node) == Some(p as nat),
{
    let mut i: usize = order.len();
    proof {
        assert(order@.take(i as int) =~= order@);
    }
    while i > 0
        invariant
            i <= order@.len(),
            visit_of(order@, node) == visit_of(order@.take(i as int), node),
        decreases i,
    {
        proof {
            assert(order@.take(i as int).last() == order@[i - 1]);
            assert(order@.take(i as int).drop_last() =~= order@.take(i - 1));
        }
        if order[i - 1].node == node {
            return Some(i - 1);
        }
        i = i - 1;
    }
    None
}

/// The edges that led to a visit, first to last.
fn trace_back(order: &Vec<Visit>, p: usize) -> (r: Vec<usize>)
    ensures
        r@ == path_of(order@, p as nat),
    decreases p,
{
    if p == 0 || p >= order.len() || order[p].parent >= p {
        return Vec::new();
    }
    let mut path = trace_back(order, order[p].parent);
    path.push(order[p].edge);
    path
}

/// The edges of a shortest path from the initial state to `target`.
pub fn find_path(g: &StateGraph, target: usize) -> (r: Vec<usize>)
    requires
        g.wf(),
    ensures
        r@ == path_to(*g, target),
{
    let n: usize = g.states.len();
    let mut seen: Vec<bool> = Vec::new();
    let mut i: usize = 0;
    while i < n
        invariant
            i <= n,
            seen@.len() == i,
            forall|x: int| 0 <= x < i ==> !(#[trigger] seen@[x]),
        decreases n - i,
    {
        seen.push(false);
        i = i + 1;
    }
    seen.set(g.initial, true);
    let mut order: Vec<Visit> = Vec::new();
    order.push(Visit { node: g.initial, parent: 0, edge: 0 });
    proof {
        assert(order@ =~= first_visit(*g));
        assert forall|x: usize| x < n implies (#[trigger] seen@[x as int] == has_node(order@, x)) by {
            assert(order@[0].node == g.initial);
        }
    }
    let mut h: usize = 0;
    while h < order.len() && order[h].node != target
        invariant
            g.wf(),
            n == g.states@.len(),
            visits_ok(*g, order@),
            seen@.len() == n,
            forall|x: usize| x < n ==> (#[trigger] seen@[x as int] == has_node(order@, x)),
            h <= order@.len(),
            visits(*g, target, first_visit(*g), 0) == visits(*g, target, order@, h as nat),
        decreases n - h,
    {
        let node = order[h].node;
        let along = g.edges_of(node);
        proof {
            visits_bounded(*g, order@);
            outgoing_states(*g, node);
            discovered_ok(*g, order@, h, along@);
        }
        discover(&mut order, &mut seen, h, &along, Ghost(*g));
        h = h + 1;
    }
    match find_visit(&order, target) {
        Some(p) => trace_back(&order, p),
        None => Vec::new(),
    }
}

/// The edges lead from the initial state to `target`, one after the other.
pub open spec fn leads(g: StateGraph, walk: Seq<int>, target: usize) -> bool {
    is_walk(g, g.initial, walk) && walk_node(g, g.initial, walk, walk.len() as int) == target
}

/// The edges of a path as positions.
pub open spec fn as_walk(path: Seq<usize>) -> Seq<int> {
    path.map_values(|e: usize| e as int)
}

/// The number of edges that led to a visit.
pub open spec fn depth(order: Seq<Visit>, p: int) -> nat {
    path_of(order, p as nat).len()
}

/// Every visit but the first was reached from an earlier one along an edge.
#[verifier::opaque]
pub open spec fn tree_ok(g: StateGraph, order: Seq<Visit>) -> bool {
    &&& visits_ok(g, order)
    &&& 0 < order.len()
    &&& order[0].node == g.initial
    &&& forall|p: int| 0 < p < order.len() ==> reached_from(g, order, #[trigger] order[p], p)
}

/// The visit at `p` was reached from an earlier one along its edge.
pub open spec fn reached_from(g: StateGraph, order: Seq<Visit>, v: Visit, p: int) -> bool {
    &&& v.parent < p
    &&& v.edge < g.edges@.len()
    &&& g.edges@[v.edge as int].source == order[v.parent as int].node
    &&& g.edges@[v.edge as int].target == v.node
}

/// Visits come in the order of their depth, and at most one level ahead of the
/// visit at `h`.
#[verifier::opaque]
pub open spec fn levels_ok(order: Seq<Visit>, h: int) -> bool {
    &&& forall|p: int, q: int|
        0 <= p <= q < order.len() ==> #[trigger] depth(order, p) <= #[trigger] depth(order, q)
    &&& 0 <= h < order.len() ==> forall|p: int|
        0 <= p < order.len() ==> #[trigger] depth(order, p) <= depth(order, h) + 1
}

/// The edge leads to a state that was met, no more than one level further.
pub open spec fn edge_done(g: StateGraph, order: Seq<Visit>, p: int, e: int) -> bool {
    exists|q: int|
        0 <= q < order.len() && (#[trigger] order[q]).node == g.edges@[e].target && depth(order, q)
            <= depth(order, p) + 1
}

/// The first `h` visits have been handled.
pub open spec fn handled(g: StateGraph, order: Seq<Visit>, h: int) -> bool {
    forall|p: int, e: int|
        0 <= p < h && 0 <= e < g.edges@.len() && g.edges@[e].source == order[p].node
            ==> #[trigger] edge_done(g, order, p, e)
}

proof fn path_of_extends(order: Seq<Visit>, more: Seq<Visit>, p: nat)
    requires
        p < order.len() <= more.len(),
        forall|q: int| 0 <= q < order.len() ==> #[trigger] more[q] == order[q],
    ensures
        path_of(more, p) == path_of(order, p),
    decreases p,
{
    assert(more[p as int] == order[p as int]);
    if p > 0 && order[p as int].parent < p {
        path_of_extends(order, more, order[p as int].parent as nat);
    }
}

/// One more visit keeps the tree and its levels.
proof fn visit_added(g: StateGraph, before: Seq<Visit>, h: usize, node: usize, edge: usize)
    requires
        tree_ok(g, before),
        h < before.len(),
        levels_ok(before, h as int),
        !has_node(before, node),
        node < g.states@.len(),
        edge < g.edges@.len(),
        g.edges@[edge as int].source == before[h as int].node,
        g.edges@[edge as int].target == node,
    ensures
        tree_ok(g, before.push(Visit { node, parent: h, edge })),
        levels_ok(before.push(Visit { node, parent: h, edge }), h as int),
        edge_done(g, before.push(Visit { node, parent: h, edge }), h as int, edge as int),
{
    reveal(tree_ok);
    reveal(levels_ok);
    let v = Visit { node, parent: h, edge };
    let after = before.push(v);
    let last = before.len() as int;
    assert forall|p: int| 0 <= p < before.len() implies #[trigger] depth(after, p) == depth(
        before,
        p,
    ) by {
        path_of_extends(before, after, p as nat);
    }
    assert(after[last] == v);
    assert(depth(after, last) == depth(before, h as int) + 1) by {
        path_of_extends(before, after, h as nat);
    }
    assert(visits_ok(g, after)) by {
        assert forall|p: int, q: int| 0 <= p < q < after.len() implies (#[trigger] after[p]).node
            != (#[trigger] after[q]).node by {
            assert(after[p] == before[p]);
            if q < before.len() {
                assert(after[q] == before[q]);
            }
        }
        assert forall|p: int| 0 <= p < after.len() implies (#[trigger] after[p]).node
            < g.states@.len() by {
            if p < before.len() {
                assert(after[p] == before[p]);
            }
        }
    }
    assert forall|p: int| 0 < p < after.len() implies reached_from(
        g,
        after,
        #[trigger] after[p],
        p,
    ) by {
        if p < before.len() {
            assert(after[p] == before[p]);
            assert(reached_from(g, before, before[p], p));
            assert(after[before[p].parent as int] == before[before[p].parent as int]);
        } else {
            assert(after[h as int] == before[h as int]);
        }
    }
    assert(after[0] == before[0]);
    assert(levels_ok(after, h as int)) by {
        assert forall|p: int, q: int| 0 <= p <= q < after.len() implies #[trigger] depth(after, p)
            <= #[trigger] depth(after, q) by {
            if q < before.len() {
                assert(depth(before, p) <= depth(before, q));
            } else if p < before.len() {
                assert(depth(before, p) <= depth(before, h as int) + 1);
            }
        }
        assert forall|p: int| 0 <= p < after.len() implies #[trigger] depth(after, p) <= depth(
            after,
            h as int,
        ) + 1 by {
            if p < before.len() {
                assert(depth(before, p) <= depth(before, h as int) + 1);
            }
        }
    }
    assert(after[last].node == g.edges@[edge as int].target);
}

/// An edge to a state that was met is done.
proof fn met_edge_done(g: StateGraph, order: Seq<Visit>, h: int, e: int)
    requires
        0 <= h < order.len(),
        levels_ok(order, h),
        has_node(order, g.edges@[e].target),
    ensures
        edge_done(g, order, h, e),
{
    reveal(levels_ok);
    let q = choose|q: int|
        0 <= q < order.len() && (#[trigger] order[q]).node == g.edges@[e].target;
    assert(depth(order, q) <= depth(order, h) + 1);
}

/// Handling the edges of one visit keeps the tree and its levels.
proof fn discovered_tree(g: StateGraph, order: Seq<Visit>, h: usize, along: Seq<(usize, usize)>)
    requires
        tree_ok(g, order),
        h < order.len(),
        levels_ok(order, h as int),
        forall|k: int|
            0 <= k < along.len() ==> (#[trigger] along[k]).0 < g.states@.len() && along[k].1
                < g.edges@.len() && g.edges@[along[k].1 as int].source == order[h as int].node
                && g.edges@[along[k].1 as int].target == along[k].0,
    ensures
        tree_ok(g, discovered(order, h, along)),
        order.len() <= discovered(order, h, along).len(),
        forall|p: int| 0 <= p < order.len() ==> #[trigger] discovered(order, h, along)[p] == order[p],
        levels_ok(discovered(order, h, along), h as int),
        forall|k: int|
            0 <= k < along.len() ==> edge_done(
                g,
                discovered(order, h, along),
                h as int,
                (#[trigger] along[k]).1 as int,
            ),
    decreases along.len(),
{
    if along.len() > 0 {
        let front = along.drop_last();
        assert forall|k: int| 0 <= k < front.len() implies (#[trigger] front[k]).0
            < g.states@.len() && front[k].1 < g.edges@.len() && g.edges@[front[k].1 as int].source
            == order[h as int].node && g.edges@[front[k].1 as int].target == front[k].0 by {
            assert(front[k] == along[k]);
        }
        discovered_tree(g, order, h, front);
        let before = discovered(order, h, front);
        let after = discovered(order, h, along);
        let (node, edge) = along.last();
        assert(along[along.len() - 1] == (node, edge));
        assert(before[h as int] == order[h as int]);
        if has_node(before, node) {
            met_edge_done(g, before, h as int, edge as int);
        } else {
            visit_added(g, before, h, node, edge);
            assert(after == before.push(Visit { node, parent: h, edge }));
            assert forall|p: int| 0 <= p < order.len() implies #[trigger] after[p] == order[p] by {
                assert(before[p] == order[p]);
            }
        }
        assert forall|k: int| 0 <= k < along.len() implies edge_done(
            g,
            after,
            h as int,
            (#[trigger] along[k]).1 as int,
        ) by {
            if k < front.len() {
                assert(front[k] == along[k]);
                let e = along[k].1 as int;
                assert(edge_done(g, before, h as int, e));
                edge_stays_done(g, before, after, h as int, e);
            }
        }
    }
}

proof fn edge_stays_done(g: StateGraph, order: Seq<Visit>, more: Seq<Visit>, p: int, e: int)
    requires
        0 <= p < order.len() <= more.len(),
        forall|q: int| 0 <= q < order.len() ==> #[trigger] more[q] == order[q],
        edge_done(g, order, p, e),
    ensures
        edge_done(g, more, p, e),
{
    let q = choose|q: int|
        0 <= q < order.len() && (#[trigger] order[q]).node == g.edges@[e].target && depth(order, q)
            <= depth(order, p) + 1;
    path_of_extends(order, more, p as nat);
    path_of_extends(order, more, q as nat);
    assert(more[q].node == g.edges@[e].target);
}

/// The search has met its target or has handled every visit.
proof fn visits_done(g: StateGraph, target: usize, order: Seq<Visit>, h: nat) -> (k: nat)
    requires
        g.wf(),
        tree_ok(g, order),
        h <= order.len(),
        levels_ok(order, h as int),
        handled(g, order, h as int),
    ensures
        tree_ok(g, visits(g, target, order, h)),
        k <= visits(g, target, order, h).len(),
        levels_ok(visits(g, target, order, h), k as int),
        handled(g, visits(g, target, order, h), k as int),
        k < visits(g, target, order, h).len() ==> visits(g, target, order, h)[k as int].node
            == target,
    decreases g.states@.len() - h,
{
    reveal(tree_ok);
    visits_bounded(g, order);
    assert(g.states.len() == g.states@.len());
    if h >= order.len() || order[h as int].node == target {
        h
    } else {
        let node = order[h as int].node;
        let along = g.outgoing_edges(node);
        let at = h as usize;
        let edges = graph_edges(g.graph);
        assert(g.edges.len() == g.edges@.len());
        assert forall|k: int| 0 <= k < along.len() implies (#[trigger] along[k]).0
            < g.states@.len() && along[k].1 < g.edges@.len() && g.edges@[along[k].1 as int].source
            == node && g.edges@[along[k].1 as int].target == along[k].0 by {
            let e = outgoing_sound(edges, node, k);
            assert(edges[e].2 == e);
            assert(g.edges@[e].target < g.states@.len());
        }
        discovered_tree(g, order, at, along);
        let more = discovered(order, at, along);
        assert forall|p: int, e: int|
            0 <= p < h + 1 && 0 <= e < g.edges@.len() && g.edges@[e].source
                == more[p].node implies #[trigger] edge_done(g, more, p, e) by {
            assert(more[p] == order[p]);
            if p < h {
                assert(edge_done(g, order, p, e));
                edge_stays_done(g, order, more, p, e);
            } else {
                assert(edges[e].2 == e);
                outgoing_complete(edges, node, e);
                let x = (edges[e].1, edges[e].2);
                let k = choose|k: int| 0 <= k < along.len() && along[k] == x;
                assert(along[k].1 == e);
            }
        }
        assert(levels_ok(more, h as int + 1)) by {
            reveal(levels_ok);
            if h + 1 < more.len() {
                assert forall|p: int| 0 <= p < more.len() implies #[trigger] depth(more, p)
                    <= depth(more, h as int + 1) + 1 by {
                    assert(depth(more, p) <= depth(more, h as int) + 1);
                    assert(depth(more, h as int) <= depth(more, h as int + 1));
                }
            }
        }
        visits_done(g, target, more, h + 1)
    }
}

proof fn search_done(g: StateGraph, target: usize) -> (k: nat)
    requires
        g.wf(),
    ensures
        ({
            let order = visits(g, target, first_visit(g), 0);
            &&& tree_ok(g, order)
            &&& k <= order.len()
            &&& levels_ok(order, k as int)
            &&& handled(g, order, k as int)
            &&& k < order.len() ==> order[k as int].node == target
        }),
{
    reveal(tree_ok);
    reveal(levels_ok);
    let order = first_visit(g);
    assert(order[0].node == g.initial);
    visits_done(g, target, order, 0)
}

/// The recorded path leads to its visit.
proof fn path_of_leads(g: StateGraph, order: Seq<Visit>, p: nat)
    requires
        tree_ok(g, order),
        p < order.len(),
    ensures
        leads(g, as_walk(path_of(order, p)), order[p as int].node),
        p > 0 ==> path_of(order, p).len() > 0,
    decreases p,
{
    reveal(tree_ok);
    let walk = as_walk(path_of(order, p));
    if p > 0 {
        let v = order[p as int];
        assert(reached_from(g, order, v, p as int));
        path_of_leads(g, order, v.parent as nat);
        let front = as_walk(path_of(order, v.parent as nat));
        assert(walk =~= front.push(v.edge as int));
        assert forall|i: int| 0 <= i < walk.len() implies 0 <= #[trigger] walk[i] < g.edges@.len()
            && g.edges@[walk[i]].source == walk_node(g, g.initial, walk, i) by {
            if i > 0 {
                assert(walk[i - 1] == front[i - 1]);
            }
            if i < front.len() {
                assert(walk[i] == front[i]);
            }
        }
    }
}

proof fn visit_of_sound(order: Seq<Visit>, node: usize)
    ensures
        visit_of(order, node) matches Some(p) ==> p < order.len() && order[p as int].node == node,
        visit_of(order, node) is None ==> !has_node(order, node),
    decreases order.len(),
{
    if order.len() > 0 && order.last().node != node {
        let front = order.drop_last();
        visit_of_sound(front, node);
        if has_node(order, node) {
            let p = choose|p: int| 0 <= p < order.len() && (#[trigger] order[p]).node == node;
            assert(front[p] == order[p]);
        }
    }
}

/// A state at the end of a walk has been met, at no greater depth.
proof fn walk_is_met(
    g: StateGraph,
    target: usize,
    order: Seq<Visit>,
    k: nat,
    walk: Seq<int>,
    n: int,
) -> (q: int)
    requires
        tree_ok(g, order),
        k <= order.len(),
        levels_ok(order, k as int),
        handled(g, order, k as int),
        k < order.len() ==> order[k as int].node == target,
        is_walk(g, g.initial, walk),
        0 <= n <= walk.len(),
        k < order.len() ==> n <= depth(order, k as int),
    ensures
        0 <= q < order.len(),
        order[q].node == walk_node(g, g.initial, walk, n),
        depth(order, q) <= n,
    decreases n,
{
    reveal(tree_ok);
    reveal(levels_ok);
    if n == 0 {
        0
    } else {
        let p = walk_is_met(g, target, order, k, walk, n - 1);
        let e = walk[n - 1];
        assert(p < k) by {
            if k < order.len() && k <= p {
                assert(depth(order, k as int) <= depth(order, p));
            }
        }
        assert(edge_done(g, order, p, e));
        choose|q: int|
            0 <= q < order.len() && (#[trigger] order[q]).node == g.edges@[e].target && depth(
                order,
                q,
            ) <= depth(order, p) + 1
    }
}

/// A path that is found leads from the initial state to its target.
pub proof fn path_leads_to_its_target(g: StateGraph, target: usize)
    requires
        g.wf(),
    ensures
        path_to(g, target).len() > 0 ==> leads(g, as_walk(path_to(g, target)), target),
{
    reveal(tree_ok);
    let order = visits(g, target, first_visit(g), 0);
    search_done(g, target);
    visit_of_sound(order, target);
    match visit_of(order, target) {
        Some(p) => {
            path_of_leads(g, order, p);
        },
        None => {},
    }
}

/// Where a state can be reached, the path found leads to it, and no walk to it
/// is shorter.
pub proof fn path_is_shortest(g: StateGraph, target: usize, walk: Seq<int>)
    requires
        g.wf(),
        leads(g, walk, target),
    ensures
        leads(g, as_walk(path_to(g, target)), target),
        path_to(g, target).len() <= walk.len(),
{
    reveal(tree_ok);
    reveal(levels_ok);
    let order = visits(g, target, first_visit(g), 0);
    let k = search_done(g, target);
    visit_of_sound(order, target);
    if k < order.len() && walk.len() > depth(order, k as int) {
        assert(has_node(order, target));
    } else {
        let q = walk_is_met(g, target, order, k, walk, walk.len() as int);
        assert(has_node(order, target));
    }
    let p = visit_of(order, target)->0;
    path_of_leads(g, order, p);
    if k < order.len() && walk.len() > depth(order, k as int) {
        assert(order[k as int].node == order[p as int].node);
        if k < p {
            assert(order[k as int].node != order[p as int].node);
        } else if p < k {
            assert(order[p as int].node != order[k as int].node);
        }
    } else {
        let q = walk_is_met(g, target, order, k, walk, walk.len() as int);
        if q < p {
            assert(order[q].node != order[p as int].node);
        } else if p < q {
            assert(order[p as int].node != order[q].node);
        }
    }
}

} // verus!

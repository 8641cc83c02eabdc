//! What the resource traces of deadlock reports account for.

use super::deadlock::{
    accounted, deficits, initial_tokens, is_missing, label_of, location_of, usage_after,
    usage_along, usage_of, usage_step, Usage,
};
use super::shortest_path::{as_walk, leads, path_is_shortest, path_to};
use crate::net::state_graph::{tokens_at, walk_node, PlaceChange, StateEdge, StateGraph};
use crate::net::structure::{NetView, PlaceId};
use crate::text::decimal;
use vstd::prelude::*;

verus! {

/// The tokens that a state has on a place.
pub open spec fn tokens_in(g: StateGraph, node: usize, place: PlaceId) -> u64 {
    tokens_at(g.states@[node as int].marking@, place)
}

/// The change tells the tokens of its place before and after the edge, and
/// whether there are fewer.
pub open spec fn change_is_told(g: StateGraph, edge: StateEdge, c: PlaceChange) -> bool {
    &&& c.before == tokens_in(g, edge.source, c.place)
    &&& c.after == tokens_in(g, edge.target, c.place)
    &&& c.delta < 0 <==> c.after < c.before
}

/// The changes of the edge include one of the place.
pub open spec fn tells_of(edge: StateEdge, place: PlaceId) -> bool {
    exists|i: int| 0 <= i < edge.changes@.len() && (#[trigger] edge.changes@[i]).place == place
}

/// The changes of the edge are those between its two markings.
pub open spec fn edge_is_told(g: StateGraph, edge: StateEdge) -> bool {
    &&& forall|i: int|
        0 <= i < edge.changes@.len() ==> change_is_told(g, edge, #[trigger] edge.changes@[i])
    &&& forall|p: PlaceId|
        #[trigger] tokens_in(g, edge.source, p) != tokens_in(g, edge.target, p) ==> tells_of(
            edge,
            p,
        )
}

/// The changes of every edge are those between its two markings.
pub open spec fn changes_are_told(g: StateGraph) -> bool {
    forall|e: int| 0 <= e < g.edges@.len() ==> edge_is_told(g, #[trigger] g.edges@[e])
}

/// The tokens of the place that are there at the start and not in the state.
pub open spec fn missing_at(g: StateGraph, node: usize, place: PlaceId) -> int {
    if initial_tokens(g, place) > tokens_in(g, node, place) {
        initial_tokens(g, place) - tokens_in(g, node, place)
    } else {
        0
    }
}

/// A change of an edge: the position of the edge on a path, and of the change
/// among those of the edge.
pub struct Use {
    pub at: int,
    pub change: int,
}

/// The edge of a use.
pub open spec fn use_edge(g: StateGraph, path: Seq<usize>, x: Use) -> StateEdge {
    g.edges@[path[x.at] as int]
}

/// The change of a use.
pub open spec fn use_change(g: StateGraph, path: Seq<usize>, x: Use) -> PlaceChange {
    use_edge(g, path, x).changes@[x.change]
}

/// The use is a change of an edge of the path that takes tokens.
pub open spec fn is_use(g: StateGraph, path: Seq<usize>, x: Use) -> bool {
    &&& 0 <= x.at < path.len()
    &&& 0 <= x.change < use_edge(g, path, x).changes@.len()
    &&& use_change(g, path, x).delta < 0
}

/// The tokens that a change takes.
pub open spec fn amount(c: PlaceChange) -> int {
    if c.before > c.after {
        c.before - c.after
    } else {
        0
    }
}

/// The tokens of a place that the uses take together.
pub open spec fn taken(g: StateGraph, path: Seq<usize>, uses: Seq<Use>, place: PlaceId) -> int
    decreases uses.len(),
{
    if uses.len() == 0 {
        0
    } else {
        let c = use_change(g, path, uses.last());
        taken(g, path, uses.drop_last(), place) + if c.place == place {
            amount(c)
        } else {
            0
        }
    }
}

/// What is missing from a place.
spec fn left(missing: Seq<(PlaceId, u64)>, place: PlaceId) -> int
    decreases missing.len(),
{
    if missing.len() == 0 {
        0
    } else if missing[0].0 == place {
        missing[0].1 as int
    } else {
        left(missing.drop_first(), place)
    }
}

/// Every place is listed once, and something is missing from it.
spec fn distinct(missing: Seq<(PlaceId, u64)>) -> bool
    decreases missing.len(),
{
    missing.len() > 0 ==> {
        &&& missing[0].1 > 0
        &&& left(missing.drop_first(), missing[0].0) == 0
        &&& distinct(missing.drop_first())
    }
}

proof fn left_is_missing(missing: Seq<(PlaceId, u64)>, place: PlaceId)
    requires
        distinct(missing),
    ensures
        left(missing, place) >= 0,
        left(missing, place) > 0 <==> is_missing(missing, place),
    decreases missing.len(),
{
    if missing.len() > 0 {
        let rest = missing.drop_first();
        left_is_missing(rest, place);
        if missing[0].0 != place {
            if is_missing(missing, place) {
                let i = choose|i: int| 0 <= i < missing.len() && (#[trigger] missing[i]).0 == place;
                assert(rest[i - 1].0 == place);
            }
            if is_missing(rest, place) {
                let i = choose|i: int| 0 <= i < rest.len() && (#[trigger] rest[i]).0 == place;
                assert(missing[i + 1].0 == place);
            }
        }
    }
}

proof fn accounted_left(
    missing: Seq<(PlaceId, u64)>,
    place: PlaceId,
    tokens: u64,
    other: PlaceId,
)
    requires
        distinct(missing),
    ensures
        distinct(accounted(missing, place, tokens)),
        left(accounted(missing, place, tokens), other) == if other != place {
            left(missing, other)
        } else if left(missing, other) > tokens {
            left(missing, other) - tokens
        } else {
            0
        },
    decreases missing.len(),
{
    if missing.len() > 0 {
        let rest = missing.drop_first();
        left_is_missing(rest, other);
        let after = accounted(missing, place, tokens);
        if missing[0].0 == place {
            if missing[0].1 > tokens {
                assert(after.drop_first() =~= rest);
            }
        } else {
            accounted_left(rest, place, tokens, other);
            accounted_left(rest, place, tokens, missing[0].0);
            assert(after.drop_first() =~= accounted(rest, place, tokens));
        }
    }
}

proof fn pushed_left(missing: Seq<(PlaceId, u64)>, place: PlaceId, tokens: u64, other: PlaceId)
    requires
        distinct(missing),
        left(missing, place) == 0,
        tokens > 0,
    ensures
        distinct(missing.push((place, tokens))),
        left(missing.push((place, tokens)), other) == if other == place {
            tokens as int
        } else {
            left(missing, other)
        },
    decreases missing.len(),
{
    let after = missing.push((place, tokens));
    if missing.len() == 0 {
        assert(after.drop_first() =~= missing);
    } else {
        let rest = missing.drop_first();
        assert(after.drop_first() =~= rest.push((place, tokens)));
        pushed_left(rest, place, tokens, other);
        pushed_left(rest, place, tokens, missing[0].0);
    }
}

/// The deficits are what is missing from each of the resources.
proof fn deficits_left(g: StateGraph, node: usize, resources: Seq<PlaceId>, place: PlaceId)
    ensures
        distinct(deficits(g, g.states@[node as int].marking@, resources)),
        left(deficits(g, g.states@[node as int].marking@, resources), place) == if resources.contains(
            place,
        ) {
            missing_at(g, node, place)
        } else {
            0
        },
    decreases resources.len(),
{
    if resources.len() > 0 {
        let marking = g.states@[node as int].marking@;
        let front = resources.drop_last();
        let p = resources.last();
        let before = deficits(g, marking, front);
        deficits_left(g, node, front, place);
        deficits_left(g, node, front, p);
        left_is_missing(before, p);
        if initial_tokens(g, p) > tokens_at(marking, p) && !is_missing(before, p) {
            let d = (initial_tokens(g, p) - tokens_at(marking, p)) as u64;
            pushed_left(before, p, d, place);
        }
        assert(resources[resources.len() - 1] == p);
        if resources.contains(place) && place != p {
            let i = choose|i: int| 0 <= i < resources.len() && resources[i] == place;
            assert(front[i] == place);
        }
        if front.contains(place) {
            let i = choose|i: int| 0 <= i < front.len() && front[i] == place;
            assert(resources[i] == place);
        }
    }
}

/// The uses are the steps, and what they take is no longer missing. Before
/// each of them something was.
#[verifier::opaque]
spec fn explains(
    g: StateGraph,
    net: NetView,
    path: Seq<usize>,
    begun: Seq<(PlaceId, u64)>,
    u: Usage,
    uses: Seq<Use>,
) -> bool {
    &&& distinct(u.missing)
    &&& u.steps.len() == uses.len()
    &&& forall|k: int|
        0 <= k < uses.len() ==> is_use(g, path, #[trigger] uses[k]) && u.steps[k] == usage_step(
            g,
            net,
            use_edge(g, path, uses[k]),
            use_change(g, path, uses[k]),
        ) && taken(g, path, uses.take(k), use_change(g, path, uses[k]).place) < left(
            begun,
            use_change(g, path, uses[k]).place,
        )
    &&& forall|p: PlaceId| #[trigger] left(u.missing, p) == if left(begun, p) > taken(
        g,
        path,
        uses,
        p,
    ) {
        left(begun, p) - taken(g, path, uses, p)
    } else {
        0
    }
}

/// A use that finds something missing.
proof fn used(
    g: StateGraph,
    net: NetView,
    path: Seq<usize>,
    begun: Seq<(PlaceId, u64)>,
    u: Usage,
    uses: Seq<Use>,
    x: Use,
)
    requires
        explains(g, net, path, begun, u, uses),
        is_use(g, path, x),
        is_missing(u.missing, use_change(g, path, x).place),
    ensures
        explains(
            g,
            net,
            path,
            begun,
            Usage {
                missing: accounted(
                    u.missing,
                    use_change(g, path, x).place,
                    amount(use_change(g, path, x)) as u64,
                ),
                steps: u.steps.push(
                    usage_step(g, net, use_edge(g, path, x), use_change(g, path, x)),
                ),
            },
            uses.push(x),
        ),
{
    reveal(explains);
    let c = use_change(g, path, x);
    let t = amount(c) as u64;
    let v = Usage {
        missing: accounted(u.missing, c.place, t),
        steps: u.steps.push(usage_step(g, net, use_edge(g, path, x), c)),
    };
    let more = uses.push(x);
    assert(more.drop_last() =~= uses);
    accounted_left(u.missing, c.place, t, c.place);
    left_is_missing(u.missing, c.place);
    assert forall|k: int| 0 <= k < more.len() implies is_use(g, path, #[trigger] more[k])
        && v.steps[k] == usage_step(
        g,
        net,
        use_edge(g, path, more[k]),
        use_change(g, path, more[k]),
    ) && taken(g, path, more.take(k), use_change(g, path, more[k]).place) < left(
        begun,
        use_change(g, path, more[k]).place,
    ) by {
        assert(more.take(k) =~= uses.take(k));
        if k < uses.len() {
            assert(more[k] == uses[k]);
        } else {
            assert(uses.take(k) =~= uses);
            assert(left(u.missing, c.place) > 0);
        }
    }
    assert forall|p: PlaceId| #[trigger] left(v.missing, p) == if left(begun, p) > taken(
        g,
        path,
        more,
        p,
    ) {
        left(begun, p) - taken(g, path, more, p)
    } else {
        0
    } by {
        accounted_left(u.missing, c.place, t, p);
        assert(left(u.missing, p) == if left(begun, p) > taken(g, path, uses, p) {
            left(begun, p) - taken(g, path, uses, p)
        } else {
            0
        });
    }
}

/// From the place nothing is missing any more, or the uses have taken at least
/// `tokens`.
spec fn settled(
    g: StateGraph,
    path: Seq<usize>,
    u: Usage,
    uses: Seq<Use>,
    place: PlaceId,
    tokens: int,
) -> bool {
    left(u.missing, place) == 0 || taken(g, path, uses, place) >= tokens
}

/// More has been taken and less is missing.
spec fn further(
    g: StateGraph,
    path: Seq<usize>,
    u: Usage,
    uses: Seq<Use>,
    v: Usage,
    more: Seq<Use>,
) -> bool {
    forall|p: PlaceId|
        #![trigger left(v.missing, p)]
        #![trigger taken(g, path, more, p)]
        taken(g, path, more, p) >= taken(g, path, uses, p) && (left(u.missing, p) == 0 ==> left(
            v.missing,
            p,
        ) == 0)
}

/// The uses after the first `n` changes of an edge.
proof fn edge_used(
    g: StateGraph,
    net: NetView,
    path: Seq<usize>,
    begun: Seq<(PlaceId, u64)>,
    u: Usage,
    uses: Seq<Use>,
    at: int,
    n: nat,
) -> (more: Seq<Use>)
    requires
        explains(g, net, path, begun, u, uses),
        0 <= at < path.len(),
        n <= g.edges@[path[at] as int].changes@.len(),
    ensures
        ({
            let edge = g.edges@[path[at] as int];
            let v = usage_after(g, net, edge, edge.changes@.take(n as int), u);
            &&& explains(g, net, path, begun, v, more)
            &&& further(g, path, u, uses, v, more)
            &&& forall|i: int|
                0 <= i < n && (#[trigger] edge.changes@[i]).delta < 0 ==> settled(
                    g,
                    path,
                    v,
                    more,
                    edge.changes@[i].place,
                    taken(g, path, uses, edge.changes@[i].place) + amount(edge.changes@[i]),
                )
        }),
    decreases n,
{
    let edge = g.edges@[path[at] as int];
    let changes = edge.changes@.take(n as int);
    if n == 0 {
        uses
    } else {
        let front = edge.changes@.take(n - 1);
        let w = usage_after(g, net, edge, front, u);
        let some = edge_used(g, net, path, begun, u, uses, at, (n - 1) as nat);
        assert(changes.drop_last() =~= front);
        let c = edge.changes@[n - 1];
        assert(changes.last() == c);
        let v = usage_after(g, net, edge, changes, u);
        assert(distinct(w.missing)) by {
            reveal(explains);
        }
        left_is_missing(w.missing, c.place);
        let more = if c.delta < 0 && is_missing(w.missing, c.place) {
            let x = Use { at, change: n - 1 };
            used(g, net, path, begun, w, some, x);
            some.push(x)
        } else {
            some
        };
        assert(further(g, path, w, some, v, more)) by {
            if c.delta < 0 && is_missing(w.missing, c.place) {
                assert(more.drop_last() =~= some);
                let t = amount(c) as u64;
                assert forall|p: PlaceId|
                    #![trigger left(v.missing, p)]
                    #![trigger taken(g, path, more, p)]
                    taken(g, path, more, p) >= taken(g, path, some, p) && (left(w.missing, p) == 0
                        ==> left(v.missing, p) == 0) by {
                    accounted_left(w.missing, c.place, t, p);
                }
            }
        }
        assert forall|i: int|
            0 <= i < n && (#[trigger] edge.changes@[i]).delta < 0 implies settled(
            g,
            path,
            v,
            more,
            edge.changes@[i].place,
            taken(g, path, uses, edge.changes@[i].place) + amount(edge.changes@[i]),
        ) by {
            let p = edge.changes@[i].place;
            assert(taken(g, path, more, p) >= taken(g, path, some, p));
            assert(taken(g, path, some, p) >= taken(g, path, uses, p));
            if i == n - 1 {
                if is_missing(w.missing, c.place) {
                    assert(more.drop_last() =~= some);
                }
            } else {
                assert(settled(
                    g,
                    path,
                    w,
                    some,
                    p,
                    taken(g, path, uses, p) + amount(edge.changes@[i]),
                ));
            }
        }
        more
    }
}

/// The uses along the first `n` edges of a path, the last one first.
proof fn path_used(
    g: StateGraph,
    net: NetView,
    path: Seq<usize>,
    begun: Seq<(PlaceId, u64)>,
    u: Usage,
    uses: Seq<Use>,
    node: usize,
    n: nat,
) -> (more: Seq<Use>)
    requires
        changes_are_told(g),
        leads(g, as_walk(path), node),
        explains(g, net, path, begun, u, uses),
        n <= path.len(),
        forall|p: PlaceId|
            #[trigger] settled(
                g,
                path,
                u,
                uses,
                p,
                tokens_in(g, walk_node(g, g.initial, as_walk(path), n as int), p) - tokens_in(
                    g,
                    node,
                    p,
                ),
            ),
    ensures
        explains(g, net, path, begun, usage_along(g, net, path.take(n as int), u), more),
        forall|p: PlaceId|
            #[trigger] settled(
                g,
                path,
                usage_along(g, net, path.take(n as int), u),
                more,
                p,
                tokens_in(g, g.initial, p) - tokens_in(g, node, p),
            ),
    decreases n,
{
    if n == 0 {
        uses
    } else {
        let walk = as_walk(path);
        let e = path[n - 1] as int;
        assert(walk[n - 1] == e);
        let edge = g.edges@[e];
        assert(path.take(n as int).last() == path[n - 1]);
        assert(path.take(n as int).drop_last() =~= path.take(n - 1));
        let v = usage_after(g, net, edge, edge.changes@, u);
        assert(edge.changes@.take(edge.changes@.len() as int) =~= edge.changes@);
        let some = edge_used(g, net, path, begun, u, uses, n - 1, edge.changes@.len());
        assert(walk_node(g, g.initial, walk, n as int) == edge.target);
        assert(walk_node(g, g.initial, walk, n - 1) == edge.source);
        assert(edge_is_told(g, edge));
        assert forall|p: PlaceId|
            #[trigger] settled(
                g,
                path,
                v,
                some,
                p,
                tokens_in(g, walk_node(g, g.initial, walk, n - 1), p) - tokens_in(g, node, p),
            ) by {
            assert(settled(
                g,
                path,
                u,
                uses,
                p,
                tokens_in(g, walk_node(g, g.initial, walk, n as int), p) - tokens_in(g, node, p),
            ));
            assert(taken(g, path, some, p) >= taken(g, path, uses, p));
            if tokens_in(g, edge.source, p) > tokens_in(g, edge.target, p) {
                assert(tells_of(edge, p));
                let i = choose|i: int|
                    0 <= i < edge.changes@.len() && (#[trigger] edge.changes@[i]).place == p;
                assert(change_is_told(g, edge, edge.changes@[i]));
                assert(settled(
                    g,
                    path,
                    v,
                    some,
                    p,
                    taken(g, path, uses, p) + amount(edge.changes@[i]),
                ));
            }
        }
        path_used(g, net, path, begun, v, some, node, (n - 1) as nat)
    }
}

/// The steps that a report gives for a blocked transition account for what is
/// missing from its resources: they are changes along a shortest path to the
/// state, and of each resource they take together at least what is missing.
/// None of them is idle: those given before it take less than that.
pub proof fn steps_take_what_is_missing(
    g: StateGraph,
    net: NetView,
    node: usize,
    resources: Seq<PlaceId>,
    walk: Seq<int>,
) -> (uses: Seq<Use>)
    requires
        g.wf(),
        changes_are_told(g),
        leads(g, walk, node),
    ensures
        ({
            let path = path_to(g, node);
            let steps = usage_of(g, net, node, resources);
            &&& uses.len() == steps.len()
            &&& forall|k: int|
                0 <= k < uses.len() ==> is_use(g, path, #[trigger] uses[k]) && steps[k]
                    == usage_step(
                    g,
                    net,
                    use_edge(g, path, uses[k]),
                    use_change(g, path, uses[k]),
                )
            &&& forall|k: int|
                0 <= k < uses.len() ==> resources.contains(
                    use_change(g, path, #[trigger] uses[k]).place,
                ) && taken(g, path, uses.take(k), use_change(g, path, uses[k]).place)
                    < missing_at(g, node, use_change(g, path, uses[k]).place)
            &&& forall|p: PlaceId| #[trigger]
                resources.contains(p) ==> taken(g, path, uses, p) >= missing_at(g, node, p)
        }),
{
    path_is_shortest(g, node, walk);
    let path = path_to(g, node);
    let begun = deficits(g, g.states@[node as int].marking@, resources);
    let u = Usage { missing: begun, steps: Seq::empty() };
    let none = Seq::<Use>::empty();
    assert forall|p: PlaceId|
        left(begun, p) == if resources.contains(p) {
            missing_at(g, node, p)
        } else {
            0
        } by {
        deficits_left(g, node, resources, p);
    }
    deficits_left(g, node, resources, 0);
    assert(explains(g, net, path, begun, u, none)) by {
        reveal(explains);
        assert forall|p: PlaceId| left(begun, p) >= 0 by {
            left_is_missing(begun, p);
        }
    }
    assert(path.take(path.len() as int) =~= path);
    let uses = path_used(g, net, path, begun, u, none, node, path.len());
    let end = usage_along(g, net, path, u);
    reveal(explains);
    assert forall|p: PlaceId| #[trigger] resources.contains(p) implies taken(g, path, uses, p)
        >= missing_at(g, node, p) by {
        assert(left(begun, p) == missing_at(g, node, p));
        assert(settled(
            g,
            path,
            end,
            uses,
            p,
            tokens_in(g, g.initial, p) - tokens_in(g, node, p),
        ));
        taken_counts(g, path, uses, p);
        assert(left(end.missing, p) == if left(begun, p) > taken(g, path, uses, p) {
            left(begun, p) - taken(g, path, uses, p)
        } else {
            0
        });
    }
    assert forall|k: int| 0 <= k < uses.len() implies resources.contains(
        use_change(g, path, #[trigger] uses[k]).place,
    ) && taken(g, path, uses.take(k), use_change(g, path, uses[k]).place) < missing_at(
        g,
        node,
        use_change(g, path, uses[k]).place,
    ) by {
        taken_counts(g, path, uses.take(k), use_change(g, path, uses[k]).place);
    }
    uses
}

proof fn taken_counts(g: StateGraph, path: Seq<usize>, uses: Seq<Use>, place: PlaceId)
    ensures
        taken(g, path, uses, place) >= 0,
    decreases uses.len(),
{
    if uses.len() > 0 {
        taken_counts(g, path, uses.drop_last(), place);
    }
}

/// A step of a resource trace tells what its change is: the resource, what was
/// done where, between which states, and the tokens before and after.
pub proof fn steps_tell_their_change(g: StateGraph, net: NetView, edge: StateEdge, c: PlaceChange)
    ensures
        ({
            let step = usage_step(g, net, edge, c);
            &&& step.resource_name == net.places[c.place as int].name
            &&& step.transition_name == edge.name@
            &&& step.operation == label_of(edge.transition_type@)
            &&& step.location == location_of(g, edge.transition)
            &&& step.from_state == "s"@ + decimal(g.states@[edge.source as int].index as nat)
            &&& step.to_state == "s"@ + decimal(g.states@[edge.target as int].index as nat)
            &&& step.before == c.before
            &&& step.after == c.after
        }),
{
}

} // verus!

//! What deadlock reports promise of a state: its marked places, and every
//! transition that waits for a resource with what it waits for.

use super::deadlock::{
    blocked_among, blocked_view, blocking_resources, control_inputs, deadlocks, is_control_input,
    is_ready, is_resource_blocked, label_of, lacking_room, lacking_tokens, lacks_room, lacks_tokens,
    location_from, location_of, marked, place_text, resource_statuses, state_view, summary_from,
    trace_view, usage_of, DeadlockDetector,
};
use crate::net::state_graph::{tokens_at, PlaceSummary, StateGraph, StateNode};
use crate::net::structure::{NetView, PlaceId, PlaceType, PtNet, TransitionId, TransitionTypeView};
use crate::report::ResourceStatusView;
use crate::text::decimal;
use vstd::prelude::*;

verus! {

/// The tokens that a state has on a place; none where the place is beyond its
/// marking.
pub open spec fn has_tokens(state: StateNode, place: int) -> int {
    if place < state.marking@.len() {
        state.marking@[place] as int
    } else {
        0
    }
}

/// The place stands for a resource.
pub open spec fn for_resource(net: NetView, place: int) -> bool {
    0 <= place < net.places.len() && net.places[place].place_type == PlaceType::Resources
}

/// The place stands for the control flow and the transition takes tokens from
/// it.
pub open spec fn for_control(net: NetView, place: int, t: TransitionId) -> bool {
    0 <= place < net.places.len() && net.places[place].place_type != PlaceType::Resources
        && net.input(place as usize, t) > 0
}

/// The thread of the transition has come to it.
pub open spec fn thread_waits(g: StateGraph, net: NetView, node: usize, t: TransitionId) -> bool {
    &&& exists|c: int| for_control(net, c, t)
    &&& forall|c: int| #[trigger]
        for_control(net, c, t) ==> has_tokens(g.states@[node as int], c) >= net.input(
            c as usize,
            t,
        )
}

/// The resource has tokens left, and as many as at the start: nobody holds it.
pub open spec fn is_free(g: StateGraph, node: usize, place: int) -> bool {
    has_tokens(g.states@[node as int], place) > 0 && has_tokens(g.states@[node as int], place)
        >= has_tokens(g.states@[g.initial as int], place)
}

/// The transition finds too few tokens on a resource that somebody holds.
pub open spec fn waits_for_tokens(
    g: StateGraph,
    net: NetView,
    node: usize,
    t: TransitionId,
    place: int,
) -> bool {
    &&& for_resource(net, place)
    &&& has_tokens(g.states@[node as int], place) < net.input(place as usize, t)
    &&& !is_free(g, node, place)
}

/// The transition would put more tokens onto a resource than it has room for.
pub open spec fn waits_for_room(
    g: StateGraph,
    net: NetView,
    node: usize,
    t: TransitionId,
    place: int,
) -> bool {
    let has = has_tokens(g.states@[node as int], place);
    let p = place as usize;
    &&& for_resource(net, place)
    &&& net.output(p, t) > 0
    &&& has >= net.input(p, t)
    &&& match net.places[place].capacity {
        Some(c) => has - net.input(p, t) + net.output(p, t) > c,
        None => has - net.input(p, t) + net.output(p, t) > u64::MAX,
    }
    &&& !is_free(g, node, place)
}

/// The transition cannot fire for want of a resource alone.
pub open spec fn is_blocked_on(
    g: StateGraph,
    net: NetView,
    node: usize,
    t: TransitionId,
    place: int,
) -> bool {
    &&& t < net.transitions.len()
    &&& !g.states@[node as int].fireable@.contains(t)
    &&& thread_waits(g, net, node, t)
    &&& waits_for_tokens(g, net, node, t, place) || waits_for_room(g, net, node, t, place)
}

proof fn control_inputs_listed(net: NetView, t: TransitionId, n: nat)
    requires
        n <= net.places.len() <= usize::MAX,
    ensures
        forall|p: PlaceId| #[trigger]
            control_inputs(net, t, n).contains(p) <==> p < n && for_control(net, p as int, t),
    decreases n,
{
    if n > 0 {
        let m = (n - 1) as nat;
        control_inputs_listed(net, t, m);
        let before = control_inputs(net, t, m);
        let all = control_inputs(net, t, n);
        assert(is_control_input(net, t, n - 1) == for_control(net, n - 1, t));
        assert forall|p: PlaceId| #[trigger] all.contains(p) <==> p < n && for_control(
            net,
            p as int,
            t,
        ) by {
            assert(before.contains(p) <==> p < m && for_control(net, p as int, t));
            pushed_contains(before, m as usize, p);
        }
    }
}

proof fn pushed_contains(s: Seq<usize>, x: usize, p: usize)
    ensures
        s.push(x).contains(p) <==> s.contains(p) || p == x,
{
    if s.contains(p) {
        let i = choose|i: int| 0 <= i < s.len() && s[i] == p;
        assert(s.push(x)[i] == p);
    }
    if s.push(x).contains(p) {
        let i = choose|i: int| 0 <= i < s.push(x).len() && s.push(x)[i] == p;
        if i < s.len() {
            assert(s[i] == p);
        }
    }
    assert(s.push(x)[s.len() as int] == x);
}

proof fn lacking_listed(g: StateGraph, net: NetView, node: usize, t: TransitionId, n: nat)
    requires
        n <= net.places.len() <= usize::MAX,
    ensures
        ({
            let marking = g.states@[node as int].marking@;
            &&& forall|p: PlaceId| #[trigger]
                lacking_tokens(g, net, marking, t, n).contains(p) <==> p < n && waits_for_tokens(
                    g,
                    net,
                    node,
                    t,
                    p as int,
                )
            &&& forall|p: PlaceId| #[trigger]
                lacking_room(g, net, marking, t, n).contains(p) <==> p < n && waits_for_room(
                    g,
                    net,
                    node,
                    t,
                    p as int,
                )
        }),
    decreases n,
{
    if n > 0 {
        let m = (n - 1) as nat;
        let marking = g.states@[node as int].marking@;
        lacking_listed(g, net, node, t, m);
        let a = lacking_tokens(g, net, marking, t, m);
        let b = lacking_room(g, net, marking, t, m);
        assert(lacks_tokens(g, net, marking, t, n - 1) == waits_for_tokens(g, net, node, t, n - 1));
        assert(lacks_room(g, net, marking, t, n - 1) == waits_for_room(g, net, node, t, n - 1));
        assert forall|p: PlaceId| #[trigger] lacking_tokens(g, net, marking, t, n).contains(
            p,
        ) <==> p < n && waits_for_tokens(g, net, node, t, p as int) by {
            assert(a.contains(p) <==> p < m && waits_for_tokens(g, net, node, t, p as int));
            pushed_contains(a, m as usize, p);
        }
        assert forall|p: PlaceId| #[trigger] lacking_room(g, net, marking, t, n).contains(
            p,
        ) <==> p < n && waits_for_room(g, net, node, t, p as int) by {
            assert(b.contains(p) <==> p < m && waits_for_room(g, net, node, t, p as int));
            pushed_contains(b, m as usize, p);
        }
    }
}

proof fn blocked_iff(g: StateGraph, net: NetView, node: usize, t: TransitionId)
    requires
        net.places.len() <= usize::MAX,
        t < net.transitions.len(),
    ensures
        is_resource_blocked(g, net, node, t) <==> exists|p: int| #[trigger]
            is_blocked_on(g, net, node, t, p),
        is_ready(net, g.states@[node as int].marking@, t) <==> thread_waits(g, net, node, t),
{
    let n = net.places.len();
    let marking = g.states@[node as int].marking@;
    let inputs = control_inputs(net, t, n);
    control_inputs_listed(net, t, n);
    lacking_listed(g, net, node, t, n);
    if thread_waits(g, net, node, t) {
        let c = choose|c: int| for_control(net, c, t);
        assert(inputs.contains(c as usize));
        assert(inputs.len() > 0);
        assert forall|i: int| 0 <= i < inputs.len() implies tokens_at(
            marking,
            #[trigger] inputs[i],
        ) >= net.input(inputs[i], t) by {
            assert(inputs.contains(inputs[i]));
            assert(for_control(net, inputs[i] as int, t));
        }
    }
    if is_ready(net, marking, t) {
        assert(inputs.contains(inputs[0]));
        assert(for_control(net, inputs[0] as int, t));
        assert forall|c: int| #[trigger] for_control(net, c, t) implies has_tokens(
            g.states@[node as int],
            c,
        ) >= net.input(c as usize, t) by {
            assert(inputs.contains(c as usize));
            let i = choose|i: int| 0 <= i < inputs.len() && inputs[i] == c as usize;
            assert(tokens_at(marking, inputs[i]) >= net.input(
                inputs[i],
                t,
            ));
        }
    }
    let a = lacking_tokens(g, net, marking, t, n);
    let b = lacking_room(g, net, marking, t, n);
    let all = blocking_resources(g, net, marking, t);
    if is_resource_blocked(g, net, node, t) {
        let p = all[0];
        if a.len() > 0 {
            assert(a.contains(a[0]));
            assert(is_blocked_on(g, net, node, t, a[0] as int));
        } else {
            assert(b.contains(b[0]));
            assert(is_blocked_on(g, net, node, t, b[0] as int));
        }
    }
    if exists|p: int| #[trigger] is_blocked_on(g, net, node, t, p) {
        let p = choose|p: int| #[trigger] is_blocked_on(g, net, node, t, p);
        if waits_for_tokens(g, net, node, t, p) {
            assert(a.contains(p as usize));
            assert(a.len() > 0);
        } else {
            assert(b.contains(p as usize));
            assert(b.len() > 0);
        }
    }
}

proof fn blocked_listed(g: StateGraph, net: NetView, node: usize, n: nat, t: int) -> (k: int)
    requires
        0 <= t < n <= net.transitions.len() <= usize::MAX,
        is_resource_blocked(g, net, node, t as usize),
    ensures
        0 <= k < blocked_among(g, net, node, n).len(),
        blocked_among(g, net, node, n)[k] == blocked_view(g, net, node, t as usize),
    decreases n,
{
    let before = blocked_among(g, net, node, (n - 1) as nat);
    if t == n - 1 {
        before.len() as int
    } else {
        blocked_listed(g, net, node, (n - 1) as nat, t)
    }
}

proof fn listed_blocked(g: StateGraph, net: NetView, node: usize, n: nat, k: int) -> (t: int)
    requires
        n <= net.transitions.len() <= usize::MAX,
        0 <= k < blocked_among(g, net, node, n).len(),
    ensures
        0 <= t < n,
        is_resource_blocked(g, net, node, t as usize),
        blocked_among(g, net, node, n)[k] == blocked_view(g, net, node, t as usize),
    decreases n,
{
    let before = blocked_among(g, net, node, (n - 1) as nat);
    if k < before.len() {
        listed_blocked(g, net, node, (n - 1) as nat, k)
    } else {
        n - 1
    }
}

proof fn statuses_listed(g: StateGraph, net: NetView, node: usize, t: TransitionId, p: int)
    requires
        net.places.len() <= usize::MAX,
    ensures
        ({
            let state = g.states@[node as int];
            let statuses = resource_statuses(g, net, state.marking@, t);
            &&& waits_for_tokens(g, net, node, t, p) ==> statuses.contains(
                ResourceStatusView {
                    resource_name: net.places[p].name,
                    has: has_tokens(state, p) as u64,
                    needs: net.input(p as usize, t),
                },
            )
            &&& waits_for_room(g, net, node, t, p) ==> statuses.contains(
                ResourceStatusView {
                    resource_name: net.places[p].name,
                    has: has_tokens(state, p) as u64,
                    needs: match net.places[p].capacity {
                        Some(c) => c,
                        None => u64::MAX,
                    },
                },
            )
        }),
{
    let n = net.places.len();
    let marking = g.states@[node as int].marking@;
    let statuses = resource_statuses(g, net, marking, t);
    lacking_listed(g, net, node, t, n);
    let a = lacking_tokens(g, net, marking, t, n);
    let b = lacking_room(g, net, marking, t, n);
    if waits_for_tokens(g, net, node, t, p) {
        assert(a.contains(p as usize));
        let i = choose|i: int| 0 <= i < a.len() && a[i] == p as usize;
        assert(statuses[i].resource_name == net.places[p].name);
    }
    if waits_for_room(g, net, node, t, p) {
        assert(b.contains(p as usize));
        let i = choose|i: int| 0 <= i < b.len() && b[i] == p as usize;
        assert(statuses[a.len() + i].resource_name == net.places[p].name);
    }
}

/// Every transition that cannot fire for want of a resource alone is listed,
/// under its number and name, with each resource that it waits for: the tokens
/// that it finds there and those that it needs, or the room that there is.
pub proof fn blocked_transitions_are_listed(
    g: StateGraph,
    net: PtNet,
    node: usize,
    t: TransitionId,
    p: int,
) -> (k: int)
    requires
        g.net == Some(net),
        is_blocked_on(g, net@, node, t, p),
    ensures
        ({
            let state = g.states@[node as int];
            let all = state_view(g, node).blocked_transitions;
            let place = net@.places[p];
            &&& 0 <= k < all.len()
            &&& all[k].id == "t"@ + decimal(t as nat)
            &&& all[k].name == net@.transitions[t as int].name
            &&& all[k].operation == label_of(net@.transitions[t as int].transition_type)
            &&& forall|c: int|
                (#[trigger] for_control(net@, c, t)) && (forall|d: int|
                    0 <= d < c ==> !#[trigger] for_control(net@, d, t)) ==> all[k].location
                    == net@.places[c].span
            &&& all[k].needed_resources.contains(place.name)
            &&& waits_for_tokens(g, net@, node, t, p) ==> all[k].resource_status.contains(
                ResourceStatusView {
                    resource_name: place.name,
                    has: has_tokens(state, p) as u64,
                    needs: net@.input(p as usize, t),
                },
            )
            &&& waits_for_room(g, net@, node, t, p) ==> all[k].resource_status.contains(
                ResourceStatusView {
                    resource_name: place.name,
                    has: has_tokens(state, p) as u64,
                    needs: match place.capacity {
                        Some(c) => c,
                        None => u64::MAX,
                    },
                },
            )
        }),
{
    let view = net@;
    assert(net.places.len() == view.places.len());
    assert(net.transitions.len() == view.transitions.len());
    blocked_iff(g, view, node, t);
    statuses_listed(g, view, node, t, p);
    let marking = g.states@[node as int].marking@;
    let statuses = resource_statuses(g, view, marking, t);
    let names = statuses.map_values(|s: ResourceStatusView| s.resource_name);
    assert(exists|i: int| 0 <= i < statuses.len() && (#[trigger] statuses[i]).resource_name
        == view.places[p].name);
    let i = choose|i: int|
        0 <= i < statuses.len() && (#[trigger] statuses[i]).resource_name == view.places[p].name;
    assert(names[i] == view.places[p].name);
    assert forall|c: int|
        (#[trigger] for_control(view, c, t)) && (forall|d: int|
            0 <= d < c ==> !#[trigger] for_control(view, d, t)) implies blocked_view(
        g,
        view,
        node,
        t,
    ).location == view.places[c].span by {
        first_control_input(view, t, view.places.len(), c);
    }
    blocked_listed(g, view, node, view.transitions.len(), t as int)
}

proof fn first_control_input(net: NetView, t: TransitionId, n: nat, c: int)
    requires
        n <= net.places.len() <= usize::MAX,
        0 <= c < n,
        for_control(net, c, t),
        forall|d: int| 0 <= d < c ==> !#[trigger] for_control(net, d, t),
    ensures
        control_inputs(net, t, n).len() > 0,
        control_inputs(net, t, n)[0] == c,
    decreases n,
{
    let m = (n - 1) as nat;
    assert(is_control_input(net, t, n - 1) == for_control(net, n - 1, t));
    if c < m {
        first_control_input(net, t, m, c);
    } else {
        control_inputs_listed(net, t, m);
        let before = control_inputs(net, t, m);
        if before.len() > 0 {
            assert(before.contains(before[0]));
        }
    }
}

/// The resource trace of a blocked transition is that of the resources that it
/// waits for.
pub proof fn traces_are_of_the_resources_waited_for(
    g: StateGraph,
    net: PtNet,
    node: usize,
    t: TransitionId,
    p: int,
) -> (r: (int, Seq<PlaceId>))
    requires
        g.net == Some(net),
        is_blocked_on(g, net@, node, t, p),
    ensures
        ({
            let all = state_view(g, node).blocked_transitions;
            &&& 0 <= r.0 < all.len()
            &&& all[r.0].id == "t"@ + decimal(t as nat)
            &&& all[r.0].resource_trace == usage_of(g, net@, node, r.1)
            &&& forall|q: PlaceId| #[trigger]
                r.1.contains(q) <==> waits_for_tokens(g, net@, node, t, q as int)
                    || waits_for_room(g, net@, node, t, q as int)
        }),
{
    let view = net@;
    assert(net.places.len() == view.places.len());
    assert(net.transitions.len() == view.transitions.len());
    blocked_iff(g, view, node, t);
    let n = view.places.len();
    let marking = g.states@[node as int].marking@;
    lacking_listed(g, view, node, t, n);
    let a = lacking_tokens(g, view, marking, t, n);
    let b = lacking_room(g, view, marking, t, n);
    let all = blocking_resources(g, view, marking, t);
    assert forall|q: PlaceId| #[trigger] all.contains(q) <==> waits_for_tokens(
        g,
        view,
        node,
        t,
        q as int,
    ) || waits_for_room(g, view, node, t, q as int) by {
        assert(a.contains(q) <==> q < n && waits_for_tokens(g, view, node, t, q as int));
        assert(b.contains(q) <==> q < n && waits_for_room(g, view, node, t, q as int));
        if all.contains(q) {
            let i = choose|i: int| 0 <= i < all.len() && all[i] == q;
            if i < a.len() {
                assert(a[i] == q);
            } else {
                assert(b[i - a.len()] == q);
            }
        }
        if a.contains(q) {
            let i = choose|i: int| 0 <= i < a.len() && a[i] == q;
            assert(all[i] == q);
        }
        if b.contains(q) {
            let i = choose|i: int| 0 <= i < b.len() && b[i] == q;
            assert(all[a.len() + i] == q);
        }
    }
    let k = blocked_listed(g, view, node, view.transitions.len(), t as int);
    (k, all)
}

/// Whatever is listed as blocked is so: a transition of the net that cannot
/// fire, whose thread has come to it, and that waits for a resource.
pub proof fn listed_transitions_are_blocked(g: StateGraph, net: PtNet, node: usize, k: int) -> (r: (
    TransitionId,
    int,
))
    requires
        g.net == Some(net),
        0 <= k < state_view(g, node).blocked_transitions.len(),
    ensures
        is_blocked_on(g, net@, node, r.0, r.1),
        state_view(g, node).blocked_transitions[k].id == "t"@ + decimal(r.0 as nat),
        state_view(g, node).blocked_transitions[k].name == net@.transitions[r.0 as int].name,
{
    let view = net@;
    assert(net.places.len() == view.places.len());
    assert(net.transitions.len() == view.transitions.len());
    let t = listed_blocked(g, view, node, view.transitions.len(), k) as usize;
    blocked_iff(g, view, node, t);
    let p = choose|p: int| #[trigger] is_blocked_on(g, view, node, t, p);
    (t, p)
}

/// The tokens as a report shows them: a byte is full at 255.
pub open spec fn shown(tokens: u64) -> u8 {
    if tokens < 255 {
        tokens as u8
    } else {
        255
    }
}

/// Every marked place of a reported state is shown with its tokens, in order,
/// and no other.
pub proof fn marked_places_are_shown(state: StateNode, n: nat, p: int) -> (k: int)
    requires
        0 <= p < n <= state.marking@.len(),
        state.marking@[p] > 0,
    ensures
        0 <= k < marked(state, n).len(),
        marked(state, n)[k].0 == place_text(state, p as usize),
        marked(state, n)[k].1 == shown(state.marking@[p]),
    decreases n,
{
    let before = marked(state, (n - 1) as nat);
    if p == n - 1 {
        before.len() as int
    } else {
        marked_places_are_shown(state, (n - 1) as nat, p)
    }
}

/// What is shown of the marking is a marked place.
pub proof fn shown_places_are_marked(state: StateNode, n: nat, k: int) -> (p: int)
    requires
        n <= state.marking@.len(),
        0 <= k < marked(state, n).len(),
    ensures
        0 <= p < n,
        state.marking@[p] > 0,
        marked(state, n)[k].0 == place_text(state, p as usize),
        marked(state, n)[k].1 == shown(state.marking@[p]),
    decreases n,
{
    let before = marked(state, (n - 1) as nat);
    if k < before.len() {
        shown_places_are_marked(state, (n - 1) as nat, k)
    } else {
        n - 1
    }
}

/// A place is named by the first summary of it in the state, with its span, and
/// by its number where there is none.
pub proof fn places_are_named(state: StateNode, place: PlaceId, i: int)
    requires
        forall|j: int| 0 <= j < i ==> (#[trigger] state.places@[j]).place != place,
        0 <= i <= state.places@.len(),
    ensures
        i < state.places@.len() && state.places@[i].place == place ==> place_text(state, place)
            == state.places@[i].name@ + " ("@ + state.places@[i].span@ + ")"@,
        i == state.places@.len() ==> place_text(state, place) == "place#"@ + decimal(place as nat),
{
    summary_found(state.places@, place, 0, i as nat);
}

proof fn summary_found(places: Seq<PlaceSummary>, place: PlaceId, from: nat, i: nat)
    requires
        from <= i <= places.len(),
        forall|j: int| from <= j < i ==> (#[trigger] places[j]).place != place,
    ensures
        i < places.len() && places[i as int].place == place ==> summary_from(places, place, from)
            == Some(places[i as int]),
        i == places.len() ==> summary_from(places, place, from) is None,
    decreases i - from,
{
    if from < i {
        assert(places[from as int].place != place);
        summary_found(places, place, from + 1, i);
    }
}

/// A reported state goes by its number, and so does the way into it, which ends
/// there.
pub proof fn reported_states_are_named(g: StateGraph, node: usize)
    ensures
        ({
            let state = g.states@[node as int];
            &&& state_view(g, node).state_id == "s"@ + decimal(state.index as nat)
            &&& state_view(g, node).marking == marked(state, state.marking@.len())
            &&& trace_view(g, node).final_state == Some(state_view(g, node))
            &&& g.net is None ==> state_view(g, node).blocked_transitions.len() == 0
        }),
{
}

/// A transition stands where the first of its control inputs with a span does.
pub proof fn transitions_stand_where_their_thread_does(
    g: StateGraph,
    net: PtNet,
    t: TransitionId,
    c: int,
)
    requires
        g.net == Some(net),
        for_control(net@, c, t),
        net@.places[c].span.len() > 0,
        forall|d: int|
            0 <= d < c && #[trigger] for_control(net@, d, t) ==> net@.places[d].span.len() == 0,
    ensures
        location_of(g, t) == net@.places[c].span,
{
    location_found(net@, t, 0, c as nat);
}

proof fn location_found(net: NetView, t: TransitionId, n: nat, c: nat)
    requires
        n <= c < net.places.len(),
        for_control(net, c as int, t),
        net.places[c as int].span.len() > 0,
        forall|d: int|
            n <= d < c && #[trigger] for_control(net, d, t) ==> net.places[d].span.len() == 0,
    ensures
        location_from(net, t, n) == net.places[c as int].span,
    decreases c - n,
{
    assert(is_control_input(net, t, n as int) == for_control(net, n as int, t));
    if n < c {
        location_found(net, t, n + 1, c);
    }
}

/// Locks, raw-pointer accesses and atomics are named for what they do, and
/// everything else is an operation on a resource.
pub proof fn operations_are_named(t: TransitionTypeView)
    ensures
        t is Lock ==> label_of(t) == "Lock acquisition"@,
        t is RwLockRead ==> label_of(t) == "RwLock read lock"@,
        t is RwLockWrite ==> label_of(t) == "RwLock write lock"@,
        t is UnsafeRead ==> label_of(t) == "Unsafe read"@,
        t is UnsafeWrite ==> label_of(t) == "Unsafe write"@,
        t is UnsafeAccess ==> label_of(t) == "Unsafe access"@,
        t is AtomicLoad ==> label_of(t) == "Atomic load"@,
        t is AtomicStore ==> label_of(t) == "Atomic store"@,
        t is AtomicCmpXchg ==> label_of(t) == "Atomic compare-exchange"@,
        !(t is Lock || t is RwLockRead || t is RwLockWrite || t is UnsafeRead || t is UnsafeWrite
            || t is UnsafeAccess || t is AtomicLoad || t is AtomicStore || t is AtomicCmpXchg)
            ==> label_of(t) == "Resource operation"@,
{
}

/// A transition of which no control input has a span stands nowhere.
pub proof fn transitions_without_spans_stand_nowhere(g: StateGraph, net: PtNet, t: TransitionId)
    requires
        g.net == Some(net),
        forall|d: int| #[trigger] for_control(net@, d, t) ==> net@.places[d].span.len() == 0,
    ensures
        location_of(g, t).len() == 0,
{
    location_missing(net@, t, 0);
}

proof fn location_missing(net: NetView, t: TransitionId, n: nat)
    requires
        forall|d: int| #[trigger] for_control(net, d, t) ==> net.places[d].span.len() == 0,
    ensures
        location_from(net, t, n).len() == 0,
    decreases net.places.len() - n,
{
    if n < net.places.len() {
        assert(is_control_input(net, t, n as int) == for_control(net, n as int, t));
        location_missing(net, t, n + 1);
    }
}

/// A detector reports the deadlocks among all states of its graph.
pub proof fn detectors_report_all_deadlocks<'a>(d: DeadlockDetector<'a>)
    ensures
        d.found() == deadlocks(*d.state_graph, d.state_graph.states@.len()),
{
}

} // verus!

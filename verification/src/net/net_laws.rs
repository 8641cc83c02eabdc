//! What building a net promises.

use super::state_graph::{parts_fit, StateEdge};
use super::structure::{
    total_weight, Arc, ArcDir, NetView, PlaceId, PlaceView, TransitionId, TransitionTypeView,
};
use vstd::prelude::*;

verus! {

/// Arcs between a place and a transition add up, each way for itself, and leave
/// all other weights as they are.
pub proof fn arcs_add_up(
    net: NetView,
    place: PlaceId,
    t: TransitionId,
    weight: u64,
    p: PlaceId,
    s: TransitionId,
)
    ensures
        ({
            let here = p == place && s == t;
            let input = net.with_input(place, t, weight);
            let output = net.with_output(place, t, weight);
            &&& net.input(p, s) + weight <= u64::MAX ==> input.input(p, s) == net.input(p, s) + (
            if here {
                weight as int
            } else {
                0int
            })
            &&& net.output(p, s) + weight <= u64::MAX ==> output.output(p, s) == net.output(p, s)
                + (if here {
                weight as int
            } else {
                0int
            })
            &&& input.input(p, s) >= net.input(p, s)
            &&& output.output(p, s) >= net.output(p, s)
            &&& input.output(p, s) == net.output(p, s)
            &&& output.input(p, s) == net.input(p, s)
        }),
{
    let input = net.with_input(place, t, weight);
    let output = net.with_output(place, t, weight);
    assert(input.arcs.drop_last() =~= net.arcs);
    assert(output.arcs.drop_last() =~= net.arcs);
}

/// Without arcs no tokens are taken and none are given.
pub proof fn no_arcs_no_tokens(net: NetView, p: PlaceId, t: TransitionId)
    requires
        forall|i: int|
            0 <= i < net.arcs.len() ==> (#[trigger] net.arcs[i]).place != p
                || net.arcs[i].transition != t,
    ensures
        net.input(p, t) == 0,
        net.output(p, t) == 0,
{
    no_weight_between(net.arcs, p, t, ArcDir::Input);
    no_weight_between(net.arcs, p, t, ArcDir::Output);
}

proof fn no_weight_between(arcs: Seq<Arc>, p: PlaceId, t: TransitionId, direction: ArcDir)
    requires
        forall|i: int|
            0 <= i < arcs.len() ==> (#[trigger] arcs[i]).place != p || arcs[i].transition != t,
    ensures
        total_weight(arcs, p, t, direction) == 0,
    decreases arcs.len(),
{
    if arcs.len() > 0 {
        let front = arcs.drop_last();
        assert forall|i: int| 0 <= i < front.len() implies (#[trigger] front[i]).place != p
            || front[i].transition != t by {
            assert(front[i] == arcs[i]);
        }
        assert(arcs[arcs.len() - 1] == arcs.last());
        no_weight_between(front, p, t, direction);
    }
}

/// What is added to a net comes last, and what is there stays.
pub proof fn nets_grow(
    net: NetView,
    place: PlaceView,
    name: Seq<char>,
    transition_type: TransitionTypeView,
)
    ensures
        net.with_place(place).places.last() == place,
        net.with_place(place).places.drop_last() == net.places,
        net.with_place(place).transitions == net.transitions,
        net.with_place(place).arcs == net.arcs,
        net.with_transition(name, transition_type).transitions.last().name == name,
        net.with_transition(name, transition_type).transitions.last().transition_type
            == transition_type,
        net.with_transition(name, transition_type).transitions.drop_last() == net.transitions,
        net.with_transition(name, transition_type).places == net.places,
        net.with_transition(name, transition_type).arcs == net.arcs,
{
    assert(net.with_place(place).places.drop_last() =~= net.places);
    assert(net.with_transition(name, transition_type).transitions.drop_last() =~= net.transitions);
}

/// Replacing the type of a transition leaves its name and everything else as it
/// is.
pub proof fn types_are_replaced(
    net: NetView,
    t: TransitionId,
    transition_type: TransitionTypeView,
    i: int,
)
    requires
        t < net.transitions.len(),
        0 <= i < net.transitions.len(),
    ensures
        ({
            let after = net.with_transition_type(t, transition_type);
            &&& after.transitions.len() == net.transitions.len()
            &&& after.transitions[t as int].transition_type == transition_type
            &&& after.transitions[t as int].name == net.transitions[t as int].name
            &&& i != t ==> after.transitions[i] == net.transitions[i]
            &&& after.places == net.places
            &&& after.arcs == net.arcs
        }),
{
}

/// A graph is made of states and edges just where it has the initial state and
/// both states of every edge.
pub proof fn graphs_hold_the_states_of_their_edges(
    count: nat,
    edges: Seq<StateEdge>,
    initial: usize,
    i: int,
)
    ensures
        parts_fit(count, edges, initial) && 0 <= i < edges.len() ==> edges[i].source < count
            && edges[i].target < count,
        parts_fit(count, edges, initial) ==> initial < count,
        initial < count && (forall|k: int|
            0 <= k < edges.len() ==> (#[trigger] edges[k]).source < count && edges[k].target
                < count) ==> parts_fit(count, edges, initial),
{
}

} // verus!

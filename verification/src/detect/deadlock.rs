//! Deadlocks: states that nothing leads out of and that are no normal exit,
//! or, where there are none, cyclic waits.

use super::lock_cycles::{
    cycle_deadlocks, cyclic_waits_are_real, detect_cycle_deadlocks, has_number, waits_forever,
};
use super::shortest_path::{as_walk, find_path, path_leads_to_its_target, path_to};
use crate::net::state_graph::{
    tokens_at, tokens_of, PlaceChange, PlaceSummary, StateEdge, StateGraph, StateNode,
};
use crate::net::structure::{
    NetView, PlaceId, PlaceType, PtNet, TransitionId, TransitionType, TransitionTypeView,
};
use crate::report::{
    blocked_views, marking_views, state_views, status_views, step_views, trace_views,
    BlockedTransition, BlockedView, DeadlockReport, DeadlockState, DeadlockStateView,
    DeadlockTrace, DeadlockTraceView, ResourceStatus, ResourceStatusView, ResourceTraceStep,
    StateSpaceInfo, TraceStepView,
};
use crate::text::{contains, contains_text, decimal, index_text, texts};
use vstd::prelude::*;

verus! {

/// What an operation is called in reports.
pub open spec fn label_of(transition_type: TransitionTypeView) -> Seq<char> {
    match transition_type {
        TransitionTypeView::Lock(_) => "Lock acquisition"@,
        TransitionTypeView::RwLockRead(_) => "RwLock read lock"@,
        TransitionTypeView::RwLockWrite(_) => "RwLock write lock"@,
        TransitionTypeView::UnsafeRead(_, _, _, _) => "Unsafe read"@,
        TransitionTypeView::UnsafeWrite(_, _, _, _) => "Unsafe write"@,
        TransitionTypeView::UnsafeAccess(_) => "Unsafe access"@,
        TransitionTypeView::AtomicLoad(_, _, _, _) => "Atomic load"@,
        TransitionTypeView::AtomicStore(_, _, _, _) => "Atomic store"@,
        TransitionTypeView::AtomicCmpXchg(_, _, _, _, _) => "Atomic compare-exchange"@,
        _ => "Resource operation"@,
    }
}

/// What an operation is called in reports.
pub fn operation_label(transition_type: &TransitionType) -> (r: &'static str)
    ensures
        r@ == label_of(transition_type@),
{
    match transition_type {
        TransitionType::Lock(_) => "Lock acquisition",
        TransitionType::RwLockRead(_) => "RwLock read lock",
        TransitionType::RwLockWrite(_) => "RwLock write lock",
        TransitionType::UnsafeRead(_, _, _, _) => "Unsafe read",
        TransitionType::UnsafeWrite(_, _, _, _) => "Unsafe write",
        TransitionType::UnsafeAccess(_) => "Unsafe access",
        TransitionType::AtomicLoad(_, _, _, _) => "Atomic load",
        TransitionType::AtomicStore(_, _, _, _) => "Atomic store",
        TransitionType::AtomicCmpXchg(_, _, _, _, _) => "Atomic compare-exchange",
        _ => "Resource operation",
    }
}

/// The place stands for a resource.
pub open spec fn is_resource(net: NetView, place: int) -> bool {
    net.places[place].place_type == PlaceType::Resources
}

/// The transition takes tokens from the place, which stands for the control
/// flow.
pub open spec fn is_control_input(net: NetView, transition: TransitionId, place: int) -> bool {
    !is_resource(net, place) && net.input(place as usize, transition) > 0
}

/// The control inputs of a transition among the first `n` places.
pub open spec fn control_inputs(net: NetView, transition: TransitionId, n: nat) -> Seq<PlaceId>
    decreases n,
{
    if n == 0 {
        Seq::empty()
    } else {
        let before = control_inputs(net, transition, (n - 1) as nat);
        if is_control_input(net, transition, n - 1) {
            before.push((n - 1) as usize)
        } else {
            before
        }
    }
}

/// The span of the first control input, from place `n` on, that has one.
pub open spec fn location_from(net: NetView, transition: TransitionId, n: nat) -> Seq<char>
    decreases net.places.len() - n,
{
    if n >= net.places.len() {
        Seq::empty()
    } else if is_control_input(net, transition, n as int) && net.places[n as int].span.len() > 0 {
        net.places[n as int].span
    } else {
        location_from(net, transition, n + 1)
    }
}

/// Where a transition stands in the program.
pub open spec fn location_of(g: StateGraph, transition: TransitionId) -> Seq<char> {
    match g.net {
        Some(net) => location_from(net@, transition, 0),
        None => Seq::empty(),
    }
}

/// The tokens at the start.
pub open spec fn initial_tokens(g: StateGraph, place: PlaceId) -> u64 {
    tokens_at(g.states@[g.initial as int].marking@, place)
}

/// The resource has tokens, and no fewer than at the start.
pub open spec fn is_full(g: StateGraph, marking: Seq<u64>, place: PlaceId) -> bool {
    tokens_at(marking, place) > 0 && tokens_at(marking, place) >= initial_tokens(g, place)
}

/// The transition finds too few tokens on the resource.
pub open spec fn lacks_tokens(
    g: StateGraph,
    net: NetView,
    marking: Seq<u64>,
    transition: TransitionId,
    place: int,
) -> bool {
    let p = place as usize;
    &&& is_resource(net, place)
    &&& tokens_at(marking, p) < net.input(p, transition)
    &&& !is_full(g, marking, p)
}

/// The most tokens that the place can hold.
pub open spec fn capacity_of(net: NetView, place: int) -> u64 {
    match net.places[place].capacity {
        Some(c) => c,
        None => u64::MAX,
    }
}

/// The transition would put more tokens onto the resource than it can hold.
pub open spec fn lacks_room(
    g: StateGraph,
    net: NetView,
    marking: Seq<u64>,
    transition: TransitionId,
    place: int,
) -> bool {
    let p = place as usize;
    let has = tokens_at(marking, p);
    let input = net.input(p, transition);
    let output = net.output(p, transition);
    &&& is_resource(net, place)
    &&& output > 0
    &&& has >= input
    &&& has - input + output > capacity_of(net, place)
    &&& !is_full(g, marking, p)
}

/// The resources among the first `n` places with too few tokens.
pub open spec fn lacking_tokens(
    g: StateGraph,
    net: NetView,
    marking: Seq<u64>,
    transition: TransitionId,
    n: nat,
) -> Seq<PlaceId>
    decreases n,
{
    if n == 0 {
        Seq::empty()
    } else {
        let before = lacking_tokens(g, net, marking, transition, (n - 1) as nat);
        if lacks_tokens(g, net, marking, transition, n - 1) {
            before.push((n - 1) as usize)
        } else {
            before
        }
    }
}

/// The resources among the first `n` places with too little room.
pub open spec fn lacking_room(
    g: StateGraph,
    net: NetView,
    marking: Seq<u64>,
    transition: TransitionId,
    n: nat,
) -> Seq<PlaceId>
    decreases n,
{
    if n == 0 {
        Seq::empty()
    } else {
        let before = lacking_room(g, net, marking, transition, (n - 1) as nat);
        if lacks_room(g, net, marking, transition, n - 1) {
            before.push((n - 1) as usize)
        } else {
            before
        }
    }
}

/// The thread of the transition is ready: it has control inputs, and each has
/// the tokens that the transition takes.
pub open spec fn is_ready(net: NetView, marking: Seq<u64>, transition: TransitionId) -> bool {
    let inputs = control_inputs(net, transition, net.places.len());
    &&& inputs.len() > 0
    &&& forall|i: int|
        0 <= i < inputs.len() ==> tokens_at(marking, #[trigger] inputs[i]) >= net.input(
            inputs[i],
            transition,
        )
}

/// The resources that keep a transition from firing.
pub open spec fn blocking_resources(
    g: StateGraph,
    net: NetView,
    marking: Seq<u64>,
    transition: TransitionId,
) -> Seq<PlaceId> {
    lacking_tokens(g, net, marking, transition, net.places.len()) + lacking_room(
        g,
        net,
        marking,
        transition,
        net.places.len(),
    )
}

/// What a report says of the resources that keep a transition from firing.
pub open spec fn resource_statuses(
    g: StateGraph,
    net: NetView,
    marking: Seq<u64>,
    transition: TransitionId,
) -> Seq<ResourceStatusView> {
    lacking_tokens(g, net, marking, transition, net.places.len()).map_values(
        |p: PlaceId|
            ResourceStatusView {
                resource_name: net.places[p as int].name,
                has: tokens_at(marking, p),
                needs: net.input(p, transition),
            },
    ) + lacking_room(g, net, marking, transition, net.places.len()).map_values(
        |p: PlaceId|
            ResourceStatusView {
                resource_name: net.places[p as int].name,
                has: tokens_at(marking, p),
                needs: capacity_of(net, p as int),
            },
    )
}

/// The places from which tokens are missing, each once, and how many.
pub open spec fn deficits(
    g: StateGraph,
    marking: Seq<u64>,
    resources: Seq<PlaceId>,
) -> Seq<(PlaceId, u64)>
    decreases resources.len(),
{
    if resources.len() == 0 {
        Seq::empty()
    } else {
        let before = deficits(g, marking, resources.drop_last());
        let p = resources.last();
        if initial_tokens(g, p) > tokens_at(marking, p) && !is_missing(before, p) {
            before.push((p, (initial_tokens(g, p) - tokens_at(marking, p)) as u64))
        } else {
            before
        }
    }
}

/// Tokens are missing from the place.
pub open spec fn is_missing(missing: Seq<(PlaceId, u64)>, place: PlaceId) -> bool {
    exists|i: int| 0 <= i < missing.len() && (#[trigger] missing[i]).0 == place
}

/// What is missing once `tokens` of the place are accounted for.
pub open spec fn accounted(
    missing: Seq<(PlaceId, u64)>,
    place: PlaceId,
    tokens: u64,
) -> Seq<(PlaceId, u64)>
    decreases missing.len(),
{
    if missing.len() == 0 {
        missing
    } else if missing[0].0 == place {
        if missing[0].1 <= tokens {
            missing.drop_first()
        } else {
            seq![(place, (missing[0].1 - tokens) as u64)] + missing.drop_first()
        }
    } else {
        seq![missing[0]] + accounted(missing.drop_first(), place, tokens)
    }
}

/// The name of a state in reports.
pub open spec fn state_name(g: StateGraph, node: usize) -> Seq<char> {
    "s"@ + decimal(g.states@[node as int].index as nat)
}

/// What is missing, and the steps that took it.
#[verifier::ext_equal]
pub struct Usage {
    pub missing: Seq<(PlaceId, u64)>,
    pub steps: Seq<TraceStepView>,
}

/// The step of a report for one change of an edge.
pub open spec fn usage_step(
    g: StateGraph,
    net: NetView,
    edge: StateEdge,
    change: PlaceChange,
) -> TraceStepView {
    TraceStepView {
        resource_name: net.places[change.place as int].name,
        transition_name: edge.name@,
        operation: label_of(edge.transition_type@),
        location: location_of(g, edge.transition),
        from_state: state_name(g, edge.source),
        to_state: state_name(g, edge.target),
        before: change.before,
        after: change.after,
    }
}

/// The usage after the changes of an edge: one that takes tokens of which some
/// are missing is a step, and accounts for what it took.
pub open spec fn usage_after(
    g: StateGraph,
    net: NetView,
    edge: StateEdge,
    changes: Seq<PlaceChange>,
    u: Usage,
) -> Usage
    decreases changes.len(),
{
    if changes.len() == 0 {
        u
    } else {
        let before = usage_after(g, net, edge, changes.drop_last(), u);
        let c = changes.last();
        if c.delta >= 0 || !is_missing(before.missing, c.place) {
            before
        } else {
            Usage {
                missing: accounted(
                    before.missing,
                    c.place,
                    if c.before > c.after {
                        (c.before - c.after) as u64
                    } else {
                        0
                    },
                ),
                steps: before.steps.push(usage_step(g, net, edge, c)),
            }
        }
    }
}

/// The usage after the edges of a path, the last one first.
pub open spec fn usage_along(g: StateGraph, net: NetView, path: Seq<usize>, u: Usage) -> Usage
    decreases path.len(),
{
    if path.len() == 0 {
        u
    } else {
        let edge = g.edges@[path.last() as int];
        usage_along(g, net, path.drop_last(), usage_after(g, net, edge, edge.changes@, u))
    }
}

/// The steps of a shortest path to the state that took what is missing from
/// the resources.
pub open spec fn usage_of(
    g: StateGraph,
    net: NetView,
    node: usize,
    resources: Seq<PlaceId>,
) -> Seq<TraceStepView> {
    let missing = deficits(g, g.states@[node as int].marking@, resources);
    usage_along(g, net, path_to(g, node), Usage { missing, steps: Seq::empty() }).steps
}

/// The transition is kept from firing by resources alone.
pub open spec fn is_resource_blocked(
    g: StateGraph,
    net: NetView,
    node: usize,
    transition: TransitionId,
) -> bool {
    let state = g.states@[node as int];
    &&& !state.fireable@.contains(transition)
    &&& is_ready(net, state.marking@, transition)
    &&& blocking_resources(g, net, state.marking@, transition).len() > 0
}

/// What a report says of a blocked transition.
pub open spec fn blocked_view(
    g: StateGraph,
    net: NetView,
    node: usize,
    transition: TransitionId,
) -> BlockedView {
    let marking = g.states@[node as int].marking@;
    let statuses = resource_statuses(g, net, marking, transition);
    BlockedView {
        id: "t"@ + decimal(transition as nat),
        name: net.transitions[transition as int].name,
        location: net.places[control_inputs(net, transition, net.places.len())[0] as int].span,
        operation: label_of(net.transitions[transition as int].transition_type),
        needed_resources: statuses.map_values(|s: ResourceStatusView| s.resource_name),
        resource_status: statuses,
        resource_trace: usage_of(g, net, node, blocking_resources(g, net, marking, transition)),
    }
}

/// What a report says of the blocked transitions among the first `n`.
pub open spec fn blocked_among(
    g: StateGraph,
    net: NetView,
    node: usize,
    n: nat,
) -> Seq<BlockedView>
    decreases n,
{
    if n == 0 {
        Seq::empty()
    } else {
        let before = blocked_among(g, net, node, (n - 1) as nat);
        if is_resource_blocked(g, net, node, (n - 1) as usize) {
            before.push(blocked_view(g, net, node, (n - 1) as usize))
        } else {
            before
        }
    }
}

/// What a report says of the blocked transitions at a state.
pub open spec fn blocked_of(g: StateGraph, node: usize) -> Seq<BlockedView> {
    match g.net {
        Some(net) => blocked_among(g, net@, node, net@.transitions.len()),
        None => Seq::empty(),
    }
}

/// The first place summary, from `n` on, of a place.
pub open spec fn summary_from(places: Seq<PlaceSummary>, place: PlaceId, n: nat) -> Option<
    PlaceSummary,
>
    decreases places.len() - n,
{
    if n >= places.len() {
        None
    } else if places[n as int].place == place {
        Some(places[n as int])
    } else {
        summary_from(places, place, n + 1)
    }
}

/// How a report names a place.
pub open spec fn place_text(state: StateNode, place: PlaceId) -> Seq<char> {
    match summary_from(state.places@, place, 0) {
        Some(s) => s.name@ + " ("@ + s.span@ + ")"@,
        None => "place#"@ + decimal(place as nat),
    }
}

/// How a report counts tokens.
pub open spec fn shown_tokens(tokens: u64) -> u8 {
    if tokens > 255 {
        255
    } else {
        tokens as u8
    }
}

/// The marked places among the first `n`, with their tokens.
pub open spec fn marked(state: StateNode, n: nat) -> Seq<(Seq<char>, u8)>
    decreases n,
{
    if n == 0 {
        Seq::empty()
    } else {
        let before = marked(state, (n - 1) as nat);
        let tokens = state.marking@[n - 1];
        if tokens == 0 {
            before
        } else {
            before.push((place_text(state, (n - 1) as usize), shown_tokens(tokens)))
        }
    }
}

/// What a report says of a deadlock state.
pub open spec fn state_view(g: StateGraph, node: usize) -> DeadlockStateView {
    let state = g.states@[node as int];
    DeadlockStateView {
        state_id: state_name(g, node),
        marking: marked(state, state.marking@.len()),
        description: "Deadlock state with blocked resources"@,
        blocked_transitions: blocked_of(g, node),
    }
}

/// What a report says of the way into a deadlock.
pub open spec fn trace_view(g: StateGraph, node: usize) -> DeadlockTraceView {
    DeadlockTraceView {
        steps: seq!["Path reconstruction not implemented yet"@],
        final_state: Some(state_view(g, node)),
    }
}

/// The program has come to its end.
pub open spec fn is_normal_exit(state: StateNode) -> bool {
    exists|i: int|
        0 <= i < state.places@.len() && (#[trigger] state.places@[i]).tokens > 0 && contains_text(
            state.places@[i].name@,
            "main_end"@,
        )
}

/// No edge leaves the state.
pub open spec fn is_terminal(g: StateGraph, node: usize) -> bool {
    forall|e: int| 0 <= e < g.edges@.len() ==> (#[trigger] g.edges@[e]).source != node
}

/// The state is stuck: no edge leaves it, and it is no normal exit.
pub open spec fn is_stuck(g: StateGraph, node: usize) -> bool {
    is_terminal(g, node) && !is_normal_exit(g.states@[node as int])
}

/// Some state is stuck.
pub open spec fn some_stuck(g: StateGraph) -> bool {
    exists|i: usize| i < g.states@.len() && #[trigger] is_stuck(g, i)
}

/// The deadlocks: the stuck states, or, where there are none, the states of
/// cyclic waits.
pub open spec fn is_deadlock(g: StateGraph, node: usize) -> bool {
    if some_stuck(g) {
        is_stuck(g, node)
    } else {
        cycle_deadlocks(g).contains(node)
    }
}

/// The deadlocks among the first `n` states, in ascending order.
pub open spec fn deadlocks(g: StateGraph, n: nat) -> Seq<usize>
    decreases n,
{
    if n == 0 {
        Seq::empty()
    } else {
        let before = deadlocks(g, (n - 1) as nat);
        if is_deadlock(g, (n - 1) as usize) {
            before.push((n - 1) as usize)
        } else {
            before
        }
    }
}

/// The deadlocks are those states of the graph that are deadlocks, once each.
pub proof fn deadlocks_listed(g: StateGraph, n: nat)
    requires
        n <= g.states@.len(),
    ensures
        deadlocks(g, n).no_duplicates(),
        deadlocks(g, n).len() <= n,
        forall|x: usize| #[trigger] deadlocks(g, n).contains(x) <==> x < n && is_deadlock(g, x),
    decreases n,
{
    assert(g.states.len() == g.states@.len());
    if n > 0 {
        let m = (n - 1) as nat;
        let before = deadlocks(g, m);
        let all = deadlocks(g, n);
        deadlocks_listed(g, m);
        if is_deadlock(g, m as usize) {
            assert(all[before.len() as int] == m);
            assert forall|a: int, b: int|
                0 <= a < all.len() && 0 <= b < all.len() && a != b implies all[a] != all[b] by {
                if a < before.len() && b < before.len() {
                    assert(before[a] != before[b]);
                } else if a < before.len() {
                    assert(before.contains(before[a]));
                } else {
                    assert(before.contains(before[b]));
                }
            }
        }
        assert forall|x: usize| #[trigger] all.contains(x) <==> x < n && is_deadlock(g, x) by {
            if all.contains(x) {
                let i = choose|i: int| 0 <= i < all.len() && all[i] == x;
                if i < before.len() {
                    assert(before[i] == x);
                    assert(before.contains(x));
                }
            }
            if x < m && is_deadlock(g, x) {
                assert(before.contains(x));
                let i = choose|i: int| 0 <= i < before.len() && before[i] == x;
                assert(all[i] == x);
            }
        }
    }
}

/// The deadlock detector.
pub struct DeadlockDetector<'a> {
    pub state_graph: &'a StateGraph,
}

impl<'a> DeadlockDetector<'a> {
    /// A detector for the state graph.
    pub fn new(state_graph: &'a StateGraph) -> (r: Self)
        ensures
            r.state_graph == state_graph,
    {
        DeadlockDetector { state_graph }
    }

    /// The tokens at the start.
    fn initial_marking(&self) -> (r: &Vec<u64>)
        requires
            self.state_graph.wf(),
        ensures
            r@ == self.state_graph.states@[self.state_graph.initial as int].marking@,
    {
        &self.state_graph.states[self.state_graph.initial].marking
    }

    /// Whether the program has come to its end.
    fn has_ended(state: &StateNode) -> (b: bool)
        ensures
            b == is_normal_exit(*state),
    {
        let mut i: usize = 0;
        while i < state.places.len()
            invariant
                i <= state.places@.len(),
                forall|j: int|
                    0 <= j < i ==> !((#[trigger] state.places@[j]).tokens > 0 && contains_text(
                        state.places@[j].name@,
                        "main_end"@,
                    )),
            decreases state.places@.len() - i,
        {
            let place = &state.places[i];
            if place.tokens > 0 && contains(place.name.as_str(), "main_end") {
                assert(state.places@[i as int].tokens > 0);
                return true;
            }
            i = i + 1;
        }
        false
    }

    /// Whether a state is stuck.
    fn stuck(&self, node: usize) -> (b: bool)
        requires
            self.state_graph.wf(),
            node < self.state_graph.states@.len(),
        ensures
            b == is_stuck(*self.state_graph, node),
    {
        let along = self.state_graph.edges_of(node);
        let terminal = along.len() == 0;
        proof {
            let g = *self.state_graph;
            if along@.len() > 0 {
                assert(g.edges@[along@[0].1 as int].source == node);
                assert(!is_terminal(g, node));
            } else {
                assert forall|e: int| 0 <= e < g.edges@.len() implies (
                #[trigger] g.edges@[e]).source != node by {
                    if g.edges@[e].source == node {
                        assert(along@.contains((g.edges@[e].target, e as usize)));
                    }
                }
            }
        }
        terminal && !Self::has_ended(&self.state_graph.states[node])
    }

    /// Whether some state is stuck. Where none is, the deadlocks are those of
    /// cyclic waits.
    pub fn has_stuck_state(&self) -> (b: bool)
        requires
            self.state_graph.wf(),
        ensures
            b == some_stuck(*self.state_graph),
    {
        let n: usize = self.state_graph.node_count();
        let mut i: usize = 0;
        while i < n
            invariant
                self.state_graph.wf(),
                n == self.state_graph.states@.len(),
                i <= n,
                forall|j: usize| j < i ==> !#[trigger] is_stuck(*self.state_graph, j),
            decreases n - i,
        {
            if self.stuck(i) {
                return true;
            }
            i = i + 1;
        }
        false
    }

    /// The deadlocks, in ascending order.
    fn detect_reachability_deadlock(&self) -> (r: Vec<usize>)
        requires
            self.state_graph.wf(),
        ensures
            r@ == deadlocks(*self.state_graph, self.state_graph.states@.len()),
    {
        let n: usize = self.state_graph.node_count();
        let ghost g = *self.state_graph;
        let mut found: Vec<usize> = Vec::new();
        let mut i: usize = 0;
        if self.has_stuck_state() {
            while i < n
                invariant
                    self.state_graph.wf(),
                    g == *self.state_graph,
                    n == g.states@.len(),
                    i <= n,
                    some_stuck(g),
                    found@ == deadlocks(g, i as nat),
                decreases n - i,
            {
                if self.stuck(i) {
                    found.push(i);
                }
                i = i + 1;
            }
        } else {
            let cyclic = detect_cycle_deadlocks(self.state_graph);
            while i < n
                invariant
                    n == g.states@.len(),
                    i <= n,
                    !some_stuck(g),
                    cyclic@.to_set() == cycle_deadlocks(g),
                    found@ == deadlocks(g, i as nat),
                decreases n - i,
            {
                proof {
                    assert(cyclic@.to_set().contains(i) == cyclic@.contains(i));
                }
                if has_number(&cyclic, i) {
                    found.push(i);
                }
                i = i + 1;
            }
        }
        found
    }

    /// Where a transition stands in the program.
    fn transition_location(&self, transition: TransitionId) -> (r: String)
        ensures
            r@ == location_of(*self.state_graph, transition),
    {
        proof {
            reveal_strlit("");
            assert(""@ =~= Seq::<char>::empty());
        }
        match &self.state_graph.net {
            Some(net) => {
                let ghost view = net@;
                let mut i: usize = 0;
                while i < net.places.len()
                    invariant
                        i <= net.places@.len(),
                        view == net@,
                        location_from(view, transition, 0) == location_from(
                            view,
                            transition,
                            i as nat,
                        ),
                        self.state_graph.net == Some(*net),
                    decreases net.places@.len() - i,
                {
                    let place = &net.places[i];
                    proof {
                        assert(view.places[i as int] == place@);
                    }
                    if place.place_type != PlaceType::Resources && net.input_weight(i, transition)
                        > 0 && !place.span.as_str().is_empty() {
                        return place.span.clone();
                    }
                    i = i + 1;
                }
                "".to_owned()
            },
            None => "".to_owned(),
        }
    }

    /// The edges of a shortest path from the initial state.
    fn path_to_state(&self, target: usize) -> (r: Vec<usize>)
        requires
            self.state_graph.wf(),
        ensures
            r@ == path_to(*self.state_graph, target),
    {
        find_path(self.state_graph, target)
    }

    /// The name of a state in reports.
    fn state_label(&self, node: usize) -> (r: String)
        requires
            node < self.state_graph.states@.len(),
        ensures
            r@ == state_name(*self.state_graph, node),
    {
        "s".to_owned().concat(index_text(self.state_graph.states[node].index).as_str())
    }

    /// The places from which tokens are missing, each once, and how many.
    fn find_deficits(&self, marking: &Vec<u64>, resources: &Vec<PlaceId>) -> (r: Vec<
        (PlaceId, u64),
    >)
        requires
            self.state_graph.wf(),
        ensures
            r@ == deficits(*self.state_graph, marking@, resources@),
    {
        let mut missing: Vec<(PlaceId, u64)> = Vec::new();
        let mut i: usize = 0;
        while i < resources.len()
            invariant
                self.state_graph.wf(),
                i <= resources@.len(),
                missing@ == deficits(*self.state_graph, marking@, resources@.take(i as int)),
            decreases resources@.len() - i,
        {
            let p = resources[i];
            let initial = tokens_of(self.initial_marking(), p);
            let current = tokens_of(marking, p);
            proof {
                assert(resources@.take(i + 1).drop_last() =~= resources@.take(i as int));
                assert(resources@.take(i + 1).last() == p);
            }
            if initial > current && !Self::missing_from(&missing, p) {
                missing.push((p, initial - current));
            }
            i = i + 1;
        }
        proof {
            assert(resources@.take(i as int) =~= resources@);
        }
        missing
    }

    /// The steps of a shortest path to the state that took what is missing from
    /// the resources.
    fn trace_resource_usage(&self, net: &PtNet, state: usize, resources: &Vec<PlaceId>) -> (r: Vec<
        ResourceTraceStep,
    >)
        requires
            self.state_graph.wf(),
            state < self.state_graph.states@.len(),
            forall|i: int|
                0 <= i < resources@.len() ==> #[trigger] resources@[i] < net@.places.len(),
        ensures
            step_views(r@) == usage_of(*self.state_graph, net@, state, resources@),
    {
        let ghost g = *self.state_graph;
        let ghost view = net@;
        let mut missing = self.find_deficits(&self.state_graph.states[state].marking, resources);
        let mut steps: Vec<ResourceTraceStep> = Vec::new();
        let path = self.path_to_state(state);
        let ghost begun = Usage { missing: missing@, steps: Seq::empty() };
        proof {
            assert(step_views(steps@) =~= Seq::<TraceStepView>::empty());
            deficits_places(g, g.states@[state as int].marking@, resources@, view.places.len());
            path_edges(g, state);
            assert(path@.take(path@.len() as int) =~= path@);
        }
        let mut k: usize = path.len();
        while k > 0 && missing.len() > 0
            invariant
                self.state_graph.wf(),
                g == *self.state_graph,
                view == net@,
                k <= path@.len(),
                forall|i: int| 0 <= i < path@.len() ==> #[trigger] path@[i] < g.edges@.len(),
                forall|i: int|
                    0 <= i < missing@.len() ==> (#[trigger] missing@[i]).0 < view.places.len(),
                usage_along(g, view, path@, begun) == usage_along(
                    g,
                    view,
                    path@.take(k as int),
                    Usage { missing: missing@, steps: step_views(steps@) },
                ),
            decreases k,
        {
            let edge = &self.state_graph.edges[path[k - 1]];
            proof {
                assert(path@.take(k as int).last() == path@[k - 1]);
                assert(path@.take(k as int).drop_last() =~= path@.take(k - 1));
            }
            self.follow_changes(net, edge, &mut missing, &mut steps);
            k = k - 1;
        }
        proof {
            let u = Usage { missing: missing@, steps: step_views(steps@) };
            if missing@.len() == 0 {
                nothing_missing(g, view, path@.take(k as int), u);
            }
        }
        steps
    }

    /// Holds the changes of an edge against what is missing.
    fn follow_changes(
        &self,
        net: &PtNet,
        edge: &StateEdge,
        missing: &mut Vec<(PlaceId, u64)>,
        steps: &mut Vec<ResourceTraceStep>,
    )
        requires
            edge.source < self.state_graph.states@.len(),
            edge.target < self.state_graph.states@.len(),
            forall|i: int|
                0 <= i < old(missing)@.len() ==> (#[trigger] old(missing)@[i]).0
                    < net@.places.len(),
        ensures
            (Usage { missing: final(missing)@, steps: step_views(final(steps)@) }) == usage_after(
                *self.state_graph,
                net@,
                *edge,
                edge.changes@,
                Usage { missing: old(missing)@, steps: step_views(old(steps)@) },
            ),
            forall|i: int|
                0 <= i < final(missing)@.len() ==> (#[trigger] final(missing)@[i]).0
                    < net@.places.len(),
    {
        let ghost g = *self.state_graph;
        let ghost view = net@;
        let ghost begun = Usage { missing: missing@, steps: step_views(steps@) };
        let mut i: usize = 0;
        while i < edge.changes.len()
            invariant
                g == *self.state_graph,
                view == net@,
                edge.source < g.states@.len(),
                edge.target < g.states@.len(),
                i <= edge.changes@.len(),
                forall|j: int|
                    0 <= j < missing@.len() ==> (#[trigger] missing@[j]).0 < view.places.len(),
                (Usage { missing: missing@, steps: step_views(steps@) }) == usage_after(
                    g,
                    view,
                    *edge,
                    edge.changes@.take(i as int),
                    begun,
                ),
            decreases edge.changes@.len() - i,
        {
            let change = edge.changes[i];
            proof {
                assert(edge.changes@.take(i + 1).drop_last() =~= edge.changes@.take(i as int));
                assert(edge.changes@.take(i + 1).last() == change);
            }
            if change.delta < 0 && Self::missing_from(missing, change.place) {
                let ghost before = steps@;
                proof {
                    let j = choose|j: int|
                        0 <= j < missing@.len() && (#[trigger] missing@[j]).0 == change.place;
                    assert(missing@[j].0 < view.places.len());
                    assert(view.places[change.place as int] == net.places@[change.place as int]@);
                }
                let step = ResourceTraceStep {
                    resource_name: net.places[change.place].name.clone(),
                    transition_name: edge.name.clone(),
                    operation: operation_label(&edge.transition_type).to_owned(),
                    location: self.transition_location(edge.transition),
                    from_state: self.state_label(edge.source),
                    to_state: self.state_label(edge.target),
                    before: change.before,
                    after: change.after,
                };
                steps.push(step);
                let consumed = change.before.saturating_sub(change.after);
                Self::account(missing, change.place, consumed);
                proof {
                    assert(step_views(steps@) =~= step_views(before).push(step@));
                }
            }
            i = i + 1;
        }
        proof {
            assert(edge.changes@.take(i as int) =~= edge.changes@);
        }
    }

    /// Whether tokens are missing from a place.
    fn missing_from(missing: &Vec<(PlaceId, u64)>, place: PlaceId) -> (b: bool)
        ensures
            b == is_missing(missing@, place),
    {
        let mut i: usize = 0;
        while i < missing.len()
            invariant
                i <= missing@.len(),
                forall|j: int| 0 <= j < i ==> (#[trigger] missing@[j]).0 != place,
            decreases missing@.len() - i,
        {
            if missing[i].0 == place {
                assert(missing@[i as int].0 == place);
                return true;
            }
            i = i + 1;
        }
        false
    }

    /// Accounts for tokens of a place.
    fn account(missing: &mut Vec<(PlaceId, u64)>, place: PlaceId, tokens: u64)
        ensures
            final(missing)@ == accounted(old(missing)@, place, tokens),
            forall|i: int|
                0 <= i < final(missing)@.len() ==> exists|j: int|
                    0 <= j < old(missing)@.len() && (#[trigger] old(missing)@[j]).0 == (
                    #[trigger] final(missing)@[i]).0,
    {
        let ghost s = missing@;
        let mut i: usize = 0;
        proof {
            assert(s.skip(0) =~= s);
            assert(s.take(0) + accounted(s.skip(0), place, tokens) =~= accounted(s, place, tokens));
        }
        while i < missing.len()
            invariant
                i <= s.len(),
                missing@ == s,
                s == old(missing)@,
                accounted(s, place, tokens) == s.take(i as int) + accounted(
                    s.skip(i as int),
                    place,
                    tokens,
                ),
            decreases s.len() - i,
        {
            let (p, left) = missing[i];
            proof {
                assert(s.skip(i as int)[0] == s[i as int]);
                assert(s.skip(i as int).drop_first() =~= s.skip(i + 1));
            }
            if p == place {
                if left <= tokens {
                    missing.remove(i);
                    proof {
                        assert(missing@ =~= s.take(i as int) + s.skip(i + 1));
                        assert forall|a: int| 0 <= a < missing@.len() implies exists|j: int|
                            0 <= j < s.len() && (#[trigger] s[j]).0 == (
                            #[trigger] missing@[a]).0 by {
                            if a < i {
                                assert(s[a].0 == missing@[a].0);
                            } else {
                                assert(s[a + 1].0 == missing@[a].0);
                            }
                        }
                    }
                } else {
                    missing.set(i, (place, left - tokens));
                    proof {
                        let x = (place, (left - tokens) as u64);
                        assert(missing@ =~= s.take(i as int) + (seq![x] + s.skip(i + 1)));
                        assert forall|a: int| 0 <= a < missing@.len() implies exists|j: int|
                            0 <= j < s.len() && (#[trigger] s[j]).0 == (
                            #[trigger] missing@[a]).0 by {
                            assert(s[a].0 == missing@[a].0);
                        }
                    }
                }
                return;
            }
            proof {
                assert(s.take(i as int) + (seq![s[i as int]] + accounted(
                    s.skip(i + 1),
                    place,
                    tokens,
                )) =~= s.take(i + 1) + accounted(s.skip(i + 1), place, tokens));
            }
            i = i + 1;
        }
        proof {
            assert(s.skip(i as int).len() == 0);
            assert(missing@ =~= s.take(i as int) + s.skip(i as int));
        }
    }
}

/// The places with deficits are among the resources.
proof fn deficits_places(g: StateGraph, marking: Seq<u64>, resources: Seq<PlaceId>, n: nat)
    requires
        forall|i: int| 0 <= i < resources.len() ==> #[trigger] resources[i] < n,
    ensures
        forall|i: int|
            0 <= i < deficits(g, marking, resources).len() ==> (#[trigger] deficits(
                g,
                marking,
                resources,
            )[i]).0 < n,
    decreases resources.len(),
{
    if resources.len() > 0 {
        let front = resources.drop_last();
        assert forall|i: int| 0 <= i < front.len() implies #[trigger] front[i] < n by {
            assert(front[i] == resources[i]);
        }
        deficits_places(g, marking, front, n);
        assert(resources[resources.len() - 1] < n);
        let all = deficits(g, marking, resources);
        let before = deficits(g, marking, front);
        assert forall|i: int| 0 <= i < all.len() implies (#[trigger] all[i]).0 < n by {
            if i < before.len() {
                assert(all[i] == before[i]);
            }
        }
    }
}

/// The edges of a path are edges of the graph.
proof fn path_edges(g: StateGraph, target: usize)
    requires
        g.wf(),
    ensures
        forall|i: int|
            0 <= i < path_to(g, target).len() ==> #[trigger] path_to(g, target)[i] < g.edges@.len(),
{
    path_leads_to_its_target(g, target);
    let path = path_to(g, target);
    assert forall|i: int| 0 <= i < path.len() implies #[trigger] path[i] < g.edges@.len() by {
        assert(as_walk(path)[i] == path[i]);
    }
}

/// Where nothing is missing, no change is a step.
proof fn nothing_missing_after(
    g: StateGraph,
    net: NetView,
    edge: StateEdge,
    changes: Seq<PlaceChange>,
    u: Usage,
)
    requires
        u.missing.len() == 0,
    ensures
        usage_after(g, net, edge, changes, u) == u,
    decreases changes.len(),
{
    if changes.len() > 0 {
        nothing_missing_after(g, net, edge, changes.drop_last(), u);
    }
}

/// Where nothing is missing, no edge is a step.
proof fn nothing_missing(g: StateGraph, net: NetView, path: Seq<usize>, u: Usage)
    requires
        u.missing.len() == 0,
    ensures
        usage_along(g, net, path, u) == u,
    decreases path.len(),
{
    if path.len() > 0 {
        let edge = g.edges@[path.last() as int];
        nothing_missing_after(g, net, edge, edge.changes@, u);
        nothing_missing(g, net, path.drop_last(), u);
    }
}

/// The listed places are places of the net.
proof fn lists_in_range(
    g: StateGraph,
    net: NetView,
    marking: Seq<u64>,
    transition: TransitionId,
    n: nat,
)
    requires
        n <= usize::MAX,
    ensures
        forall|i: int|
            0 <= i < control_inputs(net, transition, n).len() ==> #[trigger] control_inputs(
                net,
                transition,
                n,
            )[i] < n,
        forall|i: int|
            0 <= i < lacking_tokens(g, net, marking, transition, n).len()
                ==> #[trigger] lacking_tokens(g, net, marking, transition, n)[i] < n,
        forall|i: int|
            0 <= i < lacking_room(g, net, marking, transition, n).len() ==> #[trigger] lacking_room(
                g,
                net,
                marking,
                transition,
                n,
            )[i] < n,
    decreases n,
{
    if n > 0 {
        let m = (n - 1) as nat;
        lists_in_range(g, net, marking, transition, m);
        let a = control_inputs(net, transition, m);
        let b = control_inputs(net, transition, n);
        assert forall|i: int| 0 <= i < b.len() implies #[trigger] b[i] < n by {
            if i < a.len() {
                assert(b[i] == a[i]);
            }
        }
        let c = lacking_tokens(g, net, marking, transition, m);
        let d = lacking_tokens(g, net, marking, transition, n);
        assert forall|i: int| 0 <= i < d.len() implies #[trigger] d[i] < n by {
            if i < c.len() {
                assert(d[i] == c[i]);
            }
        }
        let e = lacking_room(g, net, marking, transition, m);
        let f = lacking_room(g, net, marking, transition, n);
        assert forall|i: int| 0 <= i < f.len() implies #[trigger] f[i] < n by {
            if i < e.len() {
                assert(f[i] == e[i]);
            }
        }
    }
}

impl<'a> DeadlockDetector<'a> {
    /// The control inputs of a transition.
    fn find_control_inputs(net: &PtNet, transition: TransitionId) -> (r: Vec<PlaceId>)
        ensures
            r@ == control_inputs(net@, transition, net@.places.len()),
    {
        let mut r: Vec<PlaceId> = Vec::new();
        let mut p: usize = 0;
        while p < net.places.len()
            invariant
                p <= net.places@.len(),
                r@ == control_inputs(net@, transition, p as nat),
            decreases net.places@.len() - p,
        {
            proof {
                assert(net@.places[p as int] == net.places@[p as int]@);
            }
            if net.places[p].place_type != PlaceType::Resources && net.input_weight(p, transition)
                > 0 {
                r.push(p);
            }
            p = p + 1;
        }
        r
    }

    /// Whether a resource has tokens, and no fewer than at the start.
    fn full(&self, marking: &Vec<u64>, place: PlaceId) -> (b: bool)
        requires
            self.state_graph.wf(),
        ensures
            b == is_full(*self.state_graph, marking@, place),
    {
        let has = tokens_of(marking, place);
        has > 0 && has >= tokens_of(self.initial_marking(), place)
    }

    /// The resources with too few tokens.
    fn find_lacking_tokens(
        &self,
        net: &PtNet,
        marking: &Vec<u64>,
        transition: TransitionId,
    ) -> (r: Vec<PlaceId>)
        requires
            self.state_graph.wf(),
        ensures
            r@ == lacking_tokens(
                *self.state_graph,
                net@,
                marking@,
                transition,
                net@.places.len(),
            ),
    {
        let mut r: Vec<PlaceId> = Vec::new();
        let mut p: usize = 0;
        while p < net.places.len()
            invariant
                self.state_graph.wf(),
                p <= net.places@.len(),
                r@ == lacking_tokens(*self.state_graph, net@, marking@, transition, p as nat),
            decreases net.places@.len() - p,
        {
            proof {
                assert(net@.places[p as int] == net.places@[p as int]@);
            }
            if net.places[p].place_type == PlaceType::Resources && tokens_of(marking, p)
                < net.input_weight(p, transition) && !self.full(marking, p) {
                r.push(p);
            }
            p = p + 1;
        }
        r
    }

    /// The most tokens that a place can hold.
    fn capacity(net: &PtNet, place: PlaceId) -> (c: u64)
        requires
            place < net@.places.len(),
        ensures
            c == capacity_of(net@, place as int),
    {
        proof {
            assert(net@.places[place as int] == net.places@[place as int]@);
        }
        match net.places[place].capacity {
            Some(c) => c,
            None => u64::MAX,
        }
    }

    /// The resources with too little room.
    fn find_lacking_room(
        &self,
        net: &PtNet,
        marking: &Vec<u64>,
        transition: TransitionId,
    ) -> (r: Vec<PlaceId>)
        requires
            self.state_graph.wf(),
        ensures
            r@ == lacking_room(*self.state_graph, net@, marking@, transition, net@.places.len()),
    {
        let mut r: Vec<PlaceId> = Vec::new();
        let mut p: usize = 0;
        while p < net.places.len()
            invariant
                self.state_graph.wf(),
                p <= net.places@.len(),
                r@ == lacking_room(*self.state_graph, net@, marking@, transition, p as nat),
            decreases net.places@.len() - p,
        {
            proof {
                assert(net@.places[p as int] == net.places@[p as int]@);
            }
            let has = tokens_of(marking, p);
            let input = net.input_weight(p, transition);
            let output = net.output_weight(p, transition);
            if net.places[p].place_type == PlaceType::Resources && output > 0 && has >= input && (
            has - input) as u128 + output as u128 > Self::capacity(net, p) as u128 && !self.full(
                marking,
                p,
            ) {
                r.push(p);
            }
            p = p + 1;
        }
        r
    }

    /// Whether every control input has the tokens that the transition takes.
    fn inputs_marked(
        net: &PtNet,
        marking: &Vec<u64>,
        transition: TransitionId,
        inputs: &Vec<PlaceId>,
    ) -> (b: bool)
        ensures
            b == forall|i: int|
                0 <= i < inputs@.len() ==> tokens_at(marking@, #[trigger] inputs@[i])
                    >= net@.input(inputs@[i], transition),
    {
        let mut i: usize = 0;
        while i < inputs.len()
            invariant
                i <= inputs@.len(),
                forall|j: int|
                    0 <= j < i ==> tokens_at(marking@, #[trigger] inputs@[j]) >= net@.input(
                        inputs@[j],
                        transition,
                    ),
            decreases inputs@.len() - i,
        {
            if tokens_of(marking, inputs[i]) < net.input_weight(inputs[i], transition) {
                assert(tokens_at(marking@, inputs@[i as int]) < net@.input(
                    inputs@[i as int],
                    transition,
                ));
                return false;
            }
            i = i + 1;
        }
        true
    }

    /// What a report says of the resources that keep a transition from firing.
    fn statuses(
        &self,
        net: &PtNet,
        marking: &Vec<u64>,
        transition: TransitionId,
        tokens: &Vec<PlaceId>,
        room: &Vec<PlaceId>,
    ) -> (r: Vec<ResourceStatus>)
        requires
            tokens@ == lacking_tokens(
                *self.state_graph,
                net@,
                marking@,
                transition,
                net@.places.len(),
            ),
            room@ == lacking_room(
                *self.state_graph,
                net@,
                marking@,
                transition,
                net@.places.len(),
            ),
            net@.places.len() <= usize::MAX,
        ensures
            status_views(r@) == resource_statuses(
                *self.state_graph,
                net@,
                marking@,
                transition,
            ),
    {
        let ghost view = net@;
        let ghost all = resource_statuses(*self.state_graph, view, marking@, transition);
        proof {
            lists_in_range(*self.state_graph, view, marking@, transition, view.places.len());
        }
        let mut r: Vec<ResourceStatus> = Vec::new();
        let mut i: usize = 0;
        while i < tokens.len()
            invariant
                i <= tokens@.len(),
                view == net@,
                all.len() == tokens@.len() + room@.len(),
                forall|k: int| 0 <= k < tokens@.len() ==> #[trigger] tokens@[k] < view.places.len(),
                forall|k: int|
                    0 <= k < tokens@.len() ==> #[trigger] all[k] == (ResourceStatusView {
                        resource_name: view.places[tokens@[k] as int].name,
                        has: tokens_at(marking@, tokens@[k]),
                        needs: view.input(tokens@[k], transition),
                    }),
                r@.len() == i,
                forall|k: int| 0 <= k < i ==> (#[trigger] r@[k])@ == all[k],
            decreases tokens@.len() - i,
        {
            let p = tokens[i];
            proof {
                assert(view.places[p as int] == net.places@[p as int]@);
                assert(all[i as int].has == tokens_at(marking@, p));
            }
            r.push(
                ResourceStatus {
                    resource_name: net.places[p].name.clone(),
                    has: tokens_of(marking, p),
                    needs: net.input_weight(p, transition),
                },
            );
            i = i + 1;
        }
        let mut j: usize = 0;
        while j < room.len()
            invariant
                j <= room@.len(),
                view == net@,
                all.len() == tokens@.len() + room@.len(),
                forall|k: int| 0 <= k < room@.len() ==> #[trigger] room@[k] < view.places.len(),
                forall|k: int|
                    0 <= k < room@.len() ==> all[tokens@.len() + k] == (ResourceStatusView {
                        resource_name: view.places[(#[trigger] room@[k]) as int].name,
                        has: tokens_at(marking@, room@[k]),
                        needs: capacity_of(view, room@[k] as int),
                    }),
                r@.len() == tokens@.len() + j,
                forall|k: int| 0 <= k < r@.len() ==> (#[trigger] r@[k])@ == all[k],
            decreases room@.len() - j,
        {
            let p = room[j];
            proof {
                assert(view.places[p as int] == net.places@[p as int]@);
            }
            r.push(
                ResourceStatus {
                    resource_name: net.places[p].name.clone(),
                    has: tokens_of(marking, p),
                    needs: Self::capacity(net, p),
                },
            );
            j = j + 1;
        }
        proof {
            assert(status_views(r@) =~= all);
        }
        r
    }

    /// What a report says of a transition, where resources alone keep it from
    /// firing.
    fn blocked_transition(&self, net: &PtNet, node: usize, transition: TransitionId) -> (r: Option<
        BlockedTransition,
    >)
        requires
            self.state_graph.wf(),
            node < self.state_graph.states@.len(),
            transition < net@.transitions.len(),
        ensures
            match r {
                Some(b) => is_resource_blocked(*self.state_graph, net@, node, transition) && b@
                    == blocked_view(*self.state_graph, net@, node, transition),
                None => !is_resource_blocked(*self.state_graph, net@, node, transition),
            },
    {
        let ghost g = *self.state_graph;
        let ghost view = net@;
        assert(view.places.len() == net.places.len());
        let state = &self.state_graph.states[node];
        if has_number(&state.fireable, transition) {
            return None;
        }
        let inputs = Self::find_control_inputs(net, transition);
        if inputs.len() == 0 || !Self::inputs_marked(net, &state.marking, transition, &inputs) {
            return None;
        }
        let tokens = self.find_lacking_tokens(net, &state.marking, transition);
        let room = self.find_lacking_room(net, &state.marking, transition);
        if tokens.len() == 0 && room.len() == 0 {
            return None;
        }
        let ghost marking = state.marking@;
        let status = self.statuses(net, &state.marking, transition, &tokens, &room);
        let mut needed: Vec<String> = Vec::new();
        let mut i: usize = 0;
        while i < status.len()
            invariant
                i <= status@.len(),
                needed@.len() == i,
                forall|k: int|
                    0 <= k < i ==> (#[trigger] needed@[k])@ == status@[k].resource_name@,
            decreases status@.len() - i,
        {
            needed.push(status[i].resource_name.clone());
            i = i + 1;
        }
        let mut resources: Vec<PlaceId> = Vec::new();
        let mut j: usize = 0;
        while j < tokens.len()
            invariant
                j <= tokens@.len(),
                resources@ == tokens@.take(j as int),
            decreases tokens@.len() - j,
        {
            resources.push(tokens[j]);
            j = j + 1;
            proof {
                assert(resources@ =~= tokens@.take(j as int));
            }
        }
        let mut k: usize = 0;
        proof {
            assert(resources@ =~= tokens@ + room@.take(0));
        }
        while k < room.len()
            invariant
                k <= room@.len(),
                resources@ == tokens@ + room@.take(k as int),
            decreases room@.len() - k,
        {
            resources.push(room[k]);
            k = k + 1;
            proof {
                assert(resources@ =~= tokens@ + room@.take(k as int));
            }
        }
        proof {
            assert(room@.take(k as int) =~= room@);
            assert(resources@ == blocking_resources(g, view, marking, transition));
            lists_in_range(g, view, marking, transition, view.places.len());
            assert forall|m: int| 0 <= m < resources@.len() implies #[trigger] resources@[m]
                < view.places.len() by {
                if m < tokens@.len() {
                    assert(resources@[m] == tokens@[m]);
                } else {
                    assert(resources@[m] == room@[m - tokens@.len()]);
                }
            }
            assert(inputs@[0] < view.places.len());
            assert(view.places[inputs@[0] as int] == net.places@[inputs@[0] as int]@);
            assert(view.transitions[transition as int] == net.transitions@[transition as int]@);
            assert(texts(needed@) =~= resource_statuses(g, view, marking, transition).map_values(
                |s: ResourceStatusView| s.resource_name,
            )) by {
                assert forall|m: int| 0 <= m < needed@.len() implies texts(needed@)[m]
                    == resource_statuses(g, view, marking, transition)[m].resource_name by {
                    assert(status_views(status@)[m] == status@[m]@);
                }
            }
        }
        let trace = self.trace_resource_usage(net, node, &resources);
        Some(
            BlockedTransition {
                id: "t".to_owned().concat(index_text(transition).as_str()),
                name: net.transitions[transition].name.clone(),
                location: net.places[inputs[0]].span.clone(),
                operation: operation_label(&net.transitions[transition].transition_type).to_owned(),
                needed_resources: needed,
                resource_status: status,
                resource_trace: trace,
            },
        )
    }

    /// What a report says of the blocked transitions at a state.
    fn find_blocked_resource_transitions(&self, node: usize) -> (r: Vec<BlockedTransition>)
        requires
            self.state_graph.wf(),
            node < self.state_graph.states@.len(),
        ensures
            blocked_views(r@) == blocked_of(*self.state_graph, node),
    {
        let ghost g = *self.state_graph;
        let mut blocked: Vec<BlockedTransition> = Vec::new();
        proof {
            assert(blocked_views(blocked@) =~= Seq::<BlockedView>::empty());
        }
        match &self.state_graph.net {
            Some(net) => {
                let mut t: usize = 0;
                while t < net.transitions.len()
                    invariant
                        self.state_graph.wf(),
                        g == *self.state_graph,
                        node < g.states@.len(),
                        t <= net.transitions@.len(),
                        blocked_views(blocked@) == blocked_among(g, net@, node, t as nat),
                    decreases net.transitions@.len() - t,
                {
                    let ghost before = blocked@;
                    match self.blocked_transition(net, node, t) {
                        Some(b) => {
                            let ghost v = b@;
                            blocked.push(b);
                            proof {
                                assert(blocked_views(blocked@) =~= blocked_views(before).push(v));
                            }
                        },
                        None => {},
                    }
                    t = t + 1;
                }
            },
            None => {},
        }
        blocked
    }

    /// How a report names a place.
    fn place_label(state: &StateNode, place: PlaceId) -> (r: String)
        ensures
            r@ == place_text(*state, place),
    {
        let mut i: usize = 0;
        while i < state.places.len()
            invariant
                i <= state.places@.len(),
                summary_from(state.places@, place, 0) == summary_from(
                    state.places@,
                    place,
                    i as nat,
                ),
            decreases state.places@.len() - i,
        {
            let s = &state.places[i];
            if s.place == place {
                return s.name.as_str().to_owned().concat(" (").concat(s.span.as_str()).concat(")");
            }
            i = i + 1;
        }
        "place#".to_owned().concat(index_text(place).as_str())
    }

    /// What a report says of a deadlock state.
    fn format_deadlock_state(&self, node: usize) -> (r: DeadlockState)
        requires
            self.state_graph.wf(),
            node < self.state_graph.states@.len(),
        ensures
            r@ == state_view(*self.state_graph, node),
    {
        let state = &self.state_graph.states[node];
        let mut marking: Vec<(String, u8)> = Vec::new();
        proof {
            assert(marking_views(marking@) =~= Seq::<(Seq<char>, u8)>::empty());
        }
        let mut p: usize = 0;
        while p < state.marking.len()
            invariant
                p <= state.marking@.len(),
                marking_views(marking@) == marked(*state, p as nat),
            decreases state.marking@.len() - p,
        {
            let tokens = state.marking[p];
            if tokens != 0 {
                let shown: u8 = if tokens > 255 {
                    255
                } else {
                    tokens as u8
                };
                let ghost before = marking@;
                let label = Self::place_label(state, p);
                marking.push((label, shown));
                proof {
                    assert(marking_views(marking@) =~= marking_views(before).push((label@, shown)));
                }
            }
            p = p + 1;
        }
        DeadlockState {
            state_id: self.state_label(node),
            marking,
            description: "Deadlock state with blocked resources".to_owned(),
            blocked_transitions: self.find_blocked_resource_transitions(node),
        }
    }

    /// What a report says of the way into a deadlock.
    fn create_deadlock_trace(&self, node: usize) -> (r: DeadlockTrace)
        requires
            self.state_graph.wf(),
            node < self.state_graph.states@.len(),
        ensures
            r@ == trace_view(*self.state_graph, node),
    {
        let mut steps: Vec<String> = Vec::new();
        steps.push("Path reconstruction not implemented yet".to_owned());
        proof {
            assert(texts(steps@) =~= seq!["Path reconstruction not implemented yet"@]);
        }
        DeadlockTrace { steps, final_state: Some(self.format_deadlock_state(node)) }
    }

    /// The size of the state graph.
    fn collect_state_space_info(&self) -> (r: StateSpaceInfo)
        requires
            self.state_graph.wf(),
        ensures
            r == (StateSpaceInfo {
                total_states: self.state_graph.states@.len() as usize,
                total_transitions: self.state_graph.edges@.len() as usize,
                reachable_states: self.state_graph.states@.len() as usize,
            }),
    {
        StateSpaceInfo {
            total_states: self.state_graph.node_count(),
            total_transitions: self.state_graph.edge_count(),
            reachable_states: self.state_graph.node_count(),
        }
    }

    /// The states that the detector reports, in ascending order.
    pub open spec fn found(&self) -> Seq<usize> {
        deadlocks(*self.state_graph, self.state_graph.states@.len())
    }

    /// Runs the detector.
    pub fn detect(&self) -> (report: DeadlockReport)
        requires
            self.state_graph.wf(),
        ensures
            report.tool_name@ == "Petri Net Deadlock Detector"@,
            report.has_deadlock == (self.found().len() > 0),
            report.deadlock_count == self.found().len(),
            state_views(report.deadlock_states@) == self.found().map_values(
                |x: usize| state_view(*self.state_graph, x),
            ),
            trace_views(report.traces@) == self.found().map_values(
                |x: usize| trace_view(*self.state_graph, x),
            ),
            report.state_space_info == Some(
                StateSpaceInfo {
                    total_states: self.state_graph.states@.len() as usize,
                    total_transitions: self.state_graph.edges@.len() as usize,
                    reachable_states: self.state_graph.states@.len() as usize,
                },
            ),
    {
        let ghost g = *self.state_graph;
        let mut report = DeadlockReport::new("Petri Net Deadlock Detector".to_owned());
        let found = self.detect_reachability_deadlock();
        let mut states: Vec<DeadlockState> = Vec::new();
        let mut traces: Vec<DeadlockTrace> = Vec::new();
        proof {
            deadlocks_listed(g, g.states@.len());
        }
        let mut i: usize = 0;
        while i < found.len()
            invariant
                self.state_graph.wf(),
                g == *self.state_graph,
                i <= found@.len(),
                forall|k: int| 0 <= k < found@.len() ==> found@.contains(#[trigger] found@[k]),
                forall|x: usize| #[trigger] found@.contains(x) ==> x < g.states@.len(),
                states@.len() == i,
                traces@.len() == i,
                forall|k: int| 0 <= k < i ==> (#[trigger] states@[k])@ == state_view(g, found@[k]),
                forall|k: int| 0 <= k < i ==> (#[trigger] traces@[k])@ == trace_view(g, found@[k]),
            decreases found@.len() - i,
        {
            proof {
                assert(found@.contains(found@[i as int]));
            }
            states.push(self.format_deadlock_state(found[i]));
            traces.push(self.create_deadlock_trace(found[i]));
            i = i + 1;
        }
        if found.len() > 0 {
            report.has_deadlock = true;
            report.deadlock_count = found.len();
        }
        proof {
            assert(state_views(states@) =~= self.found().map_values(|x: usize| state_view(g, x)));
            assert(trace_views(traces@) =~= self.found().map_values(|x: usize| trace_view(g, x)));
        }
        report.deadlock_states = states;
        report.traces = traces;
        report.state_space_info = Some(self.collect_state_space_info());
        report
    }
}

/// Every state that nothing leads out of and that is no normal exit is
/// reported.
pub proof fn every_stuck_state_is_reported(g: StateGraph, node: usize)
    requires
        node < g.states@.len(),
        is_stuck(g, node),
    ensures
        deadlocks(g, g.states@.len()).contains(node),
{
    deadlocks_listed(g, g.states@.len());
    assert(some_stuck(g));
}

/// Every state that is reported is stuck, or lies on a cycle that nothing leads
/// out of and on which some locks, but not all, can never be taken; the latter
/// is reported only where no state is stuck.
pub proof fn every_report_is_real(g: StateGraph, node: usize)
    requires
        g.wf(),
        deadlocks(g, g.states@.len()).contains(node),
    ensures
        is_stuck(g, node) || (!some_stuck(g) && exists|cycle: Seq<usize>| #[trigger]
            waits_forever(g, cycle) && cycle.contains(node)),
{
    deadlocks_listed(g, g.states@.len());
    if !some_stuck(g) {
        let cycle = cyclic_waits_are_real(g, node);
        assert(waits_forever(g, cycle));
    }
}

} // verus!

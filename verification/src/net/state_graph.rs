//! The graph of the markings that a net can reach.
//!
//! The topology is a `petgraph` graph; the states and edges themselves stand in
//! vectors, and the graph's weights are positions in those vectors.

use petgraph::graph::{Graph, NodeIndex};
use petgraph::visit::EdgeRef;
use petgraph::{Directed, Direction};

use super::structure::{PlaceId, PtNet, TransitionId, TransitionType};
use vstd::prelude::*;

verus! {

/// The topology of a state graph.
pub type Topology = Graph<usize, usize, Directed, usize>;

/// The graph of `petgraph`.
#[verifier::external_type_specification]
#[verifier::external_body]
#[verifier::reject_recursive_types(N)]
#[verifier::reject_recursive_types(E)]
#[verifier::reject_recursive_types(Kind)]
#[verifier::reject_recursive_types(Ix)]
pub struct ExGraph<N, E, Kind, Ix>(petgraph::graph::Graph<N, E, Kind, Ix>);

/// The marker of directed graphs of `petgraph`.
#[verifier::external_type_specification]
#[verifier::external_body]
pub struct ExDirected(petgraph::Directed);

/// The node weights of a graph, by node index.
pub uninterp spec fn graph_nodes(g: Graph<usize, usize, Directed, usize>) -> Seq<usize>;

/// The edges of a graph in the order in which they were added: source, target,
/// weight.
pub uninterp spec fn graph_edges(g: Graph<usize, usize, Directed, usize>) -> Seq<
    (usize, usize, usize),
>;

/// The edges that leave `node`, the last one added first: target, weight.
pub open spec fn outgoing(edges: Seq<(usize, usize, usize)>, node: usize) -> Seq<(usize, usize)>
    decreases edges.len(),
{
    if edges.len() == 0 {
        Seq::empty()
    } else if edges.last().0 == node {
        seq![(edges.last().1, edges.last().2)] + outgoing(edges.drop_last(), node)
    } else {
        outgoing(edges.drop_last(), node)
    }
}

/// `Graph::with_capacity` of `petgraph` builds a graph without nodes and edges.
#[verifier::external_body]
fn topology_new() -> (g: Topology)
    ensures
        graph_nodes(g) == Seq::<usize>::empty(),
        graph_edges(g) == Seq::<(usize, usize, usize)>::empty(),
{
    Graph::with_capacity(0, 0)
}

/// `Graph::add_node` of `petgraph` appends a node and returns its index; the
/// edges stay.
#[verifier::external_body]
fn topology_add_node(g: &mut Topology, weight: usize) -> (index: usize)
    ensures
        index == graph_nodes(*old(g)).len(),
        graph_nodes(*final(g)) == graph_nodes(*old(g)).push(weight),
        graph_edges(*final(g)) == graph_edges(*old(g)),
{
    g.add_node(weight).index()
}

/// `Graph::add_edge` of `petgraph` appends an edge between two nodes of the
/// graph; the nodes stay.
#[verifier::external_body]
fn topology_add_edge(g: &mut Topology, source: usize, target: usize, weight: usize)
    requires
        source < graph_nodes(*old(g)).len(),
        target < graph_nodes(*old(g)).len(),
    ensures
        graph_nodes(*final(g)) == graph_nodes(*old(g)),
        graph_edges(*final(g)) == graph_edges(*old(g)).push((source, target, weight)),
{
    g.add_edge(NodeIndex::new(source), NodeIndex::new(target), weight);
}

/// `Graph::edges_directed` of `petgraph`, outgoing, lists the edges that leave a
/// node, the most recently added one first.
#[verifier::external_body]
fn topology_outgoing(g: &Topology, node: usize) -> (r: Vec<(usize, usize)>)
    ensures
        r@ == outgoing(graph_edges(*g), node),
{
    g.edges_directed(NodeIndex::new(node), Direction::Outgoing)
        .map(|e| (e.target().index(), *e.weight()))
        .collect()
}

/// `Graph::node_count` of `petgraph` is the number of nodes.
#[verifier::external_body]
fn topology_node_count(g: &Topology) -> (n: usize)
    ensures
        n == graph_nodes(*g).len(),
{
    g.node_count()
}

/// `Graph::edge_count` of `petgraph` is the number of edges.
#[verifier::external_body]
fn topology_edge_count(g: &Topology) -> (n: usize)
    ensures
        n == graph_edges(*g).len(),
{
    g.edge_count()
}

/// A place as a state shows it.
#[derive(Debug)]
pub struct PlaceSummary {
    pub place: PlaceId,
    pub name: String,
    pub span: String,
    pub tokens: u64,
}

/// A marking that the net can reach.
#[derive(Debug)]
pub struct StateNode {
    /// The number by which reports name the state.
    pub index: usize,
    /// The tokens by place.
    pub marking: Vec<u64>,
    /// The places that the state shows.
    pub places: Vec<PlaceSummary>,
    /// The transitions that were found enabled when the state was explored.
    pub enabled: Vec<TransitionId>,
    /// The transitions that the net can fire at the marking.
    pub fireable: Vec<TransitionId>,
}

/// How firing changes the tokens of one place.
#[derive(Clone, Copy, Debug, PartialEq, Eq, Structural)]
pub struct PlaceChange {
    pub place: PlaceId,
    pub delta: i64,
    pub before: u64,
    pub after: u64,
}

/// The firing of a transition that leads from one state to another.
pub struct StateEdge {
    pub source: usize,
    pub target: usize,
    pub transition: TransitionId,
    pub name: String,
    pub transition_type: TransitionType,
    pub changes: Vec<PlaceChange>,
}

/// The tokens that a marking has on a place.
pub open spec fn tokens_at(marking: Seq<u64>, place: PlaceId) -> u64 {
    if place < marking.len() {
        marking[place as int]
    } else {
        0
    }
}

/// The tokens that a marking has on a place.
pub fn tokens_of(marking: &Vec<u64>, place: PlaceId) -> (n: u64)
    ensures
        n == tokens_at(marking@, place),
{
    if place < marking.len() {
        marking[place]
    } else {
        0
    }
}

/// The initial state is one of `count` states, and every edge joins two of them.
pub open spec fn parts_fit(count: nat, edges: Seq<StateEdge>, initial: usize) -> bool {
    &&& initial < count
    &&& forall|i: int|
        0 <= i < edges.len() ==> (#[trigger] edges[i]).source < count && edges[i].target < count
}

/// The graph of reachable markings.
pub struct StateGraph {
    pub graph: Topology,
    pub states: Vec<StateNode>,
    pub edges: Vec<StateEdge>,
    pub initial: usize,
    pub net: Option<PtNet>,
}

impl StateGraph {
    /// The topology is that of the states and edges: every edge joins two
    /// states, and the initial state is one of them.
    pub open spec fn wf(&self) -> bool {
        &&& graph_nodes(self.graph).len() == self.states@.len()
        &&& graph_edges(self.graph).len() == self.edges@.len()
        &&& forall|i: int|
            0 <= i < self.edges@.len() ==> (#[trigger] graph_edges(self.graph)[i]).0
                == self.edges@[i].source && graph_edges(self.graph)[i].1 == self.edges@[i].target
                && graph_edges(self.graph)[i].2 == i
        &&& forall|i: int|
            0 <= i < self.edges@.len() ==> (#[trigger] self.edges@[i]).source < self.states@.len()
                && self.edges@[i].target < self.states@.len()
        &&& self.initial < self.states@.len()
    }

    /// The edges that leave a state, the last one added first.
    pub open spec fn outgoing_edges(&self, node: usize) -> Seq<(usize, usize)> {
        outgoing(graph_edges(self.graph), node)
    }

    /// The graph of one state.
    pub fn new(initial: StateNode, net: Option<PtNet>) -> (r: Self)
        ensures
            r.wf(),
            r.states@ == seq![initial],
            r.edges@ == Seq::<StateEdge>::empty(),
            r.initial == 0,
            r.net == net,
    {
        let mut graph = topology_new();
        topology_add_node(&mut graph, 0);
        let mut states: Vec<StateNode> = Vec::new();
        states.push(initial);
        proof {
            assert(states@ =~= seq![initial]);
        }
        StateGraph { graph, states, edges: Vec::new(), initial: 0, net }
    }

    /// The graph of the states and edges, where the initial state is one of
    /// them and every edge joins two of them.
    pub fn from_parts(
        states: Vec<StateNode>,
        edges: Vec<StateEdge>,
        initial: usize,
        net: Option<PtNet>,
    ) -> (r: Option<Self>)
        ensures
            r is Some <==> parts_fit(states@.len(), edges@, initial),
            r matches Some(g) ==> g.wf() && g.states == states && g.edges == edges && g.initial
                == initial && g.net == net,
    {
        if initial >= states.len() {
            return None;
        }
        let mut graph = topology_new();
        let mut n: usize = 0;
        while n < states.len()
            invariant
                n <= states@.len(),
                graph_nodes(graph).len() == n,
                graph_edges(graph).len() == 0,
            decreases states@.len() - n,
        {
            topology_add_node(&mut graph, n);
            n = n + 1;
        }
        let mut i: usize = 0;
        while i < edges.len()
            invariant
                i <= edges@.len(),
                graph_nodes(graph).len() == states@.len(),
                graph_edges(graph).len() == i,
                forall|k: int|
                    0 <= k < i ==> (#[trigger] edges@[k]).source < states@.len()
                        && edges@[k].target < states@.len(),
                forall|k: int|
                    0 <= k < i ==> (#[trigger] graph_edges(graph)[k]).0 == edges@[k].source
                        && graph_edges(graph)[k].1 == edges@[k].target && graph_edges(graph)[k].2
                        == k,
            decreases edges@.len() - i,
        {
            let (source, target) = (edges[i].source, edges[i].target);
            if source >= states.len() || target >= states.len() {
                return None;
            }
            topology_add_edge(&mut graph, source, target, i);
            i = i + 1;
        }
        Some(StateGraph { graph, states, edges, initial, net })
    }

    /// Adds a state.
    pub fn add_state(&mut self, state: StateNode) -> (id: usize)
        requires
            old(self).wf(),
        ensures
            final(self).wf(),
            id == old(self).states@.len(),
            final(self).states@ == old(self).states@.push(state),
            final(self).edges == old(self).edges,
            final(self).initial == old(self).initial,
            final(self).net == old(self).net,
    {
        let id = self.states.len();
        topology_add_node(&mut self.graph, id);
        self.states.push(state);
        id
    }

    /// Adds an edge between two states.
    pub fn add_edge(&mut self, edge: StateEdge) -> (id: usize)
        requires
            old(self).wf(),
            edge.source < old(self).states@.len(),
            edge.target < old(self).states@.len(),
        ensures
            final(self).wf(),
            id == old(self).edges@.len(),
            final(self).edges@ == old(self).edges@.push(edge),
            final(self).states == old(self).states,
            final(self).initial == old(self).initial,
            final(self).net == old(self).net,
    {
        let id = self.edges.len();
        topology_add_edge(&mut self.graph, edge.source, edge.target, id);
        self.edges.push(edge);
        id
    }

    /// The number of states.
    pub fn node_count(&self) -> (n: usize)
        requires
            self.wf(),
        ensures
            n == self.states@.len(),
    {
        topology_node_count(&self.graph)
    }

    /// The number of edges.
    pub fn edge_count(&self) -> (n: usize)
        requires
            self.wf(),
        ensures
            n == self.edges@.len(),
    {
        topology_edge_count(&self.graph)
    }

    /// The edges that leave a state, the last one added first: target and
    /// position of the edge.
    pub fn edges_of(&self, node: usize) -> (r: Vec<(usize, usize)>)
        requires
            self.wf(),
        ensures
            r@ == self.outgoing_edges(node),
            forall|k: int|
                0 <= k < r@.len() ==> (#[trigger] r@[k]).1 < self.edges@.len()
                    && self.edges@[r@[k].1 as int].source == node && self.edges@[r@[k].1 as int].target
                    == r@[k].0,
            forall|e: int|
                0 <= e < self.edges@.len() && (#[trigger] self.edges@[e]).source == node
                    ==> r@.contains((self.edges@[e].target, e as usize)),
    {
        let count: usize = self.edges.len();
        let r = topology_outgoing(&self.graph, node);
        proof {
            let edges = graph_edges(self.graph);
            assert forall|k: int| 0 <= k < r@.len() implies (#[trigger] r@[k]).1
                < self.edges@.len() && self.edges@[r@[k].1 as int].source == node
                && self.edges@[r@[k].1 as int].target == r@[k].0 by {
                let e = outgoing_sound(edges, node, k);
                assert(edges[e].2 == e);
            }
            assert forall|e: int|
                0 <= e < self.edges@.len() && (#[trigger] self.edges@[e]).source
                    == node implies r@.contains((self.edges@[e].target, e as usize)) by {
                assert(e < count);
                assert(edges[e].2 == e);
                outgoing_complete(edges, node, e);
            }
        }
        r
    }
}

/// The walk starts at `from`, and each edge leaves where the one before it
/// ended. A walk is given by the positions of its edges.
pub open spec fn is_walk(g: StateGraph, from: usize, walk: Seq<int>) -> bool {
    forall|i: int|
        0 <= i < walk.len() ==> 0 <= #[trigger] walk[i] < g.edges@.len()
            && g.edges@[walk[i]].source == walk_node(g, from, walk, i)
}

/// The state that a walk has reached after `n` edges.
pub open spec fn walk_node(g: StateGraph, from: usize, walk: Seq<int>, n: int) -> usize {
    if n <= 0 {
        from
    } else {
        g.edges@[walk[n - 1]].target
    }
}

/// Every listed edge is an edge that leaves the node.
pub proof fn outgoing_sound(edges: Seq<(usize, usize, usize)>, node: usize, k: int) -> (e: int)
    requires
        0 <= k < outgoing(edges, node).len(),
    ensures
        0 <= e < edges.len(),
        edges[e].0 == node,
        outgoing(edges, node)[k] == (edges[e].1, edges[e].2),
    decreases edges.len(),
{
    let front = edges.drop_last();
    if edges.last().0 == node {
        if k == 0 {
            edges.len() - 1
        } else {
            let e = outgoing_sound(front, node, k - 1);
            assert(front[e] == edges[e]);
            e
        }
    } else {
        let e = outgoing_sound(front, node, k);
        assert(front[e] == edges[e]);
        e
    }
}

/// Every edge that leaves the node is listed.
pub proof fn outgoing_complete(edges: Seq<(usize, usize, usize)>, node: usize, e: int)
    requires
        0 <= e < edges.len(),
        edges[e].0 == node,
    ensures
        outgoing(edges, node).contains((edges[e].1, edges[e].2)),
    decreases edges.len(),
{
    let front = edges.drop_last();
    let x = (edges[e].1, edges[e].2);
    if e == edges.len() - 1 {
        assert(outgoing(edges, node)[0] == x);
    } else {
        assert(front[e] == edges[e]);
        outgoing_complete(front, node, e);
        let k = choose|k: int|
            0 <= k < outgoing(front, node).len() && outgoing(front, node)[k] == x;
        if edges.last().0 == node {
            assert(outgoing(edges, node)[k + 1] == x);
        } else {
            assert(outgoing(edges, node)[k] == x);
        }
    }
}

} // verus!

//! The network topology: an undirected graph of nodes joined by links.
use crate::models::link::Link;
use crate::models::node::Node;
use petgraph::graph::NodeIndex;
use petgraph::stable_graph::StableGraph;
use petgraph::Undirected;
use vstd::prelude::*;

verus! {

#[verifier::external_type_specification]
#[verifier::external_body]
#[verifier::reject_recursive_types(N)]
#[verifier::reject_recursive_types(E)]
#[verifier::reject_recursive_types(Ty)]
#[verifier::reject_recursive_types(Ix)]
pub struct ExStableGraph<N, E, Ty, Ix>(StableGraph<N, E, Ty, Ix>);

#[verifier::external_type_specification]
#[verifier::external_body]
pub struct ExUndirected(Undirected);

/// The graph type that holds a network topology.
pub type Topology = StableGraph<Node, Link, Undirected>;

/// The nodes that a topology graph holds, by node index.
pub uninterp spec fn graph_nodes(g: StableGraph<Node, Link, Undirected>) -> Map<nat, Node>;

/// The edges that a topology graph holds, by edge index: both endpoints and the weight.
pub uninterp spec fn graph_edges(g: StableGraph<Node, Link, Undirected>) -> Map<nat, (nat, nat, Link)>;

/// Node indices are `u32` values below `u32::MAX`, which marks "no node".
pub open spec fn index_limit() -> nat {
    0xffff_ffff
}

/// Whether some edge joins `x` and `y` (in either direction).
pub open spec fn adjacent(edges: Map<nat, (nat, nat, Link)>, x: nat, y: nat) -> bool {
    exists|e: nat|
        #![trigger edges.dom().contains(e)]
        edges.dom().contains(e) && ((edges[e].0 == x && edges[e].1 == y) || (edges[e].0 == y
            && edges[e].1 == x))
}

/// Step `i` of the walk `p` follows an edge.
pub open spec fn step_follows_edge(edges: Map<nat, (nat, nat, Link)>, p: Seq<nat>, i: int) -> bool {
    adjacent(edges, p[i], p[i + 1])
}

/// `p` is a walk through existing nodes along existing edges.
pub open spec fn is_walk(nodes: Map<nat, Node>, edges: Map<nat, (nat, nat, Link)>, p: Seq<nat>) -> bool {
    &&& p.len() > 0
    &&& forall|i: int| 0 <= i < p.len() ==> nodes.dom().contains(#[trigger] p[i])
    &&& forall|i: int| 0 <= i < p.len() - 1 ==> #[trigger] step_follows_edge(edges, p, i)
}

/// Node `y` can be reached from node `x`.
pub open spec fn connected(nodes: Map<nat, Node>, edges: Map<nat, (nat, nat, Link)>, x: nat, y: nat) -> bool {
    exists|p: Seq<nat>| #[trigger] is_walk(nodes, edges, p) && p[0] == x && p.last() == y
}

/// Every node can be reached from every other node: the graph has at most one
/// connected component.
pub open spec fn fully_connected(nodes: Map<nat, Node>, edges: Map<nat, (nat, nat, Link)>) -> bool {
    forall|x: nat, y: nat|
        nodes.dom().contains(x) && nodes.dom().contains(y) ==> #[trigger] connected(
            nodes,
            edges,
            x,
            y,
        )
}

/// Every edge joins nodes that the graph holds.
pub open spec fn edges_within(nodes: Map<nat, Node>, edges: Map<nat, (nat, nat, Link)>) -> bool {
    forall|e: nat|
        #[trigger] edges.dom().contains(e) ==> nodes.dom().contains(edges[e].0) && nodes.dom().contains(
            edges[e].1,
        )
}

/// `StableGraph::default`: an empty graph.
#[verifier::external_body]
fn graph_default() -> (g: Topology)
    ensures
        graph_nodes(g).dom() == Set::<nat>::empty(),
        graph_edges(g).dom() == Set::<nat>::empty(),
{
    StableGraph::default()
}

/// `StableGraph::with_capacity`: an empty graph (with room reserved, which is not modelled).
#[verifier::external_body]
fn graph_with_capacity(nodes: usize, edges: usize) -> (g: Topology)
    ensures
        graph_nodes(g).dom() == Set::<nat>::empty(),
        graph_edges(g).dom() == Set::<nat>::empty(),
{
    StableGraph::with_capacity(nodes, edges)
}

/// `StableGraph::add_node`: stores the weight under an index that was not in use
/// (a valid `u32` index) and returns that index; edges are unchanged. It panics
/// only when the graph already holds `u32::MAX` node slots, which the
/// precondition rules out.
#[verifier::external_body]
fn graph_add_node(g: &mut Topology, weight: Node) -> (i: usize)
    requires
        graph_nodes(*old(g)).dom().finite(),
        graph_nodes(*old(g)).len() < index_limit(),
    ensures
        i < index_limit(),
        !graph_nodes(*old(g)).dom().contains(i as nat),
        graph_nodes(*final(g)) == graph_nodes(*old(g)).insert(i as nat, weight),
        graph_edges(*final(g)) == graph_edges(*old(g)),
{
    g.add_node(weight).index()
}

/// `StableGraph::add_edge`: stores the edge `(a, b, weight)` under an edge index
/// that was not in use and returns that index; nodes are unchanged. It panics when
/// `a` or `b` is not a node, or when the graph already holds `u32::MAX` edge
/// slots; the precondition rules both out.
#[verifier::external_body]
fn graph_add_edge(g: &mut Topology, a: usize, b: usize, weight: Link) -> (e: usize)
    requires
        graph_nodes(*old(g)).dom().contains(a as nat),
        graph_nodes(*old(g)).dom().contains(b as nat),
        graph_edges(*old(g)).dom().finite(),
        graph_edges(*old(g)).len() < index_limit(),
    ensures
        !graph_edges(*old(g)).dom().contains(e as nat),
        graph_edges(*final(g)) == graph_edges(*old(g)).insert(e as nat, (a as nat, b as nat, weight)),
        graph_nodes(*final(g)) == graph_nodes(*old(g)),
{
    g.add_edge(NodeIndex::new(a), NodeIndex::new(b), weight).index()
}

/// `petgraph::algo::tarjan_scc`, with node indices as `usize`. Its documentation:
/// each element is a strongly connected component, and for an undirected graph
/// these are the connected components. So every component is non-empty, every
/// node lies in some component, nodes of one component are connected to each
/// other, and nodes of different components are not. The order of the components
/// and of the nodes within them is left unsaid, and so is the depth of its
/// recursion, which on very long chains of nodes depends on the machine's stack.
#[verifier::external_body]
fn graph_connected_components(g: &Topology) -> (comps: Vec<Vec<usize>>)
    ensures
        forall|i: int| 0 <= i < comps.len() ==> #[trigger] comps[i].len() > 0,
        forall|i: int, k: int|
            0 <= i < comps.len() && 0 <= k < comps[i].len() ==> graph_nodes(*g).dom().contains(
                #[trigger] comps[i][k] as nat,
            ),
        forall|x: nat|
            #[trigger] graph_nodes(*g).dom().contains(x) ==> exists|i: int, k: int|
                0 <= i < comps.len() && 0 <= k < comps[i].len() && #[trigger] comps[i][k] == x,
        forall|i: int, k: int, l: int|
            0 <= i < comps.len() && 0 <= k < comps[i].len() && 0 <= l < comps[i].len()
                ==> connected(
                graph_nodes(*g),
                graph_edges(*g),
                #[trigger] comps[i][k] as nat,
                #[trigger] comps[i][l] as nat,
            ),
        forall|i: int, j: int, k: int, l: int|
            0 <= i < comps.len() && 0 <= j < comps.len() && i != j && 0 <= k < comps[i].len() && 0
                <= l < comps[j].len() ==> !connected(
                graph_nodes(*g),
                graph_edges(*g),
                #[trigger] comps[i][k] as nat,
                #[trigger] comps[j][l] as nat,
            ),
{
    let comps = petgraph::algo::tarjan_scc(g);
    comps.into_iter().map(|c| c.into_iter().map(|n| n.index()).collect()).collect()
}

/// A walk stays a walk when an edge is added under a fresh index and when
/// nodes are added.
pub proof fn lemma_walk_grows(
    nodes: Map<nat, Node>,
    edges: Map<nat, (nat, nat, Link)>,
    bigger_nodes: Map<nat, Node>,
    bigger_edges: Map<nat, (nat, nat, Link)>,
    p: Seq<nat>,
)
    requires
        is_walk(nodes, edges, p),
        nodes.dom().subset_of(bigger_nodes.dom()),
        forall|e: nat| #[trigger]
            edges.dom().contains(e) ==> bigger_edges.dom().contains(e) && bigger_edges[e]
                == edges[e],
    ensures
        is_walk(bigger_nodes, bigger_edges, p),
{
    assert forall|i: int| 0 <= i < p.len() - 1 implies #[trigger] step_follows_edge(
        bigger_edges,
        p,
        i,
    ) by {
        assert(step_follows_edge(edges, p, i));
        let e = choose|e: nat|
            #![trigger edges.dom().contains(e)]
            edges.dom().contains(e) && ((edges[e].0 == p[i] && edges[e].1 == p[i + 1]) || (
            edges[e].0 == p[i + 1] && edges[e].1 == p[i]));
        assert(bigger_edges.dom().contains(e));
    }
    assert forall|i: int| 0 <= i < p.len() implies bigger_nodes.dom().contains(#[trigger] p[i]) by {
        assert(nodes.dom().contains(p[i]));
    }
}

/// Reachability is symmetric: a walk from `x` to `y`, reversed, leads from `y` to `x`.
pub proof fn lemma_connected_symmetric(
    nodes: Map<nat, Node>,
    edges: Map<nat, (nat, nat, Link)>,
    x: nat,
    y: nat,
)
    requires
        connected(nodes, edges, x, y),
    ensures
        connected(nodes, edges, y, x),
{
    let p = choose|p: Seq<nat>| #[trigger] is_walk(nodes, edges, p) && p[0] == x && p.last() == y;
    let q = p.reverse();
    assert forall|i: int| 0 <= i < q.len() - 1 implies #[trigger] step_follows_edge(edges, q, i) by {
        let j = p.len() - 2 - i;
        assert(step_follows_edge(edges, p, j));
        assert(q[i] == p[j + 1]);
        assert(q[i + 1] == p[j]);
    }
    assert forall|i: int| 0 <= i < q.len() implies nodes.dom().contains(#[trigger] q[i]) by {
        assert(q[i] == p[p.len() - 1 - i]);
    }
    assert(is_walk(nodes, edges, q));
    assert(q[0] == y);
    assert(q.last() == x);
}

/// Reachability is transitive: a walk from `x` to `y` followed by one from `y`
/// to `z` leads from `x` to `z`.
pub proof fn lemma_connected_transitive(
    nodes: Map<nat, Node>,
    edges: Map<nat, (nat, nat, Link)>,
    x: nat,
    y: nat,
    z: nat,
)
    requires
        connected(nodes, edges, x, y),
        connected(nodes, edges, y, z),
    ensures
        connected(nodes, edges, x, z),
{
    let p = choose|p: Seq<nat>| #[trigger] is_walk(nodes, edges, p) && p[0] == x && p.last() == y;
    let q = choose|q: Seq<nat>| #[trigger] is_walk(nodes, edges, q) && q[0] == y && q.last() == z;
    let r = p + q.drop_first();
    assert forall|i: int| 0 <= i < r.len() implies nodes.dom().contains(#[trigger] r[i]) by {
        if i < p.len() {
            assert(r[i] == p[i]);
        } else {
            assert(r[i] == q[i - p.len() + 1]);
        }
    }
    assert forall|i: int| 0 <= i < r.len() - 1 implies #[trigger] step_follows_edge(edges, r, i) by {
        if i < p.len() - 1 {
            assert(step_follows_edge(edges, p, i));
            assert(r[i] == p[i] && r[i + 1] == p[i + 1]);
        } else {
            let j = i - p.len() + 1;
            assert(step_follows_edge(edges, q, j));
            if i == p.len() - 1 {
                assert(r[i] == p.last());
                assert(r[i] == q[0]);
            } else {
                assert(r[i] == q[j]);
            }
            assert(r[i + 1] == q[j + 1]);
        }
    }
    assert(is_walk(nodes, edges, r));
    if q.len() == 1 {
        assert(r =~= p);
    } else {
        assert(r.last() == q.last());
    }
}

/// Every node can reach itself.
pub proof fn lemma_connected_reflexive(nodes: Map<nat, Node>, edges: Map<nat, (nat, nat, Link)>, x: nat)
    requires
        nodes.dom().contains(x),
    ensures
        connected(nodes, edges, x, x),
{
    let p = seq![x];
    assert(is_walk(nodes, edges, p));
}

/// Adding a link keeps every node reachable from where it was reachable before.
pub proof fn lemma_link_keeps_reachability(
    nodes: Map<nat, Node>,
    edges: Map<nat, (nat, nat, Link)>,
    e: nat,
    link: (nat, nat, Link),
    x: nat,
    y: nat,
)
    requires
        connected(nodes, edges, x, y),
        !edges.dom().contains(e),
    ensures
        connected(nodes, edges.insert(e, link), x, y),
{
    let p = choose|p: Seq<nat>| #[trigger] is_walk(nodes, edges, p) && p[0] == x && p.last() == y;
    lemma_walk_grows(nodes, edges, nodes, edges.insert(e, link), p);
}

/// A network with at most one node is fully connected (an empty network too).
pub proof fn lemma_small_network_fully_connected(
    nodes: Map<nat, Node>,
    edges: Map<nat, (nat, nat, Link)>,
)
    requires
        nodes.dom().finite(),
        nodes.len() <= 1,
    ensures
        fully_connected(nodes, edges),
{
    assert forall|x: nat, y: nat|
        nodes.dom().contains(x) && nodes.dom().contains(y) implies #[trigger] connected(
        nodes,
        edges,
        x,
        y,
    ) by {
        if x != y {
            assert(nodes.dom().remove(x).contains(y));
            assert(nodes.dom().remove(x).len() == 0);
        }
        lemma_connected_reflexive(nodes, edges, x);
    }
}

/// Adding a link never disconnects a fully connected network.
pub proof fn lemma_link_keeps_fully_connected(
    nodes: Map<nat, Node>,
    edges: Map<nat, (nat, nat, Link)>,
    e: nat,
    link: (nat, nat, Link),
)
    requires
        fully_connected(nodes, edges),
        !edges.dom().contains(e),
    ensures
        fully_connected(nodes, edges.insert(e, link)),
{
    let bigger = edges.insert(e, link);
    assert forall|x: nat, y: nat|
        nodes.dom().contains(x) && nodes.dom().contains(y) implies #[trigger] connected(
        nodes,
        bigger,
        x,
        y,
    ) by {
        lemma_link_keeps_reachability(nodes, edges, e, link, x, y);
    }
}

/// After a link is added between `a` and `b`, `b` is reachable from `a`.
pub proof fn lemma_link_joins_its_ends(
    nodes: Map<nat, Node>,
    edges: Map<nat, (nat, nat, Link)>,
    e: nat,
    a: nat,
    b: nat,
    link: Link,
)
    requires
        nodes.dom().contains(a),
        nodes.dom().contains(b),
    ensures
        connected(nodes, edges.insert(e, (a, b, link)), a, b),
        connected(nodes, edges.insert(e, (a, b, link)), b, a),
{
    let bigger = edges.insert(e, (a, b, link));
    let p = seq![a, b];
    assert(bigger.dom().contains(e));
    assert(step_follows_edge(bigger, p, 0));
    assert(is_walk(nodes, bigger, p));
    lemma_connected_symmetric(nodes, bigger, a, b);
}

/// A node added to a non-empty network, before any link reaches it, leaves the
/// network not fully connected.
pub proof fn lemma_new_node_disconnects(
    nodes: Map<nat, Node>,
    edges: Map<nat, (nat, nat, Link)>,
    i: nat,
    node: Node,
    x: nat,
)
    requires
        edges_within(nodes, edges),
        !nodes.dom().contains(i),
        nodes.dom().contains(x),
    ensures
        !fully_connected(nodes.insert(i, node), edges),
{
    let bigger = nodes.insert(i, node);
    if connected(bigger, edges, i, x) {
        let p = choose|p: Seq<nat>| #[trigger] is_walk(bigger, edges, p) && p[0] == i && p.last() == x;
        assert(p.len() > 1);
        assert(step_follows_edge(edges, p, 0));
        let e = choose|e: nat|
            #![trigger edges.dom().contains(e)]
            edges.dom().contains(e) && ((edges[e].0 == p[0] && edges[e].1 == p[1]) || (
            edges[e].0 == p[1] && edges[e].1 == p[0]));
        assert(nodes.dom().contains(edges[e].0) && nodes.dom().contains(edges[e].1));
    }
    assert(bigger.dom().contains(i) && bigger.dom().contains(x));
}

/// Represents network topology
pub struct Network {
    /// Undirected graph with Node instances as nodes and Link instances as edges
    pub graph: Topology,
}

impl Network {
    /// The nodes of the network, by node index.
    pub open spec fn nodes(&self) -> Map<nat, Node> {
        graph_nodes(self.graph)
    }

    /// The links of the network, by link index: both endpoints and the link.
    pub open spec fn links(&self) -> Map<nat, (nat, nat, Link)> {
        graph_edges(self.graph)
    }

    /// Every link of the network joins two of its nodes.
    pub open spec fn well_formed(&self) -> bool {
        edges_within(self.nodes(), self.links())
    }

    /// Creates an empty Network.
    pub fn new() -> (network: Self)
        ensures
            network.nodes() == Map::<nat, Node>::empty(),
            network.links() == Map::<nat, (nat, nat, Link)>::empty(),
            network.well_formed(),
    {
        Network { graph: graph_default() }
    }

    /// Creates an empty Network with room reserved for the given numbers of nodes and links.
    pub fn with_capacity(node_capacity: usize, link_capacity: usize) -> (network: Self)
        ensures
            network.nodes() == Map::<nat, Node>::empty(),
            network.links() == Map::<nat, (nat, nat, Link)>::empty(),
            network.well_formed(),
    {
        Network { graph: graph_with_capacity(node_capacity, link_capacity) }
    }

    /// Adds a [`Node`] to the [`Network`] and returns its index, which is required
    /// to add [`Link`]s between [`Node`]s.
    pub fn add_node(&mut self, node: Node) -> (index: usize)
        requires
            old(self).nodes().dom().finite(),
            old(self).nodes().len() < index_limit(),
        ensures
            !old(self).nodes().dom().contains(index as nat),
            final(self).nodes() == old(self).nodes().insert(index as nat, node),
            final(self).links() == old(self).links(),
            old(self).well_formed() ==> final(self).well_formed(),
    {
        graph_add_node(&mut self.graph, node)
    }

    /// Creates an undirected connection between the nodes with indices `a` and `b`.
    pub fn add_link(&mut self, a: usize, b: usize, link: Link)
        requires
            old(self).nodes().dom().contains(a as nat),
            old(self).nodes().dom().contains(b as nat),
            old(self).links().dom().finite(),
            old(self).links().len() < index_limit(),
        ensures
            final(self).nodes() == old(self).nodes(),
            exists|e: nat|
                !old(self).links().dom().contains(e) && final(self).links() == old(
                    self,
                ).links().insert(e, (a as nat, b as nat, link)),
            old(self).well_formed() ==> final(self).well_formed(),
    {
        let e = graph_add_edge(&mut self.graph, a, b, link);
        assert(!old(self).links().dom().contains(e as nat));
    }

    /// Determines if every node in the network is reachable from every other node,
    /// that is, whether the network has at most one connected component.
    pub fn is_fully_connected(&self) -> (r: bool)
        ensures
            r == fully_connected(self.nodes(), self.links()),
    {
        let comps = graph_connected_components(&self.graph);
        let n = comps.len();
        if n == 0 {
            assert forall|x: nat, y: nat|
                self.nodes().dom().contains(x) && self.nodes().dom().contains(y) implies #[trigger] connected(
                self.nodes(),
                self.links(),
                x,
                y,
            ) by {
                assert(graph_nodes(self.graph).dom().contains(x));
            }
            true
        } else if n == 1 {
            assert forall|x: nat, y: nat|
                self.nodes().dom().contains(x) && self.nodes().dom().contains(y) implies #[trigger] connected(
                self.nodes(),
                self.links(),
                x,
                y,
            ) by {
                assert(graph_nodes(self.graph).dom().contains(x));
                assert(graph_nodes(self.graph).dom().contains(y));
                let (i, k) = choose|i: int, k: int|
                    0 <= i < comps.len() && 0 <= k < comps[i].len() && #[trigger] comps[i][k] == x;
                let (j, l) = choose|j: int, l: int|
                    0 <= j < comps.len() && 0 <= l < comps[j].len() && #[trigger] comps[j][l] == y;
                assert(connected(self.nodes(), self.links(), comps[i][k] as nat, comps[i][l] as nat));
            }
            true
        } else {
            assert(comps[0].len() > 0);
            assert(comps[1].len() > 0);
            let ghost x = comps[0][0] as nat;
            let ghost y = comps[1][0] as nat;
            assert(self.nodes().dom().contains(x));
            assert(self.nodes().dom().contains(y));
            assert(!connected(self.nodes(), self.links(), x, y));
            false
        }
    }
}

} // verus!

use crate::day10::Cell;
use petgraph::graph::Graph;
use petgraph::graph::NodeIndex;
use petgraph::Undirected;
use vstd::prelude::*;

verus! {

/// `petgraph::graph::Graph`, carried through as it is.
#[verifier::external_type_specification]
#[verifier::external_body]
#[verifier::reject_recursive_types(N)]
#[verifier::reject_recursive_types(E)]
#[verifier::reject_recursive_types(Ty)]
#[verifier::reject_recursive_types(Ix)]
pub struct ExGraph<N, E, Ty, Ix>(Graph<N, E, Ty, Ix>);

/// `petgraph::Undirected`, the marker of graphs whose edges have no direction.
#[verifier::external_type_specification]
#[verifier::external_body]
pub struct ExUndirected(Undirected);

/// An undirected graph whose nodes are cells; edge weights are not used.
pub type PipeGraph = Graph<Cell, usize, Undirected>;

/// The cells of a graph's nodes, by node index.
pub uninterp spec fn graph_nodes(g: PipeGraph) -> Seq<Cell>;

/// The end points of the edges that a graph holds, first end first, from
/// the oldest edge to the newest. This is the order in which `add_edge` put
/// the edges into the graph; the lists that the graph keeps for each node
/// follow it, and taking other edges or nodes out does not change it.
pub uninterp spec fn graph_edges(g: PipeGraph) -> Seq<(usize, usize)>;

/// Whether some edge joins `a` and `b`, in either orientation.
pub open spec fn has_edge(edges: Seq<(usize, usize)>, a: usize, b: usize) -> bool {
    exists|i: int| 0 <= i < edges.len() && (#[trigger] edges[i] == (a, b) || edges[i] == (b, a))
}

/// The far ends of the edges that were added with `a` as their first end
/// point, newest edge first.
pub open spec fn outgoing(edges: Seq<(usize, usize)>, a: usize) -> Seq<usize>
    decreases edges.len(),
{
    if edges.len() == 0 {
        Seq::empty()
    } else {
        let e = edges.last();
        let older = outgoing(edges.drop_last(), a);
        if e.0 == a {
            seq![e.1] + older
        } else {
            older
        }
    }
}

/// The far ends of the edges that were added with `a` as their second end
/// point and another node as their first, newest edge first.
pub open spec fn incoming(edges: Seq<(usize, usize)>, a: usize) -> Seq<usize>
    decreases edges.len(),
{
    if edges.len() == 0 {
        Seq::empty()
    } else {
        let e = edges.last();
        let older = incoming(edges.drop_last(), a);
        if e.1 == a && e.0 != a {
            seq![e.0] + older
        } else {
            older
        }
    }
}

/// The neighbours of `a` in the order in which the graph lists them: first
/// over the edges that leave `a`, then over those that arrive at it.
pub open spec fn neighbors_of(edges: Seq<(usize, usize)>, a: usize) -> Seq<usize> {
    outgoing(edges, a) + incoming(edges, a)
}

/// `Graph::new_undirected`: a graph without nodes and without edges.
#[verifier::external_body]
pub(crate) fn graph_new() -> (g: PipeGraph)
    ensures
        graph_nodes(g) == Seq::<Cell>::empty(),
        graph_edges(g) == Seq::<(usize, usize)>::empty(),
{
    Graph::new_undirected()
}

/// `Graph::node_count`: the number of nodes. A graph indexed by `u32` keeps
/// the largest `u32` free as an end marker, so `add_node` never lets the
/// count pass it.
#[verifier::external_body]
pub(crate) fn graph_node_count(g: &PipeGraph) -> (n: usize)
    ensures
        n == graph_nodes(*g).len(),
        n <= u32::MAX,
{
    g.node_count()
}

/// `Graph::add_node`: appends a node with the given cell and leaves the edges
/// alone. It panics when the index of the new node would be the end marker.
#[verifier::external_body]
pub(crate) fn graph_add_node(g: &mut PipeGraph, cell: Cell) -> (idx: usize)
    requires
        graph_nodes(*old(g)).len() < u32::MAX,
    ensures
        idx == graph_nodes(*old(g)).len(),
        graph_nodes(*final(g)) == graph_nodes(*old(g)).push(cell),
        graph_edges(*final(g)) == graph_edges(*old(g)),
{
    g.add_node(cell).index()
}

/// `Graph::add_edge`: appends an edge from `a` to `b` with the given weight,
/// also when one joins them already, and leaves the nodes alone. It panics
/// when a node does not exist or when the index of the new edge would be the
/// end marker.
#[verifier::external_body]
pub(crate) fn graph_add_edge(g: &mut PipeGraph, a: usize, b: usize, weight: usize)
    requires
        a < graph_nodes(*old(g)).len(),
        b < graph_nodes(*old(g)).len(),
        graph_edges(*old(g)).len() < u32::MAX,
    ensures
        graph_nodes(*final(g)) == graph_nodes(*old(g)),
        graph_edges(*final(g)) == graph_edges(*old(g)).push((a, b)),
{
    g.add_edge(NodeIndex::new(a), NodeIndex::new(b), weight);
}

/// `Graph::contains_edge` on an undirected graph: whether an edge joins the
/// two nodes, whichever of them it was added from.
#[verifier::external_body]
pub(crate) fn graph_contains_edge(g: &PipeGraph, a: usize, b: usize) -> (found: bool)
    requires
        a < graph_nodes(*g).len(),
        b < graph_nodes(*g).len(),
    ensures
        found == has_edge(graph_edges(*g), a, b),
{
    g.contains_edge(NodeIndex::new(a), NodeIndex::new(b))
}

/// Indexing a graph by a node: the cell of that node. It panics when the node
/// does not exist.
#[verifier::external_body]
pub(crate) fn graph_cell(g: &PipeGraph, a: usize) -> (cell: Cell)
    requires
        a < graph_nodes(*g).len(),
    ensures
        cell == graph_nodes(*g)[a as int],
{
    g[NodeIndex::new(a)]
}

/// `Graph::neighbors` on an undirected graph: it walks the list of edges that
/// leave `a` and then the list of edges that arrive at `a`, each from the
/// newest edge to the oldest, and skips in the second list the edges from `a`
/// to itself. Every node it yields exists, since `add_edge` takes no other.
/// The order is that of the lists as petgraph 0.6.5 keeps them; its
/// documentation promises none, so the dependency is held to that release.
#[verifier::external_body]
pub(crate) fn graph_neighbors(g: &PipeGraph, a: usize) -> (nb: Vec<usize>)
    requires
        a < graph_nodes(*g).len(),
    ensures
        nb@ == neighbors_of(graph_edges(*g), a),
        forall|i: int| 0 <= i < nb.len() ==> nb[i] < graph_nodes(*g).len(),
{
    g.neighbors(NodeIndex::new(a)).map(|n| n.index()).collect()
}

} // verus!

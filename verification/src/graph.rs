//! The product graph: a directed multigraph whose nodes carry a product's
//! identity and category label.
//!
//! The graph itself is `petgraph`'s. This module names what such a graph
//! holds and states, operation by operation, how each call changes it.

use vstd::prelude::*;

verus! {

/// `petgraph::graph::Graph`, taken as it stands: nothing inside a graph is
/// visible to the proofs, which know it by `graph_nodes` and `graph_edges`.
#[verifier::external_type_specification]
#[verifier::external_body]
#[verifier::reject_recursive_types(N)]
#[verifier::reject_recursive_types(E)]
#[verifier::reject_recursive_types(Ty)]
#[verifier::reject_recursive_types(Ix)]
pub struct ExGraph<N, E, Ty, Ix>(petgraph::graph::Graph<N, E, Ty, Ix>);

/// `petgraph::Directed`, the marker of graphs whose edges have a direction.
#[verifier::external_type_specification]
#[verifier::external_body]
pub struct ExDirected(petgraph::Directed);

/// A directed graph of products.
pub type ProductGraph = petgraph::graph::Graph<(u32, String), (), petgraph::Directed, u32>;

/// The nodes of a graph in index order: product identity and category label.
pub uninterp spec fn graph_nodes(g: ProductGraph) -> Seq<(u32, Seq<char>)>;

/// The edges of a graph in index order: the indices of source and target.
pub uninterp spec fn graph_edges(g: ProductGraph) -> Seq<(usize, usize)>;

/// The largest number of nodes, and of edges, that a graph can hold.
pub const CAPACITY: usize = 0xffff_ffff;

/// Calls `petgraph::graph::Graph::new`, which makes a directed graph
/// without nodes or edges.
#[verifier::external_body]
pub(crate) fn graph_new() -> (g: ProductGraph)
    ensures
        graph_nodes(g) == Seq::<(u32, Seq<char>)>::empty(),
        graph_edges(g) == Seq::<(usize, usize)>::empty(),
{
    petgraph::graph::Graph::new()
}

/// Calls `Graph::node_count`, the number of nodes.
#[verifier::external_body]
pub(crate) fn node_count(g: &ProductGraph) -> (n: usize)
    ensures
        n == graph_nodes(*g).len(),
{
    g.node_count()
}

/// Calls `Graph::edge_count`, the number of edges.
#[verifier::external_body]
pub(crate) fn edge_count(g: &ProductGraph) -> (n: usize)
    ensures
        n == graph_edges(*g).len(),
{
    g.edge_count()
}

/// Calls `Graph::add_node`, which appends a node with the given weight and
/// returns its index, the number of nodes before the call. It panics on a
/// graph that already holds as many nodes as its 32-bit index can count,
/// which the precondition leaves out. Edges are not touched.
#[verifier::external_body]
pub(crate) fn add_node(g: &mut ProductGraph, id: u32, category: String) -> (index: usize)
    requires
        graph_nodes(*old(g)).len() < CAPACITY,
    ensures
        graph_nodes(*final(g)) == graph_nodes(*old(g)).push((id, category@)),
        graph_edges(*final(g)) == graph_edges(*old(g)),
        index == graph_nodes(*old(g)).len(),
{
    g.add_node((id, category)).index()
}

/// Calls `Graph::add_edge`, which appends an edge from node `a` to node `b`;
/// parallel edges and self-loops are kept. It panics where a node does not
/// exist or where the graph already holds as many edges as its 32-bit index
/// can count; the precondition leaves both out. Nodes are not touched.
#[verifier::external_body]
pub(crate) fn add_edge(g: &mut ProductGraph, a: usize, b: usize)
    requires
        a < graph_nodes(*old(g)).len(),
        b < graph_nodes(*old(g)).len(),
        graph_edges(*old(g)).len() < CAPACITY,
    ensures
        graph_nodes(*final(g)) == graph_nodes(*old(g)),
        graph_edges(*final(g)) == graph_edges(*old(g)).push((a, b)),
{
    g.add_edge(petgraph::graph::NodeIndex::new(a), petgraph::graph::NodeIndex::new(b), ());
}

/// Calls `Graph::node_weight` on an existing node and copies what it
/// finds: the node's product identity and category label.
#[verifier::external_body]
pub(crate) fn node_weight(g: &ProductGraph, index: usize) -> (w: Option<(u32, String)>)
    requires
        index < graph_nodes(*g).len(),
    ensures
        w.deep_view() == Some(graph_nodes(*g)[index as int]),
{
    g.node_weight(petgraph::graph::NodeIndex::new(index)).map(|w| (w.0, w.1.clone()))
}

/// Calls `Graph::edge_endpoints` on an existing edge: the indices of its
/// source and target nodes. Both are nodes of the graph, since `add_edge`
/// takes no edge whose ends are not.
#[verifier::external_body]
pub(crate) fn edge_endpoints(g: &ProductGraph, index: usize) -> (ends: Option<(usize, usize)>)
    requires
        index < graph_edges(*g).len(),
    ensures
        ends == Some(graph_edges(*g)[index as int]),
        ends matches Some(e) ==> e.0 < graph_nodes(*g).len() && e.1 < graph_nodes(*g).len(),
{
    g.edge_endpoints(petgraph::graph::EdgeIndex::new(index)).map(|(a, b)| (a.index(), b.index()))
}

/// The targets of the edges that leave node `a`, in edge order.
pub open spec fn targets_from(edges: Seq<(usize, usize)>, a: usize) -> Seq<usize>
    decreases edges.len(),
{
    if edges.len() == 0 {
        Seq::empty()
    } else if edges.last().0 == a {
        targets_from(edges.drop_last(), a).push(edges.last().1)
    } else {
        targets_from(edges.drop_last(), a)
    }
}

/// Calls `Graph::neighbors` on an existing node of a directed graph and
/// collects the indices it yields: the target of every edge that leaves the
/// node, once for each such edge, each a node of the graph. The order in
/// which they come is not part of the contract.
#[verifier::external_body]
pub(crate) fn neighbors(g: &ProductGraph, a: usize) -> (out: Vec<usize>)
    requires
        a < graph_nodes(*g).len(),
    ensures
        out@.to_multiset() == targets_from(graph_edges(*g), a).to_multiset(),
        forall|k: int| 0 <= k < out.len() ==> #[trigger] out[k] < graph_nodes(*g).len(),
{
    g.neighbors(petgraph::graph::NodeIndex::new(a)).map(|n| n.index()).collect()
}

/// One node of a graph with the products that its outgoing edges reach.
#[derive(Debug, PartialEq, Eq)]
pub struct AdjacencyEntry {
    pub product_id: u32,
    pub category: String,
    pub neighbors: Vec<u32>,
}

/// The product identities of those of `targets` that are nodes, in order.
pub open spec fn ids_of(nodes: Seq<(u32, Seq<char>)>, targets: Seq<usize>) -> Seq<u32>
    decreases targets.len(),
{
    if targets.len() == 0 {
        Seq::empty()
    } else if targets.last() < nodes.len() {
        ids_of(nodes, targets.drop_last()).push(nodes[targets.last() as int].0)
    } else {
        ids_of(nodes, targets.drop_last())
    }
}

/// Whether `entry` describes node `index`: its identity, its label, and the
/// identities of the targets of its outgoing edges, each edge once, in some
/// order.
pub open spec fn describes_node(
    entry: AdjacencyEntry,
    nodes: Seq<(u32, Seq<char>)>,
    edges: Seq<(usize, usize)>,
    index: usize,
) -> bool {
    &&& entry.product_id == nodes[index as int].0
    &&& entry.category@ == nodes[index as int].1
    &&& exists|order: Seq<usize>|
        {
            &&& #[trigger] order.to_multiset() == targets_from(edges, index).to_multiset()
            &&& entry.neighbors@ == ids_of(nodes, order)
        }
}

/// For each node of the graph, in index order, the products that its
/// outgoing edges reach.
pub fn adjacency_list(graph: &ProductGraph) -> (out: Vec<AdjacencyEntry>)
    ensures
        out.len() == graph_nodes(*graph).len(),
        forall|i: int|
            0 <= i < out.len() ==> describes_node(
                #[trigger] out[i],
                graph_nodes(*graph),
                graph_edges(*graph),
                i as usize,
            ),
{
    let ghost nodes = graph_nodes(*graph);
    let ghost edges = graph_edges(*graph);
    let total = node_count(graph);
    let mut out: Vec<AdjacencyEntry> = Vec::new();
    let mut a: usize = 0;
    while a < total
        invariant
            a <= total == nodes.len(),
            nodes == graph_nodes(*graph),
            edges == graph_edges(*graph),
            out.len() == a,
            forall|i: int|
                0 <= i < out.len() ==> describes_node(#[trigger] out[i], nodes, edges, i as usize),
        decreases total - a,
    {
        let (product_id, category) = node_weight(graph, a).unwrap();
        let around = neighbors(graph, a);
        let mut reached: Vec<u32> = Vec::new();
        let mut k: usize = 0;
        assert(around@.take(0) == Seq::<usize>::empty());
        while k < around.len()
            invariant
                k <= around.len(),
                total == nodes.len(),
                nodes == graph_nodes(*graph),
                forall|q: int| 0 <= q < around.len() ==> #[trigger] around[q] < nodes.len(),
                reached@ == ids_of(nodes, around@.take(k as int)),
            decreases around.len() - k,
        {
            assert(around@.take(k + 1).drop_last() == around@.take(k as int));
            let (id, _) = node_weight(graph, around[k]).unwrap();
            reached.push(id);
            k += 1;
        }
        assert(around@.take(k as int) == around@);
        let entry = AdjacencyEntry { product_id, category, neighbors: reached };
        assert(describes_node(entry, nodes, edges, a)) by {
            assert(around@.to_multiset() == targets_from(edges, a).to_multiset());
        }
        out.push(entry);
        a += 1;
    }
    out
}

} // verus!

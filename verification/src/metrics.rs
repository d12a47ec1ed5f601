//! Statistics of a product graph: the average degree of its nodes, and for
//! each category the share of its outgoing edges that stay inside it.

use vstd::prelude::*;
use crate::graph::{
    edge_count, edge_endpoints, graph_edges, graph_nodes, neighbors, node_count, node_weight,
    targets_from, ProductGraph,
};
use crate::ratio::Ratio;
use crate::text::position_of;

verus! {

/// The number of edges that leave node `a`.
pub open spec fn out_edges(edges: Seq<(usize, usize)>, a: usize) -> nat {
    targets_from(edges, a).len()
}

/// The number of neighbours of node `a`: the distinct nodes that its
/// outgoing edges reach. Parallel edges reach one neighbour; a loop makes
/// the node its own neighbour.
pub open spec fn out_degree(edges: Seq<(usize, usize)>, a: usize) -> nat {
    targets_from(edges, a).to_set().len()
}

/// The numbers of neighbours of the first `n` nodes, added up.
pub open spec fn degree_sum(edges: Seq<(usize, usize)>, n: nat) -> nat
    decreases n,
{
    if n == 0 {
        0
    } else {
        degree_sum(edges, (n - 1) as nat) + out_degree(edges, (n - 1) as usize)
    }
}

/// The numbers of outgoing edges of the first `n` nodes, added up.
pub open spec fn out_edges_sum(edges: Seq<(usize, usize)>, n: nat) -> nat
    decreases n,
{
    if n == 0 {
        0
    } else {
        out_edges_sum(edges, (n - 1) as nat) + out_edges(edges, (n - 1) as usize)
    }
}

/// The number of edges whose source is one of the first `n` nodes.
pub open spec fn edges_leaving(edges: Seq<(usize, usize)>, n: nat) -> nat
    decreases edges.len(),
{
    if edges.len() == 0 {
        0
    } else {
        edges_leaving(edges.drop_last(), n) + if edges.last().0 < n {
            1nat
        } else {
            0nat
        }
    }
}

/// Adding up outgoing edges node by node counts each edge once, at its
/// source.
pub proof fn lemma_out_edges_sum_counts_edges(edges: Seq<(usize, usize)>, n: nat)
    requires
        n <= usize::MAX + 1,
    ensures
        out_edges_sum(edges, n) == edges_leaving(edges, n),
    decreases edges.len(), n,
{
    if edges.len() == 0 {
        if n > 0 {
            lemma_out_edges_sum_counts_edges(edges, (n - 1) as nat);
        }
    } else if n == 0 {
        lemma_out_edges_sum_counts_edges(edges.drop_last(), n);
    } else {
        let m = (n - 1) as nat;
        lemma_out_edges_sum_counts_edges(edges, m);
        lemma_out_edges_sum_counts_edges(edges.drop_last(), m);
        lemma_out_edges_sum_counts_edges(edges.drop_last(), n);
    }
}

/// No more edges leave a set of nodes than there are edges.
pub proof fn lemma_edges_leaving_bound(edges: Seq<(usize, usize)>, n: nat)
    ensures
        edges_leaving(edges, n) <= edges.len(),
    decreases edges.len(),
{
    if edges.len() > 0 {
        lemma_edges_leaving_bound(edges.drop_last(), n);
    }
}

/// A node has no more neighbours than outgoing edges, so the numbers of
/// neighbours add up to no more than the number of edges.
pub proof fn lemma_degree_sum_bound(edges: Seq<(usize, usize)>, n: nat)
    requires
        n <= usize::MAX + 1,
    ensures
        degree_sum(edges, n) <= out_edges_sum(edges, n) <= edges.len(),
    decreases n,
{
    lemma_out_edges_sum_counts_edges(edges, n);
    lemma_edges_leaving_bound(edges, n);
    if n > 0 {
        lemma_degree_sum_bound(edges, (n - 1) as nat);
        targets_from(edges, (n - 1) as usize).lemma_cardinality_of_set();
    }
}

/// Where no two edges join the same nodes in the same direction, a node
/// has as many neighbours as outgoing edges.
pub proof fn lemma_degree_without_parallel_edges(edges: Seq<(usize, usize)>, n: nat)
    requires
        n <= usize::MAX + 1,
        forall|a: usize| a < n ==> (#[trigger] targets_from(edges, a)).no_duplicates(),
    ensures
        degree_sum(edges, n) == out_edges_sum(edges, n),
        degree_sum(edges, n) == edges_leaving(edges, n),
    decreases n,
{
    lemma_out_edges_sum_counts_edges(edges, n);
    if n > 0 {
        lemma_degree_without_parallel_edges(edges, (n - 1) as nat);
        lemma_out_edges_sum_counts_edges(edges, (n - 1) as nat);
        let a = (n - 1) as usize;
        assert(targets_from(edges, a).no_duplicates());
        targets_from(edges, a).unique_seq_to_set();
    }
}

/// The number of distinct values among `items`.
pub fn count_distinct(items: &Vec<usize>) -> (n: usize)
    ensures
        n == items@.to_set().len(),
{
    let mut seen: Vec<usize> = Vec::new();
    let mut k: usize = 0;
    assert(seen@.to_set() =~= items@.take(0).to_set());
    while k < items.len()
        invariant
            k <= items.len(),
            seen.len() <= k,
            seen@.no_duplicates(),
            seen@.to_set() == items@.take(k as int).to_set(),
        decreases items.len() - k,
    {
        let x = items[k];
        let ghost before = seen@;
        let mut found = false;
        let mut j: usize = 0;
        while j < seen.len()
            invariant
                j <= seen.len(),
                found == exists|q: int| 0 <= q < j && seen[q] == x,
            decreases seen.len() - j,
        {
            if seen[j] == x {
                found = true;
            }
            j += 1;
        }
        if !found {
            seen.push(x);
        }
        proof {
            let part = items@.take(k as int);
            let more = items@.take(k + 1);
            assert(more == part.push(x));
            assert forall|v: usize| more.to_set().contains(v) <==> seen@.to_set().contains(
                v,
            ) by {
                assert(part.to_set().contains(v) <==> before.to_set().contains(v));
                if more.contains(v) {
                    let q = choose|q: int| 0 <= q < more.len() && more[q] == v;
                    if q < part.len() {
                        assert(part[q] == v);
                        assert(part.contains(v));
                        assert(before.contains(v));
                        let w = choose|w: int| 0 <= w < before.len() && before[w] == v;
                        assert(seen@[w] == v);
                    } else if found {
                        let w = choose|w: int| 0 <= w < before.len() && before[w] == x;
                        assert(seen@[w] == v);
                    } else {
                        assert(seen@[seen@.len() - 1] == v);
                    }
                }
                if seen@.contains(v) {
                    let w = choose|w: int| 0 <= w < seen@.len() && seen@[w] == v;
                    if w < before.len() {
                        assert(before[w] == v);
                        assert(before.contains(v));
                        assert(part.contains(v));
                        let q = choose|q: int| 0 <= q < part.len() && part[q] == v;
                        assert(more[q] == v);
                    } else {
                        assert(more[k as int] == v);
                    }
                }
            }
            assert(more.to_set() =~= seen@.to_set());
        }
        k += 1;
    }
    proof {
        assert(items@.take(k as int) == items@);
        seen@.unique_seq_to_set();
    }
    seen.len()
}

/// Two sequences with the same elements, each as often, have the same
/// distinct elements.
pub proof fn lemma_same_elements(a: Seq<usize>, b: Seq<usize>)
    requires
        a.to_multiset() == b.to_multiset(),
    ensures
        a.to_set() == b.to_set(),
{
    a.to_multiset_ensures();
    b.to_multiset_ensures();
    assert forall|v: usize| a.to_set().contains(v) <==> b.to_set().contains(v) by {
        assert(a.contains(v) <==> a.to_multiset().count(v) > 0);
        assert(b.contains(v) <==> b.to_multiset().count(v) > 0);
    }
    assert(a.to_set() =~= b.to_set());
}

/// The mean number of neighbours of a node: the numbers of distinct nodes
/// that the outgoing edges of each node reach, added up, over the number of
/// nodes. A graph without nodes has the mean zero, written `0 / 1`.
pub fn calculate_average_degree_centrality(graph: &ProductGraph) -> (r: Ratio)
    ensures
        r.is_defined(),
        graph_nodes(*graph).len() == 0 ==> r.written_as(0, 1),
        graph_nodes(*graph).len() > 0 ==> r.written_as(
            degree_sum(graph_edges(*graph), graph_nodes(*graph).len()) as int,
            graph_nodes(*graph).len() as int,
        ),
{
    let total_nodes = node_count(graph);
    if total_nodes == 0 {
        return Ratio::zero();
    }
    let total_edges = edge_count(graph);
    let ghost edges = graph_edges(*graph);
    let mut total_degree: usize = 0;
    let mut a: usize = 0;
    while a < total_nodes
        invariant
            a <= total_nodes == graph_nodes(*graph).len(),
            edges == graph_edges(*graph),
            total_edges == edges.len(),
            total_degree == degree_sum(edges, a as nat),
        decreases total_nodes - a,
    {
        let around = neighbors(graph, a);
        let reached = count_distinct(&around);
        proof {
            lemma_same_elements(around@, targets_from(edges, a));
            lemma_degree_sum_bound(edges, (a + 1) as nat);
        }
        total_degree = total_degree + reached;
        a += 1;
    }
    Ratio::new(total_degree as u128, total_nodes as u128)
}

/// Whether both ends of the edge are nodes of the graph.
pub open spec fn joins_nodes(nodes: Seq<(u32, Seq<char>)>, e: (usize, usize)) -> bool {
    e.0 < nodes.len() && e.1 < nodes.len()
}

/// Whether the edge starts at a node of category `c`.
pub open spec fn leaves(nodes: Seq<(u32, Seq<char>)>, e: (usize, usize), c: Seq<char>) -> bool {
    joins_nodes(nodes, e) && nodes[e.0 as int].1 == c
}

/// Whether the edge starts and ends at nodes of category `c`.
pub open spec fn stays_inside(nodes: Seq<(u32, Seq<char>)>, e: (usize, usize), c: Seq<char>) -> bool {
    leaves(nodes, e, c) && nodes[e.1 as int].1 == c
}

/// The number of edges that start and end in category `c`.
pub open spec fn in_count(nodes: Seq<(u32, Seq<char>)>, edges: Seq<(usize, usize)>, c: Seq<char>) -> nat
    decreases edges.len(),
{
    if edges.len() == 0 {
        0
    } else {
        in_count(nodes, edges.drop_last(), c) + if stays_inside(nodes, edges.last(), c) {
            1nat
        } else {
            0nat
        }
    }
}

/// The number of edges that start in category `c` and end in another.
pub open spec fn cross_count(
    nodes: Seq<(u32, Seq<char>)>,
    edges: Seq<(usize, usize)>,
    c: Seq<char>,
) -> nat
    decreases edges.len(),
{
    if edges.len() == 0 {
        0
    } else {
        cross_count(nodes, edges.drop_last(), c) + if leaves(nodes, edges.last(), c)
            && !stays_inside(nodes, edges.last(), c) {
            1nat
        } else {
            0nat
        }
    }
}

/// The categories at which an edge starts, each once, in the order in which
/// the edges first reach them.
pub open spec fn source_categories(nodes: Seq<(u32, Seq<char>)>, edges: Seq<(usize, usize)>) -> Seq<
    Seq<char>,
>
    decreases edges.len(),
{
    if edges.len() == 0 {
        Seq::empty()
    } else {
        let before = source_categories(nodes, edges.drop_last());
        let e = edges.last();
        if joins_nodes(nodes, e) && !before.contains(nodes[e.0 as int].1) {
            before.push(nodes[e.0 as int].1)
        } else {
            before
        }
    }
}

/// Of the edges that leave one category, how many stay inside it and how
/// many reach another.
#[derive(Debug, PartialEq, Eq)]
pub struct CoPurchase {
    pub category: String,
    pub in_category: usize,
    pub cross_category: usize,
}

impl CoPurchase {
    /// The share of the category's outgoing edges that stay inside it; zero,
    /// written `0 / 1`, where it has none.
    pub fn in_category_ratio(&self) -> (r: Ratio)
        ensures
            r.is_defined(),
            self.in_category + self.cross_category > 0 ==> r.written_as(
                self.in_category as int,
                self.in_category + self.cross_category,
            ),
            self.in_category + self.cross_category == 0 ==> r.written_as(0, 1),
    {
        let total: u128 = self.in_category as u128 + self.cross_category as u128;
        if total > 0 {
            Ratio::new(self.in_category as u128, total)
        } else {
            Ratio::zero()
        }
    }

    /// The share of the category's outgoing edges that reach another
    /// category; zero, written `0 / 1`, where it has none.
    pub fn cross_category_ratio(&self) -> (r: Ratio)
        ensures
            r.is_defined(),
            self.in_category + self.cross_category > 0 ==> r.written_as(
                self.cross_category as int,
                self.in_category + self.cross_category,
            ),
            self.in_category + self.cross_category == 0 ==> r.written_as(0, 1),
    {
        let total: u128 = self.in_category as u128 + self.cross_category as u128;
        if total > 0 {
            Ratio::new(self.cross_category as u128, total)
        } else {
            Ratio::zero()
        }
    }
}

/// Whether the three sequences hold, label by label, the counts of the
/// edges: the labels are the categories at which an edge starts, and beside
/// each stand the number of its edges that stay and the number that leave.
pub open spec fn tallies(
    labels: Seq<Seq<char>>,
    inside: Seq<usize>,
    across: Seq<usize>,
    nodes: Seq<(u32, Seq<char>)>,
    edges: Seq<(usize, usize)>,
) -> bool {
    &&& labels == source_categories(nodes, edges)
    &&& inside.len() == labels.len()
    &&& across.len() == labels.len()
    &&& forall|i: int|
        #![trigger inside[i]]
        #![trigger across[i]]
        #![trigger labels[i]]
        0 <= i < labels.len() ==> inside[i] == in_count(nodes, edges, labels[i]) && across[i]
            == cross_count(nodes, edges, labels[i])
}

/// Whether the second tally is the first with one more edge counted: the
/// edge starts in category `c`, which stands at position `at` or is new,
/// and `same` says whether it ends there too.
pub open spec fn counts_one_more_edge(
    labels: Seq<Seq<char>>,
    inside: Seq<usize>,
    across: Seq<usize>,
    labels2: Seq<Seq<char>>,
    inside2: Seq<usize>,
    across2: Seq<usize>,
    c: Seq<char>,
    same: bool,
    at: Option<int>,
) -> bool {
    match at {
        Some(p) => {
            &&& 0 <= p < labels.len()
            &&& labels[p] == c
            &&& labels2 == labels
            &&& inside2 == if same {
                inside.update(p, (inside[p] + 1) as usize)
            } else {
                inside
            }
            &&& across2 == if same {
                across
            } else {
                across.update(p, (across[p] + 1) as usize)
            }
        },
        None => {
            &&& !labels.contains(c)
            &&& labels2 == labels.push(c)
            &&& inside2 == inside.push(
                if same {
                    1usize
                } else {
                    0usize
                },
            )
            &&& across2 == across.push(
                if same {
                    0usize
                } else {
                    1usize
                },
            )
        },
    }
}

/// No category has more edges counted for it than there are edges.
pub proof fn lemma_counts_bound(
    nodes: Seq<(u32, Seq<char>)>,
    edges: Seq<(usize, usize)>,
    c: Seq<char>,
)
    ensures
        in_count(nodes, edges, c) <= edges.len(),
        cross_count(nodes, edges, c) <= edges.len(),
    decreases edges.len(),
{
    if edges.len() > 0 {
        lemma_counts_bound(nodes, edges.drop_last(), c);
    }
}

/// Counting one more edge keeps a tally right.
pub proof fn lemma_tally_step(
    labels: Seq<Seq<char>>,
    inside: Seq<usize>,
    across: Seq<usize>,
    labels2: Seq<Seq<char>>,
    inside2: Seq<usize>,
    across2: Seq<usize>,
    nodes: Seq<(u32, Seq<char>)>,
    edges: Seq<(usize, usize)>,
    e: (usize, usize),
    at: Option<int>,
)
    requires
        tallies(labels, inside, across, nodes, edges),
        joins_nodes(nodes, e),
        edges.len() < usize::MAX,
        counts_one_more_edge(
            labels,
            inside,
            across,
            labels2,
            inside2,
            across2,
            nodes[e.0 as int].1,
            nodes[e.1 as int].1 == nodes[e.0 as int].1,
            at,
        ),
    ensures
        tallies(labels2, inside2, across2, nodes, edges.push(e)),
{
    let c = nodes[e.0 as int].1;
    let next = edges.push(e);
    assert(next.drop_last() == edges);
    assert(next.last() == e);
    lemma_source_categories(nodes, edges, c);
    lemma_counts_bound(nodes, edges, c);
    match at {
        Some(p) => {
            assert(labels.contains(c));
            assert forall|i: int|
                #![trigger inside2[i]]
                #![trigger across2[i]]
                #![trigger labels2[i]]
                0 <= i < labels2.len() implies inside2[i] == in_count(nodes, next, labels2[i])
                && across2[i] == cross_count(nodes, next, labels2[i]) by {
                assert(inside[i] == in_count(nodes, edges, labels[i]));
                assert(across[i] == cross_count(nodes, edges, labels[i]));
                if i != p {
                    assert(labels[i] != labels[p]);
                }
            }
        },
        None => {
            lemma_absent_category_counts(nodes, edges, c);
            assert forall|i: int|
                #![trigger inside2[i]]
                #![trigger across2[i]]
                #![trigger labels2[i]]
                0 <= i < labels2.len() implies inside2[i] == in_count(nodes, next, labels2[i])
                && across2[i] == cross_count(nodes, next, labels2[i]) by {
                if i < labels.len() {
                    assert(inside[i] == in_count(nodes, edges, labels[i]));
                    assert(across[i] == cross_count(nodes, edges, labels[i]));
                    assert(labels[i] != c);
                }
            }
        },
    }
}

/// The namespace of the co-purchase statistics.
pub struct AmazonDataAnalysis;

impl AmazonDataAnalysis {
    /// For every category at which an edge starts, the number of its
    /// outgoing edges that end in the same category and the number that end
    /// in another. Categories come in the order in which the edges first
    /// reach them; a category without outgoing edges has no entry.
    pub fn calculate_co_purchase_ratios(global_graph: &ProductGraph) -> (out: Vec<CoPurchase>)
        ensures
            out.len() == source_categories(
                graph_nodes(*global_graph),
                graph_edges(*global_graph),
            ).len(),
            forall|i: int|
                0 <= i < out.len() ==> {
                    &&& (#[trigger] out[i]).category@ == source_categories(
                        graph_nodes(*global_graph),
                        graph_edges(*global_graph),
                    )[i]
                    &&& out[i].in_category == in_count(
                        graph_nodes(*global_graph),
                        graph_edges(*global_graph),
                        out[i].category@,
                    )
                    &&& out[i].cross_category == cross_count(
                        graph_nodes(*global_graph),
                        graph_edges(*global_graph),
                        out[i].category@,
                    )
                },
            forall|e: int|
                0 <= e < graph_edges(*global_graph).len() ==> joins_nodes(
                    graph_nodes(*global_graph),
                    #[trigger] graph_edges(*global_graph)[e],
                ),
    {
        let ghost nodes = graph_nodes(*global_graph);
        let ghost edges = graph_edges(*global_graph);
        let total_edges = edge_count(global_graph);
        let mut labels: Vec<String> = Vec::new();
        let mut inside: Vec<usize> = Vec::new();
        let mut across: Vec<usize> = Vec::new();
        let mut e: usize = 0;
        assert(edges.take(0) == Seq::<(usize, usize)>::empty());
        assert(labels.deep_view() == Seq::<Seq<char>>::empty());
        while e < total_edges
            invariant
                e <= total_edges == edges.len(),
                nodes == graph_nodes(*global_graph),
                edges == graph_edges(*global_graph),
                tallies(labels.deep_view(), inside@, across@, nodes, edges.take(e as int)),
                forall|q: int| 0 <= q < e ==> joins_nodes(nodes, #[trigger] edges[q]),
            decreases total_edges - e,
        {
            let ghost seen = edges.take(e as int);
            let ghost old_labels = labels.deep_view();
            let ghost old_inside = inside@;
            let ghost old_across = across@;
            assert(edges.take(e + 1) == seen.push(edges[e as int]));
            let (source, target) = edge_endpoints(global_graph, e).unwrap();
            let (_, source_label) = node_weight(global_graph, source).unwrap();
            let (_, target_label) = node_weight(global_graph, target).unwrap();
            let same = source_label == target_label;
            let ghost c = source_label@;
            let found = position_of(&labels, &source_label);
            let ghost at: Option<int> = match found {
                Some(p) => Some(p as int),
                None => None,
            };
            proof {
                lemma_counts_bound(nodes, seen, c);
            }
            match found {
                Some(p) => {
                    assert(old_labels[p as int] == labels[p as int]@);
                    if same {
                        let n = inside[p];
                        inside.set(p, n + 1);
                    } else {
                        let n = across[p];
                        across.set(p, n + 1);
                    }
                },
                None => {
                    labels.push(source_label);
                    inside.push(
                        if same {
                            1
                        } else {
                            0
                        },
                    );
                    across.push(
                        if same {
                            0
                        } else {
                            1
                        },
                    );
                    assert(labels.deep_view() =~= old_labels.push(c));
                },
            }
            proof {
                lemma_tally_step(
                    old_labels,
                    old_inside,
                    old_across,
                    labels.deep_view(),
                    inside@,
                    across@,
                    nodes,
                    seen,
                    edges[e as int],
                    at,
                );
            }
            e += 1;
        }
        assert(edges.take(e as int) == edges);
        let mut out: Vec<CoPurchase> = Vec::new();
        let mut i: usize = 0;
        while i < labels.len()
            invariant
                i <= labels.len(),
                labels.len() == inside.len() == across.len(),
                out.len() == i,
                forall|k: int|
                    0 <= k < i ==> {
                        &&& (#[trigger] out[k]).category@ == labels[k]@
                        &&& out[k].in_category == inside[k]
                        &&& out[k].cross_category == across[k]
                    },
            decreases labels.len() - i,
        {
            out.push(
                CoPurchase {
                    category: labels[i].clone(),
                    in_category: inside[i],
                    cross_category: across[i],
                },
            );
            i += 1;
        }
        assert forall|i: int| 0 <= i < out.len() implies {
            &&& (#[trigger] out[i]).category@ == source_categories(nodes, edges)[i]
            &&& out[i].in_category == in_count(nodes, edges, out[i].category@)
            &&& out[i].cross_category == cross_count(nodes, edges, out[i].category@)
        } by {
            assert(labels.deep_view()[i] == labels[i]@);
        }
        out
    }
}

/// A category that no edge has reached yet has no edge counted for it.
pub proof fn lemma_absent_category_counts(
    nodes: Seq<(u32, Seq<char>)>,
    edges: Seq<(usize, usize)>,
    c: Seq<char>,
)
    requires
        !source_categories(nodes, edges).contains(c),
    ensures
        in_count(nodes, edges, c) == 0,
        cross_count(nodes, edges, c) == 0,
    decreases edges.len(),
{
    if edges.len() > 0 {
        let before = source_categories(nodes, edges.drop_last());
        let e = edges.last();
        if joins_nodes(nodes, e) && !before.contains(nodes[e.0 as int].1) {
            let label = nodes[e.0 as int].1;
            assert(before.push(label).last() == label);
            assert(label != c);
            assert forall|k: int| 0 <= k < before.len() implies before[k] != c by {
                assert(before.push(label)[k] == before[k]);
            }
        } else if joins_nodes(nodes, e) {
            assert(before.contains(nodes[e.0 as int].1));
        }
        lemma_absent_category_counts(nodes, edges.drop_last(), c);
    }
}

/// The number of edges that start in category `c`.
pub open spec fn leaving_count(
    nodes: Seq<(u32, Seq<char>)>,
    edges: Seq<(usize, usize)>,
    c: Seq<char>,
) -> nat
    decreases edges.len(),
{
    if edges.len() == 0 {
        0
    } else {
        leaving_count(nodes, edges.drop_last(), c) + if leaves(nodes, edges.last(), c) {
            1nat
        } else {
            0nat
        }
    }
}

/// Every edge that leaves a category either stays inside it or reaches
/// another: the two counts add up to the number of the category's outgoing
/// edges, and so the two shares add up to one.
pub proof fn lemma_counts_add_up(
    nodes: Seq<(u32, Seq<char>)>,
    edges: Seq<(usize, usize)>,
    c: Seq<char>,
)
    ensures
        in_count(nodes, edges, c) + cross_count(nodes, edges, c) == leaving_count(nodes, edges, c),
    decreases edges.len(),
{
    if edges.len() > 0 {
        lemma_counts_add_up(nodes, edges.drop_last(), c);
    }
}

/// A category has an entry exactly where an edge starts in it, and no
/// category has two.
pub proof fn lemma_source_categories(
    nodes: Seq<(u32, Seq<char>)>,
    edges: Seq<(usize, usize)>,
    c: Seq<char>,
)
    ensures
        source_categories(nodes, edges).contains(c) <==> leaving_count(nodes, edges, c) > 0,
        source_categories(nodes, edges).no_duplicates(),
    decreases edges.len(),
{
    if edges.len() > 0 {
        lemma_source_categories(nodes, edges.drop_last(), c);
        let before = source_categories(nodes, edges.drop_last());
        let e = edges.last();
        if joins_nodes(nodes, e) && !before.contains(nodes[e.0 as int].1) {
            let label = nodes[e.0 as int].1;
            let after = before.push(label);
            assert(after.last() == label);
            if before.contains(c) {
                let k = choose|k: int| 0 <= k < before.len() && before[k] == c;
                assert(after[k] == c);
            }
            if after.contains(c) && c != label {
                let k = choose|k: int| 0 <= k < after.len() && after[k] == c;
                assert(before[k] == c);
            }
        }
    }
}

} // verus!

//! Building product graphs: one node for each chosen record, and one edge
//! for each reference of a record that another chosen record answers.
//!
//! A reference is answered by the first chosen record whose code has the
//! same normal form. A reference that no chosen record answers adds no
//! edge.

use vstd::prelude::*;
use vstd::string::StringExecFns;
use crate::graph::{
    add_edge, add_node, graph_edges, graph_new, graph_nodes, ProductGraph, CAPACITY,
};
use crate::records::{Product, ProductView};
use crate::text::{distinct, lemma_distinct_prefix, normal_form, normalize, position_of};

verus! {

/// Why a graph could not be built.
#[derive(Debug, Clone, Copy, PartialEq, Eq)]
pub enum GraphError {
    /// More records were chosen than a graph can hold nodes.
    TooManyNodes,
    /// More references were answered than a graph can hold edges.
    TooManyEdges,
}

/// The label under which a record enters a graph: its group, or
/// `"Unknown"` where it has none.
pub open spec fn label_of(p: ProductView) -> Seq<char> {
    match p.group {
        Some(g) => g,
        None => "Unknown"@,
    }
}

/// Whether `members` lists positions of `data`.
pub open spec fn are_positions(members: Seq<usize>, len: nat) -> bool {
    forall|k: int| 0 <= k < members.len() ==> #[trigger] members[k] < len
}

/// The nodes of the graph over the chosen records: for each, in order, its
/// identity and its label.
pub open spec fn nodes_of(data: Seq<ProductView>, members: Seq<usize>) -> Seq<(u32, Seq<char>)> {
    Seq::new(
        members.len(),
        |k: int| (data[members[k] as int].id, label_of(data[members[k] as int])),
    )
}

/// The key under which a record answers references: the normal form of its
/// code, where it has one.
pub open spec fn key_of(p: ProductView) -> Option<Seq<char>> {
    match p.asin {
        Some(code) => Some(normal_form(code)),
        None => None,
    }
}

/// The keys of the chosen records, in order.
pub open spec fn keys_of(data: Seq<ProductView>, members: Seq<usize>) -> Seq<Option<Seq<char>>> {
    Seq::new(members.len(), |k: int| key_of(data[members[k] as int]))
}

/// The first position at which `keys` holds `wanted`, if there is one.
pub open spec fn first_match(keys: Seq<Option<Seq<char>>>, wanted: Seq<char>) -> Option<int>
    decreases keys.len(),
{
    if keys.len() == 0 {
        None
    } else {
        match first_match(keys.drop_last(), wanted) {
            Some(k) => Some(k),
            None => if keys.last() == Some(wanted) {
                Some(keys.len() - 1)
            } else {
                None
            },
        }
    }
}

/// The edges that the references `refs` of the node `source` add, in order:
/// one to the first record that answers, for each reference that is
/// answered.
pub open spec fn edges_from(
    keys: Seq<Option<Seq<char>>>,
    refs: Seq<Seq<char>>,
    source: usize,
) -> Seq<(usize, usize)>
    decreases refs.len(),
{
    if refs.len() == 0 {
        Seq::empty()
    } else {
        let before = edges_from(keys, refs.drop_last(), source);
        match first_match(keys, normal_form(refs.last())) {
            Some(target) => before.push((source, target as usize)),
            None => before,
        }
    }
}

/// The edges that the first `upto` chosen records add, in order.
pub open spec fn edges_upto(data: Seq<ProductView>, members: Seq<usize>, upto: nat) -> Seq<
    (usize, usize),
>
    decreases upto,
{
    if upto == 0 {
        Seq::empty()
    } else {
        let source = (upto - 1) as usize;
        edges_upto(data, members, (upto - 1) as nat) + edges_from(
            keys_of(data, members),
            data[members[source as int] as int].similar,
            source,
        )
    }
}

/// The edges of the graph over the chosen records.
pub open spec fn edges_of(data: Seq<ProductView>, members: Seq<usize>) -> Seq<(usize, usize)> {
    edges_upto(data, members, members.len())
}

/// What keeps the graph over the chosen records from being built, if
/// anything does.
pub open spec fn capacity_error(data: Seq<ProductView>, members: Seq<usize>) -> Option<GraphError> {
    if members.len() > CAPACITY {
        Some(GraphError::TooManyNodes)
    } else if edges_of(data, members).len() > CAPACITY {
        Some(GraphError::TooManyEdges)
    } else {
        None
    }
}

/// The first position at which `keys` holds `wanted`.
pub fn find_first(keys: &Vec<Option<String>>, wanted: &String) -> (r: Option<usize>)
    ensures
        match r {
            Some(k) => first_match(keys.deep_view(), wanted@) == Some(k as int),
            None => first_match(keys.deep_view(), wanted@) is None,
        },
{
    let ghost all = keys.deep_view();
    let mut k: usize = 0;
    assert(all.take(0) == Seq::<Option<Seq<char>>>::empty());
    while k < keys.len()
        invariant
            k <= keys.len(),
            all == keys.deep_view(),
            first_match(all.take(k as int), wanted@) is None,
        decreases keys.len() - k,
    {
        assert(all.take(k + 1).drop_last() == all.take(k as int));
        assert(all.take(k + 1).last() == keys[k as int].deep_view());
        let found = match &keys[k] {
            Some(key) => *key == *wanted,
            None => false,
        };
        if found {
            proof {
                lemma_first_match_extends(all, wanted@, k + 1);
            }
            return Some(k);
        }
        k += 1;
    }
    assert(all.take(k as int) == all);
    None
}

/// A match found among the first `n` keys is the match among all keys.
pub proof fn lemma_first_match_extends(keys: Seq<Option<Seq<char>>>, wanted: Seq<char>, n: int)
    requires
        0 <= n <= keys.len(),
        first_match(keys.take(n), wanted) is Some,
    ensures
        first_match(keys, wanted) == first_match(keys.take(n), wanted),
    decreases keys.len(),
{
    if n == keys.len() {
        assert(keys.take(n) == keys);
    } else {
        assert(keys.drop_last().take(n) == keys.take(n));
        lemma_first_match_extends(keys.drop_last(), wanted, n);
    }
}

/// A match stands at a position of the keys and holds what was wanted.
pub proof fn lemma_first_match_found(keys: Seq<Option<Seq<char>>>, wanted: Seq<char>)
    requires
        first_match(keys, wanted) is Some,
    ensures
        0 <= first_match(keys, wanted)->0 < keys.len(),
        keys[first_match(keys, wanted)->0] == Some(wanted),
    decreases keys.len(),
{
    if keys.len() > 0 {
        if first_match(keys.drop_last(), wanted) is Some {
            lemma_first_match_found(keys.drop_last(), wanted);
            let k = first_match(keys.drop_last(), wanted)->0;
            assert(keys.drop_last()[k] == keys[k]);
        }
    }
}

/// The references that were read add no more edges than all of them.
pub proof fn lemma_edges_from_prefix(
    keys: Seq<Option<Seq<char>>>,
    refs: Seq<Seq<char>>,
    source: usize,
    j: int,
)
    requires
        0 <= j <= refs.len(),
    ensures
        edges_from(keys, refs.take(j), source).len() <= edges_from(keys, refs, source).len(),
    decreases refs.len(),
{
    if j == refs.len() {
        assert(refs.take(j) == refs);
    } else {
        assert(refs.drop_last().take(j) == refs.take(j));
        lemma_edges_from_prefix(keys, refs.drop_last(), source, j);
    }
}

/// The first records add no more edges than all of them.
pub proof fn lemma_edges_upto_monotone(data: Seq<ProductView>, members: Seq<usize>, a: nat, b: nat)
    requires
        a <= b,
    ensures
        edges_upto(data, members, a).len() <= edges_upto(data, members, b).len(),
    decreases b,
{
    if a < b {
        lemma_edges_upto_monotone(data, members, a, (b - 1) as nat);
    }
}

/// The label of a record.
pub fn label_for(p: &Product) -> (label: String)
    ensures
        label@ == label_of(p@),
{
    match &p.group {
        Some(group) => group.clone(),
        None => String::from_str("Unknown"),
    }
}

/// The key of a record.
pub fn key_for(p: &Product) -> (key: Option<String>)
    ensures
        key.deep_view() == key_of(p@),
{
    match &p.asin {
        Some(code) => Some(normalize(code.as_str())),
        None => None,
    }
}

/// Builds the graph over the records of `data` at the positions `members`:
/// a node for each of them, in order, and the edges that their references
/// add. It fails where the graph would hold more nodes or edges than a
/// graph can.
pub fn build(data: &Vec<Product>, members: &Vec<usize>) -> (r: Result<ProductGraph, GraphError>)
    requires
        are_positions(members@, data.len() as nat),
    ensures
        match r {
            Ok(g) => {
                &&& capacity_error(data.deep_view(), members@) is None
                &&& graph_nodes(g) == nodes_of(data.deep_view(), members@)
                &&& graph_edges(g) == edges_of(data.deep_view(), members@)
            },
            Err(e) => capacity_error(data.deep_view(), members@) == Some(e),
        },
{
    let ghost views = data.deep_view();
    let ghost nodes = nodes_of(views, members@);
    let ghost all_keys = keys_of(views, members@);
    if members.len() > CAPACITY {
        return Err(GraphError::TooManyNodes);
    }
    let mut graph = graph_new();
    let mut keys: Vec<Option<String>> = Vec::new();
    let mut k: usize = 0;
    assert(nodes.take(0) =~= Seq::empty());
    assert(keys.deep_view() =~= all_keys.take(0));
    while k < members.len()
        invariant
            k <= members.len() <= CAPACITY,
            are_positions(members@, data.len() as nat),
            views == data.deep_view(),
            nodes == nodes_of(views, members@),
            all_keys == keys_of(views, members@),
            graph_nodes(graph) == nodes.take(k as int),
            graph_edges(graph) == Seq::<(usize, usize)>::empty(),
            keys.deep_view() == all_keys.take(k as int),
        decreases members.len() - k,
    {
        let p = &data[members[k]];
        assert(views[members[k as int] as int] == p@);
        let label = label_for(p);
        add_node(&mut graph, p.id, label);
        let key = key_for(p);
        let ghost before = keys.deep_view();
        keys.push(key);
        assert(keys.deep_view() =~= before.push(key.deep_view()));
        assert(all_keys.take(k + 1) =~= all_keys.take(k as int).push(key.deep_view()));
        assert(nodes.take(k + 1) =~= nodes.take(k as int).push((p.id, label@)));
        k += 1;
    }
    assert(nodes.take(k as int) == nodes);
    assert(all_keys.take(k as int) == all_keys);
    let mut count: usize = 0;
    let mut k: usize = 0;
    while k < members.len()
        invariant
            k <= members.len() <= CAPACITY,
            are_positions(members@, data.len() as nat),
            views == data.deep_view(),
            nodes == nodes_of(views, members@),
            all_keys == keys_of(views, members@),
            keys.deep_view() == all_keys,
            graph_nodes(graph) == nodes,
            graph_edges(graph) == edges_upto(views, members@, k as nat),
            count == graph_edges(graph).len(),
            count <= CAPACITY,
        decreases members.len() - k,
    {
        let p = &data[members[k]];
        assert(views[members[k as int] as int] == p@);
        let ghost refs = p@.similar;
        let ghost earlier = edges_upto(views, members@, k as nat);
        let mut j: usize = 0;
        assert(refs.take(0) == Seq::<Seq<char>>::empty());
        assert(earlier + Seq::<(usize, usize)>::empty() == earlier);
        while j < p.similar.len()
            invariant
                j <= p.similar.len(),
                k < members.len() <= CAPACITY,
                views == data.deep_view(),
                nodes == nodes_of(views, members@),
                all_keys == keys_of(views, members@),
                keys.deep_view() == all_keys,
                refs == p@.similar,
                refs == views[members[k as int] as int].similar,
                earlier == edges_upto(views, members@, k as nat),
                graph_nodes(graph) == nodes,
                graph_edges(graph) == earlier + edges_from(all_keys, refs.take(j as int), k),
                count == graph_edges(graph).len(),
                count <= CAPACITY,
            decreases p.similar.len() - j,
        {
            assert(refs.take(j + 1).drop_last() == refs.take(j as int));
            assert(refs.take(j + 1).last() == p.similar[j as int]@);
            let wanted = normalize(p.similar[j].as_str());
            let ghost so_far = edges_from(all_keys, refs.take(j as int), k);
            match find_first(&keys, &wanted) {
                Some(target) => {
                    proof {
                        lemma_first_match_found(all_keys, wanted@);
                        assert(earlier + so_far.push((k, target)) == (earlier + so_far).push(
                            (k, target),
                        ));
                    }
                    if count >= CAPACITY {
                        proof {
                            lemma_edges_from_prefix(all_keys, refs, k, j + 1);
                            lemma_edges_upto_monotone(
                                views,
                                members@,
                                (k + 1) as nat,
                                members@.len(),
                            );
                        }
                        return Err(GraphError::TooManyEdges);
                    }
                    add_edge(&mut graph, k, target);
                    count += 1;
                },
                None => {},
            }
            j += 1;
        }
        assert(refs.take(j as int) == refs);
        k += 1;
    }
    Ok(graph)
}

/// The positions of the valid records of `data`, in order.
pub open spec fn valid_positions(data: Seq<ProductView>) -> Seq<usize>
    decreases data.len(),
{
    if data.len() == 0 {
        Seq::empty()
    } else if data.last().is_valid() {
        valid_positions(data.drop_last()).push((data.len() - 1) as usize)
    } else {
        valid_positions(data.drop_last())
    }
}

/// The positions of the records of `data` whose group is `label`, in order.
pub open spec fn group_positions(data: Seq<ProductView>, label: Seq<char>) -> Seq<usize>
    decreases data.len(),
{
    if data.len() == 0 {
        Seq::empty()
    } else if data.last().group == Some(label) {
        group_positions(data.drop_last(), label).push((data.len() - 1) as usize)
    } else {
        group_positions(data.drop_last(), label)
    }
}

/// The positions of the valid records of `data`.
pub fn valid_members(data: &Vec<Product>) -> (members: Vec<usize>)
    ensures
        members@ == valid_positions(data.deep_view()),
        are_positions(members@, data.len() as nat),
{
    let ghost views = data.deep_view();
    let mut members: Vec<usize> = Vec::new();
    let mut i: usize = 0;
    assert(views.take(0) == Seq::<ProductView>::empty());
    while i < data.len()
        invariant
            i <= data.len(),
            views == data.deep_view(),
            members@ == valid_positions(views.take(i as int)),
            forall|k: int| 0 <= k < members.len() ==> #[trigger] members[k] < i,
        decreases data.len() - i,
    {
        assert(views.take(i + 1).drop_last() == views.take(i as int));
        assert(views.take(i + 1).last() == data[i as int]@);
        if data[i].asin.is_some() {
            members.push(i);
        }
        i += 1;
    }
    assert(views.take(i as int) == views);
    members
}

/// The positions of the records of `data` whose group is `label`.
pub fn group_members(data: &Vec<Product>, label: &String) -> (members: Vec<usize>)
    ensures
        members@ == group_positions(data.deep_view(), label@),
        are_positions(members@, data.len() as nat),
        forall|k: int|
            0 <= k < members.len() ==> data[(#[trigger] members[k]) as int]@.group == Some(label@),
{
    let ghost views = data.deep_view();
    let mut members: Vec<usize> = Vec::new();
    let mut i: usize = 0;
    assert(views.take(0) == Seq::<ProductView>::empty());
    while i < data.len()
        invariant
            i <= data.len(),
            views == data.deep_view(),
            members@ == group_positions(views.take(i as int), label@),
            forall|k: int| 0 <= k < members.len() ==> #[trigger] members[k] < i,
            forall|k: int|
                0 <= k < members.len() ==> data[(#[trigger] members[k]) as int]@.group == Some(
                    label@,
                ),
        decreases data.len() - i,
    {
        assert(views.take(i + 1).drop_last() == views.take(i as int));
        assert(views.take(i + 1).last() == data[i as int]@);
        let inside = match &data[i].group {
            Some(group) => *group == *label,
            None => false,
        };
        if inside {
            members.push(i);
        }
        i += 1;
    }
    assert(views.take(i as int) == views);
    members
}

/// Where every record is valid, as after cleaning, the valid positions are
/// all positions: the global graph has a node for each record.
pub proof fn lemma_valid_positions_of_valid(data: Seq<ProductView>)
    requires
        data.len() <= usize::MAX,
        forall|i: int| 0 <= i < data.len() ==> (#[trigger] data[i]).is_valid(),
    ensures
        valid_positions(data) == Seq::new(data.len(), |i: int| i as usize),
    decreases data.len(),
{
    if data.len() > 0 {
        assert forall|i: int| 0 <= i < data.drop_last().len() implies (#[trigger] data.drop_last()[i]).is_valid() by {
            assert(data.drop_last()[i] == data[i]);
        }
        lemma_valid_positions_of_valid(data.drop_last());
        assert(valid_positions(data) =~= Seq::new(data.len(), |i: int| i as usize));
    } else {
        assert(valid_positions(data) =~= Seq::new(data.len(), |i: int| i as usize));
    }
}

/// Whether every edge joins two nodes that carry `label`.
pub open spec fn stays_within(
    nodes: Seq<(u32, Seq<char>)>,
    edges: Seq<(usize, usize)>,
    label: Seq<char>,
) -> bool {
    forall|e: int|
        0 <= e < edges.len() ==> {
            &&& (#[trigger] edges[e]).0 < nodes.len()
            &&& edges[e].1 < nodes.len()
            &&& nodes[edges[e].0 as int].1 == label
            &&& nodes[edges[e].1 as int].1 == label
        }
}

/// Every edge that references add starts at their record and ends at a
/// chosen record.
pub proof fn lemma_edges_from_in_range(
    keys: Seq<Option<Seq<char>>>,
    refs: Seq<Seq<char>>,
    source: usize,
)
    requires
        keys.len() <= usize::MAX,
    ensures
        forall|e: int|
            0 <= e < edges_from(keys, refs, source).len() ==> {
                &&& (#[trigger] edges_from(keys, refs, source)[e]).0 == source
                &&& edges_from(keys, refs, source)[e].1 < keys.len()
            },
    decreases refs.len(),
{
    if refs.len() > 0 {
        lemma_edges_from_in_range(keys, refs.drop_last(), source);
        let wanted = normal_form(refs.last());
        let before = edges_from(keys, refs.drop_last(), source);
        let all = edges_from(keys, refs, source);
        if first_match(keys, wanted) is Some {
            lemma_first_match_found(keys, wanted);
        }
        assert forall|e: int| 0 <= e < all.len() implies (#[trigger] all[e]).0 == source
            && all[e].1 < keys.len() by {
            if e < before.len() {
                assert(all[e] == before[e]);
            }
        }
    }
}

/// Every edge of a graph joins two of its nodes.
pub proof fn lemma_edges_in_range(data: Seq<ProductView>, members: Seq<usize>, upto: nat)
    requires
        upto <= members.len() <= usize::MAX,
    ensures
        forall|e: int|
            0 <= e < edges_upto(data, members, upto).len() ==> {
                &&& (#[trigger] edges_upto(data, members, upto)[e]).0 < members.len()
                &&& edges_upto(data, members, upto)[e].1 < members.len()
            },
    decreases upto,
{
    if upto > 0 {
        let source = (upto - 1) as usize;
        let refs = data[members[source as int] as int].similar;
        let before = edges_upto(data, members, (upto - 1) as nat);
        let added = edges_from(keys_of(data, members), refs, source);
        let all = edges_upto(data, members, upto);
        lemma_edges_in_range(data, members, (upto - 1) as nat);
        lemma_edges_from_in_range(keys_of(data, members), refs, source);
        assert forall|e: int| 0 <= e < all.len() implies (#[trigger] all[e]).0 < members.len()
            && all[e].1 < members.len() by {
            if e < before.len() {
                assert(all[e] == before[e]);
            } else {
                assert(all[e] == added[e - before.len()]);
            }
        }
    }
}

/// The isolation of category graphs: in the graph over the records of one
/// group, every edge joins two nodes of that group.
pub proof fn lemma_group_graph_stays_within(data: Seq<ProductView>, label: Seq<char>)
    requires
        data.len() <= usize::MAX,
    ensures
        stays_within(
            nodes_of(data, group_positions(data, label)),
            edges_of(data, group_positions(data, label)),
            label,
        ),
{
    let members = group_positions(data, label);
    lemma_group_positions(data, label);
    lemma_edges_in_range(data, members, members.len());
}

/// The positions of a group are positions of records of that group, in
/// rising order.
pub proof fn lemma_group_positions(data: Seq<ProductView>, label: Seq<char>)
    requires
        data.len() <= usize::MAX,
    ensures
        group_positions(data, label).len() <= data.len(),
        forall|k: int|
            0 <= k < group_positions(data, label).len() ==> {
                &&& (#[trigger] group_positions(data, label)[k]) < data.len()
                &&& data[group_positions(data, label)[k] as int].group == Some(label)
            },
    decreases data.len(),
{
    if data.len() > 0 {
        lemma_group_positions(data.drop_last(), label);
        let before = group_positions(data.drop_last(), label);
        assert forall|k: int| 0 <= k < before.len() implies data[(#[trigger] before[k]) as int]
            == data.drop_last()[before[k] as int] by {}
    }
}

/// The graph over the valid records of `data`.
pub fn global_graph(data: &Vec<Product>) -> (r: Result<ProductGraph, GraphError>)
    ensures
        match r {
            Ok(g) => {
                &&& capacity_error(data.deep_view(), valid_positions(data.deep_view())) is None
                &&& graph_nodes(g) == nodes_of(data.deep_view(), valid_positions(data.deep_view()))
                &&& graph_edges(g) == edges_of(data.deep_view(), valid_positions(data.deep_view()))
            },
            Err(e) => capacity_error(data.deep_view(), valid_positions(data.deep_view())) == Some(
                e,
            ),
        },
{
    let members = valid_members(data);
    build(data, &members)
}

/// The graph over the records of `data` whose group is `label`. Its edges
/// join nodes of that group only.
pub fn group_graph(data: &Vec<Product>, label: &String) -> (r: Result<ProductGraph, GraphError>)
    ensures
        match r {
            Ok(g) => {
                &&& capacity_error(data.deep_view(), group_positions(data.deep_view(), label@)) is None
                &&& graph_nodes(g) == nodes_of(
                    data.deep_view(),
                    group_positions(data.deep_view(), label@),
                )
                &&& graph_edges(g) == edges_of(
                    data.deep_view(),
                    group_positions(data.deep_view(), label@),
                )
                &&& stays_within(graph_nodes(g), graph_edges(g), label@)
            },
            Err(e) => capacity_error(data.deep_view(), group_positions(data.deep_view(), label@))
                == Some(e),
        },
{
    let members = group_members(data, label);
    proof {
        lemma_group_graph_stays_within(data.deep_view(), label@);
    }
    build(data, &members)
}

/// The graph over the records of one group, with the group's label.
pub struct CategoryGraph {
    pub category: String,
    pub graph: ProductGraph,
}

/// Whether `entry` is the graph over the records of `data` whose group is
/// `label`.
pub open spec fn is_group_graph(entry: CategoryGraph, data: Seq<ProductView>, label: Seq<char>) -> bool {
    &&& entry.category@ == label
    &&& capacity_error(data, group_positions(data, label)) is None
    &&& graph_nodes(entry.graph) == nodes_of(data, group_positions(data, label))
    &&& graph_edges(entry.graph) == edges_of(data, group_positions(data, label))
    &&& stays_within(graph_nodes(entry.graph), graph_edges(entry.graph), label)
}

/// Whether the group `labels[at]` is the first of `labels` whose graph
/// cannot be built, and `e` is what keeps it from being built.
pub open spec fn first_failure(
    data: Seq<ProductView>,
    labels: Seq<Seq<char>>,
    at: int,
    e: GraphError,
) -> bool {
    &&& 0 <= at < labels.len()
    &&& capacity_error(data, group_positions(data, labels[at])) == Some(e)
    &&& forall|j: int|
        0 <= j < at ==> capacity_error(data, group_positions(data, #[trigger] labels[j])) is None
}

/// For each of `labels`, once and in the order of first occurrence, the
/// graph over the records of that group. References are answered inside the
/// group only, so no edge leaves it. It fails with what keeps the first
/// graph that cannot be built from being built.
pub fn category_graphs(data: &Vec<Product>, labels: &Vec<String>) -> (r: Result<
    Vec<CategoryGraph>,
    GraphError,
>)
    ensures
        match r {
            Ok(out) => {
                &&& out.len() == distinct(labels.deep_view()).len()
                &&& forall|i: int|
                    0 <= i < out.len() ==> is_group_graph(
                        #[trigger] out[i],
                        data.deep_view(),
                        distinct(labels.deep_view())[i],
                    )
            },
            Err(e) => exists|at: int|
                first_failure(data.deep_view(), distinct(labels.deep_view()), at, e),
        },
{
    let ghost views = data.deep_view();
    let ghost wanted = labels.deep_view();
    let mut seen: Vec<String> = Vec::new();
    let mut out: Vec<CategoryGraph> = Vec::new();
    let mut i: usize = 0;
    assert(wanted.take(0) == Seq::<Seq<char>>::empty());
    assert(seen.deep_view() =~= Seq::<Seq<char>>::empty());
    while i < labels.len()
        invariant
            i <= labels.len(),
            views == data.deep_view(),
            wanted == labels.deep_view(),
            seen.deep_view() == distinct(wanted.take(i as int)),
            out.len() == seen.len(),
            forall|k: int| 0 <= k < out.len() ==> is_group_graph(#[trigger] out[k], views, seen[k]@),
        decreases labels.len() - i,
    {
        assert(wanted.take(i + 1).drop_last() == wanted.take(i as int));
        assert(wanted.take(i + 1).last() == labels[i as int]@);
        let label = &labels[i];
        let found = position_of(&seen, label);
        if let Some(p) = found {
            assert(seen.deep_view()[p as int] == label@);
        }
        if found.is_none() {
            let ghost names = seen.deep_view();
            proof {
                lemma_distinct_prefix(wanted, i + 1);
                assert forall|k: int| 0 <= k < seen.len() implies #[trigger] names[k]
                    == seen[k]@ by {}
            }
            match group_graph(data, label) {
                Ok(graph) => {
                    seen.push(label.clone());
                    out.push(CategoryGraph { category: label.clone(), graph });
                    assert(seen.deep_view() =~= names.push(label@));
                },
                Err(e) => {
                    proof {
                        let all = distinct(wanted);
                        let at = names.len() as int;
                        assert(distinct(wanted.take(i + 1)) == names.push(label@));
                        assert(names.push(label@)[at] == label@);
                        assert(all[at] == label@);
                        assert forall|j: int| 0 <= j < at implies capacity_error(
                            views,
                            group_positions(views, #[trigger] all[j]),
                        ) is None by {
                            assert(names.push(label@)[j] == names[j]);
                            assert(is_group_graph(out[j], views, seen[j]@));
                        }
                        assert(first_failure(views, all, at, e));
                    }
                    return Err(e);
                },
            }
        }
        i += 1;
    }
    assert(wanted.take(i as int) == wanted);
    assert forall|k: int| 0 <= k < out.len() implies is_group_graph(
        #[trigger] out[k],
        views,
        distinct(wanted)[k],
    ) by {
        assert(seen.deep_view()[k] == seen[k]@);
    }
    Ok(out)
}

} // verus!

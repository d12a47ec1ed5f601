//! The dataset: the records of a catalogue, with the operations that clean
//! them, draw a sample of them and summarise their categories.

use vstd::prelude::*;
use vstd::string::StringExecFns;
use crate::builder::{
    capacity_error, category_graphs, edges_of, first_failure, global_graph, is_group_graph,
    nodes_of, valid_positions, CategoryGraph, GraphError,
};
use crate::graph::{graph_edges, graph_nodes, ProductGraph};
use crate::parser::{parse_lines, parsed, REVIEW_PATTERN};
use crate::pattern::{compiles, PatternError};
use crate::records::{Product, ProductView};
use crate::sampling::{covers, draw_positions, is_draw, lemma_full_draw_covers};
use crate::summary::{
    all_reviews, names_of, summarizes, top_categories, top_groups, CategorySummary,
};
use crate::text::distinct;

verus! {

/// The views of a sequence of records.
pub open spec fn views(records: Seq<Product>) -> Seq<ProductView> {
    records.map_values(|p: Product| p@)
}

/// The valid records among `data`, in order.
pub open spec fn valid_records(data: Seq<ProductView>) -> Seq<ProductView>
    decreases data.len(),
{
    if data.len() == 0 {
        Seq::empty()
    } else if data.last().is_valid() {
        valid_records(data.drop_last()).push(data.last())
    } else {
        valid_records(data.drop_last())
    }
}

/// The highest sales rank that a record of `data` carries, or zero where
/// none carries one.
pub open spec fn max_salesrank(data: Seq<ProductView>) -> u32
    decreases data.len(),
{
    if data.len() == 0 {
        0
    } else {
        let before = max_salesrank(data.drop_last());
        match data.last().salesrank {
            Some(rank) => if rank > before {
                rank
            } else {
                before
            },
            None => before,
        }
    }
}

/// Whether some record of `data` carries no sales rank.
pub open spec fn lacks_salesrank(data: Seq<ProductView>) -> bool {
    exists|i: int| 0 <= i < data.len() && (#[trigger] data[i]).salesrank is None
}

/// The record `p` with a missing title replaced by `"Unknown"` and a
/// missing sales rank replaced by `rank`.
pub open spec fn filled(p: ProductView, rank: u32) -> ProductView {
    ProductView {
        title: Some(
            match p.title {
                Some(t) => t,
                None => "Unknown"@,
            },
        ),
        salesrank: Some(
            match p.salesrank {
                Some(r) => r,
                None => rank,
            },
        ),
        ..p
    }
}

/// The sales rank given to the valid records of `data` that carry none: one
/// above the highest rank among the valid records.
pub open spec fn fill_rank(data: Seq<ProductView>) -> int {
    max_salesrank(valid_records(data)) + 1
}

/// The cleaned dataset: the valid records of `data`, in order, each with
/// its missing title and sales rank filled in.
pub open spec fn cleaned(data: Seq<ProductView>) -> Seq<ProductView> {
    valid_records(data).map_values(|p: ProductView| filled(p, fill_rank(data) as u32))
}

/// The records of `data` at the positions `picks`, copied in that order.
pub fn select(data: &Vec<Product>, picks: &Vec<usize>) -> (out: Vec<Product>)
    requires
        forall|k: int| 0 <= k < picks.len() ==> #[trigger] picks[k] < data.len(),
    ensures
        out.len() == picks.len(),
        forall|k: int| 0 <= k < out.len() ==> (#[trigger] out[k])@ == data[picks[k] as int]@,
{
    let mut out: Vec<Product> = Vec::new();
    let mut k: usize = 0;
    while k < picks.len()
        invariant
            k <= picks.len(),
            out.len() == k,
            forall|k: int| 0 <= k < picks.len() ==> #[trigger] picks[k] < data.len(),
            forall|j: int| 0 <= j < k ==> (#[trigger] out[j])@ == data[picks[j] as int]@,
        decreases picks.len() - k,
    {
        out.push(data[picks[k]].clone());
        k += 1;
    }
    out
}

/// A dataset read from one catalogue file.
pub struct AmazonDataCleaner {
    pub filepath: String,
    pub data: Vec<Product>,
}

impl AmazonDataCleaner {
    /// An empty dataset for the catalogue at `filepath`.
    pub fn new(filepath: &str) -> (r: Self)
        ensures
            r.filepath@ == filepath@,
            r.data@ == Seq::<Product>::empty(),
    {
        AmazonDataCleaner { filepath: String::from_str(filepath), data: Vec::new() }
    }

    /// The records of the dataset.
    pub fn get_data(&self) -> (r: &Vec<Product>)
        ensures
            r == &self.data,
    {
        &self.data
    }

    /// Replaces the records of the dataset by those that the lines of a
    /// catalogue hold. It succeeds exactly where the review expression
    /// compiles, whatever the lines hold; where it fails it changes nothing.
    pub fn load_data(&mut self, lines: &Vec<String>) -> (r: Result<(), PatternError>)
        ensures
            final(self).filepath == old(self).filepath,
            r is Ok == compiles(REVIEW_PATTERN@),
            r matches Err(e) ==> e == PatternError::Rejected,
            match r {
                Ok(_) => final(self).data.deep_view() == parsed(
                    REVIEW_PATTERN@,
                    lines.deep_view(),
                ),
                Err(_) => final(self).data == old(self).data,
            },
    {
        match parse_lines(lines) {
            Ok(records) => {
                self.data = records;
                Ok(())
            },
            Err(e) => Err(e),
        }
    }

    /// The highest sales rank that a valid record carries, or zero.
    pub fn highest_salesrank(&self) -> (r: u32)
        ensures
            r == max_salesrank(valid_records(self.data.deep_view())),
    {
        let ghost all = self.data.deep_view();
        let mut highest: u32 = 0;
        let mut i: usize = 0;
        assert(all.take(0) == Seq::<ProductView>::empty());
        while i < self.data.len()
            invariant
                i <= self.data.len(),
                all == self.data.deep_view(),
                highest == max_salesrank(valid_records(all.take(i as int))),
            decreases self.data.len() - i,
        {
            assert(all.take(i + 1).drop_last() == all.take(i as int));
            assert(all.take(i + 1).last() == self.data[i as int]@);
            let p = &self.data[i];
            if p.asin.is_some() {
                assert(valid_records(all.take(i + 1)).drop_last() == valid_records(
                    all.take(i as int),
                ));
                if let Some(rank) = p.salesrank {
                    if rank > highest {
                        highest = rank;
                    }
                }
            }
            i += 1;
        }
        assert(all.take(i as int) == all);
        highest
    }

    /// Drops every record that is not valid, whatever the dataset holds, and
    /// keeps the others as they are and in their order.
    pub fn drop_invalid(&mut self)
        ensures
            final(self).filepath == old(self).filepath,
            final(self).data.deep_view() == valid_records(old(self).data.deep_view()),
    {
        let ghost all = self.data.deep_view();
        let mut records: Vec<Product> = Vec::new();
        std::mem::swap(&mut self.data, &mut records);
        assert(views(records@) =~= all);
        assert(all.take(0) == Seq::<ProductView>::empty());
        assert(self.data.deep_view() =~= Seq::<ProductView>::empty());
        for record in it: records
            invariant
                views(it.seq()) == all,
                self.filepath == old(self).filepath,
                self.data.deep_view() == valid_records(all.take(it.index() as int)),
        {
            let ghost i = it.index() as int;
            assert(all.take(i + 1).drop_last() == all.take(i));
            assert(all.take(i + 1).last() == record@);
            if record.asin.is_some() {
                let ghost so_far = self.data.deep_view();
                self.data.push(record);
                assert(self.data.deep_view() =~= so_far.push(record@));
            }
        }
        assert(all.take(all.len() as int) == all);
    }

    /// Drops every record that is not valid; then gives each record without
    /// a title the title `"Unknown"`, and each record without a sales rank
    /// the rank one above the highest that is left.
    pub fn clean_data(&mut self)
        requires
            lacks_salesrank(valid_records(old(self).data.deep_view())) ==> max_salesrank(
                valid_records(old(self).data.deep_view()),
            ) < u32::MAX,
        ensures
            final(self).filepath == old(self).filepath,
            final(self).data.deep_view() == cleaned(old(self).data.deep_view()),
    {
        let highest = self.highest_salesrank();
        let ghost rank = fill_rank(self.data.deep_view()) as u32;
        self.drop_invalid();
        let ghost kept = self.data.deep_view();
        let mut records: Vec<Product> = Vec::new();
        std::mem::swap(&mut self.data, &mut records);
        assert(views(records@) =~= kept);
        assert(kept.take(0) == Seq::<ProductView>::empty());
        assert(self.data.deep_view() =~= Seq::<ProductView>::empty());
        for record in it: records
            invariant
                views(it.seq()) == kept,
                lacks_salesrank(kept) ==> highest < u32::MAX,
                rank == highest + 1 || !lacks_salesrank(kept),
                self.filepath == old(self).filepath,
                self.data.deep_view() == kept.take(it.index() as int).map_values(
                    |p: ProductView| filled(p, rank),
                ),
        {
            let ghost i = it.index() as int;
            let ghost before = record@;
            assert(kept[i] == before);
            let mut record = record;
            if record.title.is_none() {
                record.title = Some(String::from_str("Unknown"));
            }
            if record.salesrank.is_none() {
                record.salesrank = Some(highest + 1);
            }
            assert(record@ == filled(before, rank));
            let ghost so_far = self.data.deep_view();
            self.data.push(record);
            assert(self.data.deep_view() =~= so_far.push(record@));
            assert(kept.take(i + 1).map_values(|p: ProductView| filled(p, rank)) =~= kept.take(
                i,
            ).map_values(|p: ProductView| filled(p, rank)).push(filled(before, rank)));
        }
        assert(kept.take(kept.len() as int) == kept);
    }

    /// The records of the dataset.
    pub fn get_clean_data(&self) -> (r: &Vec<Product>)
        ensures
            r == &self.data,
    {
        &self.data
    }

    /// Whether `clean_data` can fill in every missing sales rank: no valid
    /// record lacks one, or the highest rank leaves room for one above it.
    pub fn can_clean(&self) -> (b: bool)
        ensures
            b == (lacks_salesrank(valid_records(self.data.deep_view())) ==> max_salesrank(
                valid_records(self.data.deep_view()),
            ) < u32::MAX),
    {
        if self.highest_salesrank() < u32::MAX {
            return true;
        }
        let ghost all = self.data.deep_view();
        let mut i: usize = 0;
        assert(all.take(0) == Seq::<ProductView>::empty());
        while i < self.data.len()
            invariant
                i <= self.data.len(),
                all == self.data.deep_view(),
                max_salesrank(valid_records(all)) == u32::MAX,
                !lacks_salesrank(valid_records(all.take(i as int))),
            decreases self.data.len() - i,
        {
            assert(all.take(i + 1).drop_last() == all.take(i as int));
            assert(all.take(i + 1).last() == self.data[i as int]@);
            let p = &self.data[i];
            if p.asin.is_some() && p.salesrank.is_none() {
                proof {
                    lemma_valid_records_hold(all, i as int);
                    let kept = valid_records(all);
                    let k = choose|k: int| 0 <= k < kept.len() && kept[k] == all[i as int];
                    assert(kept[k].salesrank is None);
                }
                return false;
            }
            proof {
                let before = valid_records(all.take(i as int));
                let after = valid_records(all.take(i + 1));
                assert forall|k: int| 0 <= k < after.len() implies (#[trigger] after[k]).salesrank
                    is Some by {
                    if k < before.len() {
                        assert(after[k] == before[k]);
                    }
                }
            }
            i += 1;
        }
        assert(all.take(i as int) == all);
        true
    }

    /// A random sample of `sample_size` records, drawn without replacement,
    /// in random order. Where the dataset holds no more than `sample_size`
    /// records, the sample holds each of them once.
    pub fn random_sample(&self, sample_size: usize) -> (out: Vec<Product>)
        ensures
            out.len() == if sample_size < self.data.len() {
                sample_size
            } else {
                self.data.len()
            },
            exists|pos: Seq<int>|
                {
                    &&& #[trigger] is_draw(pos, out.deep_view(), self.data.deep_view())
                    &&& sample_size >= self.data.len() ==> covers(pos, self.data.len() as nat)
                },
    {
        let picks = draw_positions(self.data.len(), sample_size);
        proof {
            let pos = picks@.map_values(|p: usize| p as int);
            assert forall|k: int| 0 <= k < picks.len() implies #[trigger] picks[k]
                < self.data.len() by {
                assert(pos[k] == picks[k]);
            }
        }
        let out = select(&self.data, &picks);
        proof {
            let pos = picks@.map_values(|p: usize| p as int);
            assert(is_draw(pos, out.deep_view(), self.data.deep_view())) by {
                assert forall|k: int| 0 <= k < out.len() implies #[trigger] out.deep_view()[k]
                    == self.data.deep_view()[pos[k]] by {
                    assert(out.deep_view()[k] == out[k]@);
                }
            }
            if sample_size >= self.data.len() {
                lemma_full_draw_covers(pos, self.data.len() as nat);
            }
        }
        out
    }

    /// The summaries of the `k` largest groups, the largest first; of groups
    /// of equal size the one that the records name first comes first.
    pub fn top_categories(&self, k: usize) -> (out: Vec<CategorySummary>)
        requires
            all_reviews(self.data.deep_view()) <= usize::MAX,
        ensures
            out.len() == top_groups(self.data.deep_view(), k as nat).len(),
            forall|i: int|
                0 <= i < out.len() ==> summarizes(
                    #[trigger] out[i],
                    self.data.deep_view(),
                    top_groups(self.data.deep_view(), k as nat)[i],
                ),
    {
        top_categories(&self.data, k)
    }

    /// The summaries of the three largest groups, the largest first.
    pub fn summarize_top_categories(&self) -> (out: Vec<CategorySummary>)
        requires
            all_reviews(self.data.deep_view()) <= usize::MAX,
        ensures
            out.len() == top_groups(self.data.deep_view(), 3).len(),
            forall|i: int|
                0 <= i < out.len() ==> summarizes(
                    #[trigger] out[i],
                    self.data.deep_view(),
                    top_groups(self.data.deep_view(), 3)[i],
                ),
    {
        top_categories(&self.data, 3)
    }

    /// For each group that `top_categories` names, once and in the order of
    /// first occurrence, the graph over the records of that group. No edge
    /// of such a graph leaves the group.
    pub fn create_graphs_for_top_categories(&self, top_categories: Vec<CategorySummary>) -> (r:
        Result<Vec<CategoryGraph>, GraphError>)
        ensures
            match r {
                Ok(out) => {
                    &&& out.len() == distinct(names_of(top_categories@)).len()
                    &&& forall|i: int|
                        0 <= i < out.len() ==> is_group_graph(
                            #[trigger] out[i],
                            self.data.deep_view(),
                            distinct(names_of(top_categories@))[i],
                        )
                },
                Err(e) => exists|at: int|
                    first_failure(
                        self.data.deep_view(),
                        distinct(names_of(top_categories@)),
                        at,
                        e,
                    ),
            },
    {
        let mut labels: Vec<String> = Vec::new();
        let mut i: usize = 0;
        while i < top_categories.len()
            invariant
                i <= top_categories.len(),
                labels.len() == i,
                forall|k: int| 0 <= k < i ==> (#[trigger] labels[k])@ == top_categories[k].name@,
            decreases top_categories.len() - i,
        {
            labels.push(top_categories[i].name.clone());
            i += 1;
        }
        assert(labels.deep_view() =~= names_of(top_categories@));
        category_graphs(&self.data, &labels)
    }

    /// The graph over the valid records of the dataset: a node for each,
    /// and an edge for each reference that a valid record answers.
    pub fn create_global_graph(&self) -> (r: Result<ProductGraph, GraphError>)
        ensures
            match r {
                Ok(g) => {
                    &&& capacity_error(
                        self.data.deep_view(),
                        valid_positions(self.data.deep_view()),
                    ) is None
                    &&& graph_nodes(g) == nodes_of(
                        self.data.deep_view(),
                        valid_positions(self.data.deep_view()),
                    )
                    &&& graph_edges(g) == edges_of(
                        self.data.deep_view(),
                        valid_positions(self.data.deep_view()),
                    )
                },
                Err(e) => capacity_error(
                    self.data.deep_view(),
                    valid_positions(self.data.deep_view()),
                ) == Some(e),
            },
    {
        global_graph(&self.data)
    }
}

/// A valid record of `data` is one of its valid records.
pub proof fn lemma_valid_records_hold(data: Seq<ProductView>, i: int)
    requires
        0 <= i < data.len(),
        data[i].is_valid(),
    ensures
        valid_records(data).contains(data[i]),
    decreases data.len(),
{
    let before = valid_records(data.drop_last());
    if i == data.len() - 1 {
        assert(before.push(data.last()).last() == data[i]);
    } else {
        lemma_valid_records_hold(data.drop_last(), i);
        let k = choose|k: int| 0 <= k < before.len() && before[k] == data[i];
        if data.last().is_valid() {
            assert(before.push(data.last())[k] == data[i]);
        }
    }
}

/// Every valid record is valid.
pub proof fn lemma_valid_records_are_valid(data: Seq<ProductView>)
    ensures
        forall|i: int|
            0 <= i < valid_records(data).len() ==> (#[trigger] valid_records(data)[i]).is_valid(),
    decreases data.len(),
{
    if data.len() > 0 {
        lemma_valid_records_are_valid(data.drop_last());
        let before = valid_records(data.drop_last());
        assert forall|i: int| 0 <= i < valid_records(data).len() implies (#[trigger] valid_records(
            data,
        )[i]).is_valid() by {
            if i < before.len() {
                assert(valid_records(data)[i] == before[i]);
            }
        }
    }
}

/// No record of a sequence carries a sales rank above the highest.
pub proof fn lemma_max_salesrank_bounds(data: Seq<ProductView>, i: int)
    requires
        0 <= i < data.len(),
        data[i].salesrank is Some,
    ensures
        data[i].salesrank->0 <= max_salesrank(data),
    decreases data.len(),
{
    if i < data.len() - 1 {
        lemma_max_salesrank_bounds(data.drop_last(), i);
    }
}

/// What cleaning keeps and what it changes: a cleaned dataset holds the
/// valid records in their order, and nothing else. Each has its code, a
/// title and a sales rank. The title is the record's own, or `"Unknown"`
/// where it had none. The rank is the record's own, or one above the
/// highest rank of the valid records where it had none, unless that number
/// is beyond 32 bits.
pub proof fn lemma_cleaned(data: Seq<ProductView>, i: int)
    requires
        0 <= i < cleaned(data).len(),
    ensures
        cleaned(data).len() == valid_records(data).len(),
        cleaned(data)[i].asin is Some,
        cleaned(data)[i].asin == valid_records(data)[i].asin,
        cleaned(data)[i].id == valid_records(data)[i].id,
        cleaned(data)[i].title == Some(
            match valid_records(data)[i].title {
                Some(t) => t,
                None => "Unknown"@,
            },
        ),
        valid_records(data)[i].salesrank is Some ==> cleaned(data)[i].salesrank == valid_records(
            data,
        )[i].salesrank,
        valid_records(data)[i].salesrank is None && max_salesrank(valid_records(data)) < u32::MAX
            ==> cleaned(data)[i].salesrank == Some(
            (max_salesrank(valid_records(data)) + 1) as u32,
        ),
{
    lemma_valid_records_are_valid(data);
}

/// A cleaned dataset is clean: cleaning it again changes nothing.
pub proof fn lemma_cleaning_twice(data: Seq<ProductView>)
    ensures
        cleaned(cleaned(data)) == cleaned(data),
{
    let once = cleaned(data);
    lemma_valid_records_are_valid(data);
    lemma_all_valid(once);
    let rank = fill_rank(once) as u32;
    assert forall|i: int| 0 <= i < once.len() implies filled(#[trigger] once[i], rank)
        == once[i] by {}
    assert(cleaned(once) =~= once);
}

/// A sequence of valid records is its own sequence of valid records.
pub proof fn lemma_all_valid(data: Seq<ProductView>)
    requires
        forall|i: int| 0 <= i < data.len() ==> (#[trigger] data[i]).is_valid(),
    ensures
        valid_records(data) == data,
    decreases data.len(),
{
    if data.len() > 0 {
        assert forall|i: int| 0 <= i < data.drop_last().len() implies (#[trigger] data.drop_last()[i]).is_valid() by {
            assert(data.drop_last()[i] == data[i]);
        }
        lemma_all_valid(data.drop_last());
        assert(data.drop_last().push(data.last()) =~= data);
    }
}

} // verus!

//! Summaries of the groups of a dataset: how many products each holds, and
//! the totals from which its average sales rank and rating follow.

use vstd::prelude::*;
use crate::builder::{group_positions, lemma_group_positions};
use crate::ratio::Ratio;
use crate::records::{Product, ProductView, Review, ReviewView};
use crate::sampling::{covers, distinct_positions, lemma_full_draw_covers};
use crate::text::position_of;

verus! {

/// The groups that the records of `data` name, each once, in the order in
/// which the records first name them.
pub open spec fn group_labels(data: Seq<ProductView>) -> Seq<Seq<char>>
    decreases data.len(),
{
    if data.len() == 0 {
        Seq::empty()
    } else {
        let before = group_labels(data.drop_last());
        match data.last().group {
            Some(g) => if before.contains(g) {
                before
            } else {
                before.push(g)
            },
            None => before,
        }
    }
}

/// The number of records of `data` whose group is `label`.
pub open spec fn group_size(data: Seq<ProductView>, label: Seq<char>) -> nat {
    group_positions(data, label).len()
}

/// The sales ranks carried by the records of the group `label`, added up.
pub open spec fn rank_total(data: Seq<ProductView>, label: Seq<char>) -> nat
    decreases data.len(),
{
    if data.len() == 0 {
        0
    } else {
        rank_total(data.drop_last(), label) + if data.last().group == Some(label) {
            match data.last().salesrank {
                Some(rank) => rank as nat,
                None => 0nat,
            }
        } else {
            0nat
        }
    }
}

/// The number of records of the group `label` that carry a sales rank.
pub open spec fn ranked_size(data: Seq<ProductView>, label: Seq<char>) -> nat
    decreases data.len(),
{
    if data.len() == 0 {
        0
    } else {
        ranked_size(data.drop_last(), label) + if data.last().group == Some(label)
            && data.last().salesrank is Some {
            1nat
        } else {
            0nat
        }
    }
}

/// The ratings of `reviews`, added up.
pub open spec fn ratings_sum(reviews: Seq<ReviewView>) -> nat
    decreases reviews.len(),
{
    if reviews.len() == 0 {
        0
    } else {
        ratings_sum(reviews.drop_last()) + reviews.last().rating as nat
    }
}

/// The ratings of all reviews of the records of the group `label`, added
/// up.
pub open spec fn rating_total(data: Seq<ProductView>, label: Seq<char>) -> nat
    decreases data.len(),
{
    if data.len() == 0 {
        0
    } else {
        rating_total(data.drop_last(), label) + if data.last().group == Some(label) {
            ratings_sum(data.last().reviews)
        } else {
            0nat
        }
    }
}

/// The number of reviews of the records of the group `label`.
pub open spec fn review_total(data: Seq<ProductView>, label: Seq<char>) -> nat
    decreases data.len(),
{
    if data.len() == 0 {
        0
    } else {
        review_total(data.drop_last(), label) + if data.last().group == Some(label) {
            data.last().reviews.len()
        } else {
            0nat
        }
    }
}

/// The number of reviews of all records of `data`.
pub open spec fn all_reviews(data: Seq<ProductView>) -> nat
    decreases data.len(),
{
    if data.len() == 0 {
        0
    } else {
        all_reviews(data.drop_last()) + data.last().reviews.len()
    }
}

/// What is known of one group: its size, how many of its products carry a
/// sales rank, and the totals of the sales ranks and of the review ratings
/// of its products.
#[derive(Debug, PartialEq, Eq)]
pub struct CategorySummary {
    pub name: String,
    pub product_count: usize,
    pub ranked_count: usize,
    pub sales_rank_total: u128,
    pub review_count: usize,
    pub rating_total: u128,
}

/// The names of the summaries, in order.
pub open spec fn names_of(summaries: Seq<CategorySummary>) -> Seq<Seq<char>> {
    summaries.map_values(|s: CategorySummary| s.name@)
}

/// Whether `summary` holds the figures of the group `label` of `data`.
pub open spec fn summarizes(summary: CategorySummary, data: Seq<ProductView>, label: Seq<char>) -> bool {
    &&& summary.name@ == label
    &&& summary.product_count == group_size(data, label)
    &&& summary.ranked_count == ranked_size(data, label)
    &&& summary.sales_rank_total == rank_total(data, label)
    &&& summary.review_count == review_total(data, label)
    &&& summary.rating_total == rating_total(data, label)
}

impl CategorySummary {
    /// The mean sales rank of the group: the ranks that its products carry,
    /// added up, over the number of products that carry one. Where no
    /// product carries a rank the mean is zero, written `0 / 1`.
    pub fn average_sales_rank(&self) -> (r: Ratio)
        ensures
            r.is_defined(),
            self.ranked_count > 0 ==> r.written_as(
                self.sales_rank_total as int,
                self.ranked_count as int,
            ),
            self.ranked_count == 0 ==> r.written_as(0, 1),
    {
        if self.ranked_count > 0 {
            Ratio::new(self.sales_rank_total, self.ranked_count as u128)
        } else {
            Ratio::zero()
        }
    }

    /// The mean rating over all reviews of the group's products, or `None`
    /// where there is no review.
    pub fn average_rating(&self) -> (r: Option<Ratio>)
        ensures
            r is Some == (self.review_count > 0),
            r matches Some(mean) ==> mean.written_as(
                self.rating_total as int,
                self.review_count as int,
            ),
    {
        if self.review_count > 0 {
            Some(Ratio::new(self.rating_total, self.review_count as u128))
        } else {
            None
        }
    }
}

/// A group that no record has named yet holds no record.
pub proof fn lemma_unnamed_group_is_empty(data: Seq<ProductView>, label: Seq<char>)
    requires
        !group_labels(data).contains(label),
    ensures
        group_positions(data, label).len() == 0,
    decreases data.len(),
{
    if data.len() > 0 {
        let before = group_labels(data.drop_last());
        match data.last().group {
            Some(g) => {
                if before.contains(g) {
                    assert(g != label);
                } else {
                    assert(before.push(g).last() == g);
                    assert forall|k: int| 0 <= k < before.len() implies before[k] != label by {
                        assert(before.push(g)[k] == before[k]);
                    }
                }
            },
            None => {},
        }
        lemma_unnamed_group_is_empty(data.drop_last(), label);
    }
}

/// Whether the two sequences hold the groups of `data` in discovery order
/// and, beside each, its size.
pub open spec fn counts_groups(labels: Seq<Seq<char>>, sizes: Seq<usize>, data: Seq<ProductView>) -> bool {
    &&& labels == group_labels(data)
    &&& sizes.len() == labels.len()
    &&& forall|j: int|
        #![trigger sizes[j]]
        #![trigger labels[j]]
        0 <= j < labels.len() ==> sizes[j] == group_size(data, labels[j])
}

/// Whether the second count is the first with one more record counted: a
/// record without a group changes nothing; the group of any other stands at
/// position `at` or is new.
pub open spec fn counts_one_more_record(
    labels: Seq<Seq<char>>,
    sizes: Seq<usize>,
    labels2: Seq<Seq<char>>,
    sizes2: Seq<usize>,
    group: Option<Seq<char>>,
    at: Option<int>,
) -> bool {
    match group {
        None => labels2 == labels && sizes2 == sizes,
        Some(g) => match at {
            Some(p) => {
                &&& 0 <= p < labels.len()
                &&& labels[p] == g
                &&& labels2 == labels
                &&& sizes2 == sizes.update(p, (sizes[p] + 1) as usize)
            },
            None => {
                &&& !labels.contains(g)
                &&& labels2 == labels.push(g)
                &&& sizes2 == sizes.push(1usize)
            },
        },
    }
}

/// Counting one more record keeps a count of groups right.
pub proof fn lemma_count_step(
    labels: Seq<Seq<char>>,
    sizes: Seq<usize>,
    labels2: Seq<Seq<char>>,
    sizes2: Seq<usize>,
    data: Seq<ProductView>,
    p: ProductView,
    at: Option<int>,
)
    requires
        counts_groups(labels, sizes, data),
        data.len() < usize::MAX,
        counts_one_more_record(labels, sizes, labels2, sizes2, p.group, at),
    ensures
        counts_groups(labels2, sizes2, data.push(p)),
{
    let next = data.push(p);
    assert(next.drop_last() == data);
    assert(next.last() == p);
    lemma_group_labels_distinct(data);
    match p.group {
        None => {
            assert forall|j: int|
                #![trigger sizes2[j]]
                #![trigger labels2[j]]
                0 <= j < labels2.len() implies sizes2[j] == group_size(next, labels2[j]) by {
                assert(sizes[j] == group_size(data, labels[j]));
            }
        },
        Some(g) => {
            lemma_group_positions(data, g);
            match at {
                Some(i) => {
                    assert(labels.contains(g));
                    assert forall|j: int|
                        #![trigger sizes2[j]]
                        #![trigger labels2[j]]
                        0 <= j < labels2.len() implies sizes2[j] == group_size(
                        next,
                        labels2[j],
                    ) by {
                        assert(sizes[j] == group_size(data, labels[j]));
                        if j != i {
                            assert(labels[j] != labels[i]);
                        }
                    }
                },
                None => {
                    lemma_unnamed_group_is_empty(data, g);
                    assert forall|j: int|
                        #![trigger sizes2[j]]
                        #![trigger labels2[j]]
                        0 <= j < labels2.len() implies sizes2[j] == group_size(
                        next,
                        labels2[j],
                    ) by {
                        if j < labels.len() {
                            assert(sizes[j] == group_size(data, labels[j]));
                            assert(labels[j] != g);
                        }
                    }
                },
            }
        },
    }
}

/// The groups of `data` in discovery order, each with its size.
pub fn count_groups(data: &Vec<Product>) -> (r: (Vec<String>, Vec<usize>))
    ensures
        counts_groups(r.0.deep_view(), r.1@, data.deep_view()),
        r.0.deep_view().no_duplicates(),
{
    let ghost views = data.deep_view();
    let mut labels: Vec<String> = Vec::new();
    let mut sizes: Vec<usize> = Vec::new();
    let mut i: usize = 0;
    assert(views.take(0) == Seq::<ProductView>::empty());
    assert(labels.deep_view() =~= Seq::<Seq<char>>::empty());
    while i < data.len()
        invariant
            i <= data.len(),
            views == data.deep_view(),
            counts_groups(labels.deep_view(), sizes@, views.take(i as int)),
        decreases data.len() - i,
    {
        let ghost seen = views.take(i as int);
        let ghost names = labels.deep_view();
        let ghost old_sizes = sizes@;
        let ghost mut at: Option<int> = None;
        assert(views.take(i + 1) == seen.push(data[i as int]@));
        if let Some(group) = &data[i].group {
            match position_of(&labels, group) {
                Some(p) => {
                    proof {
                        at = Some(p as int);
                        assert(names[p as int] == labels[p as int]@);
                        lemma_group_positions(seen, group@);
                    }
                    let n = sizes[p];
                    sizes.set(p, n + 1);
                },
                None => {
                    labels.push(group.clone());
                    sizes.push(1);
                    assert(labels.deep_view() =~= names.push(group@));
                },
            }
        }
        proof {
            lemma_count_step(names, old_sizes, labels.deep_view(), sizes@, seen, data[i as int]@, at);
        }
        i += 1;
    }
    proof {
        assert(views.take(i as int) == views);
        lemma_group_labels_distinct(views);
    }
    (labels, sizes)
}

/// The sizes of the groups of `data`, in the order of `group_labels`.
pub open spec fn group_sizes(data: Seq<ProductView>) -> Seq<int> {
    Seq::new(
        group_labels(data).len(),
        |j: int| group_size(data, group_labels(data)[j]) as int,
    )
}

/// `sorted` with the position `m` put behind every position whose size is
/// not below that of `m`.
pub open spec fn place(sizes: Seq<int>, sorted: Seq<int>, m: int) -> Seq<int>
    decreases sorted.len(),
{
    if sorted.len() > 0 && sizes[sorted.last()] < sizes[m] {
        place(sizes, sorted.drop_last(), m).push(sorted.last())
    } else {
        sorted.push(m)
    }
}

/// The first `n` positions of `sizes`, the larger size first, and of equal
/// sizes the earlier position first.
pub open spec fn ranking(sizes: Seq<int>, n: nat) -> Seq<int>
    decreases n,
{
    if n == 0 {
        Seq::empty()
    } else {
        place(sizes, ranking(sizes, (n - 1) as nat), n - 1)
    }
}

/// Whether position `a` comes before position `b` in a ranking: its size is
/// larger, or the sizes are equal and `a` is the earlier position.
pub open spec fn outranks(sizes: Seq<int>, a: int, b: int) -> bool {
    sizes[a] > sizes[b] || (sizes[a] == sizes[b] && a < b)
}

/// Whether `order` lists positions below `n` so that each outranks all that
/// follow it.
pub open spec fn is_ranked(sizes: Seq<int>, order: Seq<int>, n: nat) -> bool {
    &&& forall|i: int| 0 <= i < order.len() ==> 0 <= #[trigger] order[i] < n
    &&& forall|i: int, j: int|
        0 <= i < j < order.len() ==> outranks(sizes, #[trigger] order[i], #[trigger] order[j])
}

/// Putting a position where the sizes before it are not smaller and the
/// sizes behind it are is what `place` does.
pub proof fn lemma_place_at(sizes: Seq<int>, sorted: Seq<int>, m: int, at: int)
    requires
        0 <= at <= sorted.len(),
        at > 0 ==> sizes[sorted[at - 1]] >= sizes[m],
        forall|q: int| at <= q < sorted.len() ==> sizes[#[trigger] sorted[q]] < sizes[m],
    ensures
        place(sizes, sorted, m) == sorted.insert(at, m),
    decreases sorted.len() - at,
{
    if at == sorted.len() {
        assert(sorted.insert(at, m) =~= sorted.push(m));
    } else {
        let front = sorted.drop_last();
        assert(sizes[sorted[sorted.len() - 1]] < sizes[m]);
        assert forall|q: int| at <= q < front.len() implies sizes[#[trigger] front[q]]
            < sizes[m] by {
            assert(front[q] == sorted[q]);
        }
        if at > 0 {
            assert(front[at - 1] == sorted[at - 1]);
        }
        lemma_place_at(sizes, front, m, at);
        assert(front.insert(at, m).push(sorted.last()) =~= sorted.insert(at, m));
    }
}

/// Placing a new position into a ranked order keeps it ranked.
pub proof fn lemma_place_ranked(sizes: Seq<int>, sorted: Seq<int>, m: int)
    requires
        m >= 0,
        is_ranked(sizes, sorted, m as nat),
    ensures
        is_ranked(sizes, place(sizes, sorted, m), (m + 1) as nat),
        place(sizes, sorted, m).len() == sorted.len() + 1,
    decreases sorted.len(),
{
    let out = place(sizes, sorted, m);
    if sorted.len() > 0 && sizes[sorted.last()] < sizes[m] {
        let front = sorted.drop_last();
        let last = sorted.last();
        assert forall|i: int| 0 <= i < front.len() implies front[i] == sorted[i] by {}
        assert(is_ranked(sizes, front, m as nat));
        lemma_place_ranked(sizes, front, m);
        let inner = place(sizes, front, m);
        lemma_place_members(sizes, front, m);
        assert forall|i: int, j: int| 0 <= i < j < out.len() implies outranks(
            sizes,
            #[trigger] out[i],
            #[trigger] out[j],
        ) by {
            if j < inner.len() {
                assert(out[i] == inner[i] && out[j] == inner[j]);
            } else {
                assert(out[j] == last);
                assert(out[i] == inner[i]);
                if inner[i] == m {
                } else {
                    let q = choose|q: int| 0 <= q < front.len() && front[q] == inner[i];
                    assert(outranks(sizes, sorted[q], sorted[sorted.len() - 1]));
                }
            }
        }
        assert forall|i: int| 0 <= i < out.len() implies 0 <= #[trigger] out[i] < m + 1 by {
            if i < inner.len() {
                assert(out[i] == inner[i]);
            }
        }
    } else {
        assert forall|i: int, j: int| 0 <= i < j < out.len() implies outranks(
            sizes,
            #[trigger] out[i],
            #[trigger] out[j],
        ) by {
            if j < sorted.len() {
                assert(out[i] == sorted[i] && out[j] == sorted[j]);
            } else {
                assert(out[j] == m);
                assert(out[i] == sorted[i]);
                if i < sorted.len() - 1 {
                    assert(outranks(sizes, sorted[i], sorted[sorted.len() - 1]));
                }
            }
        }
    }
}

/// What `place` returns holds the new position and the positions it was
/// given, and nothing else.
pub proof fn lemma_place_members(sizes: Seq<int>, sorted: Seq<int>, m: int)
    ensures
        forall|i: int|
            0 <= i < place(sizes, sorted, m).len() ==> (#[trigger] place(sizes, sorted, m)[i]) == m
                || sorted.contains(place(sizes, sorted, m)[i]),
    decreases sorted.len(),
{
    let out = place(sizes, sorted, m);
    if sorted.len() > 0 && sizes[sorted.last()] < sizes[m] {
        let front = sorted.drop_last();
        let inner = place(sizes, front, m);
        lemma_place_members(sizes, front, m);
        assert forall|i: int| 0 <= i < out.len() implies (#[trigger] out[i]) == m
            || sorted.contains(out[i]) by {
            if i < inner.len() {
                assert(out[i] == inner[i]);
                if inner[i] != m {
                    let q = choose|q: int| 0 <= q < front.len() && front[q] == inner[i];
                    assert(sorted[q] == inner[i]);
                }
            } else {
                assert(out[i] == sorted[sorted.len() - 1]);
            }
        }
    } else {
        assert forall|i: int| 0 <= i < out.len() implies (#[trigger] out[i]) == m
            || sorted.contains(out[i]) by {
            if i < sorted.len() {
                assert(out[i] == sorted[i]);
            }
        }
    }
}

/// A ranking lists each of the first `n` positions once, every position
/// before those that it outranks.
pub proof fn lemma_ranking_is_ranked(sizes: Seq<int>, n: nat)
    ensures
        ranking(sizes, n).len() == n,
        is_ranked(sizes, ranking(sizes, n), n),
    decreases n,
{
    if n > 0 {
        lemma_ranking_is_ranked(sizes, (n - 1) as nat);
        lemma_place_ranked(sizes, ranking(sizes, (n - 1) as nat), n - 1);
    }
}

/// The order of the positions of `sizes`: the larger size first, and of
/// equal sizes the earlier position first.
pub fn rank(sizes: &Vec<usize>) -> (order: Vec<usize>)
    ensures
        order@.map_values(|p: usize| p as int) == ranking(
            sizes@.map_values(|s: usize| s as int),
            sizes.len() as nat,
        ),
        order.len() == sizes.len(),
        forall|i: int| 0 <= i < order.len() ==> #[trigger] order[i] < sizes.len(),
{
    let ghost s = sizes@.map_values(|s: usize| s as int);
    let mut order: Vec<usize> = Vec::new();
    let mut m: usize = 0;
    assert(order@.map_values(|p: usize| p as int) =~= ranking(s, 0));
    while m < sizes.len()
        invariant
            m <= sizes.len(),
            s == sizes@.map_values(|s: usize| s as int),
            order.len() == m,
            order@.map_values(|p: usize| p as int) == ranking(s, m as nat),
            forall|i: int| 0 <= i < order.len() ==> #[trigger] order[i] < m,
        decreases sizes.len() - m,
    {
        let ghost sorted = order@.map_values(|p: usize| p as int);
        let mut at: usize = order.len();
        while at > 0 && sizes[order[at - 1]] < sizes[m]
            invariant
                at <= order.len(),
                m < sizes.len(),
                s == sizes@.map_values(|s: usize| s as int),
                sorted == order@.map_values(|p: usize| p as int),
                forall|i: int| 0 <= i < order.len() ==> #[trigger] order[i] < m,
                forall|q: int| at <= q < sorted.len() ==> s[#[trigger] sorted[q]] < s[m as int],
            decreases at,
        {
            assert(sorted[at - 1] == order[at - 1]);
            at -= 1;
        }
        proof {
            if at > 0 {
                assert(sorted[at - 1] == order[at - 1]);
            }
            lemma_place_at(s, sorted, m as int, at as int);
        }
        order.insert(at, m);
        assert(order@.map_values(|p: usize| p as int) =~= sorted.insert(at as int, m as int));
        m += 1;
    }
    order
}

/// The reviews of a group are among the reviews of the dataset, and the
/// reviews of a part of the dataset among those of the whole.
pub proof fn lemma_review_bounds(data: Seq<ProductView>, label: Seq<char>, n: int)
    requires
        0 <= n <= data.len(),
    ensures
        review_total(data.take(n), label) <= all_reviews(data.take(n)) <= all_reviews(data),
    decreases data.len(),
{
    if n == data.len() {
        assert(data.take(n) == data);
        if n > 0 {
            assert(data.drop_last().take(n - 1) == data.drop_last());
            lemma_review_bounds(data.drop_last(), label, n - 1);
        }
    } else {
        assert(data.drop_last().take(n) == data.take(n));
        lemma_review_bounds(data.drop_last(), label, n);
    }
}

/// The ratings of `reviews`, added up.
pub fn sum_ratings(reviews: &Vec<Review>) -> (total: u128)
    ensures
        total == ratings_sum(reviews.deep_view()),
        total <= reviews.len() * 0xffff_ffff,
{
    let ghost all = reviews.deep_view();
    let mut total: u128 = 0;
    let mut j: usize = 0;
    assert(all.take(0) == Seq::<ReviewView>::empty());
    while j < reviews.len()
        invariant
            j <= reviews.len(),
            all == reviews.deep_view(),
            total == ratings_sum(all.take(j as int)),
            total <= j * 0xffff_ffff,
        decreases reviews.len() - j,
    {
        assert(all.take(j + 1).drop_last() == all.take(j as int));
        assert(all.take(j + 1).last() == reviews[j as int]@);
        total = total + reviews[j].rating as u128;
        j += 1;
    }
    assert(all.take(j as int) == all);
    total
}

/// The figures of the group `label` of `data`.
pub fn summarize_group(data: &Vec<Product>, label: &String) -> (summary: CategorySummary)
    requires
        all_reviews(data.deep_view()) <= usize::MAX,
    ensures
        summarizes(summary, data.deep_view(), label@),
{
    let ghost views = data.deep_view();
    let mut product_count: usize = 0;
    let mut ranked_count: usize = 0;
    let mut sales_rank_total: u128 = 0;
    let mut review_count: usize = 0;
    let mut ratings: u128 = 0;
    let mut i: usize = 0;
    assert(views.take(0) == Seq::<ProductView>::empty());
    while i < data.len()
        invariant
            i <= data.len(),
            views == data.deep_view(),
            all_reviews(views) <= usize::MAX,
            product_count == group_size(views.take(i as int), label@),
            product_count <= i,
            ranked_count == ranked_size(views.take(i as int), label@),
            ranked_count <= i,
            sales_rank_total == rank_total(views.take(i as int), label@),
            sales_rank_total <= i * 0xffff_ffff,
            review_count == review_total(views.take(i as int), label@),
            ratings == rating_total(views.take(i as int), label@),
            ratings <= review_count * 0xffff_ffff,
        decreases data.len() - i,
    {
        assert(views.take(i + 1).drop_last() == views.take(i as int));
        assert(views.take(i + 1).last() == data[i as int]@);
        let p = &data[i];
        let inside = match &p.group {
            Some(group) => *group == *label,
            None => false,
        };
        if inside {
            proof {
                lemma_review_bounds(views, label@, i + 1);
            }
            product_count += 1;
            if let Some(rank) = p.salesrank {
                ranked_count += 1;
                sales_rank_total = sales_rank_total + rank as u128;
            }
            review_count = review_count + p.reviews.len();
            ratings = ratings + sum_ratings(&p.reviews);
        }
        i += 1;
    }
    assert(views.take(i as int) == views);
    CategorySummary {
        name: label.clone(),
        product_count,
        ranked_count,
        sales_rank_total,
        review_count,
        rating_total: ratings,
    }
}

/// The labels of the `k` largest groups of `data`, the largest first; of
/// groups of equal size the one that the records name first comes first.
/// Where `data` has fewer than `k` groups, these are all of them.
pub open spec fn top_groups(data: Seq<ProductView>, k: nat) -> Seq<Seq<char>> {
    let order = ranking(group_sizes(data), group_labels(data).len());
    let n = if k < order.len() {
        k
    } else {
        order.len()
    };
    Seq::new(n, |i: int| group_labels(data)[order[i]])
}

/// The summaries of the `k` largest groups of `data`, the largest first.
/// Records without a group belong to no group.
pub fn top_categories(data: &Vec<Product>, k: usize) -> (out: Vec<CategorySummary>)
    requires
        all_reviews(data.deep_view()) <= usize::MAX,
    ensures
        out.len() == top_groups(data.deep_view(), k as nat).len(),
        forall|i: int|
            0 <= i < out.len() ==> summarizes(
                #[trigger] out[i],
                data.deep_view(),
                top_groups(data.deep_view(), k as nat)[i],
            ),
{
    let ghost views = data.deep_view();
    let (labels, sizes) = count_groups(data);
    let order = rank(&sizes);
    let ghost spec_order = ranking(group_sizes(views), group_labels(views).len());
    proof {
        assert(sizes@.map_values(|s: usize| s as int) =~= group_sizes(views)) by {
            assert forall|j: int| 0 <= j < sizes.len() implies sizes@.map_values(
                |s: usize| s as int,
            )[j] == group_sizes(views)[j] by {
                assert(labels.deep_view()[j] == labels[j]@);
            }
        }
        assert(order@.map_values(|p: usize| p as int) == spec_order);
    }
    let n = if k < order.len() {
        k
    } else {
        order.len()
    };
    let mut out: Vec<CategorySummary> = Vec::new();
    let mut i: usize = 0;
    while i < n
        invariant
            i <= n <= order.len() == labels.len(),
            views == data.deep_view(),
            all_reviews(views) <= usize::MAX,
            labels.deep_view() == group_labels(views),
            order@.map_values(|p: usize| p as int) == spec_order,
            forall|q: int| 0 <= q < order.len() ==> #[trigger] order[q] < labels.len(),
            out.len() == i,
            forall|q: int|
                0 <= q < i ==> summarizes(
                    #[trigger] out[q],
                    views,
                    group_labels(views)[spec_order[q]],
                ),
        decreases n - i,
    {
        let at = order[i];
        assert(spec_order[i as int] == order@.map_values(|p: usize| p as int)[i as int]);
        assert(labels.deep_view()[at as int] == labels[at as int]@);
        out.push(summarize_group(data, &labels[at]));
        i += 1;
    }
    out
}

/// The number of reviews of all records of `data`, where a machine word
/// can hold it.
pub fn count_reviews(data: &Vec<Product>) -> (r: Option<usize>)
    ensures
        match r {
            Some(n) => n == all_reviews(data.deep_view()),
            None => all_reviews(data.deep_view()) > usize::MAX,
        },
{
    let ghost views = data.deep_view();
    let mut total: usize = 0;
    let mut i: usize = 0;
    assert(views.take(0) == Seq::<ProductView>::empty());
    while i < data.len()
        invariant
            i <= data.len(),
            views == data.deep_view(),
            total == all_reviews(views.take(i as int)),
        decreases data.len() - i,
    {
        assert(views.take(i + 1).drop_last() == views.take(i as int));
        assert(views.take(i + 1).last() == data[i as int]@);
        let n = data[i].reviews.len();
        if n > usize::MAX - total {
            proof {
                lemma_review_bounds(views, Seq::empty(), i + 1);
            }
            return None;
        }
        total = total + n;
        i += 1;
    }
    assert(views.take(i as int) == views);
    Some(total)
}

/// No group is named twice among the groups of a dataset.
pub proof fn lemma_group_labels_distinct(data: Seq<ProductView>)
    ensures
        group_labels(data).no_duplicates(),
    decreases data.len(),
{
    if data.len() > 0 {
        lemma_group_labels_distinct(data.drop_last());
    }
}

/// The largest groups come largest first: no group among them is smaller
/// than one that follows it, and each is a group of the dataset.
pub proof fn lemma_top_groups_ordered(data: Seq<ProductView>, k: nat)
    ensures
        top_groups(data, k).len() <= k,
        top_groups(data, k).len() <= group_labels(data).len(),
        forall|i: int|
            0 <= i < top_groups(data, k).len() ==> group_labels(data).contains(
                #[trigger] top_groups(data, k)[i],
            ),
        forall|i: int, j: int|
            0 <= i < j < top_groups(data, k).len() ==> group_size(
                data,
                #[trigger] top_groups(data, k)[i],
            ) >= group_size(data, #[trigger] top_groups(data, k)[j]),
{
    let labels = group_labels(data);
    let sizes = group_sizes(data);
    let order = ranking(sizes, labels.len());
    let top = top_groups(data, k);
    lemma_ranking_is_ranked(sizes, labels.len());
    assert forall|i: int| 0 <= i < top.len() implies labels.contains(#[trigger] top[i]) by {
        assert(0 <= order[i] < labels.len());
        assert(top[i] == labels[order[i]]);
    }
    assert forall|i: int, j: int| 0 <= i < j < top.len() implies group_size(
        data,
        #[trigger] top[i],
    ) >= group_size(data, #[trigger] top[j]) by {
        assert(0 <= order[i] < labels.len());
        assert(0 <= order[j] < labels.len());
        assert(outranks(sizes, order[i], order[j]));
        assert(sizes[order[i]] == group_size(data, labels[order[i]]));
        assert(sizes[order[j]] == group_size(data, labels[order[j]]));
    }
}

/// A ranking leaves no position out.
pub proof fn lemma_ranking_lists_all(sizes: Seq<int>, n: nat)
    ensures
        covers(ranking(sizes, n), n),
{
    let order = ranking(sizes, n);
    lemma_ranking_is_ranked(sizes, n);
    assert(order.no_duplicates()) by {
        assert forall|i: int, j: int| 0 <= i < order.len() && 0 <= j < order.len() && i
            != j implies order[i] != order[j] by {
            if i < j {
                assert(outranks(sizes, order[i], order[j]));
            } else {
                assert(outranks(sizes, order[j], order[i]));
            }
        }
    }
    assert(distinct_positions(order, n));
    lemma_full_draw_covers(order, n);
}

/// The largest groups are the largest: a group of the dataset that is not
/// among them is no larger than any of them.
pub proof fn lemma_top_groups_are_largest(data: Seq<ProductView>, k: nat, g: Seq<char>)
    requires
        group_labels(data).contains(g),
        !top_groups(data, k).contains(g),
    ensures
        forall|i: int|
            0 <= i < top_groups(data, k).len() ==> group_size(
                data,
                #[trigger] top_groups(data, k)[i],
            ) >= group_size(data, g),
{
    let labels = group_labels(data);
    let sizes = group_sizes(data);
    let order = ranking(sizes, labels.len());
    let top = top_groups(data, k);
    lemma_ranking_is_ranked(sizes, labels.len());
    lemma_ranking_lists_all(sizes, labels.len());
    let p = choose|p: int| 0 <= p < labels.len() && labels[p] == g;
    assert(order.contains(p));
    let j = choose|j: int| 0 <= j < order.len() && order[j] == p;
    if j < top.len() {
        assert(top[j] == labels[order[j]]);
        assert(top.contains(g));
    }
    assert forall|i: int| 0 <= i < top.len() implies group_size(data, #[trigger] top[i])
        >= group_size(data, g) by {
        assert(0 <= order[i] < labels.len());
        assert(outranks(sizes, order[i], order[j]));
        assert(top[i] == labels[order[i]]);
        assert(sizes[order[i]] == group_size(data, labels[order[i]]));
        assert(sizes[p] == group_size(data, labels[p]));
    }
}

} // verus!

//! Drawing a random sample without replacement.
//!
//! The random choice is `rand`'s. This module states what holds of every
//! choice it can make, and builds the sample from the positions chosen.

use vstd::prelude::*;
use vstd::seq_lib::seq_to_set_is_finite;
use vstd::set_lib::{lemma_int_range, lemma_subset_equality, set_int_range};

verus! {

/// Whether `pos` lists positions of a sequence of length `len`, none of
/// them twice.
pub open spec fn distinct_positions(pos: Seq<int>, len: nat) -> bool {
    &&& pos.no_duplicates()
    &&& forall|k: int| 0 <= k < pos.len() ==> 0 <= #[trigger] pos[k] < len
}

/// Whether `out` holds the items that stand in `items` at the positions
/// `pos`: a draw without replacement.
pub open spec fn is_draw<T>(pos: Seq<int>, out: Seq<T>, items: Seq<T>) -> bool {
    &&& pos.len() == out.len()
    &&& distinct_positions(pos, items.len())
    &&& forall|k: int| 0 <= k < out.len() ==> #[trigger] out[k] == items[pos[k]]
}

/// Whether every position below `len` occurs in `pos`.
pub open spec fn covers(pos: Seq<int>, len: nat) -> bool {
    forall|j: int| 0 <= j < len ==> pos.contains(j)
}

/// Calls `rand::seq::SliceRandom::choose_multiple` on the slice with the
/// generator of the current thread, and collects what it yields. It chooses
/// `amount` items at distinct positions of the slice, in random order, or
/// all of them where the slice holds no more than `amount`. Which positions
/// it takes differs from call to call; the contract states what holds of
/// every choice.
#[verifier::external_body]
pub(crate) fn choose_multiple(items: &Vec<usize>, amount: usize) -> (out: Vec<usize>)
    ensures
        out.len() == if amount < items.len() {
            amount
        } else {
            items.len()
        },
        exists|pos: Seq<int>| is_draw(pos, out@, items@),
{
    let mut rng = rand::thread_rng();
    rand::seq::SliceRandom::choose_multiple(items.as_slice(), &mut rng, amount).cloned().collect()
}

/// The positions `0, 1, ..., len - 1`.
pub fn positions(len: usize) -> (out: Vec<usize>)
    ensures
        out.len() == len,
        forall|i: int| 0 <= i < len ==> #[trigger] out[i] == i,
{
    let mut out: Vec<usize> = Vec::new();
    let mut i: usize = 0;
    while i < len
        invariant
            i <= len,
            out.len() == i,
            forall|k: int| 0 <= k < i ==> #[trigger] out[k] == k,
        decreases len - i,
    {
        out.push(i);
        i += 1;
    }
    out
}

/// A random choice of `amount` distinct positions below `len`, or of all of
/// them where `amount` is not below `len`.
pub fn draw_positions(len: usize, amount: usize) -> (out: Vec<usize>)
    ensures
        out.len() == if amount < len {
            amount
        } else {
            len
        },
        distinct_positions(out@.map_values(|p: usize| p as int), len as nat),
{
    let all = positions(len);
    let out = choose_multiple(&all, amount);
    proof {
        let pos = choose|pos: Seq<int>| is_draw(pos, out@, all@);
        let picked = out@.map_values(|p: usize| p as int);
        assert(picked =~= pos);
    }
    out
}

/// Positions that are distinct and as many as there are positions at all
/// leave none out.
pub proof fn lemma_full_draw_covers(pos: Seq<int>, len: nat)
    requires
        distinct_positions(pos, len),
        pos.len() == len,
    ensures
        covers(pos, len),
{
    let range = set_int_range(0, len as int);
    lemma_int_range(0, len as int);
    pos.unique_seq_to_set();
    seq_to_set_is_finite(pos);
    assert(pos.to_set().subset_of(range)) by {
        assert forall|x: int| pos.to_set().contains(x) implies range.contains(x) by {
            let k = choose|k: int| 0 <= k < pos.len() && pos[k] == x;
            assert(0 <= pos[k] < len);
        }
    }
    lemma_subset_equality(pos.to_set(), range);
    assert forall|j: int| 0 <= j < len implies pos.contains(j) by {
        assert(range.contains(j));
        assert(pos.to_set().contains(j));
    }
}

} // verus!

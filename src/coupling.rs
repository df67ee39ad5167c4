use vstd::prelude::*;
use vstd::relations::{sorted_by, total_ordering};
use rayon::slice::ParallelSliceMut;

verus! {

/// Orders pixel indices by their key, ties by index: a total order.
pub open spec fn rank_leq(keys: Seq<i64>) -> spec_fn(usize, usize) -> bool {
    |a: usize, b: usize|
        keys[a as int] < keys[b as int] || (keys[a as int] == keys[b as int] && a <= b)
}

/// The indices `0, 1, ..., n - 1` in order.
pub open spec fn identity(n: nat) -> Seq<usize> {
    Seq::new(n, |i: int| i as usize)
}

/// The indices of `keys` in non-decreasing key order, equal keys by index: the
/// monotone rearrangement that couples two projections rank by rank.
pub open spec fn rank_order(keys: Seq<i64>) -> Seq<usize> {
    identity(keys.len()).sort_by(rank_leq(keys))
}

/// `rank_leq` is a total order.
pub proof fn lemma_rank_leq_total(keys: Seq<i64>)
    ensures
        total_ordering(rank_leq(keys)),
{
}

/// Relies on rayon's `par_sort_by_key`, a stable sort: from the identity
/// permutation it yields the same indices ordered by key, equal keys in
/// increasing index order.
#[verifier::external_body]
fn par_sort_indices(idx: &mut Vec<usize>, keys: &Vec<i64>)
    requires
        old(idx)@ == identity(keys@.len()),
    ensures
        final(idx)@.to_multiset() == old(idx)@.to_multiset(),
        sorted_by(final(idx)@, rank_leq(keys@)),
{
    idx.par_sort_by_key(|&i| keys[i]);
}

/// The rank coupling of a projection is a permutation of the pixel indices
/// along which the projected values never decrease.
pub proof fn lemma_rank_order_sorted(keys: Seq<i64>)
    ensures
        sorted_by(rank_order(keys), rank_leq(keys)),
        rank_order(keys).len() == keys.len(),
        rank_order(keys).to_multiset() == identity(
            keys.len(),
        ).to_multiset(),
        forall|k: int|
            0 <= k < keys.len() ==> (#[trigger] rank_order(keys)[k] as int)
                < keys.len(),
        forall|k: int, l: int|
            0 <= k <= l < keys.len() ==> keys[#[trigger] rank_order(keys)[k] as int]
                <= keys[#[trigger] rank_order(keys)[l] as int],
{
    let id = identity(keys.len());
    let ro = rank_order(keys);
    let leq = rank_leq(keys);
    lemma_rank_leq_total(keys);
    id.lemma_sort_by_ensures(leq);
    ro.to_multiset_ensures();
    id.to_multiset_ensures();
    assert forall|k: int| 0 <= k < keys.len() implies (#[trigger] ro[k] as int) < keys.len() by {
        assert(ro.contains(ro[k]));
    }
    assert forall|k: int, l: int| 0 <= k <= l < keys.len() implies keys[#[trigger] ro[k] as int]
        <= keys[#[trigger] ro[l] as int] by {
        if k < l {
            assert(leq(ro[k], ro[l]));
        }
    }
}

/// Sorts the pixel indices by projected value (stable, ties by index).
pub fn sort_indices_by_key(keys: &Vec<i64>) -> (r: Vec<usize>)
    ensures
        r@ == rank_order(keys@),
        r@.len() == keys@.len(),
        forall|k: int| 0 <= k < r@.len() ==> (#[trigger] r@[k] as int) < keys@.len(),
        forall|k: int, l: int|
            0 <= k <= l < r@.len() ==> keys@[#[trigger] r@[k] as int] <= keys@[#[trigger] r@[l] as int],
{
    let n: usize = keys.len();
    let mut idx: Vec<usize> = Vec::with_capacity(n);
    let mut i: usize = 0;
    while i < n
        invariant
            n == keys@.len(),
            i <= n,
            idx@ == identity(i as nat),
        decreases n - i,
    {
        idx.push(i);
        i = i + 1;
        assert(idx@ =~= identity(i as nat));
    }
    par_sort_indices(&mut idx, keys);
    proof {
        let ro = rank_order(keys@);
        lemma_rank_order_sorted(keys@);
        lemma_rank_leq_total(keys@);
        identity(n as nat).to_multiset_ensures();
        ro.to_multiset_ensures();
        idx@.to_multiset_ensures();
        vstd::seq_lib::lemma_sorted_unique(idx@, ro, rank_leq(keys@));
    }
    idx
}

} // verus!

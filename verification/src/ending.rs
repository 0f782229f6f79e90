use vstd::prelude::*;

use crate::optimum::ichain;
use crate::optimum::lemma_lis_len_pos;
use crate::optimum::lemma_lis_wit;
use crate::optimum::lis_len;
use crate::optimum::lis_wit;
use crate::optimum::neg_inf;

verus! {

/// Length of the longest strictly increasing subsequence of `s` that ends
/// exactly at position `i`, where only positions below `k` may serve as the
/// predecessor of `i`.
pub open spec fn lis_end_upto(s: Seq<i32>, i: int, k: int) -> nat
    decreases k,
{
    if k <= 0 {
        1
    } else {
        let rest: nat = lis_end_upto(s, i, k - 1);
        if 0 <= k - 1 < s.len() && 0 <= i < s.len() && s[k - 1] < s[i] {
            let cand: nat = 1 + lis_end_upto(s, k - 1, k - 1);
            if cand > rest {
                cand
            } else {
                rest
            }
        } else {
            rest
        }
    }
}

/// Length of the longest strictly increasing subsequence of `s` ending
/// exactly at position `i`.
pub open spec fn lis_end(s: Seq<i32>, i: int) -> nat {
    lis_end_upto(s, i, i)
}

/// A subsequence ending at `i` has at least the element at `i` itself.
pub proof fn lemma_end_upto_ge_one(s: Seq<i32>, i: int, k: int)
    ensures
        lis_end_upto(s, i, k) >= 1,
    decreases k,
{
    if k > 0 {
        lemma_end_upto_ge_one(s, i, k - 1);
    }
}

/// Any admissible predecessor `j` gives a subsequence one longer than the
/// best one ending at `j`.
pub proof fn lemma_end_step(s: Seq<i32>, i: int, j: int, k: int)
    requires
        0 <= j < k,
        j < s.len(),
        0 <= i < s.len(),
        s[j] < s[i],
    ensures
        lis_end_upto(s, i, k) >= 1 + lis_end(s, j),
    decreases k,
{
    if k - 1 == j {
    } else {
        lemma_end_step(s, i, j, k - 1);
    }
}

/// If every admissible predecessor of `i` below `k` ends a subsequence of
/// length at most `m`, then at most `m + 1` elements can end at `i`.
pub proof fn lemma_end_upto_bounded(s: Seq<i32>, i: int, k: int, m: nat)
    requires
        forall|j: int|
            0 <= j < k && j < s.len() && 0 <= i < s.len() && s[j] < s[i] ==> #[trigger] lis_end(
                s,
                j,
            ) <= m,
    ensures
        lis_end_upto(s, i, k) <= m + 1,
    decreases k,
{
    if k > 0 {
        lemma_end_upto_bounded(s, i, k - 1, m);
        if 0 <= k - 1 < s.len() && 0 <= i < s.len() && s[k - 1] < s[i] {
            assert(lis_end(s, k - 1) <= m);
        }
    }
}

/// Every chain is no longer than the best subsequence ending at its last
/// position.
pub proof fn lemma_chain_le_end(idx: Seq<int>, s: Seq<i32>, lo: int, bound: int)
    requires
        ichain(idx, s, lo, bound),
        idx.len() > 0,
        0 <= lo,
    ensures
        idx.len() <= lis_end(s, idx.last()),
    decreases idx.len(),
{
    let e = idx.last();
    if idx.len() == 1 {
        lemma_end_upto_ge_one(s, e, e);
    } else {
        let front = idx.drop_last();
        assert forall|k: int| 0 <= k < front.len() implies #[trigger] front[k] == idx[k] by {}
        assert(ichain(front, s, lo, bound));
        lemma_chain_le_end(front, s, lo, bound);
        let e2 = front.last();
        assert(e2 == idx[idx.len() - 2]);
        assert(e2 < e && s[e2] < s[e]) by {
            assert(idx[idx.len() - 2] < idx[idx.len() - 1] && s[idx[idx.len() - 2]] < s[idx[idx.len()
                - 1]]);
            assert(idx[idx.len() - 1] == e);
        }
        lemma_end_step(s, e, e2, e);
    }
}

/// The optimum is attained by a subsequence ending at some position: the
/// last position of any longest witness.
pub proof fn lemma_optimum_ends_somewhere(s: Seq<i32>)
    requires
        s.len() > 0,
    ensures
        exists|e: int| 0 <= e < s.len() && lis_len(s) <= #[trigger] lis_end(s, e),
{
    lemma_lis_wit(s, 0, neg_inf());
    let w = lis_wit(s, 0, neg_inf());
    lemma_lis_len_pos(s);
    assert(w.len() >= 1);
    lemma_chain_le_end(w, s, 0, neg_inf());
    assert(0 <= w.last() < s.len() && lis_len(s) <= lis_end(s, w.last()));
}

} // verus!

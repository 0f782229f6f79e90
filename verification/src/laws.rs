use vstd::prelude::*;

use crate::backptr::pseq;
use crate::bruteforce::bruteforce_witness;
use crate::bruteforce::bt_search;
use crate::dp::best_end_upto;
use crate::dp::dp_chain;
use crate::dp::dp_scan;
use crate::dp::dp_witness;
use crate::ending::lis_end_upto;
use crate::nlogn::lb_spec;
use crate::nlogn::nlogn_witness;
use crate::nlogn::pat_state;
use crate::optimum::chain_bound;
use crate::optimum::chain_vals;
use crate::optimum::ichain;
use crate::optimum::lemma_ichain_le;
use crate::optimum::lemma_lis_from_le;
use crate::optimum::lemma_lis_len_pos;
use crate::optimum::lemma_lis_wit;
use crate::optimum::lis_len;
use crate::optimum::lis_wit;
use crate::optimum::neg_inf;
use crate::recursive::rec_wit;
use crate::recursive::recursive_witness;
use crate::subseq::lemma_subseq_full;
use crate::subseq::str_dec;
use crate::subseq::str_inc;
use crate::subseq::subseq_of;

verus! {

/// An empty input has an empty longest increasing subsequence, so every
/// algorithm returns a subsequence of length zero on it.
pub proof fn lemma_lis_len_empty(s: Seq<i32>)
    requires
        s.len() == 0,
    ensures
        lis_len(s) == 0,
{
}

/// A strictly increasing input is its own longest increasing subsequence.
pub proof fn lemma_lis_len_increasing(s: Seq<i32>)
    requires
        str_inc(s),
    ensures
        lis_len(s) == s.len(),
{
    lemma_lis_from_le(s, 0, neg_inf());
    let full = Seq::new(s.len(), |k: int| k);
    assert(ichain(full, s, 0, neg_inf())) by {
        assert forall|k: int| 0 <= k < full.len() implies 0 <= #[trigger] full[k] < s.len() && s[
            full[k]
        ] as int > neg_inf() by {
            assert(full[k] == k);
        }
        assert forall|k: int, l: int| 0 <= k < l < full.len() implies #[trigger] full[k]
            < #[trigger] full[l] && s[full[k]] < s[full[l]] by {
            assert(full[k] == k && full[l] == l);
        }
    }
    lemma_ichain_le(full, s, 0, neg_inf());
}

/// On a strictly increasing input, any returned subsequence of the optimal
/// length is the full input, unchanged.
pub proof fn lemma_increasing_input_full(s: Seq<i32>, r: Seq<i32>)
    requires
        str_inc(s),
        subseq_of(r, s),
        r.len() == lis_len(s),
    ensures
        r == s,
{
    lemma_lis_len_increasing(s);
    lemma_subseq_full(r, s);
}

/// A strictly decreasing nonempty input admits only one-element increasing
/// subsequences, so every algorithm returns exactly one element.
pub proof fn lemma_lis_len_decreasing(s: Seq<i32>)
    requires
        str_dec(s),
        s.len() > 0,
    ensures
        lis_len(s) == 1,
{
    lemma_lis_len_pos(s);
    lemma_lis_wit(s, 0, neg_inf());
    let w = lis_wit(s, 0, neg_inf());
    if w.len() >= 2 {
        assert(w[0] < w[1] && s[w[0]] < s[w[1]]);
        assert(s[w[0]] > s[w[1]]);
        assert(false);
    }
}

/// Nothing above `bound` remains, so the recursion returns empty.
proof fn lemma_rec_wit_none(s: Seq<i32>, i: int, bound: int)
    requires
        forall|j: int| i <= j < s.len() ==> s[j] as int <= bound,
    ensures
        rec_wit(s, i, bound) == Seq::<i32>::empty(),
    decreases s.len() - i,
{
    if 0 <= i < s.len() {
        lemma_rec_wit_none(s, i + 1, bound);
    }
}

/// On a strictly decreasing input the recursion keeps the last element: the
/// skip branch wins every length tie on the way up.
proof fn lemma_decreasing_rec_wit(s: Seq<i32>, i: int)
    requires
        str_dec(s),
        0 <= i < s.len(),
    ensures
        rec_wit(s, i, neg_inf()) == seq![s.last()],
    decreases s.len() - i,
{
    let n = s.len() as int;
    assert forall|j: int| i + 1 <= j < s.len() implies s[j] as int <= s[i] as int by {
        assert(s[i] > s[j]);
    }
    lemma_rec_wit_none(s, i + 1, s[i] as int);
    assert(seq![s[i]] + Seq::<i32>::empty() =~= seq![s[i]]);
    if i == n - 1 {
        assert(rec_wit(s, i + 1, neg_inf()) == Seq::<i32>::empty());
        assert(s[i] == s.last());
    } else {
        lemma_decreasing_rec_wit(s, i + 1);
    }
}

/// The recursive variant returns exactly the last element of a strictly
/// decreasing nonempty input.
pub proof fn lemma_decreasing_recursive_witness(s: Seq<i32>)
    requires
        str_dec(s),
        s.len() > 0,
    ensures
        recursive_witness(s) == seq![s.last()],
{
    lemma_decreasing_rec_wit(s, 0);
}

/// A one-element incumbent that no remaining element can extend or beat
/// survives the rest of the exploration unchanged.
proof fn lemma_bt_search_settled(s: Seq<i32>, i: int, cur: Seq<i32>, best: Seq<i32>)
    requires
        0 <= i <= s.len(),
        cur.len() == 1,
        best.len() == 1,
        forall|j: int| i <= j < s.len() ==> (cur[0] as int) > s[j] as int,
    ensures
        bt_search(s, i, cur, best) == best,
    decreases s.len() - i,
{
    if i < s.len() {
        lemma_bt_search_settled(s, i + 1, cur, best);
        assert(chain_bound(cur, neg_inf()) == cur[0] as int) by {
            assert(cur.last() == cur[0]);
        }
    }
}

/// On a strictly decreasing input the exploration's first and only strict
/// improvement is the singleton of the last element.
proof fn lemma_bt_search_decreasing(s: Seq<i32>, i: int)
    requires
        str_dec(s),
        0 <= i < s.len(),
    ensures
        bt_search(s, i, Seq::<i32>::empty(), Seq::<i32>::empty()) == seq![s.last()],
    decreases s.len() - i,
{
    let n = s.len() as int;
    let e = Seq::<i32>::empty();
    assert(e.push(s[i]) =~= seq![s[i]]);
    if i == n - 1 {
        assert(bt_search(s, n, e, e) == e);
        assert(bt_search(s, n, e.push(s[i]), e) == e.push(s[i]));
        assert(s[i] == s.last());
    } else {
        lemma_bt_search_decreasing(s, i + 1);
        assert forall|j: int| i + 1 <= j < s.len() implies (e.push(s[i])[0] as int) > s[
            j
        ] as int by {
            assert(s[i] > s[j]);
        }
        lemma_bt_search_settled(s, i + 1, e.push(s[i]), seq![s.last()]);
    }
}

/// The backtracking variant returns exactly the last element of a strictly
/// decreasing nonempty input.
pub proof fn lemma_decreasing_bruteforce_witness(s: Seq<i32>)
    requires
        str_dec(s),
        s.len() > 0,
    ensures
        bruteforce_witness(s) == seq![s.last()],
{
    lemma_bt_search_decreasing(s, 0);
}

/// On a strictly decreasing input no position has an admissible predecessor.
proof fn lemma_decreasing_lis_end(s: Seq<i32>, i: int, k: int)
    requires
        str_dec(s),
        0 <= i < s.len(),
        0 <= k <= i,
    ensures
        lis_end_upto(s, i, k) == 1,
    decreases k,
{
    if k > 0 {
        lemma_decreasing_lis_end(s, i, k - 1);
        assert(s[k - 1] > s[i]);
    }
}

/// So the tabulation records no predecessor for any position.
proof fn lemma_decreasing_dp_scan(s: Seq<i32>, i: int, k: int)
    requires
        str_dec(s),
        0 <= i < s.len(),
        0 <= k <= i,
    ensures
        dp_scan(s, i, k) == (1nat, Option::<usize>::None),
    decreases k,
{
    if k > 0 {
        lemma_decreasing_dp_scan(s, i, k - 1);
        assert(s[k - 1] > s[i]);
    }
}

/// And all lengths are equal, so the lowest ending index stays zero.
proof fn lemma_decreasing_best_end(s: Seq<i32>, k: int)
    requires
        str_dec(s),
        1 <= k <= s.len(),
    ensures
        best_end_upto(s, k) == 0,
    decreases k,
{
    if k > 1 {
        lemma_decreasing_best_end(s, k - 1);
        lemma_decreasing_lis_end(s, k - 1, k - 1);
        lemma_decreasing_lis_end(s, 0, 0);
    }
}

/// The tabulation variant returns exactly the first element of a strictly
/// decreasing nonempty input: the lowest maximal ending index wins.
pub proof fn lemma_decreasing_dp_witness(s: Seq<i32>)
    requires
        str_dec(s),
        s.len() > 0,
    ensures
        dp_witness(s) == seq![s[0]],
{
    lemma_decreasing_best_end(s, s.len() as int);
    assert(dp_scan(s, 0, 0) == (1nat, Option::<usize>::None));
    assert(dp_chain(s, 0) == seq![0int]);
    assert(chain_vals(seq![0int], s) =~= seq![s[0]]) by {
        assert(seq![0int][0] == 0);
    }
}

/// On a strictly decreasing input each element overwrites the single
/// length-one tail, and no predecessor is ever recorded.
proof fn lemma_decreasing_pat_state(s: Seq<i32>, i: int)
    requires
        str_dec(s),
        1 <= i <= s.len(),
    ensures
        pat_state(s, i).0 == seq![s[i - 1]],
        pat_state(s, i).1 == seq![(i - 1) as usize],
        pat_state(s, i).2 == Seq::new(s.len(), |m: int| Option::<usize>::None),
    decreases i,
{
    if i == 1 {
        assert(pat_state(s, 0) == (
            Seq::<i32>::empty(),
            Seq::<usize>::empty(),
            Seq::new(s.len(), |m: int| Option::<usize>::None),
        ));
        assert(lb_spec(Seq::<i32>::empty(), s[0]) == 0);
        assert(Seq::<i32>::empty().push(s[0]) =~= seq![s[0]]);
        assert(Seq::<usize>::empty().push(0usize) =~= seq![0usize]);
        assert(pat_state(s, 1).0 == seq![s[0]]);
        assert(pat_state(s, 1).1 == seq![0usize]);
    } else {
        lemma_decreasing_pat_state(s, i - 1);
        assert(pat_state(s, i - 1).0 == seq![s[i - 2]]);
        assert(seq![s[i - 2]][0] == s[i - 2]);
        assert(s[i - 2] >= s[i - 1]);
        assert(lb_spec(seq![s[i - 2]], s[i - 1]) == 0);
        assert(seq![s[i - 2]].update(0, s[i - 1]) =~= seq![s[i - 1]]);
        assert(seq![(i - 2) as usize].update(0, (i - 1) as usize) =~= seq![(i - 1) as usize]);
        assert(pat_state(s, i).0 == seq![s[i - 1]]);
        assert(pat_state(s, i).1 == seq![(i - 1) as usize]);
    }
}

/// The patience variant returns exactly the last element of a strictly
/// decreasing nonempty input: the final overwrite wins. The length bound is
/// the validity of the vector the executable function is given.
pub proof fn lemma_decreasing_nlogn_witness(s: Seq<i32>)
    requires
        str_dec(s),
        0 < s.len() <= usize::MAX,
    ensures
        nlogn_witness(s) == seq![s.last()],
{
    let n = s.len() as int;
    lemma_decreasing_pat_state(s, n);
    let pv = Seq::new(s.len(), |m: int| Option::<usize>::None);
    assert(seq![(n - 1) as usize].last() == (n - 1) as usize);
    assert(((n - 1) as usize) as int == n - 1);
    assert(pv[n - 1] is None);
    assert(pseq(pv, n - 1) == seq![n - 1]);
    assert(chain_vals(seq![n - 1], s) =~= seq![s[n - 1]]) by {
        assert(seq![n - 1][0] == n - 1);
    }
    assert(s[n - 1] == s.last());
}

/// All four algorithms return subsequences of one and the same length on the
/// same input: the length is an invariant of the input; only the chosen
/// values may differ between tie-break rules.
pub proof fn lemma_lengths_agree(s: Seq<i32>, a: Seq<i32>, b: Seq<i32>, c: Seq<i32>, d: Seq<i32>)
    requires
        a.len() == lis_len(s),
        b.len() == lis_len(s),
        c.len() == lis_len(s),
        d.len() == lis_len(s),
    ensures
        a.len() == b.len(),
        b.len() == c.len(),
        c.len() == d.len(),
{
}

} // verus!

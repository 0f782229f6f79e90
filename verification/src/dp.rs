use vstd::prelude::*;

use crate::backptr::lemma_pseq_chain;
use crate::backptr::pseq;
use crate::backptr::reconstruct;
use crate::backptr::wf_prev;
use crate::ending::lemma_optimum_ends_somewhere;
use crate::ending::lis_end;
use crate::ending::lis_end_upto;
use crate::optimum::chain_vals;
use crate::optimum::lemma_ichain_le;
use crate::optimum::lemma_ichain_vals;
use crate::optimum::lis_len;
use crate::optimum::neg_inf;
use crate::subseq::str_inc;
use crate::subseq::subseq_of;

verus! {

/// Each length entry agrees with its predecessor entry: one more than the
/// predecessor's length, or one where no predecessor is recorded.
spec fn dp_linked(dp: Seq<usize>, prevs: Seq<Option<usize>>) -> bool {
    &&& dp.len() == prevs.len()
    &&& forall|m: int|
        0 <= m < prevs.len() ==> match #[trigger] prevs[m] {
            Option::Some(j) => dp[m] == dp[j as int] + 1,
            Option::None => dp[m] == 1,
        }
}

/// The collected predecessor subsequence of `i` has exactly `dp[i]` elements.
proof fn lemma_pseq_len(s: Seq<i32>, prevs: Seq<Option<usize>>, dp: Seq<usize>, i: int)
    requires
        wf_prev(prevs, s),
        dp_linked(dp, prevs),
        0 <= i < prevs.len(),
    ensures
        pseq(prevs, i).len() == dp[i],
    decreases i,
{
    match prevs[i] {
        Option::Some(j) => {
            assert((j as int) < i);
            lemma_pseq_len(s, prevs, dp, j as int);
        },
        Option::None => {},
    }
}

/// Length and recorded predecessor for position `i` after scanning the
/// candidate predecessors below `k` from left to right: a candidate replaces
/// the record only when it gives a strictly longer subsequence, so the
/// lowest candidate attaining the final length is kept.
pub open spec fn dp_scan(s: Seq<i32>, i: int, k: int) -> (nat, Option<usize>)
    decreases k,
{
    if k <= 0 {
        (1, Option::None)
    } else {
        let st = dp_scan(s, i, k - 1);
        if 0 <= k - 1 < s.len() && 0 <= i < s.len() && s[k - 1] < s[i] && lis_end(s, k - 1) + 1
            > st.0 {
            (lis_end(s, k - 1) + 1, Option::Some((k - 1) as usize))
        } else {
            st
        }
    }
}

/// The position chain the tabulation reconstructs by following recorded
/// predecessors back from `i`.
pub open spec fn dp_chain(s: Seq<i32>, i: int) -> Seq<int>
    decreases i,
{
    match dp_scan(s, i, i).1 {
        Option::Some(j) => if 0 <= (j as int) < i {
            dp_chain(s, j as int).push(i)
        } else {
            seq![i]
        },
        Option::None => seq![i],
    }
}

/// The lowest position among the first `k` that ends a longest subsequence.
pub open spec fn best_end_upto(s: Seq<i32>, k: int) -> int
    decreases k,
{
    if k <= 1 {
        0
    } else {
        let b = best_end_upto(s, k - 1);
        if lis_end(s, k - 1) > lis_end(s, b) {
            k - 1
        } else {
            b
        }
    }
}

/// The exact value `lis_dp` returns.
pub open spec fn dp_witness(s: Seq<i32>) -> Seq<i32> {
    if s.len() == 0 {
        Seq::empty()
    } else {
        chain_vals(dp_chain(s, best_end_upto(s, s.len() as int)), s)
    }
}

/// When every recorded predecessor is the scan's choice, following them back
/// collects exactly the scan's chain.
proof fn lemma_pseq_is_dp_chain(s: Seq<i32>, prevs: Seq<Option<usize>>, i: int)
    requires
        wf_prev(prevs, s),
        0 <= i < prevs.len(),
        forall|m: int| 0 <= m < prevs.len() ==> prevs[m] == dp_scan(s, m, m).1,
    ensures
        pseq(prevs, i) == dp_chain(s, i),
    decreases i,
{
    assert(prevs[i] == dp_scan(s, i, i).1);
    match prevs[i] {
        Option::Some(j) => {
            assert((j as int) < i);
            lemma_pseq_is_dp_chain(s, prevs, j as int);
        },
        Option::None => {},
    }
}

/// Longest increasing subsequence by tabulation with back-pointers (O(n^2)).
/// The returned witness is pinned exactly: it is `dp_witness`, whose ending
/// index is the lowest position that ends a longest subsequence, and whose
/// predecessors are the lowest candidates attaining each length.
pub fn lis_dp(sequence: &Vec<i32>) -> (r: Vec<i32>)
    ensures
        str_inc(r@),
        subseq_of(r@, sequence@),
        r@.len() == lis_len(sequence@),
        r@ == dp_witness(sequence@),
{
    let ghost s = sequence@;
    let n: usize = sequence.len();
    if n == 0 {
        let r: Vec<i32> = Vec::new();
        proof {
            assert(subseq_of(r@, s));
            assert(r@ == dp_witness(s));
        }
        return r;
    }

    let mut dp: Vec<usize> = Vec::new();
    let mut prev: Vec<Option<usize>> = Vec::new();
    let mut t: usize = 0;
    while t < n
        invariant
            t <= n,
            dp@.len() == t,
            prev@.len() == t,
            forall|m: int| 0 <= m < t ==> dp@[m] == 1,
            forall|m: int| 0 <= m < t ==> prev@[m] is None,
        decreases n - t,
    {
        dp.push(1);
        prev.push(None);
        t += 1;
    }

    let mut i: usize = 0;
    while i < n
        invariant
            s == sequence@,
            n == s.len(),
            i <= n,
            dp@.len() == n,
            prev@.len() == n,
            wf_prev(prev@, s),
            dp_linked(dp@, prev@),
            forall|m: int| 0 <= m < i ==> dp@[m] == lis_end(s, m),
            forall|m: int| 0 <= m < i ==> prev@[m] == dp_scan(s, m, m).1,
            forall|m: int| i <= m < n ==> dp@[m] == 1 && prev@[m] is None,
            forall|m: int| 0 <= m < n ==> 1 <= #[trigger] dp@[m] <= m + 1,
        decreases n - i,
    {
        let mut j: usize = 0;
        proof {
            assert(dp@[i as int] == lis_end_upto(s, i as int, 0));
            assert(dp_scan(s, i as int, 0) == (1nat, Option::<usize>::None));
        }
        while j < i
            invariant
                s == sequence@,
                n == s.len(),
                j <= i < n,
                dp@.len() == n,
                prev@.len() == n,
                wf_prev(prev@, s),
                dp_linked(dp@, prev@),
                forall|m: int| 0 <= m < i ==> dp@[m] == lis_end(s, m),
                forall|m: int| 0 <= m < i ==> prev@[m] == dp_scan(s, m, m).1,
                forall|m: int| i < m < n ==> dp@[m] == 1 && prev@[m] is None,
                dp@[i as int] == lis_end_upto(s, i as int, j as int),
                dp@[i as int] == dp_scan(s, i as int, j as int).0,
                prev@[i as int] == dp_scan(s, i as int, j as int).1,
                forall|m: int| 0 <= m < n ==> 1 <= #[trigger] dp@[m] <= m + 1,
            decreases i - j,
        {
            let ghost dp0 = dp@;
            let ghost prev0 = prev@;
            if sequence[j] < sequence[i] && dp[j] + 1 > dp[i] {
                let v: usize = dp[j] + 1;
                dp.set(i, v);
                prev.set(i, Some(j));
                proof {
                    assert forall|m: int| 0 <= m < n implies match #[trigger] prev@[m] {
                        Option::Some(j2) => dp@[m] == dp@[j2 as int] + 1,
                        Option::None => dp@[m] == 1,
                    } by {
                        if m != i as int {
                            assert(prev@[m] == prev0[m]);
                            match prev0[m] {
                                Option::Some(j2) => {
                                    assert((j2 as int) < m);
                                    assert(m < i as int ==> (j2 as int) != i as int);
                                    assert(m > i as int ==> prev0[m] is None);
                                },
                                Option::None => {},
                            }
                        }
                    }
                }
            }
            proof {
                assert(dp@[i as int] == lis_end_upto(s, i as int, j as int + 1)) by {
                    assert(lis_end_upto(s, i as int, j as int) == dp0[i as int]);
                    assert(lis_end_upto(s, j as int, j as int) == lis_end(s, j as int));
                    assert(dp0[j as int] == lis_end(s, j as int));
                }
                assert(dp@[i as int] == dp_scan(s, i as int, j as int + 1).0 && prev@[i as int]
                    == dp_scan(s, i as int, j as int + 1).1) by {
                    assert(dp_scan(s, i as int, j as int) == (
                        dp0[i as int] as nat,
                        prev0[i as int],
                    ));
                    assert(dp0[j as int] == lis_end(s, j as int));
                }
            }
            j += 1;
        }
        i += 1;
    }

    // find index of maximum dp; the first maximal index wins
    let mut max_idx: usize = 0;
    let mut i2: usize = 1;
    while i2 < n
        invariant
            s == sequence@,
            n == s.len(),
            1 <= i2 <= n,
            (max_idx as int) < i2,
            dp@.len() == n,
            prev@.len() == n,
            wf_prev(prev@, s),
            dp_linked(dp@, prev@),
            forall|m: int| 0 <= m < n ==> dp@[m] == lis_end(s, m),
            forall|m: int| 0 <= m < n ==> prev@[m] == dp_scan(s, m, m).1,
            forall|m: int| 0 <= m < i2 ==> dp@[m] <= dp@[max_idx as int],
            max_idx as int == best_end_upto(s, i2 as int),
        decreases n - i2,
    {
        if dp[i2] > dp[max_idx] {
            max_idx = i2;
        }
        i2 += 1;
    }

    // reconstruct the subsequence by following back-pointers
    let r = reconstruct(sequence, &prev, max_idx);
    proof {
        lemma_pseq_chain(s, prev@, max_idx as int);
        lemma_pseq_len(s, prev@, dp@, max_idx as int);
        let p = pseq(prev@, max_idx as int);
        lemma_ichain_vals(p, s, 0, neg_inf());
        lemma_ichain_le(p, s, 0, neg_inf());
        assert(r@.len() == dp@[max_idx as int]);
        assert(dp@[max_idx as int] <= lis_len(s));
        lemma_optimum_ends_somewhere(s);
        let e = choose|e: int| 0 <= e < s.len() && lis_len(s) <= #[trigger] lis_end(s, e);
        assert(lis_end(s, e) == dp@[e]);
        assert(lis_len(s) <= dp@[max_idx as int]);
        lemma_pseq_is_dp_chain(s, prev@, max_idx as int);
        assert(max_idx as int == best_end_upto(s, n as int));
        assert(r@ == dp_witness(s));
    }
    r
}

} // verus!

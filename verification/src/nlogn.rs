use vstd::prelude::*;

use crate::backptr::lemma_pseq_chain;
use crate::backptr::lemma_pseq_frame;
use crate::backptr::pseq;
use crate::backptr::reconstruct;
use crate::backptr::wf_prev;
use crate::ending::lemma_end_upto_bounded;
use crate::ending::lemma_optimum_ends_somewhere;
use crate::ending::lemma_end_upto_ge_one;
use crate::ending::lis_end;
use crate::optimum::chain_vals;
use crate::optimum::lemma_ichain_le;
use crate::optimum::lemma_ichain_vals;
use crate::optimum::lis_len;
use crate::optimum::neg_inf;
use crate::subseq::str_inc;
use crate::subseq::subseq_of;

verus! {

/// The least index whose value is at least `v`, or the length of `tv` if no
/// value qualifies.
pub open spec fn lb_spec(tv: Seq<i32>, v: i32) -> int
    decreases tv.len(),
{
    if tv.len() == 0 {
        0
    } else if tv[0] >= v {
        0
    } else {
        1 + lb_spec(tv.drop_first(), v)
    }
}

/// `lb_spec` really is the least index with a value at least `v`.
proof fn lemma_lb_spec_char(tv: Seq<i32>, v: i32)
    ensures
        0 <= lb_spec(tv, v) <= tv.len(),
        forall|k: int| 0 <= k < lb_spec(tv, v) ==> tv[k] < v,
        lb_spec(tv, v) < tv.len() ==> tv[lb_spec(tv, v)] >= v,
    decreases tv.len(),
{
    if tv.len() > 0 && tv[0] < v {
        let rest = tv.drop_first();
        lemma_lb_spec_char(rest, v);
        assert forall|k: int| 0 <= k < lb_spec(tv, v) implies tv[k] < v by {
            if k > 0 {
                assert(rest[k - 1] < v);
            }
        }
        if lb_spec(tv, v) < tv.len() {
            assert(rest[lb_spec(tv, v) - 1] >= v);
        }
    }
}

/// The patience state after scanning the first `i` elements of `s`: the
/// strictly increasing tail values, their source positions, and the
/// predecessors recorded so far.
pub open spec fn pat_state(s: Seq<i32>, i: int) -> (Seq<i32>, Seq<usize>, Seq<Option<usize>>)
    decreases i,
{
    if i <= 0 {
        (Seq::empty(), Seq::empty(), Seq::new(s.len(), |m: int| Option::None))
    } else {
        let st = pat_state(s, i - 1);
        let v = s[i - 1];
        let pos = lb_spec(st.0, v);
        let tv2 = if pos == st.0.len() {
            st.0.push(v)
        } else {
            st.0.update(pos, v)
        };
        let ti2 = if pos == st.0.len() {
            st.1.push((i - 1) as usize)
        } else {
            st.1.update(pos, (i - 1) as usize)
        };
        let pv2 = if pos > 0 {
            st.2.update(i - 1, Option::Some(ti2[pos - 1]))
        } else {
            st.2
        };
        (tv2, ti2, pv2)
    }
}

/// The exact value `lis_nlogn` returns: the back-pointer chain collected
/// from the source position of the final longest tail.
pub open spec fn nlogn_witness(s: Seq<i32>) -> Seq<i32> {
    if s.len() == 0 {
        Seq::empty()
    } else {
        let st = pat_state(s, s.len() as int);
        chain_vals(pseq(st.2, st.1.last() as int), s)
    }
}

/// Find the first index whose value is at least `target`, or the length of
/// `tails` if no value qualifies (the insertion point); `tails` must be
/// strictly increasing. Binary search, O(log k).
pub fn lower_bound(tails: &Vec<i32>, target: i32) -> (r: usize)
    requires
        str_inc(tails@),
    ensures
        r <= tails@.len(),
        forall|k: int| 0 <= k < r ==> tails@[k] < target,
        r < tails@.len() ==> tails@[r as int] >= target,
{
    let mut lo: usize = 0;
    let mut hi: usize = tails.len();
    let mut ans: usize = tails.len();  // default insert at end
    while lo < hi
        invariant
            str_inc(tails@),
            lo <= hi <= tails@.len(),
            ans <= tails@.len(),
            forall|k: int| 0 <= k < lo ==> tails@[k] < target,
            ans < tails@.len() ==> ans == hi && tails@[ans as int] >= target,
            ans == tails@.len() ==> hi == tails@.len(),
        decreases hi - lo,
    {
        let mid: usize = lo + (hi - lo) / 2;
        if tails[mid] >= target {
            ans = mid;
            hi = mid;
        } else {
            proof {
                assert forall|k: int| 0 <= k < mid + 1 implies tails@[k] < target by {
                    if lo <= k < mid {
                        assert(tails@[k] < tails@[mid as int]);
                    }
                }
            }
            lo = mid + 1;
        }
    }
    ans
}

/// Longest increasing subsequence by patience sorting: one left-to-right
/// scan over an array of smallest tail values, with back-pointers recorded
/// for reconstruction (O(n log n)). The returned witness is pinned exactly:
/// it is `nlogn_witness`, reconstructed from the final last-tail source.
pub fn lis_nlogn(sequence: &Vec<i32>) -> (r: Vec<i32>)
    ensures
        str_inc(r@),
        subseq_of(r@, sequence@),
        r@.len() == lis_len(sequence@),
        r@ == nlogn_witness(sequence@),
{
    let ghost s = sequence@;
    let n: usize = sequence.len();
    if n == 0 {
        let r: Vec<i32> = Vec::new();
        proof {
            assert(subseq_of(r@, s));
            assert(r@ == nlogn_witness(s));
        }
        return r;
    }

    let mut tails_values: Vec<i32> = Vec::new();  // tail values
    let mut tails_idx: Vec<usize> = Vec::new();  // indices of those tails in sequence
    let mut prev: Vec<Option<usize>> = Vec::new();
    let mut t: usize = 0;
    while t < n
        invariant
            t <= n,
            prev@.len() == t,
            forall|m: int| 0 <= m < t ==> prev@[m] is None,
        decreases n - t,
    {
        prev.push(None);
        t += 1;
    }
    proof {
        assert(prev@ =~= Seq::new(s.len(), |m: int| Option::<usize>::None));
    }

    let mut i: usize = 0;
    while i < n
        invariant
            s == sequence@,
            n == s.len(),
            i <= n,
            prev@.len() == n,
            tails_values@ == pat_state(s, i as int).0,
            tails_idx@ == pat_state(s, i as int).1,
            prev@ == pat_state(s, i as int).2,
            tails_values@.len() == tails_idx@.len(),
            tails_values@.len() <= i,
            i > 0 ==> tails_values@.len() >= 1,
            str_inc(tails_values@),
            forall|k: int|
                0 <= k < tails_idx@.len() ==> (#[trigger] tails_idx@[k] as int) < i && s[
                    tails_idx@[k] as int
                ] == tails_values@[k],
            wf_prev(prev@, s),
            forall|m: int| i <= m < n ==> prev@[m] is None,
            forall|k: int|
                0 <= k < tails_idx@.len() ==> pseq(prev@, #[trigger] tails_idx@[k] as int).len()
                    == k + 1,
            forall|e: int|
                0 <= e < i ==> #[trigger] lis_end(s, e) <= tails_values@.len() && tails_values@[
                    lis_end(s, e) - 1
                ] <= s[e],
        decreases n - i,
    {
        let val: i32 = sequence[i];
        let pos: usize = if tails_values.is_empty() {
            0
        } else {
            lower_bound(&tails_values, val)
        };
        let ghost tv0 = tails_values@;
        let ghost ti0 = tails_idx@;
        let ghost prev_before = prev@;
        let ghost l0 = tv0.len();
        proof {
            lemma_end_upto_ge_one(s, i as int, i as int);
        }

        if pos == tails_values.len() {
            tails_values.push(val);
            tails_idx.push(i);
        } else {
            tails_values.set(pos, val);
            tails_idx.set(pos, i);
        }

        if pos > 0 {
            let pred: usize = tails_idx[pos - 1];
            prev.set(i, Some(pred));
        }

        proof {
            let tv1 = tails_values@;
            let ti1 = tails_idx@;
            let prev1 = prev@;
            let l1 = tv1.len();
            let ip = i as int;
            let posp = pos as int;

            // the placement position is the spec-level insertion point
            assert(posp == lb_spec(tv0, val)) by {
                lemma_lb_spec_char(tv0, val);
                let lb = lb_spec(tv0, val);
                if posp < lb {
                    assert(tv0[posp] < val);
                    assert(tv0[posp] >= val);
                }
                if lb < posp {
                    assert(tv0[lb] < val);
                    assert(tv0[lb] >= val);
                }
            }

            // the updated arrays are the spec-level patience state
            assert(pat_state(s, ip + 1).0 == tv1 && pat_state(s, ip + 1).1 == ti1 && pat_state(
                s,
                ip + 1,
            ).2 == prev1) by {
                assert(pat_state(s, ip).0 == tv0);
                assert(pat_state(s, ip).1 == ti0);
                assert(pat_state(s, ip).2 == prev_before);
            }

            // the tails stay strictly increasing
            assert(str_inc(tv1)) by {
                assert forall|a: int, b: int| 0 <= a < b < l1 implies tv1[a] < tv1[b] by {
                    if b < l0 {
                        if a == posp {
                            assert(tv0[posp] >= val);
                            assert(tv0[posp] < tv0[b]);
                        } else if b == posp {
                            assert(tv0[a] < val);
                        } else {
                            assert(tv0[a] < tv0[b]);
                        }
                    } else {
                        // b == l0 in the push case
                        assert(tv1[b] == val);
                        assert(tv0[a] < val);
                    }
                }
            }

            // tail positions point below i + 1 and carry their own values
            assert forall|k: int| 0 <= k < l1 implies (#[trigger] ti1[k] as int) < ip + 1 && s[
                ti1[k] as int
            ] == tv1[k] by {
                if k != posp {
                    assert(ti1[k] == ti0[k] && tv1[k] == tv0[k]);
                }
            }

            // the recorded predecessor is sound
            assert(wf_prev(prev1, s)) by {
                if pos > 0 {
                    let pd = ti0[posp - 1];
                    assert(prev1 == prev_before.update(ip, Some(pd as usize)));
                    assert((pd as int) < ip);
                    assert(s[pd as int] == tv0[posp - 1]);
                    assert(tv0[posp - 1] < val);
                    assert forall|m: int| 0 <= m < prev1.len() implies match #[trigger] prev1[m] {
                        Option::Some(j) => (j as int) < m && s[j as int] < s[m],
                        Option::None => true,
                    } by {
                        if m != ip {
                            assert(prev1[m] == prev_before[m]);
                        }
                    }
                }
            }

            // each tail still collects a predecessor subsequence of its rank
            assert forall|k: int| 0 <= k < l1 implies pseq(prev1, #[trigger] ti1[k] as int).len()
                == k + 1 by {
                if k == posp {
                    assert(ti1[k] as int == ip);
                    if pos > 0 {
                        let pd = ti0[posp - 1];
                        assert(prev1[ip] == Some(pd as usize));
                        assert((pd as int) < ip);
                        assert(pseq(prev1, ip) == pseq(prev1, pd as int).push(ip));
                        lemma_pseq_frame(prev1, prev_before, pd as int);
                        assert(pseq(prev_before, pd as int).len() == posp);
                    } else {
                        assert(prev1[ip] is None);
                        assert(pseq(prev1, ip) == seq![ip]);
                    }
                } else {
                    assert(ti1[k] == ti0[k]);
                    assert((ti0[k] as int) < ip);
                    lemma_pseq_frame(prev1, prev_before, ti0[k] as int);
                    assert(pseq(prev_before, ti0[k] as int).len() == k + 1);
                }
            }

            // the minimal-tail record remains complete for older positions
            assert forall|e: int| 0 <= e < ip implies #[trigger] lis_end(s, e) <= l1 && tv1[
                lis_end(s, e) - 1
            ] <= s[e] by {
                lemma_end_upto_ge_one(s, e, e);
                assert(lis_end(s, e) <= l0 && tv0[lis_end(s, e) - 1] <= s[e]);
                let m = lis_end(s, e) - 1;
                if m == posp && posp < l0 {
                    assert(tv1[m] == val);
                    assert(tv0[posp] >= val);
                } else {
                    assert(tv1[m] == tv0[m]);
                }
            }

            // and it now also covers position i itself
            assert(lis_end(s, ip) <= posp + 1 && tv1[lis_end(s, ip) - 1] <= s[ip]) by {
                assert forall|j: int|
                    0 <= j < ip && j < s.len() && 0 <= ip < s.len() && s[j] < s[ip]
                        implies #[trigger] lis_end(s, j) <= posp by {
                    lemma_end_upto_ge_one(s, j, j);
                    assert(lis_end(s, j) <= l0 && tv0[lis_end(s, j) - 1] <= s[j]);
                    if lis_end(s, j) - 1 >= posp {
                        assert(posp < l0);
                        assert(tv0[posp] >= val);
                        if lis_end(s, j) - 1 > posp {
                            assert(tv0[posp] < tv0[lis_end(s, j) - 1]);
                        }
                        assert(tv0[lis_end(s, j) - 1] >= val);
                        assert(s[j] < val);
                        assert(false);
                    }
                }
                lemma_end_upto_bounded(s, ip, ip, pos as nat);
                assert(lis_end(s, ip) >= 1);
                let m = lis_end(s, ip) - 1;
                assert(m <= posp);
                assert(posp < l1);
                if m < posp {
                    assert(tv1[m] == tv0[m]);
                    assert(tv0[m] < val);
                } else {
                    assert(tv1[posp] == val);
                }
            }
        }
        i += 1;
    }

    // reconstruct the subsequence from the last tail
    let last: usize = tails_idx[tails_idx.len() - 1];
    let r = reconstruct(sequence, &prev, last);
    proof {
        let l = tails_values@.len() as int;
        assert(pseq(prev@, tails_idx@[l - 1] as int).len() == l);
        lemma_pseq_chain(s, prev@, last as int);
        let p = pseq(prev@, last as int);
        lemma_ichain_vals(p, s, 0, neg_inf());
        lemma_ichain_le(p, s, 0, neg_inf());
        assert(r@.len() == l);
        assert(l <= lis_len(s));
        lemma_optimum_ends_somewhere(s);
        let e = choose|e: int| 0 <= e < s.len() && lis_len(s) <= #[trigger] lis_end(s, e);
        assert(lis_end(s, e) <= l);
        assert(lis_len(s) <= l);
        assert(tails_idx@[l - 1] == tails_idx@.last());
        assert(r@ == nlogn_witness(s));
    }
    r
}

} // verus!

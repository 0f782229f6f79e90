use vstd::prelude::*;

use crate::subseq::str_inc;
use crate::subseq::subseq_at;

verus! {

/// A bound strictly below every `i32` value; it plays the role of negative
/// infinity for "no element has been taken yet".
pub open spec fn neg_inf() -> int {
    i32::MIN as int - 1
}

/// The larger of two lengths.
pub open spec fn nat_max(a: nat, b: nat) -> nat {
    if a >= b {
        a
    } else {
        b
    }
}

/// Length of the longest strictly increasing subsequence of `s[i..]` all of
/// whose values exceed `bound`.
pub open spec fn lis_from(s: Seq<i32>, i: int, bound: int) -> nat
    decreases s.len() - i,
{
    if i < 0 || i >= s.len() {
        0
    } else {
        let skip: nat = lis_from(s, i + 1, bound);
        if s[i] as int > bound {
            let take: nat = 1 + lis_from(s, i + 1, s[i] as int);
            nat_max(take, skip)
        } else {
            skip
        }
    }
}

/// Length of the longest strictly increasing subsequence of `s`.
pub open spec fn lis_len(s: Seq<i32>) -> nat {
    lis_from(s, 0, neg_inf())
}

/// `sub` is a strictly increasing subsequence of `s[i..]` all of whose values
/// exceed `bound`.
pub open spec fn inc_from(sub: Seq<i32>, s: Seq<i32>, i: int, bound: int) -> bool
    decreases s.len() - i,
{
    if sub.len() == 0 {
        true
    } else if i < 0 || i >= s.len() {
        false
    } else {
        (s[i] as int > bound && sub[0] == s[i] && inc_from(
            sub.drop_first(),
            s,
            i + 1,
            s[i] as int,
        )) || inc_from(sub, s, i + 1, bound)
    }
}

/// `idx` lists positions of `s`, all at least `lo`, strictly increasing in
/// both position and value, every value above `bound`.
pub open spec fn ichain(idx: Seq<int>, s: Seq<i32>, lo: int, bound: int) -> bool {
    &&& forall|k: int| 0 <= k < idx.len() ==> lo <= #[trigger] idx[k] < s.len()
    &&& forall|k: int| 0 <= k < idx.len() ==> s[#[trigger] idx[k]] as int > bound
    &&& forall|k: int, l: int|
        0 <= k < l < idx.len() ==> #[trigger] idx[k] < #[trigger] idx[l] && s[idx[k]] < s[idx[l]]
}

/// The values of `s` read off along the positions `idx`.
pub open spec fn chain_vals(idx: Seq<int>, s: Seq<i32>) -> Seq<i32> {
    Seq::new(idx.len(), |k: int| s[idx[k]])
}

/// No increasing subsequence of `s[i..]` above `bound` is longer than
/// `lis_from` says.
pub proof fn lemma_inc_from_le(sub: Seq<i32>, s: Seq<i32>, i: int, bound: int)
    requires
        inc_from(sub, s, i, bound),
    ensures
        sub.len() <= lis_from(s, i, bound),
    decreases s.len() - i,
{
    if sub.len() == 0 {
    } else if s[i] as int > bound && sub[0] == s[i] && inc_from(
        sub.drop_first(),
        s,
        i + 1,
        s[i] as int,
    ) {
        lemma_inc_from_le(sub.drop_first(), s, i + 1, s[i] as int);
    } else {
        lemma_inc_from_le(sub, s, i + 1, bound);
    }
}

/// `lis_from` never exceeds the number of positions that remain.
pub proof fn lemma_lis_from_le(s: Seq<i32>, i: int, bound: int)
    requires
        0 <= i <= s.len(),
    ensures
        lis_from(s, i, bound) + i <= s.len(),
    decreases s.len() - i,
{
    if i < s.len() {
        lemma_lis_from_le(s, i + 1, bound);
        if s[i] as int > bound {
            lemma_lis_from_le(s, i + 1, s[i] as int);
        }
    }
}

/// Index positions of one longest strictly increasing subsequence of `s[i..]`
/// with all values above `bound`.
pub open spec fn lis_wit(s: Seq<i32>, i: int, bound: int) -> Seq<int>
    decreases s.len() - i,
{
    if i < 0 || i >= s.len() {
        Seq::empty()
    } else {
        let skip: Seq<int> = lis_wit(s, i + 1, bound);
        if s[i] as int > bound {
            let take: Seq<int> = seq![i] + lis_wit(s, i + 1, s[i] as int);
            if take.len() > skip.len() {
                take
            } else {
                skip
            }
        } else {
            skip
        }
    }
}

/// `lis_wit` really is a chain of the optimal length, so the optimum is
/// attained.
pub proof fn lemma_lis_wit(s: Seq<i32>, i: int, bound: int)
    ensures
        ichain(lis_wit(s, i, bound), s, i, bound),
        lis_wit(s, i, bound).len() == lis_from(s, i, bound),
    decreases s.len() - i,
{
    if 0 <= i < s.len() {
        lemma_lis_wit(s, i + 1, bound);
        let skip = lis_wit(s, i + 1, bound);
        assert(ichain(skip, s, i, bound));
        if s[i] as int > bound {
            lemma_lis_wit(s, i + 1, s[i] as int);
            let tail = lis_wit(s, i + 1, s[i] as int);
            let take = seq![i] + tail;
            assert(take[0] == i);
            assert forall|k: int| 0 < k < take.len() implies #[trigger] take[k] == tail[k - 1] by {}
            assert(ichain(take, s, i, bound)) by {
                assert forall|k: int, l: int| 0 <= k < l < take.len() implies #[trigger] take[k]
                    < #[trigger] take[l] && s[take[k]] < s[take[l]] by {
                    if k > 0 {
                        assert(take[k] == tail[k - 1]);
                        assert(take[l] == tail[l - 1]);
                    } else {
                        assert(take[l] == tail[l - 1]);
                        assert(i + 1 <= tail[l - 1]);
                        assert(s[tail[l - 1]] as int > s[i] as int);
                    }
                }
            }
        }
    }
}

/// No chain beats `lis_from`: completeness of the optimum over index chains.
pub proof fn lemma_ichain_le(idx: Seq<int>, s: Seq<i32>, lo: int, bound: int)
    requires
        ichain(idx, s, lo, bound),
        0 <= lo,
    ensures
        idx.len() <= lis_from(s, lo, bound),
    decreases s.len() - lo,
{
    if idx.len() > 0 {
        assert(lo <= idx[0] < s.len());
        if idx[0] == lo {
            let rest = idx.drop_first();
            assert forall|k: int| 0 <= k < rest.len() implies #[trigger] rest[k] == idx[k + 1] by {}
            assert(ichain(rest, s, lo + 1, s[lo] as int)) by {
                assert forall|k: int| 0 <= k < rest.len() implies lo + 1 <= #[trigger] rest[k]
                    < s.len() && s[rest[k]] as int > s[lo] as int by {
                    assert(idx[0] < idx[k + 1] && s[idx[0]] < s[idx[k + 1]]);
                }
            }
            lemma_ichain_le(rest, s, lo + 1, s[lo] as int);
            assert(s[lo] as int > bound);
        } else {
            assert(ichain(idx, s, lo + 1, bound)) by {
                assert forall|k: int| 0 <= k < idx.len() implies lo + 1 <= #[trigger] idx[k] by {
                    if k > 0 {
                        assert(idx[0] < idx[k]);
                    }
                }
            }
            lemma_ichain_le(idx, s, lo + 1, bound);
        }
    }
}

/// A nonempty sequence has a nonempty longest increasing subsequence: its
/// first element alone is one.
pub proof fn lemma_lis_len_pos(s: Seq<i32>)
    requires
        s.len() > 0,
    ensures
        lis_len(s) >= 1,
{
    assert(ichain(seq![0int], s, 0, neg_inf())) by {
        assert forall|k: int| 0 <= k < seq![0int].len() implies 0 <= #[trigger] seq![0int][k]
            < s.len() && s[seq![0int][k]] as int > neg_inf() by {
            assert(seq![0int][k] == 0);
        }
    }
    lemma_ichain_le(seq![0int], s, 0, neg_inf());
}

/// The values along a chain form a strictly increasing subsequence of `s[lo..]`.
pub proof fn lemma_ichain_vals(idx: Seq<int>, s: Seq<i32>, lo: int, bound: int)
    requires
        ichain(idx, s, lo, bound),
        0 <= lo,
    ensures
        str_inc(chain_vals(idx, s)),
        subseq_at(chain_vals(idx, s), s, lo),
        chain_vals(idx, s).len() == idx.len(),
    decreases s.len() - lo,
{
    let vals = chain_vals(idx, s);
    assert(str_inc(vals)) by {
        assert forall|a: int, b: int| 0 <= a < b < vals.len() implies vals[a] < vals[b] by {
            assert(idx[a] < idx[b] && s[idx[a]] < s[idx[b]]);
        }
    }
    if idx.len() > 0 {
        assert(lo <= idx[0] < s.len());
        if idx[0] == lo {
            let rest = idx.drop_first();
            assert forall|k: int| 0 <= k < rest.len() implies #[trigger] rest[k] == idx[k + 1] by {}
            assert(ichain(rest, s, lo + 1, bound)) by {
                assert forall|k: int| 0 <= k < rest.len() implies lo + 1 <= #[trigger] rest[k]
                    < s.len() && s[rest[k]] as int > bound by {
                    assert(idx[0] < idx[k + 1]);
                    assert(s[idx[k + 1]] as int > bound);
                }
            }
            lemma_ichain_vals(rest, s, lo + 1, bound);
            assert(vals.drop_first() =~= chain_vals(rest, s));
            assert(vals[0] == s[lo]);
            assert(subseq_at(vals, s, lo));
        } else {
            assert(ichain(idx, s, lo + 1, bound)) by {
                assert forall|k: int| 0 <= k < idx.len() implies lo + 1 <= #[trigger] idx[k] by {
                    if k > 0 {
                        assert(idx[0] < idx[k]);
                    }
                }
            }
            lemma_ichain_vals(idx, s, lo + 1, bound);
            assert(subseq_at(vals, s, lo));
        }
    }
}

/// A strictly increasing subsequence above a bound is in particular strictly
/// increasing, a subsequence, and elementwise above the bound.
pub proof fn lemma_inc_from_props(sub: Seq<i32>, s: Seq<i32>, i: int, bound: int)
    requires
        inc_from(sub, s, i, bound),
    ensures
        str_inc(sub),
        subseq_at(sub, s, i),
        forall|k: int| 0 <= k < sub.len() ==> sub[k] as int > bound,
    decreases s.len() - i,
{
    if sub.len() == 0 {
    } else if s[i] as int > bound && sub[0] == s[i] && inc_from(
        sub.drop_first(),
        s,
        i + 1,
        s[i] as int,
    ) {
        lemma_inc_from_props(sub.drop_first(), s, i + 1, s[i] as int);
        assert forall|k: int| 0 < k < sub.len() implies #[trigger] sub[k] == sub.drop_first()[k
            - 1] by {}
        assert(str_inc(sub)) by {
            assert forall|a: int, b: int| 0 <= a < b < sub.len() implies sub[a] < sub[b] by {
                if a > 0 {
                    assert(sub.drop_first()[a - 1] < sub.drop_first()[b - 1]);
                } else {
                    assert(sub.drop_first()[b - 1] as int > s[i] as int);
                }
            }
        }
        assert(subseq_at(sub, s, i));
    } else {
        lemma_inc_from_props(sub, s, i + 1, bound);
        assert(subseq_at(sub, s, i));
    }
}

/// The bound that the next taken element must exceed: the last value of the
/// partial subsequence, or the ambient bound if nothing has been taken.
pub open spec fn chain_bound(sub: Seq<i32>, bound: int) -> int {
    if sub.len() == 0 {
        bound
    } else {
        sub.last() as int
    }
}

/// A partial subsequence found inside `s[..j]` can be extended with `s[j]`
/// whenever `s[j]` exceeds its last value.
pub proof fn lemma_inc_from_push(sub: Seq<i32>, s: Seq<i32>, i: int, j: int, bound: int)
    requires
        inc_from(sub, s.take(j), i, bound),
        0 <= i,
        i <= j < s.len(),
        s[j] as int > chain_bound(sub, bound),
    ensures
        inc_from(sub.push(s[j]), s.take(j + 1), i, bound),
    decreases j - i,
{
    let t1 = s.take(j);
    let t2 = s.take(j + 1);
    if sub.len() == 0 {
        assert(sub.push(s[j]) =~= seq![s[j]]);
        if i == j {
            assert(t2[i] == s[j]);
            assert(sub.push(s[j]).drop_first() =~= Seq::<i32>::empty());
            assert(inc_from(sub.push(s[j]).drop_first(), t2, i + 1, t2[i] as int));
            assert(t2[i] as int > bound);
            assert(sub.push(s[j])[0] == t2[i]);
            assert(inc_from(sub.push(s[j]), t2, i, bound));
        } else {
            lemma_inc_from_push(sub, s, i + 1, j, bound);
            assert(inc_from(sub.push(s[j]), t2, i, bound));
        }
    } else {
        assert(0 <= i < t1.len());
        if s[i] as int > bound && sub[0] == s[i] && inc_from(
            sub.drop_first(),
            s.take(j),
            i + 1,
            s[i] as int,
        ) {
            assert(t1[i] == s[i]);
            assert(chain_bound(sub.drop_first(), s[i] as int) == chain_bound(sub, bound)) by {
                if sub.len() > 1 {
                    assert(sub.drop_first().last() == sub.last());
                } else {
                    assert(sub.last() == sub[0]);
                }
            }
            lemma_inc_from_push(sub.drop_first(), s, i + 1, j, s[i] as int);
            let p = sub.push(s[j]);
            assert(p.drop_first() =~= sub.drop_first().push(s[j]));
            assert(inc_from(p.drop_first(), t2, i + 1, s[i] as int));
            assert(t2[i] == s[i]);
            assert(p[0] == s[i]);
            assert(t2[i] as int > bound && p[0] == t2[i] && inc_from(
                p.drop_first(),
                t2,
                i + 1,
                t2[i] as int,
            ));
            assert(inc_from(p, t2, i, bound));
        } else {
            assert(inc_from(sub, s.take(j), i + 1, bound));
            lemma_inc_from_push(sub, s, i + 1, j, bound);
            assert(t2[i] == s[i]);
            assert(inc_from(sub.push(s[j]), t2, i, bound));
        }
    }
}

/// A subsequence found inside `s[..j1]` is also one inside the longer prefix
/// `s[..j2]`.
pub proof fn lemma_inc_from_widen(sub: Seq<i32>, s: Seq<i32>, i: int, j1: int, j2: int, bound: int)
    requires
        inc_from(sub, s.take(j1), i, bound),
        0 <= i,
        0 <= j1 <= j2 <= s.len(),
    ensures
        inc_from(sub, s.take(j2), i, bound),
    decreases j1 - i,
{
    let t1 = s.take(j1);
    let t2 = s.take(j2);
    if sub.len() == 0 {
    } else {
        assert(0 <= i < t1.len());
        assert(t1[i] == s[i] && t2[i] == s[i]);
        if s[i] as int > bound && sub[0] == s[i] && inc_from(
            sub.drop_first(),
            t1,
            i + 1,
            s[i] as int,
        ) {
            lemma_inc_from_widen(sub.drop_first(), s, i + 1, j1, j2, s[i] as int);
            assert(inc_from(sub, t2, i, bound));
        } else {
            assert(inc_from(sub, t1, i + 1, bound));
            lemma_inc_from_widen(sub, s, i + 1, j1, j2, bound);
            assert(inc_from(sub, t2, i, bound));
        }
    }
}

} // verus!

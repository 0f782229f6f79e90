use vstd::prelude::*;

verus! {

/// The values of `v` grow strictly from left to right.
pub open spec fn str_inc(v: Seq<i32>) -> bool {
    forall|a: int, b: int| 0 <= a < b < v.len() ==> v[a] < v[b]
}

/// The values of `v` shrink strictly from left to right.
pub open spec fn str_dec(v: Seq<i32>) -> bool {
    forall|a: int, b: int| 0 <= a < b < v.len() ==> v[a] > v[b]
}

/// `sub` can be obtained from `s[i..]` by deleting elements, keeping the
/// remaining ones in their original order.
pub open spec fn subseq_at(sub: Seq<i32>, s: Seq<i32>, i: int) -> bool
    decreases s.len() - i,
{
    if sub.len() == 0 {
        true
    } else if i < 0 || i >= s.len() {
        false
    } else {
        (sub[0] == s[i] && subseq_at(sub.drop_first(), s, i + 1)) || subseq_at(sub, s, i + 1)
    }
}

/// `sub` is a subsequence of `s`: order-preserving, not necessarily contiguous.
pub open spec fn subseq_of(sub: Seq<i32>, s: Seq<i32>) -> bool {
    subseq_at(sub, s, 0)
}

/// A nonempty subsequence of `s[i..]` has at most `s.len() - i` elements.
pub proof fn lemma_subseq_at_len(sub: Seq<i32>, s: Seq<i32>, i: int)
    requires
        subseq_at(sub, s, i),
        sub.len() > 0,
    ensures
        sub.len() + i <= s.len(),
    decreases s.len() - i,
{
    if sub[0] == s[i] && subseq_at(sub.drop_first(), s, i + 1) {
        if sub.drop_first().len() > 0 {
            lemma_subseq_at_len(sub.drop_first(), s, i + 1);
        }
    } else {
        lemma_subseq_at_len(sub, s, i + 1);
    }
}

/// A subsequence of `s[i..]` that uses every remaining position is `s[i..]`.
pub proof fn lemma_subseq_at_full(sub: Seq<i32>, s: Seq<i32>, i: int)
    requires
        subseq_at(sub, s, i),
        0 <= i <= s.len(),
        sub.len() == s.len() - i,
    ensures
        sub == s.subrange(i, s.len() as int),
    decreases s.len() - i,
{
    if sub.len() > 0 {
        if subseq_at(sub, s, i + 1) {
            lemma_subseq_at_len(sub, s, i + 1);
            assert(false);
        }
        lemma_subseq_at_full(sub.drop_first(), s, i + 1);
        assert(sub =~= s.subrange(i, s.len() as int)) by {
            assert forall|k: int| 0 <= k < sub.len() implies sub[k] == s[i + k] by {
                if k > 0 {
                    assert(sub.drop_first()[k - 1] == s.subrange(i + 1, s.len() as int)[k - 1]);
                }
            }
        }
    } else {
        assert(sub =~= s.subrange(i, s.len() as int));
    }
}

/// A subsequence of the whole of `s` with the same length as `s` is `s` itself.
pub proof fn lemma_subseq_full(sub: Seq<i32>, s: Seq<i32>)
    requires
        subseq_of(sub, s),
        sub.len() == s.len(),
    ensures
        sub == s,
{
    if sub.len() > 0 {
        lemma_subseq_at_full(sub, s, 0);
        assert(s.subrange(0, s.len() as int) =~= s);
    } else {
        assert(sub =~= s);
    }
}

} // verus!

use vstd::prelude::*;

use crate::optimum::inc_from;
use crate::optimum::lemma_inc_from_props;
use crate::optimum::lis_from;
use crate::optimum::lis_len;
use crate::optimum::neg_inf;
use crate::subseq::str_inc;
use crate::subseq::subseq_of;

verus! {

/// The bound that a candidate element must exceed: the value of the last
/// element already included, or negative infinity if none has been.
pub open spec fn opt_bound(prev: Option<i32>) -> int {
    match prev {
        Option::None => neg_inf(),
        Option::Some(v) => v as int,
    }
}

/// The exact subsequence the take-or-skip recursion settles on for
/// `s[i..]` above `bound`: the "take" candidate wins only when strictly
/// longer, so the "skip" branch wins every length tie.
pub open spec fn rec_wit(s: Seq<i32>, i: int, bound: int) -> Seq<i32>
    decreases s.len() - i,
{
    if i < 0 || i >= s.len() {
        Seq::empty()
    } else {
        let exclude = rec_wit(s, i + 1, bound);
        if s[i] as int > bound {
            let taken = seq![s[i]] + rec_wit(s, i + 1, s[i] as int);
            if taken.len() > exclude.len() {
                taken
            } else {
                exclude
            }
        } else {
            exclude
        }
    }
}

/// The exact value `lis_recursive` returns.
pub open spec fn recursive_witness(s: Seq<i32>) -> Seq<i32> {
    rec_wit(s, 0, neg_inf())
}

/// Longest increasing subsequence of `sequence[index..]` above `prev`, by
/// plain take-or-skip recursion without memoization. On a length tie the
/// "skip" branch wins.
fn helper(sequence: &Vec<i32>, prev: Option<i32>, index: usize) -> (r: Vec<i32>)
    requires
        index <= sequence@.len(),
    ensures
        inc_from(r@, sequence@, index as int, opt_bound(prev)),
        r@.len() == lis_from(sequence@, index as int, opt_bound(prev)),
        r@ == rec_wit(sequence@, index as int, opt_bound(prev)),
    decreases sequence@.len() - index,
{
    let ghost s = sequence@;
    let ghost b = opt_bound(prev);
    if index == sequence.len() {
        return Vec::new();
    }

    // Option 1: skip current element
    let exclude = helper(sequence, prev, index + 1);

    // Option 2: take current element if it's greater than previous
    let take_ok: bool = match prev {
        Option::None => true,
        Option::Some(p) => sequence[index] > p,
    };
    if take_ok {
        let v: i32 = sequence[index];
        let mut taken = helper(sequence, Some(v), index + 1);
        let ghost tail = taken@;
        taken.insert(0, v);  // prepend current element
        proof {
            assert(taken@.drop_first() =~= tail);
            assert(taken@[0] == s[index as int]);
            assert(inc_from(taken@, s, index as int, b));
            assert(taken@ =~= seq![v] + tail);
        }

        // Return the longer subsequence
        if taken.len() > exclude.len() {
            return taken;
        }
    }

    exclude
}

/// Longest increasing subsequence by the naive recursive approach (O(2^n)).
/// The returned witness is pinned exactly: it is `recursive_witness`, whose
/// length ties are always resolved in favour of the "skip" branch.
pub fn lis_recursive(sequence: &Vec<i32>) -> (r: Vec<i32>)
    ensures
        str_inc(r@),
        subseq_of(r@, sequence@),
        r@.len() == lis_len(sequence@),
        r@ == recursive_witness(sequence@),
{
    let r = helper(sequence, None, 0);
    proof {
        lemma_inc_from_props(r@, sequence@, 0, neg_inf());
    }
    r
}

} // verus!

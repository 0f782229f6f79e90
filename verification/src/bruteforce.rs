use vstd::prelude::*;

use crate::optimum::chain_bound;
use crate::optimum::inc_from;
use crate::optimum::lemma_inc_from_le;
use crate::optimum::lemma_inc_from_props;
use crate::optimum::lemma_inc_from_push;
use crate::optimum::lemma_inc_from_widen;
use crate::optimum::lemma_lis_from_le;
use crate::optimum::lis_from;
use crate::optimum::lis_len;
use crate::optimum::nat_max;
use crate::optimum::neg_inf;
use crate::subseq::str_inc;
use crate::subseq::subseq_of;

verus! {

/// The exact incumbent the pruned depth-first exploration holds after
/// exploring from position `i` with partial subsequence `cur`: skip is
/// explored before take, and only a strictly longer completed subsequence
/// replaces the incumbent `best`, so the first maximal subsequence found in
/// skip-then-take order wins every tie.
pub open spec fn bt_search(s: Seq<i32>, i: int, cur: Seq<i32>, best: Seq<i32>) -> Seq<i32>
    decreases s.len() - i,
{
    if cur.len() + (s.len() - i) <= best.len() {
        best
    } else if i < 0 || i >= s.len() {
        if cur.len() > best.len() {
            cur
        } else {
            best
        }
    } else {
        let after_skip = bt_search(s, i + 1, cur, best);
        if s[i] as int > chain_bound(cur, neg_inf()) {
            bt_search(s, i + 1, cur.push(s[i]), after_skip)
        } else {
            after_skip
        }
    }
}

/// The exact value `lis_bruteforce` returns.
pub open spec fn bruteforce_witness(s: Seq<i32>) -> Seq<i32> {
    bt_search(s, 0, Seq::empty(), Seq::empty())
}

/// Depth-first exploration of the skip-or-take choices from `index` on,
/// extending `current` and replacing `best` by value whenever a strictly
/// longer complete subsequence is found. A branch that cannot beat `best`
/// even by taking every remaining element is abandoned at once.
fn backtrack(seq: &Vec<i32>, index: usize, current: &mut Vec<i32>, best: &mut Vec<i32>)
    requires
        index <= seq@.len(),
        inc_from(old(current)@, seq@.take(index as int), 0, neg_inf()),
        inc_from(old(best)@, seq@, 0, neg_inf()),
    ensures
        final(current)@ == old(current)@,
        inc_from(final(best)@, seq@, 0, neg_inf()),
        final(best)@.len() == nat_max(
            old(best)@.len(),
            old(current)@.len() + lis_from(
                seq@,
                index as int,
                chain_bound(old(current)@, neg_inf()),
            ),
        ),
        final(best)@ == bt_search(seq@, index as int, old(current)@, old(best)@),
    decreases seq@.len() - index,
{
    let ghost s = seq@;
    let ghost tb = chain_bound(current@, neg_inf());
    let n: usize = seq.len();

    proof {
        lemma_inc_from_le(current@, s.take(index as int), 0, neg_inf());
        lemma_lis_from_le(s.take(index as int), 0, neg_inf());
        lemma_lis_from_le(s, index as int, tb);
    }

    // pruning: if remaining elements cannot beat the best, stop exploring
    if current.len() + (n - index) <= best.len() {
        return;
    }

    // reached end: update best if needed
    if index >= n {
        if current.len() > best.len() {
            *best = current.clone();
            proof {
                assert forall|k: int| 0 <= k < current@.len() implies best@[k]
                    == current@[k] by {
                    assert(vstd::pervasive::cloned::<i32>(current@[k], best@[k]));
                }
                assert(best@ =~= current@);
                assert(s.take(n as int) =~= s);
            }
        }
        return;
    }

    // Option 1: skip element
    proof {
        lemma_inc_from_widen(current@, s, 0, index as int, index as int + 1, neg_inf());
    }
    backtrack(seq, index + 1, current, best);

    // Option 2: take element if it forms an increasing subsequence
    let can_take: bool = current.len() == 0 || seq[index] > current[current.len() - 1];
    proof {
        assert(can_take <==> s[index as int] as int > tb);
    }
    if can_take {
        let ghost cur0 = current@;
        proof {
            lemma_inc_from_push(cur0, s, 0, index as int, neg_inf());
        }
        current.push(seq[index]);
        proof {
            assert(current@.last() == s[index as int]);
            assert(chain_bound(current@, neg_inf()) == s[index as int] as int);
        }
        backtrack(seq, index + 1, current, best);
        current.pop();
        proof {
            assert(current@ =~= cur0);
        }
    }
}

/// Longest increasing subsequence by the pruned backtracking approach
/// (O(2^n) worst case). The returned witness is pinned exactly: it is
/// `bruteforce_witness`, the first maximal subsequence completed in
/// skip-then-take exploration order.
pub fn lis_bruteforce(sequence: &Vec<i32>) -> (r: Vec<i32>)
    ensures
        str_inc(r@),
        subseq_of(r@, sequence@),
        r@.len() == lis_len(sequence@),
        r@ == bruteforce_witness(sequence@),
{
    let ghost s = sequence@;
    let mut best: Vec<i32> = Vec::new();
    let mut current: Vec<i32> = Vec::new();
    proof {
        assert(inc_from(current@, s.take(0), 0, neg_inf()));
        assert(inc_from(best@, s, 0, neg_inf()));
    }
    backtrack(sequence, 0, &mut current, &mut best);
    proof {
        lemma_inc_from_props(best@, s, 0, neg_inf());
    }
    best
}

} // verus!

use vstd::prelude::*;

use crate::optimum::chain_vals;
use crate::optimum::ichain;
use crate::optimum::neg_inf;

verus! {

/// Each recorded predecessor lies strictly earlier in the sequence and holds
/// a strictly smaller value.
pub open spec fn wf_prev(prevs: Seq<Option<usize>>, s: Seq<i32>) -> bool {
    &&& prevs.len() == s.len()
    &&& forall|m: int|
        0 <= m < prevs.len() ==> match #[trigger] prevs[m] {
            Option::Some(j) => (j as int) < m && s[j as int] < s[m],
            Option::None => true,
        }
}

/// Positions collected by following predecessor entries back from `i`,
/// listed in increasing position order.
pub open spec fn pseq(prevs: Seq<Option<usize>>, i: int) -> Seq<int>
    decreases i,
{
    if 0 <= i < prevs.len() {
        match prevs[i] {
            Option::Some(j) => if (j as int) < i {
                pseq(prevs, j as int).push(i)
            } else {
                seq![i]
            },
            Option::None => seq![i],
        }
    } else {
        Seq::empty()
    }
}

/// The predecessor subsequence only reads entries at or below its start, so
/// it is unaffected by changes above.
pub proof fn lemma_pseq_frame(p1: Seq<Option<usize>>, p2: Seq<Option<usize>>, t: int)
    requires
        0 <= t < p1.len(),
        t < p2.len(),
        forall|m: int| 0 <= m <= t ==> p1[m] == p2[m],
    ensures
        pseq(p1, t) == pseq(p2, t),
    decreases t,
{
    assert(p1[t] == p2[t]);
    match p1[t] {
        Option::Some(j) => {
            if (j as int) < t {
                lemma_pseq_frame(p1, p2, j as int);
            }
        },
        Option::None => {},
    }
}

/// Under well-formed predecessors, the collected positions form a chain that
/// ends exactly at `i`.
pub proof fn lemma_pseq_chain(s: Seq<i32>, prevs: Seq<Option<usize>>, i: int)
    requires
        wf_prev(prevs, s),
        0 <= i < prevs.len(),
    ensures
        ichain(pseq(prevs, i), s, 0, neg_inf()),
        pseq(prevs, i).len() >= 1,
        pseq(prevs, i).last() == i,
    decreases i,
{
    let p = pseq(prevs, i);
    assert(s[i] as int > neg_inf());
    match prevs[i] {
        Option::Some(j) => {
            assert((j as int) < i && s[j as int] < s[i]);
            lemma_pseq_chain(s, prevs, j as int);
            let q = pseq(prevs, j as int);
            assert(p == q.push(i));
            assert(p.last() == i);
            assert(q.last() == j as int);
            assert(ichain(p, s, 0, neg_inf())) by {
                assert forall|k: int| 0 <= k < p.len() implies 0 <= #[trigger] p[k] < s.len()
                    && s[p[k]] as int > neg_inf() by {
                    if k < q.len() {
                        assert(p[k] == q[k]);
                    } else {
                        assert(p[k] == i);
                    }
                }
                assert forall|k: int, l: int| 0 <= k < l < p.len() implies #[trigger] p[k]
                    < #[trigger] p[l] && s[p[k]] < s[p[l]] by {
                    if l < q.len() {
                        assert(p[k] == q[k] && p[l] == q[l]);
                    } else {
                        assert(p[l] == i);
                        assert(p[k] == q[k]);
                        if k < q.len() - 1 {
                            assert(q[k] < q[q.len() - 1] && s[q[k]] < s[q[q.len() - 1]]);
                        }
                        assert(q[q.len() - 1] == j as int);
                    }
                }
            }
        },
        Option::None => {
            assert(p == seq![i]);
            assert(p[0] == i);
        },
    }
}

/// Returns the elements of `v` in reverse order.
fn reversed(v: &Vec<i32>) -> (r: Vec<i32>)
    ensures
        r@ == v@.reverse(),
{
    let mut r: Vec<i32> = Vec::new();
    let n: usize = v.len();
    let mut k: usize = 0;
    while k < n
        invariant
            n == v@.len(),
            k <= n,
            r@.len() == k,
            forall|m: int| 0 <= m < k ==> r@[m] == v@[n - 1 - m],
        decreases n - k,
    {
        r.push(v[n - 1 - k]);
        k += 1;
    }
    proof {
        assert(r@ =~= v@.reverse());
    }
    r
}

/// Follows predecessor entries back from `start` and returns the values of
/// the collected subsequence in increasing position order.
pub(crate) fn reconstruct(seq: &Vec<i32>, prevs: &Vec<Option<usize>>, start: usize) -> (r: Vec<i32>)
    requires
        wf_prev(prevs@, seq@),
        start < seq@.len(),
    ensures
        r@ == chain_vals(pseq(prevs@, start as int), seq@),
{
    let ghost s = seq@;
    let ghost target = pseq(prevs@, start as int);
    let mut acc: Vec<i32> = Vec::new();
    let mut cur: Option<usize> = Some(start);
    proof {
        assert(Seq::<i32>::empty().reverse() =~= Seq::<i32>::empty());
        assert(chain_vals(target, s) + Seq::<i32>::empty() =~= chain_vals(target, s));
    }
    while cur.is_some()
        invariant
            wf_prev(prevs@, s),
            seq@ == s,
            match cur {
                Option::Some(j) => (j as int) < s.len() && chain_vals(target, s) == chain_vals(
                    pseq(prevs@, j as int),
                    s,
                ) + acc@.reverse(),
                Option::None => chain_vals(target, s) == acc@.reverse(),
            },
        decreases (match cur {
            Option::Some(j) => j as int + 1,
            Option::None => 0int,
        }),
    {
        let j: usize = cur.unwrap();
        let ghost acc0 = acc@;
        acc.push(seq[j]);
        cur = prevs[j];
        proof {
            assert(acc@.reverse() =~= seq![s[j as int]] + acc0.reverse());
            let pj = pseq(prevs@, j as int);
            match prevs@[j as int] {
                Option::Some(j2) => {
                    assert((j2 as int) < j as int);
                    assert(pj == pseq(prevs@, j2 as int).push(j as int));
                    assert(chain_vals(pj, s) =~= chain_vals(pseq(prevs@, j2 as int), s).push(
                        s[j as int],
                    ));
                    assert(chain_vals(pseq(prevs@, j2 as int), s).push(s[j as int]) + acc0.reverse()
                        =~= chain_vals(pseq(prevs@, j2 as int), s) + (seq![s[j as int]]
                        + acc0.reverse()));
                },
                Option::None => {
                    assert(pj == seq![j as int]);
                    assert(chain_vals(pj, s) =~= seq![s[j as int]]);
                    assert(seq![s[j as int]] + acc0.reverse() =~= chain_vals(pj, s)
                        + acc0.reverse());
                },
            }
        }
    }
    let r = reversed(&acc);
    r
}

} // verus!

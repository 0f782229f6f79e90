use lis::lis_bruteforce;
use lis::lis_dp;
use lis::lis_nlogn;
use lis::lis_recursive;
use lis::lower_bound;

fn is_strictly_increasing(v: &[i32]) -> bool {
    v.windows(2).all(|w| w[0] < w[1])
}

fn is_subsequence(sub: &[i32], s: &[i32]) -> bool {
    let mut it = s.iter();
    sub.iter().all(|x| it.any(|y| y == x))
}

/// Independent exhaustive oracle: longest strictly increasing subsequence
/// length by trying every subset (inputs are kept at n <= 12).
fn oracle_lis_len(s: &[i32]) -> usize {
    let n = s.len();
    let mut best = 0usize;
    for mask in 0u32..(1u32 << n) {
        let picked: Vec<i32> = (0..n).filter(|&k| mask & (1 << k) != 0).map(|k| s[k]).collect();
        if is_strictly_increasing(&picked) && picked.len() > best {
            best = picked.len();
        }
    }
    best
}

fn all_four(s: &[i32]) -> [Vec<i32>; 4] {
    let v: Vec<i32> = s.to_vec();
    [lis_bruteforce(&v), lis_recursive(&v), lis_dp(&v), lis_nlogn(&v)]
}

#[test]
fn empty_input_gives_empty_subsequence() {
    for r in all_four(&[]) {
        assert_eq!(r.len(), 0);
    }
}

#[test]
fn strictly_increasing_input_returned_unchanged() {
    let input = [-7, -2, 0, 3, 5, 11];
    for r in all_four(&input) {
        assert_eq!(r, input.to_vec());
    }
}

#[test]
fn strictly_decreasing_input_gives_one_element() {
    let input = [9, 7, 4, 2];
    let [bt, rec, dp, nlogn] = all_four(&input);
    assert_eq!(bt.len(), 1);
    assert_eq!(rec.len(), 1);
    assert_eq!(dp.len(), 1);
    assert_eq!(nlogn.len(), 1);
    // tie-breaks are per-algorithm contracts: the backtracking, recursive and
    // patience variants keep the last element, the tabulation the first
    assert_eq!(bt, vec![2]);
    assert_eq!(rec, vec![2]);
    assert_eq!(dp, vec![9]);
    assert_eq!(nlogn, vec![2]);
}

#[test]
fn tie_breaks_diverge_between_algorithms() {
    let input = [5, 1, 6, 2];
    let [bt, rec, dp, nlogn] = all_four(&input);
    // [1,2] is the first maximal subsequence completed in skip-then-take
    // order, and ties keep the earlier-found best
    assert_eq!(bt, vec![1, 2]);
    // the skip branch wins the length tie against taking 5
    assert_eq!(rec, vec![1, 2]);
    // the lowest ending index with maximal length wins: [5,6] over [1,6]
    assert_eq!(dp, vec![5, 6]);
    // 2 overwrites the length-two tail last, so reconstruction ends at it
    assert_eq!(nlogn, vec![1, 2]);
}

#[test]
fn example_sequence_has_length_four() {
    let input = [3, 1, 4, 1, 5, 9, 2, 6];
    for r in all_four(&input) {
        assert_eq!(r.len(), 4);
        assert!(is_strictly_increasing(&r));
        assert!(is_subsequence(&r, &input));
    }
    let [bt, rec, dp, nlogn] = all_four(&input);
    assert_eq!(bt, vec![1, 4, 5, 6]);
    assert_eq!(rec, vec![1, 4, 5, 6]);
    assert_eq!(dp, vec![3, 4, 5, 9]);
    assert_eq!(nlogn, vec![1, 4, 5, 6]);
}

#[test]
fn equal_values_count_as_non_increasing() {
    let input = [2, 2, 2, 2];
    for r in all_four(&input) {
        assert_eq!(r.len(), 1);
        assert_eq!(r, vec![2]);
    }
}

#[test]
fn single_element_is_returned() {
    let input = [42];
    for r in all_four(&input) {
        assert_eq!(r, vec![42]);
    }
}

#[test]
fn extreme_values_are_handled() {
    let input = [i32::MIN, i32::MAX, i32::MIN, i32::MAX];
    for r in all_four(&input) {
        assert_eq!(r.len(), 2);
        assert_eq!(r, vec![i32::MIN, i32::MAX]);
    }
}

#[test]
fn cross_check_small_random_sequences_against_oracle() {
    // simple linear congruential generator, fixed seed for reproducibility
    let mut state = 0x2545f4914f6cdd1du64;
    let mut next = move || {
        state = state.wrapping_mul(6364136223846793005).wrapping_add(1442695040888963407);
        (state >> 33) as u32
    };
    for _case in 0..60 {
        let n = (next() % 13) as usize;  // n <= 12
        let s: Vec<i32> = (0..n).map(|_| (next() % 21) as i32 - 10).collect();
        let want = oracle_lis_len(&s);
        for r in all_four(&s) {
            assert_eq!(r.len(), want, "oracle disagreement on {:?}", s);
            assert!(is_strictly_increasing(&r));
            assert!(is_subsequence(&r, &s));
        }
    }
}

#[test]
fn lower_bound_boundaries() {
    let tails: Vec<i32> = vec![2, 5, 9];
    // empty list
    assert_eq!(lower_bound(&Vec::new(), 7), 0);
    // target smaller than every element
    assert_eq!(lower_bound(&tails, 1), 0);
    // target larger than every element
    assert_eq!(lower_bound(&tails, 10), 3);
    // exact hits return their own index
    assert_eq!(lower_bound(&tails, 2), 0);
    assert_eq!(lower_bound(&tails, 5), 1);
    assert_eq!(lower_bound(&tails, 9), 2);
    // in-between targets land on the first element at least as large
    assert_eq!(lower_bound(&tails, 3), 1);
    assert_eq!(lower_bound(&tails, 6), 2);
}

#[test]
fn lower_bound_index_brackets_target() {
    let tails: Vec<i32> = vec![-4, 0, 3, 8, 15];
    for target in -6..18 {
        let i = lower_bound(&tails, target);
        if i > 0 {
            assert!(tails[i - 1] < target);
        }
        if i < tails.len() {
            assert!(target <= tails[i]);
        }
    }
}

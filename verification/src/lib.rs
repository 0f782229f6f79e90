//! Four verified algorithms for the longest increasing subsequence (LIS) of a
//! sequence of signed integers: exhaustive backtracking with pruning, naive
//! recursion, quadratic dynamic programming, and log-linear patience sorting.
//! Each returns one witness subsequence, proved strictly increasing, proved a
//! subsequence of the input, and proved of the optimal length.

mod backptr;
mod bruteforce;
mod dp;
mod ending;
mod laws;
mod nlogn;
mod optimum;
mod recursive;
mod source;
mod subseq;

pub use backptr::pseq;
pub use bruteforce::bruteforce_witness;
pub use bruteforce::bt_search;
pub use bruteforce::lis_bruteforce;
pub use dp::best_end_upto;
pub use dp::dp_chain;
pub use dp::dp_scan;
pub use dp::dp_witness;
pub use dp::lis_dp;
pub use ending::lis_end;
pub use ending::lis_end_upto;
pub use laws::lemma_decreasing_bruteforce_witness;
pub use laws::lemma_decreasing_dp_witness;
pub use laws::lemma_decreasing_nlogn_witness;
pub use laws::lemma_decreasing_recursive_witness;
pub use laws::lemma_increasing_input_full;
pub use laws::lemma_lengths_agree;
pub use laws::lemma_lis_len_decreasing;
pub use laws::lemma_lis_len_empty;
pub use laws::lemma_lis_len_increasing;
pub use nlogn::lb_spec;
pub use nlogn::lis_nlogn;
pub use nlogn::lower_bound;
pub use nlogn::nlogn_witness;
pub use nlogn::pat_state;
pub use optimum::chain_bound;
pub use optimum::chain_vals;
pub use optimum::inc_from;
pub use optimum::lis_from;
pub use optimum::lis_len;
pub use optimum::neg_inf;
pub use recursive::lis_recursive;
pub use recursive::rec_wit;
pub use recursive::recursive_witness;
pub use source::json_int_seq;
pub use source::parse_sequence;
pub use source::ParseError;
pub use subseq::str_dec;
pub use subseq::str_inc;
pub use subseq::subseq_at;
pub use subseq::subseq_of;

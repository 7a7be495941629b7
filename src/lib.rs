//! A branch-minimised binary search over sorted slices that reports the
//! leftmost match, or the insertion point when there is none.
mod pow2;
mod search;

pub use pow2::{bit_floor, is_pow2};
pub use search::{
    cmp_verdicts, is_search_result, key_verdicts, monotone, only_verdict, rank, verdicts,
    SharBinarySearch,
};

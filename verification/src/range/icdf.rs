//! Tables of cumulative frequencies: checking one, and finding the symbol
//! that a threshold selects.

use crate::range::model::{icdf_search, icdf_symbol, icdf_well_formed, MAX_TOTAL};
use vstd::prelude::*;

verus! {

/// Tells whether a table has the shape that decoding relies on.
pub fn is_well_formed(cdf: &[u32]) -> (ok: bool)
    ensures
        ok == icdf_well_formed(cdf@),
{
    let n = cdf.len();
    if n < 2 {
        return false;
    }
    let ft = cdf[0];
    if ft < 1 || ft > MAX_TOTAL || cdf[n - 1] != ft {
        return false;
    }
    let mut i: usize = 2;
    while i < n
        invariant
            2 <= i <= n,
            n == cdf.len(),
            forall|a: int, b: int| 1 <= a <= b < i ==> cdf[a] <= cdf[b],
        decreases n - i,
    {
        if cdf[i - 1] > cdf[i] {
            return false;
        }
        i = i + 1;
    }
    true
}

/// Finds the symbol that `threshold` selects: the first whose upper bound
/// `cdf[k + 1]` is above it, or the last symbol where none is.
pub fn find_symbol(cdf: &[u32], threshold: u32) -> (k: usize)
    requires
        cdf.len() >= 2,
    ensures
        k == icdf_symbol(cdf@, threshold as int),
        k + 2 <= cdf.len(),
{
    let n = cdf.len();
    let mut k: usize = 0;
    while k + 2 < n && cdf[k + 1] <= threshold
        invariant
            k + 2 <= n,
            n == cdf.len(),
            icdf_search(cdf@, threshold as int, k as int) == icdf_symbol(cdf@, threshold as int),
        decreases n - k,
    {
        k = k + 1;
    }
    k
}

} // verus!

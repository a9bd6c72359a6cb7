//! The random input generator: sequences of unsigned integers drawn
//! uniformly from the word-width value range.

use vstd::prelude::*;

verus! {

use crate::counting::{all_below, bound_for_width, width_bound};
use crate::errors::SortError;

/// Relies on rand's `thread_rng`, `Uniform::new` and `Rng::sample`: a draw
/// from `Uniform::new(0, k)` is a value in `[0, k)`; `Uniform::new` panics
/// on an empty range, which `k >= 1` rules out.
#[verifier::external_body]
fn sample_below(k: u32) -> (r: u32)
    requires
        k >= 1,
    ensures
        r < k,
{
    let mut rng = rand::thread_rng();
    let range = rand::distributions::Uniform::new(0u32, k);
    rand::Rng::sample(&mut rng, range)
}

/// A sequence of `n` values, each drawn uniformly and independently from
/// `[0, k)`.
pub fn random_values(n: u32, k: u32) -> (r: Vec<u32>)
    requires
        k >= 1,
    ensures
        r@.len() == n,
        all_below(r@, k as int),
{
    let mut out: Vec<u32> = Vec::new();
    let mut i: u32 = 0;
    while i < n
        invariant
            k >= 1,
            i <= n,
            out@.len() == i,
            all_below(out@, k as int),
        decreases n - i,
    {
        out.push(sample_below(k));
        i = i + 1;
    }
    out
}

/// A sequence of `n` values drawn uniformly from `[0, 2 * 2^w)`, or
/// `InvalidArgument` where that range does not fit the 32-bit value type.
pub fn random_input(n: u32, w: u8) -> (r: Result<Vec<u32>, SortError>)
    ensures
        r matches Ok(vs) ==> vs@.len() == n && all_below(vs@, width_bound(w)),
        r is Ok <==> width_bound(w) <= u32::MAX,
        r is Err ==> r == Err::<Vec<u32>, SortError>(SortError::InvalidArgument),
{
    let k64 = match bound_for_width(w) {
        Ok(k) => k,
        Err(e) => {
            return Err(e);
        },
    };
    if k64 > u32::MAX as u64 {
        return Err(SortError::InvalidArgument);
    }
    proof {
        vstd::arithmetic::power2::lemma_pow2_pos(w as nat);
    }
    Ok(random_values(n, k64 as u32))
}

} // verus!

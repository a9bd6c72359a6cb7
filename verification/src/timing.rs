//! The timing harness: wall-clock measurement of generate-then-sort
//! cycles, and the arithmetic mean over repeated trials.

use vstd::prelude::*;

verus! {

use crate::counting::{bound_for_width, counting_sort, width_bound};
use crate::errors::SortError;
use crate::generator::random_values;

#[verifier::external_type_specification]
#[verifier::external_body]
pub struct ExSystemTime(std::time::SystemTime);

/// Relies on `std::time::SystemTime::now` for a wall-clock reading.
/// Nothing is promised of the reading itself.
#[verifier::external_body]
fn clock_now() -> std::time::SystemTime {
    std::time::SystemTime::now()
}

/// Relies on `SystemTime::elapsed` and `Duration::as_nanos`: the
/// nanoseconds since the earlier reading, or `None` where the clock could
/// not relate the two readings.  Nothing is promised of the value.
#[verifier::external_body]
fn elapsed_nanos(start: &std::time::SystemTime) -> Option<u128> {
    match start.elapsed() {
        Ok(d) => Some(d.as_nanos()),
        Err(_) => None,
    }
}

/// Sum of a sequence of per-trial nanosecond samples.
pub open spec fn samples_sum(s: Seq<u128>) -> int
    decreases s.len(),
{
    if s.len() == 0 {
        0
    } else {
        samples_sum(s.drop_last()) + s.last()
    }
}

proof fn lemma_samples_sum_push(s: Seq<u128>, x: u128)
    ensures
        samples_sum(s.push(x)) == samples_sum(s) + x,
{
    assert(s.push(x).drop_last() =~= s);
}

/// A prefix of non-negative samples never sums to more than the whole.
proof fn lemma_samples_sum_take_le(s: Seq<u128>, i: int)
    requires
        0 <= i <= s.len(),
    ensures
        samples_sum(s.take(i)) <= samples_sum(s),
    decreases s.len(),
{
    if i < s.len() {
        assert(s.take(i) =~= s.drop_last().take(i));
        lemma_samples_sum_take_le(s.drop_last(), i);
    } else {
        assert(s.take(i) =~= s);
    }
}

/// One trial: generate `n` random values of word width `w`, then sort them
/// while the wall clock runs, and report the elapsed nanoseconds.
/// `InvalidArgument` where the value range does not fit the 32-bit value
/// type, `ClockUnavailable` where the clock gives no reading.
pub fn countsort_timing(n: u32, w: u8) -> (r: Result<u128, SortError>)
    ensures
        r == Err::<u128, SortError>(SortError::InvalidArgument) <==> width_bound(w) > u32::MAX,
        r is Err ==> r == Err::<u128, SortError>(SortError::InvalidArgument) || r == Err::<
            u128,
            SortError,
        >(SortError::ClockUnavailable),
{
    let k64 = match bound_for_width(w) {
        Ok(k) => k,
        Err(_) => {
            return Err(SortError::InvalidArgument);
        },
    };
    if k64 > u32::MAX as u64 {
        return Err(SortError::InvalidArgument);
    }
    proof {
        vstd::arithmetic::power2::lemma_pow2_pos(w as nat);
    }
    let vals = random_values(n, k64 as u32);
    let start = clock_now();
    let _sorted = match counting_sort(&vals, k64 as usize) {
        Ok(s) => s,
        Err(e) => {
            return Err(e);
        },
    };
    match elapsed_nanos(&start) {
        Some(ns) => Ok(ns),
        None => Err(SortError::ClockUnavailable),
    }
}

/// The arithmetic mean of the samples, rounded toward zero.
/// `InvalidArgument` where there are no samples or their sum does not fit
/// in 128 bits.
pub fn mean_nanos(samples: &Vec<u128>) -> (r: Result<u128, SortError>)
    ensures
        r is Ok <==> samples@.len() > 0 && samples_sum(samples@) <= u128::MAX,
        r matches Ok(m) ==> m == samples_sum(samples@) / (samples@.len() as int),
        r is Err ==> r == Err::<u128, SortError>(SortError::InvalidArgument),
{
    if samples.len() == 0 {
        return Err(SortError::InvalidArgument);
    }
    let mut total: u128 = 0;
    let mut i: usize = 0;
    while i < samples.len()
        invariant
            i <= samples@.len(),
            total == samples_sum(samples@.take(i as int)),
        decreases samples@.len() - i,
    {
        let x = samples[i];
        proof {
            assert(samples@.take(i as int + 1) =~= samples@.take(i as int).push(
                samples@[i as int],
            ));
            lemma_samples_sum_push(samples@.take(i as int), samples@[i as int]);
        }
        if x > u128::MAX - total {
            proof {
                lemma_samples_sum_take_le(samples@, i as int + 1);
            }
            return Err(SortError::InvalidArgument);
        }
        total = total + x;
        i = i + 1;
    }
    proof {
        assert(samples@.take(samples@.len() as int) =~= samples@);
    }
    Ok(total / (samples.len() as u128))
}

/// Runs `t` independent generate-then-sort trials and reports the mean of
/// the elapsed nanoseconds.  A zero trial count is `InvalidArgument`
/// rather than a division by zero; trial errors are passed through.
pub fn countsort_trials(n: u32, w: u8, t: u128) -> (r: Result<u128, SortError>)
    ensures
        t == 0 ==> r == Err::<u128, SortError>(SortError::InvalidArgument),
        t > 0 && width_bound(w) > u32::MAX ==> r == Err::<u128, SortError>(
            SortError::InvalidArgument,
        ),
        r is Ok ==> 0 < t <= usize::MAX && width_bound(w) <= u32::MAX,
        r is Err ==> r == Err::<u128, SortError>(SortError::InvalidArgument) || r == Err::<
            u128,
            SortError,
        >(SortError::ClockUnavailable),
{
    if t == 0 {
        return Err(SortError::InvalidArgument);
    }
    if t > usize::MAX as u128 {
        return Err(SortError::InvalidArgument);
    }
    let tn = t as usize;
    let mut samples: Vec<u128> = Vec::new();
    let mut i: usize = 0;
    while i < tn
        invariant
            i <= tn,
            tn == t,
            samples@.len() == i,
            i > 0 ==> width_bound(w) <= u32::MAX,
        decreases tn - i,
    {
        let sample = match countsort_timing(n, w) {
            Ok(s) => s,
            Err(e) => {
                return Err(e);
            },
        };
        samples.push(sample);
        i = i + 1;
    }
    mean_nanos(&samples)
}

} // verus!

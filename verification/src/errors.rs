use vstd::prelude::*;

verus! {

/// Why a sort, an input generation, or a timing run could not be carried out.
///
/// All three conditions are unrecoverable where they occur; they are
/// surfaced to the caller instead of aborting the process.
#[derive(Clone, Copy, Debug, PartialEq, Eq, Structural)]
pub enum SortError {
    /// A zero trial count, or a word width whose bound does not fit the machine.
    InvalidArgument,
    /// A value at or above the bound of the frequency table.
    OutOfRangeValue,
    /// The wall clock could not produce a reading.
    ClockUnavailable,
}

} // verus!

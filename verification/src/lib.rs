//! Counting sort over bounded unsigned integers, together with the
//! surrounding microbenchmark pieces: a random-input generator and a
//! wall-clock timing harness averaged over trials.

pub mod counting;
pub mod errors;
pub mod generator;
pub mod timing;

pub use counting::bound_for_width;
pub use counting::count_and_sort;
pub use counting::counting_sort;
pub use counting::frequency_table;
pub use counting::real_wordsize;
pub use errors::SortError;
pub use generator::random_input;
pub use generator::random_values;
pub use timing::countsort_timing;
pub use timing::countsort_trials;
pub use timing::mean_nanos;

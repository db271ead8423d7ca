//! A frequency-counting container: `Counter<T>` maps distinct elements to the
//! number of times each occurs, and supports multiset arithmetic (sum,
//! clamped difference, intersection by minimum, union by maximum) together
//! with a most-common ordering view.

pub mod counter;
pub mod laws;

pub use counter::Counter;

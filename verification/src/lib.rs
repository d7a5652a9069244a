//! Jenks natural breaks: partition a sorted sequence of observations into a
//! requested number of contiguous classes so that the total within-class sum
//! of squared deviations from each class mean is minimal.
//!
//! Observations are integer-valued and bounded in count and magnitude, so
//! every class cost can be carried as an exact scaled integer (the sum of
//! squared deviations multiplied by `n!`, a positive constant for a given
//! input) and the optimal partition is found by exact comparisons, free of
//! rounding.

pub mod grid;
pub mod jenks;
pub mod laws;
pub mod model;

pub use jenks::compute_natural_breaks;
pub use jenks::ssd_numerator;
pub use jenks::JenksError;

//! Modified Band Depth (MBD) for functional data.
//!
//! Given a reference ensemble of N curves sampled at T common timepoints,
//! the library builds a per-timepoint sorted index of the ensemble and, for
//! any query curve of length T, counts at every timepoint how many unordered
//! pairs of reference curves enclose (or tie with) the query value there.
//! The depth score is that count as an exact fraction of the maximum
//! possible count, `T * C(N, 2)`.
//!
//! Curve values are order keys: `i64` values whose ordering and equality
//! stand for the ordering and equality of the measured samples. Any host
//! layer that measures in another scale converts to keys with a monotone,
//! equality-preserving map before calling in.

pub mod combinatorics;
pub mod rank;
pub mod depth;
pub mod sorting;

pub use combinatorics::binomial_choose_2;
pub use depth::DepthError;
pub use depth::DepthScore;
pub use depth::ModifiedBandDepth;
pub use rank::extents;
pub use rank::partition;
pub use rank::partition_scan;

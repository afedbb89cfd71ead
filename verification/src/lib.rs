//! An ordered map whose keys are ranges over `i64`, kept pairwise
//! non-overlapping.
//!
//! The map supports overlap queries, range-scoped removal, cutting a
//! sub-extent out of the stored coverage, splitting the map in two, and
//! coalescing inserts.  Every operation re-establishes the non-overlap
//! invariant or leaves the map unchanged.

pub mod bound_ord;
pub mod helpers;
pub mod laws;
pub mod range_bounds_map;
pub mod try_from_bounds;

pub use bound_ord::Bound;
pub use range_bounds_map::NiceRange;
pub use range_bounds_map::OverlapError;
pub use range_bounds_map::OverlapOrTryFromBoundsError;
pub use range_bounds_map::RangeBoundsMap;
pub use range_bounds_map::TryFromBoundsError;
pub use try_from_bounds::FromStart;
pub use try_from_bounds::Full;
pub use try_from_bounds::HalfOpen;
pub use try_from_bounds::Inclusive;
pub use try_from_bounds::Interval;
pub use try_from_bounds::TryFromBounds;
pub use try_from_bounds::UpTo;
pub use try_from_bounds::UpToInclusive;

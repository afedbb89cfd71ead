//! The range-reconstruction capability, and the concrete range types
//! the crate ships.
//!
//! A raw `(Bound, Bound)` pair produced by cutting or coalescing may or
//! may not be representable by a given concrete range type; building one
//! is therefore fallible.

use vstd::prelude::*;

use crate::bound_ord::Bound;
use crate::range_bounds_map::NiceRange;

verus! {

/// Fallible construction of a range from a raw bound pair.
///
/// `try_from_bounds` succeeds exactly on the pairs the type can
/// represent, and the built range reads back the very bounds it was
/// built from.
pub trait TryFromBounds: NiceRange {
    /// Whether this type can represent the raw bound pair.
    spec fn representable(start_bound: Bound, end_bound: Bound) -> bool;

    /// Attempts to build a range of this type from a raw bound pair.
    fn try_from_bounds(start_bound: Bound, end_bound: Bound) -> (r: Option<Self>)
        ensures
            r.is_some() <==> Self::representable(start_bound, end_bound),
            r matches Some(k) ==> k.spec_start() == start_bound && k.spec_end() == end_bound,
    ;
}

/// A half-open range `[start, end)`.
#[derive(Clone, Copy, Debug, PartialEq, Eq, Structural)]
pub struct HalfOpen {
    pub start: i64,
    pub end: i64,
}

impl NiceRange for HalfOpen {
    open spec fn spec_start(&self) -> Bound {
        Bound::Included(self.start)
    }

    open spec fn spec_end(&self) -> Bound {
        Bound::Excluded(self.end)
    }

    fn start(&self) -> (b: Bound) {
        Bound::Included(self.start)
    }

    fn end(&self) -> (b: Bound) {
        Bound::Excluded(self.end)
    }
}

impl TryFromBounds for HalfOpen {
    open spec fn representable(start_bound: Bound, end_bound: Bound) -> bool {
        start_bound is Included && end_bound is Excluded
    }

    fn try_from_bounds(start_bound: Bound, end_bound: Bound) -> (r: Option<Self>) {
        match (start_bound, end_bound) {
            (Bound::Included(start), Bound::Excluded(end)) => Some(HalfOpen { start, end }),
            _ => None,
        }
    }
}

/// An inclusive range `[start, end]`.
#[derive(Clone, Copy, Debug, PartialEq, Eq, Structural)]
pub struct Inclusive {
    pub start: i64,
    pub end: i64,
}

impl NiceRange for Inclusive {
    open spec fn spec_start(&self) -> Bound {
        Bound::Included(self.start)
    }

    open spec fn spec_end(&self) -> Bound {
        Bound::Included(self.end)
    }

    fn start(&self) -> (b: Bound) {
        Bound::Included(self.start)
    }

    fn end(&self) -> (b: Bound) {
        Bound::Included(self.end)
    }
}

impl TryFromBounds for Inclusive {
    open spec fn representable(start_bound: Bound, end_bound: Bound) -> bool {
        start_bound is Included && end_bound is Included
    }

    fn try_from_bounds(start_bound: Bound, end_bound: Bound) -> (r: Option<Self>) {
        match (start_bound, end_bound) {
            (Bound::Included(start), Bound::Included(end)) => Some(Inclusive { start, end }),
            _ => None,
        }
    }
}

/// A range `[start, ..)` unbounded on the right.
#[derive(Clone, Copy, Debug, PartialEq, Eq, Structural)]
pub struct FromStart {
    pub start: i64,
}

impl NiceRange for FromStart {
    open spec fn spec_start(&self) -> Bound {
        Bound::Included(self.start)
    }

    open spec fn spec_end(&self) -> Bound {
        Bound::Unbounded
    }

    fn start(&self) -> (b: Bound) {
        Bound::Included(self.start)
    }

    fn end(&self) -> (b: Bound) {
        Bound::Unbounded
    }
}

impl TryFromBounds for FromStart {
    open spec fn representable(start_bound: Bound, end_bound: Bound) -> bool {
        start_bound is Included && end_bound is Unbounded
    }

    fn try_from_bounds(start_bound: Bound, end_bound: Bound) -> (r: Option<Self>) {
        match (start_bound, end_bound) {
            (Bound::Included(start), Bound::Unbounded) => Some(FromStart { start }),
            _ => None,
        }
    }
}

/// A range `(.., end)` unbounded on the left, excluding `end`.
#[derive(Clone, Copy, Debug, PartialEq, Eq, Structural)]
pub struct UpTo {
    pub end: i64,
}

impl NiceRange for UpTo {
    open spec fn spec_start(&self) -> Bound {
        Bound::Unbounded
    }

    open spec fn spec_end(&self) -> Bound {
        Bound::Excluded(self.end)
    }

    fn start(&self) -> (b: Bound) {
        Bound::Unbounded
    }

    fn end(&self) -> (b: Bound) {
        Bound::Excluded(self.end)
    }
}

impl TryFromBounds for UpTo {
    open spec fn representable(start_bound: Bound, end_bound: Bound) -> bool {
        start_bound is Unbounded && end_bound is Excluded
    }

    fn try_from_bounds(start_bound: Bound, end_bound: Bound) -> (r: Option<Self>) {
        match (start_bound, end_bound) {
            (Bound::Unbounded, Bound::Excluded(end)) => Some(UpTo { end }),
            _ => None,
        }
    }
}

/// A range `(.., end]` unbounded on the left, including `end`.
#[derive(Clone, Copy, Debug, PartialEq, Eq, Structural)]
pub struct UpToInclusive {
    pub end: i64,
}

impl NiceRange for UpToInclusive {
    open spec fn spec_start(&self) -> Bound {
        Bound::Unbounded
    }

    open spec fn spec_end(&self) -> Bound {
        Bound::Included(self.end)
    }

    fn start(&self) -> (b: Bound) {
        Bound::Unbounded
    }

    fn end(&self) -> (b: Bound) {
        Bound::Included(self.end)
    }
}

impl TryFromBounds for UpToInclusive {
    open spec fn representable(start_bound: Bound, end_bound: Bound) -> bool {
        start_bound is Unbounded && end_bound is Included
    }

    fn try_from_bounds(start_bound: Bound, end_bound: Bound) -> (r: Option<Self>) {
        match (start_bound, end_bound) {
            (Bound::Unbounded, Bound::Included(end)) => Some(UpToInclusive { end }),
            _ => None,
        }
    }
}

/// The range covering everything.
#[derive(Clone, Copy, Debug, PartialEq, Eq, Structural)]
pub struct Full;

impl NiceRange for Full {
    open spec fn spec_start(&self) -> Bound {
        Bound::Unbounded
    }

    open spec fn spec_end(&self) -> Bound {
        Bound::Unbounded
    }

    fn start(&self) -> (b: Bound) {
        Bound::Unbounded
    }

    fn end(&self) -> (b: Bound) {
        Bound::Unbounded
    }
}

impl TryFromBounds for Full {
    open spec fn representable(start_bound: Bound, end_bound: Bound) -> bool {
        start_bound is Unbounded && end_bound is Unbounded
    }

    fn try_from_bounds(start_bound: Bound, end_bound: Bound) -> (r: Option<Self>) {
        match (start_bound, end_bound) {
            (Bound::Unbounded, Bound::Unbounded) => Some(Full),
            _ => None,
        }
    }
}

/// A raw bound pair used directly as a range; it can represent any
/// combination of bounds.
#[derive(Clone, Copy, Debug, PartialEq, Eq, Structural)]
pub struct Interval {
    pub start: Bound,
    pub end: Bound,
}

impl NiceRange for Interval {
    open spec fn spec_start(&self) -> Bound {
        self.start
    }

    open spec fn spec_end(&self) -> Bound {
        self.end
    }

    fn start(&self) -> (b: Bound) {
        self.start
    }

    fn end(&self) -> (b: Bound) {
        self.end
    }
}

impl TryFromBounds for Interval {
    open spec fn representable(start_bound: Bound, end_bound: Bound) -> bool {
        true
    }

    fn try_from_bounds(start_bound: Bound, end_bound: Bound) -> (r: Option<Self>) {
        Some(Interval { start: start_bound, end: end_bound })
    }
}

} // verus!

//! The bound ordering algebra: a total order over interval endpoints that
//! depends on whether the endpoint is used as a range's start or as its end.
//!
//! For one value `v`, as a start: `Unbounded < Included(v) < Excluded(v)`;
//! as an end: `Excluded(v) < Included(v) < Unbounded`.  For differing
//! values the order on the values dominates.  Each bound is mapped to an
//! integer rank (its "key"), spaced four apart per value, so that all the
//! mixed start/end comparisons the algorithms need become plain integer
//! comparisons, and "touching" endpoints sit on adjacent keys.

use vstd::prelude::*;

verus! {

/// One edge of a range: unbounded, or a value that the range includes
/// or excludes.
#[derive(Clone, Copy, Debug, PartialEq, Eq, Structural)]
pub enum Bound {
    Unbounded,
    Included(i64),
    Excluded(i64),
}

/// Rank of a bound in the role of a range's start.
///
/// `Included(v)` ranks just below `Excluded(v)`: a range excluding `v`
/// as its start begins strictly after one including it.  An unbounded
/// start ranks below every bounded one.
pub open spec fn start_key(b: Bound) -> int {
    match b {
        Bound::Unbounded => -0x20000000000000002,
        Bound::Included(v) => 4 * (v as int),
        Bound::Excluded(v) => 4 * (v as int) + 1,
    }
}

/// Rank of a bound in the role of a range's end.
///
/// `Excluded(v)` ranks just below `Included(v)`, symmetrically to
/// `start_key`.  An unbounded end ranks above every bounded one.
pub open spec fn end_key(b: Bound) -> int {
    match b {
        Bound::Unbounded => 0x20000000000000002,
        Bound::Included(v) => 4 * (v as int),
        Bound::Excluded(v) => 4 * (v as int) - 1,
    }
}

/// The start rank of a bound, computed exactly in `i128` arithmetic.
pub fn start_rank(b: Bound) -> (k: i128)
    ensures
        k as int == start_key(b),
{
    match b {
        Bound::Unbounded => -0x20000000000000002i128,
        Bound::Included(v) => 4 * (v as i128),
        Bound::Excluded(v) => 4 * (v as i128) + 1,
    }
}

/// The end rank of a bound, computed exactly in `i128` arithmetic.
pub fn end_rank(b: Bound) -> (k: i128)
    ensures
        k as int == end_key(b),
{
    match b {
        Bound::Unbounded => 0x20000000000000002i128,
        Bound::Included(v) => 4 * (v as i128),
        Bound::Excluded(v) => 4 * (v as i128) - 1,
    }
}

/// The end bound of the region lying strictly left of the position where
/// a range with start bound `b` begins: `Included` and `Excluded` swap.
pub open spec fn flipped_start(b: Bound) -> Bound {
    match b {
        Bound::Unbounded => Bound::Unbounded,
        Bound::Included(v) => Bound::Excluded(v),
        Bound::Excluded(v) => Bound::Included(v),
    }
}

/// The start bound of the region lying strictly right of the position
/// where a range with end bound `b` stops.
pub open spec fn flipped_end(b: Bound) -> Bound {
    match b {
        Bound::Unbounded => Bound::Unbounded,
        Bound::Included(v) => Bound::Excluded(v),
        Bound::Excluded(v) => Bound::Included(v),
    }
}

/// A bounded start bound flips to the end bound ranked immediately
/// below it: the two regions touch without overlapping.
pub proof fn lemma_flipped_start_key(b: Bound)
    requires
        b != Bound::Unbounded,
    ensures
        end_key(flipped_start(b)) == start_key(b) - 1,
{
}

/// A bounded end bound flips to the start bound ranked immediately
/// above it.
pub proof fn lemma_flipped_end_key(b: Bound)
    requires
        b != Bound::Unbounded,
    ensures
        start_key(flipped_end(b)) == end_key(b) + 1,
{
}

/// Every key lies strictly inside the `i128` range, so neighbouring
/// keys can be computed without overflow.
pub proof fn lemma_key_bounds(b: Bound)
    ensures
        -0x20000000000000002 <= start_key(b) <= 0x20000000000000001,
        -0x20000000000000001 <= end_key(b) <= 0x20000000000000002,
{
}

/// No start bound ranks below an unbounded start.
pub proof fn lemma_unbounded_start_min(b: Bound)
    ensures
        start_key(Bound::Unbounded) <= start_key(b),
{
}

/// No end bound ranks above an unbounded end.
pub proof fn lemma_unbounded_end_max(b: Bound)
    ensures
        end_key(b) <= end_key(Bound::Unbounded),
{
}

/// Executable form of `flipped_start`.
pub fn flip_start(b: Bound) -> (r: Bound)
    ensures
        r == flipped_start(b),
{
    match b {
        Bound::Unbounded => Bound::Unbounded,
        Bound::Included(v) => Bound::Excluded(v),
        Bound::Excluded(v) => Bound::Included(v),
    }
}

/// Executable form of `flipped_end`.
pub fn flip_end(b: Bound) -> (r: Bound)
    ensures
        r == flipped_end(b),
{
    match b {
        Bound::Unbounded => Bound::Unbounded,
        Bound::Included(v) => Bound::Excluded(v),
        Bound::Excluded(v) => Bound::Included(v),
    }
}

/// Of two start bounds, the one ranked lower (ties pick the first;
/// distinct bounds never rank equally).
pub open spec fn min_start(a: Bound, b: Bound) -> Bound {
    if start_key(a) <= start_key(b) {
        a
    } else {
        b
    }
}

/// Of two start bounds, the one ranked higher.
pub open spec fn max_start(a: Bound, b: Bound) -> Bound {
    if start_key(a) >= start_key(b) {
        a
    } else {
        b
    }
}

/// Of two end bounds, the one ranked lower.
pub open spec fn min_end(a: Bound, b: Bound) -> Bound {
    if end_key(a) <= end_key(b) {
        a
    } else {
        b
    }
}

/// Of two end bounds, the one ranked higher.
pub open spec fn max_end(a: Bound, b: Bound) -> Bound {
    if end_key(a) >= end_key(b) {
        a
    } else {
        b
    }
}

/// Executable form of `min_start`.
pub fn pick_min_start(a: Bound, b: Bound) -> (r: Bound)
    ensures
        r == min_start(a, b),
{
    if start_rank(a) <= start_rank(b) {
        a
    } else {
        b
    }
}

/// Executable form of `max_start`.
pub fn pick_max_start(a: Bound, b: Bound) -> (r: Bound)
    ensures
        r == max_start(a, b),
{
    if start_rank(a) >= start_rank(b) {
        a
    } else {
        b
    }
}

/// Executable form of `min_end`.
pub fn pick_min_end(a: Bound, b: Bound) -> (r: Bound)
    ensures
        r == min_end(a, b),
{
    if end_rank(a) <= end_rank(b) {
        a
    } else {
        b
    }
}

/// Executable form of `max_end`.
pub fn pick_max_end(a: Bound, b: Bound) -> (r: Bound)
    ensures
        r == max_end(a, b),
{
    if end_rank(a) >= end_rank(b) {
        a
    } else {
        b
    }
}

} // verus!

//! Pure primitives over ranges: validity, overlap and touch tests, and
//! the decomposition of one range against another into before / inside /
//! after bound pairs.

use vstd::prelude::*;

use crate::bound_ord::{
    end_key, end_rank, flip_end, flip_start, flipped_end, flipped_start, max_start, min_end,
    pick_max_start, pick_min_end, start_key, start_rank, Bound,
};
use crate::range_bounds_map::NiceRange;

verus! {

/// The start rank of a range.
pub open spec fn r_start<K: NiceRange>(k: K) -> int {
    start_key(k.spec_start())
}

/// The end rank of a range.
pub open spec fn r_end<K: NiceRange>(k: K) -> int {
    end_key(k.spec_end())
}

/// A range is valid when its start rank does not exceed its end rank;
/// equivalently, when it denotes a non-empty set of positions.
pub open spec fn spec_valid<K: NiceRange>(k: K) -> bool {
    r_start(k) <= r_end(k)
}

/// Two ranges overlap when they share at least one position: neither
/// ends before the other starts.  Touching ranges do not overlap.
pub open spec fn spec_overlap<A: NiceRange, B: NiceRange>(a: A, b: B) -> bool {
    r_start(b) <= r_end(a) && r_start(a) <= r_end(b)
}

/// Executable validity test.
pub fn is_valid_range<K: NiceRange>(k: &K) -> (r: bool)
    ensures
        r == spec_valid(*k),
{
    start_rank(k.start()) <= end_rank(k.end())
}

/// Executable overlap test.
pub fn overlaps<A: NiceRange, B: NiceRange>(a: &A, b: &B) -> (r: bool)
    ensures
        r == spec_overlap(*a, *b),
{
    start_rank(b.start()) <= end_rank(a.end()) && start_rank(a.start()) <= end_rank(b.end())
}

/// The portion of `target` lying strictly left of where `cutter`
/// starts, if any.
pub open spec fn before_piece<K: NiceRange, Q: NiceRange>(target: K, cutter: Q) -> Option<
    (Bound, Bound),
> {
    if r_start(target) < r_start(cutter) {
        Some((target.spec_start(), flipped_start(cutter.spec_start())))
    } else {
        None
    }
}

/// The intersection of `target` and `cutter`, as a raw bound pair.
pub open spec fn inside_piece<K: NiceRange, Q: NiceRange>(target: K, cutter: Q) -> (Bound, Bound) {
    (
        max_start(target.spec_start(), cutter.spec_start()),
        min_end(target.spec_end(), cutter.spec_end()),
    )
}

/// The portion of `target` lying strictly right of where `cutter` ends,
/// if any.
pub open spec fn after_piece<K: NiceRange, Q: NiceRange>(target: K, cutter: Q) -> Option<
    (Bound, Bound),
> {
    if r_end(cutter) < r_end(target) {
        Some((flipped_end(cutter.spec_end()), target.spec_end()))
    } else {
        None
    }
}

/// The decomposition of one range against a cutter.
pub struct CutResult {
    pub before_cut: Option<(Bound, Bound)>,
    pub inside_cut: Option<(Bound, Bound)>,
    pub after_cut: Option<(Bound, Bound)>,
}

/// Decomposes `target` against `cutter`: the part before the cutter,
/// the intersection (always present for overlapping ranges), and the
/// part after.
pub fn cut_range<K: NiceRange, Q: NiceRange>(target: &K, cutter: &Q) -> (r: CutResult)
    requires
        spec_valid(*target),
        spec_valid(*cutter),
        spec_overlap(*target, *cutter),
    ensures
        r.before_cut == before_piece(*target, *cutter),
        r.inside_cut == Some(inside_piece(*target, *cutter)),
        r.after_cut == after_piece(*target, *cutter),
{
    let ts = target.start();
    let te = target.end();
    let cs = cutter.start();
    let ce = cutter.end();
    let before_cut = if start_rank(ts) < start_rank(cs) {
        Some((ts, flip_start(cs)))
    } else {
        None
    };
    let inside_cut = Some((pick_max_start(ts, cs), pick_min_end(te, ce)));
    let after_cut = if end_rank(ce) < end_rank(te) {
        Some((flip_end(ce), te))
    } else {
        None
    };
    CutResult { before_cut, inside_cut, after_cut }
}

} // verus!

use core::cmp::Ordering;

use range_bounds_map::bound_ord::{end_rank, start_rank};
use range_bounds_map::helpers::{cut_range, is_valid_range, overlaps};
use range_bounds_map::range_bounds_map::{comp_end, comp_start, double_comp};
use range_bounds_map::Bound;
use range_bounds_map::FromStart;
use range_bounds_map::Full;
use range_bounds_map::HalfOpen;
use range_bounds_map::Inclusive;
use range_bounds_map::Interval;
use range_bounds_map::OverlapError;
use range_bounds_map::OverlapOrTryFromBoundsError;
use range_bounds_map::RangeBoundsMap;
use range_bounds_map::TryFromBounds;
use range_bounds_map::UpTo;
use range_bounds_map::UpToInclusive;

fn ho(start: i64, end: i64) -> HalfOpen {
    HalfOpen { start, end }
}

#[test]
fn new_map_is_empty() {
    let map: RangeBoundsMap<HalfOpen, bool> = RangeBoundsMap::new();
    assert_eq!(map.len(), 0);
    assert!(map.is_empty());
    assert_eq!(map.first_entry(), None);
    assert_eq!(map.last_entry(), None);
    assert_eq!(map.iter(), vec![]);
}

#[test]
fn overlap_semantics_at_boundaries() {
    let mut map: RangeBoundsMap<HalfOpen, bool> = RangeBoundsMap::new();
    map.insert_strict(ho(5, 10), false).unwrap();
    assert_eq!(map.overlaps(&Inclusive { start: 1, end: 3 }), false);
    assert_eq!(map.overlaps(&ho(4, 5)), false);
    assert_eq!(map.overlaps(&Inclusive { start: 4, end: 5 }), true);
    assert_eq!(map.overlaps(&ho(4, 6)), true);
}

#[test]
fn touching_ranges_never_overlap() {
    let a = ho(1, 4);
    let b = ho(4, 8);
    assert!(!overlaps(&a, &b));
    assert!(!overlaps(&b, &a));
    let c = Inclusive { start: 1, end: 4 };
    assert!(overlaps(&c, &b));
}

#[test]
fn contains_point_and_entry_lookup() {
    let map = RangeBoundsMap::from_slice_strict(vec![
        (ho(1, 4), false),
        (ho(4, 8), true),
        (ho(8, 100), false),
    ])
    .unwrap();
    assert_eq!(map.contains_point(3), true);
    assert_eq!(map.contains_point(4), true);
    assert_eq!(map.contains_point(101), false);
    assert_eq!(map.get_entry_at_point(3), Some((ho(1, 4), false)));
    assert_eq!(map.get_entry_at_point(4), Some((ho(4, 8), true)));
    assert_eq!(map.get_entry_at_point(101), None);
}

#[test]
fn get_at_point_mut_replaces_the_covered_value() {
    let mut map = RangeBoundsMap::from_slice_strict(vec![(ho(1, 4), false)]).unwrap();
    assert_eq!(map.get_at_point_mut(2, true), Some(false));
    assert_eq!(map.get_at_point(1), Some(true));
    assert_eq!(map.get_at_point_mut(10, false), None);
    assert_eq!(map.iter(), vec![(ho(1, 4), true)]);
}

#[test]
fn first_and_last_entry() {
    let map = RangeBoundsMap::from_slice_strict(vec![
        (ho(4, 8), true),
        (ho(1, 4), false),
        (ho(8, 100), false),
    ])
    .unwrap();
    assert_eq!(map.first_entry(), Some((ho(1, 4), false)));
    assert_eq!(map.last_entry(), Some((ho(8, 100), false)));
}

#[test]
fn from_slice_strict_rejects_overlapping_input() {
    let r = RangeBoundsMap::from_slice_strict(vec![(ho(1, 4), 0i64), (ho(2, 6), 1i64)]);
    assert!(matches!(r, Err(OverlapError)));
}

#[test]
fn insert_merge_touching_coalesces() {
    let mut map = RangeBoundsMap::from_slice_strict(vec![(ho(1, 4), false)]).unwrap();
    assert_eq!(map.insert_merge_touching(ho(4, 6), true), Ok(ho(1, 6)));
    assert_eq!(
        map.insert_merge_touching(ho(4, 8), false),
        Err(OverlapOrTryFromBoundsError::Overlap(OverlapError))
    );
    assert_eq!(map.insert_merge_touching(ho(10, 16), false), Ok(ho(10, 16)));
    assert_eq!(map.iter(), vec![(ho(1, 6), true), (ho(10, 16), false)]);
}

#[test]
fn insert_merge_touching_merges_both_sides() {
    let mut map =
        RangeBoundsMap::from_slice_strict(vec![(ho(1, 4), 1i64), (ho(6, 9), 2i64)]).unwrap();
    assert_eq!(map.insert_merge_touching(ho(4, 6), 7), Ok(ho(1, 9)));
    assert_eq!(map.iter(), vec![(ho(1, 9), 7)]);
}

#[test]
fn insert_merge_overlapping_coalesces() {
    let mut map = RangeBoundsMap::from_slice_strict(vec![(ho(1, 4), false)]).unwrap();
    assert_eq!(map.insert_merge_overlapping(ho(-4, 1), true), Ok(ho(-4, 1)));
    assert_eq!(map.insert_merge_overlapping(ho(2, 8), true), Ok(ho(1, 8)));
    assert_eq!(
        map.insert_merge_overlapping(ho(10, 16), false),
        Ok(ho(10, 16))
    );
    assert_eq!(
        map.iter(),
        vec![(ho(-4, 1), true), (ho(1, 8), true), (ho(10, 16), false)]
    );
}

#[test]
fn insert_merge_touching_or_overlapping_coalesces() {
    let mut map = RangeBoundsMap::from_slice_strict(vec![(ho(1, 4), false)]).unwrap();
    assert_eq!(
        map.insert_merge_touching_or_overlapping(ho(-4, 1), true),
        Ok(ho(-4, 4))
    );
    assert_eq!(
        map.insert_merge_touching_or_overlapping(ho(2, 8), true),
        Ok(ho(-4, 8))
    );
    assert_eq!(
        map.insert_merge_touching_or_overlapping(ho(10, 16), false),
        Ok(ho(10, 16))
    );
    assert_eq!(map.iter(), vec![(ho(-4, 8), true), (ho(10, 16), false)]);
}

#[test]
fn insert_overwrite_splits_the_straddled_entry() {
    let mut map = RangeBoundsMap::from_slice_strict(vec![(ho(2, 8), false)]).unwrap();
    assert_eq!(map.insert_overwrite(ho(4, 6), true), Ok(()));
    assert_eq!(
        map.iter(),
        vec![(ho(2, 4), false), (ho(4, 6), true), (ho(6, 8), false)]
    );
}

#[test]
fn cut_single_overlapping_splits_in_three() {
    let mut map = RangeBoundsMap::from_slice_strict(vec![(ho(2, 8), 5i64)]).unwrap();
    let pieces = map.cut_single_overlapping(&ho(4, 6), ho(2, 8)).unwrap();
    assert_eq!(pieces, vec![((Bound::Included(4), Bound::Excluded(6)), 5)]);
    assert_eq!(map.iter(), vec![(ho(2, 4), 5), (ho(6, 8), 5)]);
}

#[test]
fn cut_non_single_overlapping_cuts_both_boundaries() {
    let mut map =
        RangeBoundsMap::from_slice_strict(vec![(ho(1, 4), 1i64), (ho(4, 8), 2i64)]).unwrap();
    let pieces = map
        .cut_non_single_overlapping(&ho(2, 6), Some(ho(1, 4)), Some(ho(4, 8)))
        .unwrap();
    assert_eq!(
        pieces,
        vec![
            ((Bound::Included(2), Bound::Excluded(4)), 1),
            ((Bound::Included(4), Bound::Excluded(6)), 2),
        ]
    );
    assert_eq!(map.iter(), vec![(ho(1, 2), 1), (ho(6, 8), 2)]);
}

#[test]
fn gaps_lists_maximal_uncovered_intervals() {
    let map = RangeBoundsMap::from_slice_strict(vec![
        (ho(1, 3), false),
        (ho(5, 7), true),
        (ho(9, 100), false),
    ])
    .unwrap();
    let gaps = map.gaps(&FromStart { start: 2 });
    assert_eq!(
        gaps,
        vec![
            (Bound::Included(3), Bound::Excluded(5)),
            (Bound::Included(7), Bound::Excluded(9)),
            (Bound::Included(100), Bound::Unbounded),
        ]
    );
}

#[test]
fn contains_range_bounds_means_no_gap() {
    let map = RangeBoundsMap::from_slice_strict(vec![
        (ho(1, 3), false),
        (ho(5, 8), true),
        (ho(8, 100), false),
    ])
    .unwrap();
    assert_eq!(map.contains_range_bounds(&ho(1, 3)), true);
    assert_eq!(map.contains_range_bounds(&ho(2, 6)), false);
    assert_eq!(map.contains_range_bounds(&ho(6, 50)), true);
    assert_eq!(map.gaps(&ho(6, 50)), vec![]);
    assert!(!map.gaps(&ho(2, 6)).is_empty());
}

#[test]
fn try_from_bounds_on_each_range_type() {
    assert_eq!(
        HalfOpen::try_from_bounds(Bound::Included(1), Bound::Excluded(4)),
        Some(ho(1, 4))
    );
    assert_eq!(
        HalfOpen::try_from_bounds(Bound::Included(1), Bound::Included(4)),
        None
    );
    assert_eq!(
        Inclusive::try_from_bounds(Bound::Included(1), Bound::Included(4)),
        Some(Inclusive { start: 1, end: 4 })
    );
    assert_eq!(
        Inclusive::try_from_bounds(Bound::Excluded(1), Bound::Included(4)),
        None
    );
    assert_eq!(
        FromStart::try_from_bounds(Bound::Included(3), Bound::Unbounded),
        Some(FromStart { start: 3 })
    );
    assert_eq!(
        FromStart::try_from_bounds(Bound::Included(3), Bound::Excluded(9)),
        None
    );
    assert_eq!(
        UpTo::try_from_bounds(Bound::Unbounded, Bound::Excluded(9)),
        Some(UpTo { end: 9 })
    );
    assert_eq!(UpTo::try_from_bounds(Bound::Included(0), Bound::Excluded(9)), None);
    assert_eq!(
        UpToInclusive::try_from_bounds(Bound::Unbounded, Bound::Included(9)),
        Some(UpToInclusive { end: 9 })
    );
    assert_eq!(
        UpToInclusive::try_from_bounds(Bound::Unbounded, Bound::Excluded(9)),
        None
    );
    assert_eq!(
        Full::try_from_bounds(Bound::Unbounded, Bound::Unbounded),
        Some(Full)
    );
    assert_eq!(Full::try_from_bounds(Bound::Included(0), Bound::Unbounded), None);
    assert_eq!(
        Interval::try_from_bounds(Bound::Excluded(1), Bound::Excluded(9)),
        Some(Interval { start: Bound::Excluded(1), end: Bound::Excluded(9) })
    );
}

#[test]
fn mixed_range_types_in_one_map() {
    let mut map: RangeBoundsMap<Interval, i64> = RangeBoundsMap::new();
    let a = Interval { start: Bound::Unbounded, end: Bound::Excluded(0) };
    let b = Interval { start: Bound::Included(0), end: Bound::Included(5) };
    let c = Interval { start: Bound::Excluded(5), end: Bound::Unbounded };
    map.insert_strict(a, 1).unwrap();
    map.insert_strict(b, 2).unwrap();
    map.insert_strict(c, 3).unwrap();
    assert_eq!(map.len(), 3);
    assert_eq!(map.get_at_point(-10), Some(1));
    assert_eq!(map.get_at_point(0), Some(2));
    assert_eq!(map.get_at_point(5), Some(2));
    assert_eq!(map.get_at_point(6), Some(3));
    assert_eq!(map.gaps(&Full), vec![]);
    assert_eq!(map.contains_range_bounds(&Full), true);
}

#[test]
fn comparator_functions_follow_the_rank_order() {
    let r = ho(5, 10);
    assert_eq!(comp_start(Bound::Included(12), &r), Ordering::Less);
    assert_eq!(comp_start(Bound::Included(3), &r), Ordering::Greater);
    assert_eq!(comp_start(Bound::Included(7), &r), Ordering::Equal);
    assert_eq!(comp_start(Bound::Included(10), &r), Ordering::Less);
    assert_eq!(comp_end(Bound::Excluded(5), &r), Ordering::Greater);
    assert_eq!(comp_end(Bound::Included(5), &r), Ordering::Equal);
    assert_eq!(double_comp(&ho(1, 4), &ho(4, 8)), Ordering::Less);
    assert_eq!(double_comp(&ho(4, 8), &ho(1, 4)), Ordering::Greater);
    assert_eq!(double_comp(&ho(4, 8), &ho(4, 9)), Ordering::Equal);
}

#[test]
fn rank_order_is_role_sensitive() {
    // as a start: Unbounded < Included(v) < Excluded(v)
    assert!(start_rank(Bound::Unbounded) < start_rank(Bound::Included(i64::MIN)));
    assert!(start_rank(Bound::Included(4)) < start_rank(Bound::Excluded(4)));
    // as an end: Excluded(v) < Included(v) < Unbounded
    assert!(end_rank(Bound::Excluded(4)) < end_rank(Bound::Included(4)));
    assert!(end_rank(Bound::Included(i64::MAX)) < end_rank(Bound::Unbounded));
    // differing values dominate
    assert!(start_rank(Bound::Excluded(3)) < start_rank(Bound::Included(4)));
}

#[test]
fn cut_range_decomposes_against_the_cutter() {
    let r = cut_range(&ho(2, 8), &ho(4, 6));
    assert_eq!(r.before_cut, Some((Bound::Included(2), Bound::Excluded(4))));
    assert_eq!(r.inside_cut, Some((Bound::Included(4), Bound::Excluded(6))));
    assert_eq!(r.after_cut, Some((Bound::Included(6), Bound::Excluded(8))));

    let r2 = cut_range(&ho(2, 8), &Inclusive { start: 4, end: 6 });
    assert_eq!(r2.before_cut, Some((Bound::Included(2), Bound::Excluded(4))));
    assert_eq!(r2.inside_cut, Some((Bound::Included(4), Bound::Included(6))));
    assert_eq!(r2.after_cut, Some((Bound::Excluded(6), Bound::Excluded(8))));
}

#[test]
fn validity_follows_the_rank_order() {
    assert!(is_valid_range(&ho(1, 2)));
    assert!(!is_valid_range(&ho(2, 2)));
    assert!(is_valid_range(&Inclusive { start: 2, end: 2 }));
    assert!(!is_valid_range(&Inclusive { start: 3, end: 2 }));
    assert!(is_valid_range(&Full));
}

#[test]
fn extreme_values_are_handled_exactly() {
    let mut map: RangeBoundsMap<HalfOpen, bool> = RangeBoundsMap::new();
    map.insert_strict(ho(i64::MIN, i64::MAX), true).unwrap();
    assert_eq!(map.get_at_point(i64::MIN), Some(true));
    assert_eq!(map.get_at_point(i64::MAX - 1), Some(true));
    assert_eq!(map.get_at_point(i64::MAX), None);

    let mut full: RangeBoundsMap<Interval, i64> = RangeBoundsMap::new();
    full.insert_strict(
        Interval { start: Bound::Unbounded, end: Bound::Unbounded },
        7,
    )
    .unwrap();
    assert_eq!(full.get_at_point(i64::MIN), Some(7));
    assert_eq!(full.get_at_point(i64::MAX), Some(7));
    assert_eq!(full.gaps(&Full), vec![]);
    assert!(full.insert_strict(
        Interval { start: Bound::Included(0), end: Bound::Included(0) },
        9,
    ) == Err(OverlapError));
}

use range_bounds_map::Bound;
use range_bounds_map::TryFromBounds;
use range_bounds_map::HalfOpen;
use range_bounds_map::Inclusive;
use range_bounds_map::OverlapError;
use range_bounds_map::RangeBoundsMap;
use range_bounds_map::TryFromBoundsError;

fn ho(start: i64, end: i64) -> HalfOpen {
    HalfOpen { start, end }
}

fn three_blocks() -> RangeBoundsMap<HalfOpen, bool> {
    RangeBoundsMap::from_slice_strict(vec![
        (ho(1, 4), false),
        (ho(4, 8), true),
        (ho(8, 100), false),
    ])
    .unwrap()
}

#[test]
fn overlapping_yields_ascending_overlaps() {
    let map = three_blocks();
    let overlapping = map.overlapping(&ho(2, 8));
    assert_eq!(overlapping, vec![(ho(1, 4), false), (ho(4, 8), true)]);
}

#[test]
fn get_at_point_picks_the_covering_range() {
    let map = three_blocks();
    assert_eq!(map.get_at_point(4), Some(true));
    assert_eq!(map.get_at_point(101), None);
}

#[test]
fn cut_returns_pieces_and_trims_the_map() {
    let mut map = three_blocks();
    let pieces = map.cut(&ho(2, 40)).unwrap();
    assert_eq!(
        pieces,
        vec![
            ((Bound::Included(2), Bound::Excluded(4)), false),
            ((Bound::Included(4), Bound::Excluded(8)), true),
            ((Bound::Included(8), Bound::Excluded(40)), false),
        ]
    );
    assert_eq!(map.iter(), vec![(ho(1, 2), false), (ho(40, 100), false)]);
}

#[test]
fn insert_strict_rejects_overlap() {
    let mut map: RangeBoundsMap<HalfOpen, i64> = RangeBoundsMap::new();
    assert_eq!(map.insert_strict(ho(5, 10), 9), Ok(()));
    assert_eq!(map.insert_strict(ho(5, 10), 2), Err(OverlapError));
    assert_eq!(map.len(), 1);
}

#[test]
fn cut_with_unrepresentable_remainder_fails_unchanged() {
    let mut map = RangeBoundsMap::from_slice_strict(vec![(ho(2, 8), true)]).unwrap();
    // cutting [4, 6] out of [2, 8) would leave (6, 8), which a
    // half-open range cannot represent
    assert_eq!(
        map.cut(&Inclusive { start: 4, end: 6 }),
        Err(TryFromBoundsError)
    );
    assert_eq!(map.iter(), vec![(ho(2, 8), true)]);
}

#[test]
fn overlaps_agrees_with_overlapping() {
    let map = three_blocks();
    let queries = [
        ho(-10, 0),
        ho(0, 1),
        ho(0, 2),
        ho(3, 5),
        ho(99, 200),
        ho(100, 200),
        ho(150, 160),
    ];
    for q in queries {
        assert_eq!(map.overlaps(&q), !map.overlapping(&q).is_empty());
    }
    let empty: RangeBoundsMap<HalfOpen, bool> = RangeBoundsMap::new();
    assert_eq!(empty.overlaps(&ho(0, 10)), false);
    assert!(empty.overlapping(&ho(0, 10)).is_empty());
}

#[test]
fn remove_overlapping_leaves_nothing_overlapping() {
    let mut map = three_blocks();
    let removed = map.remove_overlapping(&ho(2, 8));
    assert_eq!(removed, vec![(ho(1, 4), false), (ho(4, 8), true)]);
    assert!(map.overlapping(&ho(2, 8)).is_empty());
    assert_eq!(map.iter(), vec![(ho(8, 100), false)]);
}

#[test]
fn cut_then_reinserting_pieces_restores_coverage() {
    let mut map = RangeBoundsMap::from_slice_strict(vec![(ho(1, 4), 1i64), (ho(4, 8), 2i64)])
        .unwrap();
    let pieces = map.cut(&ho(2, 6)).unwrap();
    assert_eq!(map.iter(), vec![(ho(1, 2), 1), (ho(6, 8), 2)]);
    for ((start, end), value) in pieces {
        let piece = HalfOpen::try_from_bounds(start, end).unwrap();
        assert_eq!(map.insert_strict(piece, value), Ok(()));
    }
    for p in 1..8i64 {
        let expected = if p < 4 { 1 } else { 2 };
        assert_eq!(map.get_at_point(p), Some(expected));
    }
    assert_eq!(map.get_at_point(8), None);
}

#[test]
fn split_off_partitions_and_recombines() {
    let mut a = RangeBoundsMap::from_slice_strict(vec![
        (ho(1, 2), false),
        (ho(4, 8), true),
        (ho(10, 16), true),
    ])
    .unwrap();
    // splitting inside [4, 8) at an excluded bound would leave a
    // remainder no half-open range can represent
    assert!(matches!(a.split_off(Bound::Excluded(6)), Err(TryFromBoundsError)));
    assert_eq!(
        a.iter(),
        vec![(ho(1, 2), false), (ho(4, 8), true), (ho(10, 16), true)]
    );

    let b = a.split_off(Bound::Included(6)).unwrap();
    assert_eq!(a.iter(), vec![(ho(1, 2), false), (ho(4, 6), true)]);
    assert_eq!(b.iter(), vec![(ho(6, 8), true), (ho(10, 16), true)]);

    // recombining by ascending start bound reproduces the original
    let mut recombined = a.iter();
    recombined.extend(b.iter());
    assert_eq!(
        recombined,
        vec![
            (ho(1, 2), false),
            (ho(4, 6), true),
            (ho(6, 8), true),
            (ho(10, 16), true)
        ]
    );
    for p in [0, 1, 4, 5, 6, 7, 9, 10, 15, 16] {
        let original = match p {
            1 => Some(false),
            4..=7 => Some(true),
            10..=15 => Some(true),
            _ => None,
        };
        let rejoined = a.get_at_point(p).or(b.get_at_point(p));
        assert_eq!(rejoined, original);
    }
}

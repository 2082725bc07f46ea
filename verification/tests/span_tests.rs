use navmesh::span::{column_is_valid, insert_span, AreaType, Span, MAX_SPAN_HEIGHT};

fn solid(min: u16, max: u16) -> Span {
    Span { min, max, area: AreaType::NotWalkable }
}

fn walkable(min: u16, max: u16) -> Span {
    Span { min, max, area: AreaType::Walkable }
}

#[test]
fn max_span_height_is_thirteen_bits() {
    assert_eq!(MAX_SPAN_HEIGHT, 8191);
}

#[test]
fn prevailing_area_is_walkable() {
    assert_eq!(AreaType::NotWalkable.prevailing(AreaType::NotWalkable), AreaType::NotWalkable);
    assert_eq!(AreaType::NotWalkable.prevailing(AreaType::Walkable), AreaType::Walkable);
    assert_eq!(AreaType::Walkable.prevailing(AreaType::NotWalkable), AreaType::Walkable);
    assert_eq!(AreaType::Walkable.prevailing(AreaType::Walkable), AreaType::Walkable);
}

#[test]
fn span_validity() {
    assert!(solid(0, 1).is_valid());
    assert!(solid(8190, 8191).is_valid());
    assert!(!solid(3, 3).is_valid());
    assert!(!solid(4, 3).is_valid());
    assert!(!solid(0, 8192).is_valid());
    assert!(!solid(8191, 8191).is_valid());
}

#[test]
fn absorb_reaches_over_both() {
    assert_eq!(solid(3, 5).absorb(solid(1, 4), 0), solid(1, 5));
    assert_eq!(solid(3, 5).absorb(solid(4, 9), 0), solid(3, 9));
}

#[test]
fn absorb_merges_areas_within_the_threshold() {
    // The tops are one apart.
    assert_eq!(solid(1, 5).absorb(walkable(0, 4), 1), walkable(0, 5));
    assert_eq!(solid(1, 5).absorb(walkable(0, 4), 0), solid(0, 5));
    // The other span is the higher one: the merged top is its own top.
    assert_eq!(solid(1, 5).absorb(walkable(0, 9), 0), walkable(0, 9));
    assert_eq!(walkable(1, 5).absorb(solid(0, 2), 0), walkable(0, 5));
}

#[test]
fn insert_into_empty_column() {
    assert_eq!(insert_span(&vec![], solid(2, 4), 1), vec![solid(2, 4)]);
}

#[test]
fn insert_keeps_the_order() {
    let col = vec![solid(4, 6)];
    assert_eq!(insert_span(&col, solid(0, 2), 1), vec![solid(0, 2), solid(4, 6)]);
    assert_eq!(insert_span(&col, solid(8, 9), 1), vec![solid(4, 6), solid(8, 9)]);
    let col = vec![solid(0, 2), solid(8, 9)];
    assert_eq!(insert_span(&col, solid(4, 6), 1), vec![solid(0, 2), solid(4, 6), solid(8, 9)]);
}

#[test]
fn insert_merges_overlapping_and_touching_spans() {
    let col = vec![solid(0, 1), solid(2, 3), solid(5, 6), solid(9, 10)];
    assert_eq!(insert_span(&col, solid(1, 5), 0), vec![solid(0, 6), solid(9, 10)]);
    assert_eq!(insert_span(&col, solid(7, 8), 0).len(), 5);
    assert_eq!(insert_span(&col, solid(0, 10), 0), vec![solid(0, 10)]);
}

#[test]
fn insert_merges_areas_span_by_span() {
    let col = vec![walkable(0, 2), solid(3, 9)];
    // The walkable span ends seven below the new top, the solid one at the new top.
    assert_eq!(insert_span(&col, solid(1, 9), 1), vec![solid(0, 9)]);
    assert_eq!(insert_span(&col, solid(1, 9), 7), vec![walkable(0, 9)]);
    let col = vec![solid(0, 2), walkable(3, 9)];
    assert_eq!(insert_span(&col, solid(1, 4), 0), vec![walkable(0, 9)]);
}

#[test]
fn insert_same_span_twice_changes_nothing() {
    let once = insert_span(&vec![], walkable(3, 7), 1);
    assert_eq!(insert_span(&once, walkable(3, 7), 1), once);
}

#[test]
fn column_validity() {
    assert!(column_is_valid(&vec![]));
    assert!(column_is_valid(&vec![solid(0, 1), solid(2, 3), walkable(9, 8191)]));
    assert!(!column_is_valid(&vec![solid(0, 1), solid(1, 3)]));
    assert!(!column_is_valid(&vec![solid(2, 3), solid(0, 1)]));
    assert!(!column_is_valid(&vec![solid(0, 1), solid(2, 2)]));
    assert!(!column_is_valid(&vec![solid(0, 1), solid(2, 8192)]));
}

#[test]
fn insert_covers_what_was_covered_and_the_new_span() {
    let col = vec![solid(0, 1), solid(2, 3), solid(5, 6), solid(9, 10)];
    for min in 0..12 {
        for max in min + 1..13 {
            let merged = insert_span(&col, solid(min, max), 1);
            assert!(column_is_valid(&merged));
            for y in 0..14 {
                let before = col.iter().any(|s| s.min <= y && y < s.max);
                let after = merged.iter().any(|s| s.min <= y && y < s.max);
                assert_eq!(after, before || (min <= y && y < max));
            }
        }
    }
}

use rust4geo::feature::{Feature, Rect};
use rust4geo::geometry_utils::{get_extent_as_geometry, is_adjacent};

fn rect(min_x: i64, min_y: i64, max_x: i64, max_y: i64) -> Rect {
    Rect { min_x, min_y, max_x, max_y }
}

fn feat(id: u64, rects: Option<Vec<Rect>>) -> Feature {
    Feature { id, attrs: vec![], geom: rects }
}

#[test]
fn envelope_spans_all_parts() {
    let f = feat(1, Some(vec![rect(0, 0, 10, 10), rect(40, -5, 50, 8)]));
    assert_eq!(get_extent_as_geometry(&f), Some(rect(0, -5, 50, 10)));
}

#[test]
fn envelope_of_missing_or_empty_geometry_is_none() {
    assert_eq!(get_extent_as_geometry(&feat(1, None)), None);
    assert_eq!(get_extent_as_geometry(&feat(1, Some(vec![]))), None);
}

#[test]
fn touching_edges_are_adjacent() {
    let a = feat(1, Some(vec![rect(0, 0, 10, 10)]));
    let b = feat(2, Some(vec![rect(10, 0, 20, 10)]));
    assert!(is_adjacent(&a, &b));
    assert!(is_adjacent(&b, &a));
}

#[test]
fn separated_rectangles_are_not_adjacent() {
    let a = feat(1, Some(vec![rect(0, 0, 10, 10)]));
    let b = feat(2, Some(vec![rect(11, 0, 20, 10)]));
    assert!(!is_adjacent(&a, &b));
}

#[test]
fn missing_geometry_is_never_adjacent() {
    let a = feat(1, None);
    let b = feat(2, Some(vec![rect(0, 0, 10, 10)]));
    assert!(!is_adjacent(&a, &b));
    assert!(!is_adjacent(&b, &a));
    assert!(!is_adjacent(&a, &a));
}

#[test]
fn multi_part_regions_are_adjacent_through_any_part() {
    let a = feat(1, Some(vec![rect(0, 0, 10, 10), rect(100, 100, 110, 110)]));
    let b = feat(2, Some(vec![rect(110, 100, 120, 110)]));
    assert!(is_adjacent(&a, &b));
}

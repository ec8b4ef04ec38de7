use llika::geometry::{orientation, segments_intersect, segments_overlap};
use llika::grid::GridPoint;

fn cell(i: i64, j: i64) -> GridPoint {
    GridPoint::new(i, j)
}

#[test]
fn orientation_is_the_sign_of_the_turn() {
    assert_eq!(orientation(cell(0, 0), cell(1, 0), cell(1, 1)), 1);
    assert_eq!(orientation(cell(0, 0), cell(1, 0), cell(1, -1)), -1);
    assert_eq!(orientation(cell(0, 0), cell(1, 0), cell(2, 0)), 0);
}

#[test]
fn segments_that_properly_cross_intersect() {
    assert!(segments_intersect(cell(0, 0), cell(2, 2), cell(0, 2), cell(2, 0)));
}

#[test]
fn segments_that_pass_without_meeting_do_not() {
    assert!(!segments_intersect(cell(0, 0), cell(2, 0), cell(0, 1), cell(2, 1)));
    // Collinear but disjoint.
    assert!(!segments_intersect(cell(0, 0), cell(1, 0), cell(2, 0), cell(3, 0)));
}

/// The closed test: touching counts.
#[test]
fn touching_and_overlapping_segments_intersect() {
    // An endpoint of one lying in the other's interior.
    assert!(segments_intersect(cell(0, 0), cell(4, 0), cell(2, 0), cell(2, 3)));
    // A collinear overlap.
    assert!(segments_intersect(cell(0, 0), cell(3, 0), cell(2, 0), cell(5, 0)));
    // Collinear, meeting at exactly one endpoint.
    assert!(segments_intersect(cell(0, 0), cell(2, 0), cell(2, 0), cell(4, 0)));
}

#[test]
fn a_straight_through_touches_without_overlapping() {
    assert!(!segments_overlap(cell(0, 0), cell(1, 1), cell(1, 1), cell(2, 2)));
    // It does meet as a closed segment.
    assert!(segments_intersect(cell(0, 0), cell(1, 1), cell(1, 1), cell(2, 2)));
}

#[test]
fn a_fold_back_overlaps_and_therefore_intersects() {
    // (0,0)-(3,3) and (3,3)-(2,2) share the stretch (2,2)-(3,3).
    assert!(segments_overlap(cell(0, 0), cell(3, 3), cell(3, 3), cell(2, 2)));
    assert!(segments_intersect(cell(0, 0), cell(3, 3), cell(3, 3), cell(2, 2)));
    // A vertical pair, and one segment containing the other.
    assert!(segments_overlap(cell(0, 0), cell(0, 5), cell(0, 1), cell(0, 2)));
    assert!(segments_overlap(cell(0, 1), cell(0, 2), cell(0, 0), cell(0, 5)));
}

#[test]
fn parallel_or_crossing_segments_do_not_overlap() {
    assert!(!segments_overlap(cell(0, 0), cell(2, 0), cell(0, 1), cell(2, 1)));
    assert!(!segments_overlap(cell(0, 0), cell(2, 2), cell(0, 2), cell(2, 0)));
    // Collinear but apart.
    assert!(!segments_overlap(cell(0, 0), cell(1, 0), cell(2, 0), cell(3, 0)));
}

#[test]
fn orientation_is_exact_at_the_far_edge_of_the_coordinate_range() {
    let m = i64::MAX;
    assert_eq!(orientation(GridPoint::new(m - 2, m - 2), GridPoint::new(m - 1, m - 2), GridPoint::new(m - 1, m - 1)), 1);
    assert_eq!(orientation(GridPoint::new(i64::MIN, 0), GridPoint::new(i64::MIN + 1, 0), GridPoint::new(i64::MIN + 1, -1)), -1);
    assert!(segments_intersect(
        GridPoint::new(m - 2, m - 2),
        GridPoint::new(m, m),
        GridPoint::new(m - 2, m),
        GridPoint::new(m, m - 2),
    ));
}

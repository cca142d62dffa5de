use track_mapper::geo_coder::Point;
use track_mapper::tracker::{are_points_too_close, is_in_radius};

#[test]
fn near_points_are_too_close() {
    // 10² - 5² = 75, below 1600.
    assert!(are_points_too_close(&Point(0, 0), &Point(10, 5)));
    assert!(are_points_too_close(&Point(3, 3), &Point(3, 3)));
}

#[test]
fn far_points_are_not_too_close() {
    // 50² - 0² = 2500.
    assert!(!are_points_too_close(&Point(0, 0), &Point(50, 0)));
    // 40² - 0² = 1600 is exactly the limit, which is not below it.
    assert!(!are_points_too_close(&Point(0, 0), &Point(40, 0)));
    // 39² - 0² = 1521.
    assert!(are_points_too_close(&Point(0, 0), &Point(39, 0)));
}

#[test]
fn a_larger_row_offset_is_never_too_close() {
    // 0² - 10² is negative: the root of a negative number is not below 40.
    assert!(!are_points_too_close(&Point(0, 0), &Point(0, 10)));
    assert!(!are_points_too_close(&Point(5, 5), &Point(6, 100)));
}

#[test]
fn closeness_is_symmetric() {
    let pairs = [(Point(0, 0), Point(10, 5)), (Point(7, -3), Point(-20, 4)), (Point(1, 1), Point(1, 90))];
    for (a, b) in pairs.iter() {
        assert_eq!(are_points_too_close(a, b), are_points_too_close(b, a));
    }
}

#[test]
fn radius_search_finds_any_close_point() {
    let points = vec![Point(100, 0), Point(0, 100), Point(12, 0)];
    assert!(is_in_radius(&points, Point(0, 0)));
    assert!(!is_in_radius(&points[..2].to_vec(), Point(0, 0)));
    assert!(!is_in_radius(&Vec::new(), Point(0, 0)));
}

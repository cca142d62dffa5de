//! Closeness of marker points on the picture.
//!
//! Two points count as too close when `sqrt(dx² - dy²) < 40` with the
//! difference of squares taken in `i32` and the root in `f32`. That test is
//! decided here over the integers: a negative difference has no real root
//! (the comparison with a NaN is false), and for a non-negative `d` the root
//! is below 40 exactly when `d < 1600`, since every integer up to 1600 is
//! exact in `f32`, 1600 is a perfect square and the rounding of both the
//! conversion and the root is monotone.

use vstd::prelude::*;
use crate::geo_coder::Point;

verus! {

/// The difference of the squared offsets along each axis.
pub open spec fn square_gap(first: Point, second: Point) -> int {
    let dx = first.0 - second.0;
    let dy = first.1 - second.1;
    dx * dx - dy * dy
}

/// Whether the two points count as too close to each other.
pub open spec fn too_close(first: Point, second: Point) -> bool {
    0 <= square_gap(first, second) < 1600
}

/// Whether the offsets and their squares fit in `i32`.
pub open spec fn offsets_fit(first: Point, second: Point) -> bool {
    let dx = first.0 - second.0;
    let dy = first.1 - second.1;
    &&& i32::MIN <= dx <= i32::MAX
    &&& i32::MIN <= dy <= i32::MAX
    &&& dx * dx <= i32::MAX
    &&& dy * dy <= i32::MAX
}

/// Whether `first` and `second` are too close to each other.
pub fn are_points_too_close(first: &Point, second: &Point) -> (r: bool)
    requires
        offsets_fit(*first, *second),
    ensures
        r == too_close(*first, *second),
{
    let dx = first.0 - second.0;
    let dy = first.1 - second.1;
    proof {
        let (a, b) = (dx as int, dy as int);
        assert(0 <= a * a && 0 <= b * b) by (nonlinear_arith);
    }
    let gap = dx * dx - dy * dy;
    0 <= gap && gap < 1600
}

/// Whether every point of `points` that is examined before a close one turns
/// up has offsets from `point` that fit in `i32`.
pub open spec fn radius_fits(points: Seq<Point>, point: Point) -> bool {
    forall|i: int|
        0 <= i < points.len() && (forall|j: int| 0 <= j < i ==> !too_close(#[trigger] points[j], point))
            ==> offsets_fit(#[trigger] points[i], point)
}

/// Whether some point of `vec` is too close to `point`.
pub fn is_in_radius(vec: &Vec<Point>, point: Point) -> (r: bool)
    requires
        radius_fits(vec@, point),
    ensures
        r == exists|i: int| 0 <= i < vec@.len() && too_close(#[trigger] vec@[i], point),
{
    let mut i: usize = 0;
    while i < vec.len()
        invariant
            i <= vec@.len(),
            radius_fits(vec@, point),
            forall|j: int| 0 <= j < i ==> !too_close(#[trigger] vec@[j], point),
        decreases vec@.len() - i,
    {
        assert(offsets_fit(vec@[i as int], point));
        if are_points_too_close(&vec[i], &point) {
            return true;
        }
        i = i + 1;
    }
    false
}

/// Closeness does not depend on the order of the two points.
pub proof fn lemma_too_close_symmetric(first: Point, second: Point)
    ensures
        too_close(first, second) == too_close(second, first),
{
    let (dx, dy) = (first.0 - second.0, first.1 - second.1);
    assert(dx * dx == (-dx) * (-dx)) by (nonlinear_arith);
    assert(dy * dy == (-dy) * (-dy)) by (nonlinear_arith);
}

} // verus!

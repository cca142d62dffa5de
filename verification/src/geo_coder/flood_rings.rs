//! A flood as the rings it grows: the painted pixels are the rings one after
//! another, and a pair of markers, the first and the last pixel of a ring,
//! falls on every [`MIN_MARK_DISTANCE`]-th ring.

use vstd::prelude::*;
use super::{Point, PathMask, MIN_MARK_DISTANCE};
use super::flood::{count_unvisited, lemma_expand, next_ring, walk};

verus! {

/// The rings a flood from `frontier` grows, in order, up to the first empty
/// one (which is left out), and the seen flags after it; `None` where
/// growing a ring fails.
pub open spec fn flood_rings(m: PathMask, frontier: Seq<Point>, u: Seq<bool>) -> Option<
    (Seq<Seq<Point>>, Seq<bool>),
>
    decreases count_unvisited(u),
{
    match next_ring(m, frontier, u) {
        None => None,
        Some((u2, next)) => if next.len() == 0 {
            Some((Seq::empty(), u2))
        } else {
            proof {
                lemma_expand(m, frontier, 0, 0, u, Seq::empty());
            }
            match flood_rings(m, next, u2) {
                None => None,
                Some((rest, u3)) => Some((seq![next] + rest, u3)),
            }
        },
    }
}

/// The markers of a flood whose rings are `rings`, begun `distance` rings
/// after the last marker pair: pair `k` is the first and the last pixel of
/// ring `MIN_MARK_DISTANCE * (k + 1) - 1 - distance`, and there are as many
/// pairs as such rings.
pub open spec fn ring_markers(rings: Seq<Seq<Point>>, distance: int) -> Seq<Point> {
    let d = MIN_MARK_DISTANCE as int;
    Seq::new(
        (2 * ((rings.len() + distance) / d)) as nat,
        |i: int|
            {
                let ring = rings[d * (i / 2) + d - 1 - distance];
                if i % 2 == 0 {
                    ring[0]
                } else {
                    ring.last()
                }
            },
    )
}

/// A flood drops exactly the markers `ring_markers` names, paints its rings
/// one after another and ends with the seen flags its rings leave; every
/// ring holds at least one pixel.
pub proof fn lemma_walk_rings(
    m: PathMask,
    frontier: Seq<Point>,
    u: Seq<bool>,
    distance: int,
    markers: Seq<Point>,
    painted: Seq<Point>,
)
    requires
        0 <= distance < MIN_MARK_DISTANCE,
    ensures
        walk(m, frontier, u, distance, markers, painted) == match flood_rings(m, frontier, u) {
            None => None,
            Some((rings, u2)) => Some(
                (markers + ring_markers(rings, distance), u2, painted + rings.flatten()),
            ),
        },
        flood_rings(m, frontier, u) matches Some((rings, u2)) ==> forall|j: int|
            0 <= j < rings.len() ==> #[trigger] rings[j].len() > 0,
    decreases count_unvisited(u),
{
    let d = MIN_MARK_DISTANCE as int;
    lemma_expand(m, frontier, 0, 0, u, Seq::empty());
    match next_ring(m, frontier, u) {
        None => {},
        Some((u2, next)) => {
            if next.len() == 0 {
                let rings = Seq::<Seq<Point>>::empty();
                assert(ring_markers(rings, distance) =~= Seq::<Point>::empty());
                assert(markers + Seq::<Point>::empty() =~= markers);
                assert(painted + Seq::<Point>::empty() =~= painted);
            } else {
                let p2 = painted + next;
                let dist2 = if distance + 1 >= d { 0 } else { distance + 1 };
                let mk2 = if distance + 1 >= d {
                    markers.push(next[0]).push(next.last())
                } else {
                    markers
                };
                lemma_walk_rings(m, next, u2, dist2, mk2, p2);
                match flood_rings(m, next, u2) {
                    None => {},
                    Some((rest, u3)) => {
                        let rings = seq![next] + rest;
                        assert(rings.first() == next);
                        assert(rings.drop_first() =~= rest);
                        assert(rings.flatten() == next + rest.flatten());
                        assert(p2 + rest.flatten() =~= painted + rings.flatten());
                        assert forall|j: int| 0 <= j < rings.len() implies #[trigger] rings[j].len()
                            > 0 by {
                            if j > 0 {
                                assert(rings[j] == rest[j - 1]);
                            }
                        }
                        let ours = ring_markers(rings, distance);
                        let theirs = ring_markers(rest, dist2);
                        if distance + 1 >= d {
                            assert(distance == d - 1);
                            let pair = seq![next[0], next.last()];
                            assert(ours.len() == pair.len() + theirs.len());
                            assert forall|i: int| 0 <= i < ours.len() implies #[trigger] ours[i]
                                == (pair + theirs)[i] by {
                                if i >= 2 {
                                    assert(i / 2 == (i - 2) / 2 + 1);
                                    assert(i % 2 == (i - 2) % 2);
                                    assert(rings[d * (i / 2) + d - 1 - distance] == rest[d * ((i
                                        - 2) / 2) + d - 1 - dist2]);
                                } else {
                                    assert(d * (i / 2) + d - 1 - distance == 0);
                                }
                            }
                            assert(ours =~= pair + theirs);
                            assert(mk2 =~= markers + pair);
                            assert(mk2 + theirs =~= markers + ours);
                        } else {
                            assert(ours.len() == theirs.len());
                            assert forall|i: int| 0 <= i < ours.len() implies #[trigger] ours[i]
                                == theirs[i] by {
                                assert(rings[d * (i / 2) + d - 1 - distance] == rest[d * (i / 2) + d
                                    - 1 - dist2]);
                            }
                            assert(ours =~= theirs);
                        }
                    },
                }
            }
        },
    }
}

} // verus!

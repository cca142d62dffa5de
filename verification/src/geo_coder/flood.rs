//! What tracing computes, stated step by step: looking at one pixel, growing
//! one ring, flooding until a ring is empty, and scanning the picture.

use vstd::prelude::*;
use super::{PathMask, Point, MIN_MARK_DISTANCE};

verus! {

/// The seen-flag slot of pixel `p`: `x * width + y`.
pub open spec fn visit_slot(m: PathMask, p: Point) -> int {
    p.0 * m.width + p.1
}

/// Neighbour `k` (0 to 8) of `p`: column offsets -1, 0, 1 in turn, and
/// within each the row offsets -1, 0, 1; offset (0, 0) is `p` itself.
pub open spec fn neighbor(p: Point, k: int) -> Point {
    Point((p.0 + k / 3 - 1) as i32, (p.1 + k % 3 - 1) as i32)
}

/// Every point lies in the picture on a trail pixel.
pub open spec fn all_on_path(m: PathMask, pts: Seq<Point>) -> bool {
    forall|j: int|
        0 <= j < pts.len() ==> m.contains(#[trigger] pts[j].0 as int, pts[j].1 as int) && m.is_path(
            pts[j].0 as int,
            pts[j].1 as int,
        )
}

/// The number of slots not yet seen.
pub open spec fn count_unvisited(u: Seq<bool>) -> nat
    decreases u.len(),
{
    if u.len() == 0 {
        0
    } else {
        count_unvisited(u.drop_last()) + if u.last() {
            1nat
        } else {
            0nat
        }
    }
}

/// Looking at pixel `q` while growing the next ring `next`: a pixel outside
/// the picture or already seen is skipped; otherwise it is marked seen and,
/// when it is a trail pixel, joins the ring. `None` when its slot leaves
/// `i32` or falls outside the table.
pub open spec fn visit(m: PathMask, q: Point, u: Seq<bool>, next: Seq<Point>) -> Option<
    (Seq<bool>, Seq<Point>),
> {
    let slot = visit_slot(m, q);
    if !m.contains(q.0 as int, q.1 as int) {
        Some((u, next))
    } else if slot > i32::MAX || slot >= u.len() {
        None
    } else if !u[slot] {
        Some((u, next))
    } else if m.is_path(q.0 as int, q.1 as int) {
        Some((u.update(slot, false), next.push(q)))
    } else {
        Some((u.update(slot, false), next))
    }
}

/// Growing the next ring from `frontier`, resuming at neighbour `k` of
/// `frontier[i]`.
pub open spec fn expand_from(
    m: PathMask,
    frontier: Seq<Point>,
    i: int,
    k: int,
    u: Seq<bool>,
    next: Seq<Point>,
) -> Option<(Seq<bool>, Seq<Point>)>
    decreases frontier.len() - i, 9 - k,
{
    if i < 0 || i >= frontier.len() {
        Some((u, next))
    } else if k >= 9 {
        expand_from(m, frontier, i + 1, 0, u, next)
    } else {
        match visit(m, neighbor(frontier[i], k), u, next) {
            None => None,
            Some((u2, n2)) => expand_from(m, frontier, i, k + 1, u2, n2),
        }
    }
}

/// The ring that follows `frontier`, with the seen flags after it.
pub open spec fn next_ring(m: PathMask, frontier: Seq<Point>, u: Seq<bool>) -> Option<
    (Seq<bool>, Seq<Point>),
> {
    expand_from(m, frontier, 0, 0, u, Seq::empty())
}

/// Marking a slot seen lowers the count of unseen slots by one.
pub proof fn lemma_count_clear(u: Seq<bool>, i: int)
    requires
        0 <= i < u.len(),
        u[i],
    ensures
        count_unvisited(u.update(i, false)) + 1 == count_unvisited(u),
    decreases u.len(),
{
    let v = u.update(i, false);
    if i == u.len() - 1 {
        assert(v.drop_last() =~= u.drop_last());
    } else {
        assert(v.drop_last() =~= u.drop_last().update(i, false));
        lemma_count_clear(u.drop_last(), i);
    }
}

/// Growing a ring never unmarks a slot, keeps the table's length, puts only
/// trail pixels into the ring, and every pixel it adds was unseen before:
/// the unseen count plus the ring length never grows.
pub proof fn lemma_expand(
    m: PathMask,
    frontier: Seq<Point>,
    i: int,
    k: int,
    u: Seq<bool>,
    next: Seq<Point>,
)
    requires
        all_on_path(m, next),
    ensures
        expand_from(m, frontier, i, k, u, next) matches Some((u2, n2)) ==> {
            &&& u2.len() == u.len()
            &&& count_unvisited(u2) + n2.len() <= count_unvisited(u) + next.len()
            &&& all_on_path(m, n2)
            &&& forall|j: int| 0 <= j < u.len() && #[trigger] u2[j] ==> u[j]
        },
    decreases frontier.len() - i, 9 - k,
{
    if i < 0 || i >= frontier.len() {
    } else if k >= 9 {
        lemma_expand(m, frontier, i + 1, 0, u, next);
    } else {
        let q = neighbor(frontier[i], k);
        let slot = visit_slot(m, q);
        match visit(m, q, u, next) {
            None => {},
            Some((u2, n2)) => {
                if m.contains(q.0 as int, q.1 as int) && slot < u.len() && u[slot] {
                    lemma_count_clear(u, slot);
                }
                assert(all_on_path(m, n2));
                lemma_expand(m, frontier, i, k + 1, u2, n2);
            },
        }
    }
}

/// Flooding from `frontier` with `distance` rings since the last marker
/// pair: the markers it drops after `markers`, the seen flags at the end,
/// and the trail pixels it reaches after `painted`, ring by ring. The flood
/// stops at the first empty ring.
pub open spec fn walk(
    m: PathMask,
    frontier: Seq<Point>,
    u: Seq<bool>,
    distance: int,
    markers: Seq<Point>,
    painted: Seq<Point>,
) -> Option<(Seq<Point>, Seq<bool>, Seq<Point>)>
    decreases count_unvisited(u),
{
    match next_ring(m, frontier, u) {
        None => None,
        Some((u2, next)) => if next.len() == 0 {
            Some((markers, u2, painted))
        } else {
            proof {
                lemma_expand(m, frontier, 0, 0, u, Seq::empty());
            }
            if distance + 1 >= MIN_MARK_DISTANCE {
                walk(m, next, u2, 0, markers.push(next[0]).push(next.last()), painted + next)
            } else {
                walk(m, next, u2, distance + 1, markers, painted + next)
            }
        },
    }
}

/// Scanning the picture column by column, each column top to bottom,
/// resuming at pixel `(x, y)`: every trail pixel not yet seen starts a flood
/// whose markers are appended to `markers` and whose reached pixels are
/// appended to `painted`.
pub open spec fn scan_from(
    m: PathMask,
    x: int,
    y: int,
    u: Seq<bool>,
    markers: Seq<Point>,
    painted: Seq<Point>,
) -> Option<(Seq<Point>, Seq<Point>)>
    decreases m.width - x, m.height - y,
{
    if x < 0 || x >= m.width {
        Some((markers, painted))
    } else if y < 0 || y >= m.height {
        scan_from(m, x + 1, 0, u, markers, painted)
    } else if !m.is_path(x, y) {
        scan_from(m, x, y + 1, u, markers, painted)
    } else if x * m.width + y > u32::MAX || x * m.width + y >= u.len() {
        None
    } else if !u[x * m.width + y] {
        scan_from(m, x, y + 1, u, markers, painted)
    } else {
        match walk(m, seq![Point(x as i32, y as i32)], u, 0, Seq::empty(), painted) {
            None => None,
            Some((found, u2, p2)) => scan_from(m, x, y + 1, u2, markers + found, p2),
        }
    }
}

/// Every slot unseen, for a `width` by `width` table.
pub open spec fn fresh_table(m: PathMask) -> Seq<bool> {
    Seq::new((m.width * m.width) as nat, |i: int| true)
}

/// The marker points of the whole picture in the order they are dropped,
/// and the trail pixels the floods reach, in the order they are reached.
/// `None` when the table size `width * width` leaves `u32`.
pub open spec fn trace_spec(m: PathMask) -> Option<(Seq<Point>, Seq<Point>)> {
    if m.width * m.width > u32::MAX {
        None
    } else {
        scan_from(m, 0, 0, fresh_table(m), Seq::empty(), Seq::empty())
    }
}

} // verus!

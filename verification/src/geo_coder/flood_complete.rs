//! On a picture no taller than it is wide, every pixel has a slot of its own
//! in the seen-pixel table. There tracing ends without fault when the table
//! fits `i32` slots, and it paints every trail pixel of the picture.

use vstd::prelude::*;
use super::{PathMask, Point};
use super::flood::{
    count_unvisited, expand_from, fresh_table, lemma_expand, neighbor, next_ring, scan_from, trace_spec, visit,
    visit_slot, walk,
};
use super::flood_laws::{lemma_walk, lemma_walk_surrounds, looked_at};

verus! {

/// A pixel of a picture no taller than it is wide has a slot in the table.
proof fn lemma_slot_bound(m: PathMask, q: Point)
    requires
        m.height <= m.width,
        m.contains(q.0 as int, q.1 as int),
    ensures
        0 <= visit_slot(m, q) < m.width * m.width,
{
    let (x, y, w) = (q.0 as int, q.1 as int, m.width as int);
    assert(0 <= x * w + y < w * w) by (nonlinear_arith)
        requires
            0 <= x < w,
            0 <= y < w,
    ;
}

/// On a picture no taller than it is wide, two pixels never share a slot.
proof fn lemma_slot_injective(m: PathMask, p: Point, q: Point)
    requires
        m.height <= m.width,
        m.contains(p.0 as int, p.1 as int),
        m.contains(q.0 as int, q.1 as int),
        visit_slot(m, p) == visit_slot(m, q),
    ensures
        p == q,
{
    let (px, py, qx, qy, w) = (p.0 as int, p.1 as int, q.0 as int, q.1 as int, m.width as int);
    assert(px == qx && py == qy) by (nonlinear_arith)
        requires
            0 <= px < w,
            0 <= qx < w,
            0 <= py < w,
            0 <= qy < w,
            px * w + py == qx * w + qy,
    {
        if px < qx {
            assert(px * w + w <= qx * w);
        } else if qx < px {
            assert(qx * w + w <= px * w);
        }
    }
}

/// The conditions under which no slot arithmetic fails: the picture is no
/// taller than it is wide, its table of `width * width` slots has at most
/// 2^31 of them, and `u` is such a table.
pub open spec fn slots_fit(m: PathMask, u: Seq<bool>) -> bool {
    &&& m.height <= m.width
    &&& m.width * m.width <= 0x8000_0000
    &&& u.len() == m.width * m.width
}

/// Growing a ring never fails while every slot fits.
proof fn lemma_expand_some(
    m: PathMask,
    frontier: Seq<Point>,
    i: int,
    k: int,
    u: Seq<bool>,
    next: Seq<Point>,
)
    requires
        slots_fit(m, u),
    ensures
        expand_from(m, frontier, i, k, u, next) is Some,
    decreases frontier.len() - i, 9 - k,
{
    if i < 0 || i >= frontier.len() {
    } else if k >= 9 {
        lemma_expand_some(m, frontier, i + 1, 0, u, next);
    } else {
        let q = neighbor(frontier[i], k);
        if m.contains(q.0 as int, q.1 as int) {
            lemma_slot_bound(m, q);
        }
        match visit(m, q, u, next) {
            None => {},
            Some((u2, n2)) => {
                lemma_expand_some(m, frontier, i, k + 1, u2, n2);
            },
        }
    }
}

/// A flood never fails while every slot fits.
proof fn lemma_walk_some(
    m: PathMask,
    frontier: Seq<Point>,
    u: Seq<bool>,
    distance: int,
    markers: Seq<Point>,
    painted: Seq<Point>,
)
    requires
        slots_fit(m, u),
    ensures
        walk(m, frontier, u, distance, markers, painted) is Some,
    decreases count_unvisited(u),
{
    lemma_expand_some(m, frontier, 0, 0, u, Seq::empty());
    lemma_expand(m, frontier, 0, 0, u, Seq::empty());
    match next_ring(m, frontier, u) {
        None => {},
        Some((u2, next)) => {
            if next.len() > 0 {
                let p2 = painted + next;
                if distance + 1 >= super::MIN_MARK_DISTANCE {
                    lemma_walk_some(m, next, u2, 0, markers.push(next[0]).push(next.last()), p2);
                } else {
                    lemma_walk_some(m, next, u2, distance + 1, markers, p2);
                }
            }
        },
    }
}

/// A scan never fails while every slot fits.
proof fn lemma_scan_some(
    m: PathMask,
    x: int,
    y: int,
    u: Seq<bool>,
    markers: Seq<Point>,
    painted: Seq<Point>,
)
    requires
        m.wf(),
        slots_fit(m, u),
    ensures
        scan_from(m, x, y, u, markers, painted) is Some,
    decreases m.width - x, m.height - y,
{
    if x < 0 || x >= m.width {
    } else if y < 0 || y >= m.height {
        lemma_scan_some(m, x + 1, 0, u, markers, painted);
    } else if !m.is_path(x, y) {
        lemma_scan_some(m, x, y + 1, u, markers, painted);
    } else {
        lemma_slot_bound(m, Point(x as i32, y as i32));
        if !u[x * m.width + y] {
            lemma_scan_some(m, x, y + 1, u, markers, painted);
        } else {
            let seed = seq![Point(x as i32, y as i32)];
            lemma_walk_some(m, seed, u, 0, Seq::empty(), painted);
            lemma_walk(m, seed, u, 0, Seq::empty(), painted);
            match walk(m, seed, u, 0, Seq::empty(), painted) {
                None => {},
                Some((found, u2, p2)) => {
                    lemma_scan_some(m, x, y + 1, u2, markers + found, p2);
                },
            }
        }
    }
}

/// Tracing never fails on a picture no taller than it is wide whose table
/// of `width * width` slots has at most 2^31 of them.
pub proof fn lemma_trace_succeeds(m: PathMask)
    requires
        m.wf(),
        m.height <= m.width,
        m.width * m.width <= 0x8000_0000,
    ensures
        trace_spec(m) is Some,
{
    lemma_scan_some(m, 0, 0, fresh_table(m), Seq::empty(), Seq::empty());
}

/// Every trail pixel whose slot is marked seen is among `painted`.
pub open spec fn seen_painted(m: PathMask, u: Seq<bool>, painted: Seq<Point>) -> bool {
    forall|q: Point|
        m.contains(q.0 as int, q.1 as int) && m.is_path(q.0 as int, q.1 as int) && !u[#[trigger] visit_slot(m, q)]
            ==> painted.contains(q)
}

/// Growing a ring on a picture no taller than it is wide keeps every seen
/// trail pixel among the painted ones and the ring, and the ring only grows.
proof fn lemma_expand_seen_painted(
    m: PathMask,
    frontier: Seq<Point>,
    i: int,
    k: int,
    u: Seq<bool>,
    painted: Seq<Point>,
    next: Seq<Point>,
)
    requires
        m.height <= m.width,
        u.len() == m.width * m.width,
        seen_painted(m, u, painted + next),
    ensures
        expand_from(m, frontier, i, k, u, next) matches Some((u2, n2)) ==> {
            &&& seen_painted(m, u2, painted + n2)
            &&& u2.len() == u.len()
            &&& forall|q: Point| next.contains(q) ==> n2.contains(q)
        },
    decreases frontier.len() - i, 9 - k,
{
    if i < 0 || i >= frontier.len() {
    } else if k >= 9 {
        lemma_expand_seen_painted(m, frontier, i + 1, 0, u, painted, next);
    } else {
        let q0 = neighbor(frontier[i], k);
        match visit(m, q0, u, next) {
            None => {},
            Some((u2, n2)) => {
                if m.contains(q0.0 as int, q0.1 as int) && u[visit_slot(m, q0)] {
                    let s0 = visit_slot(m, q0);
                    assert forall|q: Point|
                        m.contains(q.0 as int, q.1 as int) && m.is_path(q.0 as int, q.1 as int)
                            && !u2[#[trigger] visit_slot(m, q)] implies (painted + n2).contains(q) by {
                        lemma_slot_bound(m, q);
                        if visit_slot(m, q) == s0 {
                            lemma_slot_injective(m, q, q0);
                            assert(n2 == next.push(q0));
                            assert((painted + n2)[(painted.len() + next.len()) as int] == q0);
                        } else {
                            assert(u2[visit_slot(m, q)] == u[visit_slot(m, q)]);
                            assert((painted + next).contains(q));
                            let j = choose|j: int| 0 <= j < (painted + next).len() && (painted + next)[j] == q;
                            assert((painted + n2)[j] == q);
                        }
                    }
                    assert forall|q: Point| next.contains(q) implies n2.contains(q) by {
                        let j = choose|j: int| 0 <= j < next.len() && next[j] == q;
                        assert(n2[j] == q);
                    }
                }
                lemma_expand_seen_painted(m, frontier, i, k + 1, u2, painted, n2);
            },
        }
    }
}

/// A flood on a picture no taller than it is wide keeps every seen trail
/// pixel painted, and what was painted stays painted.
proof fn lemma_walk_seen_painted(
    m: PathMask,
    frontier: Seq<Point>,
    u: Seq<bool>,
    distance: int,
    markers: Seq<Point>,
    painted: Seq<Point>,
)
    requires
        m.height <= m.width,
        u.len() == m.width * m.width,
        seen_painted(m, u, painted),
    ensures
        walk(m, frontier, u, distance, markers, painted) matches Some((found, u2, p2)) ==> {
            &&& seen_painted(m, u2, p2)
            &&& u2.len() == u.len()
            &&& forall|q: Point| painted.contains(q) ==> p2.contains(q)
        },
    decreases count_unvisited(u),
{
    assert(painted + Seq::<Point>::empty() =~= painted);
    lemma_expand_seen_painted(m, frontier, 0, 0, u, painted, Seq::empty());
    lemma_expand(m, frontier, 0, 0, u, Seq::empty());
    match next_ring(m, frontier, u) {
        None => {},
        Some((u2, next)) => {
            let p2 = painted + next;
            assert forall|q: Point| painted.contains(q) implies p2.contains(q) by {
                let j = choose|j: int| 0 <= j < painted.len() && painted[j] == q;
                assert(p2[j] == q);
            }
            if next.len() > 0 {
                if distance + 1 >= super::MIN_MARK_DISTANCE {
                    lemma_walk_seen_painted(m, next, u2, 0, markers.push(next[0]).push(next.last()), p2);
                } else {
                    lemma_walk_seen_painted(m, next, u2, distance + 1, markers, p2);
                }
            } else {
                assert(p2 =~= painted);
            }
        },
    }
}

/// Whether pixel `q` comes before `(x, y)` in the scan: an earlier column,
/// or higher up in the same column.
pub open spec fn scanned_before(q: Point, x: int, y: int) -> bool {
    q.0 < x || (q.0 == x && q.1 < y)
}

/// A scan on a picture no taller than it is wide paints every trail pixel it
/// has yet to pass, given that it painted every one it passed.
proof fn lemma_scan_paints(
    m: PathMask,
    x: int,
    y: int,
    u: Seq<bool>,
    markers: Seq<Point>,
    painted: Seq<Point>,
)
    requires
        m.wf(),
        m.height <= m.width,
        u.len() == m.width * m.width,
        0 <= x,
        0 <= y,
        seen_painted(m, u, painted),
        forall|q: Point|
            m.contains(q.0 as int, q.1 as int) && m.is_path(q.0 as int, q.1 as int)
                && #[trigger] scanned_before(q, x, y) ==> painted.contains(q),
    ensures
        scan_from(m, x, y, u, markers, painted) matches Some((found, p2)) ==> forall|q: Point|
            m.contains(q.0 as int, q.1 as int) && m.is_path(q.0 as int, q.1 as int) ==> #[trigger] p2.contains(q),
    decreases m.width - x, m.height - y,
{
    if x >= m.width {
        assert forall|q: Point| m.contains(q.0 as int, q.1 as int) && m.is_path(q.0 as int, q.1 as int)
            implies #[trigger] painted.contains(q) by {
            assert(scanned_before(q, x, y));
        }
    } else if y >= m.height {
        assert forall|q: Point| m.contains(q.0 as int, q.1 as int) && m.is_path(q.0 as int, q.1 as int)
            && #[trigger] scanned_before(q, x + 1, 0) implies painted.contains(q) by {
            assert(scanned_before(q, x, y));
        }
        lemma_scan_paints(m, x + 1, 0, u, markers, painted);
    } else {
        let p = Point(x as i32, y as i32);
        assert(p.0 as int == x && p.1 as int == y);
        lemma_slot_bound(m, p);
        if !m.is_path(x, y) {
            assert forall|q: Point| m.contains(q.0 as int, q.1 as int) && m.is_path(q.0 as int, q.1 as int)
                && #[trigger] scanned_before(q, x, y + 1) implies painted.contains(q) by {
                if !scanned_before(q, x, y) {
                    assert(q == p);
                }
            }
            lemma_scan_paints(m, x, y + 1, u, markers, painted);
        } else if x * m.width + y > u32::MAX || x * m.width + y >= u.len() {
        } else if !u[x * m.width + y] {
            assert(!u[visit_slot(m, p)]);
            assert(painted.contains(p));
            assert forall|q: Point| m.contains(q.0 as int, q.1 as int) && m.is_path(q.0 as int, q.1 as int)
                && #[trigger] scanned_before(q, x, y + 1) implies painted.contains(q) by {
                if !scanned_before(q, x, y) {
                    assert(q == p);
                }
            }
            lemma_scan_paints(m, x, y + 1, u, markers, painted);
        } else {
            let seed = seq![p];
            lemma_walk_seen_painted(m, seed, u, 0, Seq::empty(), painted);
            assert(seed.contains(p)) by {
                assert(seed[0] == p);
            }
            lemma_walk_surrounds(m, p, seed, u, 0, Seq::empty(), painted, painted.len() as int);
            match walk(m, seed, u, 0, Seq::empty(), painted) {
                None => {},
                Some((found, u2, p2)) => {
                    assert(neighbor(p, 4) == p);
                    assert(looked_at(m, neighbor(p, 4), u2));
                    assert(!u2[visit_slot(m, p)]);
                    assert(p2.contains(p));
                    assert forall|q: Point| m.contains(q.0 as int, q.1 as int) && m.is_path(q.0 as int, q.1 as int)
                        && #[trigger] scanned_before(q, x, y + 1) implies p2.contains(q) by {
                        if !scanned_before(q, x, y) {
                            assert(q == p);
                        } else {
                            assert(painted.contains(q));
                        }
                    }
                    lemma_scan_paints(m, x, y + 1, u2, markers + found, p2);
                },
            }
        }
    }
}

/// On a picture no taller than it is wide, a trace that succeeds paints
/// every trail pixel of the picture.
pub proof fn lemma_trace_paints_every_trail_pixel(m: PathMask)
    requires
        m.wf(),
        m.height <= m.width,
    ensures
        trace_spec(m) matches Some((markers, painted)) ==> forall|q: Point|
            m.contains(q.0 as int, q.1 as int) && m.is_path(q.0 as int, q.1 as int) ==> #[trigger] painted.contains(q),
{
    if m.width * m.width <= u32::MAX {
        let u = fresh_table(m);
        assert forall|q: Point|
            m.contains(q.0 as int, q.1 as int) && m.is_path(q.0 as int, q.1 as int) && !u[#[trigger] visit_slot(m, q)]
                implies Seq::<Point>::empty().contains(q) by {
            lemma_slot_bound(m, q);
        }
        lemma_scan_paints(m, 0, 0, u, Seq::empty(), Seq::empty());
    }
}

} // verus!

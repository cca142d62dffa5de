//! What every flood and scan keeps: markers come in pairs on painted trail
//! pixels, each pixel is painted at most once, the painted pixels grow as one
//! connected piece from the seed, and a flood stops only once everything
//! around what it painted has been looked at.

use vstd::prelude::*;
use super::{PathMask, Point, MIN_MARK_DISTANCE};
use super::flood::{
    all_on_path, count_unvisited, expand_from, lemma_expand, neighbor, next_ring, scan_from, visit,
    visit_slot, walk,
};

verus! {

/// A flood drops its markers in pairs, each on a trail pixel of the picture;
/// every pixel it paints is a trail pixel; it keeps the table's length and
/// never unmarks a slot.
pub proof fn lemma_walk(
    m: PathMask,
    frontier: Seq<Point>,
    u: Seq<bool>,
    distance: int,
    markers: Seq<Point>,
    painted: Seq<Point>,
)
    requires
        all_on_path(m, markers),
        markers.len() % 2 == 0,
    ensures
        walk(m, frontier, u, distance, markers, painted) matches Some((found, u2, p2)) ==> {
            &&& all_on_path(m, found)
            &&& found.len() % 2 == 0
            &&& all_on_path(m, painted) ==> all_on_path(m, p2)
            &&& u2.len() == u.len()
            &&& forall|j: int| 0 <= j < u.len() && #[trigger] u2[j] ==> u[j]
        },
    decreases count_unvisited(u),
{
    lemma_expand(m, frontier, 0, 0, u, Seq::empty());
    match next_ring(m, frontier, u) {
        None => {},
        Some((u2, next)) => {
            if next.len() > 0 {
                let p2 = painted + next;
                if all_on_path(m, painted) {
                    assert forall|j: int| 0 <= j < p2.len() implies m.contains(
                        #[trigger] p2[j].0 as int,
                        p2[j].1 as int,
                    ) && m.is_path(p2[j].0 as int, p2[j].1 as int) by {
                        if j >= painted.len() {
                            assert(p2[j] == next[j - painted.len()]);
                        }
                    }
                }
                if distance + 1 >= MIN_MARK_DISTANCE {
                    let more = markers.push(next[0]).push(next.last());
                    assert(more[markers.len() as int] == next[0]);
                    assert(more[markers.len() + 1int] == next[next.len() - 1]);
                    assert(all_on_path(m, more));
                    lemma_walk(m, next, u2, 0, more, p2);
                } else {
                    lemma_walk(m, next, u2, distance + 1, markers, p2);
                }
            }
        },
    }
}

/// Whether every point of `pts` is among `painted`.
pub open spec fn all_painted(pts: Seq<Point>, painted: Seq<Point>) -> bool {
    forall|j: int| 0 <= j < pts.len() ==> painted.contains(#[trigger] pts[j])
}

/// Adding points keeps the old ones painted.
proof fn lemma_all_painted_grow(pts: Seq<Point>, painted: Seq<Point>, more: Seq<Point>)
    requires
        all_painted(pts, painted),
    ensures
        all_painted(pts, painted + more),
{
    assert forall|j: int| 0 <= j < pts.len() implies (painted + more).contains(#[trigger] pts[j]) by {
        let k = choose|k: int| 0 <= k < painted.len() && painted[k] == pts[j];
        assert((painted + more)[k] == pts[j]);
    }
}

/// A flood only adds to the painted pixels, and every marker it drops is a
/// pixel it painted.
pub proof fn lemma_walk_marks_painted(
    m: PathMask,
    frontier: Seq<Point>,
    u: Seq<bool>,
    distance: int,
    markers: Seq<Point>,
    painted: Seq<Point>,
)
    requires
        all_painted(markers, painted),
    ensures
        walk(m, frontier, u, distance, markers, painted) matches Some((found, u2, p2)) ==> {
            &&& all_painted(found, p2)
            &&& painted.is_prefix_of(p2)
        },
    decreases count_unvisited(u),
{
    lemma_expand(m, frontier, 0, 0, u, Seq::empty());
    match next_ring(m, frontier, u) {
        None => {},
        Some((u2, next)) => {
            if next.len() > 0 {
                let p2 = painted + next;
                lemma_all_painted_grow(markers, painted, next);
                if distance + 1 >= MIN_MARK_DISTANCE {
                    let more = markers.push(next[0]).push(next.last());
                    assert(p2[painted.len() as int] == next[0]);
                    assert(p2[p2.len() - 1] == next.last());
                    assert forall|j: int| 0 <= j < more.len() implies p2.contains(#[trigger] more[j]) by {
                        if j < markers.len() {
                            assert(more[j] == markers[j]);
                        } else if j == markers.len() {
                            assert(more[j] == p2[painted.len() as int]);
                        } else {
                            assert(more[j] == p2[p2.len() - 1]);
                        }
                    }
                    lemma_walk_marks_painted(m, next, u2, 0, more, p2);
                } else {
                    lemma_walk_marks_painted(m, next, u2, distance + 1, markers, p2);
                }
                match walk(m, frontier, u, distance, markers, painted) {
                    None => {},
                    Some((found, u3, p3)) => {
                        assert(painted.is_prefix_of(p2));
                        assert(p2.is_prefix_of(p3));
                        assert forall|i: int| 0 <= i < painted.len() implies painted[i] == p3[i] by {
                            assert(p2[i] == painted[i]);
                        }
                    },
                }
            } else {
                assert(painted.is_prefix_of(painted));
            }
        },
    }
}

/// Every marker of a scan is a pixel it painted.
pub proof fn lemma_scan_marks_painted(
    m: PathMask,
    x: int,
    y: int,
    u: Seq<bool>,
    markers: Seq<Point>,
    painted: Seq<Point>,
)
    requires
        all_painted(markers, painted),
    ensures
        scan_from(m, x, y, u, markers, painted) matches Some((found, p2)) ==> all_painted(found, p2),
    decreases m.width - x, m.height - y,
{
    if x < 0 || x >= m.width {
    } else if y < 0 || y >= m.height {
        lemma_scan_marks_painted(m, x + 1, 0, u, markers, painted);
    } else if !m.is_path(x, y) {
        lemma_scan_marks_painted(m, x, y + 1, u, markers, painted);
    } else if x * m.width + y > u32::MAX || x * m.width + y >= u.len() {
    } else if !u[x * m.width + y] {
        lemma_scan_marks_painted(m, x, y + 1, u, markers, painted);
    } else {
        let seed = seq![Point(x as i32, y as i32)];
        lemma_walk_marks_painted(m, seed, u, 0, Seq::empty(), painted);
        match walk(m, seed, u, 0, Seq::empty(), painted) {
            None => {},
            Some((found, u2, p2)) => {
                let more = markers + found;
                assert forall|j: int| 0 <= j < more.len() implies p2.contains(#[trigger] more[j]) by {
                    if j < markers.len() {
                        assert(more[j] == markers[j]);
                        let k = choose|k: int| 0 <= k < painted.len() && painted[k] == markers[j];
                        assert(p2[k] == painted[k]);
                    } else {
                        assert(more[j] == found[j - markers.len()]);
                    }
                }
                lemma_scan_marks_painted(m, x, y + 1, u2, more, p2);
            },
        }
    }
}

/// Every point lies in the picture and its seen slot is in the table and
/// marked seen.
pub open spec fn slots_seen(m: PathMask, pts: Seq<Point>, u: Seq<bool>) -> bool {
    forall|j: int|
        0 <= j < pts.len() ==> {
            &&& m.contains(#[trigger] pts[j].0 as int, pts[j].1 as int)
            &&& 0 <= visit_slot(m, pts[j]) < u.len()
            &&& !u[visit_slot(m, pts[j])]
        }
}

/// Growing a ring adds to `next` only pixels whose slot was unseen, and
/// marks them seen: the painted pixels and the ring stay free of repeats.
proof fn lemma_expand_distinct(
    m: PathMask,
    frontier: Seq<Point>,
    i: int,
    k: int,
    u: Seq<bool>,
    next: Seq<Point>,
    painted: Seq<Point>,
)
    requires
        slots_seen(m, painted + next, u),
        (painted + next).no_duplicates(),
    ensures
        expand_from(m, frontier, i, k, u, next) matches Some((u2, n2)) ==> slots_seen(
            m,
            painted + n2,
            u2,
        ) && (painted + n2).no_duplicates(),
    decreases frontier.len() - i, 9 - k,
{
    if i < 0 || i >= frontier.len() {
    } else if k >= 9 {
        lemma_expand_distinct(m, frontier, i + 1, 0, u, next, painted);
    } else {
        let q = neighbor(frontier[i], k);
        let slot = visit_slot(m, q);
        let all = painted + next;
        match visit(m, q, u, next) {
            None => {},
            Some((u2, n2)) => {
                if m.contains(q.0 as int, q.1 as int) && slot < u.len() && u[slot] {
                    assert(0 <= slot) by (nonlinear_arith)
                        requires
                            0 <= q.0,
                            0 <= q.1,
                            0 <= m.width,
                            slot == q.0 * m.width + q.1,
                    ;
                    let u3 = u.update(slot, false);
                    assert(slots_seen(m, all, u3));
                    if m.is_path(q.0 as int, q.1 as int) {
                        let grown = painted + n2;
                        assert(grown =~= all.push(q));
                        assert forall|j: int| 0 <= j < all.len() implies #[trigger] all[j] != q by {
                            if all[j] == q {
                                assert(!u[visit_slot(m, all[j])]);
                            }
                        }
                        assert(grown.no_duplicates()) by {
                            assert forall|a: int, b: int|
                                0 <= a < grown.len() && 0 <= b < grown.len() && a != b implies grown[a]
                                != grown[b] by {
                                if a < all.len() && b < all.len() {
                                } else if a < all.len() {
                                    assert(grown[b] == q);
                                    assert(all[a] != q);
                                } else {
                                    assert(grown[a] == q);
                                    assert(all[b] != q);
                                }
                            }
                        }
                        assert(slots_seen(m, grown, u3));
                    } else {
                        assert(painted + n2 == all);
                    }
                } else {
                    assert(u2 == u && n2 == next);
                }
                lemma_expand_distinct(m, frontier, i, k + 1, u2, n2, painted);
            },
        }
    }
}

/// A flood paints each pixel at most once, and every painted pixel's slot is
/// marked seen.
pub proof fn lemma_walk_distinct(
    m: PathMask,
    frontier: Seq<Point>,
    u: Seq<bool>,
    distance: int,
    markers: Seq<Point>,
    painted: Seq<Point>,
)
    requires
        slots_seen(m, painted, u),
        painted.no_duplicates(),
    ensures
        walk(m, frontier, u, distance, markers, painted) matches Some((found, u2, p2)) ==> slots_seen(
            m,
            p2,
            u2,
        ) && p2.no_duplicates(),
    decreases count_unvisited(u),
{
    lemma_expand(m, frontier, 0, 0, u, Seq::empty());
    assert(painted + Seq::<Point>::empty() =~= painted);
    lemma_expand_distinct(m, frontier, 0, 0, u, Seq::empty(), painted);
    match next_ring(m, frontier, u) {
        None => {},
        Some((u2, next)) => {
            if next.len() > 0 {
                if distance + 1 >= MIN_MARK_DISTANCE {
                    let more = markers.push(next[0]).push(next.last());
                    lemma_walk_distinct(m, next, u2, 0, more, painted + next);
                } else {
                    lemma_walk_distinct(m, next, u2, distance + 1, markers, painted + next);
                }
            }
        },
    }
}

/// A scan paints each pixel at most once.
pub proof fn lemma_scan_distinct(
    m: PathMask,
    x: int,
    y: int,
    u: Seq<bool>,
    markers: Seq<Point>,
    painted: Seq<Point>,
)
    requires
        slots_seen(m, painted, u),
        painted.no_duplicates(),
    ensures
        scan_from(m, x, y, u, markers, painted) matches Some((found, p2)) ==> p2.no_duplicates(),
    decreases m.width - x, m.height - y,
{
    if x < 0 || x >= m.width {
    } else if y < 0 || y >= m.height {
        lemma_scan_distinct(m, x + 1, 0, u, markers, painted);
    } else if !m.is_path(x, y) {
        lemma_scan_distinct(m, x, y + 1, u, markers, painted);
    } else if x * m.width + y > u32::MAX || x * m.width + y >= u.len() {
    } else if !u[x * m.width + y] {
        lemma_scan_distinct(m, x, y + 1, u, markers, painted);
    } else {
        let seed = seq![Point(x as i32, y as i32)];
        lemma_walk_distinct(m, seed, u, 0, Seq::empty(), painted);
        match walk(m, seed, u, 0, Seq::empty(), painted) {
            None => {},
            Some((found, u2, p2)) => {
                lemma_scan_distinct(m, x, y + 1, u2, markers + found, p2);
            },
        }
    }
}

/// Whether two pixels touch: they differ by at most one in each coordinate.
pub open spec fn adjacent(p: Point, q: Point) -> bool {
    -1 <= p.0 - q.0 <= 1 && -1 <= p.1 - q.1 <= 1
}

/// Whether `q` touches some point of `pts`.
pub open spec fn touches(pts: Seq<Point>, q: Point) -> bool {
    exists|f: int| 0 <= f < pts.len() && adjacent(q, #[trigger] pts[f])
}

/// Whether every pixel painted from position `from` on touches `seed` or a
/// pixel painted before it, from `from` on: the pixels form one connected
/// piece grown from the seed.
pub open spec fn grown_from(seed: Point, painted: Seq<Point>, from: int) -> bool {
    forall|j: int|
        from <= j < painted.len() ==> adjacent(#[trigger] painted[j], seed) || exists|i: int|
            from <= i < j && adjacent(painted[j], #[trigger] painted[i])
}

/// Every pixel a ring gains touches a pixel of the ring before it.
proof fn lemma_expand_touches(
    m: PathMask,
    frontier: Seq<Point>,
    i: int,
    k: int,
    u: Seq<bool>,
    next: Seq<Point>,
)
    requires
        0 <= k,
        forall|f: int|
            0 <= f < frontier.len() ==> m.contains(#[trigger] frontier[f].0 as int, frontier[f].1 as int),
        m.width <= i32::MAX,
        m.height <= i32::MAX,
        forall|t: int| 0 <= t < next.len() ==> touches(frontier, #[trigger] next[t]),
    ensures
        expand_from(m, frontier, i, k, u, next) matches Some((u2, n2)) ==> forall|t: int|
            0 <= t < n2.len() ==> touches(frontier, #[trigger] n2[t]),
    decreases frontier.len() - i, 9 - k,
{
    if i < 0 || i >= frontier.len() {
    } else if k >= 9 {
        lemma_expand_touches(m, frontier, i + 1, 0, u, next);
    } else {
        let p = frontier[i];
        let q = neighbor(p, k);
        assert(m.contains(p.0 as int, p.1 as int));
        assert(0 <= k < 9 ==> -1 <= k / 3 - 1 <= 1 && -1 <= k % 3 - 1 <= 1);
        assert(adjacent(q, p));
        match visit(m, q, u, next) {
            None => {},
            Some((u2, n2)) => {
                assert forall|t: int| 0 <= t < n2.len() implies touches(frontier, #[trigger] n2[t]) by {
                    if t < next.len() {
                        assert(n2[t] == next[t]);
                    } else {
                        assert(n2[t] == q);
                        assert(adjacent(n2[t], frontier[i]));
                    }
                }
                lemma_expand_touches(m, frontier, i, k + 1, u2, n2);
            },
        }
    }
}

/// A flood grows its painted pixels as one connected piece from the seed.
pub proof fn lemma_walk_grown(
    m: PathMask,
    seed: Point,
    frontier: Seq<Point>,
    u: Seq<bool>,
    distance: int,
    markers: Seq<Point>,
    painted: Seq<Point>,
    from: int,
)
    requires
        m.width <= i32::MAX,
        m.height <= i32::MAX,
        0 <= from <= painted.len(),
        grown_from(seed, painted, from),
        forall|f: int|
            0 <= f < frontier.len() ==> m.contains(#[trigger] frontier[f].0 as int, frontier[f].1 as int),
        forall|f: int|
            0 <= f < frontier.len() ==> #[trigger] frontier[f] == seed || exists|i: int|
                from <= i < painted.len() && painted[i] == frontier[f],
    ensures
        walk(m, frontier, u, distance, markers, painted) matches Some((found, u2, p2)) ==> grown_from(
            seed,
            p2,
            from,
        ),
    decreases count_unvisited(u),
{
    lemma_expand(m, frontier, 0, 0, u, Seq::empty());
    lemma_expand_touches(m, frontier, 0, 0, u, Seq::empty());
    match next_ring(m, frontier, u) {
        None => {},
        Some((u2, next)) => {
            if next.len() > 0 {
                let p2 = painted + next;
                assert forall|j: int| from <= j < p2.len() implies adjacent(#[trigger] p2[j], seed)
                    || exists|i: int| from <= i < j && adjacent(p2[j], #[trigger] p2[i]) by {
                    if j < painted.len() {
                        assert(p2[j] == painted[j]);
                        if !adjacent(painted[j], seed) {
                            let i = choose|i: int| from <= i < j && adjacent(painted[j], #[trigger] painted[i]);
                            assert(p2[i] == painted[i]);
                        }
                    } else {
                        let q = next[j - painted.len()];
                        assert(p2[j] == q);
                        assert(touches(frontier, q));
                        let f = choose|f: int| 0 <= f < frontier.len() && adjacent(q, #[trigger] frontier[f]);
                        if frontier[f] != seed {
                            let i = choose|i: int| from <= i < painted.len() && painted[i] == frontier[f];
                            assert(p2[i] == painted[i]);
                            assert(adjacent(p2[j], p2[i]));
                        }
                    }
                }
                assert forall|f: int| 0 <= f < next.len() implies #[trigger] next[f] == seed || exists|i: int|
                    from <= i < p2.len() && p2[i] == next[f] by {
                    assert(p2[painted.len() + f] == next[f]);
                }
                assert forall|f: int| 0 <= f < next.len() implies m.contains(
                    #[trigger] next[f].0 as int,
                    next[f].1 as int,
                ) by {}
                if distance + 1 >= MIN_MARK_DISTANCE {
                    let more = markers.push(next[0]).push(next.last());
                    lemma_walk_grown(m, seed, next, u2, 0, more, p2, from);
                } else {
                    lemma_walk_grown(m, seed, next, u2, distance + 1, markers, p2, from);
                }
            }
        },
    }
}

/// Whether pixel `q` counts as looked at in `u`: it lies outside the
/// picture, or its slot is in the table and marked seen.
pub open spec fn looked_at(m: PathMask, q: Point, u: Seq<bool>) -> bool {
    m.contains(q.0 as int, q.1 as int) ==> 0 <= visit_slot(m, q) < u.len() && !u[visit_slot(m, q)]
}

/// Whether every neighbour of `p` has been looked at in `u`.
pub open spec fn surrounded(m: PathMask, p: Point, u: Seq<bool>) -> bool {
    forall|k: int| 0 <= k < 9 ==> looked_at(m, #[trigger] neighbor(p, k), u)
}

/// Marking slots seen keeps looked-at pixels looked at.
pub proof fn lemma_looked_at_stays(m: PathMask, q: Point, u: Seq<bool>, u2: Seq<bool>)
    requires
        looked_at(m, q, u),
        u2.len() == u.len(),
        forall|j: int| 0 <= j < u.len() && #[trigger] u2[j] ==> u[j],
    ensures
        looked_at(m, q, u2),
{
    if m.contains(q.0 as int, q.1 as int) {
        let s = visit_slot(m, q);
        assert(u2[s] ==> u[s]);
    }
}

/// Growing a ring looks at every neighbour of every pixel of the frontier.
proof fn lemma_expand_surrounds(
    m: PathMask,
    frontier: Seq<Point>,
    i: int,
    k: int,
    u: Seq<bool>,
    next: Seq<Point>,
)
    requires
        0 <= i,
        0 <= k <= 9,
        forall|j: int, kk: int|
            0 <= j < frontier.len() && 0 <= kk < 9 && (j < i || (j == i && kk < k)) ==> looked_at(
                m,
                #[trigger] neighbor(frontier[j], kk),
                u,
            ),
    ensures
        expand_from(m, frontier, i, k, u, next) matches Some((u2, n2)) ==> forall|j: int|
            0 <= j < frontier.len() ==> surrounded(m, #[trigger] frontier[j], u2),
    decreases frontier.len() - i, 9 - k,
{
    if i >= frontier.len() {
        assert forall|j: int| 0 <= j < frontier.len() implies surrounded(m, #[trigger] frontier[j], u) by {
            assert forall|kk: int| 0 <= kk < 9 implies looked_at(m, #[trigger] neighbor(frontier[j], kk), u) by {
                assert(j < i);
            }
        }
    } else if k >= 9 {
        lemma_expand_surrounds(m, frontier, i + 1, 0, u, next);
    } else {
        let q = neighbor(frontier[i], k);
        let slot = visit_slot(m, q);
        match visit(m, q, u, next) {
            None => {},
            Some((u2, n2)) => {
                assert(u2.len() == u.len());
                assert forall|s: int| 0 <= s < u.len() && #[trigger] u2[s] implies u[s] by {}
                assert(looked_at(m, q, u2));
                assert forall|j: int, kk: int|
                    0 <= j < frontier.len() && 0 <= kk < 9 && (j < i || (j == i && kk < k + 1))
                        implies looked_at(m, #[trigger] neighbor(frontier[j], kk), u2) by {
                    if j == i && kk == k {
                    } else {
                        lemma_looked_at_stays(m, neighbor(frontier[j], kk), u, u2);
                    }
                }
                lemma_expand_surrounds(m, frontier, i, k + 1, u2, n2);
            },
        }
    }
}

/// A flood stops only once every neighbour of the seed and of every pixel
/// it painted has been looked at: no unseen trail pixel touches what it
/// traced.
pub proof fn lemma_walk_surrounds(
    m: PathMask,
    seed: Point,
    frontier: Seq<Point>,
    u: Seq<bool>,
    distance: int,
    markers: Seq<Point>,
    painted: Seq<Point>,
    from: int,
)
    requires
        0 <= from <= painted.len(),
        frontier.contains(seed) || surrounded(m, seed, u),
        forall|j: int|
            from <= j < painted.len() ==> frontier.contains(#[trigger] painted[j]) || surrounded(
                m,
                painted[j],
                u,
            ),
    ensures
        walk(m, frontier, u, distance, markers, painted) matches Some((found, u2, p2)) ==> {
            &&& surrounded(m, seed, u2)
            &&& forall|j: int| from <= j < p2.len() ==> surrounded(m, #[trigger] p2[j], u2)
        },
    decreases count_unvisited(u),
{
    lemma_expand(m, frontier, 0, 0, u, Seq::empty());
    lemma_expand_surrounds(m, frontier, 0, 0, u, Seq::empty());
    match next_ring(m, frontier, u) {
        None => {},
        Some((u2, next)) => {
            assert forall|p: Point| frontier.contains(p) || surrounded(m, p, u) implies surrounded(
                m,
                p,
                u2,
            ) by {
                if frontier.contains(p) {
                    let f = choose|f: int| 0 <= f < frontier.len() && frontier[f] == p;
                    assert(surrounded(m, frontier[f], u2));
                } else {
                    assert forall|kk: int| 0 <= kk < 9 implies looked_at(m, #[trigger] neighbor(p, kk), u2) by {
                        lemma_looked_at_stays(m, neighbor(p, kk), u, u2);
                    }
                }
            }
            let p2 = painted + next;
            if next.len() == 0 {
                assert(surrounded(m, seed, u2));
                assert forall|j: int| from <= j < painted.len() implies surrounded(m, #[trigger] painted[j], u2) by {
                    assert(frontier.contains(painted[j]) || surrounded(m, painted[j], u));
                }
            } else {
                assert(next.contains(seed) || surrounded(m, seed, u2));
                assert forall|j: int| from <= j < p2.len() implies next.contains(#[trigger] p2[j]) || surrounded(
                    m,
                    p2[j],
                    u2,
                ) by {
                    if j < painted.len() {
                        assert(p2[j] == painted[j]);
                        assert(frontier.contains(painted[j]) || surrounded(m, painted[j], u));
                    } else {
                        assert(p2[j] == next[j - painted.len()]);
                    }
                }
                if distance + 1 >= MIN_MARK_DISTANCE {
                    let more = markers.push(next[0]).push(next.last());
                    lemma_walk_surrounds(m, seed, next, u2, 0, more, p2, from);
                } else {
                    lemma_walk_surrounds(m, seed, next, u2, distance + 1, markers, p2, from);
                }
            }
        },
    }
}

/// A scan drops its markers in pairs, each on a trail pixel of the picture,
/// and paints only trail pixels.
pub proof fn lemma_scan(
    m: PathMask,
    x: int,
    y: int,
    u: Seq<bool>,
    markers: Seq<Point>,
    painted: Seq<Point>,
)
    requires
        all_on_path(m, markers),
        markers.len() % 2 == 0,
        all_on_path(m, painted),
    ensures
        scan_from(m, x, y, u, markers, painted) matches Some((found, p2)) ==> all_on_path(m, found)
            && found.len() % 2 == 0 && all_on_path(m, p2),
    decreases m.width - x, m.height - y,
{
    if x < 0 || x >= m.width {
    } else if y < 0 || y >= m.height {
        lemma_scan(m, x + 1, 0, u, markers, painted);
    } else if !m.is_path(x, y) {
        lemma_scan(m, x, y + 1, u, markers, painted);
    } else if x * m.width + y > u32::MAX || x * m.width + y >= u.len() {
    } else if !u[x * m.width + y] {
        lemma_scan(m, x, y + 1, u, markers, painted);
    } else {
        lemma_walk(m, seq![Point(x as i32, y as i32)], u, 0, Seq::empty(), painted);
        match walk(m, seq![Point(x as i32, y as i32)], u, 0, Seq::empty(), painted) {
            None => {},
            Some((found, u2, p2)) => {
                let more = markers + found;
                assert forall|j: int| 0 <= j < more.len() implies m.contains(
                    #[trigger] more[j].0 as int,
                    more[j].1 as int,
                ) && m.is_path(more[j].0 as int, more[j].1 as int) by {
                    if j >= markers.len() {
                        assert(more[j] == found[j - markers.len()]);
                    }
                }
                lemma_scan(m, x, y + 1, u2, more, p2);
            },
        }
    }
}

} // verus!

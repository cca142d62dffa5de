//! Following a drawn trail across a map picture.
//!
//! The picture comes in as a [`PathMask`]: for each pixel, whether its colour
//! is the trail's colour. The tracer scans the picture column by column and,
//! from every trail pixel not yet seen, floods outward one ring of
//! neighbours at a time, dropping a pair of marker points every
//! [`MIN_MARK_DISTANCE`] rings.
//!
//! The seen-pixel flags live in a table of `width * width` slots and pixel
//! `(x, y)` uses slot `x * width + y`. The trace ends with `None` where that
//! arithmetic leaves its integer type (the table size and the slot in the scan
//! are `u32`, the slot in a flood is `i32`) or a slot falls outside the table,
//! which happens only on pictures taller than they are wide.

pub mod flood;
pub mod flood_laws;
pub mod flood_complete;
pub mod flood_rings;
pub mod flood_chain;

use vstd::prelude::*;
use crate::text::{join_with, push_char, split_on, without_spaces, lemma_split_join, lemma_split_nonempty};
use self::flood::{
    all_on_path, count_unvisited, expand_from, fresh_table, lemma_expand, neighbor, next_ring,
    scan_from, trace_spec, walk,
};
use self::flood_complete::{lemma_trace_paints_every_trail_pixel, lemma_trace_succeeds};
use self::flood_chain::{lemma_trace_is_a_chain_of_floods, traced_by_floods};
use self::flood_rings::{flood_rings, lemma_walk_rings, ring_markers};
use self::flood_laws::{
    all_painted, grown_from, lemma_scan, lemma_scan_distinct, lemma_scan_marks_painted,
    lemma_walk, lemma_walk_distinct, lemma_walk_grown, lemma_walk_marks_painted,
    lemma_walk_surrounds, slots_seen, surrounded,
};

verus! {

/// A pixel position: column, then row.
#[derive(Clone, Copy, PartialEq, Eq, Debug, Structural)]
pub struct Point(pub i32, pub i32);

/// Coordinates text that is not two comma-separated fields.
#[derive(Clone, Copy, PartialEq, Eq, Debug, Structural)]
pub struct GeoCoordsError;

/// Rings of flooding between two marker pairs.
pub const MIN_MARK_DISTANCE: i32 = 30;

/// Which pixels of a `width` by `height` picture show the trail colour,
/// row by row: pixel `(x, y)` is `on_path[y * width + x]`.
pub struct PathMask {
    pub width: u32,
    pub height: u32,
    pub on_path: Vec<bool>,
}

impl PathMask {
    /// The mask covers the picture, whose sides fit pixel positions (`i32`).
    pub open spec fn wf(&self) -> bool {
        &&& self.on_path@.len() == self.width as int * self.height as int
        &&& self.width <= i32::MAX
        &&& self.height <= i32::MAX
    }

    /// Whether `(x, y)` lies inside the picture.
    pub open spec fn contains(&self, x: int, y: int) -> bool {
        0 <= x < self.width && 0 <= y < self.height
    }

    /// Whether pixel `(x, y)` shows the trail colour.
    pub open spec fn is_path(&self, x: int, y: int) -> bool {
        self.on_path@[y * self.width + x]
    }

    /// Whether pixel `(x, y)` shows the trail colour.
    pub fn on_path_at(&self, x: u32, y: u32) -> (r: bool)
        requires
            self.wf(),
            x < self.width,
            y < self.height,
        ensures
            r == self.is_path(x as int, y as int),
    {
        let w = self.width as usize;
        let h = self.height as usize;
        let len = self.on_path.len();
        proof {
            let (xi, yi, wi, hi) = (x as int, y as int, w as int, h as int);
            assert(yi * wi + xi < hi * wi) by (nonlinear_arith)
                requires
                    xi < wi,
                    yi < hi,
                    0 <= xi,
                    0 <= yi,
            ;
            assert(0 <= yi * wi <= yi * wi + xi) by (nonlinear_arith)
                requires
                    0 <= xi,
                    0 <= yi,
                    0 <= wi,
            ;
            assert(hi * wi == len);
        }
        self.on_path[(y as usize) * w + (x as usize)]
    }
}

/// Floods the trail from `initial_point`, marking every pixel it looks at as
/// seen in `unvisited` and appending every trail pixel it reaches to
/// `painted`, and returns the marker points it drops; `None` when a pixel's
/// seen slot leaves `i32` or falls outside `unvisited`.
pub fn traverse_path(
    m: &PathMask,
    initial_point: &Point,
    unvisited: &mut Vec<bool>,
    painted: &mut Vec<Point>,
) -> (r: Option<Vec<Point>>)
    requires
        m.wf(),
        m.contains(initial_point.0 as int, initial_point.1 as int),
    ensures
        match walk(*m, seq![*initial_point], old(unvisited)@, 0, Seq::empty(), old(painted)@) {
            None => r is None,
            Some((markers, u2, p2)) => r matches Some(v) && v@ == markers && final(unvisited)@ == u2
                && final(painted)@ == p2,
        },
        r matches Some(v) ==> v@.len() % 2 == 0 && all_on_path(*m, v@),
        r is Some ==> final(unvisited)@.len() == old(unvisited)@.len() && forall|j: int|
            0 <= j < old(unvisited)@.len() && #[trigger] final(unvisited)@[j] ==> old(unvisited)@[j],
        r is Some && all_on_path(*m, old(painted)@) ==> all_on_path(*m, final(painted)@),
        r matches Some(v) ==> all_painted(v@, final(painted)@),
        r is Some ==> grown_from(*initial_point, final(painted)@, old(painted)@.len() as int),
        r is Some && slots_seen(*m, old(painted)@, old(unvisited)@) && old(painted)@.no_duplicates()
            ==> final(painted)@.no_duplicates(),
        r matches Some(v) ==> (flood_rings(*m, seq![*initial_point], old(unvisited)@) matches Some(
            (rings, u2),
        ) && v@ == ring_markers(rings, 0) && final(painted)@ == old(painted)@ + rings.flatten()
            && forall|j: int| 0 <= j < rings.len() ==> #[trigger] rings[j].len() > 0),
        r is Some ==> surrounded(*m, *initial_point, final(unvisited)@) && forall|j: int|
            old(painted)@.len() <= j < final(painted)@.len() ==> surrounded(
                *m,
                #[trigger] final(painted)@[j],
                final(unvisited)@,
            ),
{
    let w = m.width;
    let h = m.height;
    let ghost goal = walk(*m, seq![*initial_point], old(unvisited)@, 0, Seq::empty(), old(painted)@);
    let mut marker_points: Vec<Point> = Vec::new();
    let mut points_to_visit: Vec<Point> = Vec::new();
    points_to_visit.push(*initial_point);
    let mut distance: i32 = 0;
    loop
        invariant
            m.wf(),
            w == m.width,
            h == m.height,
            0 <= distance < MIN_MARK_DISTANCE,
            forall|j: int|
                0 <= j < points_to_visit@.len() ==> m.contains(
                    #[trigger] points_to_visit@[j].0 as int,
                    points_to_visit@[j].1 as int,
                ),
            walk(*m, points_to_visit@, unvisited@, distance as int, marker_points@, painted@)
                == goal,
            goal == walk(*m, seq![*initial_point], old(unvisited)@, 0, Seq::empty(), old(painted)@),
            m.contains(initial_point.0 as int, initial_point.1 as int),
        decreases count_unvisited(unvisited@),
    {
        let ghost u0 = unvisited@;
        let ghost p0 = painted@;
        let ghost ring = next_ring(*m, points_to_visit@, u0);
        let mut next_points_to_visit: Vec<Point> = Vec::new();
        let n = points_to_visit.len();
        let mut i: usize = 0;
        while i < n
            invariant
                m.wf(),
                w == m.width,
                h == m.height,
                n == points_to_visit@.len(),
                i <= n,
                forall|j: int|
                    0 <= j < points_to_visit@.len() ==> m.contains(
                        #[trigger] points_to_visit@[j].0 as int,
                        points_to_visit@[j].1 as int,
                    ),
                expand_from(*m, points_to_visit@, i as int, 0, unvisited@, next_points_to_visit@)
                    == ring,
                painted@ == p0 + next_points_to_visit@,
                goal == walk(
                    *m,
                    seq![*initial_point],
                    old(unvisited)@,
                    0,
                    Seq::empty(),
                    old(painted)@,
                ),
                ring == next_ring(*m, points_to_visit@, u0),
                walk(*m, points_to_visit@, u0, distance as int, marker_points@, p0) == goal,
            decreases n - i,
        {
            let current_point = points_to_visit[i];
            assert(m.contains(current_point.0 as int, current_point.1 as int));
            let mut k: i32 = 0;
            while k < 9
                invariant
                    m.wf(),
                    w == m.width,
                    h == m.height,
                    0 <= k <= 9,
                    i < n,
                    n == points_to_visit@.len(),
                    current_point == points_to_visit@[i as int],
                    m.contains(current_point.0 as int, current_point.1 as int),
                    expand_from(
                        *m,
                        points_to_visit@,
                        i as int,
                        k as int,
                        unvisited@,
                        next_points_to_visit@,
                    ) == ring,
                    painted@ == p0 + next_points_to_visit@,
                    goal == walk(
                        *m,
                        seq![*initial_point],
                        old(unvisited)@,
                        0,
                        Seq::empty(),
                        old(painted)@,
                    ),
                    ring == next_ring(*m, points_to_visit@, u0),
                    walk(*m, points_to_visit@, u0, distance as int, marker_points@, p0) == goal,
                decreases 9 - k,
            {
                let next_point = Point(current_point.0 + (k / 3 - 1), current_point.1 + (k % 3 - 1));
                assert(next_point == neighbor(current_point, k as int));
                if next_point.0 < 0 || next_point.0 >= w as i32 || next_point.1 < 0 || next_point.1
                    >= h as i32 {
                } else {
                    let (px, py) = (next_point.0 as u64, next_point.1 as u64);
                    proof {
                        let (xi, yi, wi) = (px as int, py as int, w as int);
                        assert(xi * wi + yi <= 0x7fff_ffff * 0x7fff_ffff + 0x7fff_ffff)
                            by (nonlinear_arith)
                            requires
                                0 <= xi < wi,
                                0 <= yi <= 0x7fff_ffff,
                                wi <= 0x7fff_ffff,
                        ;
                    }
                    let slot64 = px * (w as u64) + py;
                    if slot64 > 0x7fff_ffff || slot64 >= unvisited.len() as u64 {
                        assert(ring is None);
                        assert(walk(*m, points_to_visit@, u0, distance as int, marker_points@, p0)
                            is None);
                        return None;
                    }
                    let slot = slot64 as usize;
                    if unvisited[slot] {
                        unvisited.set(slot, false);
                        if m.on_path_at(px as u32, py as u32) {
                            next_points_to_visit.push(next_point);
                            painted.push(next_point);
                            assert(painted@ =~= p0 + next_points_to_visit@);
                        }
                    }
                }
                k = k + 1;
            }
            i = i + 1;
        }
        proof {
            lemma_expand(*m, points_to_visit@, 0, 0, u0, Seq::empty());
        }
        assert(ring == Some((unvisited@, next_points_to_visit@)));
        if next_points_to_visit.len() == 0 {
            assert(painted@ =~= p0);
            assert(walk(*m, points_to_visit@, u0, distance as int, marker_points@, p0) == Some(
                (marker_points@, unvisited@, painted@),
            ));
            proof {
                let seed = seq![*initial_point];
                lemma_walk(*m, seed, old(unvisited)@, 0, Seq::empty(), old(painted)@);
                lemma_walk_marks_painted(*m, seed, old(unvisited)@, 0, Seq::empty(), old(painted)@);
                assert(seed[0] == *initial_point);
                lemma_walk_grown(
                    *m,
                    *initial_point,
                    seed,
                    old(unvisited)@,
                    0,
                    Seq::empty(),
                    old(painted)@,
                    old(painted)@.len() as int,
                );
                assert(seed.contains(*initial_point));
                lemma_walk_surrounds(
                    *m,
                    *initial_point,
                    seed,
                    old(unvisited)@,
                    0,
                    Seq::empty(),
                    old(painted)@,
                    old(painted)@.len() as int,
                );
                if slots_seen(*m, old(painted)@, old(unvisited)@) && old(painted)@.no_duplicates() {
                    lemma_walk_distinct(*m, seed, old(unvisited)@, 0, Seq::empty(), old(painted)@);
                }
                lemma_walk_rings(*m, seed, old(unvisited)@, 0, Seq::empty(), old(painted)@);
                if let Some((rings, u2)) = flood_rings(*m, seed, old(unvisited)@) {
                    assert(Seq::<Point>::empty() + ring_markers(rings, 0) =~= ring_markers(rings, 0));
                }
            }
            return Some(marker_points);
        }
        distance = distance + 1;
        if distance >= MIN_MARK_DISTANCE {
            let first_point = next_points_to_visit[0];
            let last_point = next_points_to_visit[next_points_to_visit.len() - 1];
            marker_points.push(first_point);
            marker_points.push(last_point);
            distance = 0;
        }
        points_to_visit = next_points_to_visit;
    }
}

/// What tracing a picture finds: the marker points, in pairs, and the trail
/// pixels the floods reached, which the picture shows painted white.
pub struct Tracing {
    pub markers: Vec<Point>,
    pub painted: Vec<Point>,
}

/// Traces the whole picture: scanning column by column, every trail pixel
/// not yet seen starts a flood. `None` when the `width * width` table size
/// or a seen slot leaves its integer type, or a slot falls outside the table.
pub fn trace_markers(m: &PathMask) -> (r: Option<Tracing>)
    requires
        m.wf(),
    ensures
        match trace_spec(*m) {
            None => r is None,
            Some((markers, painted)) => r matches Some(t) && t.markers@ == markers && t.painted@
                == painted,
        },
        r matches Some(t) ==> t.markers@.len() % 2 == 0 && all_on_path(*m, t.markers@)
            && all_on_path(*m, t.painted@) && all_painted(t.markers@, t.painted@)
            && t.painted@.no_duplicates(),
        r matches Some(t) ==> exists|
            seeds: Seq<Point>,
            tables: Seq<Seq<bool>>,
            rings: Seq<Seq<Seq<Point>>>,
        | #[trigger] traced_by_floods(*m, t.markers@, t.painted@, seeds, tables, rings),
        m.height <= m.width && m.width * m.width <= 0x8000_0000 ==> r is Some,
        m.height <= m.width ==> (r matches Some(t) ==> forall|q: Point|
            m.contains(q.0 as int, q.1 as int) && m.is_path(q.0 as int, q.1 as int)
                ==> #[trigger] t.painted@.contains(q)),
{
    proof {
        if m.height <= m.width {
            lemma_trace_paints_every_trail_pixel(*m);
            if m.width * m.width <= 0x8000_0000 {
                lemma_trace_succeeds(*m);
            }
        }
        lemma_scan_distinct(*m, 0, 0, fresh_table(*m), Seq::empty(), Seq::empty());
        lemma_scan(*m, 0, 0, fresh_table(*m), Seq::empty(), Seq::empty());
        lemma_scan_marks_painted(*m, 0, 0, fresh_table(*m), Seq::empty(), Seq::empty());
    }
    let w = m.width;
    let h = m.height;
    let ghost goal = trace_spec(*m);
    proof {
        let wi = w as int;
        assert(wi * wi <= 0x7fff_ffff * 0x7fff_ffff) by (nonlinear_arith)
            requires
                0 <= wi <= 0x7fff_ffff,
        ;
    }
    let table_size = (w as u64) * (w as u64);
    if table_size > 0xffff_ffff {
        return None;
    }
    let table_len = table_size as usize;
    let mut visited_points: Vec<bool> = Vec::new();
    let mut n: usize = 0;
    while n < table_len
        invariant
            n <= table_len,
            table_len == m.width * m.width,
            visited_points@ =~= Seq::new(n as nat, |i: int| true),
        decreases table_len - n,
    {
        visited_points.push(true);
        n = n + 1;
    }
    assert(visited_points@ =~= fresh_table(*m));
    let mut markers: Vec<Point> = Vec::new();
    let mut painted: Vec<Point> = Vec::new();
    let mut x: u32 = 0;
    while x < w
        invariant
            m.wf(),
            w == m.width,
            h == m.height,
            x <= w,
            goal == trace_spec(*m),
            scan_from(*m, x as int, 0, visited_points@, markers@, painted@) == goal,
            m.height <= m.width && m.width * m.width <= 0x8000_0000 ==> goal is Some,
        decreases w - x,
    {
        let mut y: u32 = 0;
        while y < h
            invariant
                m.wf(),
                w == m.width,
                h == m.height,
                x < w,
                y <= h,
                goal == trace_spec(*m),
                scan_from(*m, x as int, y as int, visited_points@, markers@, painted@) == goal,
                m.height <= m.width && m.width * m.width <= 0x8000_0000 ==> goal is Some,
            decreases h - y,
        {
            if m.on_path_at(x, y) {
                proof {
                    let (xi, yi, wi) = (x as int, y as int, w as int);
                    assert(xi * wi + yi <= 0x7fff_ffff * 0x7fff_ffff + 0x7fff_ffff) by (nonlinear_arith)
                        requires
                            0 <= xi < wi,
                            0 <= yi <= 0x7fff_ffff,
                            wi <= 0x7fff_ffff,
                    ;
                }
                let slot64 = (x as u64) * (w as u64) + (y as u64);
                if slot64 > 0xffff_ffff || slot64 >= visited_points.len() as u64 {
                    return None;
                }
                let slot = slot64 as usize;
                if visited_points[slot] {
                    let start = Point(x as i32, y as i32);
                    match traverse_path(m, &start, &mut visited_points, &mut painted) {
                        None => {
                            return None;
                        },
                        Some(found) => {
                            let mut found = found;
                            markers.append(&mut found);
                        },
                    }
                }
            }
            y = y + 1;
        }
        x = x + 1;
    }
    proof {
        lemma_trace_is_a_chain_of_floods(*m);
    }
    Some(Tracing { markers, painted })
}

/// The pieces of a coordinates text: spaces removed, then split at commas.
pub open spec fn coord_pieces(s: Seq<char>) -> Seq<Seq<char>> {
    split_on(without_spaces(s), ',')
}

/// The two fields of a coordinates text such as `12.3456, 12.3456`: spaces
/// are dropped and the rest must split at commas into exactly two pieces.
pub fn split_coords(s: &str) -> (r: Result<(String, String), GeoCoordsError>)
    ensures
        r is Err <==> coord_pieces(s@).len() != 2,
        r matches Ok((a, b)) ==> a@ == coord_pieces(s@)[0] && b@ == coord_pieces(s@)[1],
        r matches Ok((a, b)) ==> a@.push(',') + b@ == without_spaces(s@) && !a@.contains(',')
            && !b@.contains(','),
{
    let mut first = String::new();
    let mut second = String::new();
    let mut commas: usize = 0;
    for c in it: s.chars()
        invariant
            it.seq() == s@,
            commas <= 2,
            commas < 2 ==> coord_pieces(s@.take(it.index() as int)).len() == commas + 1,
            commas == 2 ==> coord_pieces(s@.take(it.index() as int)).len() >= 3,
            first@ == coord_pieces(s@.take(it.index() as int))[0],
            commas == 0 ==> second@ == Seq::<char>::empty(),
            commas >= 1 ==> second@ == coord_pieces(s@.take(it.index() as int))[1],
    {
        let ghost before = s@.take(it.index() as int);
        let ghost after = s@.take(it.index() + 1);
        assert(after.drop_last() == before);
        assert(after.last() == c);
        proof {
            let t = without_spaces(before);
            lemma_split_nonempty(t, ',');
            if c == ' ' {
                assert(without_spaces(after) == t);
            } else {
                assert(without_spaces(after) == t.push(c));
                assert(t.push(c).drop_last() == t);
                assert(t.push(c).last() == c);
            }
        }
        if c == ' ' {
        } else if c == ',' {
            if commas < 2 {
                commas = commas + 1;
            }
        } else if commas == 0 {
            push_char(&mut first, c);
        } else if commas == 1 {
            push_char(&mut second, c);
        }
    }
    assert(s@.take(s@.len() as int) == s@);
    proof {
        let pieces = coord_pieces(s@);
        lemma_split_join(without_spaces(s@), ',');
        if pieces.len() == 2 {
            assert(pieces.drop_last().len() == 1);
            assert(pieces.drop_last()[0] == pieces[0]);
            assert(!pieces[0].contains(','));
            assert(!pieces[1].contains(','));
            assert(join_with(pieces, ',') == join_with(pieces.drop_last(), ',').push(',') + pieces.last());
            assert(join_with(pieces.drop_last(), ',') == pieces[0]);
            assert(pieces.last() == pieces[1]);
            assert(pieces[0].push(',') + pieces[1] == without_spaces(s@));
        }
    }
    if commas == 1 {
        Ok((first, second))
    } else {
        Err(GeoCoordsError)
    }
}

} // verus!

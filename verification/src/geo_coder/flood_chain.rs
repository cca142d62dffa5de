//! A trace as the floods it starts: their seeds come in scan order, each is
//! an unseen trail pixel when its flood starts, and the trace's markers and
//! painted pixels are those of every flood, one flood after another.

use vstd::prelude::*;
use super::{PathMask, Point};
use super::flood::{fresh_table, scan_from, trace_spec, visit_slot, walk};
use super::flood_complete::scanned_before;
use super::flood_laws::{lemma_looked_at_stays, lemma_walk, lemma_walk_surrounds, looked_at};
use super::flood::neighbor;
use super::flood_rings::{flood_rings, lemma_walk_rings, ring_markers};

verus! {

/// Floods one after another: flood `i` starts from `seeds[i]` on the seen
/// flags `tables[i]`, grows the rings `rings[i]` and leaves `tables[i + 1]`.
/// Each seed is a trail pixel whose slot is unseen when its flood starts,
/// and the seeds come in scan order.
pub open spec fn flood_chain(
    m: PathMask,
    seeds: Seq<Point>,
    tables: Seq<Seq<bool>>,
    rings: Seq<Seq<Seq<Point>>>,
) -> bool {
    &&& tables.len() == seeds.len() + 1
    &&& rings.len() == seeds.len()
    &&& forall|i: int|
        0 <= i < seeds.len() ==> #[trigger] flood_rings(m, seq![seeds[i]], tables[i]) == Some(
            (rings[i], tables[i + 1]),
        )
    &&& forall|i: int|
        0 <= i < seeds.len() ==> {
            &&& m.contains(#[trigger] seeds[i].0 as int, seeds[i].1 as int)
            &&& m.is_path(seeds[i].0 as int, seeds[i].1 as int)
            &&& 0 <= visit_slot(m, seeds[i]) < tables[i].len()
            &&& tables[i][visit_slot(m, seeds[i])]
        }
    &&& forall|i: int, j: int|
        0 <= i < j < seeds.len() ==> scanned_before(
            #[trigger] seeds[i],
            #[trigger] seeds[j].0 as int,
            seeds[j].1 as int,
        )
}

/// The markers of floods with the rings `rings`, one flood after another.
pub open spec fn chain_markers(rings: Seq<Seq<Seq<Point>>>) -> Seq<Point>
    decreases rings.len(),
{
    if rings.len() == 0 {
        Seq::empty()
    } else {
        chain_markers(rings.drop_last()) + ring_markers(rings.last(), 0)
    }
}

/// The pixels painted by floods with the rings `rings`, one flood after
/// another, each ring after ring.
pub open spec fn chain_painted(rings: Seq<Seq<Seq<Point>>>) -> Seq<Point>
    decreases rings.len(),
{
    if rings.len() == 0 {
        Seq::empty()
    } else {
        chain_painted(rings.drop_last()) + rings.last().flatten()
    }
}

/// The scan from `(x, y)` goes on the chain of floods so far with further
/// floods from seeds at or after `(x, y)`, and every trail pixel it passes
/// ends up looked at.
proof fn lemma_scan_chain(
    m: PathMask,
    x: int,
    y: int,
    seeds: Seq<Point>,
    tables: Seq<Seq<bool>>,
    rings: Seq<Seq<Seq<Point>>>,
) -> (r: (Seq<Point>, Seq<Seq<bool>>, Seq<Seq<Seq<Point>>>))
    requires
        m.wf(),
        0 <= x,
        0 <= y,
        flood_chain(m, seeds, tables, rings),
        forall|i: int| 0 <= i < seeds.len() ==> scanned_before(#[trigger] seeds[i], x, y),
        forall|q: Point|
            m.contains(q.0 as int, q.1 as int) && m.is_path(q.0 as int, q.1 as int)
                && #[trigger] scanned_before(q, x, y) ==> looked_at(m, q, tables.last()),
    ensures
        scan_from(m, x, y, tables.last(), chain_markers(rings), chain_painted(rings)) matches Some(
            (found, painted),
        ) ==> {
            &&& flood_chain(m, r.0, r.1, r.2)
            &&& r.1[0] == tables[0]
            &&& found == chain_markers(r.2)
            &&& painted == chain_painted(r.2)
            &&& forall|q: Point|
                m.contains(q.0 as int, q.1 as int) && m.is_path(q.0 as int, q.1 as int) ==> looked_at(
                    m,
                    q,
                    #[trigger] r.1.last(),
                )
        },
    decreases m.width - x, m.height - y,
{
    let u = tables.last();
    let markers = chain_markers(rings);
    let painted = chain_painted(rings);
    if x >= m.width {
        assert forall|q: Point|
            m.contains(q.0 as int, q.1 as int) && m.is_path(q.0 as int, q.1 as int) implies looked_at(
            m,
            q,
            #[trigger] tables.last(),
        ) by {
            assert(scanned_before(q, x, y));
        }
        (seeds, tables, rings)
    } else if y >= m.height {
        assert forall|q: Point|
            m.contains(q.0 as int, q.1 as int) && m.is_path(q.0 as int, q.1 as int)
                && #[trigger] scanned_before(q, x + 1, 0) implies looked_at(m, q, tables.last()) by {
            assert(scanned_before(q, x, y));
        }
        lemma_scan_chain(m, x + 1, 0, seeds, tables, rings)
    } else {
        let p = Point(x as i32, y as i32);
        assert(p.0 as int == x && p.1 as int == y);
        if !m.is_path(x, y) {
            assert forall|q: Point|
                m.contains(q.0 as int, q.1 as int) && m.is_path(q.0 as int, q.1 as int)
                    && #[trigger] scanned_before(q, x, y + 1) implies looked_at(m, q, tables.last()) by {
                if !scanned_before(q, x, y) {
                    assert(q == p);
                }
            }
            lemma_scan_chain(m, x, y + 1, seeds, tables, rings)
        } else if x * m.width + y > u32::MAX || x * m.width + y >= u.len() {
            (seeds, tables, rings)
        } else if !u[x * m.width + y] {
            assert(looked_at(m, p, u));
            assert forall|q: Point|
                m.contains(q.0 as int, q.1 as int) && m.is_path(q.0 as int, q.1 as int)
                    && #[trigger] scanned_before(q, x, y + 1) implies looked_at(m, q, tables.last()) by {
                if !scanned_before(q, x, y) {
                    assert(q == p);
                }
            }
            lemma_scan_chain(m, x, y + 1, seeds, tables, rings)
        } else {
            let seed = seq![p];
            lemma_walk_rings(m, seed, u, 0, Seq::empty(), painted);
            lemma_walk(m, seed, u, 0, Seq::empty(), painted);
            assert(seed.contains(p)) by {
                assert(seed[0] == p);
            }
            lemma_walk_surrounds(m, p, seed, u, 0, Seq::empty(), painted, painted.len() as int);
            match flood_rings(m, seed, u) {
                None => (seeds, tables, rings),
                Some((rs, u2)) => {
                    let seeds2 = seeds.push(p);
                    let tables2 = tables.push(u2);
                    let rings2 = rings.push(rs);
                    assert(rings2.drop_last() =~= rings);
                    assert(rings2.last() == rs);
                    assert(Seq::<Point>::empty() + ring_markers(rs, 0) =~= ring_markers(rs, 0));
                    assert(chain_markers(rings2) == markers + ring_markers(rs, 0));
                    assert(chain_painted(rings2) == painted + rs.flatten());
                    assert(tables2.last() == u2);
                    assert forall|i: int| 0 <= i < seeds2.len() implies #[trigger] flood_rings(
                        m,
                        seq![seeds2[i]],
                        tables2[i],
                    ) == Some((rings2[i], tables2[i + 1])) by {
                        if i < seeds.len() {
                            assert(seeds2[i] == seeds[i]);
                            assert(tables2[i] == tables[i]);
                            assert(tables2[i + 1] == tables[i + 1]);
                            assert(rings2[i] == rings[i]);
                        } else {
                            assert(seeds2[i] == p);
                            assert(seq![seeds2[i]] == seed);
                            assert(tables2[i] == u);
                        }
                    }
                    assert forall|i: int| 0 <= i < seeds2.len() implies {
                        &&& m.contains(#[trigger] seeds2[i].0 as int, seeds2[i].1 as int)
                        &&& m.is_path(seeds2[i].0 as int, seeds2[i].1 as int)
                        &&& 0 <= visit_slot(m, seeds2[i]) < tables2[i].len()
                        &&& tables2[i][visit_slot(m, seeds2[i])]
                    } by {
                        if i < seeds.len() {
                            assert(seeds2[i] == seeds[i]);
                            assert(tables2[i] == tables[i]);
                        } else {
                            assert(seeds2[i] == p);
                            assert(tables2[i] == u);
                        }
                    }
                    assert forall|i: int, j: int| 0 <= i < j < seeds2.len() implies scanned_before(
                        #[trigger] seeds2[i],
                        #[trigger] seeds2[j].0 as int,
                        seeds2[j].1 as int,
                    ) by {
                        assert(seeds2[i] == seeds[i]);
                        if j < seeds.len() {
                            assert(seeds2[j] == seeds[j]);
                        } else {
                            assert(seeds2[j] == p);
                            assert(scanned_before(seeds[i], x, y));
                        }
                    }
                    assert forall|i: int| 0 <= i < seeds2.len() implies scanned_before(
                        #[trigger] seeds2[i],
                        x,
                        y + 1,
                    ) by {
                        if i < seeds.len() {
                            assert(seeds2[i] == seeds[i]);
                            assert(scanned_before(seeds[i], x, y));
                        } else {
                            assert(seeds2[i] == p);
                        }
                    }
                    assert(neighbor(p, 4) == p);
                    assert(looked_at(m, neighbor(p, 4), u2));
                    assert forall|q: Point|
                        m.contains(q.0 as int, q.1 as int) && m.is_path(q.0 as int, q.1 as int)
                            && #[trigger] scanned_before(q, x, y + 1) implies looked_at(m, q, tables2.last()) by {
                        if !scanned_before(q, x, y) {
                            assert(q == p);
                        } else {
                            assert(looked_at(m, q, u));
                            lemma_looked_at_stays(m, q, u, u2);
                        }
                    }
                    assert(tables2[0] == tables[0]);
                    lemma_scan_chain(m, x, y + 1, seeds2, tables2, rings2)
                },
            }
        }
    }
}

/// Whether `markers` and `painted` are what the floods of a chain from
/// `seeds` drop and paint, one flood after another, starting on a table with
/// every slot unseen and ending with every trail pixel looked at.
pub open spec fn traced_by_floods(
    m: PathMask,
    markers: Seq<Point>,
    painted: Seq<Point>,
    seeds: Seq<Point>,
    tables: Seq<Seq<bool>>,
    rings: Seq<Seq<Seq<Point>>>,
) -> bool {
    &&& flood_chain(m, seeds, tables, rings)
    &&& tables[0] == fresh_table(m)
    &&& markers == chain_markers(rings)
    &&& painted == chain_painted(rings)
    &&& forall|q: Point|
        m.contains(q.0 as int, q.1 as int) && m.is_path(q.0 as int, q.1 as int) ==> looked_at(
            m,
            q,
            #[trigger] tables.last(),
        )
}

/// A trace is a chain of floods: it starts one flood from each of its seeds,
/// which come in scan order and are unseen trail pixels when their flood
/// starts, on a table that begins all unseen; its markers are the marker
/// pairs of every flood, one flood after another, and its painted pixels are
/// every flood's rings, one after another; and by its end every trail pixel
/// of the picture has been looked at.
pub proof fn lemma_trace_is_a_chain_of_floods(m: PathMask)
    requires
        m.wf(),
    ensures
        trace_spec(m) matches Some((markers, painted)) ==> exists|
            seeds: Seq<Point>,
            tables: Seq<Seq<bool>>,
            rings: Seq<Seq<Seq<Point>>>,
        | #[trigger] traced_by_floods(m, markers, painted, seeds, tables, rings),
{
    if m.width * m.width <= u32::MAX {
        let tables = seq![fresh_table(m)];
        let empty_rings = Seq::<Seq<Seq<Point>>>::empty();
        assert(chain_markers(empty_rings) == Seq::<Point>::empty());
        assert(chain_painted(empty_rings) == Seq::<Point>::empty());
        assert(tables.last() == fresh_table(m));
        assert forall|q: Point|
            m.contains(q.0 as int, q.1 as int) && m.is_path(q.0 as int, q.1 as int)
                && #[trigger] scanned_before(q, 0, 0) implies looked_at(m, q, tables.last()) by {}
        let r = lemma_scan_chain(m, 0, 0, Seq::empty(), tables, empty_rings);
        assert(trace_spec(m) == scan_from(
            m,
            0,
            0,
            tables.last(),
            chain_markers(empty_rings),
            chain_painted(empty_rings),
        ));
        if let Some((markers, painted)) = trace_spec(m) {
            assert(traced_by_floods(m, markers, painted, r.0, r.1, r.2));
        }
    }
}

} // verus!

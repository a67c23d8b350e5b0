//! Collation of rectangles, worked through the whole sweep: an outer
//! rectangle with a hole, with two holes, two such pairs side by side, and a
//! rectangle with a hole inside the hole of another, and a rectangle with a
//! notch whose tip touches the sweep line.
use vstd::prelude::*;
use crate::classify::{Classes, classify, crossing_set, meets_edge, sweep_all, sweeps_of, undecided};
use crate::collate::{collation, holes_upto, outers_upto, polygons_of, unclassified};
use crate::laws::all_rings;
use crate::edges::{ring_edges, ring_lines};
use crate::geometry::{Coord, Key, Line, TiedLine, abs, key_of, key_order};
use crate::nesting::{CollateError, ScanState, plain_step, scan, step};
use crate::ordering::{in_order, lemma_in_order, lists_in_order};
use crate::sweep::{extent_key, mid, range_set, ring_high, ring_low, sweep_run};

verus! {

/// The lowest y of a non-empty ring is the y of one of its points, and no
/// point lies lower; likewise the highest.
pub proof fn lemma_ring_extent(r: Seq<Coord>)
    requires
        r.len() > 0,
    ensures
        forall|i: int| 0 <= i < r.len() ==> ring_low(r) <= #[trigger] r[i].y <= ring_high(r),
        exists|i: int| 0 <= i < r.len() && r[i].y == ring_low(r),
        exists|i: int| 0 <= i < r.len() && r[i].y == ring_high(r),
    decreases r.len(),
{
    if r.len() == 1 {
        assert(r[0].y == ring_low(r) && r[0].y == ring_high(r));
    } else {
        let p = r.drop_last();
        lemma_ring_extent(p);
        assert forall|i: int| 0 <= i < r.len() implies ring_low(r) <= #[trigger] r[i].y <= ring_high(r) by {
            if i < p.len() {
                assert(r[i] == p[i]);
            }
        }
        let a = choose|i: int| 0 <= i < p.len() && p[i].y == ring_low(p);
        let b = choose|i: int| 0 <= i < p.len() && p[i].y == ring_high(p);
        assert(r[a] == p[a] && r[b] == p[b]);
        assert(r[r.len() - 1] == r.last());
        if r.last().y < ring_low(p) {
            assert(r[r.len() - 1].y == ring_low(r));
        } else {
            assert(r[a].y == ring_low(r));
        }
        if r.last().y > ring_high(p) {
            assert(r[r.len() - 1].y == ring_high(r));
        } else {
            assert(r[b].y == ring_high(r));
        }
    }
}

pub open spec fn pt(x: i64, y: i64) -> Coord {
    Coord { x, y }
}

/// The rectangle [x0, x1] by [y0, y1], walked so that its left side ascends:
/// the way an outer ring runs.
pub open spec fn outer_rect(x0: i64, y0: i64, x1: i64, y1: i64) -> Seq<Coord> {
    seq![pt(x0, y0), pt(x0, y1), pt(x1, y1), pt(x1, y0), pt(x0, y0)]
}

/// The rectangle [x0, x1] by [y0, y1], walked so that its left side descends:
/// the way a hole runs.
pub open spec fn hole_rect(x0: i64, y0: i64, x1: i64, y1: i64) -> Seq<Coord> {
    seq![pt(x0, y0), pt(x1, y0), pt(x1, y1), pt(x0, y1), pt(x0, y0)]
}

pub open spec fn tied(x0: i64, y0: i64, x1: i64, y1: i64, index: usize) -> TiedLine {
    TiedLine { line: Line { start: pt(x0, y0), end: pt(x1, y1) }, index }
}

/// The edges of a rectangle, ring `o`, and of a hole, ring `hl`.
pub open spec fn pair_edges(
    a: i64, b: i64, c: i64, d: i64, e: i64, f: i64, g: i64, h: i64, o: usize, hl: usize,
) -> Seq<TiedLine> {
    seq![
        tied(a, b, a, d, o), tied(a, d, c, d, o), tied(c, d, c, b, o), tied(c, b, a, b, o),
        tied(e, f, g, f, hl), tied(g, f, g, h, hl), tied(g, h, e, h, hl), tied(e, h, e, f, hl),
    ]
}

proof fn lemma_lines_of_pair(a: i64, b: i64, c: i64, d: i64, e: i64, f: i64, g: i64, h: i64, o: usize, hl: usize)
    ensures
        ring_lines(outer_rect(a, b, c, d), o) + ring_lines(hole_rect(e, f, g, h), hl)
            == pair_edges(a, b, c, d, e, f, g, h, o, hl),
{
    assert(ring_lines(outer_rect(a, b, c, d), o) + ring_lines(hole_rect(e, f, g, h), hl)
        =~= pair_edges(a, b, c, d, e, f, g, h, o, hl));
}

/// The crossings of the sweep line at height `s` with a rectangle, ring `o`,
/// and a hole strictly inside it, ring `hl`, left to right; a horizontal
/// crossing shows only when the line runs along the hole's bottom.
pub open spec fn rect_crossings(a: i64, c: i64, e: i64, g: i64, o: usize, hl: usize, with_flat: bool) -> Seq<Key> {
    if with_flat {
        seq![(a, 0, o), (e, 1, hl), (e, 2, hl), (g, 0, hl), (c, 2, o)]
    } else {
        seq![(a, 0, o), (e, 2, hl), (g, 0, hl), (c, 2, o)]
    }
}

/// The crossings of the sweep line at height `s` with a hole, ring `hl`,
/// left to right.
pub open spec fn hole_crossings(e: i64, g: i64, hl: usize, with_flat: bool) -> Seq<Key> {
    if with_flat {
        seq![(e, 1, hl), (e, 2, hl), (g, 0, hl)]
    } else {
        seq![(e, 2, hl), (g, 0, hl)]
    }
}

proof fn lemma_zero_run(y: int, z: int)
    requires
        z != 0,
    ensures
        abs(y * 0) / abs(z) == 0,
{
    assert(abs(y * 0) == 0);
    let w = abs(z);
    assert(0int / w == 0) by (nonlinear_arith)
        requires w > 0;
}

/// The crossings of a sweep line with a rectangle, ring `o`, strictly
/// between its bottom and top.
pub open spec fn outer_crossings(a: i64, c: i64, o: usize) -> Seq<Key> {
    seq![(a, 0, o), (c, 2, o)]
}

/// Where a sweep line strictly between a rectangle's bottom and top crosses it.
proof fn lemma_outer_piece(a: i64, b: i64, c: i64, d: i64, o: usize, s: i64)
    requires
        a < c,
        b < s < d,
    ensures
        crossing_set(ring_lines(outer_rect(a, b, c, d), o), s) == outer_crossings(a, c, o).to_set(),
        ring_lines(outer_rect(a, b, c, d), o)[0].spans(s as int),
{
    let edges = ring_lines(outer_rect(a, b, c, d), o);
    assert(edges =~= seq![tied(a, b, a, d, o), tied(a, d, c, d, o), tied(c, d, c, b, o), tied(c, b, a, b, o)]);
    lemma_zero_run(s - d, d - b);
    lemma_zero_run(s - b, b - d);
    let cs = outer_crossings(a, c, o);
    assert forall|t: Key| #[trigger] crossing_set(edges, s).contains(t) <==> cs.to_set().contains(t) by {
        if crossing_set(edges, s).contains(t) {
            let k = choose|k: int| 0 <= k < edges.len() && #[trigger] edges[k].spans(s as int)
                && t == key_of(edges[k].crossing(s as int));
            if k == 0 { assert(cs[0] == t); } else { assert(cs[1] == t); }
        }
        if cs.to_set().contains(t) {
            assert(cs.contains(t));
            assert(edges[0].spans(s as int) && edges[2].spans(s as int));
        }
    }
    assert(crossing_set(edges, s) =~= cs.to_set());
}

/// Where a sweep line from a hole's bottom up to below its top crosses it.
proof fn lemma_hole_piece(e: i64, f: i64, g: i64, h: i64, hl: usize, s: i64)
    requires
        e < g,
        f <= s < h,
    ensures
        crossing_set(ring_lines(hole_rect(e, f, g, h), hl), s) == hole_crossings(e, g, hl, s == f).to_set(),
{
    let edges = ring_lines(hole_rect(e, f, g, h), hl);
    assert(edges =~= seq![tied(e, f, g, f, hl), tied(g, f, g, h, hl), tied(g, h, e, h, hl), tied(e, h, e, f, hl)]);
    lemma_zero_run(s - h, h - f);
    lemma_zero_run(s - f, f - h);
    let cs = hole_crossings(e, g, hl, s == f);
    assert forall|t: Key| #[trigger] crossing_set(edges, s).contains(t) <==> cs.to_set().contains(t) by {
        if crossing_set(edges, s).contains(t) {
            let k = choose|k: int| 0 <= k < edges.len() && #[trigger] edges[k].spans(s as int)
                && t == key_of(edges[k].crossing(s as int));
            if s == f {
                if k == 0 { assert(cs[0] == t); } else if k == 1 { assert(cs[2] == t); } else { assert(cs[1] == t); }
            } else {
                if k == 1 { assert(cs[1] == t); } else { assert(cs[0] == t); }
            }
        }
        if cs.to_set().contains(t) {
            assert(cs.contains(t));
            assert(edges[1].spans(s as int) && edges[3].spans(s as int));
            if s == f {
                assert(edges[0].spans(s as int));
            }
        }
    }
    assert(crossing_set(edges, s) =~= cs.to_set());
}

proof fn lemma_pair_crossings(
    a: i64, b: i64, c: i64, d: i64, e: i64, f: i64, g: i64, h: i64, o: usize, hl: usize, s: i64,
)
    requires
        a < e < g < c,
        b < f < h < d,
        f <= s < h,
    ensures
        meets_edge(pair_edges(a, b, c, d, e, f, g, h, o, hl), s),
        crossing_set(pair_edges(a, b, c, d, e, f, g, h, o, hl), s) == rect_crossings(a, c, e, g, o, hl, s == f).to_set(),
        sorted_by_keys(rect_crossings(a, c, e, g, o, hl, s == f)),
        rect_crossings(a, c, e, g, o, hl, s == f).no_duplicates(),
{
    let ol = ring_lines(outer_rect(a, b, c, d), o);
    let hol = ring_lines(hole_rect(e, f, g, h), hl);
    lemma_lines_of_pair(a, b, c, d, e, f, g, h, o, hl);
    lemma_outer_piece(a, b, c, d, o, s);
    lemma_hole_piece(e, f, g, h, hl, s);
    lemma_crossing_set_concat(ol, hol, s);
    let cs = rect_crossings(a, c, e, g, o, hl, s == f);
    let hc = hole_crossings(e, g, hl, s == f);
    assert(cs.to_set() =~= outer_crossings(a, c, o).to_set().union(hc.to_set())) by {
        assert forall|t: Key| #[trigger] cs.to_set().contains(t) <==> outer_crossings(a, c, o).to_set().union(hc.to_set()).contains(t) by {
            if cs.contains(t) {
                let j = choose|j: int| 0 <= j < cs.len() && cs[j] == t;
                if j == 0 { assert(outer_crossings(a, c, o)[0] == t); }
                else if j == cs.len() - 1 { assert(outer_crossings(a, c, o)[1] == t); }
                else { assert(hc[j - 1] == t); }
            }
            if outer_crossings(a, c, o).contains(t) {
                let j = choose|j: int| 0 <= j < 2 && outer_crossings(a, c, o)[j] == t;
                if j == 0 { assert(cs[0] == t); } else { assert(cs[cs.len() - 1] == t); }
            }
            if hc.contains(t) {
                let j = choose|j: int| 0 <= j < hc.len() && hc[j] == t;
                assert(cs[j + 1] == t);
            }
        }
    }
    assert(pair_edges(a, b, c, d, e, f, g, h, o, hl)[0] == ol[0]);
}

proof fn lemma_crossing_set_concat(e1: Seq<TiedLine>, e2: Seq<TiedLine>, s: i64)
    ensures
        crossing_set(e1 + e2, s) == crossing_set(e1, s).union(crossing_set(e2, s)),
{
    let all = e1 + e2;
    assert forall|t: Key| crossing_set(all, s).contains(t) <==> #[trigger] crossing_set(e1, s).union(crossing_set(e2, s)).contains(t) by {
        if crossing_set(all, s).contains(t) {
            let k = choose|k: int| 0 <= k < all.len() && #[trigger] all[k].spans(s as int)
                && t == key_of(all[k].crossing(s as int));
            if k < e1.len() {
                assert(all[k] == e1[k]);
            } else {
                assert(all[k] == e2[k - e1.len()]);
            }
        }
        if crossing_set(e1, s).contains(t) {
            let k = choose|k: int| 0 <= k < e1.len() && #[trigger] e1[k].spans(s as int)
                && t == key_of(e1[k].crossing(s as int));
            assert(all[k] == e1[k]);
        }
        if crossing_set(e2, s).contains(t) {
            let k = choose|k: int| 0 <= k < e2.len() && #[trigger] e2[k].spans(s as int)
                && t == key_of(e2[k].crossing(s as int));
            assert(all[k + e1.len()] == e2[k]);
        }
    }
    assert(crossing_set(all, s) =~= crossing_set(e1, s).union(crossing_set(e2, s)));
}

proof fn lemma_rect_lows(x0: i64, y0: i64, x1: i64, y1: i64)
    requires
        y0 < y1,
    ensures
        ring_low(outer_rect(x0, y0, x1, y1)) == y0,
        ring_high(outer_rect(x0, y0, x1, y1)) == y1,
        ring_low(hole_rect(x0, y0, x1, y1)) == y0,
        ring_high(hole_rect(x0, y0, x1, y1)) == y1,
{
    let o = outer_rect(x0, y0, x1, y1);
    let h = hole_rect(x0, y0, x1, y1);
    lemma_ring_extent(o);
    lemma_ring_extent(h);
    assert(o[0].y == y0 && o[1].y == y1);
    assert(h[0].y == y0 && h[2].y == y1);
    let i = choose|i: int| 0 <= i < o.len() && o[i].y == ring_low(o);
    let j = choose|j: int| 0 <= j < o.len() && o[j].y == ring_high(o);
    let k = choose|k: int| 0 <= k < h.len() && h[k].y == ring_low(h);
    let m = choose|m: int| 0 <= m < h.len() && h[m].y == ring_high(h);
}

/// A rectangular outer ring with a rectangular hole strictly inside it, both
/// walked the way their roles ask, collates to one polygon: the outer ring
/// with that one hole.
pub proof fn law_rectangle_with_hole(a: i64, b: i64, c: i64, d: i64, e: i64, f: i64, g: i64, h: i64)
    requires
        a < e < g < c,
        b < f < h < d,
    ensures
        collation(seq![outer_rect(a, b, c, d), hole_rect(e, f, g, h)])
            == Ok::<Seq<(Seq<Coord>, Seq<Seq<Coord>>)>, CollateError>(
                seq![(outer_rect(a, b, c, d), seq![hole_rect(e, f, g, h)])],
            ),
{
    let outer = outer_rect(a, b, c, d);
    let hole = hole_rect(e, f, g, h);
    let rings = seq![outer, hole];
    // the sweep
    lemma_rect_lows(a, b, c, d);
    lemma_rect_lows(e, f, g, h);
    let r0: Key = (b, d, 0usize);
    let r1: Key = (f, h, 1usize);
    assert(extent_key(rings, 0) == r0);
    assert(extent_key(rings, 1) == r1);
    let q = seq![r0, r1];
    assert(range_set(rings) =~= q.to_set()) by {
        assert forall|t: Key| range_set(rings).contains(t) <==> q.to_set().contains(t) by {
            if q.to_set().contains(t) {
                assert(q.contains(t));
                let j = choose|j: int| 0 <= j < 2 && q[j] == t;
                assert(rings[j].len() > 0 && t == extent_key(rings, j));
            }
            if range_set(rings).contains(t) {
                let i = choose|i: int| 0 <= i < rings.len() && rings[i].len() > 0 && t == #[trigger] extent_key(rings, i);
                assert(q[i] == t);
            }
        }
    }
    assert(lists_in_order(q, range_set(rings))) by {
        assert(sorted_by_keys(q));
    }
    lemma_in_order(q, range_set(rings));
    assert(sweep_run(q, 0) == (Seq::<i64>::empty(), b, d));
    assert(sweep_run(q, 1) == (Seq::<i64>::empty(), b, d));
    assert(sweep_run(q, 2) == (Seq::<i64>::empty(), f, h));
    let s = mid(f as int, h as int) as i64;
    assert(sweeps_of(rings) =~= seq![s]);
    assert(f <= s < h);
    // the crossings
    let edges = ring_edges(rings);
    assert(rings.drop_last() =~= seq![outer]);
    assert(seq![outer].drop_last() =~= Seq::<Seq<Coord>>::empty());
    assert(ring_edges(Seq::<Seq<Coord>>::empty()) =~= Seq::<TiedLine>::empty());
    assert(ring_edges(seq![outer]) =~= ring_lines(outer, 0));
    lemma_lines_of_pair(a, b, c, d, e, f, g, h, 0, 1);
    assert(edges == pair_edges(a, b, c, d, e, f, g, h, 0, 1));
    lemma_pair_crossings(a, b, c, d, e, f, g, h, 0, 1, s);
    let cs = rect_crossings(a, c, e, g, 0, 1, s == f);
    lemma_in_order(cs, crossing_set(edges, s));
    // the scan
    let init = undecided(2);
    let ext = init.0.update(0, true);
    let holes = init.1.update(1, Some(0usize));
    lemma_rect_scan(a, c, e, g, 0, 1, s, s == f, Seq::empty(), init.0, init.1);
    assert(sweep_all(edges, Seq::<i64>::empty(), init) == Ok::<Classes, CollateError>(init));
    assert(seq![s].drop_last() =~= Seq::<i64>::empty());
    assert(sweep_all(edges, seq![s], init) == Ok::<Classes, CollateError>((ext, holes)));
    // the polygon
    let cl = (ext, holes);
    assert(classify(rings) == Ok::<Classes, CollateError>(cl));
    assert(!unclassified(cl, 0) && !unclassified(cl, 1));
    assert(outers_upto(cl, 0) =~= Seq::<usize>::empty());
    assert(outers_upto(cl, 1) =~= seq![0usize]);
    assert(outers_upto(cl, 2) =~= seq![0usize]);
    assert(holes_upto(cl, 0, 0) =~= Seq::<usize>::empty());
    assert(holes_upto(cl, 0, 1) =~= Seq::<usize>::empty());
    assert(holes_upto(cl, 0, 2) =~= seq![1usize]);
    let ps = polygons_of(rings, cl);
    assert(ps.len() == 1);
    assert(ps[0].1 =~= seq![hole]);
    assert(ps =~= seq![(outer, seq![hole])]);
}

/// Scanning a rectangle's crossings from outside, above the rings `base`
/// already open, with the rectangle not yet a hole nor on top: the rectangle
/// becomes an outer ring and the hole its hole, and the scan is back outside.
proof fn lemma_rect_scan(
    a: i64, c: i64, e: i64, g: i64, o: usize, hl: usize, s: i64, with_flat: bool,
    base: Seq<usize>, ext: Seq<bool>, hol: Seq<Option<usize>>,
)
    requires
        o != hl,
        hol[o as int] is None,
        base.len() == 0 || base.last() != o,
    ensures
        scan(
            rect_crossings(a, c, e, g, o, hl, with_flat),
            s,
            ScanState { pending: None, inside: false, stack: base, exteriors: ext, hole_of: hol },
        ) == Ok::<ScanState, CollateError>(ScanState {
            pending: None,
            inside: false,
            stack: base,
            exteriors: ext.update(o as int, true),
            hole_of: hol.update(hl as int, Some(o)),
        }),
{
    let k0: Key = (a, 0, o);
    let k4: Key = (c, 2, o);
    let hc = hole_crossings(e, g, hl, with_flat);
    let ext1 = ext.update(o as int, true);
    let hol1 = hol.update(hl as int, Some(o));
    let st0 = ScanState { pending: None, inside: false, stack: base, exteriors: ext, hole_of: hol };
    let st1 = ScanState { pending: None, inside: true, stack: base.push(o), exteriors: ext1, hole_of: hol };
    let st2 = ScanState { pending: None, inside: true, stack: base.push(o), exteriors: ext1, hole_of: hol1 };
    let st3 = ScanState { pending: None, inside: false, stack: base, exteriors: ext1, hole_of: hol1 };
    assert(step(st0, k0, s) == Ok::<ScanState, CollateError>(st1));
    assert(step(st2, k4, s) == Ok::<ScanState, CollateError>(st3)) by {
        assert(base.push(o).drop_last() =~= base);
    }
    assert(rect_crossings(a, c, e, g, o, hl, with_flat) =~= seq![k0] + hc + seq![k4]);
    lemma_single_step(k0, s, st0, st1);
    lemma_hole_scan(e, g, o, hl, s, with_flat, base, ext1, hol);
    lemma_scan_concat(seq![k0], hc, s, st0);
    lemma_single_step(k4, s, st2, st3);
    lemma_scan_concat(seq![k0] + hc, seq![k4], s, st0);
}

proof fn lemma_single_step(k: Key, s: i64, st: ScanState, next: ScanState)
    requires
        step(st, k, s) == Ok::<ScanState, CollateError>(next),
    ensures
        scan(seq![k], s, st) == Ok::<ScanState, CollateError>(next),
{
    assert(seq![k].drop_last() =~= Seq::<Key>::empty());
    assert(scan(Seq::<Key>::empty(), s, st) == Ok::<ScanState, CollateError>(st));
}

/// Scanning two runs of crossings one after the other.
proof fn lemma_scan_concat(p: Seq<Key>, q: Seq<Key>, s: i64, st: ScanState)
    requires
        scan(p, s, st) is Ok,
    ensures
        scan(p + q, s, st) == scan(q, s, scan(p, s, st)->Ok_0),
    decreases q.len(),
{
    if q.len() == 0 {
        assert(p + q =~= p);
    } else {
        lemma_scan_concat(p, q.drop_last(), s, st);
        assert((p + q).drop_last() =~= p + q.drop_last());
        assert((p + q).last() == q.last());
    }
}

/// Two rectangles side by side at the same heights, each with a rectangular
/// hole strictly inside it, the second pair to the right of the first: two
/// polygons, each outer ring with its own hole.
pub proof fn law_two_rectangles_with_holes(
    a: i64, b: i64, c: i64, d: i64, e: i64, f: i64, g: i64, h: i64,
    a2: i64, c2: i64, e2: i64, g2: i64,
)
    requires
        a < e < g < c < a2 < e2 < g2 < c2,
        b < f < h < d,
    ensures
        collation(seq![outer_rect(a, b, c, d), hole_rect(e, f, g, h), outer_rect(a2, b, c2, d), hole_rect(e2, f, g2, h)])
            == Ok::<Seq<(Seq<Coord>, Seq<Seq<Coord>>)>, CollateError>(seq![
                (outer_rect(a, b, c, d), seq![hole_rect(e, f, g, h)]),
                (outer_rect(a2, b, c2, d), seq![hole_rect(e2, f, g2, h)]),
            ]),
{
    let o1 = outer_rect(a, b, c, d);
    let h1 = hole_rect(e, f, g, h);
    let o2 = outer_rect(a2, b, c2, d);
    let h2 = hole_rect(e2, f, g2, h);
    let rings = seq![o1, h1, o2, h2];
    // the sweep
    lemma_rect_lows(a, b, c, d);
    lemma_rect_lows(e, f, g, h);
    lemma_rect_lows(a2, b, c2, d);
    lemma_rect_lows(e2, f, g2, h);
    let r0: Key = (b, d, 0usize);
    let r1: Key = (f, h, 1usize);
    let r2: Key = (b, d, 2usize);
    let r3: Key = (f, h, 3usize);
    assert(extent_key(rings, 0) == r0);
    assert(extent_key(rings, 1) == r1);
    assert(extent_key(rings, 2) == r2);
    assert(extent_key(rings, 3) == r3);
    let q = seq![r0, r2, r1, r3];
    assert(range_set(rings) =~= q.to_set()) by {
        assert forall|t: Key| range_set(rings).contains(t) <==> q.to_set().contains(t) by {
            if q.to_set().contains(t) {
                assert(q.contains(t));
                let j = choose|j: int| 0 <= j < 4 && q[j] == t;
                if j == 0 { assert(t == extent_key(rings, 0)); }
                else if j == 1 { assert(t == extent_key(rings, 2)); }
                else if j == 2 { assert(t == extent_key(rings, 1)); }
                else { assert(t == extent_key(rings, 3)); }
            }
            if range_set(rings).contains(t) {
                let i = choose|i: int| 0 <= i < rings.len() && rings[i].len() > 0 && t == #[trigger] extent_key(rings, i);
                if i == 0 { assert(q[0] == t); } else if i == 1 { assert(q[2] == t); }
                else if i == 2 { assert(q[1] == t); } else { assert(q[3] == t); }
            }
        }
    }
    assert(lists_in_order(q, range_set(rings))) by {
        assert(sorted_by_keys(q));
    }
    lemma_in_order(q, range_set(rings));
    assert(sweep_run(q, 0) == (Seq::<i64>::empty(), b, d));
    assert(sweep_run(q, 1) == (Seq::<i64>::empty(), b, d));
    assert(sweep_run(q, 2) == (Seq::<i64>::empty(), b, d));
    assert(sweep_run(q, 3) == (Seq::<i64>::empty(), f, h));
    assert(sweep_run(q, 4) == (Seq::<i64>::empty(), f, h));
    let s = mid(f as int, h as int) as i64;
    assert(sweeps_of(rings) =~= seq![s]);
    assert(f <= s < h);
    // the crossings
    let edges = ring_edges(rings);
    let pe1 = pair_edges(a, b, c, d, e, f, g, h, 0, 1);
    let pe2 = pair_edges(a2, b, c2, d, e2, f, g2, h, 2, 3);
    assert(ring_edges(Seq::<Seq<Coord>>::empty()) =~= Seq::<TiedLine>::empty());
    assert(seq![o1].drop_last() =~= Seq::<Seq<Coord>>::empty());
    assert(seq![o1, h1].drop_last() =~= seq![o1]);
    assert(seq![o1, h1, o2].drop_last() =~= seq![o1, h1]);
    assert(rings.drop_last() =~= seq![o1, h1, o2]);
    assert(ring_edges(seq![o1]) =~= ring_lines(o1, 0));
    lemma_lines_of_pair(a, b, c, d, e, f, g, h, 0, 1);
    lemma_lines_of_pair(a2, b, c2, d, e2, f, g2, h, 2, 3);
    assert(ring_edges(seq![o1, h1]) == pe1);
    assert(ring_edges(seq![o1, h1, o2]) == pe1 + ring_lines(o2, 2));
    assert(edges == pe1 + ring_lines(o2, 2) + ring_lines(h2, 3));
    assert(pe1 + ring_lines(o2, 2) + ring_lines(h2, 3) =~= pe1 + (ring_lines(o2, 2) + ring_lines(h2, 3)));
    assert(edges =~= pe1 + pe2);
    lemma_pair_crossings(a, b, c, d, e, f, g, h, 0, 1, s);
    lemma_pair_crossings(a2, b, c2, d, e2, f, g2, h, 2, 3, s);
    lemma_crossing_set_concat(pe1, pe2, s);
    let cs1 = rect_crossings(a, c, e, g, 0, 1, s == f);
    let cs2 = rect_crossings(a2, c2, e2, g2, 2, 3, s == f);
    let cs = cs1 + cs2;
    assert(crossing_set(edges, s) =~= cs.to_set()) by {
        vstd::seq_lib::seq_to_set_distributes_over_add(cs1, cs2);
    }
    assert(lists_in_order(cs, crossing_set(edges, s))) by {
        assert forall|i: int, j: int| 0 <= i < j < cs.len() implies #[trigger] (key_order())(cs[i], cs[j]) by {
            if j < cs1.len() {
                assert((key_order())(cs1[i], cs1[j]));
            } else if i >= cs1.len() {
                assert((key_order())(cs2[i - cs1.len()], cs2[j - cs1.len()]));
            } else {
                assert(cs[i] == cs1[i] && cs[j] == cs2[j - cs1.len()]);
            }
        }
        assert forall|i: int, j: int| 0 <= i < cs.len() && 0 <= j < cs.len() && i != j implies cs[i] != cs[j] by {
            if i < cs1.len() && j < cs1.len() {
            } else if i >= cs1.len() && j >= cs1.len() {
                assert(cs[i] == cs2[i - cs1.len()] && cs[j] == cs2[j - cs1.len()]);
            } else if i < cs1.len() {
                assert(cs[i] == cs1[i] && cs[j] == cs2[j - cs1.len()]);
            } else {
                assert(cs[j] == cs1[j] && cs[i] == cs2[i - cs1.len()]);
            }
        }
    }
    lemma_in_order(cs, crossing_set(edges, s));
    assert(meets_edge(edges, s)) by {
        assert(edges[0] == pe1[0]);
        assert(pe1[0].spans(s as int));
    }
    // the scan
    let init = undecided(4);
    let ext1 = init.0.update(0, true);
    let hol1 = init.1.update(1, Some(0usize));
    let ext2 = ext1.update(2, true);
    let hol2 = hol1.update(3, Some(2usize));
    let st0 = ScanState { pending: None, inside: false, stack: Seq::empty(), exteriors: init.0, hole_of: init.1 };
    lemma_rect_scan(a, c, e, g, 0, 1, s, s == f, Seq::empty(), init.0, init.1);
    lemma_rect_scan(a2, c2, e2, g2, 2, 3, s, s == f, Seq::empty(), ext1, hol1);
    lemma_scan_concat(cs1, cs2, s, st0);
    assert(sweep_all(edges, Seq::<i64>::empty(), init) == Ok::<Classes, CollateError>(init));
    assert(seq![s].drop_last() =~= Seq::<i64>::empty());
    assert(sweep_all(edges, seq![s], init) == Ok::<Classes, CollateError>((ext2, hol2)));
    // the polygons
    let cl = (ext2, hol2);
    assert(classify(rings) == Ok::<Classes, CollateError>(cl));
    assert(!unclassified(cl, 0) && !unclassified(cl, 1) && !unclassified(cl, 2) && !unclassified(cl, 3));
    assert(outers_upto(cl, 0) =~= Seq::<usize>::empty());
    assert(outers_upto(cl, 1) =~= seq![0usize]);
    assert(outers_upto(cl, 2) =~= seq![0usize]);
    assert(outers_upto(cl, 3) =~= seq![0usize, 2usize]);
    assert(outers_upto(cl, 4) =~= seq![0usize, 2usize]);
    assert(holes_upto(cl, 0, 0) =~= Seq::<usize>::empty());
    assert(holes_upto(cl, 0, 1) =~= Seq::<usize>::empty());
    assert(holes_upto(cl, 0, 2) =~= seq![1usize]);
    assert(holes_upto(cl, 0, 3) =~= seq![1usize]);
    assert(holes_upto(cl, 0, 4) =~= seq![1usize]);
    assert(holes_upto(cl, 2, 0) =~= Seq::<usize>::empty());
    assert(holes_upto(cl, 2, 1) =~= Seq::<usize>::empty());
    assert(holes_upto(cl, 2, 2) =~= Seq::<usize>::empty());
    assert(holes_upto(cl, 2, 3) =~= Seq::<usize>::empty());
    assert(holes_upto(cl, 2, 4) =~= seq![3usize]);
    let ps = polygons_of(rings, cl);
    assert(ps.len() == 2);
    assert(ps[0].1 =~= seq![h1]);
    assert(ps[1].1 =~= seq![h2]);
    assert(ps =~= seq![(o1, seq![h1]), (o2, seq![h2])]);
}

/// A single rectangle walked the way an outer ring runs collates to one
/// polygon: itself, with no holes.
pub proof fn law_single_rectangle(a: i64, b: i64, c: i64, d: i64)
    requires
        a < c,
        b < d,
    ensures
        collation(seq![outer_rect(a, b, c, d)])
            == Ok::<Seq<(Seq<Coord>, Seq<Seq<Coord>>)>, CollateError>(
                seq![(outer_rect(a, b, c, d), Seq::<Seq<Coord>>::empty())],
            ),
{
    let outer = outer_rect(a, b, c, d);
    let rings = seq![outer];
    // the sweep
    lemma_ring_extent(outer);
    assert(ring_low(outer) == b && ring_high(outer) == d) by {
        assert(outer[0].y == b && outer[1].y == d);
        let i = choose|i: int| 0 <= i < outer.len() && outer[i].y == ring_low(outer);
        let j = choose|j: int| 0 <= j < outer.len() && outer[j].y == ring_high(outer);
    }
    let r0: Key = (b, d, 0usize);
    assert(extent_key(rings, 0) == r0);
    let q = seq![r0];
    assert(range_set(rings) =~= q.to_set()) by {
        assert forall|t: Key| range_set(rings).contains(t) <==> q.to_set().contains(t) by {
            if q.to_set().contains(t) {
                assert(q.contains(t));
                assert(rings[0].len() > 0 && t == extent_key(rings, 0));
            }
            if range_set(rings).contains(t) {
                let i = choose|i: int| 0 <= i < rings.len() && rings[i].len() > 0 && t == #[trigger] extent_key(rings, i);
                assert(q[i] == t);
            }
        }
    }
    assert(lists_in_order(q, range_set(rings))) by {
        assert(sorted_by_keys(q));
    }
    lemma_in_order(q, range_set(rings));
    assert(sweep_run(q, 0) == (Seq::<i64>::empty(), b, d));
    assert(sweep_run(q, 1) == (Seq::<i64>::empty(), b, d));
    let s = mid(b as int, d as int) as i64;
    assert(sweeps_of(rings) =~= seq![s]);
    assert(b <= s < d);
    // the edges and their crossings
    let edges = ring_edges(rings);
    assert(rings.drop_last() =~= Seq::<Seq<Coord>>::empty());
    assert(ring_edges(Seq::<Seq<Coord>>::empty()) =~= Seq::<TiedLine>::empty());
    assert(edges =~= seq![tied(a, b, a, d, 0), tied(a, d, c, d, 0), tied(c, d, c, b, 0), tied(c, b, a, b, 0)]);
    assert forall|y: int, z: int| z > 0 implies #[trigger] (abs(y * 0) / z) == 0 by {
        assert(abs(y * 0) == 0);
        assert(0int / z == 0) by (nonlinear_arith)
            requires z > 0;
    }
    assert(edges[0].sloped_x(s as int) == a) by {
        assert(abs((s - d) * 0) / abs(d - b) == 0);
    }
    assert(edges[2].sloped_x(s as int) == c) by {
        assert(abs((s - b) * 0) / abs(b - d) == 0);
    }
    let k0: Key = (a, 0, 0usize);
    let k1: Key = (a, 1, 0usize);
    let k2: Key = (c, 2, 0usize);
    let cs = if s == b { seq![k0, k1, k2] } else { seq![k0, k2] };
    let set = crossing_set(edges, s);
    assert(set =~= cs.to_set()) by {
        assert forall|t: Key| set.contains(t) <==> cs.to_set().contains(t) by {
            if set.contains(t) {
                let k = choose|k: int| 0 <= k < edges.len() && #[trigger] edges[k].spans(s as int)
                    && t == key_of(edges[k].crossing(s as int));
                if s == b {
                    if k == 0 { assert(cs[0] == t); } else if k == 2 { assert(cs[2] == t); }
                    else if k == 3 { assert(cs[1] == t); }
                } else {
                    if k == 0 { assert(cs[0] == t); } else if k == 2 { assert(cs[1] == t); }
                }
                assert(cs.contains(t));
            }
            if cs.to_set().contains(t) {
                assert(cs.contains(t));
                let j = choose|j: int| 0 <= j < cs.len() && cs[j] == t;
                assert(edges[0].spans(s as int));
                assert(edges[2].spans(s as int));
                if s == b {
                    assert(edges[3].spans(s as int));
                }
            }
        }
    }
    assert(lists_in_order(cs, set)) by {
        assert(sorted_by_keys(cs));
    }
    lemma_in_order(cs, set);
    assert(edges[0].spans(s as int));
    assert(meets_edge(edges, s));
    // the scan
    let init = undecided(1);
    let ext = init.0.update(0, true);
    let st0 = ScanState { pending: None, inside: false, stack: Seq::empty(), exteriors: init.0, hole_of: init.1 };
    let st1 = ScanState { pending: None, inside: true, stack: seq![0usize], exteriors: ext, hole_of: init.1 };
    let st2 = ScanState { pending: None, inside: false, stack: Seq::empty(), exteriors: ext, hole_of: init.1 };
    assert(step(st0, k0, s) == Ok::<ScanState, CollateError>(st1)) by {
        assert(Seq::<usize>::empty().push(0usize) =~= seq![0usize]);
    }
    assert(step(st1, k1, s) == Ok::<ScanState, CollateError>(st1));
    assert(step(st1, k2, s) == Ok::<ScanState, CollateError>(st2)) by {
        assert(seq![0usize].drop_last() =~= Seq::<usize>::empty());
    }
    assert(scan(Seq::<Key>::empty(), s, st0) == Ok::<ScanState, CollateError>(st0));
    assert(seq![k0].drop_last() =~= Seq::<Key>::empty());
    assert(scan(seq![k0], s, st0) == Ok::<ScanState, CollateError>(st1));
    if s == b {
        assert(seq![k0, k1].drop_last() =~= seq![k0]);
        assert(scan(seq![k0, k1], s, st0) == Ok::<ScanState, CollateError>(st1));
        assert(seq![k0, k1, k2].drop_last() =~= seq![k0, k1]);
    } else {
        assert(seq![k0, k2].drop_last() =~= seq![k0]);
    }
    assert(scan(cs, s, st0) == Ok::<ScanState, CollateError>(st2));
    assert(sweep_all(edges, Seq::<i64>::empty(), init) == Ok::<Classes, CollateError>(init));
    assert(seq![s].drop_last() =~= Seq::<i64>::empty());
    assert(sweep_all(edges, seq![s], init) == Ok::<Classes, CollateError>((ext, init.1)));
    // the polygon
    let cl = (ext, init.1);
    assert(classify(rings) == Ok::<Classes, CollateError>(cl));
    assert(!unclassified(cl, 0));
    assert(outers_upto(cl, 0) =~= Seq::<usize>::empty());
    assert(outers_upto(cl, 1) =~= seq![0usize]);
    assert(holes_upto(cl, 0, 0) =~= Seq::<usize>::empty());
    assert(holes_upto(cl, 0, 1) =~= Seq::<usize>::empty());
    let ps = polygons_of(rings, cl);
    assert(ps.len() == 1);
    assert(ps[0].1 =~= Seq::<Seq<Coord>>::empty());
    assert(ps =~= seq![(outer, Seq::<Seq<Coord>>::empty())]);
}

/// Scanning a hole's crossings while inside ring `o`, which is no hole, on
/// top of the rings `base`: the hole becomes a hole of `o`, and the scan is
/// back inside `o`.
proof fn lemma_hole_scan(
    e: i64, g: i64, o: usize, hl: usize, s: i64, with_flat: bool,
    base: Seq<usize>, ext: Seq<bool>, hol: Seq<Option<usize>>,
)
    requires
        o != hl,
        hol[o as int] is None,
    ensures
        scan(
            hole_crossings(e, g, hl, with_flat),
            s,
            ScanState { pending: None, inside: true, stack: base.push(o), exteriors: ext, hole_of: hol },
        ) == Ok::<ScanState, CollateError>(
            ScanState { pending: None, inside: true, stack: base.push(o), exteriors: ext, hole_of: hol.update(hl as int, Some(o)) },
        ),
{
    let k1: Key = (e, 1, hl);
    let k2: Key = (e, 2, hl);
    let k3: Key = (g, 0, hl);
    let hol1 = hol.update(hl as int, Some(o));
    let st1 = ScanState { pending: None, inside: true, stack: base.push(o), exteriors: ext, hole_of: hol };
    let st2 = ScanState { pending: None, inside: false, stack: base.push(o).push(hl), exteriors: ext, hole_of: hol1 };
    let st3 = ScanState { pending: None, inside: true, stack: base.push(o), exteriors: ext, hole_of: hol1 };
    assert(step(st1, k1, s) == Ok::<ScanState, CollateError>(st1));
    assert(step(st1, k2, s) == Ok::<ScanState, CollateError>(st2));
    assert(step(st2, k3, s) == Ok::<ScanState, CollateError>(st3)) by {
        assert(base.push(o).push(hl).drop_last() =~= base.push(o));
    }
    let e0 = Seq::<Key>::empty();
    assert(scan(e0, s, st1) == Ok::<ScanState, CollateError>(st1));
    if with_flat {
        assert(seq![k1].drop_last() =~= e0);
        assert(seq![k1, k2].drop_last() =~= seq![k1]);
        assert(seq![k1, k2, k3].drop_last() =~= seq![k1, k2]);
        assert(scan(seq![k1], s, st1) == Ok::<ScanState, CollateError>(st1));
        assert(scan(seq![k1, k2], s, st1) == Ok::<ScanState, CollateError>(st2));
        assert(scan(seq![k1, k2, k3], s, st1) == Ok::<ScanState, CollateError>(st3));
    } else {
        assert(seq![k2].drop_last() =~= e0);
        assert(seq![k2, k3].drop_last() =~= seq![k2]);
        assert(scan(seq![k2], s, st1) == Ok::<ScanState, CollateError>(st2));
        assert(scan(seq![k2, k3], s, st1) == Ok::<ScanState, CollateError>(st3));
    }
}

/// A rectangle with two rectangular holes side by side strictly inside it,
/// at the same heights, each walked the way its role asks: one polygon, the
/// rectangle with both holes.
pub proof fn law_rectangle_with_two_holes(
    a: i64, b: i64, c: i64, d: i64, e: i64, f: i64, g: i64, h: i64, e2: i64, g2: i64,
)
    requires
        a < e < g < e2 < g2 < c,
        b < f < h < d,
    ensures
        collation(seq![outer_rect(a, b, c, d), hole_rect(e, f, g, h), hole_rect(e2, f, g2, h)])
            == Ok::<Seq<(Seq<Coord>, Seq<Seq<Coord>>)>, CollateError>(
                seq![(outer_rect(a, b, c, d), seq![hole_rect(e, f, g, h), hole_rect(e2, f, g2, h)])],
            ),
{
    let o1 = outer_rect(a, b, c, d);
    let h1 = hole_rect(e, f, g, h);
    let h2 = hole_rect(e2, f, g2, h);
    let rings = seq![o1, h1, h2];
    // the sweep
    lemma_rect_lows(a, b, c, d);
    lemma_rect_lows(e, f, g, h);
    lemma_rect_lows(e2, f, g2, h);
    let r0: Key = (b, d, 0usize);
    let r1: Key = (f, h, 1usize);
    let r2: Key = (f, h, 2usize);
    assert(extent_key(rings, 0) == r0);
    assert(extent_key(rings, 1) == r1);
    assert(extent_key(rings, 2) == r2);
    let q = seq![r0, r1, r2];
    assert(range_set(rings) =~= q.to_set()) by {
        assert forall|t: Key| range_set(rings).contains(t) <==> q.to_set().contains(t) by {
            if q.to_set().contains(t) {
                assert(q.contains(t));
                let j = choose|j: int| 0 <= j < 3 && q[j] == t;
                assert(rings[j].len() > 0 && t == extent_key(rings, j));
            }
            if range_set(rings).contains(t) {
                let i = choose|i: int| 0 <= i < rings.len() && rings[i].len() > 0 && t == #[trigger] extent_key(rings, i);
                assert(q[i] == t);
            }
        }
    }
    assert(lists_in_order(q, range_set(rings))) by {
        assert(sorted_by_keys(q));
    }
    lemma_in_order(q, range_set(rings));
    assert(sweep_run(q, 0) == (Seq::<i64>::empty(), b, d));
    assert(sweep_run(q, 1) == (Seq::<i64>::empty(), b, d));
    assert(sweep_run(q, 2) == (Seq::<i64>::empty(), f, h));
    assert(sweep_run(q, 3) == (Seq::<i64>::empty(), f, h));
    let s = mid(f as int, h as int) as i64;
    assert(sweeps_of(rings) =~= seq![s]);
    assert(f <= s < h);
    // the crossings
    let edges = ring_edges(rings);
    let l0 = ring_lines(o1, 0);
    let l1 = ring_lines(h1, 1);
    let l2 = ring_lines(h2, 2);
    assert(ring_edges(Seq::<Seq<Coord>>::empty()) =~= Seq::<TiedLine>::empty());
    assert(seq![o1].drop_last() =~= Seq::<Seq<Coord>>::empty());
    assert(seq![o1, h1].drop_last() =~= seq![o1]);
    assert(rings.drop_last() =~= seq![o1, h1]);
    assert(ring_edges(seq![o1]) =~= l0);
    assert(ring_edges(seq![o1, h1]) == l0 + l1);
    assert(edges == l0 + l1 + l2);
    lemma_outer_piece(a, b, c, d, 0, s);
    lemma_hole_piece(e, f, g, h, 1, s);
    lemma_hole_piece(e2, f, g2, h, 2, s);
    lemma_crossing_set_concat(l0, l1, s);
    lemma_crossing_set_concat(l0 + l1, l2, s);
    let k0: Key = (a, 0, 0usize);
    let k4: Key = (c, 2, 0usize);
    let hc1 = hole_crossings(e, g, 1, s == f);
    let hc2 = hole_crossings(e2, g2, 2, s == f);
    let cs = seq![k0] + hc1 + hc2 + seq![k4];
    let set = crossing_set(edges, s);
    assert(set =~= cs.to_set()) by {
        assert(outer_crossings(a, c, 0) =~= seq![k0] + seq![k4]);
        vstd::seq_lib::seq_to_set_distributes_over_add(seq![k0], seq![k4]);
        vstd::seq_lib::seq_to_set_distributes_over_add(seq![k0], hc1);
        vstd::seq_lib::seq_to_set_distributes_over_add(seq![k0] + hc1, hc2);
        vstd::seq_lib::seq_to_set_distributes_over_add(seq![k0] + hc1 + hc2, seq![k4]);
    }
    let literal = if s == f {
        seq![k0, (e, 1, 1usize), (e, 2, 1usize), (g, 0, 1usize), (e2, 1, 2usize), (e2, 2, 2usize), (g2, 0, 2usize), k4]
    } else {
        seq![k0, (e, 2, 1usize), (g, 0, 1usize), (e2, 2, 2usize), (g2, 0, 2usize), k4]
    };
    assert(cs =~= literal);
    assert(lists_in_order(cs, set)) by {
        assert(sorted_by_keys(literal));
    }
    lemma_in_order(cs, set);
    assert(meets_edge(edges, s)) by {
        assert(edges[0] == l0[0]);
    }
    // the scan
    let init = undecided(3);
    let ext = init.0.update(0, true);
    let hol1 = init.1.update(1, Some(0usize));
    let hol2 = hol1.update(2, Some(0usize));
    let st0 = ScanState { pending: None, inside: false, stack: Seq::empty(), exteriors: init.0, hole_of: init.1 };
    let st1 = ScanState { pending: None, inside: true, stack: seq![0usize], exteriors: ext, hole_of: init.1 };
    let st2 = ScanState { pending: None, inside: true, stack: seq![0usize], exteriors: ext, hole_of: hol1 };
    let st3 = ScanState { pending: None, inside: true, stack: seq![0usize], exteriors: ext, hole_of: hol2 };
    let st4 = ScanState { pending: None, inside: false, stack: Seq::empty(), exteriors: ext, hole_of: hol2 };
    assert(step(st0, k0, s) == Ok::<ScanState, CollateError>(st1)) by {
        assert(Seq::<usize>::empty().push(0usize) =~= seq![0usize]);
    }
    assert(scan(Seq::<Key>::empty(), s, st0) == Ok::<ScanState, CollateError>(st0));
    assert(seq![k0].drop_last() =~= Seq::<Key>::empty());
    assert(scan(seq![k0], s, st0) == Ok::<ScanState, CollateError>(st1));
    lemma_hole_scan(e, g, 0, 1, s, s == f, Seq::empty(), ext, init.1);
    lemma_scan_concat(seq![k0], hc1, s, st0);
    lemma_hole_scan(e2, g2, 0, 2, s, s == f, Seq::empty(), ext, hol1);
    lemma_scan_concat(seq![k0] + hc1, hc2, s, st0);
    assert(step(st3, k4, s) == Ok::<ScanState, CollateError>(st4)) by {
        assert(seq![0usize].drop_last() =~= Seq::<usize>::empty());
    }
    assert(scan(seq![k4], s, st3) == Ok::<ScanState, CollateError>(st4)) by {
        assert(seq![k4].drop_last() =~= Seq::<Key>::empty());
        assert(scan(Seq::<Key>::empty(), s, st3) == Ok::<ScanState, CollateError>(st3));
    }
    lemma_scan_concat(seq![k0] + hc1 + hc2, seq![k4], s, st0);
    assert(scan(cs, s, st0) == Ok::<ScanState, CollateError>(st4));
    assert(sweep_all(edges, Seq::<i64>::empty(), init) == Ok::<Classes, CollateError>(init));
    assert(seq![s].drop_last() =~= Seq::<i64>::empty());
    assert(sweep_all(edges, seq![s], init) == Ok::<Classes, CollateError>((ext, hol2)));
    // the polygon
    let cl = (ext, hol2);
    assert(classify(rings) == Ok::<Classes, CollateError>(cl));
    assert(!unclassified(cl, 0) && !unclassified(cl, 1) && !unclassified(cl, 2));
    assert(outers_upto(cl, 0) =~= Seq::<usize>::empty());
    assert(outers_upto(cl, 1) =~= seq![0usize]);
    assert(outers_upto(cl, 2) =~= seq![0usize]);
    assert(outers_upto(cl, 3) =~= seq![0usize]);
    assert(holes_upto(cl, 0, 0) =~= Seq::<usize>::empty());
    assert(holes_upto(cl, 0, 1) =~= Seq::<usize>::empty());
    assert(holes_upto(cl, 0, 2) =~= seq![1usize]);
    assert(holes_upto(cl, 0, 3) =~= seq![1usize, 2usize]);
    let ps = polygons_of(rings, cl);
    assert(ps.len() == 1);
    assert(ps[0].1 =~= seq![h1, h2]);
    assert(ps =~= seq![(o1, seq![h1, h2])]);
}

proof fn lemma_nested_sweep(
    a: i64, b: i64, c: i64, d: i64, e: i64, f: i64, g: i64, h: i64,
    i: i64, k: i64, j: i64, l: i64, m: i64, p: i64, n: i64, q: i64,
)
    requires
        a < e < i < m < n < j < g < c,
        b < f < k < p < q < l < h < d,
    ensures
        sweeps_of(seq![outer_rect(a, b, c, d), hole_rect(e, f, g, h), outer_rect(i, k, j, l), hole_rect(m, p, n, q)]) == seq![mid(p as int, q as int) as i64],
{
    let o1 = outer_rect(a, b, c, d);
    let h1 = hole_rect(e, f, g, h);
    let o2 = outer_rect(i, k, j, l);
    let h2 = hole_rect(m, p, n, q);
    let rings = seq![o1, h1, o2, h2];
    // the sweep
    lemma_rect_lows(a, b, c, d);
    lemma_rect_lows(e, f, g, h);
    lemma_rect_lows(i, k, j, l);
    lemma_rect_lows(m, p, n, q);
    let r0: Key = (b, d, 0usize);
    let r1: Key = (f, h, 1usize);
    let r2: Key = (k, l, 2usize);
    let r3: Key = (p, q, 3usize);
    assert(extent_key(rings, 0) == r0);
    assert(extent_key(rings, 1) == r1);
    assert(extent_key(rings, 2) == r2);
    assert(extent_key(rings, 3) == r3);
    let rq = seq![r0, r1, r2, r3];
    assert(range_set(rings) =~= rq.to_set()) by {
        assert forall|t: Key| range_set(rings).contains(t) <==> rq.to_set().contains(t) by {
            if rq.to_set().contains(t) {
                assert(rq.contains(t));
                let x = choose|x: int| 0 <= x < 4 && rq[x] == t;
                assert(rings[x].len() > 0 && t == extent_key(rings, x));
            }
            if range_set(rings).contains(t) {
                let x = choose|x: int| 0 <= x < rings.len() && rings[x].len() > 0 && t == #[trigger] extent_key(rings, x);
                assert(rq[x] == t);
            }
        }
    }
    assert(lists_in_order(rq, range_set(rings))) by {
        assert(sorted_by_keys(rq));
    }
    lemma_in_order(rq, range_set(rings));
    assert(sweep_run(rq, 0) == (Seq::<i64>::empty(), b, d));
    assert(sweep_run(rq, 1) == (Seq::<i64>::empty(), b, d));
    assert(sweep_run(rq, 2) == (Seq::<i64>::empty(), f, h));
    assert(sweep_run(rq, 3) == (Seq::<i64>::empty(), k, l));
    assert(sweep_run(rq, 4) == (Seq::<i64>::empty(), p, q));
    assert(sweeps_of(rings) =~= seq![mid(p as int, q as int) as i64]);
}

proof fn lemma_nested_crossings(
    a: i64, b: i64, c: i64, d: i64, e: i64, f: i64, g: i64, h: i64,
    i: i64, k: i64, j: i64, l: i64, m: i64, p: i64, n: i64, q: i64,
    s: i64,
)
    requires
        a < e < i < m < n < j < g < c,
        b < f < k < p < q < l < h < d,
        p <= s < q,
    ensures
        meets_edge(ring_edges(seq![outer_rect(a, b, c, d), hole_rect(e, f, g, h), outer_rect(i, k, j, l), hole_rect(m, p, n, q)]), s),
        in_order(crossing_set(ring_edges(seq![outer_rect(a, b, c, d), hole_rect(e, f, g, h), outer_rect(i, k, j, l), hole_rect(m, p, n, q)]), s)) == seq![(a, 0, 0usize), (e, 2, 1usize)] + rect_crossings(i, j, m, n, 2, 3, s == p) + seq![(g, 0, 1usize), (c, 2, 0usize)],
{
    let o1 = outer_rect(a, b, c, d);
    let h1 = hole_rect(e, f, g, h);
    let o2 = outer_rect(i, k, j, l);
    let h2 = hole_rect(m, p, n, q);
    let rings = seq![o1, h1, o2, h2];
    // the crossings
    let edges = ring_edges(rings);
    let l0 = ring_lines(o1, 0);
    let l1 = ring_lines(h1, 1);
    let l2 = ring_lines(o2, 2);
    let l3 = ring_lines(h2, 3);
    assert(ring_edges(Seq::<Seq<Coord>>::empty()) =~= Seq::<TiedLine>::empty());
    assert(seq![o1].drop_last() =~= Seq::<Seq<Coord>>::empty());
    assert(seq![o1, h1].drop_last() =~= seq![o1]);
    assert(seq![o1, h1, o2].drop_last() =~= seq![o1, h1]);
    assert(rings.drop_last() =~= seq![o1, h1, o2]);
    assert(ring_edges(seq![o1]) =~= l0);
    assert(ring_edges(seq![o1, h1]) == l0 + l1);
    assert(ring_edges(seq![o1, h1, o2]) == l0 + l1 + l2);
    assert(edges == l0 + l1 + l2 + l3);
    lemma_outer_piece(a, b, c, d, 0, s);
    lemma_hole_piece(e, f, g, h, 1, s);
    lemma_outer_piece(i, k, j, l, 2, s);
    lemma_hole_piece(m, p, n, q, 3, s);
    lemma_crossing_set_concat(l0, l1, s);
    lemma_crossing_set_concat(l0 + l1, l2, s);
    lemma_crossing_set_concat(l0 + l1 + l2, l3, s);
    let k0: Key = (a, 0, 0usize);
    let k1: Key = (e, 2, 1usize);
    let k6: Key = (g, 0, 1usize);
    let k7: Key = (c, 2, 0usize);
    let inner = rect_crossings(i, j, m, n, 2, 3, s == p);
    let cs = seq![k0, k1] + inner + seq![k6, k7];
    let set = crossing_set(edges, s);
    assert(hole_crossings(e, g, 1, s == f) =~= seq![k1, k6]);
    assert(set =~= cs.to_set()) by {
        let hc = hole_crossings(m, n, 3, s == p);
        let ki: Key = (i, 0, 2usize);
        let kj: Key = (j, 2, 2usize);
        assert(inner =~= seq![ki] + hc + seq![kj]);
        assert forall|t: Key| #[trigger] set.contains(t) <==> cs.to_set().contains(t) by {
            vstd::seq_lib::seq_to_set_distributes_over_add(seq![ki] + hc, seq![kj]);
            vstd::seq_lib::seq_to_set_distributes_over_add(seq![ki], hc);
            vstd::seq_lib::seq_to_set_distributes_over_add(seq![k0, k1] + inner, seq![k6, k7]);
            vstd::seq_lib::seq_to_set_distributes_over_add(seq![k0, k1], inner);
            if outer_crossings(a, c, 0).contains(t) {
                let x = choose|x: int| 0 <= x < 2 && outer_crossings(a, c, 0)[x] == t;
                if x == 0 { assert(seq![k0, k1][0] == t); } else { assert(seq![k6, k7][1] == t); }
            }
            if seq![k1, k6].contains(t) {
                let x = choose|x: int| 0 <= x < 2 && seq![k1, k6][x] == t;
                if x == 0 { assert(seq![k0, k1][1] == t); } else { assert(seq![k6, k7][0] == t); }
            }
            if outer_crossings(i, j, 2).contains(t) {
                let x = choose|x: int| 0 <= x < 2 && outer_crossings(i, j, 2)[x] == t;
                if x == 0 { assert(seq![ki][0] == t); } else { assert(seq![kj][0] == t); }
            }
            if seq![k0, k1].contains(t) {
                let x = choose|x: int| 0 <= x < 2 && seq![k0, k1][x] == t;
                if x == 0 { assert(outer_crossings(a, c, 0)[0] == t); } else { assert(seq![k1, k6][0] == t); }
            }
            if seq![k6, k7].contains(t) {
                let x = choose|x: int| 0 <= x < 2 && seq![k6, k7][x] == t;
                if x == 0 { assert(seq![k1, k6][1] == t); } else { assert(outer_crossings(a, c, 0)[1] == t); }
            }
            if seq![ki].contains(t) {
                assert(outer_crossings(i, j, 2)[0] == t);
            }
            if seq![kj].contains(t) {
                assert(outer_crossings(i, j, 2)[1] == t);
            }
        }
    }
    let literal = if s == p {
        seq![k0, k1, (i, 0, 2usize), (m, 1, 3usize), (m, 2, 3usize), (n, 0, 3usize), (j, 2, 2usize), k6, k7]
    } else {
        seq![k0, k1, (i, 0, 2usize), (m, 2, 3usize), (n, 0, 3usize), (j, 2, 2usize), k6, k7]
    };
    assert(cs =~= literal);
    assert(lists_in_order(cs, set)) by {
        assert(sorted_by_keys(literal));
    }
    lemma_in_order(cs, set);
    assert(meets_edge(edges, s)) by {
        assert(edges[0] == l0[0]);
    }
}

proof fn lemma_nested_scan(a: i64, c: i64, e: i64, g: i64, i: i64, j: i64, m: i64, n: i64, s: i64, p: i64)
    ensures
        scan(
            seq![(a, 0, 0usize), (e, 2, 1usize)] + rect_crossings(i, j, m, n, 2, 3, s == p) + seq![(g, 0, 1usize), (c, 2, 0usize)],
            s,
            ScanState { pending: None, inside: false, stack: Seq::empty(), exteriors: undecided(4).0, hole_of: undecided(4).1 },
        ) == Ok::<ScanState, CollateError>(ScanState {
            pending: None,
            inside: false,
            stack: Seq::empty(),
            exteriors: undecided(4).0.update(0, true).update(2, true),
            hole_of: undecided(4).1.update(1, Some(0usize)).update(3, Some(2usize)),
        }),
{
    let k0: Key = (a, 0, 0usize);
    let k1: Key = (e, 2, 1usize);
    let k6: Key = (g, 0, 1usize);
    let k7: Key = (c, 2, 0usize);
    let inner = rect_crossings(i, j, m, n, 2, 3, s == p);
    let cs = seq![k0, k1] + inner + seq![k6, k7];
    let init = undecided(4);
    let ext1 = init.0.update(0, true);
    let hol1 = init.1.update(1, Some(0usize));
    let ext2 = ext1.update(2, true);
    let hol2 = hol1.update(3, Some(2usize));
    let st0 = ScanState { pending: None, inside: false, stack: Seq::empty(), exteriors: init.0, hole_of: init.1 };
    let st1 = ScanState { pending: None, inside: true, stack: seq![0usize], exteriors: ext1, hole_of: init.1 };
    let st2 = ScanState { pending: None, inside: false, stack: seq![0usize, 1usize], exteriors: ext1, hole_of: hol1 };
    let st3 = ScanState { pending: None, inside: false, stack: seq![0usize, 1usize], exteriors: ext2, hole_of: hol2 };
    let st4 = ScanState { pending: None, inside: true, stack: seq![0usize], exteriors: ext2, hole_of: hol2 };
    let st5 = ScanState { pending: None, inside: false, stack: Seq::empty(), exteriors: ext2, hole_of: hol2 };
    assert(step(st0, k0, s) == Ok::<ScanState, CollateError>(st1)) by {
        assert(Seq::<usize>::empty().push(0usize) =~= seq![0usize]);
    }
    assert(step(st1, k1, s) == Ok::<ScanState, CollateError>(st2)) by {
        assert(seq![0usize].push(1usize) =~= seq![0usize, 1usize]);
    }
    assert(scan(seq![k0, k1], s, st0) == Ok::<ScanState, CollateError>(st2)) by {
        lemma_single_step(k0, s, st0, st1);
        assert(seq![k0, k1].drop_last() =~= seq![k0]);
    }
    lemma_rect_scan(i, j, m, n, 2, 3, s, s == p, seq![0usize, 1usize], ext1, hol1);
    lemma_scan_concat(seq![k0, k1], inner, s, st0);
    assert(step(st3, k6, s) == Ok::<ScanState, CollateError>(st4)) by {
        assert(seq![0usize, 1usize].drop_last() =~= seq![0usize]);
    }
    assert(step(st4, k7, s) == Ok::<ScanState, CollateError>(st5)) by {
        assert(seq![0usize].drop_last() =~= Seq::<usize>::empty());
    }
    assert(scan(seq![k6, k7], s, st3) == Ok::<ScanState, CollateError>(st5)) by {
        lemma_single_step(k6, s, st3, st4);
        assert(seq![k6, k7].drop_last() =~= seq![k6]);
    }
    lemma_scan_concat(seq![k0, k1] + inner, seq![k6, k7], s, st0);
    assert(scan(cs, s, st0) == Ok::<ScanState, CollateError>(st5));
}

/// A rectangle with a hole, and inside that hole a second rectangle with a
/// hole of its own, each strictly inside the one around it and walked the
/// way its role asks: two polygons, each outer ring with its own hole. The
/// ring inside the hole is an outer ring, not an error.
pub proof fn law_ring_inside_hole(
    a: i64, b: i64, c: i64, d: i64, e: i64, f: i64, g: i64, h: i64,
    i: i64, k: i64, j: i64, l: i64, m: i64, p: i64, n: i64, q: i64,
)
    requires
        a < e < i < m < n < j < g < c,
        b < f < k < p < q < l < h < d,
    ensures
        collation(seq![outer_rect(a, b, c, d), hole_rect(e, f, g, h), outer_rect(i, k, j, l), hole_rect(m, p, n, q)])
            == Ok::<Seq<(Seq<Coord>, Seq<Seq<Coord>>)>, CollateError>(seq![
                (outer_rect(a, b, c, d), seq![hole_rect(e, f, g, h)]),
                (outer_rect(i, k, j, l), seq![hole_rect(m, p, n, q)]),
            ]),
{
    let o1 = outer_rect(a, b, c, d);
    let h1 = hole_rect(e, f, g, h);
    let o2 = outer_rect(i, k, j, l);
    let h2 = hole_rect(m, p, n, q);
    let rings = seq![o1, h1, o2, h2];
    lemma_nested_sweep(a, b, c, d, e, f, g, h, i, k, j, l, m, p, n, q);
    let s = mid(p as int, q as int) as i64;
    assert(p <= s < q);
    lemma_nested_crossings(a, b, c, d, e, f, g, h, i, k, j, l, m, p, n, q, s);
    lemma_nested_scan(a, c, e, g, i, j, m, n, s, p);
    let edges = ring_edges(rings);
    let init = undecided(4);
    let ext2 = init.0.update(0, true).update(2, true);
    let hol2 = init.1.update(1, Some(0usize)).update(3, Some(2usize));
    assert(sweep_all(edges, Seq::<i64>::empty(), init) == Ok::<Classes, CollateError>(init));
    assert(seq![s].drop_last() =~= Seq::<i64>::empty());
    assert(sweep_all(edges, seq![s], init) == Ok::<Classes, CollateError>((ext2, hol2)));
    // the polygons
    let cl = (ext2, hol2);
    assert(classify(rings) == Ok::<Classes, CollateError>(cl));
    assert(!unclassified(cl, 0) && !unclassified(cl, 1) && !unclassified(cl, 2) && !unclassified(cl, 3));
    assert(outers_upto(cl, 0) =~= Seq::<usize>::empty());
    assert(outers_upto(cl, 1) =~= seq![0usize]);
    assert(outers_upto(cl, 2) =~= seq![0usize]);
    assert(outers_upto(cl, 3) =~= seq![0usize, 2usize]);
    assert(outers_upto(cl, 4) =~= seq![0usize, 2usize]);
    assert(holes_upto(cl, 0, 0) =~= Seq::<usize>::empty());
    assert(holes_upto(cl, 0, 1) =~= Seq::<usize>::empty());
    assert(holes_upto(cl, 0, 2) =~= seq![1usize]);
    assert(holes_upto(cl, 0, 3) =~= seq![1usize]);
    assert(holes_upto(cl, 0, 4) =~= seq![1usize]);
    assert(holes_upto(cl, 2, 0) =~= Seq::<usize>::empty());
    assert(holes_upto(cl, 2, 1) =~= Seq::<usize>::empty());
    assert(holes_upto(cl, 2, 2) =~= Seq::<usize>::empty());
    assert(holes_upto(cl, 2, 3) =~= Seq::<usize>::empty());
    assert(holes_upto(cl, 2, 4) =~= seq![3usize]);
    let ps = polygons_of(rings, cl);
    assert(ps.len() == 2);
    assert(ps[0].1 =~= seq![h1]);
    assert(ps[1].1 =~= seq![h2]);
    assert(ps =~= seq![(o1, seq![h1]), (o2, seq![h2])]);
}

/// A rectangle walked the way an outer ring runs, with a notch cut down from
/// its top edge between x = p and x = r, whose tip (q, y) lies at the height
/// y halfway between bottom and top (rounded down): exactly on the sweep line.
pub open spec fn notched_rect(a: i64, b: i64, c: i64, d: i64, p: i64, q: i64, r: i64) -> Seq<Coord> {
    let m = mid(b as int, d as int) as i64;
    seq![pt(a, b), pt(a, d), pt(p, d), pt(q, m), pt(r, d), pt(c, d), pt(c, b), pt(a, b)]
}

/// A notched rectangle whose notch tip touches the sweep line from inside
/// collates to one polygon: itself, with no holes. The two edges meeting at
/// the tip only touch the line and change nothing.
pub proof fn law_notched_rectangle(a: i64, b: i64, c: i64, d: i64, p: i64, q: i64, r: i64)
    requires
        a < p < q < r < c,
        b + 2 <= d,
    ensures
        collation(seq![notched_rect(a, b, c, d, p, q, r)])
            == Ok::<Seq<(Seq<Coord>, Seq<Seq<Coord>>)>, CollateError>(
                seq![(notched_rect(a, b, c, d, p, q, r), Seq::<Seq<Coord>>::empty())],
            ),
{
    let ring = notched_rect(a, b, c, d, p, q, r);
    let rings = seq![ring];
    let s = mid(b as int, d as int) as i64;
    assert(b < s < d);
    // the sweep
    lemma_ring_extent(ring);
    assert(ring_low(ring) == b && ring_high(ring) == d) by {
        assert(ring[0].y == b && ring[1].y == d);
        let i = choose|i: int| 0 <= i < ring.len() && ring[i].y == ring_low(ring);
        let j = choose|j: int| 0 <= j < ring.len() && ring[j].y == ring_high(ring);
    }
    let r0: Key = (b, d, 0usize);
    assert(extent_key(rings, 0) == r0);
    let rq = seq![r0];
    assert(range_set(rings) =~= rq.to_set()) by {
        assert forall|t: Key| range_set(rings).contains(t) <==> rq.to_set().contains(t) by {
            if rq.to_set().contains(t) {
                assert(rq.contains(t));
                assert(rings[0].len() > 0 && t == extent_key(rings, 0));
            }
            if range_set(rings).contains(t) {
                let i = choose|i: int| 0 <= i < rings.len() && rings[i].len() > 0 && t == #[trigger] extent_key(rings, i);
                assert(rq[i] == t);
            }
        }
    }
    assert(lists_in_order(rq, range_set(rings))) by {
        assert(sorted_by_keys(rq));
    }
    lemma_in_order(rq, range_set(rings));
    assert(sweep_run(rq, 0) == (Seq::<i64>::empty(), b, d));
    assert(sweep_run(rq, 1) == (Seq::<i64>::empty(), b, d));
    assert(sweeps_of(rings) =~= seq![s]);
    // the edges and their crossings
    let edges = ring_edges(rings);
    assert(rings.drop_last() =~= Seq::<Seq<Coord>>::empty());
    assert(ring_edges(Seq::<Seq<Coord>>::empty()) =~= Seq::<TiedLine>::empty());
    assert(edges =~= seq![
        tied(a, b, a, d, 0), tied(a, d, p, d, 0), tied(p, d, q, s, 0), tied(q, s, r, d, 0),
        tied(r, d, c, d, 0), tied(c, d, c, b, 0), tied(c, b, a, b, 0),
    ]);
    lemma_zero_run(s - d, d - b);
    lemma_zero_run(s - b, b - d);
    lemma_zero_run(s - s, d - s);
    assert(edges[2].sloped_x(s as int) == q) by {
        let k = d - s;
        let w = q - p;
        assert(abs((s - d) * (q - p)) == k * w) by (nonlinear_arith)
            requires k > 0, w > 0, k == d - s, w == q - p;
        assert((k * w) / k == w) by (nonlinear_arith)
            requires k > 0;
        assert(abs(s - d) == k);
    }
    let k0: Key = (a, 0, 0usize);
    let k1: Key = (q, 0, 0usize);
    let k2: Key = (q, 2, 0usize);
    let k3: Key = (c, 2, 0usize);
    assert(key_of(edges[0].crossing(s as int)) == k0);
    assert(key_of(edges[2].crossing(s as int)) == k2);
    assert(key_of(edges[3].crossing(s as int)) == k1);
    assert(key_of(edges[5].crossing(s as int)) == k3);
    let cs = seq![k0, k1, k2, k3];
    let set = crossing_set(edges, s);
    assert(set =~= cs.to_set()) by {
        assert forall|t: Key| set.contains(t) <==> cs.to_set().contains(t) by {
            if set.contains(t) {
                let k = choose|k: int| 0 <= k < edges.len() && #[trigger] edges[k].spans(s as int)
                    && t == key_of(edges[k].crossing(s as int));
                if k == 0 { assert(cs[0] == t); } else if k == 2 { assert(cs[2] == t); }
                else if k == 3 { assert(cs[1] == t); } else { assert(k == 5); assert(cs[3] == t); }
                assert(cs.contains(t));
            }
            if cs.to_set().contains(t) {
                assert(cs.contains(t));
                assert(edges[0].spans(s as int) && edges[2].spans(s as int));
                assert(edges[3].spans(s as int) && edges[5].spans(s as int));
            }
        }
    }
    assert(lists_in_order(cs, set)) by {
        assert(sorted_by_keys(cs));
    }
    lemma_in_order(cs, set);
    assert(meets_edge(edges, s)) by {
        assert(edges[0].spans(s as int));
    }
    // the scan: in at the left side, a touch at the tip, out at the right side
    let init = undecided(1);
    let ext = init.0.update(0, true);
    let st0 = ScanState { pending: None, inside: false, stack: Seq::empty(), exteriors: init.0, hole_of: init.1 };
    let st1 = ScanState { pending: None, inside: true, stack: seq![0usize], exteriors: ext, hole_of: init.1 };
    let st2 = ScanState { pending: Some(k1), inside: true, stack: seq![0usize], exteriors: ext, hole_of: init.1 };
    let st3 = ScanState { pending: None, inside: false, stack: Seq::empty(), exteriors: ext, hole_of: init.1 };
    assert(step(st0, k0, s) == Ok::<ScanState, CollateError>(st1)) by {
        assert(Seq::<usize>::empty().push(0usize) =~= seq![0usize]);
    }
    assert(step(st1, k1, s) == Ok::<ScanState, CollateError>(st2));
    assert(step(st2, k2, s) == Ok::<ScanState, CollateError>(st1)) by {
        let released = ScanState { pending: None, inside: true, stack: seq![0usize], exteriors: ext, hole_of: init.1 };
        assert(seq![0usize].drop_last() =~= Seq::<usize>::empty());
        assert(plain_step(released, k2, s) == Ok::<ScanState, CollateError>(st3));
        assert(ext.update(0, true) =~= ext);
        assert(Seq::<usize>::empty().push(0usize) =~= seq![0usize]);
        assert(plain_step(st3, k1, s) == Ok::<ScanState, CollateError>(st1));
    }
    assert(step(st1, k3, s) == Ok::<ScanState, CollateError>(st3)) by {
        assert(seq![0usize].drop_last() =~= Seq::<usize>::empty());
    }
    lemma_single_step(k0, s, st0, st1);
    assert(seq![k0, k1].drop_last() =~= seq![k0]);
    assert(scan(seq![k0, k1], s, st0) == Ok::<ScanState, CollateError>(st2));
    assert(seq![k0, k1, k2].drop_last() =~= seq![k0, k1]);
    assert(scan(seq![k0, k1, k2], s, st0) == Ok::<ScanState, CollateError>(st1));
    assert(cs.drop_last() =~= seq![k0, k1, k2]);
    assert(scan(cs, s, st0) == Ok::<ScanState, CollateError>(st3));
    assert(sweep_all(edges, Seq::<i64>::empty(), init) == Ok::<Classes, CollateError>(init));
    assert(seq![s].drop_last() =~= Seq::<i64>::empty());
    assert(sweep_all(edges, seq![s], init) == Ok::<Classes, CollateError>((ext, init.1)));
    // the polygon
    let cl = (ext, init.1);
    assert(classify(rings) == Ok::<Classes, CollateError>(cl));
    assert(!unclassified(cl, 0));
    assert(outers_upto(cl, 0) =~= Seq::<usize>::empty());
    assert(outers_upto(cl, 1) =~= seq![0usize]);
    assert(holes_upto(cl, 0, 0) =~= Seq::<usize>::empty());
    assert(holes_upto(cl, 0, 1) =~= Seq::<usize>::empty());
    let ps = polygons_of(rings, cl);
    assert(ps.len() == 1);
    assert(ps[0].1 =~= Seq::<Seq<Coord>>::empty());
    assert(ps =~= seq![(ring, Seq::<Seq<Coord>>::empty())]);
}

/// The same with the hole listed before its outer ring: still one polygon,
/// the outer ring with that one hole.
pub proof fn law_rectangle_with_hole_listed_first(a: i64, b: i64, c: i64, d: i64, e: i64, f: i64, g: i64, h: i64)
    requires
        a < e < g < c,
        b < f < h < d,
    ensures
        collation(seq![hole_rect(e, f, g, h), outer_rect(a, b, c, d)])
            == Ok::<Seq<(Seq<Coord>, Seq<Seq<Coord>>)>, CollateError>(
                seq![(outer_rect(a, b, c, d), seq![hole_rect(e, f, g, h)])],
            ),
{
    let outer = outer_rect(a, b, c, d);
    let hole = hole_rect(e, f, g, h);
    let rings = seq![hole, outer];
    // the sweep
    lemma_rect_lows(a, b, c, d);
    lemma_rect_lows(e, f, g, h);
    let r0: Key = (f, h, 0usize);
    let r1: Key = (b, d, 1usize);
    assert(extent_key(rings, 0) == r0);
    assert(extent_key(rings, 1) == r1);
    let q = seq![r1, r0];
    assert(range_set(rings) =~= q.to_set()) by {
        assert forall|t: Key| range_set(rings).contains(t) <==> q.to_set().contains(t) by {
            if q.to_set().contains(t) {
                assert(q.contains(t));
                let j = choose|j: int| 0 <= j < 2 && q[j] == t;
                assert(rings[1 - j].len() > 0 && t == extent_key(rings, 1 - j));
            }
            if range_set(rings).contains(t) {
                let i = choose|i: int| 0 <= i < rings.len() && rings[i].len() > 0 && t == #[trigger] extent_key(rings, i);
                assert(q[1 - i] == t);
            }
        }
    }
    assert(lists_in_order(q, range_set(rings))) by {
        assert(sorted_by_keys(q));
    }
    lemma_in_order(q, range_set(rings));
    assert(sweep_run(q, 0) == (Seq::<i64>::empty(), b, d));
    assert(sweep_run(q, 1) == (Seq::<i64>::empty(), b, d));
    assert(sweep_run(q, 2) == (Seq::<i64>::empty(), f, h));
    let s = mid(f as int, h as int) as i64;
    assert(sweeps_of(rings) =~= seq![s]);
    assert(f <= s < h);
    // the crossings
    let edges = ring_edges(rings);
    let hl = ring_lines(hole, 0);
    let ol = ring_lines(outer, 1);
    assert(rings.drop_last() =~= seq![hole]);
    assert(seq![hole].drop_last() =~= Seq::<Seq<Coord>>::empty());
    assert(ring_edges(Seq::<Seq<Coord>>::empty()) =~= Seq::<TiedLine>::empty());
    assert(ring_edges(seq![hole]) =~= hl);
    assert(edges == hl + ol);
    lemma_lines_of_pair(a, b, c, d, e, f, g, h, 1, 0);
    lemma_pair_crossings(a, b, c, d, e, f, g, h, 1, 0, s);
    lemma_crossing_set_concat(hl, ol, s);
    lemma_crossing_set_concat(ol, hl, s);
    let cs = rect_crossings(a, c, e, g, 1, 0, s == f);
    assert(crossing_set(edges, s) =~= crossing_set(ol + hl, s));
    lemma_in_order(cs, crossing_set(edges, s));
    assert(meets_edge(edges, s)) by {
        assert(meets_edge(ol + hl, s));
        let k = choose|k: int| 0 <= k < (ol + hl).len() && #[trigger] (ol + hl)[k].spans(s as int);
        if k < ol.len() {
            assert(edges[k + hl.len()] == (ol + hl)[k]);
        } else {
            assert(edges[k - ol.len()] == (ol + hl)[k]);
        }
    }
    // the scan
    let init = undecided(2);
    let ext = init.0.update(1, true);
    let holes = init.1.update(0, Some(1usize));
    lemma_rect_scan(a, c, e, g, 1, 0, s, s == f, Seq::empty(), init.0, init.1);
    assert(sweep_all(edges, Seq::<i64>::empty(), init) == Ok::<Classes, CollateError>(init));
    assert(seq![s].drop_last() =~= Seq::<i64>::empty());
    assert(sweep_all(edges, seq![s], init) == Ok::<Classes, CollateError>((ext, holes)));
    // the polygon
    let cl = (ext, holes);
    assert(classify(rings) == Ok::<Classes, CollateError>(cl));
    assert(!unclassified(cl, 0) && !unclassified(cl, 1));
    assert(outers_upto(cl, 0) =~= Seq::<usize>::empty());
    assert(outers_upto(cl, 1) =~= Seq::<usize>::empty());
    assert(outers_upto(cl, 2) =~= seq![1usize]);
    assert(holes_upto(cl, 1, 0) =~= Seq::<usize>::empty());
    assert(holes_upto(cl, 1, 1) =~= seq![0usize]);
    assert(holes_upto(cl, 1, 2) =~= seq![0usize]);
    let ps = polygons_of(rings, cl);
    assert(ps.len() == 1);
    assert(ps[0].1 =~= seq![hole]);
    assert(ps =~= seq![(outer, seq![hole])]);
}

/// Collating the rings of the result again, listed in either order, gives
/// the same result: a rectangle and its hole.
pub proof fn law_rectangle_with_hole_recollates(a: i64, b: i64, c: i64, d: i64, e: i64, f: i64, g: i64, h: i64)
    requires
        a < e < g < c,
        b < f < h < d,
    ensures
        collation(seq![outer_rect(a, b, c, d), hole_rect(e, f, g, h)]) is Ok,
        ({
            let ps = collation(seq![outer_rect(a, b, c, d), hole_rect(e, f, g, h)])->Ok_0;
            collation(all_rings(ps)) == Ok::<Seq<(Seq<Coord>, Seq<Seq<Coord>>)>, CollateError>(ps)
                && collation(all_rings(ps).reverse()) == Ok::<Seq<(Seq<Coord>, Seq<Seq<Coord>>)>, CollateError>(ps)
        }),
{
    let outer = outer_rect(a, b, c, d);
    let hole = hole_rect(e, f, g, h);
    law_rectangle_with_hole(a, b, c, d, e, f, g, h);
    law_rectangle_with_hole_listed_first(a, b, c, d, e, f, g, h);
    let ps = seq![(outer, seq![hole])];
    assert(ps.drop_last() =~= Seq::<(Seq<Coord>, Seq<Seq<Coord>>)>::empty());
    assert(all_rings(Seq::<(Seq<Coord>, Seq<Seq<Coord>>)>::empty()) =~= Seq::<Seq<Coord>>::empty());
    assert(all_rings(ps) =~= seq![outer, hole]);
    assert(all_rings(ps).reverse() =~= seq![hole, outer]);
}

spec fn sorted_by_keys(q: Seq<Key>) -> bool {
    forall|i: int, j: int| 0 <= i < j < q.len() ==> #[trigger] (key_order())(q[i], q[j])
}

} // verus!

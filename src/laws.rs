//! Properties of collation that hold for every input.
use vstd::prelude::*;
use crate::classify::{Classes, classify, crossing_set, lemma_sweep_all_err_prefix, meets_edge, sweep_all, sweeps_of, undecided};
use crate::collate::{assembled, collation, holes_upto, is_hole_of, lemma_holes_below, lemma_holes_shape, lemma_outers_below, outers_upto, polygons_of, unclassified};
use crate::edges::{lemma_edge_indices, ring_edges};
use crate::geometry::{Coord, Key, TiedLine, key_of};
use crate::nesting::{CollateError, ScanState, lemma_scan_err_prefix, plain_step, scan, step};
use crate::ordering::{in_order, lemma_listing_exists, lemma_map_same_multiset, lemma_same_elements_same_multiset};

verus! {

/// A classification of `n` rings in which every hole lies in an outer ring
/// other than itself.
pub open spec fn consistent(cl: Classes, n: nat) -> bool {
    &&& cl.0.len() == n
    &&& cl.1.len() == n
    &&& forall|j: int| 0 <= j < n && (#[trigger] cl.1[j]) is Some ==> {
        let o = cl.1[j]->Some_0 as int;
        0 <= o < n && o != j && cl.0[o]
    }
}

/// A scan state over `n` rings: consistent, and every ring on the stack
/// already classified.
pub open spec fn scan_ok(st: ScanState, n: nat) -> bool {
    &&& consistent((st.exteriors, st.hole_of), n)
    &&& forall|a: int| 0 <= a < st.stack.len() ==> {
        let e = #[trigger] st.stack[a] as int;
        0 <= e < n && (st.exteriors[e] || st.hole_of[e] is Some)
    }
    &&& st.pending is Some ==> (st.pending->Some_0).2 < n
}

proof fn lemma_plain_step_ok(st: ScanState, c: Key, s: i64, n: nat)
    requires
        scan_ok(st, n),
        c.2 < n,
        plain_step(st, c, s) is Ok,
    ensures
        scan_ok(plain_step(st, c, s)->Ok_0, n),
{
    let next = plain_step(st, c, s)->Ok_0;
    let idx = c.2;
    let on_top = st.stack.len() > 0 && st.stack.last() == idx;
    if c.1 != 1 {
        if !on_top {
            assert(next.stack == st.stack.push(idx));
        } else {
            assert(next.stack == st.stack.drop_last());
        }
        assert forall|a: int| 0 <= a < next.stack.len() implies {
            let e = #[trigger] next.stack[a] as int;
            0 <= e < n && (next.exteriors[e] || next.hole_of[e] is Some)
        } by {
            if a < st.stack.len() {
                assert(next.stack[a] == st.stack[a]);
            }
        }
        if st.inside && !on_top {
            let last = st.stack.last() as int;
            assert(st.stack[st.stack.len() - 1] == last);
        }
    }
}

proof fn lemma_step_ok(st: ScanState, c: Key, s: i64, n: nat)
    requires
        scan_ok(st, n),
        c.2 < n,
        step(st, c, s) is Ok,
    ensures
        scan_ok(step(st, c, s)->Ok_0, n),
{
    if c.1 != 1 {
        if st.pending is Some {
            let p = st.pending->Some_0;
            let released = ScanState {
                pending: None,
                inside: st.inside,
                stack: st.stack,
                exteriors: st.exteriors,
                hole_of: st.hole_of,
            };
            lemma_plain_step_ok(released, c, s, n);
            lemma_plain_step_ok(plain_step(released, c, s)->Ok_0, p, s, n);
        } else if !(st.inside && c.1 == 0) {
            lemma_plain_step_ok(st, c, s, n);
        }
    }
}

proof fn lemma_scan_ok(cs: Seq<Key>, s: i64, st: ScanState, n: nat)
    requires
        scan_ok(st, n),
        forall|a: int| 0 <= a < cs.len() ==> (#[trigger] cs[a]).2 < n,
        scan(cs, s, st) is Ok,
    ensures
        scan_ok(scan(cs, s, st)->Ok_0, n),
    decreases cs.len(),
{
    if cs.len() > 0 {
        lemma_scan_ok(cs.drop_last(), s, st, n);
        lemma_step_ok(scan(cs.drop_last(), s, st)->Ok_0, cs.last(), s, n);
    }
}

pub proof fn lemma_crossing_set_finite(edges: Seq<TiedLine>, s: i64)
    ensures
        crossing_set(edges, s).finite(),
{
    let all = Seq::new(edges.len(), |k: int| key_of(edges[k].crossing(s as int)));
    assert(crossing_set(edges, s).subset_of(all.to_set())) by {
        assert forall|c: Key| crossing_set(edges, s).contains(c) implies all.to_set().contains(c) by {
            let k = choose|k: int| 0 <= k < edges.len() && #[trigger] edges[k].spans(s as int)
                && c == key_of(edges[k].crossing(s as int));
            assert(all[k] == c);
        }
    }
    vstd::seq_lib::seq_to_set_is_finite(all);
    vstd::set_lib::lemma_set_subset_finite(all.to_set(), crossing_set(edges, s));
}

proof fn lemma_sweep_all_ok(edges: Seq<TiedLine>, sweeps: Seq<i64>, cl: Classes, n: nat)
    requires
        consistent(cl, n),
        forall|k: int| 0 <= k < edges.len() ==> (#[trigger] edges[k]).index < n,
        sweep_all(edges, sweeps, cl) is Ok,
    ensures
        consistent(sweep_all(edges, sweeps, cl)->Ok_0, n),
    decreases sweeps.len(),
{
    if sweeps.len() > 0 {
        lemma_sweep_all_ok(edges, sweeps.drop_last(), cl, n);
        let mid = sweep_all(edges, sweeps.drop_last(), cl)->Ok_0;
        let s = sweeps.last();
        let set = crossing_set(edges, s);
        let cs = in_order(set);
        if meets_edge(edges, s) {
            let k = choose|k: int| 0 <= k < edges.len() && #[trigger] edges[k].spans(s as int);
            let c0 = key_of(edges[k].crossing(s as int));
            assert(set.contains(c0));
            lemma_crossing_set_finite(edges, s);
            lemma_listing_exists(set);
            assert forall|a: int| 0 <= a < cs.len() implies (#[trigger] cs[a]).2 < n by {
                assert(cs.to_set().contains(cs[a]));
                assert(set.contains(cs[a]));
            }
            let st = ScanState { pending: None, inside: false, stack: Seq::empty(), exteriors: mid.0, hole_of: mid.1 };
            lemma_scan_ok(cs, s, st, n);
        }
    }
}

/// After a successful run of the sweeps, every ring that is a hole lies in a
/// ring classified as an outer ring, and never in itself.
pub proof fn law_holes_lie_in_outer_rings(rings: Seq<Seq<Coord>>)
    ensures
        classify(rings) is Ok ==> consistent(classify(rings)->Ok_0, rings.len()),
{
    let n = rings.len();
    let init = undecided(n);
    assert(consistent(init, n));
    lemma_edge_indices(rings);
    if classify(rings) is Ok {
        lemma_sweep_all_ok(ring_edges(rings), sweeps_of(rings), init, n);
    }
}

/// A single ring, when it collates, makes exactly one polygon: the ring
/// itself as the outer ring, with no holes.
pub proof fn law_single_ring(ring: Seq<Coord>)
    ensures
        collation(seq![ring]) is Ok ==> collation(seq![ring])->Ok_0 == seq![(ring, Seq::<Seq<Coord>>::empty())],
{
    let rings = seq![ring];
    law_holes_lie_in_outer_rings(rings);
    if collation(rings) is Ok {
        let cl = classify(rings)->Ok_0;
        assert(cl.1[0] is None);
        assert(classify(rings) is Ok);
        assert(assembled(rings, cl) is Ok);
        if !cl.0[0] {
            assert(unclassified(cl, 0));
            assert(false);
        }
        assert(cl.0[0]);
        assert(outers_upto(cl, 0) == Seq::<usize>::empty());
        assert(outers_upto(cl, 1) == Seq::<usize>::empty().push(0usize));
        assert(outers_upto(cl, 1) =~= seq![0usize]);
        assert(!is_hole_of(cl, 0, 0));
        assert(holes_upto(cl, 0, 0) == Seq::<usize>::empty());
        assert(holes_upto(cl, 0, 1) =~= Seq::<usize>::empty());
        let ps = polygons_of(rings, cl);
        assert(ps.len() == 1);
        assert(ps[0].0 == ring);
        assert(ps[0].1 =~= Seq::<Seq<Coord>>::empty());
        assert(ps =~= seq![(ring, Seq::<Seq<Coord>>::empty())]);
    }
}

/// The crossings of sweep `w` of `rings`, left to right.
pub open spec fn sweep_crossings(rings: Seq<Seq<Coord>>, w: int) -> Seq<Key> {
    in_order(crossing_set(ring_edges(rings), sweeps_of(rings)[w]))
}

/// When the sweeps before sweep `w` go through, and on sweep `w` the first
/// crossing that is not horizontal is a descending one (a ring's boundary
/// closes while no ring is open), collation fails with `HoleWithoutOutline`
/// at that sweep's height and that crossing's x.
pub proof fn law_descent_outside_fails(rings: Seq<Seq<Coord>>, w: int, c: int)
    requires
        0 <= w < sweeps_of(rings).len(),
        sweep_all(ring_edges(rings), sweeps_of(rings).take(w), undecided(rings.len())) is Ok,
        0 <= c < sweep_crossings(rings, w).len(),
        sweep_crossings(rings, w)[c].1 == 2,
        forall|k: int| 0 <= k < c ==> (#[trigger] sweep_crossings(rings, w)[k]).1 == 1,
    ensures
        collation(rings) == Err::<Seq<(Seq<Coord>, Seq<Seq<Coord>>)>, CollateError>(
            CollateError::HoleWithoutOutline(sweeps_of(rings)[w], sweep_crossings(rings, w)[c].0),
        ),
{
    let edges = ring_edges(rings);
    let sweeps = sweeps_of(rings);
    let s = sweeps[w];
    let set = crossing_set(edges, s);
    let cs = sweep_crossings(rings, w);
    let init = undecided(rings.len());
    let mid = sweep_all(edges, sweeps.take(w), init)->Ok_0;
    let st = ScanState { pending: None, inside: false, stack: Seq::empty(), exteriors: mid.0, hole_of: mid.1 };
    lemma_crossing_set_finite(edges, s);
    lemma_listing_exists(set);
    assert(cs.to_set().contains(cs[0]));
    let k0 = choose|k: int| 0 <= k < edges.len() && #[trigger] edges[k].spans(s as int)
        && cs[0] == key_of(edges[k].crossing(s as int));
    assert(meets_edge(edges, s));
    assert forall|k: int| 0 <= k <= c implies scan(#[trigger] cs.take(k), s, st) == Ok::<ScanState, CollateError>(st) by {
        lemma_horizontal_prefix(cs, k, s, st);
    }
    assert(cs.take(c + 1).drop_last() =~= cs.take(c));
    assert(scan(cs.take(c + 1), s, st) == Err::<ScanState, CollateError>(CollateError::HoleWithoutOutline(s, cs[c].0)));
    lemma_scan_err_prefix(cs, c + 1, s, st);
    assert(sweeps.take(w + 1).drop_last() =~= sweeps.take(w));
    assert(sweeps.take(w + 1).last() == s);
    lemma_sweep_all_err_prefix(edges, sweeps, w + 1, init);
}

proof fn lemma_horizontal_prefix(cs: Seq<Key>, k: int, s: i64, st: ScanState)
    requires
        0 <= k <= cs.len(),
        forall|a: int| 0 <= a < k ==> (#[trigger] cs[a]).1 == 1,
    ensures
        scan(cs.take(k), s, st) == Ok::<ScanState, CollateError>(st),
    decreases k,
{
    if k > 0 {
        assert(cs.take(k).drop_last() =~= cs.take(k - 1));
        lemma_horizontal_prefix(cs, k - 1, s, st);
    }
}

/// Inside a ring exactly when an odd number of rings is open.
pub open spec fn balanced(st: ScanState) -> bool {
    st.inside == (st.stack.len() % 2 == 1)
}

proof fn lemma_scan_balanced(cs: Seq<Key>, s: i64, st: ScanState)
    requires
        balanced(st),
    ensures
        scan(cs, s, st) != Err::<ScanState, CollateError>(CollateError::EmptyPolyStack),
        scan(cs, s, st) is Ok ==> balanced(scan(cs, s, st)->Ok_0),
    decreases cs.len(),
{
    if cs.len() > 0 {
        lemma_scan_balanced(cs.drop_last(), s, st);
    }
}

proof fn lemma_sweep_all_no_underflow(edges: Seq<TiedLine>, sweeps: Seq<i64>, cl: Classes)
    ensures
        sweep_all(edges, sweeps, cl) != Err::<Classes, CollateError>(CollateError::EmptyPolyStack),
    decreases sweeps.len(),
{
    if sweeps.len() > 0 {
        lemma_sweep_all_no_underflow(edges, sweeps.drop_last(), cl);
        if sweep_all(edges, sweeps.drop_last(), cl) is Ok {
            let mid = sweep_all(edges, sweeps.drop_last(), cl)->Ok_0;
            let s = sweeps.last();
            let st = ScanState { pending: None, inside: false, stack: Seq::empty(), exteriors: mid.0, hole_of: mid.1 };
            lemma_scan_balanced(in_order(crossing_set(edges, s)), s, st);
        }
    }
}

/// A ring never closes with no ring open: collation never fails with
/// `EmptyPolyStack`.
pub proof fn law_no_empty_stack(rings: Seq<Seq<Coord>>)
    ensures
        collation(rings) != Err::<Seq<(Seq<Coord>, Seq<Seq<Coord>>)>, CollateError>(CollateError::EmptyPolyStack),
{
    lemma_sweep_all_no_underflow(ring_edges(rings), sweeps_of(rings), undecided(rings.len()));
}

/// The rings of a list of polygons: each outer ring followed by its holes.
pub open spec fn all_rings(ps: Seq<(Seq<Coord>, Seq<Seq<Coord>>)>) -> Seq<Seq<Coord>>
    decreases ps.len(),
{
    if ps.len() == 0 {
        Seq::empty()
    } else {
        all_rings(ps.drop_last()) + seq![ps.last().0] + ps.last().1
    }
}

/// The ring indices of the polygons of the outer rings `os`: each outer ring
/// followed by its holes.
pub open spec fn group_indices(cl: Classes, n: nat, os: Seq<usize>) -> Seq<usize>
    decreases os.len(),
{
    if os.len() == 0 {
        Seq::empty()
    } else {
        group_indices(cl, n, os.drop_last()) + seq![os.last()] + holes_upto(cl, os.last() as int, n)
    }
}

proof fn lemma_outers_shape(cl: Classes, k: nat)
    requires
        k <= usize::MAX,
    ensures
        forall|a: int| 0 <= a < outers_upto(cl, k).len() ==> cl.0[#[trigger] outers_upto(cl, k)[a] as int],
        outers_upto(cl, k).no_duplicates(),
        forall|j: int| 0 <= j < k && cl.0[j] ==> #[trigger] outers_upto(cl, k).contains(j as usize),
    decreases k,
{
    lemma_outers_below(cl, k);
    if k > 0 {
        lemma_outers_shape(cl, (k - 1) as nat);
        lemma_outers_below(cl, (k - 1) as nat);
        let p = outers_upto(cl, (k - 1) as nat);
        let q = outers_upto(cl, k);
        assert forall|a: int| 0 <= a < q.len() implies cl.0[#[trigger] q[a] as int] by {
            if a < p.len() {
                assert(q[a] == p[a]);
            }
        }
        assert forall|a: int, b: int| 0 <= a < q.len() && 0 <= b < q.len() && a != b implies q[a] != q[b] by {
            if a < p.len() && b < p.len() {
                assert(q[a] == p[a] && q[b] == p[b]);
            } else if a < p.len() {
                assert(q[a] == p[a]);
            } else if b < p.len() {
                assert(q[b] == p[b]);
            }
        }
        assert forall|j: int| 0 <= j < k && cl.0[j] implies #[trigger] q.contains(j as usize) by {
            if j < k - 1 {
                assert(p.contains(j as usize));
                let a = choose|a: int| 0 <= a < p.len() && p[a] == j as usize;
                assert(q[a] == p[a]);
            } else {
                assert(q[q.len() - 1] == j as usize);
            }
        }
    }
}

proof fn lemma_holes_cover(cl: Classes, i: int, k: nat)
    requires
        k <= usize::MAX,
    ensures
        forall|j: int| 0 <= j < k && is_hole_of(cl, j, i) ==> #[trigger] holes_upto(cl, i, k).contains(j as usize),
    decreases k,
{
    if k > 0 {
        lemma_holes_cover(cl, i, (k - 1) as nat);
        let p = holes_upto(cl, i, (k - 1) as nat);
        let q = holes_upto(cl, i, k);
        assert forall|j: int| 0 <= j < k && is_hole_of(cl, j, i) implies #[trigger] q.contains(j as usize) by {
            if j < k - 1 {
                assert(p.contains(j as usize));
                let a = choose|a: int| 0 <= a < p.len() && p[a] == j as usize;
                assert(q[a] == p[a]);
            } else {
                assert(q[q.len() - 1] == j as usize);
            }
        }
    }
}

/// Where a ring index stands when the outer rings listed are `os`: an outer
/// ring listed there, or a hole of one listed there.
pub open spec fn placed(cl: Classes, os: Seq<usize>, x: usize) -> bool {
    if cl.0[x as int] {
        os.contains(x)
    } else {
        cl.1[x as int] is Some && os.contains(cl.1[x as int]->Some_0)
    }
}

proof fn lemma_group_indices(cl: Classes, n: nat, os: Seq<usize>)
    requires
        n <= usize::MAX,
        consistent(cl, n),
        os.no_duplicates(),
        forall|a: int| 0 <= a < os.len() ==> (#[trigger] os[a]) < n && cl.0[os[a] as int],
    ensures
        group_indices(cl, n, os).no_duplicates(),
        forall|x: usize| #[trigger] group_indices(cl, n, os).contains(x) <==> (x < n && placed(cl, os, x)),
    decreases os.len(),
{
    broadcast use vstd::seq_lib::lemma_seq_concat_contains_all_elements;

    if os.len() == 0 {
        assert forall|x: usize| #[trigger] group_indices(cl, n, os).contains(x) <==> (x < n && placed(cl, os, x)) by {}
    } else {
        let o = os.last();
        let rest = os.drop_last();
        assert forall|a: int| 0 <= a < rest.len() implies (#[trigger] rest[a]) < n && cl.0[rest[a] as int] by {
            assert(rest[a] == os[a]);
        }
        lemma_group_indices(cl, n, rest);
        let g = group_indices(cl, n, rest);
        let h = holes_upto(cl, o as int, n);
        lemma_holes_shape(cl, o as int, n);
        lemma_holes_cover(cl, o as int, n);
        assert(!rest.contains(o)) by {
            if rest.contains(o) {
                let a = choose|a: int| 0 <= a < rest.len() && rest[a] == o;
                assert(os[a] == os[os.len() - 1]);
            }
        }
        assert forall|x: usize| os.contains(x) <==> (rest.contains(x) || x == o) by {
            if os.contains(x) {
                let a = choose|a: int| 0 <= a < os.len() && os[a] == x;
                if a < rest.len() {
                    assert(rest[a] == x);
                }
            }
            if rest.contains(x) {
                let a = choose|a: int| 0 <= a < rest.len() && rest[a] == x;
                assert(os[a] == x);
            }
            if x == o {
                assert(os[os.len() - 1] == x);
            }
        }
        lemma_holes_below(cl, o as int, n);
        assert forall|x: usize| h.contains(x) <==> (x < n && is_hole_of(cl, x as int, o as int)) by {
            if h.contains(x) {
                let a = choose|a: int| 0 <= a < h.len() && h[a] == x;
                assert(is_hole_of(cl, h[a] as int, o as int));
            }
            if x < n && is_hole_of(cl, x as int, o as int) {
                assert(h.contains((x as int) as usize));
            }
        }
        let oh = seq![o] + h;
        assert(oh.no_duplicates()) by {
            assert forall|a: int, b: int| 0 <= a < b < oh.len() implies oh[a] != oh[b] by {
                if a == 0 {
                    assert(is_hole_of(cl, h[b - 1] as int, o as int));
                } else {
                    assert(h[a - 1] < h[b - 1]);
                }
            }
        }
        assert forall|i: int, j: int| 0 <= i < g.len() && 0 <= j < oh.len() implies g[i] != oh[j] by {
            assert(g.contains(g[i]));
            assert(oh.contains(oh[j]));
        }
        vstd::seq_lib::lemma_no_dup_in_concat(g, oh);
        assert(group_indices(cl, n, os) =~= g + oh);
        assert forall|x: usize| #[trigger] group_indices(cl, n, os).contains(x) <==> (x < n && placed(cl, os, x)) by {
            assert(oh.contains(x) <==> (x == o || h.contains(x))) by {
                if oh.contains(x) {
                    let a = choose|a: int| 0 <= a < oh.len() && oh[a] == x;
                    if a > 0 {
                        assert(h[a - 1] == x);
                    }
                }
                if x == o {
                    assert(oh[0] == x);
                }
                if h.contains(x) {
                    let a = choose|a: int| 0 <= a < h.len() && h[a] == x;
                    assert(oh[a + 1] == x);
                }
            }
        }
    }
}

proof fn lemma_all_rings_groups(rings: Seq<Seq<Coord>>, cl: Classes, os: Seq<usize>)
    ensures
        all_rings(os.map_values(
            |i: usize| (rings[i as int], holes_upto(cl, i as int, rings.len()).map_values(|j: usize| rings[j as int])),
        )) == group_indices(cl, rings.len(), os).map_values(|j: usize| rings[j as int]),
    decreases os.len(),
{
    let f = |i: usize| (rings[i as int], holes_upto(cl, i as int, rings.len()).map_values(|j: usize| rings[j as int]));
    let r = |j: usize| rings[j as int];
    if os.len() == 0 {
        assert(os.map_values(f) =~= Seq::empty());
        assert(group_indices(cl, rings.len(), os).map_values(r) =~= Seq::empty());
    } else {
        lemma_all_rings_groups(rings, cl, os.drop_last());
        assert(os.map_values(f).drop_last() =~= os.drop_last().map_values(f));
        let g = group_indices(cl, rings.len(), os.drop_last());
        let h = holes_upto(cl, os.last() as int, rings.len());
        assert((g + seq![os.last()] + h).map_values(r) =~= g.map_values(r) + seq![r(os.last())] + h.map_values(r));
    }
}

/// Collation loses no ring and repeats none: the outer rings and holes of
/// the polygons, taken together, are the input rings, each as often as it
/// was given.
pub proof fn law_rings_kept(rings: Seq<Seq<Coord>>)
    requires
        rings.len() <= usize::MAX,
    ensures
        collation(rings) is Ok ==> all_rings(collation(rings)->Ok_0).to_multiset() == rings.to_multiset(),
{
    if collation(rings) is Ok {
        let n = rings.len();
        let cl = classify(rings)->Ok_0;
        law_holes_lie_in_outer_rings(rings);
        assert(assembled(rings, cl) is Ok);
        let os = outers_upto(cl, n);
        lemma_outers_shape(cl, n);
        lemma_outers_below(cl, n);
        lemma_group_indices(cl, n, os);
        let f = |i: usize| (rings[i as int], holes_upto(cl, i as int, n).map_values(|j: usize| rings[j as int]));
        let r = |j: usize| rings[j as int];
        assert(polygons_of(rings, cl) =~= os.map_values(f));
        lemma_all_rings_groups(rings, cl, os);
        let g = group_indices(cl, n, os);
        let ids = Seq::new(n, |j: int| j as usize);
        assert(ids.no_duplicates());
        assert forall|x: usize| g.to_set().contains(x) <==> #[trigger] ids.to_set().contains(x) by {
            if x < n {
                assert(ids[x as int] == x);
                assert(!unclassified(cl, x as int));
                if cl.0[x as int] {
                    assert(os.contains((x as int) as usize));
                } else {
                    let o = cl.1[x as int]->Some_0;
                    assert(cl.1[x as int] is Some);
                    assert(o < n && cl.0[o as int]);
                    assert(os.contains((o as int) as usize));
                }
                assert(placed(cl, os, x));
            }
            if ids.contains(x) {
                let a = choose|a: int| 0 <= a < n && ids[a] == x;
            }
        }
        assert(g.to_set() =~= ids.to_set());
        lemma_same_elements_same_multiset(g, ids);
        lemma_map_same_multiset(g, ids, r);
        assert(ids.map_values(r) =~= rings);
    }
}

} // verus!

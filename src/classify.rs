//! All sweeps together: which rings are outer rings, and which ring each hole
//! lies in.
use vstd::prelude::*;
use crate::edges::{ActiveEdges, edge_keys, lemma_edge_indices, ring_edges, tie_lines_to_polys, view_rings};
use crate::geometry::{Coord, Key, TiedLine, crossing_key, key_of, key_order};
use crate::nesting::{CollateError, HoleMap, ScanState, scan_crossings, scan_sweep};
use crate::ordering::{in_order, sorted_distinct};
use crate::sweep::{PolyRange, extent_key, get_poly_ranges, get_sweep_lines, range_set, ranges_ordered, ring_high, ring_low, sweep_values};

verus! {

/// Per ring: whether it is an outer ring, and the ring it is a hole of.
pub type Classes = (Seq<bool>, Seq<Option<usize>>);

/// Whether the line at height `s` meets some edge.
pub open spec fn meets_edge(edges: Seq<TiedLine>, s: i64) -> bool {
    exists|k: int| 0 <= k < edges.len() && #[trigger] edges[k].spans(s as int)
}

/// The keys of the crossings of the line at height `s` with the edges it meets.
pub open spec fn crossing_set(edges: Seq<TiedLine>, s: i64) -> Set<Key> {
    Set::new(|c: Key| exists|k: int| 0 <= k < edges.len() && #[trigger] edges[k].spans(s as int)
        && c == key_of(edges[k].crossing(s as int)))
}

/// One sweep at height `s`, over what earlier sweeps decided: its crossings,
/// each once, scanned left to right.
pub open spec fn sweep_once(edges: Seq<TiedLine>, s: i64, cl: Classes) -> Result<Classes, CollateError> {
    if !meets_edge(edges, s) {
        Err(CollateError::NoValidLinesForSweep)
    } else {
        match scan_sweep(
            in_order(crossing_set(edges, s)),
            s,
            ScanState { pending: None, inside: false, stack: Seq::empty(), exteriors: cl.0, hole_of: cl.1 },
        ) {
            Ok(st) => Ok((st.exteriors, st.hole_of)),
            Err(e) => Err(e),
        }
    }
}

/// The sweeps in turn, stopping at the first error.
pub open spec fn sweep_all(edges: Seq<TiedLine>, sweeps: Seq<i64>, cl: Classes) -> Result<Classes, CollateError>
    decreases sweeps.len(),
{
    if sweeps.len() == 0 {
        Ok(cl)
    } else {
        match sweep_all(edges, sweeps.drop_last(), cl) {
            Ok(mid) => sweep_once(edges, sweeps.last(), mid),
            Err(e) => Err(e),
        }
    }
}

/// The sweep heights chosen for a set of rings.
pub open spec fn sweeps_of(rings: Seq<Seq<Coord>>) -> Seq<i64> {
    sweep_values(in_order(range_set(rings)))
}

/// Nothing decided, for `n` rings.
pub open spec fn undecided(n: nat) -> Classes {
    (Seq::new(n, |i: int| false), Seq::new(n, |i: int| None::<usize>))
}

/// What all sweeps decide about the rings.
pub open spec fn classify(rings: Seq<Seq<Coord>>) -> Result<Classes, CollateError> {
    sweep_all(ring_edges(rings), sweeps_of(rings), undecided(rings.len()))
}

pub proof fn lemma_low_le_high(r: Seq<Coord>)
    requires
        r.len() > 0,
    ensures
        ring_low(r) <= ring_high(r),
    decreases r.len(),
{
    if r.len() > 1 {
        lemma_low_le_high(r.drop_last());
    }
}

pub proof fn lemma_sweep_all_err_prefix(edges: Seq<TiedLine>, sweeps: Seq<i64>, k: int, cl: Classes)
    requires
        0 <= k <= sweeps.len(),
        sweep_all(edges, sweeps.take(k), cl) is Err,
    ensures
        sweep_all(edges, sweeps, cl) == sweep_all(edges, sweeps.take(k), cl),
    decreases sweeps.len() - k,
{
    if k == sweeps.len() {
        assert(sweeps.take(k) =~= sweeps);
    } else {
        assert(sweeps.drop_last().take(k) =~= sweeps.take(k));
        lemma_sweep_all_err_prefix(edges, sweeps.drop_last(), k, cl);
    }
}

/// The keys of where the sweep line at height `s` meets the active edges.
fn active_crossings(active: &ActiveEdges, lines: &Vec<TiedLine>, s: i64) -> (r: Vec<Key>)
    requires
        active.wf(lines@, s as int),
    ensures
        r@.to_set() == crossing_set(lines@, s),
{
    let mut r: Vec<Key> = Vec::new();
    let mut i: usize = 0;
    let ghost keys = edge_keys(lines@);
    while i < active.active.len()
        invariant
            active.wf(lines@, s as int),
            keys == edge_keys(lines@),
            i <= active.active@.len(),
            r@.len() == i,
            forall|j: int| 0 <= j < i ==> #[trigger] r@[j] == key_of(lines@[active.active@[j].2 as int].crossing(s as int)),
            forall|j: int| 0 <= j < i ==> (#[trigger] active.active@[j]).2 < lines@.len(),
        decreases active.active@.len() - i,
    {
        let t = active.active[i];
        proof {
            assert(active.active@.contains(t));
            assert(active.order@.contains(t));
            assert(active.order@.to_set().contains(t));
            assert(keys.to_set().contains(t));
            let k = choose|k: int| 0 <= k < keys.len() && keys[k] == t;
            assert(k < lines.len());
            assert(keys[k] == (lines@[k].low_y(), lines@[k].high_y(), k as usize));
            assert(t.2 == k);
        }
        let c = crossing_key(&lines[t.2], s);
        r.push(c);
        i = i + 1;
    }
    proof {
        assert forall|c: Key| r@.to_set().contains(c) <==> #[trigger] crossing_set(lines@, s).contains(c) by {
            if r@.contains(c) {
                let j = choose|j: int| 0 <= j < r@.len() && r@[j] == c;
                let t = active.active@[j];
                assert(active.active@.contains(t));
                let k = t.2 as int;
                assert(keys.to_set().contains(t));
                let m = choose|m: int| 0 <= m < keys.len() && keys[m] == t;
                assert(m < lines.len());
                assert(keys[m] == (lines@[m].low_y(), lines@[m].high_y(), m as usize));
                assert(lines@[k].spans(s as int));
            }
            if crossing_set(lines@, s).contains(c) {
                let k = choose|k: int| 0 <= k < lines@.len() && #[trigger] lines@[k].spans(s as int)
                    && c == key_of(lines@[k].crossing(s as int));
                let t = keys[k];
                assert(k < lines.len());
                assert(t == (lines@[k].low_y(), lines@[k].high_y(), k as usize));
                assert(keys.contains(t));
                assert(keys.to_set().contains(t));
                assert(active.order@.to_set().contains(t));
                assert(active.active@.contains(t));
                let j = choose|j: int| 0 <= j < active.active@.len() && active.active@[j] == t;
                assert(r@[j] == c);
            }
        }
        assert(r@.to_set() =~= crossing_set(lines@, s));
    }
    r
}

/// Sweeps the rings and decides, per ring, whether it is an outer ring and
/// which ring it is a hole of.
pub fn get_poly_hole_map(rings: &Vec<Vec<Coord>>) -> (r: Result<HoleMap, CollateError>)
    ensures
        match classify(view_rings(rings)) {
            Ok(cl) => r is Ok && r->Ok_0.exteriors@ == cl.0 && r->Ok_0.hole_of@ == cl.1
                && r->Ok_0.sized(rings@.len()),
            Err(e) => r == Err::<HoleMap, CollateError>(e),
        },
{
    let ghost rv = view_rings(rings);
    let n = rings.len();
    let ranges = get_poly_ranges(rings);
    let mut keys: Vec<Key> = Vec::new();
    let mut i: usize = 0;
    while i < ranges.len()
        invariant
            i <= ranges@.len(),
            rv == view_rings(rings),
            keys@ == ranges@.take(i as int).map_values(|p: PolyRange| p.key()),
        decreases ranges.len() - i,
    {
        let p = ranges[i];
        keys.push((p.lower, p.upper, p.index));
        proof {
            assert(keys@ =~= ranges@.take(i + 1).map_values(|p: PolyRange| p.key()));
        }
        i = i + 1;
    }
    proof {
        assert(ranges@.take(ranges@.len() as int) =~= ranges@);
        assert forall|t: Key| keys@.to_set().contains(t) <==> #[trigger] range_set(rv).contains(t) by {
            if keys@.contains(t) {
                let j = choose|j: int| 0 <= j < keys@.len() && keys@[j] == t;
                assert(ranges@[j].key() == t);
            }
            if range_set(rv).contains(t) {
                let m = choose|m: int| 0 <= m < rv.len() && rv[m].len() > 0 && t == #[trigger] extent_key(rv, m);
                let j = choose|j: int| 0 <= j < ranges@.len() && (#[trigger] ranges@[j]).index == m;
                assert(keys@[j] == t);
            }
        }
        assert(keys@.to_set() =~= range_set(rv));
    }
    let ordered = sorted_distinct(keys);
    proof {
        assert forall|j: int| 0 <= j < ordered@.len() implies (#[trigger] ordered@[j]).0 <= ordered@[j].1 by {
            assert(ordered@.to_set().contains(ordered@[j]));
            assert(range_set(rv).contains(ordered@[j]));
            let m = choose|m: int| 0 <= m < rv.len() && rv[m].len() > 0 && ordered@[j] == #[trigger] extent_key(rv, m);
            lemma_low_le_high(rv[m]);
        }
        assert forall|a: int, b: int| 0 <= a < b < ordered@.len() implies #[trigger] ordered@[a].0 <= #[trigger] ordered@[b].0 by {
            assert((key_order())(ordered@[a], ordered@[b]));
        }
        assert(ranges_ordered(ordered@));
    }
    let sweeps = get_sweep_lines(&ordered);
    let lines = tie_lines_to_polys(rings);
    proof {
        lemma_edge_indices(rv);
    }
    let mut active = ActiveEdges::new(&lines);
    let mut map = HoleMap::new(n);
    let ghost mut prev: int = i64::MIN - 1;
    let mut w: usize = 0;
    while w < sweeps.len()
        invariant
            w <= sweeps@.len(),
            rv == view_rings(rings),
            n == rv.len(),
            sweeps@ == sweeps_of(rv),
            forall|a: int, b: int| 0 <= a < b < sweeps@.len() ==> sweeps@[a] <= sweeps@[b],
            lines@ == ring_edges(rv),
            forall|k: int| 0 <= k < lines@.len() ==> (#[trigger] lines@[k]).index < n,
            active.wf(lines@, prev),
            w > 0 ==> prev == sweeps@[w - 1],
            w == 0 ==> prev == i64::MIN - 1,
            map.sized(n as nat),
            sweep_all(lines@, sweeps@.take(w as int), undecided(n as nat)) == Ok::<Classes, CollateError>((map.exteriors@, map.hole_of@)),
        decreases sweeps.len() - w,
    {
        let s = sweeps[w];
        proof {
            if w > 0 {
                assert(sweeps@[w - 1] <= sweeps@[w as int]);
            }
            assert(sweeps@.take(w + 1).drop_last() =~= sweeps@.take(w as int));
            assert(sweeps@.take(w + 1).last() == s);
        }
        active.advance(Ghost(lines@), Ghost(prev), s);
        proof {
            prev = s as int;
        }
        if active.active.len() == 0 {
            proof {
                if meets_edge(lines@, s) {
                    let k = choose|k: int| 0 <= k < lines@.len() && #[trigger] lines@[k].spans(s as int);
                    let t = edge_keys(lines@)[k];
                    assert(edge_keys(lines@).contains(t));
                    assert(edge_keys(lines@).to_set().contains(t));
                    assert(active.order@.to_set().contains(t));
                    assert(active.active@.contains(t));
                }
                lemma_sweep_all_err_prefix(lines@, sweeps@, w + 1, undecided(n as nat));
            }
            return Err(CollateError::NoValidLinesForSweep);
        }
        proof {
            let t = active.active@[0];
            assert(active.active@.contains(t));
            assert(active.order@.to_set().contains(t));
            let k = choose|k: int| 0 <= k < edge_keys(lines@).len() && edge_keys(lines@)[k] == t;
            assert(lines@[k].spans(s as int));
            assert(meets_edge(lines@, s));
        }
        let cs = active_crossings(&active, &lines, s);
        let order = sorted_distinct(cs);
        proof {
            assert forall|j: int| 0 <= j < order@.len() implies (#[trigger] order@[j]).2 < n by {
                assert(order@.to_set().contains(order@[j]));
                assert(crossing_set(lines@, s).contains(order@[j]));
            }
        }
        let ghost before = (map.exteriors@, map.hole_of@);
        let res = scan_crossings(&order, s, &mut map);
        match res {
            Ok(()) => {},
            Err(e) => {
                proof {
                    lemma_sweep_all_err_prefix(lines@, sweeps@, w + 1, undecided(n as nat));
                }
                return Err(e);
            },
        }
        w = w + 1;
    }
    proof {
        assert(sweeps@.take(sweeps@.len() as int) =~= sweeps@);
    }
    Ok(map)
}

} // verus!

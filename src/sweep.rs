//! Vertical extents of the rings, and the heights of the sweep lines.
use vstd::prelude::*;
use crate::geometry::{Coord, Key};

verus! {

/// The vertical extent of ring `index`: its lowest and highest y.
#[derive(Clone, Copy, Debug, PartialEq, Eq, Structural)]
pub struct PolyRange {
    pub lower: i64,
    pub upper: i64,
    pub index: usize,
}

/// The lowest y of a non-empty ring.
pub open spec fn ring_low(r: Seq<Coord>) -> i64
    decreases r.len(),
{
    if r.len() <= 1 {
        r[0].y
    } else {
        let m = ring_low(r.drop_last());
        if r.last().y < m { r.last().y } else { m }
    }
}

/// The highest y of a non-empty ring.
pub open spec fn ring_high(r: Seq<Coord>) -> i64
    decreases r.len(),
{
    if r.len() <= 1 {
        r[0].y
    } else {
        let m = ring_high(r.drop_last());
        if r.last().y > m { r.last().y } else { m }
    }
}

/// The extent of ring `i` as a key (lower, upper, index).
pub open spec fn extent_key(rings: Seq<Seq<Coord>>, i: int) -> Key {
    (ring_low(rings[i]), ring_high(rings[i]), i as usize)
}

/// The extents of the non-empty rings, as keys.
pub open spec fn range_set(rings: Seq<Seq<Coord>>) -> Set<Key> {
    Set::new(|t: Key| exists|i: int| 0 <= i < rings.len() && rings[i].len() > 0 && t == #[trigger] extent_key(rings, i))
}

pub open spec fn mid(lo: int, hi: int) -> int {
    lo + (hi - lo) / 2
}

/// One step of the sweep selection over ranges ordered by lower bound. The
/// state is (sweeps so far, highest lower bound, lowest upper bound) of the
/// current run of overlapping ranges.
pub open spec fn sweep_step(st: (Seq<i64>, i64, i64), r: Key) -> (Seq<i64>, i64, i64) {
    let (sw, hl, lh) = st;
    if r.0 >= lh {
        (sw.push(mid(hl as int, lh as int) as i64), r.0, r.1)
    } else {
        (sw, if r.0 > hl { r.0 } else { hl }, if r.1 < lh { r.1 } else { lh })
    }
}

/// The state after the first `k` ranges, starting from a run seeded by the first.
pub open spec fn sweep_run(q: Seq<Key>, k: nat) -> (Seq<i64>, i64, i64)
    decreases k,
{
    if k == 0 {
        (Seq::empty(), q[0].0, q[0].1)
    } else {
        sweep_step(sweep_run(q, (k - 1) as nat), q[k - 1])
    }
}

/// The sweep heights for ranges ordered by lower bound: one per maximal run of
/// overlapping ranges, at the middle of what the run's ranges share.
pub open spec fn sweep_values(q: Seq<Key>) -> Seq<i64> {
    if q.len() == 0 {
        Seq::empty()
    } else {
        let (sw, hl, lh) = sweep_run(q, q.len());
        sw.push(mid(hl as int, lh as int) as i64)
    }
}

impl PolyRange {
    pub open spec fn key(&self) -> Key {
        (self.lower, self.upper, self.index)
    }
}

/// The lowest and highest y of a non-empty ring.
fn ring_extent(ring: &Vec<Coord>) -> (r: (i64, i64))
    requires
        ring@.len() > 0,
    ensures
        r.0 == ring_low(ring@),
        r.1 == ring_high(ring@),
{
    let mut lo = ring[0].y;
    let mut hi = ring[0].y;
    let mut i: usize = 1;
    while i < ring.len()
        invariant
            1 <= i <= ring@.len(),
            lo == ring_low(ring@.subrange(0, i as int)),
            hi == ring_high(ring@.subrange(0, i as int)),
        decreases ring.len() - i,
    {
        let y = ring[i].y;
        proof {
            assert(ring@.subrange(0, i + 1).drop_last() =~= ring@.subrange(0, i as int));
        }
        if y < lo {
            lo = y;
        }
        if y > hi {
            hi = y;
        }
        i = i + 1;
    }
    proof {
        assert(ring@.subrange(0, ring@.len() as int) =~= ring@);
    }
    (lo, hi)
}

/// The vertical extent of every non-empty ring, in ring order.
pub fn get_poly_ranges(rings: &Vec<Vec<Coord>>) -> (r: Vec<PolyRange>)
    ensures
        forall|j: int| 0 <= j < r@.len() ==> {
            let i = (#[trigger] r@[j]).index as int;
            0 <= i < rings@.len() && rings@[i]@.len() > 0
                && r@[j].key() == extent_key(rings@.map_values(|v: Vec<Coord>| v@), i)
        },
        forall|i: int| 0 <= i < rings@.len() && rings@[i]@.len() > 0 ==> exists|j: int|
            0 <= j < r@.len() && (#[trigger] r@[j]).index == i,
        forall|a: int, b: int| 0 <= a < b < r@.len() ==> r@[a].index < r@[b].index,
{
    let ghost view = rings@.map_values(|v: Vec<Coord>| v@);
    let mut r: Vec<PolyRange> = Vec::new();
    let mut i: usize = 0;
    while i < rings.len()
        invariant
            i <= rings@.len(),
            view == rings@.map_values(|v: Vec<Coord>| v@),
            forall|j: int| 0 <= j < r@.len() ==> {
                let k = (#[trigger] r@[j]).index as int;
                0 <= k < i && rings@[k]@.len() > 0 && r@[j].key() == extent_key(view, k)
            },
            forall|k: int| 0 <= k < i && rings@[k]@.len() > 0 ==> exists|j: int|
                0 <= j < r@.len() && (#[trigger] r@[j]).index == k,
            forall|a: int, b: int| 0 <= a < b < r@.len() ==> r@[a].index < r@[b].index,
        decreases rings.len() - i,
    {
        if rings[i].len() > 0 {
            let (lower, upper) = ring_extent(&rings[i]);
            let ghost before = r@;
            r.push(PolyRange { lower, upper, index: i });
            proof {
                assert forall|k: int| 0 <= k < i + 1 && rings@[k]@.len() > 0 implies exists|j: int|
                    0 <= j < r@.len() && (#[trigger] r@[j]).index == k by {
                    if k < i {
                        let j = choose|j: int| 0 <= j < before.len() && (#[trigger] before[j]).index == k;
                        assert(r@[j] == before[j]);
                    } else {
                        assert(r@[before.len() as int].index == k);
                    }
                }
            }
        }
        i = i + 1;
    }
    r
}

/// Whether some sweep height lies within the range.
pub open spec fn holds_a_sweep(r: Key, sweeps: Seq<i64>) -> bool {
    exists|j: int| 0 <= j < sweeps.len() && r.0 <= #[trigger] sweeps[j] <= r.1
}

/// Ranges ordered by lower bound, each with lower <= upper.
pub open spec fn ranges_ordered(q: Seq<Key>) -> bool {
    &&& forall|i: int, j: int| 0 <= i < j < q.len() ==> #[trigger] q[i].0 <= #[trigger] q[j].0
    &&& forall|i: int| 0 <= i < q.len() ==> (#[trigger] q[i]).0 <= q[i].1
}

/// Every range has some height strictly between its bounds.
pub open spec fn ranges_open(q: Seq<Key>) -> bool {
    forall|i: int| 0 <= i < q.len() ==> (#[trigger] q[i]).0 < q[i].1
}

/// `w` picks ranges of `q` one after another, each ending where or before the
/// next begins: their open intervals are pairwise disjoint, so no height lies
/// strictly inside two of them.
pub open spec fn disjoint_chain(q: Seq<Key>, w: Seq<int>) -> bool {
    &&& forall|a: int| 0 <= a < w.len() ==> 0 <= #[trigger] w[a] < q.len()
    &&& forall|a: int| 0 <= a < w.len() - 1 ==> q[#[trigger] w[a]].1 <= q[w[a + 1]].0
}

/// The sweep heights for ranges ordered by lower bound.
///
/// Each range holds one of them; they come out ascending, and strictly
/// ascending when every range has positive height. There are as many of them
/// as there are ranges in a chain of ranges with pairwise disjoint interiors,
/// so no fewer heights can lie strictly inside every range.
pub fn get_sweep_lines(ranges: &Vec<Key>) -> (r: Vec<i64>)
    requires
        ranges_ordered(ranges@),
    ensures
        r@ == sweep_values(ranges@),
        ranges@.len() > 0 ==> r@.len() > 0,
        forall|i: int, j: int| 0 <= i < j < r@.len() ==> r@[i] <= r@[j],
        ranges_open(ranges@) ==> forall|i: int, j: int| 0 <= i < j < r@.len() ==> r@[i] < r@[j],
        forall|i: int| 0 <= i < ranges@.len() ==> #[trigger] holds_a_sweep(ranges@[i], r@),
        exists|w: Seq<int>| w.len() == r@.len() && disjoint_chain(ranges@, w),
{
    let mut sweeps: Vec<i64> = Vec::new();
    if ranges.len() == 0 {
        assert(disjoint_chain(ranges@, Seq::<int>::empty()));
        return sweeps;
    }
    let mut highest_low = ranges[0].0;
    let mut lowest_high = ranges[0].1;
    let ghost mut run_start: int = 0;
    let ghost mut low_at: int = 0;
    let ghost mut chain: Seq<int> = Seq::empty();
    let ghost open = ranges_open(ranges@);
    let mut i: usize = 0;
    while i < ranges.len()
        invariant
            0 < ranges@.len(),
            i <= ranges@.len(),
            ranges_ordered(ranges@),
            open == ranges_open(ranges@),
            sweep_run(ranges@, i as nat) == (sweeps@, highest_low, lowest_high),
            highest_low <= lowest_high,
            open ==> highest_low < lowest_high,
            highest_low == ranges@[if i == 0 { 0 } else { i - 1 }].0,
            forall|a: int, b: int| 0 <= a < b < sweeps@.len() ==> sweeps@[a] <= sweeps@[b],
            open ==> forall|a: int, b: int| 0 <= a < b < sweeps@.len() ==> sweeps@[a] < sweeps@[b],
            forall|a: int| 0 <= a < sweeps@.len() ==> sweeps@[a] <= highest_low,
            open ==> forall|a: int| 0 <= a < sweeps@.len() ==> sweeps@[a] < highest_low,
            0 <= run_start <= i,
            forall|j: int| run_start <= j < i ==> ranges@[j].0 <= highest_low && lowest_high <= #[trigger] ranges@[j].1,
            ranges@[run_start].0 <= highest_low && lowest_high <= ranges@[run_start].1,
            forall|j: int| 0 <= j < run_start ==> #[trigger] holds_a_sweep(ranges@[j], sweeps@),
            run_start <= low_at < ranges@.len(),
            low_at <= i || low_at == 0,
            ranges@[low_at].1 == lowest_high,
            chain.len() == sweeps@.len(),
            disjoint_chain(ranges@, chain),
            chain.len() > 0 ==> ranges@[chain.last()].1 <= ranges@[run_start].0,
        decreases ranges.len() - i,
    {
        let range = ranges[i];
        assert(ranges@[if i == 0 { 0 } else { i - 1 }].0 <= ranges@[i as int].0);
        assert(range.0 <= range.1);
        if range.0 >= lowest_high {
            let m: i64 = (highest_low as i128 + (lowest_high as i128 - highest_low as i128) / 2) as i64;
            assert(m == mid(highest_low as int, lowest_high as int));
            let ghost old_sweeps = sweeps@;
            let ghost old_chain = chain;
            sweeps.push(m);
            proof {
                assert forall|j: int| 0 <= j < i implies #[trigger] holds_a_sweep(ranges@[j], sweeps@) by {
                    if j < run_start {
                        assert(holds_a_sweep(ranges@[j], old_sweeps));
                        let a = choose|a: int| 0 <= a < old_sweeps.len() && ranges@[j].0 <= #[trigger] old_sweeps[a] <= ranges@[j].1;
                        assert(sweeps@[a] == old_sweeps[a]);
                    } else {
                        assert(sweeps@[old_sweeps.len() as int] == m);
                    }
                }
                assert(ranges@[run_start].0 <= m <= ranges@[run_start].1);
                assert(sweeps@[old_sweeps.len() as int] == m);
                chain = old_chain.push(low_at);
                assert forall|a: int| 0 <= a < chain.len() - 1 implies ranges@[#[trigger] chain[a]].1 <= ranges@[chain[a + 1]].0 by {
                    if a < old_chain.len() - 1 {
                        assert(chain[a] == old_chain[a] && chain[a + 1] == old_chain[a + 1]);
                    } else {
                        assert(chain[a] == old_chain.last());
                        assert(ranges@[run_start].0 <= ranges@[low_at].0);
                    }
                }
                assert(ranges@[chain.last()].1 <= ranges@[i as int].0);
                run_start = i as int;
                low_at = i as int;
            }
            highest_low = range.0;
            lowest_high = range.1;
        } else {
            if range.0 > highest_low {
                highest_low = range.0;
            }
            if range.1 < lowest_high {
                lowest_high = range.1;
                proof {
                    low_at = i as int;
                }
            }
        }
        i = i + 1;
    }
    let m: i64 = (highest_low as i128 + (lowest_high as i128 - highest_low as i128) / 2) as i64;
    let ghost old_sweeps = sweeps@;
    let ghost old_chain = chain;
    sweeps.push(m);
    proof {
        assert forall|j: int| 0 <= j < ranges@.len() implies #[trigger] holds_a_sweep(ranges@[j], sweeps@) by {
            if j < run_start {
                assert(holds_a_sweep(ranges@[j], old_sweeps));
                let a = choose|a: int| 0 <= a < old_sweeps.len() && ranges@[j].0 <= #[trigger] old_sweeps[a] <= ranges@[j].1;
                assert(sweeps@[a] == old_sweeps[a]);
            } else {
                assert(sweeps@[old_sweeps.len() as int] == m);
            }
        }
        chain = old_chain.push(low_at);
        assert forall|a: int| 0 <= a < chain.len() - 1 implies ranges@[#[trigger] chain[a]].1 <= ranges@[chain[a + 1]].0 by {
            if a < old_chain.len() - 1 {
                assert(chain[a] == old_chain[a] && chain[a + 1] == old_chain[a + 1]);
            } else {
                assert(chain[a] == old_chain.last());
                assert(ranges@[run_start].0 <= ranges@[low_at].0);
            }
        }
        assert(disjoint_chain(ranges@, chain));
    }
    sweeps
}

} // verus!

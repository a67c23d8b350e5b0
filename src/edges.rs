//! The edges of the rings, and the set of edges that a sweep line meets.
use vstd::prelude::*;
use vstd::relations::sorted_by;
use crate::geometry::{Coord, Key, Line, TiedLine, key_order};
use crate::ordering::{lemma_push_contains, lemma_push_distinct, lists_in_order, sorted_distinct};

verus! {

/// The rings as sequences of points.
pub open spec fn view_rings(rings: &Vec<Vec<Coord>>) -> Seq<Seq<Coord>> {
    rings@.map_values(|r: Vec<Coord>| r@)
}

/// The edges of one ring, between consecutive points, tagged with `index`.
pub open spec fn ring_lines(r: Seq<Coord>, index: usize) -> Seq<TiedLine> {
    Seq::new(
        if r.len() > 0 { (r.len() - 1) as nat } else { 0 },
        |k: int| TiedLine { line: Line { start: r[k], end: r[k + 1] }, index },
    )
}

/// The edges of all rings, ring after ring.
pub open spec fn ring_edges(rings: Seq<Seq<Coord>>) -> Seq<TiedLine>
    decreases rings.len(),
{
    if rings.len() == 0 {
        Seq::empty()
    } else {
        ring_edges(rings.drop_last()) + ring_lines(rings.last(), (rings.len() - 1) as usize)
    }
}

pub proof fn lemma_edge_indices(rings: Seq<Seq<Coord>>)
    ensures
        forall|k: int| 0 <= k < ring_edges(rings).len() ==> (#[trigger] ring_edges(rings)[k]).index < rings.len(),
    decreases rings.len(),
{
    if rings.len() > 0 {
        lemma_edge_indices(rings.drop_last());
        let left = ring_edges(rings.drop_last());
        let right = ring_lines(rings.last(), (rings.len() - 1) as usize);
        assert forall|k: int| 0 <= k < ring_edges(rings).len() implies (#[trigger] ring_edges(rings)[k]).index < rings.len() by {
            if k < left.len() {
                assert(ring_edges(rings)[k] == left[k]);
            } else {
                assert(ring_edges(rings)[k] == right[k - left.len()]);
            }
        }
    }
}

/// Every edge of every ring, tagged with its ring's index.
pub fn tie_lines_to_polys(rings: &Vec<Vec<Coord>>) -> (r: Vec<TiedLine>)
    ensures
        r@ == ring_edges(view_rings(rings)),
{
    let ghost view = view_rings(rings);
    let mut lines: Vec<TiedLine> = Vec::new();
    let mut i: usize = 0;
    while i < rings.len()
        invariant
            i <= rings@.len(),
            view == view_rings(rings),
            lines@ == ring_edges(view.take(i as int)),
        decreases rings.len() - i,
    {
        let ring = &rings[i];
        let ghost before = lines@;
        let mut k: usize = 1;
        while k < ring.len()
            invariant
                1 <= k,
                i < rings@.len(),
                view.len() == rings@.len(),
                k <= ring@.len() || (ring@.len() == 0 && k == 1),
                ring@ == view[i as int],
                lines@ == before + ring_lines(ring@, i).take(k - 1),
            decreases ring.len() - k,
        {
            lines.push(TiedLine { line: Line { start: ring[k - 1], end: ring[k] }, index: i });
            proof {
                assert(ring_lines(ring@, i).take(k as int) =~= ring_lines(ring@, i).take(k - 1).push(
                    TiedLine { line: Line { start: ring@[k - 1], end: ring@[k as int] }, index: i },
                ));
            }
            k = k + 1;
        }
        proof {
            assert(view.take(i + 1).drop_last() =~= view.take(i as int));
            if ring@.len() > 0 {
                assert(k == ring@.len());
                assert(ring_lines(ring@, i).len() == k - 1);
                assert(ring_lines(ring@, i).take(k - 1) =~= ring_lines(ring@, i));
            } else {
                assert(ring_lines(ring@, i).take(k - 1) =~= ring_lines(ring@, i));
            }
        }
        i = i + 1;
    }
    proof {
        assert(view.take(rings@.len() as int) =~= view);
    }
    lines
}

/// Each edge as a key (lowest y, highest y, position in `edges`).
pub open spec fn edge_keys(edges: Seq<TiedLine>) -> Seq<Key> {
    Seq::new(edges.len(), |k: int| (edges[k].low_y(), edges[k].high_y(), k as usize))
}

/// The edges fed in order of their lowest y, and those a sweep line meets.
pub struct ActiveEdges {
    /// Edge keys in ascending order.
    pub order: Vec<Key>,
    /// How many of `order` have been taken in.
    pub cursor: usize,
    /// The keys of the edges that the last sweep line met.
    pub active: Vec<Key>,
}

impl ActiveEdges {
    /// After a sweep at height `s`: the keys taken in are those whose lowest y
    /// is at most `s`, and the active ones are those of them that reach `s`.
    pub open spec fn wf(&self, edges: Seq<TiedLine>, s: int) -> bool {
        &&& lists_in_order(self.order@, edge_keys(edges).to_set())
        &&& self.cursor <= self.order@.len()
        &&& forall|j: int| 0 <= j < self.cursor ==> (#[trigger] self.order@[j]).0 <= s
        &&& forall|j: int| self.cursor <= j < self.order@.len() ==> (#[trigger] self.order@[j]).0 > s
        &&& self.active@.no_duplicates()
        &&& forall|t: Key| #[trigger] self.active@.contains(t) <==> (self.order@.contains(t) && t.0 <= s <= t.1)
    }

    /// All edges, before any sweep: none taken in yet.
    pub fn new(lines: &Vec<TiedLine>) -> (r: ActiveEdges)
        ensures
            r.wf(lines@, i64::MIN - 1),
    {
        let mut keys: Vec<Key> = Vec::new();
        let mut k: usize = 0;
        while k < lines.len()
            invariant
                k <= lines@.len(),
                keys@ == edge_keys(lines@).take(k as int),
            decreases lines.len() - k,
        {
            let t = &lines[k];
            keys.push((t.miny(), t.maxy(), k));
            proof {
                assert(keys@ =~= edge_keys(lines@).take(k + 1));
            }
            k = k + 1;
        }
        proof {
            assert(keys@ =~= edge_keys(lines@));
        }
        let order = sorted_distinct(keys);
        let r = ActiveEdges { order, cursor: 0, active: Vec::new() };
        proof {
            assert(lists_in_order(order@, keys@.to_set()));
            assert forall|t: Key| #[trigger] r.active@.contains(t) <==> (r.order@.contains(t) && t.0 <= i64::MIN - 1 <= t.1) by {}
        }
        r
    }

    /// Moves the sweep line up to height `s`: takes in the edges whose lowest y
    /// has been reached and drops those that lie wholly below `s`.
    pub fn advance(&mut self, Ghost(edges): Ghost<Seq<TiedLine>>, Ghost(prev): Ghost<int>, s: i64)
        requires
            old(self).wf(edges, prev),
            prev <= s,
        ensures
            final(self).wf(edges, s as int),
            final(self).order == old(self).order,
    {
        broadcast use vstd::seq_lib::group_seq_properties;

        let ghost taken0 = self.cursor as int;
        proof {
            assert forall|t: Key| #[trigger] self.active@.contains(t) implies self.order@.subrange(0, taken0).contains(t) by {
                let j = choose|j: int| 0 <= j < self.order@.len() && self.order@[j] == t;
                assert(self.order@.subrange(0, taken0)[j] == t);
            }
        }
        while self.cursor < self.order.len() && self.order[self.cursor].0 <= s
            invariant
                lists_in_order(self.order@, edge_keys(edges).to_set()),
                self.order == old(self).order,
                prev <= s,
                taken0 <= self.cursor <= self.order@.len(),
                forall|j: int| 0 <= j < self.cursor ==> (#[trigger] self.order@[j]).0 <= s,
                self.active@.no_duplicates(),
                forall|t: Key| #[trigger] self.active@.contains(t) ==> self.order@.subrange(0, self.cursor as int).contains(t) && t.1 >= prev,
                forall|j: int| 0 <= j < self.cursor && (#[trigger] self.order@[j]).1 >= s ==> self.active@.contains(self.order@[j]),
            decreases self.order@.len() - self.cursor,
        {
            let t = self.order[self.cursor];
            let ghost c = self.cursor as int;
            let ghost before = self.active@;
            if t.1 >= s {
                proof {
                    if self.active@.contains(t) {
                        let j = choose|j: int| 0 <= j < c && self.order@.subrange(0, c)[j] == t;
                        assert(self.order@[j] == self.order@[c]);
                    }
                    lemma_push_distinct(self.active@, t);
                }
                self.active.push(t);
            }
            self.cursor = self.cursor + 1;
            proof {
                assert forall|u: Key| #[trigger] self.active@.contains(u) implies self.order@.subrange(0, c + 1).contains(u) && u.1 >= prev by {
                    lemma_push_contains(before, t, u);
                    if before.contains(u) {
                        assert(self.order@.subrange(0, c).contains(u) && u.1 >= prev);
                        let j = choose|j: int| 0 <= j < c && self.order@.subrange(0, c)[j] == u;
                        assert(self.order@.subrange(0, c + 1)[j] == u);
                    } else {
                        assert(u == t && t.1 >= s);
                        assert(self.order@.subrange(0, c + 1)[c] == u);
                    }
                }
                assert forall|j: int| 0 <= j < c + 1 && (#[trigger] self.order@[j]).1 >= s implies self.active@.contains(self.order@[j]) by {
                    lemma_push_contains(before, t, self.order@[j]);
                    if j < c {
                        assert(before.contains(self.order@[j]));
                    }
                }
            }
        }
        proof {
            assert forall|j: int| self.cursor <= j < self.order@.len() implies (#[trigger] self.order@[j]).0 > s by {
                assert((key_order())(self.order@[self.cursor as int], self.order@[j]));
            }
        }
        let mut kept: Vec<Key> = Vec::new();
        let mut i: usize = 0;
        while i < self.active.len()
            invariant
                i <= self.active@.len(),
                kept@.no_duplicates(),
                self.active@.no_duplicates(),
                forall|u: Key| #[trigger] kept@.contains(u) <==> (self.active@.subrange(0, i as int).contains(u) && u.1 >= s),
            decreases self.active@.len() - i,
        {
            let t = self.active[i];
            let ghost before = kept@;
            proof {
                assert(self.active@.subrange(0, i + 1) =~= self.active@.subrange(0, i as int).push(t));
                if self.active@.subrange(0, i as int).contains(t) {
                    let j = choose|j: int| 0 <= j < i && self.active@.subrange(0, i as int)[j] == t;
                    assert(self.active@[j] == self.active@[i as int]);
                }
            }
            if t.1 >= s {
                proof {
                    lemma_push_distinct(kept@, t);
                }
                kept.push(t);
            }
            proof {
                assert forall|u: Key| #[trigger] kept@.contains(u) <==> (self.active@.subrange(0, i + 1).contains(u) && u.1 >= s) by {
                    lemma_push_contains(self.active@.subrange(0, i as int), t, u);
                    lemma_push_contains(before, t, u);
                }
            }
            i = i + 1;
        }
        proof {
            assert(self.active@.subrange(0, i as int) =~= self.active@);
        }
        self.active = kept;
        proof {
            assert forall|t: Key| #[trigger] self.active@.contains(t) <==> (self.order@.contains(t) && t.0 <= s <= t.1) by {
                if self.order@.contains(t) && t.0 <= s <= t.1 {
                    let j = choose|j: int| 0 <= j < self.order@.len() && self.order@[j] == t;
                    assert(j < self.cursor);
                }
            }
        }
    }
}

} // verus!

//! Building polygons from what the sweeps decided.
use vstd::prelude::*;
use crate::classify::{Classes, classify, get_poly_hole_map};
use crate::edges::view_rings;
use crate::geometry::Coord;
use crate::nesting::{CollateError, HoleMap};
use crate::ordering::lemma_push_contains;

verus! {

/// An outer ring and the holes directly inside it.
#[derive(Debug)]
pub struct Polygon {
    pub exterior: Vec<Coord>,
    pub interiors: Vec<Vec<Coord>>,
}

impl View for Polygon {
    type V = (Seq<Coord>, Seq<Seq<Coord>>);

    open spec fn view(&self) -> (Seq<Coord>, Seq<Seq<Coord>>) {
        (self.exterior@, self.interiors@.map_values(|r: Vec<Coord>| r@))
    }
}

/// The polygons as values.
pub open spec fn view_polygons(ps: Seq<Polygon>) -> Seq<(Seq<Coord>, Seq<Seq<Coord>>)> {
    ps.map_values(|p: Polygon| p@)
}

/// Ring `j` is a hole of ring `i`: it is not an outer ring, and was found
/// inside `i`.
pub open spec fn is_hole_of(cl: Classes, j: int, i: int) -> bool {
    !cl.0[j] && cl.1[j] == Some(i as usize)
}

/// Ring `j` is neither an outer ring nor a hole.
pub open spec fn unclassified(cl: Classes, j: int) -> bool {
    !cl.0[j] && cl.1[j] is None
}

/// The outer rings among the first `k`, ascending.
pub open spec fn outers_upto(cl: Classes, k: nat) -> Seq<usize>
    decreases k,
{
    if k == 0 {
        Seq::empty()
    } else {
        let p = outers_upto(cl, (k - 1) as nat);
        if cl.0[k - 1] { p.push((k - 1) as usize) } else { p }
    }
}

/// The holes of ring `i` among the first `k` rings, ascending.
pub open spec fn holes_upto(cl: Classes, i: int, k: nat) -> Seq<usize>
    decreases k,
{
    if k == 0 {
        Seq::empty()
    } else {
        let p = holes_upto(cl, i, (k - 1) as nat);
        if is_hole_of(cl, k - 1, i) { p.push((k - 1) as usize) } else { p }
    }
}

/// One polygon per outer ring, in ring order, each with its holes in ring order.
pub open spec fn polygons_of(rings: Seq<Seq<Coord>>, cl: Classes) -> Seq<(Seq<Coord>, Seq<Seq<Coord>>)> {
    outers_upto(cl, rings.len()).map_values(
        |i: usize| (rings[i as int], holes_upto(cl, i as int, rings.len()).map_values(|j: usize| rings[j as int])),
    )
}

/// The polygons for a classification, or `IndexNotInMaps` when some ring is
/// neither an outer ring nor a hole.
pub open spec fn assembled(rings: Seq<Seq<Coord>>, cl: Classes) -> Result<Seq<(Seq<Coord>, Seq<Seq<Coord>>)>, CollateError> {
    if exists|j: int| 0 <= j < rings.len() && #[trigger] unclassified(cl, j) {
        Err(CollateError::IndexNotInMaps)
    } else {
        Ok(polygons_of(rings, cl))
    }
}

/// The result of collating `rings`.
pub open spec fn collation(rings: Seq<Seq<Coord>>) -> Result<Seq<(Seq<Coord>, Seq<Seq<Coord>>)>, CollateError> {
    match classify(rings) {
        Ok(cl) => assembled(rings, cl),
        Err(e) => Err(e),
    }
}

/// Whether `r` is `expected`, with polygons compared by value.
pub open spec fn same_result(
    r: Result<Vec<Polygon>, CollateError>,
    expected: Result<Seq<(Seq<Coord>, Seq<Seq<Coord>>)>, CollateError>,
) -> bool {
    match expected {
        Ok(ps) => r is Ok && view_polygons(r->Ok_0@) == ps,
        Err(e) => r == Err::<Vec<Polygon>, CollateError>(e),
    }
}

pub proof fn lemma_outers_below(cl: Classes, k: nat)
    requires
        k <= usize::MAX,
    ensures
        forall|a: int| 0 <= a < outers_upto(cl, k).len() ==> (#[trigger] outers_upto(cl, k)[a]) < k,
    decreases k,
{
    if k > 0 {
        lemma_outers_below(cl, (k - 1) as nat);
        let p = outers_upto(cl, (k - 1) as nat);
        assert forall|a: int| 0 <= a < outers_upto(cl, k).len() implies (#[trigger] outers_upto(cl, k)[a]) < k by {
            if a < p.len() {
                assert(outers_upto(cl, k)[a] == p[a]);
            }
        }
    }
}

pub proof fn lemma_holes_below(cl: Classes, i: int, k: nat)
    requires
        k <= usize::MAX,
    ensures
        forall|a: int| 0 <= a < holes_upto(cl, i, k).len() ==> (#[trigger] holes_upto(cl, i, k)[a]) < k,
    decreases k,
{
    if k > 0 {
        lemma_holes_below(cl, i, (k - 1) as nat);
        let p = holes_upto(cl, i, (k - 1) as nat);
        assert forall|a: int| 0 <= a < holes_upto(cl, i, k).len() implies (#[trigger] holes_upto(cl, i, k)[a]) < k by {
            if a < p.len() {
                assert(holes_upto(cl, i, k)[a] == p[a]);
            }
        }
    }
}

pub proof fn lemma_holes_shape(cl: Classes, i: int, k: nat)
    requires
        k <= usize::MAX,
    ensures
        forall|a: int| 0 <= a < holes_upto(cl, i, k).len() ==> is_hole_of(cl, #[trigger] holes_upto(cl, i, k)[a] as int, i),
        forall|a: int, b: int| 0 <= a < b < holes_upto(cl, i, k).len() ==> holes_upto(cl, i, k)[a] < holes_upto(cl, i, k)[b],
    decreases k,
{
    lemma_holes_below(cl, i, k);
    if k > 0 {
        lemma_holes_shape(cl, i, (k - 1) as nat);
        lemma_holes_below(cl, i, (k - 1) as nat);
        let p = holes_upto(cl, i, (k - 1) as nat);
        let q = holes_upto(cl, i, k);
        assert forall|a: int| 0 <= a < q.len() implies is_hole_of(cl, #[trigger] q[a] as int, i) by {
            if a < p.len() {
                assert(q[a] == p[a]);
            }
        }
        assert forall|a: int, b: int| 0 <= a < b < q.len() implies q[a] < q[b] by {
            assert(q[a] == p[a]);
            if b < p.len() {
                assert(q[b] == p[b]);
            } else {
                assert(p[a] < k - 1);
            }
        }
    }
}

/// A copy of a ring.
fn copy_ring(r: &Vec<Coord>) -> (c: Vec<Coord>)
    ensures
        c@ == r@,
{
    let mut c: Vec<Coord> = Vec::new();
    let mut i: usize = 0;
    while i < r.len()
        invariant
            i <= r@.len(),
            c@ == r@.take(i as int),
        decreases r.len() - i,
    {
        c.push(r[i]);
        proof {
            assert(c@ =~= r@.take(i + 1));
        }
        i = i + 1;
    }
    proof {
        assert(r@.take(r@.len() as int) =~= r@);
    }
    c
}

/// Fails when some ring is neither an outer ring nor a hole.
fn check_classified(map: &HoleMap, n: usize) -> (r: Result<(), CollateError>)
    requires
        map.sized(n as nat),
    ensures
        r is Err <==> exists|j: int| 0 <= j < n && #[trigger] unclassified((map.exteriors@, map.hole_of@), j),
        r is Err ==> r == Err::<(), CollateError>(CollateError::IndexNotInMaps),
{
    let ghost cl = (map.exteriors@, map.hole_of@);
    let mut j: usize = 0;
    while j < n
        invariant
            j <= n,
            map.sized(n as nat),
            cl == (map.exteriors@, map.hole_of@),
            forall|k: int| 0 <= k < j ==> !#[trigger] unclassified(cl, k),
        decreases n - j,
    {
        if !map.exteriors[j] && map.hole_of[j].is_none() {
            assert(unclassified(cl, j as int));
            return Err(CollateError::IndexNotInMaps);
        }
        j = j + 1;
    }
    Ok(())
}

/// For each ring, the ascending list of its holes.
fn hole_lists(map: &HoleMap, n: usize) -> (b: Vec<Vec<usize>>)
    requires
        map.sized(n as nat),
    ensures
        b@.len() == n,
        forall|i: int| 0 <= i < n ==> (#[trigger] b@[i])@ == holes_upto((map.exteriors@, map.hole_of@), i, n as nat),
{
    let ghost cl = (map.exteriors@, map.hole_of@);
    let mut b: Vec<Vec<usize>> = Vec::new();
    let mut i: usize = 0;
    while i < n
        invariant
            i <= n,
            b@.len() == i,
            forall|a: int| 0 <= a < i ==> (#[trigger] b@[a])@ == Seq::<usize>::empty(),
        decreases n - i,
    {
        b.push(Vec::new());
        i = i + 1;
    }
    let mut j: usize = 0;
    while j < n
        invariant
            j <= n,
            map.sized(n as nat),
            cl == (map.exteriors@, map.hole_of@),
            b@.len() == n,
            forall|a: int| 0 <= a < n ==> (#[trigger] b@[a])@ == holes_upto(cl, a, j as nat),
        decreases n - j,
    {
        if !map.exteriors[j] {
            match map.hole_of[j] {
                Some(o) => {
                    if o < n {
                        let mut list: Vec<usize> = Vec::new();
                        b.set_and_swap(o, &mut list);
                        list.push(j);
                        b.set_and_swap(o, &mut list);
                    }
                },
                None => {},
            }
        }
        j = j + 1;
        proof {
            assert forall|a: int| 0 <= a < n implies (#[trigger] b@[a])@ == holes_upto(cl, a, j as nat) by {
                assert(holes_upto(cl, a, j as nat) == (if is_hole_of(cl, j - 1, a) {
                    holes_upto(cl, a, (j - 1) as nat).push((j - 1) as usize)
                } else {
                    holes_upto(cl, a, (j - 1) as nat)
                }));
            }
        }
    }
    b
}

/// Builds the polygons, copying the rings.
fn assemble(rings: &Vec<Vec<Coord>>, map: &HoleMap) -> (r: Result<Vec<Polygon>, CollateError>)
    requires
        map.sized(rings@.len()),
    ensures
        same_result(r, assembled(view_rings(rings), (map.exteriors@, map.hole_of@))),
{
    let ghost rv = view_rings(rings);
    let ghost cl = (map.exteriors@, map.hole_of@);
    let n = rings.len();
    match check_classified(map, n) {
        Ok(()) => {},
        Err(e) => {
            return Err(e);
        },
    }
    let lists = hole_lists(map, n);
    let ghost f = |o: usize| (rv[o as int], holes_upto(cl, o as int, n as nat).map_values(|h: usize| rv[h as int]));
    proof {
        lemma_outers_below(cl, n as nat);
    }
    let mut polys: Vec<Polygon> = Vec::new();
    let mut i: usize = 0;
    while i < n
        invariant
            i <= n,
            n == rings@.len(),
            rv == view_rings(rings),
            cl == (map.exteriors@, map.hole_of@),
            f == (|o: usize| (rv[o as int], holes_upto(cl, o as int, n as nat).map_values(|h: usize| rv[h as int]))),
            map.sized(n as nat),
            lists@.len() == n,
            forall|a: int| 0 <= a < n ==> (#[trigger] lists@[a])@ == holes_upto(cl, a, n as nat),
            polys@.len() == outers_upto(cl, i as nat).len(),
            forall|a: int| 0 <= a < polys@.len() ==> (#[trigger] polys@[a])@ == f(outers_upto(cl, i as nat)[a]),
        decreases n - i,
    {
        proof {
            assert(outers_upto(cl, (i + 1) as nat) == (if cl.0[i as int] {
                outers_upto(cl, i as nat).push(i)
            } else {
                outers_upto(cl, i as nat)
            }));
        }
        if map.exteriors[i] {
            let exterior = copy_ring(&rings[i]);
            let holes = &lists[i];
            proof {
                lemma_holes_below(cl, i as int, n as nat);
            }
            let mut interiors: Vec<Vec<Coord>> = Vec::new();
            let mut k: usize = 0;
            while k < holes.len()
                invariant
                    k <= holes@.len(),
                    holes@ == holes_upto(cl, i as int, n as nat),
                    forall|a: int| 0 <= a < holes@.len() ==> (#[trigger] holes@[a]) < n,
                    n == rings@.len(),
                    rv == view_rings(rings),
                    interiors@.len() == k,
                    forall|a: int| 0 <= a < k ==> (#[trigger] interiors@[a])@ == rv[holes@[a] as int],
                decreases holes@.len() - k,
            {
                let ring = copy_ring(&rings[holes[k]]);
                interiors.push(ring);
                k = k + 1;
            }
            proof {
                assert(interiors@.map_values(|r: Vec<Coord>| r@) =~= holes@.map_values(|h: usize| rv[h as int]));
            }
            let ghost before = polys@;
            polys.push(Polygon { exterior, interiors });
            proof {
                assert(polys@[before.len() as int]@ == f(i));
            }
        }
        i = i + 1;
    }
    proof {
        assert(view_polygons(polys@) =~= polygons_of(rv, cl));
    }
    Ok(polys)
}

/// Whether ring `k` has been moved out once the outer rings below `i` are done.
pub open spec fn done(cl: Classes, i: int, k: int) -> bool {
    (cl.0[k] && k < i) || (!cl.0[k] && cl.1[k] is Some && cl.1[k]->Some_0 < i)
}

/// Whether ring `k` has been moved out by the time outer ring `i` and the
/// first `p` of its holes are done.
pub open spec fn moved(cl: Classes, holes: Seq<usize>, i: int, p: int, k: int) -> bool {
    (cl.0[k] && k <= i) || (!cl.0[k] && cl.1[k] is Some && (cl.1[k]->Some_0 < i
        || (cl.1[k]->Some_0 == i && holes.take(p).contains(k as usize))))
}

/// Builds the polygons, moving the rings into them.
fn assemble_into(rings: Vec<Vec<Coord>>, map: &HoleMap) -> (r: Result<Vec<Polygon>, CollateError>)
    requires
        map.sized(rings@.len()),
    ensures
        same_result(r, assembled(view_rings(&rings), (map.exteriors@, map.hole_of@))),
{
    let ghost rv = view_rings(&rings);
    let ghost cl = (map.exteriors@, map.hole_of@);
    let n = rings.len();
    match check_classified(map, n) {
        Ok(()) => {},
        Err(e) => {
            return Err(e);
        },
    }
    let lists = hole_lists(map, n);
    let ghost f = |o: usize| (rv[o as int], holes_upto(cl, o as int, n as nat).map_values(|h: usize| rv[h as int]));
    let mut rings = rings;
    let mut polys: Vec<Polygon> = Vec::new();
    let mut i: usize = 0;
    while i < n
        invariant
            i <= n,
            n == rings@.len(),
            cl == (map.exteriors@, map.hole_of@),
            f == (|o: usize| (rv[o as int], holes_upto(cl, o as int, n as nat).map_values(|h: usize| rv[h as int]))),
            map.sized(n as nat),
            rv.len() == n,
            forall|k: int| 0 <= k < n && !done(cl, i as int, k) ==> (#[trigger] rings@[k])@ == rv[k],
            lists@.len() == n,
            forall|a: int| 0 <= a < n ==> (#[trigger] lists@[a])@ == holes_upto(cl, a, n as nat),
            polys@.len() == outers_upto(cl, i as nat).len(),
            forall|a: int| 0 <= a < polys@.len() ==> (#[trigger] polys@[a])@ == f(outers_upto(cl, i as nat)[a]),
        decreases n - i,
    {
        proof {
            assert(outers_upto(cl, (i + 1) as nat) == (if cl.0[i as int] {
                outers_upto(cl, i as nat).push(i)
            } else {
                outers_upto(cl, i as nat)
            }));
        }
        if map.exteriors[i] {
            let mut exterior: Vec<Coord> = Vec::new();
            proof {
                assert(!done(cl, i as int, i as int));
            }
            rings.set_and_swap(i, &mut exterior);
            let holes = &lists[i];
            proof {
                lemma_holes_shape(cl, i as int, n as nat);
                lemma_holes_below(cl, i as int, n as nat);
                assert forall|k: int| 0 <= k < n && !moved(cl, holes@, i as int, 0, k) implies (#[trigger] rings@[k])@ == rv[k] by {
                    assert(!done(cl, i as int, k));
                }
            }
            let mut interiors: Vec<Vec<Coord>> = Vec::new();
            let mut p: usize = 0;
            while p < holes.len()
                invariant
                    p <= holes@.len(),
                    holes@ == holes_upto(cl, i as int, n as nat),
                    forall|a: int| 0 <= a < holes@.len() ==> (#[trigger] holes@[a]) < n,
                    forall|a: int| 0 <= a < holes@.len() ==> is_hole_of(cl, #[trigger] holes@[a] as int, i as int),
                    forall|a: int, b: int| 0 <= a < b < holes@.len() ==> holes@[a] < holes@[b],
                    n == rings@.len(),
                    cl == (map.exteriors@, map.hole_of@),
                    rv.len() == n,
                    forall|k: int| 0 <= k < n && !moved(cl, holes@, i as int, p as int, k) ==> (#[trigger] rings@[k])@ == rv[k],
                    interiors@.len() == p,
                    forall|a: int| 0 <= a < p ==> (#[trigger] interiors@[a])@ == rv[holes@[a] as int],
                decreases holes@.len() - p,
            {
                let j = holes[p];
                proof {
                    if holes@.take(p as int).contains(j) {
                        let a = choose|a: int| 0 <= a < p && holes@.take(p as int)[a] == j;
                        assert(holes@[a] < holes@[p as int]);
                    }
                    assert(!moved(cl, holes@, i as int, p as int, j as int));
                }
                let mut ring: Vec<Coord> = Vec::new();
                rings.set_and_swap(j, &mut ring);
                interiors.push(ring);
                proof {
                    assert(holes@.take(p + 1) =~= holes@.take(p as int).push(j));
                    assert forall|k: int| 0 <= k < n && !moved(cl, holes@, i as int, p + 1, k) implies (#[trigger] rings@[k])@ == rv[k] by {
                        lemma_push_contains(holes@.take(p as int), j, k as usize);
                        if k != j {
                            assert(!moved(cl, holes@, i as int, p as int, k));
                        } else {
                            assert(holes@.take(p + 1).contains(j));
                        }
                    }
                }
                p = p + 1;
            }
            proof {
                assert(interiors@.map_values(|r: Vec<Coord>| r@) =~= holes@.map_values(|h: usize| rv[h as int]));
                assert(holes@.take(holes@.len() as int) =~= holes@);
                assert forall|k: int| 0 <= k < n && !done(cl, i + 1, k) implies (#[trigger] rings@[k])@ == rv[k] by {
                    if moved(cl, holes@, i as int, holes@.len() as int, k) {
                        if !cl.0[k] && cl.1[k] is Some && cl.1[k]->Some_0 == i {
                            let a = choose|a: int| 0 <= a < holes@.len() && holes@.take(holes@.len() as int)[a] == k as usize;
                        }
                    }
                }
            }
            let ghost before = polys@;
            polys.push(Polygon { exterior, interiors });
            proof {
                assert(polys@[before.len() as int]@ == f(i));
            }
        } else {
            proof {
                assert forall|k: int| 0 <= k < n && !done(cl, i + 1, k) implies (#[trigger] rings@[k])@ == rv[k] by {
                    assert(!done(cl, i as int, k));
                }
            }
        }
        i = i + 1;
    }
    proof {
        assert(view_polygons(polys@) =~= polygons_of(rv, cl));
    }
    Ok(polys)
}

/// Sorting an unordered set of closed rings into polygons.
pub trait Collate {
    /// The polygons, with copies of the rings.
    fn collate(&self) -> Result<Vec<Polygon>, CollateError>;

    /// The polygons, made of the rings themselves.
    fn collate_into(self) -> Result<Vec<Polygon>, CollateError>;
}

impl Collate for Vec<Vec<Coord>> {
    fn collate(&self) -> (r: Result<Vec<Polygon>, CollateError>)
        ensures
            same_result(r, collation(view_rings(self))),
    {
        match get_poly_hole_map(self) {
            Ok(map) => assemble(self, &map),
            Err(e) => Err(e),
        }
    }

    fn collate_into(self) -> (r: Result<Vec<Polygon>, CollateError>)
        ensures
            same_result(r, collation(view_rings(&self))),
    {
        match get_poly_hole_map(&self) {
            Ok(map) => assemble_into(self, &map),
            Err(e) => Err(e),
        }
    }
}

} // verus!

//! The left-to-right scan of one sweep line that decides which rings are
//! outer rings and which ring each hole lies in.
use vstd::prelude::*;
use crate::geometry::Key;

verus! {

/// Why a set of rings could not be collated.
#[derive(Clone, Copy, Debug, PartialEq, Eq, Structural)]
pub enum CollateError {
    /// A sweep line met no edge.
    NoValidLinesForSweep,
    /// A descending edge came first while outside every ring, at the given
    /// sweep height and x.
    HoleWithoutOutline(i64, i64),
    /// A ring would hold a hole while itself being a hole.
    OutlineIsHole,
    /// An ascending edge came while already inside a ring.
    OutlineInOutline,
    /// A ring closed with no ring open.
    EmptyPolyStack,
    /// A ring was classified neither as an outer ring nor as a hole.
    IndexNotInMaps,
}

/// What the sweeps have decided so far, per ring: whether it is an outer ring,
/// and the ring it is a hole of.
pub struct HoleMap {
    pub exteriors: Vec<bool>,
    pub hole_of: Vec<Option<usize>>,
}

/// The scan of one sweep line, left to right.
pub struct ScanState {
    /// An ascending crossing met while inside, held back in case the same
    /// ring descends at the same x: the two edges then meet at a vertex that
    /// touches the sweep line from inside.
    pub pending: Option<Key>,
    pub inside: bool,
    /// Rings entered and not yet left, the latest last.
    pub stack: Seq<usize>,
    pub exteriors: Seq<bool>,
    pub hole_of: Seq<Option<usize>>,
}

impl HoleMap {
    /// A scan at the left end of a sweep line, with what earlier sweeps decided.
    pub open spec fn start(&self) -> ScanState {
        ScanState { pending: None, inside: false, stack: Seq::empty(), exteriors: self.exteriors@, hole_of: self.hole_of@ }
    }

    /// Sizes for `n` rings.
    pub open spec fn sized(&self, n: nat) -> bool {
        self.exteriors@.len() == n && self.hole_of@.len() == n
    }

    /// Nothing decided yet, for `n` rings.
    pub fn new(n: usize) -> (r: HoleMap)
        ensures
            r.exteriors@ == Seq::new(n as nat, |i: int| false),
            r.hole_of@ == Seq::new(n as nat, |i: int| None::<usize>),
    {
        let mut exteriors: Vec<bool> = Vec::new();
        let mut hole_of: Vec<Option<usize>> = Vec::new();
        let mut i: usize = 0;
        while i < n
            invariant
                i <= n,
                exteriors@ == Seq::new(i as nat, |j: int| false),
                hole_of@ == Seq::new(i as nat, |j: int| None::<usize>),
            decreases n - i,
        {
            exteriors.push(false);
            hole_of.push(None);
            i = i + 1;
            proof {
                assert(exteriors@ =~= Seq::new(i as nat, |j: int| false));
                assert(hole_of@ =~= Seq::new(i as nat, |j: int| None::<usize>));
            }
        }
        HoleMap { exteriors, hole_of }
    }
}

/// One crossing `c` = (x, direction rank, ring) on the sweep line at height `s`,
/// taken as it comes. Rank 0 ascends, 1 is horizontal, 2 descends. Entering a
/// ring that is not the one on top of the stack makes it an outer ring;
/// leaving into a ring that is not the one on top makes it a hole of the ring
/// on top. The ring on top is then taken off when it is the crossing's ring,
/// else the crossing's ring goes on.
pub open spec fn plain_step(st: ScanState, c: Key, s: i64) -> Result<ScanState, CollateError> {
    let (x, r, idx) = c;
    let on_top = st.stack.len() > 0 && st.stack.last() == idx;
    let stack = if on_top { st.stack.drop_last() } else { st.stack.push(idx) };
    if r == 1 {
        Ok(st)
    } else if !st.inside {
        if r == 0 {
            Ok(ScanState {
                pending: st.pending,
                inside: true,
                stack,
                exteriors: if on_top { st.exteriors } else { st.exteriors.update(idx as int, true) },
                hole_of: st.hole_of,
            })
        } else {
            Err(CollateError::HoleWithoutOutline(s, x))
        }
    } else {
        if r == 0 {
            Err(CollateError::OutlineInOutline)
        } else if st.stack.len() == 0 {
            Err(CollateError::EmptyPolyStack)
        } else if !on_top && st.hole_of[st.stack.last() as int] is Some {
            Err(CollateError::OutlineIsHole)
        } else {
            Ok(ScanState {
                pending: st.pending,
                inside: false,
                stack,
                exteriors: st.exteriors,
                hole_of: if on_top { st.hole_of } else { st.hole_of.update(idx as int, Some(st.stack.last())) },
            })
        }
    }
}

/// One crossing `c` on the sweep line at height `s`. Where one ring's two
/// edges meet at a vertex on the sweep line and both lie on the same side of
/// it, the line only touches the ring there; its ascending crossing sorts
/// first at that x. Met from outside, the two are taken as they come: in,
/// then out. Met from inside, the ascending one is held back, and when the
/// same ring then descends at the same x, the descending one is taken first:
/// out, then in. Any other crossing while one is held back fails with
/// `OutlineInOutline`, as the held ascent would have.
pub open spec fn step(st: ScanState, c: Key, s: i64) -> Result<ScanState, CollateError> {
    if c.1 == 1 {
        Ok(st)
    } else if st.pending is Some {
        let p = st.pending->Some_0;
        if c.1 != 0 && c.0 == p.0 && c.2 == p.2 {
            let released = ScanState {
                pending: None,
                inside: st.inside,
                stack: st.stack,
                exteriors: st.exteriors,
                hole_of: st.hole_of,
            };
            match plain_step(released, c, s) {
                Ok(mid) => plain_step(mid, p, s),
                Err(e) => Err(e),
            }
        } else {
            Err(CollateError::OutlineInOutline)
        }
    } else if st.inside && c.1 == 0 {
        Ok(ScanState {
            pending: Some(c),
            inside: st.inside,
            stack: st.stack,
            exteriors: st.exteriors,
            hole_of: st.hole_of,
        })
    } else {
        plain_step(st, c, s)
    }
}

/// The crossings taken in order from `st`, stopping at the first error.
pub open spec fn scan(cs: Seq<Key>, s: i64, st: ScanState) -> Result<ScanState, CollateError>
    decreases cs.len(),
{
    if cs.len() == 0 {
        Ok(st)
    } else {
        match scan(cs.drop_last(), s, st) {
            Ok(mid) => step(mid, cs.last(), s),
            Err(e) => Err(e),
        }
    }
}

/// The scan of a whole sweep line: an ascent still held back at its right
/// end fails with `OutlineInOutline`.
pub open spec fn scan_sweep(cs: Seq<Key>, s: i64, st: ScanState) -> Result<ScanState, CollateError> {
    match scan(cs, s, st) {
        Ok(fin) => if fin.pending is Some { Err(CollateError::OutlineInOutline) } else { Ok(fin) },
        Err(e) => Err(e),
    }
}

/// Once the scan of a prefix fails, the scan of the whole fails the same way.
pub proof fn lemma_scan_err_prefix(cs: Seq<Key>, k: int, s: i64, st: ScanState)
    requires
        0 <= k <= cs.len(),
        scan(cs.take(k), s, st) is Err,
    ensures
        scan(cs, s, st) == scan(cs.take(k), s, st),
    decreases cs.len() - k,
{
    if k == cs.len() {
        assert(cs.take(k) =~= cs);
    } else {
        assert(cs.drop_last().take(k) =~= cs.take(k));
        lemma_scan_err_prefix(cs.drop_last(), k, s, st);
    }
}

/// Takes one crossing as it comes, on the scan state held in `stack`,
/// `inside` and `map`.
fn apply_crossing(
    stack: &mut Vec<usize>,
    inside: &mut bool,
    map: &mut HoleMap,
    c: Key,
    s: i64,
    Ghost(n): Ghost<nat>,
) -> (r: Result<(), CollateError>)
    requires
        old(map).sized(n),
        c.2 < n,
        forall|j: int| 0 <= j < old(stack)@.len() ==> (#[trigger] old(stack)@[j]) < n,
    ensures
        final(map).sized(n),
        forall|j: int| 0 <= j < final(stack)@.len() ==> (#[trigger] final(stack)@[j]) < n,
        match plain_step(
            ScanState {
                pending: None,
                inside: *old(inside),
                stack: old(stack)@,
                exteriors: old(map).exteriors@,
                hole_of: old(map).hole_of@,
            },
            c,
            s,
        ) {
            Ok(st) => r is Ok && *final(inside) == st.inside && final(stack)@ == st.stack
                && final(map).exteriors@ == st.exteriors && final(map).hole_of@ == st.hole_of,
            Err(e) => r == Err::<(), CollateError>(e),
        },
{
    let (x, r, idx) = c;
    if r == 1 {
        return Ok(());
    }
    let on_top = stack.len() > 0 && stack[stack.len() - 1] == idx;
    if !*inside {
        if r == 0 {
            if !on_top {
                map.exteriors.set(idx, true);
            }
            *inside = true;
        } else {
            return Err(CollateError::HoleWithoutOutline(s, x));
        }
    } else {
        if r == 0 {
            return Err(CollateError::OutlineInOutline);
        }
        if stack.len() == 0 {
            return Err(CollateError::EmptyPolyStack);
        }
        let last = stack[stack.len() - 1];
        if !on_top {
            if map.hole_of[last].is_some() {
                return Err(CollateError::OutlineIsHole);
            }
            map.hole_of.set(idx, Some(last));
        }
        *inside = false;
    }
    if on_top {
        stack.pop();
    } else {
        stack.push(idx);
    }
    Ok(())
}

/// Scans the crossings `cs` of the sweep line at height `s`, ordered left to
/// right, and records what they decide in `map`.
pub fn scan_crossings(cs: &Vec<Key>, s: i64, map: &mut HoleMap) -> (r: Result<(), CollateError>)
    requires
        old(map).sized(old(map).exteriors@.len()),
        forall|i: int| 0 <= i < cs@.len() ==> (#[trigger] cs@[i]).2 < old(map).exteriors@.len(),
    ensures
        final(map).sized(old(map).exteriors@.len()),
        match scan_sweep(cs@, s, old(map).start()) {
            Ok(st) => r is Ok && final(map).exteriors@ == st.exteriors && final(map).hole_of@ == st.hole_of,
            Err(e) => r == Err::<(), CollateError>(e),
        },
{
    let ghost n = map.exteriors@.len();
    let ghost init = map.start();
    let mut stack: Vec<usize> = Vec::new();
    let mut inside = false;
    let mut pending: Option<Key> = None;
    let mut i: usize = 0;
    while i < cs.len()
        invariant
            i <= cs@.len(),
            n == old(map).exteriors@.len(),
            init == old(map).start(),
            map.sized(n),
            forall|j: int| 0 <= j < cs@.len() ==> (#[trigger] cs@[j]).2 < n,
            forall|j: int| 0 <= j < stack@.len() ==> (#[trigger] stack@[j]) < n,
            pending is Some ==> (pending->Some_0).2 < n,
            scan(cs@.take(i as int), s, init) == Ok::<ScanState, CollateError>(ScanState {
                pending,
                inside,
                stack: stack@,
                exteriors: map.exteriors@,
                hole_of: map.hole_of@,
            }),
        decreases cs.len() - i,
    {
        let c = cs[i];
        proof {
            assert(cs@.take(i + 1).drop_last() =~= cs@.take(i as int));
            assert(cs@.take(i + 1).last() == cs@[i as int]);
        }
        if c.1 != 1 {
            match pending {
                Some(p) => {
                    if c.1 != 0 && c.0 == p.0 && c.2 == p.2 {
                        let first = apply_crossing(&mut stack, &mut inside, map, c, s, Ghost(n));
                        if let Err(e) = first {
                            proof {
                                lemma_scan_err_prefix(cs@, i + 1, s, init);
                            }
                            return Err(e);
                        }
                        let second = apply_crossing(&mut stack, &mut inside, map, p, s, Ghost(n));
                        if let Err(e) = second {
                            proof {
                                lemma_scan_err_prefix(cs@, i + 1, s, init);
                            }
                            return Err(e);
                        }
                        pending = None;
                    } else {
                        proof {
                            lemma_scan_err_prefix(cs@, i + 1, s, init);
                        }
                        return Err(CollateError::OutlineInOutline);
                    }
                },
                None => {
                    if inside && c.1 == 0 {
                        pending = Some(c);
                    } else {
                        let res = apply_crossing(&mut stack, &mut inside, map, c, s, Ghost(n));
                        if let Err(e) = res {
                            proof {
                                lemma_scan_err_prefix(cs@, i + 1, s, init);
                            }
                            return Err(e);
                        }
                    }
                },
            }
        }
        i = i + 1;
    }
    proof {
        assert(cs@.take(cs@.len() as int) =~= cs@);
    }
    if pending.is_some() {
        return Err(CollateError::OutlineInOutline);
    }
    Ok(())
}

} // verus!

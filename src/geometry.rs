//! Points, edges and the crossing of an edge with a horizontal sweep line.
use vstd::prelude::*;

verus! {

/// A point with integer coordinates.
#[derive(Clone, Copy, Debug, PartialEq, Eq, Structural)]
pub struct Coord {
    pub x: i64,
    pub y: i64,
}

/// A straight segment between two points.
#[derive(Clone, Copy, Debug, PartialEq, Eq, Structural)]
pub struct Line {
    pub start: Coord,
    pub end: Coord,
}

/// An edge of a ring, with the index of the ring it belongs to.
#[derive(Clone, Copy, Debug, PartialEq, Eq, Structural)]
pub struct TiedLine {
    pub line: Line,
    pub index: usize,
}

/// How an edge runs through a sweep line, walking from its start to its end.
#[derive(Clone, Copy, Debug, PartialEq, Eq, Structural)]
pub enum Direction {
    Up,
    Horizontal,
    Down,
}

/// Where a ring's edge meets a sweep line.
#[derive(Clone, Copy, Debug, PartialEq, Eq, Structural)]
pub struct Crossing {
    pub x: i64,
    pub direction: Direction,
    pub index: usize,
}

/// A crossing written as a tuple: position, rank of the direction, ring index.
pub type Key = (i64, i64, usize);

pub open spec fn abs(v: int) -> int {
    if v < 0 { -v } else { v }
}

impl TiedLine {
    pub open spec fn low_y(&self) -> i64 {
        if self.line.start.y < self.line.end.y { self.line.start.y } else { self.line.end.y }
    }

    pub open spec fn high_y(&self) -> i64 {
        if self.line.start.y > self.line.end.y { self.line.start.y } else { self.line.end.y }
    }

    pub open spec fn low_x(&self) -> i64 {
        if self.line.start.x < self.line.end.x { self.line.start.x } else { self.line.end.x }
    }

    pub open spec fn high_x(&self) -> i64 {
        if self.line.start.x > self.line.end.x { self.line.start.x } else { self.line.end.x }
    }

    /// The end point with the smaller x (the end point when both are equal).
    pub open spec fn left_end(&self) -> Coord {
        if self.line.start.x < self.line.end.x { self.line.start } else { self.line.end }
    }

    /// Whether a horizontal line at height `s` meets the edge.
    pub open spec fn spans(&self, s: int) -> bool {
        self.low_y() <= s <= self.high_y()
    }

    pub open spec fn direction(&self) -> Direction {
        if self.line.start.y == self.line.end.y {
            Direction::Horizontal
        } else if self.line.start.y < self.line.end.y {
            Direction::Up
        } else {
            Direction::Down
        }
    }

    /// The x where a sloped edge meets the line at height `s`, rounded down:
    /// the left end's x plus the horizontal run over the rise from the left end.
    pub open spec fn sloped_x(&self, s: int) -> int {
        let dx = self.line.end.x - self.line.start.x;
        let dy = self.line.end.y - self.line.start.y;
        self.low_x() + abs((s - self.left_end().y) * dx) / abs(dy)
    }

    /// The crossing of this edge with the line at height `s`. A horizontal edge
    /// meets it at its left end.
    pub open spec fn crossing(&self, s: int) -> Crossing {
        Crossing {
            x: if self.line.start.y == self.line.end.y {
                self.low_x()
            } else {
                self.sloped_x(s) as i64
            },
            direction: self.direction(),
            index: self.index,
        }
    }

    /// The smaller y of the two end points.
    pub fn miny(&self) -> (r: i64)
        ensures
            r == self.low_y(),
    {
        if self.line.start.y < self.line.end.y {
            self.line.start.y
        } else {
            self.line.end.y
        }
    }

    /// The larger y of the two end points.
    pub fn maxy(&self) -> (r: i64)
        ensures
            r == self.high_y(),
    {
        if self.line.start.y > self.line.end.y {
            self.line.start.y
        } else {
            self.line.end.y
        }
    }

    /// The smaller x of the two end points.
    pub fn minx(&self) -> (r: i64)
        ensures
            r == self.low_x(),
    {
        if self.line.start.x < self.line.end.x {
            self.line.start.x
        } else {
            self.line.end.x
        }
    }

    /// The larger x of the two end points.
    pub fn maxx(&self) -> (r: i64)
        ensures
            r == self.high_x(),
    {
        if self.line.start.x > self.line.end.x {
            self.line.start.x
        } else {
            self.line.end.x
        }
    }
}

/// The position of a direction among crossings at the same x.
pub open spec fn rank(d: Direction) -> i64 {
    match d {
        Direction::Up => 0,
        Direction::Horizontal => 1,
        Direction::Down => 2,
    }
}

pub open spec fn key_of(c: Crossing) -> Key {
    (c.x, rank(c.direction), c.index)
}

/// Lexicographic order on keys.
pub open spec fn key_le(a: Key, b: Key) -> bool {
    a.0 < b.0 || (a.0 == b.0 && (a.1 < b.1 || (a.1 == b.1 && a.2 <= b.2)))
}

pub open spec fn key_order() -> spec_fn(Key, Key) -> bool {
    |a: Key, b: Key| key_le(a, b)
}

/// The key of where `t` meets the horizontal line at height `s`.
pub fn crossing_key(t: &TiedLine, s: i64) -> (r: Key)
    requires
        t.spans(s as int),
    ensures
        r == key_of(t.crossing(s as int)),
{
    let minx = t.minx();
    if t.line.start.y == t.line.end.y {
        return (minx, 1, t.index);
    }
    let left_y = if t.line.start.x < t.line.end.x { t.line.start.y } else { t.line.end.y };
    let rise: i128 = s as i128 - left_y as i128;
    let run: i128 = t.line.end.x as i128 - t.line.start.x as i128;
    let height: i128 = t.line.end.y as i128 - t.line.start.y as i128;
    let rise_abs: u128 = if rise < 0 { (-rise) as u128 } else { rise as u128 };
    let run_abs: u128 = if run < 0 { (-run) as u128 } else { run as u128 };
    let height_abs: u128 = if height < 0 { (-height) as u128 } else { height as u128 };
    assert(rise_abs <= height_abs);
    assert(run_abs as int == t.high_x() - t.low_x());
    assert(rise_abs * run_abs <= height_abs * run_abs) by (nonlinear_arith)
        requires rise_abs <= height_abs;
    assert(height_abs * run_abs <= 0xffff_ffff_ffff_ffffu128 * 0xffff_ffff_ffff_ffffu128)
        by (nonlinear_arith)
        requires height_abs <= 0xffff_ffff_ffff_ffffu128, run_abs <= 0xffff_ffff_ffff_ffffu128;
    let product: u128 = rise_abs * run_abs;
    let offset: u128 = product / height_abs;
    assert(offset <= run_abs) by (nonlinear_arith)
        requires
            product <= height_abs * run_abs,
            height_abs > 0,
            offset == product / height_abs;
    assert(abs(rise * run) == abs(rise as int) * abs(run as int)) by (nonlinear_arith);
    assert(product as int == abs(rise * run));
    assert(height_abs as int == abs(height as int));
    let x: i64 = (minx as i128 + offset as i128) as i64;
    let rank: i64 = if t.line.start.y < t.line.end.y { 0 } else { 2 };
    (x, rank, t.index)
}

} // verus!

//! Ring collation: sorts an unordered set of closed rings into polygons,
//! each an outer ring with the holes that sit directly inside it.
//!
//! Rings are crossed by horizontal sweep lines, one for each run of rings
//! whose vertical extents overlap. Along each sweep line the crossings are
//! read from left to right: entering a ring that is not already open makes it
//! an outer ring, and leaving into a ring that is open makes the ring left a
//! hole of the open one.
pub mod classify;
pub mod collate;
pub mod edges;
pub mod geometry;
pub mod laws;
pub mod nesting;
pub mod ordering;
pub mod rectangles;
pub mod sweep;

pub use crate::collate::{Collate, Polygon};
pub use crate::geometry::{Coord, Crossing, Direction, Line, TiedLine};
pub use crate::nesting::CollateError;

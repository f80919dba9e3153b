//! Write/read core of a storage engine for spatial point data: a write-back
//! byte cache that coalesces overlapping writes, a staging log of insert and
//! delete records with an in-memory mirror, and a store of immutable,
//! length-framed data blocks.
use vstd::prelude::*;

pub mod codec;
pub mod storage;
pub mod write_cache;
pub mod staging;
pub mod data;

verus! {

/// One coordinate of a spatial key: a single position or a closed range.
#[derive(Debug)]
pub enum Coord<T> {
    Point(T),
    Range(T, T),
}

/// Whether the closed intervals `a` and `b` intersect; touching endpoints count.
pub open spec fn intervals_meet(a: (int, int), b: (int, int)) -> bool {
    a.0 <= b.1 && b.0 <= a.1
}

/// Intersection test on closed intervals `(start, end)`: touching endpoints count
/// as overlapping.
pub fn overlaps(a: (usize, usize), b: (usize, usize)) -> (r: bool)
    ensures
        r == intervals_meet((a.0 as int, a.1 as int), (b.0 as int, b.1 as int)),
{
    a.0 <= b.1 && b.0 <= a.1
}

/// The payload stored with a point.
pub type Value = u32;

/// A two-dimensional key.
#[derive(Clone, Copy, Debug, PartialEq, Eq, Structural)]
pub struct Point {
    pub x: u32,
    pub y: u32,
}

/// A closed query rectangle.
#[derive(Clone, Copy, Debug, PartialEq, Eq, Structural)]
pub struct Bounds {
    pub min_x: u32,
    pub min_y: u32,
    pub max_x: u32,
    pub max_y: u32,
}

impl Point {
    /// The point lies in the rectangle `b`, edges included.
    pub open spec fn in_bounds(&self, b: Bounds) -> bool {
        b.min_x <= self.x <= b.max_x && b.min_y <= self.y <= b.max_y
    }

    /// Whether the point lies in `b`, edges included.
    pub fn overlaps(&self, b: &Bounds) -> (r: bool)
        ensures
            r == self.in_bounds(*b),
    {
        b.min_x <= self.x && self.x <= b.max_x && b.min_y <= self.y && self.y <= b.max_y
    }
}

/// One logged mutation.
#[derive(Clone, Copy, Debug, PartialEq, Eq, Structural)]
pub enum Row {
    Insert(Point, Value),
    Delete(Point, Value),
}

/// The error kinds of the library.
#[derive(Debug)]
pub enum Error {
    /// An operation of the underlying store failed; its message is kept.
    Io(String),
    /// Stored bytes do not match the expected fixed-size layout.
    Decode,
    /// An internal consistency check failed.
    Invariant,
}

} // verus!

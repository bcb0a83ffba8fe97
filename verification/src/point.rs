//! Cells of the grid by their coordinates.

use vstd::prelude::*;

verus! {

/// A cell of the grid.  Points are ordered row by row: by `y` first, then by
/// `x`.
#[derive(Copy, Clone, Hash, PartialEq, Eq, PartialOrd, Ord, Structural, Debug)]
pub struct Point {
    pub y: i64,
    pub x: i64,
}

impl Point {
    /// The cell as a pair of its coordinates.
    pub open spec fn pair(self) -> (int, int) {
        (self.x as int, self.y as int)
    }

    /// Whether `self` comes before `other` row by row.
    pub open spec fn spec_precedes(self, other: Point) -> bool {
        self.y < other.y || (self.y == other.y && self.x < other.x)
    }

    /// Whether `self` comes before `other` row by row.
    pub fn precedes(&self, other: &Point) -> (r: bool)
        ensures
            r == self.spec_precedes(*other),
    {
        self.y < other.y || (self.y == other.y && self.x < other.x)
    }

    /// The point moved by the vector `by`.
    pub fn translate(self, by: Point) -> (r: Point)
        requires
            i64::MIN <= self.x + by.x <= i64::MAX,
            i64::MIN <= self.y + by.y <= i64::MAX,
        ensures
            r.x == self.x + by.x,
            r.y == self.y + by.y,
    {
        Point { x: self.x + by.x, y: self.y + by.y }
    }

    /// The point with both coordinates negated.
    pub fn neg(self) -> (r: Point)
        requires
            self.x > i64::MIN,
            self.y > i64::MIN,
        ensures
            r.x == -self.x,
            r.y == -self.y,
    {
        Point { x: -self.x, y: -self.y }
    }

    /// The point with both coordinates multiplied by `k`.
    pub fn times(self, k: i64) -> (r: Point)
        requires
            i64::MIN <= self.x * k <= i64::MAX,
            i64::MIN <= self.y * k <= i64::MAX,
        ensures
            r.x == self.x * k,
            r.y == self.y * k,
    {
        Point { x: self.x * k, y: self.y * k }
    }
}

} // verus!

//! Positions in a document: zero-based rows and UTF-8 byte columns.

use vstd::prelude::*;

verus! {

/// A position in a document, as a zero-based row and a byte column.
#[derive(Clone, Copy, Debug, PartialEq, Eq, Structural)]
pub struct Point {
    pub row: usize,
    pub column: usize,
}

impl Point {
    /// Lexicographic order on (row, column): `self` comes strictly first.
    pub open spec fn spec_lt(self, other: Point) -> bool {
        self.row < other.row || (self.row == other.row && self.column < other.column)
    }

    /// `self` comes first or is the same position.
    pub open spec fn spec_le(self, other: Point) -> bool {
        self.spec_lt(other) || self == other
    }

    pub fn new(row: usize, column: usize) -> (r: Point)
        ensures
            r == (Point { row, column }),
    {
        Point { row, column }
    }

    pub fn lt(&self, other: &Point) -> (r: bool)
        ensures
            r == self.spec_lt(*other),
    {
        self.row < other.row || (self.row == other.row && self.column < other.column)
    }

    pub fn le(&self, other: &Point) -> (r: bool)
        ensures
            r == self.spec_le(*other),
    {
        self.row < other.row || (self.row == other.row && self.column <= other.column)
    }
}

} // verus!

//! Positions in a document: byte offsets, (row, column) points, and
//! selections between two points.
use vstd::prelude::*;

verus! {

/// A byte offset into a document, 0 at the start and at most its length.
#[derive(Debug, Clone, Copy, PartialEq, Eq, PartialOrd, Ord, Structural, Default)]
pub struct Offset(pub usize);

impl Offset {
    /// Wrap a byte position.
    pub fn new(offset: usize) -> (r: Self)
        ensures
            r.0 == offset,
    {
        Offset(offset)
    }

    /// The offset of the start of the document.
    pub fn zero() -> (r: Self)
        ensures
            r.0 == 0,
    {
        Offset(0)
    }

    /// The underlying byte position.
    pub fn value(&self) -> (r: usize)
        ensures
            r == self.0,
    {
        self.0
    }
}

/// A position as 0-based row and column; the column counts characters
/// from the start of the line, not bytes. The derived order is reading
/// order: by row, then by column.
#[derive(Debug, Clone, Copy, PartialEq, Eq, PartialOrd, Ord, Structural, Default)]
pub struct Point {
    pub row: usize,
    pub column: usize,
}

impl Point {
    /// Whether this point comes at or before another, reading order:
    /// by row, then by column.
    pub open spec fn le_spec(self, other: Point) -> bool {
        self.row < other.row || (self.row == other.row && self.column <= other.column)
    }

    /// Make a point.
    pub fn new(row: usize, column: usize) -> (r: Self)
        ensures
            r.row == row && r.column == column,
    {
        Point { row, column }
    }

    /// The origin, row 0 column 0.
    pub fn zero() -> (r: Self)
        ensures
            r.row == 0 && r.column == 0,
    {
        Point { row: 0, column: 0 }
    }

    /// Whether this point comes at or before another in reading order.
    pub fn le(&self, other: &Point) -> (r: bool)
        ensures
            r == self.le_spec(*other),
    {
        self.row < other.row || (self.row == other.row && self.column <= other.column)
    }
}

/// A span of text between two points; a cursor is a selection whose two
/// ends coincide.
#[derive(Debug, Clone, Copy, PartialEq, Eq, Structural)]
pub struct Selection {
    pub start: Point,
    pub end: Point,
}

impl Selection {
    /// A selection from `start` to `end`.
    pub fn new(start: Point, end: Point) -> (r: Self)
        ensures
            r.start == start && r.end == end,
    {
        Selection { start, end }
    }

    /// A cursor: an empty selection at one point.
    pub fn cursor(point: Point) -> (r: Self)
        ensures
            r.start == point && r.end == point,
    {
        Selection { start: point, end: point }
    }

    /// Whether the selection is just a cursor.
    pub fn is_empty(&self) -> (r: bool)
        ensures
            r == (self.start == self.end),
    {
        self.start.row == self.end.row && self.start.column == self.end.column
    }

    /// The selection's ends in reading order.
    pub fn range(&self) -> (r: (Point, Point))
        ensures
            self.start.le_spec(self.end) ==> r == (self.start, self.end),
            !self.start.le_spec(self.end) ==> r == (self.end, self.start),
    {
        if self.start.le(&self.end) {
            (self.start, self.end)
        } else {
            (self.end, self.start)
        }
    }
}

/// Several selections at once, for editing in more than one place.
#[derive(Debug, Clone)]
pub struct MultiCursor {
    selections: Vec<Selection>,
}

impl MultiCursor {
    /// The selections held.
    pub closed spec fn selections_spec(self) -> Seq<Selection> {
        self.selections@
    }

    /// No selections yet.
    pub fn new() -> (r: Self)
        ensures
            r.selections_spec() == Seq::<Selection>::empty(),
    {
        MultiCursor { selections: Vec::new() }
    }
}

impl Default for MultiCursor {
    /// The default holds no selections.
    fn default() -> (r: Self)
        ensures
            r.selections_spec() == Seq::<Selection>::empty(),
    {
        MultiCursor::new()
    }
}

} // verus!

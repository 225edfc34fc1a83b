//! Positions and ranges in a text, and how they are ordered.

use vstd::prelude::*;

verus! {

/// A place in a text: a line, and a character offset within that line.
/// The offset may equal the line's length, which is the place after its
/// last character.
#[derive(Clone, Copy, Debug, PartialEq, Eq, Structural, Hash)]
pub struct Position {
    pub line: usize,
    pub offset: usize,
}

impl Position {
    /// Document order, strict: by line first, then by offset.
    pub open spec fn spec_lt(self, other: Position) -> bool {
        self.line < other.line || (self.line == other.line && self.offset < other.offset)
    }

    /// Document order.
    pub open spec fn spec_le(self, other: Position) -> bool {
        self.line < other.line || (self.line == other.line && self.offset <= other.offset)
    }

    /// Whether the position addresses a place in `lines`.
    pub open spec fn valid_in(self, lines: Seq<Seq<char>>) -> bool {
        self.line < lines.len() && self.offset <= lines[self.line as int].len()
    }

    pub fn new(line: usize, offset: usize) -> (p: Position)
        ensures
            p.line == line,
            p.offset == offset,
    {
        Position { line, offset }
    }

    /// The start of every text.
    pub fn zero() -> (p: Position)
        ensures
            p.line == 0,
            p.offset == 0,
    {
        Position { line: 0, offset: 0 }
    }

    pub fn is_before(&self, other: &Position) -> (b: bool)
        ensures
            b == self.spec_lt(*other),
    {
        self.line < other.line || (self.line == other.line && self.offset < other.offset)
    }

    pub fn is_at_or_before(&self, other: &Position) -> (b: bool)
        ensures
            b == self.spec_le(*other),
    {
        self.line < other.line || (self.line == other.line && self.offset <= other.offset)
    }

    /// The earlier of two positions.
    pub fn earlier(self, other: Position) -> (p: Position)
        ensures
            p == spec_min(self, other),
    {
        if self.is_at_or_before(&other) {
            self
        } else {
            other
        }
    }

    /// The later of two positions.
    pub fn later(self, other: Position) -> (p: Position)
        ensures
            p == spec_max(self, other),
    {
        if self.is_at_or_before(&other) {
            other
        } else {
            self
        }
    }
}

pub open spec fn spec_min(a: Position, b: Position) -> Position {
    if a.spec_le(b) {
        a
    } else {
        b
    }
}

pub open spec fn spec_max(a: Position, b: Position) -> Position {
    if a.spec_le(b) {
        b
    } else {
        a
    }
}

/// A span of text between two positions, the first not after the second.
#[derive(Clone, Copy, Debug, PartialEq, Eq, Structural, Hash)]
pub struct Range {
    pub start: Position,
    pub end: Position,
}

impl Range {
    pub open spec fn ordered(self) -> bool {
        self.start.spec_le(self.end)
    }

    /// Whether the range is ordered and both ends address places in `lines`.
    pub open spec fn valid_in(self, lines: Seq<Seq<char>>) -> bool {
        &&& self.ordered()
        &&& self.start.valid_in(lines)
        &&& self.end.valid_in(lines)
    }

    pub fn new(start: Position, end: Position) -> (r: Range)
        ensures
            r.start == start,
            r.end == end,
    {
        Range { start, end }
    }

    /// The range between two positions given in either order.
    pub fn spanning(a: Position, b: Position) -> (r: Range)
        ensures
            r.start == spec_min(a, b),
            r.end == spec_max(a, b),
            r.ordered(),
    {
        Range { start: a.earlier(b), end: a.later(b) }
    }

    /// The empty range at one position.
    pub fn at(p: Position) -> (r: Range)
        ensures
            r.start == p,
            r.end == p,
    {
        Range { start: p, end: p }
    }

    pub fn is_ordered(&self) -> (b: bool)
        ensures
            b == self.ordered(),
    {
        self.start.is_at_or_before(&self.end)
    }
}

} // verus!

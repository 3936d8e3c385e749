//! Positions and ranges within a source file.

use vstd::prelude::*;

verus! {

/// A 1-indexed position within a source file.
#[derive(Debug, Clone, Copy, PartialEq, Eq, Structural, PartialOrd, Ord, Hash)]
pub struct Position {
    pub line: usize,
    pub column: usize,
}

impl Default for Position {
    fn default() -> (p: Self)
        ensures
            p.line == 1 && p.column == 1,
    {
        Position { line: 1, column: 1 }
    }
}

impl Position {
    pub fn new(line: usize, column: usize) -> (p: Self)
        ensures
            p.line == line,
            p.column == column,
    {
        Position { line, column }
    }

    /// Whether `self` sorts before `other`: by line, then by column.
    pub open spec fn precedes(self, other: Position) -> bool {
        self.line < other.line || (self.line == other.line && self.column < other.column)
    }

    /// Compares two positions by line, then by column.
    pub fn is_before(&self, other: &Position) -> (b: bool)
        ensures
            b == self.precedes(*other),
    {
        self.line < other.line || (self.line == other.line && self.column < other.column)
    }
}

/// A range between two [`Position`]s within a source file.
#[derive(Debug, Clone, Copy, PartialEq, Eq, Structural)]
pub struct Span {
    pub start: Position,
    pub end: Position,
}

impl Default for Span {
    fn default() -> (s: Self)
        ensures
            s.start.line == 1 && s.start.column == 1 && s.end.line == 1 && s.end.column == 1,
    {
        Span { start: Position::default(), end: Position::default() }
    }
}

impl Span {
    pub fn new(start: Position, end: Position) -> (s: Self)
        ensures
            s.start == start,
            s.end == end,
    {
        Span { start, end }
    }

    /// A zero-width span at `position`.
    pub fn at(position: Position) -> (s: Self)
        ensures
            s.start == position,
            s.end == position,
    {
        Span { start: position, end: position }
    }

    /// The span `self` shifted down by `lines`, columns untouched.
    pub open spec fn shifted(self, lines: nat) -> Span {
        Span {
            start: Position { line: (self.start.line + lines) as usize, column: self.start.column },
            end: Position { line: (self.end.line + lines) as usize, column: self.end.column },
        }
    }

    /// Shifts both endpoints down by `lines`.
    ///
    /// Frontmatter is parsed as a standalone YAML document, so its spans are
    /// relative to the start of the block rather than the file. Shifting by the
    /// number of lines the opening `---` occupies maps them back onto the file.
    pub fn offset_lines(self, lines: usize) -> (s: Self)
        requires
            self.start.line + lines <= usize::MAX,
            self.end.line + lines <= usize::MAX,
        ensures
            s == self.shifted(lines as nat),
    {
        Span {
            start: Position::new(self.start.line + lines, self.start.column),
            end: Position::new(self.end.line + lines, self.end.column),
        }
    }
}

/// Shifting twice is shifting once by the sum.
pub proof fn lemma_shift_composes(span: Span, a: nat, b: nat)
    requires
        span.start.line + a + b <= usize::MAX,
        span.end.line + a + b <= usize::MAX,
    ensures
        span.shifted(a).shifted(b) == span.shifted(a + b),
{
}

} // verus!

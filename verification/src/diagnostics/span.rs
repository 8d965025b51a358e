//! Source locations and spans.
use vstd::prelude::*;

verus! {

/// A position in a source text: 1-based line and column, and byte offset.
#[derive(Clone, Copy, Debug, PartialEq, Eq, Default, Structural)]
pub struct SourceLocation {
    pub line: u32,
    pub column: u32,
    pub byte_offset: usize,
}

impl SourceLocation {
    pub fn new(line: u32, column: u32, byte_offset: usize) -> (r: Self)
        ensures
            r == (SourceLocation { line, column, byte_offset }),
    {
        SourceLocation { line, column, byte_offset }
    }

    /// A location given by line and column alone.
    pub fn line_col(line: u32, column: u32) -> (r: Self)
        ensures
            r == (SourceLocation { line, column, byte_offset: 0 }),
    {
        SourceLocation { line, column, byte_offset: 0 }
    }
}

/// A range of source text from `start` to `end`.
#[derive(Clone, Copy, Debug, PartialEq, Eq, Default, Structural)]
pub struct Span {
    pub start: SourceLocation,
    pub end: SourceLocation,
}

impl Span {
    pub fn new(start: SourceLocation, end: SourceLocation) -> (r: Self)
        ensures
            r == (Span { start, end }),
    {
        Span { start, end }
    }

    /// The columns `start_col` to `end_col` of one line.
    pub fn single_line(line: u32, start_col: u32, end_col: u32) -> (r: Self)
        ensures
            r.start == (SourceLocation { line, column: start_col, byte_offset: 0 }),
            r.end == (SourceLocation { line, column: end_col, byte_offset: 0 }),
    {
        Span {
            start: SourceLocation::line_col(line, start_col),
            end: SourceLocation::line_col(line, end_col),
        }
    }

    /// The first column of a line.
    pub fn line(line: u32) -> (r: Self)
        ensures
            r.start == (SourceLocation { line, column: 1, byte_offset: 0 }),
            r.end == (SourceLocation { line, column: 1, byte_offset: 0 }),
    {
        Span { start: SourceLocation::line_col(line, 1), end: SourceLocation::line_col(line, 1) }
    }
}

} // verus!

//! The parsed document: blocks, inline content, and where they stand.

pub mod anchor;
pub mod document;

use vstd::prelude::*;

verus! {

/// Horizontal alignment of a cell or a column.
#[derive(Clone, Copy, Debug, PartialEq, Eq, Structural)]
pub enum HorizontalAlignment {
    Left,
    Center,
    Right,
}

/// Vertical alignment of a cell or a column.
#[derive(Clone, Copy, Debug, PartialEq, Eq, Structural)]
pub enum VerticalAlignment {
    Top,
    Middle,
    Bottom,
}

/// The style that a cell's content is read in.
#[derive(Clone, Copy, Debug, PartialEq, Eq, Structural)]
pub enum ColumnStyle {
    AsciiDoc,
    Default,
    Emphasis,
    Header,
    Literal,
    Monospace,
    Strong,
}

/// A line and a column, both counted from 1; columns count characters.
#[derive(Clone, Copy, Debug, PartialEq, Eq, Structural)]
pub struct Position {
    pub line: u32,
    pub column: u32,
}

/// A span of the source: by byte offsets and by lines and columns.
#[derive(Clone, Copy, Debug, PartialEq, Eq, Structural)]
pub struct Location {
    pub absolute_start: usize,
    pub absolute_end: usize,
    pub start: Position,
    pub end: Position,
}

impl Default for Position {
    /// The position of nothing.
    fn default() -> (r: Position)
        ensures
            r == (Position { line: 0, column: 0 }),
    {
        Position { line: 0, column: 0 }
    }
}

impl Default for Location {
    /// The location of nothing.
    fn default() -> (r: Location)
        ensures
            r == (Location {
                absolute_start: 0,
                absolute_end: 0,
                start: Position { line: 0, column: 0 },
                end: Position { line: 0, column: 0 },
            }),
    {
        Location {
            absolute_start: 0,
            absolute_end: 0,
            start: Position::default(),
            end: Position::default(),
        }
    }
}

} // verus!

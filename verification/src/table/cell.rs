//! Making a cell of the document from a cell that was read and its parsed content.

use crate::model::document::{Block, TableColumn};
use crate::model::{ColumnStyle, Position};
use crate::table::escape::{cell_marks, find_marks};
use crate::table::relocate::{blocks_moved, move_blocks};
use crate::table::row::ParsedCell;
use crate::text::blen;
use vstd::prelude::*;
use vstd::string::*;

verus! {

/// The grammar that the content of a cell is parsed by.
#[derive(Clone, Copy, Debug, PartialEq, Eq, Structural)]
pub enum CellGrammar {
    /// The blocks of a document, quotations in the manner of Markdown among them.
    Document,
    /// The blocks of a table cell, without such quotations.
    TableCell,
}

/// The grammar for the content of a cell, by its style.
pub fn cell_grammar(cell: &ParsedCell) -> (r: CellGrammar)
    ensures
        r == (if cell.style == Some(ColumnStyle::AsciiDoc) {
            CellGrammar::Document
        } else {
            CellGrammar::TableCell
        }),
{
    match cell.style {
        Some(ColumnStyle::AsciiDoc) => CellGrammar::Document,
        _ => CellGrammar::TableCell,
    }
}

/// Move every location of the blocks of a cell past the backslashes of escaped
/// separators. `collapsed` is the text that the blocks were parsed from; it begins
/// at `cell_start_offset` of `input`, the position `base`. Where the text does not
/// come from the source by unescaping alone, the locations stay.
pub fn compensate_escape_collapses<'a>(
    blocks: &mut Vec<Block<'a>>,
    collapsed: &str,
    input: &str,
    base: Position,
    cell_start_offset: usize,
)
    requires
        cell_start_offset + blen(collapsed@) <= usize::MAX,
        base.line + blen(collapsed@) <= u32::MAX,
        base.column + blen(collapsed@) <= u32::MAX,
    ensures
        blocks_moved(
            old(blocks)@,
            final(blocks)@,
            cell_marks(collapsed@, input@, base, cell_start_offset as int),
        ),
{
    let marks = find_marks(collapsed, input, base, cell_start_offset);
    move_blocks(blocks, &marks);
}

impl<'a> TableColumn<'a> {
    /// A cell with the given content and format.
    pub fn with_format(content: Vec<Block<'a>>, cell: &ParsedCell) -> (r: TableColumn<'a>)
        ensures
            r == (TableColumn {
                content,
                colspan: cell.colspan,
                rowspan: cell.rowspan,
                halign: cell.halign,
                valign: cell.valign,
                style: cell.style,
            }),
    {
        TableColumn {
            content,
            colspan: cell.colspan,
            rowspan: cell.rowspan,
            halign: cell.halign,
            valign: cell.valign,
            style: cell.style,
        }
    }
}

/// Make a cell of what its content was parsed to. Content that the grammar does
/// not match (`None`) leaves the cell empty; an error is handed on.
pub fn parse_table_cell<'a, E>(
    content: &str,
    parsed: Option<Result<Vec<Block<'a>>, E>>,
    input: &str,
    base: Position,
    cell_start_offset: usize,
    cell: &ParsedCell,
) -> (r: Result<TableColumn<'a>, E>)
    requires
        cell_start_offset + blen(content@) <= usize::MAX,
        base.line + blen(content@) <= u32::MAX,
        base.column + blen(content@) <= u32::MAX,
    ensures
        match r {
            Ok(column) => {
                &&& column.colspan == cell.colspan
                &&& column.rowspan == cell.rowspan
                &&& column.halign == cell.halign
                &&& column.valign == cell.valign
                &&& column.style == cell.style
                &&& match parsed {
                    Some(Ok(blocks)) => blocks_moved(
                        blocks@,
                        column.content@,
                        cell_marks(content@, input@, base, cell_start_offset as int),
                    ),
                    Some(Err(_)) => false,
                    None => column.content@.len() == 0,
                }
            },
            Err(e) => parsed == Some(Err::<Vec<Block<'a>>, E>(e)),
        },
{
    let mut blocks = match parsed {
        Some(Ok(blocks)) => blocks,
        Some(Err(e)) => {
            return Err(e);
        },
        None => Vec::new(),
    };
    compensate_escape_collapses(&mut blocks, content, input, base, cell_start_offset);
    Ok(TableColumn::with_format(blocks, cell))
}

} // verus!

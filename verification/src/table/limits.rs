//! Bounds on the size of a table, so that no specifier can ask for more cells
//! than a table may have.

use crate::table::row::{CellV, ParsedCell};
use vstd::prelude::*;
use vstd::string::*;

verus! {

/// The most columns, column spans and copies of a cell that a table may have.
pub const MAX_TABLE_COLUMNS: usize = 100;

/// The most rows and row spans that a table may have.
pub const MAX_TABLE_ROWS: usize = 1000;

/// A table that is larger than its bounds: what is too large, how large it was
/// to be, and where that stands in the document. A row without cells stands at 0.
#[derive(Debug)]
pub struct TableLimitViolation {
    pub resource: &'static str,
    pub requested: usize,
    pub limit: usize,
    pub start: usize,
    pub end: usize,
}

/// What a violation says.
#[verifier::ext_equal]
pub struct LimitV {
    pub resource: Seq<char>,
    pub requested: int,
    pub limit: int,
    pub start: int,
    pub end: int,
}

impl DeepView for TableLimitViolation {
    type V = LimitV;

    open spec fn deep_view(&self) -> LimitV {
        LimitV {
            resource: self.resource@,
            requested: self.requested as int,
            limit: self.limit as int,
            start: self.start as int,
            end: self.end as int,
        }
    }
}

/// A number that no machine integer holds becomes the largest one.
pub open spec fn saturated(n: int) -> int {
    if n > usize::MAX {
        usize::MAX as int
    } else {
        n
    }
}

/// The columns that a cell takes: its span for each of its copies.
pub open spec fn cell_width(cell: CellV) -> int {
    saturated(cell.colspan * cell.duplication_count)
}

/// The columns that the cells of a row take.
pub open spec fn row_width(cells: Seq<CellV>) -> int
    decreases cells.len(),
{
    if cells.len() == 0 {
        0
    } else {
        saturated(row_width(cells.drop_last()) + cell_width(cells.last()))
    }
}

/// The bound that a cell's span or number of copies exceeds.
pub open spec fn cell_violation(cell: CellV) -> Option<LimitV> {
    if cell.colspan > MAX_TABLE_COLUMNS {
        Some(
            LimitV {
                resource: "column span"@,
                requested: cell.colspan as int,
                limit: MAX_TABLE_COLUMNS as int,
                start: cell.start,
                end: cell.end,
            },
        )
    } else if cell.rowspan > MAX_TABLE_ROWS {
        Some(
            LimitV {
                resource: "row span"@,
                requested: cell.rowspan as int,
                limit: MAX_TABLE_ROWS as int,
                start: cell.start,
                end: cell.end,
            },
        )
    } else if cell.duplication_count > MAX_TABLE_COLUMNS {
        Some(
            LimitV {
                resource: "cell duplication"@,
                requested: cell.duplication_count as int,
                limit: MAX_TABLE_COLUMNS as int,
                start: cell.start,
                end: cell.end,
            },
        )
    } else {
        None
    }
}

/// The first bound that one of the cells exceeds.
pub open spec fn cells_violation(cells: Seq<CellV>) -> Option<LimitV>
    decreases cells.len(),
{
    if cells.len() == 0 {
        None
    } else if cell_violation(cells[0]) is Some {
        cell_violation(cells[0])
    } else {
        cells_violation(cells.drop_first())
    }
}

/// Where a row stands: from the start of its first cell to the end of its last.
pub open spec fn row_place(row: Seq<CellV>) -> (int, int) {
    if row.len() == 0 {
        (0, 0)
    } else {
        (row[0].start, row.last().end)
    }
}

/// The first bound that a row exceeds.
pub open spec fn row_violation(row: Seq<CellV>) -> Option<LimitV> {
    if row.len() > MAX_TABLE_COLUMNS {
        Some(
            LimitV {
                resource: "column count"@,
                requested: row.len() as int,
                limit: MAX_TABLE_COLUMNS as int,
                start: row_place(row).0,
                end: row_place(row).1,
            },
        )
    } else {
        cells_violation(row)
    }
}

/// The first bound that one of the rows exceeds.
pub open spec fn each_row_violation(rows: Seq<Seq<CellV>>) -> Option<LimitV>
    decreases rows.len(),
{
    if rows.len() == 0 {
        None
    } else if row_violation(rows[0]) is Some {
        row_violation(rows[0])
    } else {
        each_row_violation(rows.drop_first())
    }
}

/// The first bound that a table exceeds.
pub open spec fn table_violation(rows: Seq<Seq<CellV>>) -> Option<LimitV> {
    if rows.len() > MAX_TABLE_ROWS {
        Some(
            LimitV {
                resource: "row count"@,
                requested: rows.len() as int,
                limit: MAX_TABLE_ROWS as int,
                start: row_place(rows[MAX_TABLE_ROWS as int]).0,
                end: row_place(rows[MAX_TABLE_ROWS as int]).1,
            },
        )
    } else {
        each_row_violation(rows)
    }
}

/// The first bound that a cell of one of the rows exceeds.
pub open spec fn specifiers_violation(rows: Seq<Seq<CellV>>) -> Option<LimitV>
    decreases rows.len(),
{
    if rows.len() == 0 {
        None
    } else if cells_violation(rows[0]) is Some {
        cells_violation(rows[0])
    } else {
        specifiers_violation(rows.drop_first())
    }
}

/// A cell whose span and copies are within bounds.
pub open spec fn cell_within_limits(cell: CellV) -> bool {
    &&& cell.colspan <= MAX_TABLE_COLUMNS
    &&& cell.rowspan <= MAX_TABLE_ROWS
    &&& cell.duplication_count <= MAX_TABLE_COLUMNS
}

/// A table within bounds: in rows, in cells of each row, and in what each cell
/// asks for.
pub open spec fn within_limits(rows: Seq<Seq<CellV>>) -> bool {
    &&& rows.len() <= MAX_TABLE_ROWS
    &&& forall|i: int|
        #![trigger rows[i]]
        0 <= i < rows.len() ==> {
            &&& rows[i].len() <= MAX_TABLE_COLUMNS
            &&& forall|j: int|
                #![trigger rows[i][j]]
                0 <= j < rows[i].len() ==> cell_within_limits(rows[i][j])
        }
}

// ---------------------------------------------------------------------------
// Facts about the model.
// ---------------------------------------------------------------------------

/// No cell is found at fault exactly when every cell is within bounds.
pub proof fn lemma_cells_within(cells: Seq<CellV>)
    ensures
        cells_violation(cells) is None <==> forall|j: int|
            #![trigger cells[j]]
            0 <= j < cells.len() ==> cell_within_limits(cells[j]),
    decreases cells.len(),
{
    if cells.len() > 0 {
        let rest = cells.drop_first();
        lemma_cells_within(rest);
        if cell_violation(cells[0]) is None {
            if cells_violation(rest) is None {
                assert forall|j: int| #![trigger cells[j]] 0 <= j < cells.len() implies cell_within_limits(
                    cells[j],
                ) by {
                    if j > 0 {
                        assert(cells[j] == rest[j - 1]);
                    }
                }
            } else {
                let j = choose|j: int| 0 <= j < rest.len() && !cell_within_limits(#[trigger] rest[j]);
                assert(cells[j + 1] == rest[j]);
            }
        } else {
            assert(!cell_within_limits(cells[0]));
        }
    }
}

/// A table is accepted exactly when it is within bounds: a table with one row,
/// column, span or copy too many is refused, and no other is.
pub proof fn law_limits(rows: Seq<Seq<CellV>>)
    ensures
        table_violation(rows) is None <==> within_limits(rows),
{
    if rows.len() <= MAX_TABLE_ROWS {
        lemma_each_row_within(rows);
    }
}

proof fn lemma_each_row_within(rows: Seq<Seq<CellV>>)
    ensures
        each_row_violation(rows) is None <==> forall|i: int|
            #![trigger rows[i]]
            0 <= i < rows.len() ==> {
                &&& rows[i].len() <= MAX_TABLE_COLUMNS
                &&& forall|j: int|
                    #![trigger rows[i][j]]
                    0 <= j < rows[i].len() ==> cell_within_limits(rows[i][j])
            },
    decreases rows.len(),
{
    if rows.len() > 0 {
        let rest = rows.drop_first();
        lemma_each_row_within(rest);
        lemma_cells_within(rows[0]);
        if row_violation(rows[0]) is None {
            if each_row_violation(rest) is None {
                assert forall|i: int| #![trigger rows[i]] 0 <= i < rows.len() implies {
                    &&& rows[i].len() <= MAX_TABLE_COLUMNS
                    &&& forall|j: int|
                        #![trigger rows[i][j]]
                        0 <= j < rows[i].len() ==> cell_within_limits(rows[i][j])
                } by {
                    if i > 0 {
                        assert(rows[i] == rest[i - 1]);
                    }
                }
            } else {
                let i = choose|i: int|
                    0 <= i < rest.len() && !({
                        &&& #[trigger] rest[i].len() <= MAX_TABLE_COLUMNS
                        &&& forall|j: int|
                            #![trigger rest[i][j]]
                            0 <= j < rest[i].len() ==> cell_within_limits(rest[i][j])
                    });
                assert(rows[i + 1] == rest[i]);
            }
        } else {
            assert(!(rows[0].len() <= MAX_TABLE_COLUMNS && forall|j: int|
                #![trigger rows[0][j]]
                0 <= j < rows[0].len() ==> cell_within_limits(rows[0][j])));
        }
    }
}

// ---------------------------------------------------------------------------
// Executable operations.
// ---------------------------------------------------------------------------

impl TableLimitViolation {
    /// A violation of the bound on `resource`.
    pub fn new(
        resource: &'static str,
        requested: usize,
        limit: usize,
        start: usize,
        end: usize,
    ) -> (r: TableLimitViolation)
        ensures
            r == (TableLimitViolation { resource, requested, limit, start, end }),
    {
        TableLimitViolation { resource, requested, limit, start, end }
    }
}

/// The product, or the largest number where it does not fit.
pub fn saturating_product(a: usize, b: usize) -> (r: usize)
    ensures
        r == saturated(a * b),
{
    match a.checked_mul(b) {
        Some(p) => p,
        None => usize::MAX,
    }
}

/// The columns that a cell takes.
pub fn occupied_columns(cell: &ParsedCell) -> (r: usize)
    ensures
        r == cell_width(cell.deep_view()),
{
    saturating_product(cell.colspan, cell.duplication_count)
}

/// The columns that the cells of a row take.
pub fn row_columns(cells: &Vec<ParsedCell>) -> (r: usize)
    ensures
        r == row_width(cells.deep_view()),
{
    let mut total: usize = 0;
    let mut i: usize = 0;
    let ghost all = cells.deep_view();
    assert(all.take(0) =~= Seq::empty());
    while i < cells.len()
        invariant
            i <= cells@.len(),
            all == cells.deep_view(),
            total == row_width(all.take(i as int)),
        decreases cells.len() - i,
    {
        total = total.saturating_add(occupied_columns(&cells[i]));
        assert(all[i as int] == cells@[i as int].deep_view());
        i += 1;
        assert(all.take(i as int).drop_last() =~= all.take(i - 1));
    }
    assert(all.take(i as int) =~= all);
    total
}

/// Check the spans and copies of cells.
pub fn validate_cell_specifiers(cells: &[ParsedCell]) -> (r: Result<(), TableLimitViolation>)
    ensures
        match r {
            Ok(_) => cells_violation(cells.deep_view()) is None,
            Err(e) => cells_violation(cells.deep_view()) == Some(e.deep_view()),
        },
{
    let mut i: usize = 0;
    let ghost all = cells.deep_view();
    assert(all.skip(0) =~= all);
    while i < cells.len()
        invariant
            i <= cells@.len(),
            all == cells.deep_view(),
            cells_violation(all) == cells_violation(all.skip(i as int)),
        decreases cells.len() - i,
    {
        let cell = &cells[i];
        assert(all.skip(i as int)[0] == cell.deep_view());
        if cell.colspan > MAX_TABLE_COLUMNS {
            return Err(
                TableLimitViolation::new(
                    "column span",
                    cell.colspan,
                    MAX_TABLE_COLUMNS,
                    cell.start,
                    cell.end,
                ),
            );
        }
        if cell.rowspan > MAX_TABLE_ROWS {
            return Err(
                TableLimitViolation::new(
                    "row span",
                    cell.rowspan,
                    MAX_TABLE_ROWS,
                    cell.start,
                    cell.end,
                ),
            );
        }
        if cell.duplication_count > MAX_TABLE_COLUMNS {
            return Err(
                TableLimitViolation::new(
                    "cell duplication",
                    cell.duplication_count,
                    MAX_TABLE_COLUMNS,
                    cell.start,
                    cell.end,
                ),
            );
        }
        assert(all.skip(i as int).drop_first() =~= all.skip(i + 1));
        i += 1;
    }
    Ok(())
}

/// Check the spans and copies of the cells of all rows.
pub fn validate_all_specifiers(rows: &Vec<Vec<ParsedCell>>) -> (r: Result<(), TableLimitViolation>)
    ensures
        match r {
            Ok(_) => specifiers_violation(rows.deep_view()) is None,
            Err(e) => specifiers_violation(rows.deep_view()) == Some(e.deep_view()),
        },
{
    let mut i: usize = 0;
    let ghost all = rows.deep_view();
    assert(all.skip(0) =~= all);
    while i < rows.len()
        invariant
            i <= rows@.len(),
            all == rows.deep_view(),
            specifiers_violation(all) == specifiers_violation(all.skip(i as int)),
        decreases rows.len() - i,
    {
        assert(all.skip(i as int)[0] == rows@[i as int].deep_view());
        match validate_cell_specifiers(rows[i].as_slice()) {
            Ok(_) => {},
            Err(e) => {
                return Err(e);
            },
        }
        assert(all.skip(i as int).drop_first() =~= all.skip(i + 1));
        i += 1;
    }
    Ok(())
}

/// Where a row stands.
fn place_of(row: &Vec<ParsedCell>) -> (r: (usize, usize))
    ensures
        (r.0 as int, r.1 as int) == row_place(row.deep_view()),
{
    let n: usize = row.len();
    if n == 0 {
        (0, 0)
    } else {
        assert(row.deep_view()[0] == row@[0].deep_view());
        assert(row.deep_view()[n - 1] == row@[n - 1].deep_view());
        (row[0].start, row[n - 1].end)
    }
}

/// Check a table against its bounds.
pub fn validate_table_limits(rows: &Vec<Vec<ParsedCell>>) -> (r: Result<(), TableLimitViolation>)
    ensures
        match r {
            Ok(_) => table_violation(rows.deep_view()) is None,
            Err(e) => table_violation(rows.deep_view()) == Some(e.deep_view()),
        },
{
    let ghost all = rows.deep_view();
    if rows.len() > MAX_TABLE_ROWS {
        assert(all[MAX_TABLE_ROWS as int] == rows@[MAX_TABLE_ROWS as int].deep_view());
        let (start, end) = place_of(&rows[MAX_TABLE_ROWS]);
        return Err(
            TableLimitViolation::new("row count", rows.len(), MAX_TABLE_ROWS, start, end),
        );
    }
    let mut i: usize = 0;
    assert(all.skip(0) =~= all);
    while i < rows.len()
        invariant
            i <= rows@.len() <= MAX_TABLE_ROWS,
            all == rows.deep_view(),
            each_row_violation(all) == each_row_violation(all.skip(i as int)),
        decreases rows.len() - i,
    {
        let row = &rows[i];
        assert(all.skip(i as int)[0] == row.deep_view());
        if row.len() > MAX_TABLE_COLUMNS {
            let (start, end) = place_of(row);
            return Err(
                TableLimitViolation::new("column count", row.len(), MAX_TABLE_COLUMNS, start, end),
            );
        }
        match validate_cell_specifiers(row.as_slice()) {
            Ok(_) => {},
            Err(e) => {
                return Err(e);
            },
        }
        assert(all.skip(i as int).drop_first() =~= all.skip(i + 1));
        i += 1;
    }
    Ok(())
}

} // verus!

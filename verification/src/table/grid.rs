//! Laying cells out in rows of a fixed number of columns.
//!
//! Cells stream from left to right and from top to bottom. A row is full when
//! its own cells, and those of earlier rows that reach down into it, take all
//! columns.

use crate::table::limits::{saturated, saturating_product};
use crate::table::row::{CellV, ParsedCell};
use vstd::prelude::*;

verus! {

/// The cells of all rows, in order.
pub open spec fn all_cells(rows: Seq<Seq<CellV>>) -> Seq<CellV>
    decreases rows.len(),
{
    if rows.len() == 0 {
        Seq::empty()
    } else {
        all_cells(rows.drop_last()) + rows.last()
    }
}

/// A single copy of a cell.
pub open spec fn single(cell: CellV) -> CellV {
    CellV { duplication_count: 1, is_duplication: false, ..cell }
}

/// At least one.
pub open spec fn at_least_one(n: usize) -> nat {
    if n == 0 {
        1
    } else {
        n as nat
    }
}

/// The copies of a cell.
pub open spec fn copies(cell: CellV) -> Seq<CellV> {
    Seq::new(at_least_one(cell.duplication_count), |i: int| single(cell))
}

/// Every cell replaced by its copies.
pub open spec fn expanded(cells: Seq<CellV>) -> Seq<CellV>
    decreases cells.len(),
{
    if cells.len() == 0 {
        Seq::empty()
    } else {
        expanded(cells.drop_last()) + copies(cells.last())
    }
}

/// The columns that a cell takes in the grid; never none.
pub open spec fn grid_width(cell: CellV) -> int {
    saturated((at_least_one(cell.duplication_count) * at_least_one(cell.colspan)) as int)
}

/// The columns that the cells of a row take in the grid.
pub open spec fn grid_row_width(cells: Seq<CellV>) -> int
    decreases cells.len(),
{
    if cells.len() == 0 {
        0
    } else {
        saturated(grid_row_width(cells.drop_last()) + grid_width(cells.last()))
    }
}

/// The columns of a row that cells of earlier rows reach into. Each entry is the
/// width of such a cell and the number of rows below this one that it covers.
pub open spec fn covered(active: Seq<(usize, usize)>) -> int
    decreases active.len(),
{
    if active.len() == 0 {
        0
    } else {
        saturated(covered(active.drop_last()) + active.last().0)
    }
}

/// The cells that reach down into the next row, with one row less to cover.
pub open spec fn aged(active: Seq<(usize, usize)>) -> Seq<(usize, usize)>
    decreases active.len(),
{
    if active.len() == 0 {
        Seq::empty()
    } else if active.last().1 == 0 {
        aged(active.drop_last())
    } else {
        aged(active.drop_last()).push((active.last().0, (active.last().1 - 1) as usize))
    }
}

/// The cells of a row that span more than one row.
pub open spec fn spanning(cells: Seq<CellV>) -> Seq<(usize, usize)>
    decreases cells.len(),
{
    if cells.len() == 0 {
        Seq::empty()
    } else if cells.last().rowspan > 1 {
        spanning(cells.drop_last()).push(
            (grid_width(cells.last()) as usize, (cells.last().rowspan - 1) as usize),
        )
    } else {
        spanning(cells.drop_last())
    }
}

/// The end of a row that starts with cell `k` and has come to cell `j`: the row
/// takes cells while it is not full.
pub open spec fn row_end(cells: Seq<CellV>, k: int, j: int, occupied: int, ncols: int) -> int
    decreases cells.len() - j,
{
    if j < cells.len() && saturated(occupied + grid_row_width(cells.subrange(k, j))) < ncols {
        row_end(cells, k, j + 1, occupied, ncols)
    } else {
        j
    }
}

/// The rows that the cells from `k` on make, below rows that left `active`.
///
/// In a row that is covered from side to side one cell is lost: the row stays
/// empty and the cell falls into it.
pub open spec fn rows_from(
    cells: Seq<CellV>,
    k: int,
    active: Seq<(usize, usize)>,
    ncols: int,
) -> Seq<Seq<CellV>>
    decreases cells.len() - k,
    via rows_from_ends
{
    if k >= cells.len() {
        Seq::empty()
    } else {
        let e = row_end(cells, k, k, covered(active), ncols);
        if e <= k {
            seq![Seq::<CellV>::empty()] + rows_from(cells, k + 1, aged(active), ncols)
        } else {
            seq![cells.subrange(k, e)] + rows_from(
                cells,
                e,
                aged(active + spanning(cells.subrange(k, e))),
                ncols,
            )
        }
    }
}

#[via_fn]
proof fn rows_from_ends(cells: Seq<CellV>, k: int, active: Seq<(usize, usize)>, ncols: int) {
    if k < cells.len() {
        lemma_row_end(cells, k, k, covered(active), ncols);
    }
}

/// The rows of `ncols` columns that the cells of `rows` make.
pub open spec fn reflowed(rows: Seq<Seq<CellV>>, ncols: int) -> Seq<Seq<CellV>> {
    if ncols == 0 {
        rows
    } else {
        rows_from(expanded(all_cells(rows)), 0, Seq::empty(), ncols)
    }
}

// ---------------------------------------------------------------------------
// Facts about the model.
// ---------------------------------------------------------------------------

pub proof fn lemma_row_end(cells: Seq<CellV>, k: int, j: int, occupied: int, ncols: int)
    requires
        j <= cells.len(),
    ensures
        j <= row_end(cells, k, j, occupied, ncols) <= cells.len(),
    decreases cells.len() - j,
{
    if j < cells.len() && saturated(occupied + grid_row_width(cells.subrange(k, j))) < ncols {
        lemma_row_end(cells, k, j + 1, occupied, ncols);
    }
}

/// A row is filled: with the columns covered from above it takes all columns,
/// unless it is the last one.
proof fn lemma_row_end_full(cells: Seq<CellV>, k: int, j: int, occupied: int, ncols: int)
    requires
        0 <= k <= j <= cells.len(),
    ensures
        ({
            let e = row_end(cells, k, j, occupied, ncols);
            e == cells.len() || saturated(occupied + grid_row_width(cells.subrange(k, e))) >= ncols
        }),
    decreases cells.len() - j,
{
    if j < cells.len() && saturated(occupied + grid_row_width(cells.subrange(k, j))) < ncols {
        lemma_row_end_full(cells, k, j + 1, occupied, ncols);
    }
}

proof fn lemma_copies_single(cells: Seq<CellV>)
    ensures
        forall|i: int|
            #![trigger expanded(cells)[i]]
            0 <= i < expanded(cells).len() ==> expanded(cells)[i].duplication_count == 1
                && !expanded(cells)[i].is_duplication,
    decreases cells.len(),
{
    if cells.len() > 0 {
        lemma_copies_single(cells.drop_last());
        let head = expanded(cells.drop_last());
        let tail = copies(cells.last());
        assert forall|i: int| #![trigger expanded(cells)[i]] 0 <= i < expanded(cells).len() implies
            expanded(cells)[i].duplication_count == 1 && !expanded(cells)[i].is_duplication by {
            if i < head.len() {
                assert(expanded(cells)[i] == head[i]);
            } else {
                assert(expanded(cells)[i] == tail[i - head.len()]);
            }
        }
    }
}

/// A row of the grid: empty, or a run of the cells, which stay as they are.
pub open spec fn is_run_of(row: Seq<CellV>, cells: Seq<CellV>) -> bool {
    exists|a: int, b: int| 0 <= a <= b <= cells.len() && row == #[trigger] cells.subrange(a, b)
}

proof fn lemma_rows_from(cells: Seq<CellV>, k: int, active: Seq<(usize, usize)>, ncols: int)
    requires
        0 <= k <= cells.len(),
    ensures
        rows_from(cells, k, active, ncols).len() <= cells.len() - k,
        forall|r: int|
            #![trigger rows_from(cells, k, active, ncols)[r]]
            0 <= r < rows_from(cells, k, active, ncols).len() ==> is_run_of(
                rows_from(cells, k, active, ncols)[r],
                cells,
            ),
    decreases cells.len() - k,
{
    if k < cells.len() {
        lemma_row_end(cells, k, k, covered(active), ncols);
        let e = row_end(cells, k, k, covered(active), ncols);
        let all = rows_from(cells, k, active, ncols);
        let (first, rest) = if e <= k {
            (Seq::<CellV>::empty(), rows_from(cells, k + 1, aged(active), ncols))
        } else {
            (
                cells.subrange(k, e),
                rows_from(cells, e, aged(active + spanning(cells.subrange(k, e))), ncols),
            )
        };
        assert(all =~= seq![first] + rest);
        if e <= k {
            lemma_rows_from(cells, k + 1, aged(active), ncols);
            assert(first =~= cells.subrange(k, k));
        } else {
            lemma_rows_from(cells, e, aged(active + spanning(cells.subrange(k, e))), ncols);
        }
        assert(is_run_of(first, cells));
        assert forall|r: int| #![trigger all[r]] 0 <= r < all.len() implies is_run_of(
            all[r],
            cells,
        ) by {
            if r > 0 {
                assert(all[r] == rest[r - 1]);
            }
        }
    }
}

/// Laying out makes no more rows than there are cells, however far a cell is to
/// reach down, and it leaves the cells as they are: every row is a run of the
/// copies of the cells, each of which stands for itself alone.
pub proof fn law_reflow_bounded(rows: Seq<Seq<CellV>>, ncols: int)
    requires
        ncols > 0,
    ensures
        reflowed(rows, ncols).len() <= expanded(all_cells(rows)).len(),
        forall|r: int|
            #![trigger reflowed(rows, ncols)[r]]
            0 <= r < reflowed(rows, ncols).len() ==> is_run_of(
                reflowed(rows, ncols)[r],
                expanded(all_cells(rows)),
            ),
        forall|i: int|
            #![trigger expanded(all_cells(rows))[i]]
            0 <= i < expanded(all_cells(rows)).len() ==> expanded(
                all_cells(rows),
            )[i].duplication_count == 1 && !expanded(all_cells(rows))[i].is_duplication,
{
    lemma_rows_from(expanded(all_cells(rows)), 0, Seq::empty(), ncols);
    lemma_copies_single(all_cells(rows));
}

/// How many cells rows take up: those that they hold, and one for a row that is empty.
pub open spec fn taken_up(rows: Seq<Seq<CellV>>) -> nat
    decreases rows.len(),
{
    if rows.len() == 0 {
        0
    } else {
        taken_up(rows.drop_last()) + if rows.last().len() == 0 {
            1
        } else {
            rows.last().len()
        }
    }
}

proof fn lemma_taken_up_first(first: Seq<CellV>, rest: Seq<Seq<CellV>>)
    ensures
        taken_up(seq![first] + rest) == taken_up(rest) + if first.len() == 0 {
            1
        } else {
            first.len()
        },
    decreases rest.len(),
{
    let all = seq![first] + rest;
    if rest.len() == 0 {
        assert(all.drop_last() =~= rest);
    } else {
        assert(all.drop_last() =~= seq![first] + rest.drop_last());
        assert(all.last() == rest.last());
        lemma_taken_up_first(first, rest.drop_last());
    }
}

proof fn lemma_rows_in_order(
    cells: Seq<CellV>,
    k: int,
    active: Seq<(usize, usize)>,
    ncols: int,
    r: int,
)
    requires
        0 <= k <= cells.len(),
        0 <= r <= rows_from(cells, k, active, ncols).len(),
    ensures
        ({
            let out = rows_from(cells, k, active, ncols);
            let a = k + taken_up(out.take(r));
            &&& k + taken_up(out) == cells.len()
            &&& r < out.len() ==> a + out[r].len() <= cells.len() && out[r] == cells.subrange(
                a,
                a + out[r].len(),
            )
        }),
    decreases cells.len() - k,
{
    let out = rows_from(cells, k, active, ncols);
    if k < cells.len() {
        lemma_row_end(cells, k, k, covered(active), ncols);
        let e = row_end(cells, k, k, covered(active), ncols);
        let (first, next, left) = if e <= k {
            (Seq::<CellV>::empty(), k + 1, aged(active))
        } else {
            (cells.subrange(k, e), e, aged(active + spanning(cells.subrange(k, e))))
        };
        let rest = rows_from(cells, next, left, ncols);
        assert(out =~= seq![first] + rest);
        lemma_taken_up_first(first, rest);
        if r == 0 {
            lemma_rows_in_order(cells, next, left, ncols, 0);
            assert(out.take(0) =~= Seq::empty());
            assert(out[0] =~= cells.subrange(k, k + out[0].len()));
        } else {
            lemma_rows_in_order(cells, next, left, ncols, r - 1);
            assert(out.take(r) =~= seq![first] + rest.take(r - 1));
            lemma_taken_up_first(first, rest.take(r - 1));
        }
    } else {
        assert(out.take(r) =~= Seq::empty());
    }
}

/// Laying out keeps the order of the copies of the cells, whatever they span: row `r`
/// holds the copies that follow those which the rows before it took up. All copies are
/// taken up; the only ones that no row holds are lost to empty rows, one to each.
pub proof fn law_reflow_keeps_the_order(rows: Seq<Seq<CellV>>, ncols: int, r: int)
    requires
        ncols > 0,
        0 <= r < reflowed(rows, ncols).len(),
    ensures
        ({
            let out = reflowed(rows, ncols);
            let cells = expanded(all_cells(rows));
            let a = taken_up(out.take(r)) as int;
            &&& taken_up(out) == cells.len()
            &&& a + out[r].len() <= cells.len()
            &&& out[r] == cells.subrange(a, a + out[r].len())
        }),
{
    lemma_rows_in_order(expanded(all_cells(rows)), 0, Seq::empty(), ncols, r);
}

/// No cell reaches into a row below its own.
pub open spec fn no_row_spans(cells: Seq<CellV>) -> bool {
    forall|i: int| #![trigger cells[i]] 0 <= i < cells.len() ==> cells[i].rowspan <= 1
}

proof fn lemma_spanning_none(cells: Seq<CellV>)
    requires
        no_row_spans(cells),
    ensures
        spanning(cells) == Seq::<(usize, usize)>::empty(),
    decreases cells.len(),
{
    if cells.len() > 0 {
        assert(cells.last() == cells[cells.len() - 1]);
        assert(no_row_spans(cells.drop_last())) by {
            assert forall|i: int| #![trigger cells.drop_last()[i]] 0 <= i < cells.len() - 1 implies
                cells.drop_last()[i].rowspan <= 1 by {
                assert(cells.drop_last()[i] == cells[i]);
            }
        }
        lemma_spanning_none(cells.drop_last());
    }
}

proof fn lemma_all_cells_first(rows: Seq<Seq<CellV>>)
    requires
        rows.len() > 0,
    ensures
        all_cells(rows) == rows[0] + all_cells(rows.drop_first()),
    decreases rows.len(),
{
    if rows.len() == 1 {
        assert(rows.drop_last() =~= Seq::empty());
        assert(rows.drop_first() =~= Seq::empty());
        assert(all_cells(rows) =~= rows[0] + all_cells(rows.drop_first()));
    } else {
        lemma_all_cells_first(rows.drop_last());
        assert(rows.drop_last().drop_first() =~= rows.drop_first().drop_last());
        assert(all_cells(rows) =~= rows[0] + all_cells(rows.drop_first()));
    }
}

proof fn lemma_rows_from_no_spans(cells: Seq<CellV>, k: int, ncols: int)
    requires
        0 <= k <= cells.len(),
        0 < ncols <= usize::MAX,
        no_row_spans(cells),
    ensures
        all_cells(rows_from(cells, k, Seq::empty(), ncols)) == cells.skip(k),
        forall|r: int|
            #![trigger rows_from(cells, k, Seq::empty(), ncols)[r]]
            0 <= r < rows_from(cells, k, Seq::empty(), ncols).len() - 1 ==> grid_row_width(
                rows_from(cells, k, Seq::empty(), ncols)[r],
            ) >= ncols,
    decreases cells.len() - k,
{
    let none = Seq::<(usize, usize)>::empty();
    let all = rows_from(cells, k, none, ncols);
    if k < cells.len() {
        assert(cells.subrange(k, k) =~= Seq::empty());
        assert(covered(none) == 0);
        lemma_row_end(cells, k, k + 1, 0, ncols);
        lemma_row_end_full(cells, k, k, 0, ncols);
        let e = row_end(cells, k, k, 0, ncols);
        assert(e == row_end(cells, k, k + 1, 0, ncols));
        let first = cells.subrange(k, e);
        assert(no_row_spans(first)) by {
            assert forall|i: int| #![trigger first[i]] 0 <= i < first.len() implies first[i].rowspan
                <= 1 by {
                assert(first[i] == cells[k + i]);
            }
        }
        lemma_spanning_none(first);
        assert(none + spanning(first) =~= none);
        let rest = rows_from(cells, e, none, ncols);
        assert(all =~= seq![first] + rest);
        lemma_rows_from_no_spans(cells, e, ncols);
        lemma_all_cells_first(all);
        assert(all.drop_first() =~= rest);
        assert(cells.skip(k) =~= first + cells.skip(e));
        lemma_grid_row_width_bound(first);
        assert forall|r: int| #![trigger all[r]] 0 <= r < all.len() - 1 implies grid_row_width(
            all[r],
        ) >= ncols by {
            if r > 0 {
                assert(all[r] == rest[r - 1]);
            } else {
                assert(rest.len() > 0);
                assert(e < cells.len());
            }
        }
    } else {
        assert(cells.skip(k) =~= Seq::empty());
    }
}

proof fn lemma_grid_row_width_bound(cells: Seq<CellV>)
    ensures
        0 <= grid_row_width(cells) <= usize::MAX,
    decreases cells.len(),
{
    if cells.len() > 0 {
        lemma_grid_row_width_bound(cells.drop_last());
        assert(at_least_one(cells.last().duplication_count) * at_least_one(cells.last().colspan)
            >= 0) by (nonlinear_arith);
    }
}

/// Without row spans no cell is lost, and none is moved: the rows, one behind the
/// other, are the copies of the cells. Every row but the last is full.
pub proof fn law_reflow_keeps_cells(rows: Seq<Seq<CellV>>, ncols: int)
    requires
        0 < ncols <= usize::MAX,
        no_row_spans(expanded(all_cells(rows))),
    ensures
        all_cells(reflowed(rows, ncols)) == expanded(all_cells(rows)),
        forall|r: int|
            #![trigger reflowed(rows, ncols)[r]]
            0 <= r < reflowed(rows, ncols).len() - 1 ==> grid_row_width(reflowed(rows, ncols)[r])
                >= ncols,
{
    let cells = expanded(all_cells(rows));
    lemma_rows_from_no_spans(cells, 0, ncols);
    assert(cells.skip(0) =~= cells);
}

/// A row is not full before its last cell.
proof fn lemma_row_end_least(cells: Seq<CellV>, k: int, j: int, occupied: int, ncols: int)
    requires
        0 <= k <= j <= cells.len(),
    ensures
        ({
            let e = row_end(cells, k, j, occupied, ncols);
            e > j ==> saturated(occupied + grid_row_width(cells.subrange(k, e - 1))) < ncols
        }),
    decreases cells.len() - j,
{
    if j < cells.len() && saturated(occupied + grid_row_width(cells.subrange(k, j))) < ncols {
        lemma_row_end_least(cells, k, j + 1, occupied, ncols);
        lemma_row_end(cells, k, j + 1, occupied, ncols);
    }
}

proof fn lemma_covered(active: Seq<(usize, usize)>)
    ensures
        covered(active) >= 0,
    decreases active.len(),
{
    if active.len() > 0 {
        lemma_covered(active.drop_last());
    }
}

proof fn lemma_rows_close(cells: Seq<CellV>, k: int, active: Seq<(usize, usize)>, ncols: int)
    requires
        0 <= k,
        0 < ncols <= usize::MAX,
    ensures
        forall|r: int|
            #![trigger rows_from(cells, k, active, ncols)[r]]
            0 <= r < rows_from(cells, k, active, ncols).len() && rows_from(
                cells,
                k,
                active,
                ncols,
            )[r].len() > 0 ==> grid_row_width(rows_from(cells, k, active, ncols)[r].drop_last())
                < ncols,
    decreases cells.len() - k,
{
    if k < cells.len() {
        let occupied = covered(active);
        let e = row_end(cells, k, k, occupied, ncols);
        lemma_row_end(cells, k, k, occupied, ncols);
        lemma_row_end_least(cells, k, k, occupied, ncols);
        lemma_covered(active);
        let all = rows_from(cells, k, active, ncols);
        let rest = if e <= k {
            rows_from(cells, k + 1, aged(active), ncols)
        } else {
            rows_from(cells, e, aged(active + spanning(cells.subrange(k, e))), ncols)
        };
        if e <= k {
            lemma_rows_close(cells, k + 1, aged(active), ncols);
        } else {
            lemma_rows_close(cells, e, aged(active + spanning(cells.subrange(k, e))), ncols);
            assert(cells.subrange(k, e).drop_last() =~= cells.subrange(k, e - 1));
            lemma_grid_row_width_bound(cells.subrange(k, e - 1));
        }
        assert forall|r: int| #![trigger all[r]] 0 <= r < all.len() && all[r].len()
            > 0 implies grid_row_width(all[r].drop_last()) < ncols by {
            if r > 0 {
                assert(all[r] == rest[r - 1]);
            }
        }
    }
}

/// A row takes no cell once it is full: without its last cell it is not. So only the
/// last cell of a row can reach beyond the columns.
pub proof fn law_rows_close_when_full(rows: Seq<Seq<CellV>>, ncols: int)
    requires
        0 < ncols <= usize::MAX,
    ensures
        forall|r: int|
            #![trigger reflowed(rows, ncols)[r]]
            0 <= r < reflowed(rows, ncols).len() && reflowed(rows, ncols)[r].len() > 0
                ==> grid_row_width(reflowed(rows, ncols)[r].drop_last()) < ncols,
{
    lemma_rows_close(expanded(all_cells(rows)), 0, Seq::empty(), ncols);
}

/// The columns that a single cell spans; never none.
pub open spec fn columns_of(cell: CellV) -> int {
    if cell.colspan == 0 {
        1
    } else {
        cell.colspan as int
    }
}

/// The columns that the cells of a row span, one beside the other.
pub open spec fn wide(row: Seq<CellV>) -> int
    decreases row.len(),
{
    if row.len() == 0 {
        0
    } else {
        wide(row.drop_last()) + columns_of(row.last())
    }
}

/// The columns that the cells of a row still take `d` rows below it.
pub open spec fn reach(row: Seq<CellV>, d: int) -> int
    decreases row.len(),
{
    if row.len() == 0 {
        0
    } else {
        reach(row.drop_last(), d) + if row.last().rowspan > d {
            columns_of(row.last())
        } else {
            0
        }
    }
}

/// The columns of row `r` that cells of the first `n` rows reach down into.
pub open spec fn reaching(rows: Seq<Seq<CellV>>, r: int, n: nat) -> int
    decreases n,
{
    if n == 0 {
        0
    } else {
        reaching(rows, r, (n - 1) as nat) + reach(rows[n - 1], r - (n - 1))
    }
}

/// The columns that cells of earlier rows take `d` rows below.
spec fn cover(active: Seq<(usize, usize)>, d: int) -> int
    decreases active.len(),
{
    if active.len() == 0 {
        0
    } else {
        cover(active.drop_last(), d) + if active.last().1 >= d {
            active.last().0 as int
        } else {
            0
        }
    }
}

/// Whether every cell stands for itself alone.
spec fn are_single(cells: Seq<CellV>) -> bool {
    forall|i: int| 0 <= i < cells.len() ==> (#[trigger] cells[i]).duplication_count == 1
}

proof fn lemma_cover_now(active: Seq<(usize, usize)>)
    ensures
        cover(active, 0) >= 0,
        covered(active) == saturated(cover(active, 0)),
    decreases active.len(),
{
    if active.len() > 0 {
        lemma_cover_now(active.drop_last());
    }
}

proof fn lemma_cover_aged(active: Seq<(usize, usize)>, d: int)
    requires
        d >= 0,
    ensures
        cover(aged(active), d) == cover(active, d + 1),
    decreases active.len(),
{
    if active.len() > 0 {
        lemma_cover_aged(active.drop_last(), d);
        if active.last().1 > 0 {
            let before = aged(active.drop_last());
            let last = (active.last().0, (active.last().1 - 1) as usize);
            assert(before.push(last).drop_last() =~= before);
        }
    }
}

proof fn lemma_cover_concat(a: Seq<(usize, usize)>, b: Seq<(usize, usize)>, d: int)
    ensures
        cover(a + b, d) == cover(a, d) + cover(b, d),
    decreases b.len(),
{
    if b.len() == 0 {
        assert(a + b =~= a);
    } else {
        lemma_cover_concat(a, b.drop_last(), d);
        assert((a + b).drop_last() =~= a + b.drop_last());
    }
}

proof fn lemma_single_width(cell: CellV)
    requires
        cell.duplication_count == 1,
    ensures
        grid_width(cell) == columns_of(cell),
{
    assert(1 * at_least_one(cell.colspan) == at_least_one(cell.colspan));
}

proof fn lemma_single_last(cells: Seq<CellV>)
    requires
        are_single(cells),
        cells.len() > 0,
    ensures
        are_single(cells.drop_last()),
        cells.last().duplication_count == 1,
{
    assert(cells.last() == cells[cells.len() - 1]);
    assert forall|i: int| 0 <= i < cells.drop_last().len() implies (
    #[trigger] cells.drop_last()[i]).duplication_count == 1 by {
        assert(cells.drop_last()[i] == cells[i]);
    }
}

proof fn lemma_wide(row: Seq<CellV>)
    requires
        are_single(row),
    ensures
        wide(row) >= 0,
        grid_row_width(row) == saturated(wide(row)),
    decreases row.len(),
{
    if row.len() > 0 {
        lemma_single_last(row);
        lemma_wide(row.drop_last());
        lemma_single_width(row.last());
    }
}

proof fn lemma_spanning_reach(row: Seq<CellV>, d: int)
    requires
        are_single(row),
        d >= 1,
    ensures
        cover(spanning(row), d) == reach(row, d),
    decreases row.len(),
{
    if row.len() > 0 {
        lemma_single_last(row);
        lemma_spanning_reach(row.drop_last(), d);
        lemma_single_width(row.last());
        if row.last().rowspan > 1 {
            let before = spanning(row.drop_last());
            let last = (grid_width(row.last()) as usize, (row.last().rowspan - 1) as usize);
            assert(before.push(last).drop_last() =~= before);
        }
    }
}

proof fn lemma_reaching_first(first: Seq<CellV>, rest: Seq<Seq<CellV>>, r: int, n: nat)
    requires
        1 <= n <= rest.len() + 1,
    ensures
        reaching(seq![first] + rest, r, n) == reach(first, r) + reaching(
            rest,
            r - 1,
            (n - 1) as nat,
        ),
    decreases n,
{
    let all = seq![first] + rest;
    if n > 1 {
        lemma_reaching_first(first, rest, r, (n - 1) as nat);
        assert(all[n - 1] == rest[n - 2]);
    } else {
        assert(all[0] == first);
        assert(reaching(all, r, 0) == 0);
    }
}

proof fn lemma_row_end_open(cells: Seq<CellV>, k: int, j: int, occupied: int, ncols: int)
    requires
        0 <= k <= j <= cells.len(),
    ensures
        ({
            let e = row_end(cells, k, j, occupied, ncols);
            e > j ==> saturated(occupied + grid_row_width(cells.subrange(k, e - 1))) < ncols
        }),
    decreases cells.len() - j,
{
    if j < cells.len() && saturated(occupied + grid_row_width(cells.subrange(k, j))) < ncols {
        lemma_row_end_open(cells, k, j + 1, occupied, ncols);
        lemma_row_end(cells, k, j + 1, occupied, ncols);
    }
}

proof fn lemma_rows_reach(cells: Seq<CellV>, k: int, active: Seq<(usize, usize)>, ncols: int)
    requires
        0 <= k <= cells.len(),
        0 < ncols <= usize::MAX,
        are_single(cells),
    ensures
        ({
            let out = rows_from(cells, k, active, ncols);
            forall|r: int|
                #![trigger out[r]]
                0 <= r < out.len() ==> {
                    let occupied = cover(active, r) + reaching(out, r, r as nat);
                    &&& out[r].len() > 0 ==> occupied + wide(out[r].drop_last()) < ncols
                    &&& out[r].len() == 0 ==> occupied >= ncols
                    &&& r < out.len() - 1 ==> occupied + wide(out[r]) >= ncols
                }
        }),
    decreases cells.len() - k,
{
    let out = rows_from(cells, k, active, ncols);
    if k < cells.len() {
        let occ = covered(active);
        let e = row_end(cells, k, k, occ, ncols);
        lemma_row_end(cells, k, k, occ, ncols);
        lemma_row_end_full(cells, k, k, occ, ncols);
        lemma_row_end_open(cells, k, k, occ, ncols);
        lemma_cover_now(active);
        let first = cells.subrange(k, e);
        assert(are_single(first)) by {
            assert forall|i: int| 0 <= i < first.len() implies (
            #[trigger] first[i]).duplication_count == 1 by {
                assert(first[i] == cells[k + i]);
            }
        }
        lemma_wide(first);
        if e > k {
            lemma_single_last(first);
            lemma_wide(first.drop_last());
            assert(first.drop_last() =~= cells.subrange(k, e - 1));
        } else {
            assert(first =~= Seq::empty());
        }
        let next = if e <= k {
            k + 1
        } else {
            e
        };
        let left = if e <= k {
            aged(active)
        } else {
            aged(active + spanning(first))
        };
        let rest = rows_from(cells, next, left, ncols);
        assert(out =~= seq![first] + rest);
        lemma_rows_reach(cells, next, left, ncols);
        assert forall|r: int|
            #![trigger out[r]]
            0 <= r < out.len() implies ({
            let occupied = cover(active, r) + reaching(out, r, r as nat);
            &&& out[r].len() > 0 ==> occupied + wide(out[r].drop_last()) < ncols
            &&& out[r].len() == 0 ==> occupied >= ncols
            &&& r < out.len() - 1 ==> occupied + wide(out[r]) >= ncols
        }) by {
            if r == 0 {
                assert(out[0] == first);
                assert(reaching(out, 0, 0) == 0);
                if rest.len() > 0 {
                    assert(next < cells.len());
                }
            } else {
                assert(out[r] == rest[r - 1]);
                lemma_reaching_first(first, rest, r, r as nat);
                if e <= k {
                    lemma_cover_aged(active, r - 1);
                } else {
                    lemma_cover_aged(active + spanning(first), r - 1);
                    lemma_cover_concat(active, spanning(first), r);
                    lemma_spanning_reach(first, r);
                }
            }
        }
    }
}

/// A cell that spans rows keeps its columns in each of the rows that it reaches down into: a
/// row takes a cell only while those columns and its own cells leave room, and every row but
/// the last is filled by them. Only where nothing is left to fill is a row empty.
pub proof fn law_rows_leave_room(rows: Seq<Seq<CellV>>, ncols: int, r: int)
    requires
        0 < ncols <= usize::MAX,
        0 <= r < reflowed(rows, ncols).len(),
    ensures
        ({
            let out = reflowed(rows, ncols);
            let occupied = reaching(out, r, r as nat);
            &&& out[r].len() > 0 ==> occupied + wide(out[r].drop_last()) < ncols
            &&& out[r].len() == 0 ==> occupied >= ncols
            &&& r < out.len() - 1 ==> occupied + wide(out[r]) >= ncols
        }),
{
    let cells = expanded(all_cells(rows));
    lemma_copies_single(all_cells(rows));
    assert(are_single(cells));
    lemma_rows_reach(cells, 0, Seq::empty(), ncols);
    let out = reflowed(rows, ncols);
    assert(out[r] == rows_from(cells, 0, Seq::empty(), ncols)[r]);
    assert(cover(Seq::empty(), r) == 0);
}

/// A cell that is repeated stands in as many places as it says, and at least once, each time
/// with the same text, span and format; cells keep their order.
pub proof fn law_copies_of_cells(cells: Seq<CellV>, cell: CellV, k: int)
    ensures
        expanded(Seq::empty()) == Seq::<CellV>::empty(),
        expanded(cells.push(cell)).len() == expanded(cells).len() + if cell.duplication_count > 1 {
            cell.duplication_count as int
        } else {
            1
        },
        0 <= k < expanded(cells).len() ==> expanded(cells.push(cell))[k] == expanded(cells)[k],
        expanded(cells).len() <= k < expanded(cells.push(cell)).len() ==> {
            let copy = expanded(cells.push(cell))[k];
            &&& copy.content == cell.content
            &&& copy.start == cell.start
            &&& copy.content_start == cell.content_start
            &&& copy.end == cell.end
            &&& copy.colspan == cell.colspan
            &&& copy.rowspan == cell.rowspan
            &&& copy.halign == cell.halign
            &&& copy.valign == cell.valign
            &&& copy.style == cell.style
        },
{
    assert(cells.push(cell).drop_last() =~= cells);
}

/// A cell that takes one column of one row, once.
pub open spec fn takes_one_place(cell: CellV) -> bool {
    cell.colspan == 1 && cell.rowspan == 1 && cell.duplication_count == 1 && !cell.is_duplication
}

/// Whether every cell takes one column of one row, once.
pub open spec fn take_one_place(cells: Seq<CellV>) -> bool {
    forall|i: int| 0 <= i < cells.len() ==> takes_one_place(#[trigger] cells[i])
}

proof fn lemma_nothing_to_copy(cells: Seq<CellV>)
    requires
        take_one_place(cells),
    ensures
        expanded(cells) == cells,
    decreases cells.len(),
{
    if cells.len() > 0 {
        let before = cells.drop_last();
        assert(cells.last() == cells[cells.len() - 1]);
        assert forall|i: int| 0 <= i < before.len() implies takes_one_place(
            #[trigger] before[i],
        ) by {
            assert(before[i] == cells[i]);
        }
        lemma_nothing_to_copy(before);
        assert(copies(cells.last()) =~= seq![cells.last()]);
        assert(expanded(cells) =~= cells);
    }
}

pub proof fn lemma_one_place_each(cells: Seq<CellV>)
    requires
        take_one_place(cells),
        cells.len() <= usize::MAX,
    ensures
        grid_row_width(cells) == cells.len(),
    decreases cells.len(),
{
    if cells.len() > 0 {
        let before = cells.drop_last();
        assert(takes_one_place(cells[cells.len() - 1]));
        assert forall|i: int| 0 <= i < before.len() implies takes_one_place(
            #[trigger] before[i],
        ) by {
            assert(before[i] == cells[i]);
        }
        lemma_one_place_each(before);
        assert(grid_width(cells.last()) == 1);
    }
}

proof fn lemma_row_end_at(cells: Seq<CellV>, k: int, j: int, ncols: int)
    requires
        0 <= k <= j <= k + ncols <= cells.len(),
        0 < ncols <= usize::MAX,
        take_one_place(cells.subrange(k, k + ncols)),
    ensures
        row_end(cells, k, j, 0, ncols) == k + ncols,
    decreases k + ncols - j,
{
    let row = cells.subrange(k, k + ncols);
    let front = cells.subrange(k, j);
    assert forall|i: int| 0 <= i < front.len() implies takes_one_place(#[trigger] front[i]) by {
        assert(front[i] == row[i]);
    }
    lemma_one_place_each(front);
    if j < k + ncols {
        lemma_row_end_at(cells, k, j + 1, ncols);
    }
}

proof fn lemma_full_rows(pre: Seq<CellV>, rows: Seq<Seq<CellV>>, ncols: int)
    requires
        0 < ncols <= usize::MAX,
        forall|r: int|
            0 <= r < rows.len() ==> (#[trigger] rows[r]).len() == ncols && take_one_place(rows[r]),
    ensures
        rows_from(pre + all_cells(rows), pre.len() as int, Seq::empty(), ncols) == rows,
    decreases rows.len(),
{
    let cells = pre + all_cells(rows);
    let k = pre.len() as int;
    let none = Seq::<(usize, usize)>::empty();
    if rows.len() == 0 {
        assert(rows_from(cells, k, none, ncols) =~= rows);
    } else {
        let rest = rows.drop_first();
        let row = rows[0];
        lemma_all_cells_first(rows);
        assert(row.len() == ncols && take_one_place(row));
        assert(cells =~= (pre + row) + all_cells(rest));
        assert(cells.subrange(k, k + ncols) =~= row);
        lemma_row_end_at(cells, k, k, ncols);
        assert(covered(none) == 0);
        assert(no_row_spans(row)) by {
            assert forall|i: int| #![trigger row[i]] 0 <= i < row.len() implies row[i].rowspan
                <= 1 by {
                assert(takes_one_place(row[i]));
            }
        }
        lemma_spanning_none(row);
        assert(none + spanning(row) =~= none);
        assert forall|r: int| 0 <= r < rest.len() implies (#[trigger] rest[r]).len() == ncols
            && take_one_place(rest[r]) by {
            assert(rest[r] == rows[r + 1]);
        }
        lemma_full_rows(pre + row, rest, ncols);
        assert(seq![row] + rest =~= rows);
    }
}

/// Rows that have a cell for each column stay as they are.
pub proof fn law_full_rows_stay(rows: Seq<Seq<CellV>>, ncols: int)
    requires
        0 < ncols <= usize::MAX,
        forall|r: int|
            0 <= r < rows.len() ==> (#[trigger] rows[r]).len() == ncols && take_one_place(rows[r]),
    ensures
        reflowed(rows, ncols) == rows,
{
    let cells = all_cells(rows);
    lemma_all_one_place(rows);
    lemma_nothing_to_copy(cells);
    lemma_full_rows(Seq::empty(), rows, ncols);
    assert(Seq::<CellV>::empty() + cells =~= cells);
}

proof fn lemma_all_one_place(rows: Seq<Seq<CellV>>)
    requires
        forall|r: int| 0 <= r < rows.len() ==> take_one_place(#[trigger] rows[r]),
    ensures
        take_one_place(all_cells(rows)),
    decreases rows.len(),
{
    if rows.len() > 0 {
        let before = rows.drop_last();
        assert forall|r: int| 0 <= r < before.len() implies take_one_place(
            #[trigger] before[r],
        ) by {
            assert(before[r] == rows[r]);
        }
        lemma_all_one_place(before);
        let all = all_cells(rows);
        let n = all_cells(before).len();
        let last = rows[rows.len() - 1];
        assert(take_one_place(last));
        assert forall|i: int| 0 <= i < all.len() implies takes_one_place(#[trigger] all[i]) by {
            if i < n {
                assert(all[i] == all_cells(before)[i]);
            } else {
                assert(all[i] == last[i - n]);
            }
        }
    }
}

// ---------------------------------------------------------------------------
// Executable operations.
// ---------------------------------------------------------------------------

/// The copies of the cells of all rows.
fn expand_cells(rows: &Vec<Vec<ParsedCell>>) -> (r: Vec<ParsedCell>)
    ensures
        r.deep_view() == expanded(all_cells(rows.deep_view())),
{
    let mut out: Vec<ParsedCell> = Vec::new();
    let ghost rv = rows.deep_view();
    let mut i: usize = 0;
    assert(rv.take(0) =~= Seq::empty());
    assert(out.deep_view() =~= Seq::empty());
    while i < rows.len()
        invariant
            i <= rows@.len(),
            rv == rows.deep_view(),
            out.deep_view() == expanded(all_cells(rv.take(i as int))),
        decreases rows.len() - i,
    {
        let row = &rows[i];
        let ghost cells = row.deep_view();
        assert(rv[i as int] == cells);
        let ghost head = all_cells(rv.take(i as int));
        let mut j: usize = 0;
        assert(head + cells.take(0) =~= head);
        while j < row.len()
            invariant
                j <= row@.len(),
                cells == row.deep_view(),
                out.deep_view() == expanded(head + cells.take(j as int)),
            decreases row.len() - j,
        {
            let cell = &row[j];
            assert(cells[j as int] == cell.deep_view());
            let n: usize = if cell.duplication_count == 0 {
                1
            } else {
                cell.duplication_count
            };
            let mut k: usize = 0;
            let ghost before = out.deep_view();
            let ghost want = copies(cell.deep_view());
            assert(before + want.take(0) =~= before);
            while k < n
                invariant
                    k <= n,
                    want == copies(cell.deep_view()),
                    n == want.len(),
                    out.deep_view() == before + want.take(k as int),
                decreases n - k,
            {
                let ghost now = out.deep_view();
                let mut copy = cell.clone();
                copy.duplication_count = 1;
                copy.is_duplication = false;
                assert(copy.deep_view() =~= single(cell.deep_view()));
                out.push(copy);
                assert(out.deep_view() =~= now.push(want[k as int]));
                assert(before + want.take(k + 1) =~= (before + want.take(k as int)).push(
                    want[k as int],
                ));
                k += 1;
            }
            assert(want.take(k as int) =~= want);
            assert((head + cells.take(j + 1)).drop_last() =~= head + cells.take(j as int));
            assert((head + cells.take(j + 1)).last() == cells[j as int]);
            j += 1;
        }
        assert(cells.take(j as int) =~= cells);
        assert(rv.take(i + 1).drop_last() =~= rv.take(i as int));
        i += 1;
    }
    assert(rv.take(i as int) =~= rv);
    out
}

/// The columns that a cell takes in the grid.
pub fn cell_grid_width(cell: &ParsedCell) -> (r: usize)
    ensures
        r == grid_width(cell.deep_view()),
{
    let n: usize = if cell.duplication_count == 0 {
        1
    } else {
        cell.duplication_count
    };
    let w: usize = if cell.colspan == 0 {
        1
    } else {
        cell.colspan
    };
    saturating_product(n, w)
}

fn covered_columns(active: &Vec<(usize, usize)>) -> (r: usize)
    ensures
        r == covered(active@),
{
    let mut total: usize = 0;
    let mut i: usize = 0;
    assert(active@.take(0) =~= Seq::empty());
    while i < active.len()
        invariant
            i <= active@.len(),
            total == covered(active@.take(i as int)),
        decreases active.len() - i,
    {
        total = total.saturating_add(active[i].0);
        i += 1;
        assert(active@.take(i as int).drop_last() =~= active@.take(i - 1));
    }
    assert(active@.take(i as int) =~= active@);
    total
}

fn age(active: &Vec<(usize, usize)>) -> (r: Vec<(usize, usize)>)
    ensures
        r@ == aged(active@),
{
    let mut out: Vec<(usize, usize)> = Vec::new();
    let mut i: usize = 0;
    assert(active@.take(0) =~= Seq::empty());
    while i < active.len()
        invariant
            i <= active@.len(),
            out@ == aged(active@.take(i as int)),
        decreases active.len() - i,
    {
        let (width, rows_below) = active[i];
        assert(active@.take(i + 1).drop_last() =~= active@.take(i as int));
        if rows_below > 0 {
            out.push((width, rows_below - 1));
        }
        i += 1;
    }
    assert(active@.take(i as int) =~= active@);
    out
}

/// Lay the cells of `rows` out in rows of `ncols` columns.
pub fn grid_reflow(rows: Vec<Vec<ParsedCell>>, ncols: usize) -> (r: Vec<Vec<ParsedCell>>)
    ensures
        r.deep_view() == reflowed(rows.deep_view(), ncols as int),
{
    if ncols == 0 {
        return rows;
    }
    let cells = expand_cells(&rows);
    let ghost cv = cells.deep_view();
    let ghost want = reflowed(rows.deep_view(), ncols as int);
    let mut out: Vec<Vec<ParsedCell>> = Vec::new();
    let mut active: Vec<(usize, usize)> = Vec::new();
    let mut k: usize = 0;
    assert(out.deep_view() + want =~= want);
    assert(active@ =~= Seq::<(usize, usize)>::empty());
    while k < cells.len()
        invariant
            k <= cells@.len(),
            cv == cells.deep_view(),
            want == out.deep_view() + rows_from(cv, k as int, active@, ncols as int),
        decreases cells.len() - k,
    {
        let occupied = covered_columns(&active);
        let ghost from = k as int;
        let ghost left = active@;
        let ghost done = out.deep_view();
        let mut cur: Vec<ParsedCell> = Vec::new();
        let mut placed: usize = 0;
        assert(cv.subrange(from, from) =~= Seq::empty());
        assert(cur.deep_view() =~= Seq::empty());
        assert(left + spanning(cv.subrange(from, from)) =~= left);
        while k < cells.len() && occupied.saturating_add(placed) < ncols
            invariant
                from <= k <= cells@.len(),
                0 <= from,
                cv == cells.deep_view(),
                cur.deep_view() == cv.subrange(from, k as int),
                placed == grid_row_width(cv.subrange(from, k as int)),
                active@ == left + spanning(cv.subrange(from, k as int)),
                row_end(cv, from, from, occupied as int, ncols as int) == row_end(
                    cv,
                    from,
                    k as int,
                    occupied as int,
                    ncols as int,
                ),
            decreases cells.len() - k,
        {
            let cell = &cells[k];
            assert(cv[k as int] == cell.deep_view());
            let ghost now = cv.subrange(from, k as int);
            let ghost next = cv.subrange(from, k + 1);
            assert(next.drop_last() =~= now);
            assert(next.last() == cv[k as int]);
            let ghost cur_now = cur.deep_view();
            let ghost active_now = active@;
            let width = cell_grid_width(cell);
            if cell.rowspan > 1 {
                active.push((width, cell.rowspan - 1));
                assert(active@ =~= left + spanning(next));
            }
            cur.push(cell.clone());
            assert(cur.deep_view() =~= cur_now.push(cv[k as int]));
            assert(cur_now.push(cv[k as int]) =~= next);
            placed = placed.saturating_add(width);
            k += 1;
        }
        let ghost e = row_end(cv, from, from, occupied as int, ncols as int);
        assert(e == k);
        let ghost row = cur.deep_view();
        if cur.len() == 0 {
            assert(cur.deep_view().len() == cur@.len());
            assert(k == from);
            k += 1;
            assert(row =~= Seq::<CellV>::empty());
        } else {
            assert(cur.deep_view().len() == cur@.len());
            assert(k > from);
        }
        active = age(&active);
        out.push(cur);
        assert(out.deep_view() =~= done.push(row));
        assert(want =~= done.push(row) + rows_from(cv, k as int, active@, ncols as int));
    }
    assert(rows_from(cv, k as int, active@, ncols as int) =~= Seq::<Seq<CellV>>::empty());
    assert(want =~= out.deep_view());
    out
}

} // verus!

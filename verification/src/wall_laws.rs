//! Why a saved wall has no gaps and nothing drawn over anything else.

use crate::grid::{at_least_one, first_at, GridCell, GridSpec};
use crate::grid_laws::law_drawable_answers;
use crate::id::Id;
use crate::wall::{cell_slot, empties, empties_in_row, Slot};
use vstd::prelude::*;

verus! {

/// Whether every slot is one position in the first rows and columns that no cell takes, and no
/// two are the same.
spec fn are_empties(slots: Seq<Slot>, cells: Seq<GridCell>, rows: int, cols: int) -> bool {
    &&& forall|k: int|
        0 <= k < slots.len() ==> {
            let slot = #[trigger] slots[k];
            &&& slot.row < rows
            &&& slot.col < cols
            &&& slot.row_span == 1
            &&& slot.col_span == 1
            &&& first_at(cells, slot.row as int, slot.col as int) is None
        }
    &&& forall|j: int, k: int|
        0 <= j < k < slots.len() ==> (#[trigger] slots[j]).row != (#[trigger] slots[k]).row
            || slots[j].col != slots[k].col
}

/// Whether one of the slots is that position.
spec fn has_slot(slots: Seq<Slot>, row: int, col: int) -> bool {
    exists|k: int|
        0 <= k < slots.len() && (#[trigger] slots[k]).row == row && slots[k].col == col
}

proof fn lemma_empties_in_row(cells: Seq<GridCell>, row: int, cols: int)
    requires
        0 <= row < usize::MAX,
        0 <= cols <= usize::MAX,
    ensures
        are_empties(empties_in_row(cells, row, cols), cells, row + 1, cols),
        forall|k: int|
            0 <= k < empties_in_row(cells, row, cols).len() ==> (#[trigger] empties_in_row(
                cells,
                row,
                cols,
            )[k]).row == row,
        forall|col: int|
            0 <= col < cols && #[trigger] first_at(cells, row, col) is None ==> has_slot(
                empties_in_row(cells, row, cols),
                row,
                col,
            ),
    decreases cols,
{
    if cols > 0 {
        let before = empties_in_row(cells, row, cols - 1);
        let after = empties_in_row(cells, row, cols);
        lemma_empties_in_row(cells, row, cols - 1);
        assert forall|col: int|
            0 <= col < cols && #[trigger] first_at(cells, row, col) is None implies has_slot(
            after,
            row,
            col,
        ) by {
            if col < cols - 1 {
                assert(has_slot(before, row, col));
                let k = choose|k: int|
                    0 <= k < before.len() && (#[trigger] before[k]).row == row && before[k].col
                        == col;
                assert(after[k] == before[k]);
            } else {
                assert(after[before.len() as int].col == col);
            }
        }
    }
}

proof fn lemma_empties(cells: Seq<GridCell>, rows: int, cols: int)
    requires
        0 <= rows <= usize::MAX,
        0 <= cols <= usize::MAX,
    ensures
        are_empties(empties(cells, rows, cols), cells, rows, cols),
        forall|row: int, col: int|
            0 <= row < rows && 0 <= col < cols && #[trigger] first_at(cells, row, col) is None
                ==> has_slot(empties(cells, rows, cols), row, col),
    decreases rows,
{
    if rows > 0 {
        let before = empties(cells, rows - 1, cols);
        let last = empties_in_row(cells, rows - 1, cols);
        let after = empties(cells, rows, cols);
        lemma_empties(cells, rows - 1, cols);
        lemma_empties_in_row(cells, rows - 1, cols);
        assert forall|j: int, k: int| 0 <= j < k < after.len() implies (#[trigger] after[j]).row != (
        #[trigger] after[k]).row || after[j].col != after[k].col by {
            if k < before.len() {
                assert(after[j] == before[j] && after[k] == before[k]);
            } else {
                assert(after[k] == last[k - before.len()]);
                if j < before.len() {
                    assert(after[j] == before[j]);
                } else {
                    assert(after[j] == last[j - before.len()]);
                }
            }
        }
        assert forall|k: int| 0 <= k < after.len() implies {
            let slot = #[trigger] after[k];
            &&& slot.row < rows
            &&& slot.col < cols
            &&& slot.row_span == 1
            &&& slot.col_span == 1
            &&& first_at(cells, slot.row as int, slot.col as int) is None
        } by {
            if k < before.len() {
                assert(after[k] == before[k]);
            } else {
                assert(after[k] == last[k - before.len()]);
            }
        }
        assert forall|row: int, col: int|
            0 <= row < rows && 0 <= col < cols && #[trigger] first_at(cells, row, col) is None implies has_slot(
            after,
            row,
            col,
        ) by {
            if row < rows - 1 {
                assert(has_slot(before, row, col));
                let k = choose|k: int|
                    0 <= k < before.len() && (#[trigger] before[k]).row == row && before[k].col
                        == col;
                assert(after[k] == before[k]);
            } else {
                assert(has_slot(last, row, col));
                let k = choose|k: int|
                    0 <= k < last.len() && (#[trigger] last[k]).row == row && last[k].col == col;
                assert(after[before.len() + k] == last[k]);
            }
        }
    }
}

proof fn lemma_first_at(cells: Seq<GridCell>, row: int, col: int)
    ensures
        first_at(cells, row, col) is None ==> forall|i: int|
            0 <= i < cells.len() ==> !(#[trigger] cells[i]).occupies(row, col),
        first_at(cells, row, col) is Some ==> exists|i: int|
            0 <= i < cells.len() && (#[trigger] cells[i]).occupies(row, col),
    decreases cells.len(),
{
    if cells.len() > 0 && !cells[0].occupies(row, col) {
        let rest = cells.drop_first();
        lemma_first_at(rest, row, col);
        if first_at(rest, row, col) is None {
            assert forall|i: int| 0 <= i < cells.len() implies !(#[trigger] cells[i]).occupies(
                row,
                col,
            ) by {
                if i > 0 {
                    assert(cells[i] == rest[i - 1]);
                }
            }
        } else {
            let i = choose|i: int| 0 <= i < rest.len() && (#[trigger] rest[i]).occupies(row, col);
            assert(cells[i + 1] == rest[i]);
        }
    } else if cells.len() > 0 {
        assert(cells[0].occupies(row, col));
    }
}

/// A wall that is safe to draw can be drawn, and each of its positions lies in exactly one
/// slot.
pub proof fn law_slots_tile_the_wall(grid: GridSpec, open: Seq<Id>, row: int, col: int)
    requires
        grid.drawable(),
        0 <= row < grid.rows,
        0 <= col < grid.cols,
    ensures
        grid.can_draw(),
        exists|i: int|
            0 <= i < grid.slots(open).len() && #[trigger] grid.slots(open)[i].occupies(row, col)
                && forall|j: int|
                0 <= j < grid.slots(open).len() && #[trigger] grid.slots(open)[j].occupies(row, col)
                    ==> j == i,
{
    let cells = grid.cells;
    let slots = grid.slots(open);
    let taken = cells.map_values(cell_slot(open));
    let blank = empties(cells, grid.rows as int, grid.cols as int);
    assert(slots == taken + blank);
    assert forall|r: int, c: int|
        0 <= r < at_least_one(grid.rows) && 0 <= c < at_least_one(
            grid.cols,
        ) implies #[trigger] crate::grid::search_fits(cells, r, c) by {
        law_drawable_answers(grid, Id { bits: 0 }, r as usize, c as usize);
    }
    lemma_empties(cells, grid.rows as int, grid.cols as int);
    lemma_first_at(cells, row, col);
    assert forall|j: int| 0 <= j < cells.len() implies #[trigger] slots[j].occupies(row, col)
        == cells[j].occupies(row, col) by {
        assert(slots[j] == taken[j]);
    }
    if first_at(cells, row, col) is Some {
        let i = choose|i: int| 0 <= i < cells.len() && (#[trigger] cells[i]).occupies(row, col);
        assert(slots[i].occupies(row, col));
        assert forall|j: int| 0 <= j < slots.len() && #[trigger] slots[j].occupies(
            row,
            col,
        ) implies j == i by {
            if j < cells.len() {
                assert(cells[j].occupies(row, col) && cells[i].occupies(row, col));
                if j < i {
                    assert(!cells[j].overlaps(cells[i]));
                } else if i < j {
                    assert(!cells[i].overlaps(cells[j]));
                }
            } else {
                assert(slots[j] == blank[j - cells.len()]);
            }
        }
    } else {
        assert(has_slot(blank, row, col));
        let k = choose|k: int|
            0 <= k < blank.len() && (#[trigger] blank[k]).row == row && blank[k].col == col;
        let i = cells.len() + k;
        assert(slots[i] == blank[k]);
        assert(slots[i].occupies(row, col));
        assert forall|j: int| 0 <= j < slots.len() && #[trigger] slots[j].occupies(
            row,
            col,
        ) implies j == i by {
            if j < cells.len() {
                assert(!cells[j].occupies(row, col));
            } else {
                let m = j - cells.len();
                assert(slots[j] == blank[m]);
                if m < k {
                    assert(blank[m].row != blank[k].row || blank[m].col != blank[k].col);
                } else if k < m {
                    assert(blank[k].row != blank[m].row || blank[k].col != blank[m].col);
                }
            }
        }
    }
}

} // verus!

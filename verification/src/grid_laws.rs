//! What clamping, placing and removing keep of a saved wall.

use vstd::prelude::*;

use crate::grid::{
    at_least_one, cut_to, first_at, lemma_overlaps, overlaps_any, search_fits, shows_other,
    single_cell, starts_inside, stays, without_overlaps, GridCell, GridSpec,
};
use crate::id::Id;
use crate::library::{lemma_view_index_same_ids, view_index, LibrarySpec};

verus! {

/// What [`without_overlaps`] keeps: cells of the list, pairwise apart, in order.
proof fn lemma_without_overlaps(cells: Seq<GridCell>)
    ensures
        forall|i: int|
            0 <= i < without_overlaps(cells).len() ==> cells.contains(
                #[trigger] without_overlaps(cells)[i],
            ),
        forall|i: int, j: int|
            0 <= i < j < without_overlaps(cells).len() ==> !(#[trigger] without_overlaps(
                cells,
            )[i]).overlaps(#[trigger] without_overlaps(cells)[j]),
    decreases cells.len(),
{
    if cells.len() > 0 {
        let before = cells.drop_last();
        let kept = without_overlaps(before);
        let all = without_overlaps(cells);
        lemma_without_overlaps(before);
        assert forall|i: int| 0 <= i < all.len() implies cells.contains(#[trigger] all[i]) by {
            if i < kept.len() {
                assert(all[i] == kept[i]);
                let k = choose|k: int| 0 <= k < before.len() && before[k] == kept[i];
                assert(cells[k] == kept[i]);
            } else {
                assert(cells[cells.len() - 1] == all[i]);
            }
        }
        assert forall|i: int, j: int| 0 <= i < j < all.len() implies !(#[trigger] all[i]).overlaps(
            #[trigger] all[j],
        ) by {
            assert(all[i] == kept[i]);
            if j < kept.len() {
                assert(all[j] == kept[j]);
            } else {
                lemma_overlaps(all[i], all[j]);
                assert(!all[j].overlaps(kept[i]));
            }
        }
    }
}

/// Where no two cells of a list overlap, all of them are kept.
proof fn lemma_nothing_dropped(cells: Seq<GridCell>)
    requires
        forall|i: int, j: int|
            0 <= i < j < cells.len() ==> !(#[trigger] cells[i]).overlaps(#[trigger] cells[j]),
    ensures
        without_overlaps(cells) == cells,
    decreases cells.len(),
{
    if cells.len() > 0 {
        let before = cells.drop_last();
        assert forall|i: int, j: int| 0 <= i < j < before.len() implies !(#[trigger] before[i]).overlaps(
            #[trigger] before[j],
        ) by {
            assert(before[i] == cells[i] && before[j] == cells[j]);
        }
        lemma_nothing_dropped(before);
        let last = cells.last();
        assert forall|i: int| 0 <= i < before.len() implies !last.overlaps(#[trigger] before[i]) by {
            assert(!cells[i].overlaps(cells[cells.len() - 1]));
            lemma_overlaps(cells[i], last);
        }
        assert(before.push(last) =~= cells);
    }
}

/// A filter that every element passes changes nothing.
pub(crate) proof fn lemma_filter_all(cells: Seq<GridCell>, pred: spec_fn(GridCell) -> bool)
    requires
        forall|i: int| 0 <= i < cells.len() ==> pred(#[trigger] cells[i]),
    ensures
        cells.filter(pred) == cells,
    decreases cells.len(),
{
    reveal(Seq::filter);
    if cells.len() > 0 {
        let before = cells.drop_last();
        assert forall|i: int| 0 <= i < before.len() implies pred(#[trigger] before[i]) by {
            assert(before[i] == cells[i]);
        }
        lemma_filter_all(before, pred);
        assert(pred(cells[cells.len() - 1]));
        assert(before.push(cells.last()) =~= cells);
    }
}

/// A filter keeps elements of the list that pass it, in order.
proof fn lemma_filter_order(cells: Seq<GridCell>, pred: spec_fn(GridCell) -> bool) -> (at: Seq<int>)
    ensures
        at.len() == cells.filter(pred).len(),
        forall|i: int|
            0 <= i < at.len() ==> 0 <= #[trigger] at[i] < cells.len() && cells[at[i]]
                == cells.filter(pred)[i] && pred(cells[at[i]]),
        forall|i: int, j: int| 0 <= i < j < at.len() ==> #[trigger] at[i] < #[trigger] at[j],
        forall|i: int| 0 <= i < cells.len() && pred(#[trigger] cells[i]) ==> at.contains(i),
    decreases cells.len(),
{
    reveal(Seq::filter);
    if cells.len() == 0 {
        Seq::empty()
    } else {
        let before = cells.drop_last();
        let prev = lemma_filter_order(before, pred);
        let at = if pred(cells.last()) {
            prev.push(cells.len() - 1)
        } else {
            prev
        };
        assert forall|i: int| 0 <= i < cells.len() && pred(#[trigger] cells[i]) implies at.contains(i) by {
            if i < before.len() {
                assert(before[i] == cells[i]);
                let k = choose|k: int| 0 <= k < prev.len() && prev[k] == i;
                assert(at[k] == i);
            } else {
                assert(at[prev.len() as int] == i);
            }
        }
        at
    }
}

/// A clamped wall is safe to draw: at least one row and column, every cell inside
/// the grid, and no position taken twice.
pub proof fn law_clamp_makes_drawable(grid: GridSpec)
    ensures
        grid.clamped().drawable(),
{
    let rows = at_least_one(grid.rows);
    let cols = at_least_one(grid.cols);
    let within = grid.cells.filter(starts_inside(rows, cols));
    let cut = within.map_values(cut_to(rows, cols));
    let kept = without_overlaps(cut);
    lemma_without_overlaps(cut);
    let at = lemma_filter_order(grid.cells, starts_inside(rows, cols));
    assert forall|i: int| 0 <= i < kept.len() implies (#[trigger] kept[i]).inside(rows, cols) by {
        let k = choose|k: int| 0 <= k < cut.len() && cut[k] == kept[i];
        assert(0 <= at[k] < grid.cells.len());
    }
}

/// A wall that is safe to draw is left as it is; so clamping twice is clamping once.
pub proof fn law_clamp_keeps_drawable(grid: GridSpec)
    ensures
        grid.drawable() ==> grid.clamped() == grid,
        grid.clamped().clamped() == grid.clamped(),
{
    lemma_clamp_drawable(grid);
    law_clamp_makes_drawable(grid);
    lemma_clamp_drawable(grid.clamped());
}

proof fn lemma_clamp_drawable(grid: GridSpec)
    ensures
        grid.drawable() ==> grid.clamped() == grid,
{
    if grid.drawable() {
        let pred = starts_inside(grid.rows, grid.cols);
        let cut = cut_to(grid.rows, grid.cols);
        assert forall|i: int| 0 <= i < grid.cells.len() implies pred(#[trigger] grid.cells[i]) by {
            assert(grid.cells[i].inside(grid.rows, grid.cols));
        }
        lemma_filter_all(grid.cells, pred);
        assert forall|i: int| 0 <= i < grid.cells.len() implies cut(#[trigger] grid.cells[i])
            == grid.cells[i] by {
            assert(grid.cells[i].inside(grid.rows, grid.cols));
        }
        assert(grid.cells.map_values(cut) =~= grid.cells);
        lemma_nothing_dropped(grid.cells);
        assert(grid.clamped() =~= grid);
    }
}

/// What the list keeps of its first `n` cells is what the whole keeps first.
proof fn lemma_kept_prefix(cells: Seq<GridCell>, n: int)
    requires
        0 <= n <= cells.len(),
    ensures
        without_overlaps(cells.take(n)).len() <= without_overlaps(cells).len(),
        without_overlaps(cells.take(n)) == without_overlaps(cells).take(
            without_overlaps(cells.take(n)).len() as int,
        ),
    decreases cells.len(),
{
    if n == cells.len() {
        assert(cells.take(n) =~= cells);
        assert(without_overlaps(cells).take(without_overlaps(cells).len() as int)
            =~= without_overlaps(cells));
    } else {
        let before = cells.drop_last();
        lemma_kept_prefix(before, n);
        assert(before.take(n) =~= cells.take(n));
        let m = without_overlaps(cells.take(n)).len() as int;
        assert(without_overlaps(cells).take(m) =~= without_overlaps(before).take(m));
    }
}

/// A span that covers its neighbours wins: a cell that starts inside the grid is
/// dropped only where it overlaps a cell that stands before it and is kept.
pub proof fn law_clamp_earlier_cell_wins(grid: GridSpec, i: int)
    requires
        0 <= i < grid.cells.len(),
        starts_inside(at_least_one(grid.rows), at_least_one(grid.cols))(grid.cells[i]),
    ensures
        ({
            let cell = cut_to(at_least_one(grid.rows), at_least_one(grid.cols))(grid.cells[i]);
            let earlier = GridSpec { cells: grid.cells.take(i), ..grid }.clamped().cells;
            let kept = grid.clamped().cells;
            &&& earlier.len() <= kept.len()
            &&& earlier == kept.take(earlier.len() as int)
            &&& kept.contains(cell) || overlaps_any(earlier, cell)
        }),
{
    let rows = at_least_one(grid.rows);
    let cols = at_least_one(grid.cols);
    let pred = starts_inside(rows, cols);
    let cut = cut_to(rows, cols);
    let cell = cut(grid.cells[i]);
    let head = grid.cells.take(i).filter(pred).map_values(cut);
    let upto = grid.cells.take(i + 1).filter(pred).map_values(cut);
    let all = grid.cells.filter(pred).map_values(cut);
    assert(grid.cells.take(i + 1).drop_last() =~= grid.cells.take(i));
    assert(upto =~= head.push(cell)) by {
        reveal(Seq::filter);
    }
    lemma_filter_take(grid.cells, pred, i);
    lemma_filter_take(grid.cells, pred, i + 1);
    assert(head =~= all.take(head.len() as int));
    assert(upto =~= all.take(upto.len() as int));
    lemma_kept_prefix(all, head.len() as int);
    lemma_kept_prefix(all, upto.len() as int);
    let kept = without_overlaps(all);
    let earlier = without_overlaps(head);
    assert(head.push(cell).drop_last() =~= head);
    if !overlaps_any(earlier, cell) {
        let mid = without_overlaps(upto);
        assert(mid == earlier.push(cell));
        assert(mid[earlier.len() as int] == cell);
        assert(kept[earlier.len() as int] == cell);
    }
}

/// Filtering a prefix gives a prefix of the filtered list.
proof fn lemma_filter_take(cells: Seq<GridCell>, pred: spec_fn(GridCell) -> bool, n: int)
    requires
        0 <= n <= cells.len(),
    ensures
        cells.take(n).filter(pred).len() <= cells.filter(pred).len(),
        cells.take(n).filter(pred) == cells.filter(pred).take(
            cells.take(n).filter(pred).len() as int,
        ),
    decreases cells.len(),
{
    reveal(Seq::filter);
    if n == cells.len() {
        assert(cells.take(n) =~= cells);
        assert(cells.filter(pred).take(cells.filter(pred).len() as int) =~= cells.filter(pred));
    } else {
        let before = cells.drop_last();
        lemma_filter_take(before, pred, n);
        assert(before.take(n) =~= cells.take(n));
        let m = cells.take(n).filter(pred).len() as int;
        assert(cells.filter(pred).take(m) =~= before.filter(pred).take(m));
    }
}

/// After a connection was put at a position, that position shows it, it is nowhere
/// else, and every other cell is one that was there.
pub proof fn law_place_shows(grid: GridSpec, connection: Id, row: usize, col: usize)
    ensures
        ({
            let cells = grid.placed(connection, row, col).cells;
            &&& first_at(cells, row as int, col as int) == Some(single_cell(row, col, connection))
            &&& cells.last() == single_cell(row, col, connection)
            &&& forall|i: int|
                0 <= i < cells.len() - 1 ==> grid.cells.contains(#[trigger] cells[i])
                    && cells[i].connection != connection && !cells[i].occupies(
                    row as int,
                    col as int,
                )
        }),
{
    let pred = stays(connection, row as int, col as int);
    let rest = grid.cells.filter(pred);
    let at = lemma_filter_order(grid.cells, pred);
    let cells = grid.placed(connection, row, col).cells;
    assert forall|i: int| 0 <= i < cells.len() - 1 implies grid.cells.contains(#[trigger] cells[i])
        && cells[i].connection != connection && !cells[i].occupies(row as int, col as int) by {
        assert(cells[i] == rest[i]);
        assert(grid.cells[at[i]] == rest[i]);
    }
    lemma_first_at_last(cells, row as int, col as int);
}

/// Where only the last cell takes a position, a search finds it.
proof fn lemma_first_at_last(cells: Seq<GridCell>, row: int, col: int)
    requires
        cells.len() > 0,
        cells.last().occupies(row, col),
        forall|i: int| 0 <= i < cells.len() - 1 ==> !(#[trigger] cells[i]).occupies(row, col),
    ensures
        first_at(cells, row, col) == Some(cells.last()),
    decreases cells.len(),
{
    if cells.len() > 1 {
        let rest = cells.drop_first();
        assert(!cells[0].occupies(row, col));
        assert forall|i: int| 0 <= i < rest.len() - 1 implies !(#[trigger] rest[i]).occupies(row, col) by {
            assert(rest[i] == cells[i + 1]);
        }
        lemma_first_at_last(rest, row, col);
    }
}

/// Putting a connection at a position inside a wall that is safe to draw keeps it so.
pub proof fn law_place_keeps_drawable(grid: GridSpec, connection: Id, row: usize, col: usize)
    requires
        grid.drawable(),
        row < grid.rows,
        col < grid.cols,
    ensures
        grid.placed(connection, row, col).drawable(),
{
    let pred = stays(connection, row as int, col as int);
    let at = lemma_filter_order(grid.cells, pred);
    let cells = grid.placed(connection, row, col).cells;
    let n = cells.len() - 1;
    assert forall|i: int| 0 <= i < cells.len() implies (#[trigger] cells[i]).inside(grid.rows, grid.cols) by {
        if i < n {
            assert(grid.cells[at[i]] == cells[i]);
        }
    }
    assert forall|i: int, j: int| 0 <= i < j < cells.len() implies !(#[trigger] cells[i]).overlaps(
        #[trigger] cells[j],
    ) by {
        assert(grid.cells[at[i]] == cells[i]);
        if j < n {
            assert(at[i] < at[j]);
            assert(grid.cells[at[j]] == cells[j]);
        } else if cells[i].overlaps(cells[j]) {
            let (r, c) = choose|r: int, c: int| #[trigger]
                cells[i].occupies(r, c) && #[trigger] cells[j].occupies(r, c);
            assert(r == row && c == col);
        }
    }
}

/// Taking a connection off a wall leaves every other cell, in order, and keeps a wall
/// that is safe to draw so.
pub proof fn law_remove_from_grid(grid: GridSpec, connection: Id)
    ensures
        forall|i: int|
            0 <= i < grid.without(connection).cells.len() ==> (#[trigger] grid.without(
                connection,
            ).cells[i]).connection != connection,
        forall|i: int|
            0 <= i < grid.cells.len() && (#[trigger] grid.cells[i]).connection != connection
                ==> grid.without(connection).cells.contains(grid.cells[i]),
        grid.drawable() ==> grid.without(connection).drawable(),
{
    let pred = shows_other(connection);
    let at = lemma_filter_order(grid.cells, pred);
    let cells = grid.cells.filter(pred);
    assert forall|i: int| 0 <= i < cells.len() implies (#[trigger] cells[i]).connection != connection by {
        assert(grid.cells[at[i]] == cells[i]);
    }
    assert forall|i: int|
        0 <= i < grid.cells.len() && (#[trigger] grid.cells[i]).connection != connection implies cells.contains(
        grid.cells[i],
    ) by {
        grid.cells.lemma_filter_contains(pred, i);
    }
    if grid.drawable() {
        assert forall|i: int| 0 <= i < cells.len() implies (#[trigger] cells[i]).inside(grid.rows, grid.cols) by {
            assert(grid.cells[at[i]] == cells[i]);
        }
        assert forall|i: int, j: int| 0 <= i < j < cells.len() implies !(#[trigger] cells[i]).overlaps(
            #[trigger] cells[j],
        ) by {
            assert(at[i] < at[j]);
            assert(grid.cells[at[i]] == cells[i] && grid.cells[at[j]] == cells[j]);
        }
    }
}

/// Every question about a wall that is safe to draw has an answer.
pub proof fn law_drawable_answers(grid: GridSpec, connection: Id, row: usize, col: usize)
    requires
        grid.drawable(),
    ensures
        search_fits(grid.cells, row as int, col as int),
        grid.place_fits(connection, row, col),
        grid.edges_fit(row, col),
{
    assert forall|i: int| 0 <= i < grid.cells.len() implies (#[trigger] grid.cells[i]).edges_fit(
        row as int,
        col as int,
    ) by {
        assert(grid.cells[i].inside(grid.rows, grid.cols));
    }
    lemma_search_fits(grid.cells, row as int, col as int);
}

proof fn lemma_search_fits(cells: Seq<GridCell>, row: int, col: int)
    requires
        forall|i: int| 0 <= i < cells.len() ==> (#[trigger] cells[i]).edges_fit(row, col),
    ensures
        search_fits(cells, row, col),
    decreases cells.len(),
{
    if cells.len() > 0 {
        let rest = cells.drop_first();
        assert forall|i: int| 0 <= i < rest.len() implies (#[trigger] rest[i]).edges_fit(row, col) by {
            assert(rest[i] == cells[i + 1]);
        }
        lemma_search_fits(rest, row, col);
        assert(cells[0].edges_fit(row, col));
    }
}

/// A sanitised library is safe to render: every saved wall is safe to draw, and the
/// active wall exists. Sanitising it again changes nothing.
pub proof fn law_sanitize_makes_safe(library: LibrarySpec)
    ensures
        forall|k: int|
            0 <= k < library.sanitized().views.len() ==> (#[trigger] library.sanitized().views[k]).drawable(),
        library.sanitized().active_view matches Some(id) ==> library.sanitized().view(id) is Some,
        library.sanitized().sanitized() == library.sanitized(),
{
    let clamp = |grid: GridSpec| grid.clamped();
    let views = library.sanitized().views;
    assert forall|k: int| 0 <= k < views.len() implies (#[trigger] views[k]).drawable() by {
        law_clamp_makes_drawable(library.views[k]);
    }
    assert forall|k: int| 0 <= k < views.len() implies (#[trigger] views[k]).clamped() == views[k] by {
        law_clamp_keeps_drawable(library.views[k]);
    }
    assert(views.map_values(clamp) =~= views);
    if let Some(id) = library.active_view {
        lemma_view_index_same_ids(library.views, views, id, 0);
    }
    assert(library.sanitized().sanitized() =~= library.sanitized());
}

// ---- where each cell goes ----

/// Whether a position is one of those that a cell takes, which is at least one row and one
/// column.
pub open spec fn lies_under(cell: GridCell, row: int, col: int) -> bool {
    &&& cell.row <= row
    &&& row == cell.row || row < cell.row + cell.row_span
    &&& cell.col <= col
    &&& col == cell.col || col < cell.col + cell.col_span
}

/// After a connection was put at a position, every cell that shows another connection and does
/// not take the position is still on the wall, unchanged and in its old order; every other is
/// gone; and the connection has one cell, of that position alone. The wall keeps its size, its
/// name and its id. What is handed back says where each cell came from.
pub proof fn law_place_evicts_no_other(
    grid: GridSpec,
    connection: Id,
    row: usize,
    col: usize,
) -> (from: Seq<int>)
    ensures
        ({
            let after = grid.placed(connection, row, col);
            &&& after.cells.len() == from.len() + 1
            &&& after.cells.last() == (GridCell { row, col, row_span: 1, col_span: 1, connection })
            &&& forall|k: int|
                0 <= k < from.len() ==> 0 <= #[trigger] from[k] < grid.cells.len()
                    && after.cells[k] == grid.cells[from[k]] && after.cells[k].connection
                    != connection && !lies_under(after.cells[k], row as int, col as int)
            &&& forall|k: int, m: int|
                0 <= k < m < from.len() ==> #[trigger] from[k] < #[trigger] from[m]
            &&& forall|i: int|
                0 <= i < grid.cells.len() && (#[trigger] grid.cells[i]).connection != connection
                    && !lies_under(grid.cells[i], row as int, col as int) ==> from.contains(i)
            &&& after.rows == grid.rows
            &&& after.cols == grid.cols
            &&& after.name == grid.name
            &&& after.id == grid.id
        }),
{
    let pred = stays(connection, row as int, col as int);
    let from = lemma_filter_order(grid.cells, pred);
    let rest = grid.cells.filter(pred);
    let after = grid.placed(connection, row, col);
    assert forall|k: int| 0 <= k < from.len() implies 0 <= #[trigger] from[k] < grid.cells.len()
        && after.cells[k] == grid.cells[from[k]] && after.cells[k].connection != connection
        && !lies_under(after.cells[k], row as int, col as int) by {
        assert(after.cells[k] == rest[k]);
        assert(pred(grid.cells[from[k]]));
    }
    assert forall|i: int|
        0 <= i < grid.cells.len() && (#[trigger] grid.cells[i]).connection != connection
            && !lies_under(grid.cells[i], row as int, col as int) implies from.contains(i) by {
        assert(pred(grid.cells[i]));
    }
    from
}

/// After a connection was taken off, every cell that shows another is still on the wall,
/// unchanged and in its old order, and no other is. The wall keeps its size, its name and its
/// id. What is handed back says where each cell came from.
pub proof fn law_remove_takes_no_other(grid: GridSpec, connection: Id) -> (from: Seq<int>)
    ensures
        ({
            let after = grid.without(connection);
            &&& after.cells.len() == from.len()
            &&& forall|k: int|
                0 <= k < from.len() ==> 0 <= #[trigger] from[k] < grid.cells.len()
                    && after.cells[k] == grid.cells[from[k]] && after.cells[k].connection
                    != connection
            &&& forall|k: int, m: int|
                0 <= k < m < from.len() ==> #[trigger] from[k] < #[trigger] from[m]
            &&& forall|i: int|
                0 <= i < grid.cells.len() && (#[trigger] grid.cells[i]).connection != connection
                    ==> from.contains(i)
            &&& after.rows == grid.rows
            &&& after.cols == grid.cols
            &&& after.name == grid.name
            &&& after.id == grid.id
        }),
{
    let pred = shows_other(connection);
    let from = lemma_filter_order(grid.cells, pred);
    let after = grid.without(connection);
    assert forall|k: int| 0 <= k < from.len() implies 0 <= #[trigger] from[k] < grid.cells.len()
        && after.cells[k] == grid.cells[from[k]] && after.cells[k].connection != connection by {
        assert(pred(grid.cells[from[k]]));
    }
    assert forall|i: int|
        0 <= i < grid.cells.len() && (#[trigger] grid.cells[i]).connection
            != connection implies from.contains(i) by {
        assert(pred(grid.cells[i]));
    }
    from
}

/// Whether one of the kept cells stood before a cell and overlaps it.
spec fn is_blocked(cells: Seq<GridCell>, from: Seq<int>, kept: Seq<GridCell>, i: int) -> bool {
    exists|k: int| 0 <= k < from.len() && #[trigger] from[k] < i && cells[i].overlaps(kept[k])
}

/// Which of a list are kept, and what stands in the way of the others.
proof fn lemma_kept_from(cells: Seq<GridCell>) -> (from: Seq<int>)
    ensures
        from.len() == without_overlaps(cells).len(),
        forall|k: int|
            0 <= k < from.len() ==> 0 <= #[trigger] from[k] < cells.len() && cells[from[k]]
                == without_overlaps(cells)[k],
        forall|k: int, m: int| 0 <= k < m < from.len() ==> #[trigger] from[k] < #[trigger] from[m],
        forall|i: int|
            0 <= i < cells.len() && !from.contains(i) ==> #[trigger] is_blocked(
                cells,
                from,
                without_overlaps(cells),
                i,
            ),
    decreases cells.len(),
{
    if cells.len() == 0 {
        Seq::empty()
    } else {
        let before = cells.drop_last();
        let prev = lemma_kept_from(before);
        let kept = without_overlaps(before);
        let all = without_overlaps(cells);
        let last = cells.len() - 1;
        let from = if overlaps_any(kept, cells.last()) {
            prev
        } else {
            prev.push(last)
        };
        assert forall|k: int| 0 <= k < from.len() implies 0 <= #[trigger] from[k] < cells.len()
            && cells[from[k]] == all[k] by {
            if k < prev.len() {
                assert(0 <= prev[k] < before.len() && before[prev[k]] == kept[k]);
            }
        }
        assert forall|i: int| 0 <= i < cells.len() && !from.contains(i) implies #[trigger] is_blocked(
            cells,
            from,
            all,
            i,
        ) by {
            if i < last {
                if prev.contains(i) {
                    let k = choose|k: int| 0 <= k < prev.len() && prev[k] == i;
                    assert(from[k] == i);
                }
                assert(before[i] == cells[i]);
                assert(is_blocked(before, prev, kept, i));
                let k = choose|k: int|
                    0 <= k < prev.len() && #[trigger] prev[k] < i && before[i].overlaps(kept[k]);
                assert(from[k] == prev[k] && all[k] == kept[k]);
            } else {
                if !overlaps_any(kept, cells.last()) {
                    assert(from[prev.len() as int] == i);
                }
                let k = choose|k: int| 0 <= k < kept.len() && cells.last().overlaps(#[trigger] kept[k]);
                assert(0 <= prev[k] < before.len());
                assert(from[k] < i && cells[i].overlaps(all[k]));
            }
        }
        from
    }
}

/// The smaller of what a cell asks for, which is at least one, and what is left of the grid.
pub open spec fn span_left(span: usize, start: usize, end: int) -> int {
    let asked = if span > 1 {
        span as int
    } else {
        1
    };
    if asked <= end - start {
        asked
    } else {
        end - start
    }
}

/// Clamping makes no cell up and moves none: each that is left was there, shows what it showed
/// where it showed it, and takes what it took as far as the grid reaches, and they stand in
/// their old order. One that starts inside the grid is dropped only where one that is kept and
/// stood before it takes some of its place. The wall keeps its name and its id, and its size
/// where that is not zero. What is handed back says where each cell came from.
pub proof fn law_clamp_moves_nothing(grid: GridSpec) -> (from: Seq<int>)
    ensures
        ({
            let after = grid.clamped();
            &&& after.id == grid.id
            &&& after.name == grid.name
            &&& after.rows == (if grid.rows == 0 {
                1
            } else {
                grid.rows as int
            })
            &&& after.cols == (if grid.cols == 0 {
                1
            } else {
                grid.cols as int
            })
            &&& from.len() == after.cells.len()
            &&& forall|k: int|
                0 <= k < from.len() ==> 0 <= #[trigger] from[k] < grid.cells.len() && {
                    let was = grid.cells[from[k]];
                    let is = after.cells[k];
                    &&& is.connection == was.connection
                    &&& is.row == was.row
                    &&& is.col == was.col
                    &&& is.row < after.rows
                    &&& is.col < after.cols
                    &&& is.row_span == span_left(was.row_span, was.row, after.rows as int)
                    &&& is.col_span == span_left(was.col_span, was.col, after.cols as int)
                }
            &&& forall|k: int, m: int|
                0 <= k < m < from.len() ==> #[trigger] from[k] < #[trigger] from[m]
            &&& forall|i: int|
                0 <= i < grid.cells.len() && (#[trigger] grid.cells[i]).row < after.rows
                    && grid.cells[i].col < after.cols && !from.contains(i) ==> exists|k: int|
                    0 <= k < from.len() && #[trigger] from[k] < i && {
                        let a = grid.cells[i];
                        let b = after.cells[k];
                        &&& a.row < b.row + b.row_span
                        &&& b.row < a.row + span_left(a.row_span, a.row, after.rows as int)
                        &&& a.col < b.col + b.col_span
                        &&& b.col < a.col + span_left(a.col_span, a.col, after.cols as int)
                    }
        }),
{
    let rows = at_least_one(grid.rows);
    let cols = at_least_one(grid.cols);
    let pred = starts_inside(rows, cols);
    let cut = cut_to(rows, cols);
    let within = grid.cells.filter(pred);
    let shaped = within.map_values(cut);
    let after = grid.clamped();
    let at = lemma_filter_order(grid.cells, pred);
    let kept = lemma_kept_from(shaped);
    let from = Seq::new(kept.len(), |k: int| at[kept[k]]);
    assert forall|k: int| 0 <= k < from.len() implies 0 <= #[trigger] from[k] < grid.cells.len() && {
        let was = grid.cells[from[k]];
        let is = after.cells[k];
        &&& is.connection == was.connection
        &&& is.row == was.row
        &&& is.col == was.col
        &&& is.row < after.rows
        &&& is.col < after.cols
        &&& is.row_span == span_left(was.row_span, was.row, after.rows as int)
        &&& is.col_span == span_left(was.col_span, was.col, after.cols as int)
    } by {
        assert(0 <= kept[k] < shaped.len() && shaped[kept[k]] == after.cells[k]);
        assert(0 <= at[kept[k]] < grid.cells.len() && pred(grid.cells[at[kept[k]]]));
        assert(shaped[kept[k]] == cut(within[kept[k]]));
    }
    assert forall|k: int, m: int| 0 <= k < m < from.len() implies #[trigger] from[k]
        < #[trigger] from[m] by {
        assert(kept[k] < kept[m]);
        assert(0 <= kept[k] && kept[m] < shaped.len());
        assert(at[kept[k]] < at[kept[m]]);
    }
    assert forall|i: int|
        0 <= i < grid.cells.len() && (#[trigger] grid.cells[i]).row < after.rows
            && grid.cells[i].col < after.cols && !from.contains(i) implies exists|k: int|
        0 <= k < from.len() && #[trigger] from[k] < i && {
            let a = grid.cells[i];
            let b = after.cells[k];
            &&& a.row < b.row + b.row_span
            &&& b.row < a.row + span_left(a.row_span, a.row, after.rows as int)
            &&& a.col < b.col + b.col_span
            &&& b.col < a.col + span_left(a.col_span, a.col, after.cols as int)
        } by {
        assert(pred(grid.cells[i]));
        let m = choose|m: int| 0 <= m < at.len() && at[m] == i;
        assert(within[m] == grid.cells[at[m]]);
        if kept.contains(m) {
            let k = choose|k: int| 0 <= k < kept.len() && kept[k] == m;
            assert(from[k] == i);
        }
        assert(is_blocked(shaped, kept, after.cells, m));
        let k = choose|k: int|
            0 <= k < kept.len() && #[trigger] kept[k] < m && shaped[m].overlaps(after.cells[k]);
        assert(0 <= kept[k] < shaped.len() && shaped[kept[k]] == after.cells[k]);
        assert(at[kept[k]] < at[m]);
        assert(from[k] < i);
        assert(0 <= at[kept[k]] < grid.cells.len() && pred(grid.cells[at[kept[k]]]));
        assert(shaped[kept[k]] == cut(within[kept[k]]));
        assert(shaped[m] == cut(within[m]));
        lemma_overlaps(shaped[m], after.cells[k]);
    }
    from
}

/// After clamping no position is taken twice.
pub proof fn law_clamp_takes_no_position_twice(
    grid: GridSpec,
    i: int,
    j: int,
    row: int,
    col: int,
)
    requires
        0 <= i < j < grid.clamped().cells.len(),
    ensures
        !(lies_under(grid.clamped().cells[i], row, col) && lies_under(
            grid.clamped().cells[j],
            row,
            col,
        )),
{
    law_clamp_makes_drawable(grid);
    let cells = grid.clamped().cells;
    assert(cells[i].inside(grid.clamped().rows, grid.clamped().cols));
    assert(cells[j].inside(grid.clamped().rows, grid.clamped().cols));
    assert(!cells[i].overlaps(cells[j]));
    if lies_under(cells[i], row, col) && lies_under(cells[j], row, col) {
        assert(cells[i].occupies(row, col) && cells[j].occupies(row, col));
    }
}

/// What a position shows is the first cell that takes it, and nothing where none does.
pub proof fn law_position_shows_first_cell(cells: Seq<GridCell>, row: int, col: int)
    ensures
        match first_at(cells, row, col) {
            Some(cell) => exists|k: int|
                0 <= k < cells.len() && #[trigger] cells[k] == cell && lies_under(cell, row, col)
                    && forall|j: int| 0 <= j < k ==> !lies_under(#[trigger] cells[j], row, col),
            None => forall|j: int|
                0 <= j < cells.len() ==> !lies_under(#[trigger] cells[j], row, col),
        },
    decreases cells.len(),
{
    if cells.len() > 0 {
        let rest = cells.drop_first();
        if cells[0].occupies(row, col) {
            assert(lies_under(cells[0], row, col));
        } else {
            law_position_shows_first_cell(rest, row, col);
            if let Some(cell) = first_at(rest, row, col) {
                let k = choose|k: int|
                    0 <= k < rest.len() && #[trigger] rest[k] == cell && lies_under(cell, row, col)
                        && forall|j: int| 0 <= j < k ==> !lies_under(#[trigger] rest[j], row, col);
                assert(cells[k + 1] == cell);
                assert forall|j: int| 0 <= j < k + 1 implies !lies_under(
                    #[trigger] cells[j],
                    row,
                    col,
                ) by {
                    if j > 0 {
                        assert(rest[j - 1] == cells[j]);
                    }
                }
            } else {
                assert forall|j: int| 0 <= j < cells.len() implies !lies_under(
                    #[trigger] cells[j],
                    row,
                    col,
                ) by {
                    if j > 0 {
                        assert(rest[j - 1] == cells[j]);
                    }
                }
            }
        }
    }
}

/// Sanitising touches the walls alone: each is clamped in its place, and the active one stays
/// active exactly where it exists.
pub proof fn law_sanitize_keeps_the_rest(library: LibrarySpec)
    ensures
        ({
            let after = library.sanitized();
            &&& after.roots == library.roots
            &&& after.open == library.open
            &&& after.theme == library.theme
            &&& after.layout == library.layout
            &&& after.sidebar_hidden == library.sidebar_hidden
            &&& after.views.len() == library.views.len()
            &&& forall|k: int|
                0 <= k < after.views.len() ==> #[trigger] after.views[k]
                    == library.views[k].clamped()
            &&& after.active_view == (if library.active_view matches Some(id) && exists|k: int|
                0 <= k < library.views.len() && (#[trigger] library.views[k]).id == id {
                library.active_view
            } else {
                None
            })
        }),
{
    if let Some(id) = library.active_view {
        lemma_view_index_is_first(library.views, id, 0);
    }
}

/// What [`view_index`] means.
pub(crate) proof fn lemma_view_index_is_first(views: Seq<GridSpec>, id: Id, from: int)
    requires
        0 <= from,
    ensures
        match view_index(views, id, from) {
            Some(k) => from <= k < views.len() && views[k].id == id && forall|j: int|
                from <= j < k ==> (#[trigger] views[j]).id != id,
            None => forall|j: int| from <= j < views.len() ==> (#[trigger] views[j]).id != id,
        },
    decreases views.len() - from,
{
    if from < views.len() && views[from].id != id {
        lemma_view_index_is_first(views, id, from + 1);
    }
}

/// A wall is found by its id: the first that has it, and none where none has.
pub proof fn law_wall_is_found_by_id(library: LibrarySpec, id: Id)
    ensures
        match library.view(id) {
            Some(view) => exists|k: int|
                0 <= k < library.views.len() && #[trigger] library.views[k] == view && view.id == id
                    && forall|j: int| 0 <= j < k ==> (#[trigger] library.views[j]).id != id,
            None => forall|j: int|
                0 <= j < library.views.len() ==> (#[trigger] library.views[j]).id != id,
        },
{
    lemma_view_index_is_first(library.views, id, 0);
    if let Some(k) = view_index(library.views, id, 0) {
        assert(library.views[k].id == id);
    }
}

} // verus!

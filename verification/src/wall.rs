//! What goes where on the video wall.

use crate::grid::{at_least_one, first_at, search_fits, GridCell, GridSpec, GridView};
use crate::id::Id;
use crate::text::{decimal, decimal_text};
use vstd::arithmetic::div_mod::lemma_fundamental_div_mod;
use vstd::prelude::*;
use vstd::string::StringExecFns;

verus! {

/// Whether `c` columns are the fewest that make a square grid with room for `count` tiles.
pub open spec fn is_squarest(count: int, c: int) -> bool {
    &&& 0 <= c
    &&& c * c >= count
    &&& c > 0 ==> (c - 1) * (c - 1) < count
}

/// The columns of the squarest grid with room for `count` tiles.
pub open spec fn columns_for(count: int) -> int {
    choose|c: int| is_squarest(count, c)
}

/// `count` divided by `by`, rounded up.
pub open spec fn div_up(count: int, by: int) -> int {
    if count % by == 0 {
        count / by
    } else {
        count / by + 1
    }
}

/// `count` divided by `by`, rounded up.
pub(crate) fn div_ceil(count: usize, by: usize) -> (n: usize)
    requires
        by > 0,
    ensures
        n == div_up(count as int, by as int),
{
    let n = count / by;
    if count % by == 0 {
        n
    } else {
        proof {
            lemma_fundamental_div_mod(count as int, by as int);
            assert(n < count) by (nonlinear_arith)
                requires
                    count == by * n + count % by,
                    count % by > 0,
                    by >= 1,
                    n >= 0,
            ;
        }
        n + 1
    }
}

/// Tiles are laid out in the squarest grid that fits, so four streams give 2x2
/// rather than a 1x4 strip.
pub fn grid_columns(count: usize) -> (columns: usize)
    ensures
        is_squarest(count as int, columns as int),
        columns == columns_for(count as int),
{
    let mut c: usize = 0;
    while (c as u128) * (c as u128) < count as u128
        invariant
            c <= count,
            c > 0 ==> (c - 1) * (c - 1) < count,
            (c as u128) * (c as u128) <= u128::MAX,
        decreases count - c,
    {
        assert(c < count) by (nonlinear_arith)
            requires
                c * c < count,
                c >= 0,
        ;
        c += 1;
        assert((c as int) * (c as int) <= u128::MAX) by (nonlinear_arith)
            requires
                0 <= c <= 0xffff_ffff_ffff_ffff,
        ;
    }
    proof {
        lemma_squarest_unique(count as int, c as int);
    }
    c
}

/// There is a number of columns for every count.
pub proof fn lemma_columns_exist(count: int)
    requires
        count >= 0,
    ensures
        is_squarest(count, columns_for(count)),
    decreases count,
{
    if count == 0 {
        assert(is_squarest(0, 0));
    } else {
        lemma_columns_exist(count - 1);
        let c = columns_for(count - 1);
        if c * c >= count {
            assert(is_squarest(count, c));
        } else {
            assert((c + 1) * (c + 1) == c * c + 2 * c + 1) by (nonlinear_arith);
            assert(is_squarest(count, c + 1));
        }
    }
}

/// There is one number of columns for a count.
proof fn lemma_squarest_unique(count: int, c: int)
    requires
        is_squarest(count, c),
    ensures
        columns_for(count) == c,
        forall|other: int| #[trigger] is_squarest(count, other) ==> other == c,
{
    assert forall|other: int| #[trigger] is_squarest(count, other) implies other == c by {
        assert(other >= c) by (nonlinear_arith)
            requires
                other >= 0,
                other * other >= count,
                c > 0 ==> (c - 1) * (c - 1) < count,
        ;
        assert(c >= other) by (nonlinear_arith)
            requires
                c >= 0,
                other >= 0,
                c * c >= count,
                other > 0 ==> (other - 1) * (other - 1) < count,
        ;
    }
}

/// The number of columns is unique, and the grid it makes holds every tile and is as square as
/// can be: as many rows as columns, or one fewer.
pub proof fn law_grid_is_squarest(count: int, c: int)
    requires
        count >= 1,
        is_squarest(count, c),
    ensures
        c >= 1,
        c * div_up(count, c) >= count,
        div_up(count, c) <= c <= div_up(count, c) + 1,
        forall|other: int| #[trigger] is_squarest(count, other) ==> other == c,
{
    assert(c >= 1) by (nonlinear_arith)
        requires
            c * c >= count,
            count >= 1,
            c >= 0,
    ;
    lemma_fundamental_div_mod(count, c);
    let q = count / c;
    let r = count % c;
    assert(0 <= r < c);
    assert(count == c * q + r);
    assert(c * (q + 1) == c * q + c) by (nonlinear_arith);
    assert(q <= c) by (nonlinear_arith)
        requires
            count == c * q + r,
            0 <= r,
            c * c >= count,
            c >= 1,
    ;
    assert(r > 0 ==> q + 1 <= c) by (nonlinear_arith)
        requires
            count == c * q + r,
            c * c >= count,
            c >= 1,
    ;
    assert(c <= div_up(count, c) + 1) by (nonlinear_arith)
        requires
            count == c * q + r,
            0 <= r < c,
            (c - 1) * (c - 1) < count,
            c >= 1,
            div_up(count, c) == if r == 0 {
                q
            } else {
                q + 1
            },
    ;
    lemma_squarest_unique(count, c);
}

/// One row of an unsaved wall: its tiles, and how many blanks pad it so that a lone tile does
/// not stretch full width.
#[derive(Debug)]
pub struct WallRow {
    pub tiles: Vec<Id>,
    pub fillers: usize,
}

/// The contents of a [`WallRow`].
#[verifier::ext_equal]
pub struct WallRowSpec {
    pub tiles: Seq<Id>,
    pub fillers: int,
}

impl View for WallRow {
    type V = WallRowSpec;

    open spec fn view(&self) -> WallRowSpec {
        WallRowSpec { tiles: self.tiles@, fillers: self.fillers as int }
    }
}

/// The contents of a list of rows.
pub open spec fn row_specs(rows: Seq<WallRow>) -> Seq<WallRowSpec> {
    rows.map_values(|row: WallRow| row@)
}

/// Tiles in rows of that many columns, in order. Every row but the last is full.
pub open spec fn laid_out(tiles: Seq<Id>, columns: int) -> Seq<WallRowSpec>
    decreases tiles.len(),
{
    if columns <= 0 || tiles.len() == 0 {
        Seq::empty()
    } else if tiles.len() <= columns {
        seq![WallRowSpec { tiles, fillers: columns - tiles.len() }]
    } else {
        seq![WallRowSpec { tiles: tiles.take(columns), fillers: 0 }] + laid_out(
            tiles.skip(columns),
            columns,
        )
    }
}

/// The number of columns for that many tiles; an empty wall has one.
pub fn wall_columns(count: usize) -> (columns: usize)
    ensures
        columns == columns_for(at_least_one(count) as int),
        columns >= 1,
{
    let shown: usize = if count == 0 {
        1
    } else {
        count
    };
    let columns = grid_columns(shown);
    proof {
        law_grid_is_squarest(shown as int, columns as int);
    }
    columns
}

/// The rows of an unsaved wall.
pub fn wall_rows(open: &Vec<Id>) -> (rows: Vec<WallRow>)
    ensures
        row_specs(rows@) == laid_out(
            open@,
            columns_for(at_least_one(open.len()) as int),
        ),
{
    let columns = wall_columns(open.len());
    let ghost all = laid_out(open@, columns as int);
    let mut rows: Vec<WallRow> = Vec::new();
    let mut start: usize = 0;
    assert(open@.skip(0) == open@);
    assert(row_specs(rows@) + all == all);
    while start < open.len()
        invariant
            start <= open@.len(),
            columns >= 1,
            all == laid_out(open@, columns as int),
            row_specs(rows@) + laid_out(open@.skip(start as int), columns as int) == all,
        decreases open@.len() - start,
    {
        let left = open.len() - start;
        let width: usize = if left <= columns {
            left
        } else {
            columns
        };
        let ghost rest = open@.skip(start as int);
        let mut tiles: Vec<Id> = Vec::new();
        let mut i: usize = 0;
        while i < width
            invariant
                i <= width,
                start + width <= open.len(),
                tiles@ == open@.subrange(start as int, start + i),
            decreases width - i,
        {
            tiles.push(open[start + i]);
            i += 1;
        }
        let ghost before = row_specs(rows@);
        let row = WallRow { tiles, fillers: columns - width };
        let ghost spec_row = row@;
        rows.push(row);
        assert(row_specs(rows@) == before.push(spec_row));
        start += width;
        proof {
            let after = laid_out(open@.skip(start as int), columns as int);
            if rest.len() <= columns {
                assert(spec_row.tiles == rest);
                assert(open@.skip(start as int).len() == 0);
                assert(before.push(spec_row) + after == before + seq![spec_row]);
            } else {
                assert(spec_row.tiles == rest.take(columns as int));
                assert(rest.skip(columns as int) == open@.skip(start as int));
                assert(before.push(spec_row) + after == before + (seq![spec_row] + after));
            }
        }
    }
    proof {
        assert(open@.skip(start as int).len() == 0);
        assert(row_specs(rows@) + Seq::<WallRowSpec>::empty() == row_specs(rows@));
    }
    rows
}

/// The tiles of some rows, one row after the other.
pub open spec fn all_tiles(rows: Seq<WallRowSpec>) -> Seq<Id>
    decreases rows.len(),
{
    if rows.len() == 0 {
        Seq::empty()
    } else {
        rows[0].tiles + all_tiles(rows.drop_first())
    }
}

/// The rows of a wall hold every tile once and in order, and each row has as many places as
/// there are columns.
pub proof fn law_rows_hold_every_tile(tiles: Seq<Id>, columns: int)
    requires
        columns >= 1,
    ensures
        all_tiles(laid_out(tiles, columns)) == tiles,
        forall|i: int|
            0 <= i < laid_out(tiles, columns).len() ==> {
                let row = #[trigger] laid_out(tiles, columns)[i];
                0 <= row.fillers < columns && row.tiles.len() + row.fillers == columns
            },
    decreases tiles.len(),
{
    let rows = laid_out(tiles, columns);
    if tiles.len() == 0 {
    } else if tiles.len() <= columns {
        assert(rows.drop_first() == Seq::<WallRowSpec>::empty());
        assert(all_tiles(rows.drop_first()) == Seq::<Id>::empty());
        assert(all_tiles(rows) == tiles);
    } else {
        let rest = tiles.skip(columns);
        law_rows_hold_every_tile(rest, columns);
        assert(rows.drop_first() == laid_out(rest, columns));
        assert(tiles.take(columns) + rest == tiles);
        assert forall|i: int| 0 <= i < rows.len() implies {
            let row = #[trigger] rows[i];
            0 <= row.fillers < columns && row.tiles.len() + row.fillers == columns
        } by {
            if i > 0 {
                assert(rows[i] == laid_out(rest, columns)[i - 1]);
            }
        }
    }
}

/// The size of a saved wall, in rows and columns.
pub open spec fn size_text(rows: usize, cols: usize) -> Seq<char> {
    decimal(rows as int) + "\u{00d7}"@ + decimal(cols as int)
}

/// The size of a saved wall, in rows and columns.
pub fn size_label(view: &GridView) -> (label: String)
    ensures
        label@ == size_text(view@.rows, view@.cols),
{
    let rows = decimal_text(view.rows as u128);
    let cols = decimal_text(view.cols as u128);
    rows.concat("\u{00d7}").concat(cols.as_str())
}

/// What a place on a saved wall shows.
#[derive(Debug, Clone, Copy, PartialEq, Eq, Structural)]
pub enum SlotBody {
    /// An open stream.
    Tile(Id),
    /// A connection that is not open, or gone from the library.
    Missing,
    /// Nothing.
    Empty,
}

/// A place on a saved wall.
#[derive(Debug, Clone, Copy, PartialEq, Eq, Structural)]
pub struct Slot {
    pub row: usize,
    pub col: usize,
    pub row_span: usize,
    pub col_span: usize,
    pub body: SlotBody,
}

impl Slot {
    /// Whether the position is one of those that the slot takes.
    pub open spec fn occupies(self, row: int, col: int) -> bool {
        &&& self.row <= row < self.row + self.row_span
        &&& self.col <= col < self.col + self.col_span
    }
}

/// The slot of a cell: its tile where the stream is open.
pub open spec fn cell_slot(open: Seq<Id>) -> spec_fn(GridCell) -> Slot {
    |cell: GridCell|
        Slot {
            row: cell.row,
            col: cell.col,
            row_span: at_least_one(cell.row_span),
            col_span: at_least_one(cell.col_span),
            body: if open.contains(cell.connection) {
                SlotBody::Tile(cell.connection)
            } else {
                SlotBody::Missing
            },
        }
}

/// A slot of one position that shows nothing.
pub open spec fn empty_slot(row: int, col: int) -> Slot {
    Slot { row: row as usize, col: col as usize, row_span: 1, col_span: 1, body: SlotBody::Empty }
}

/// The empty slots among the first columns of a row.
pub open spec fn empties_in_row(cells: Seq<GridCell>, row: int, cols: int) -> Seq<Slot>
    decreases cols,
{
    if cols <= 0 {
        Seq::empty()
    } else if first_at(cells, row, cols - 1) is Some {
        empties_in_row(cells, row, cols - 1)
    } else {
        empties_in_row(cells, row, cols - 1).push(empty_slot(row, cols - 1))
    }
}

/// The empty slots of the first rows, row by row.
pub open spec fn empties(cells: Seq<GridCell>, rows: int, cols: int) -> Seq<Slot>
    decreases rows,
{
    if rows <= 0 {
        Seq::empty()
    } else {
        empties(cells, rows - 1, cols) + empties_in_row(cells, rows - 1, cols)
    }
}

impl GridSpec {
    /// What a saved wall shows: the slots of its cells, then an empty one for every position
    /// that no cell takes.
    pub open spec fn slots(self, open: Seq<Id>) -> Seq<Slot> {
        self.cells.map_values(cell_slot(open)) + empties(
            self.cells,
            at_least_one(self.rows) as int,
            at_least_one(self.cols) as int,
        )
    }

    /// Whether every position can be searched for its cell.
    pub open spec fn can_draw(self) -> bool {
        forall|row: int, col: int|
            0 <= row < at_least_one(self.rows) && 0 <= col < at_least_one(self.cols)
                ==> #[trigger] search_fits(self.cells, row, col)
    }
}

/// Whether an id is in a list.
pub(crate) fn holds(ids: &Vec<Id>, id: Id) -> (yes: bool)
    ensures
        yes == ids@.contains(id),
{
    let mut i: usize = 0;
    while i < ids.len()
        invariant
            i <= ids@.len(),
            forall|k: int| 0 <= k < i ==> ids@[k] != id,
        decreases ids@.len() - i,
    {
        if ids[i] == id {
            assert(ids@[i as int] == id);
            return true;
        }
        i += 1;
    }
    false
}

/// What a saved wall shows, if every position can be searched.
pub fn grid_slots(view: &GridView, open: &Vec<Id>) -> (slots: Option<Vec<Slot>>)
    ensures
        slots is Some <==> view@.can_draw(),
        slots matches Some(s) ==> s@ == view@.slots(open@),
{
    let rows: usize = if view.rows == 0 {
        1
    } else {
        view.rows
    };
    let cols: usize = if view.cols == 0 {
        1
    } else {
        view.cols
    };
    let ghost cells = view@.cells;
    let ghost to_slot = cell_slot(open@);
    let mut slots: Vec<Slot> = Vec::new();
    let mut i: usize = 0;
    while i < view.cells.len()
        invariant
            i <= view.cells@.len(),
            cells == view.cells@,
            to_slot == cell_slot(open@),
            slots@ == cells.take(i as int).map_values(to_slot),
        decreases view.cells@.len() - i,
    {
        let cell = view.cells[i];
        let body = if holds(open, cell.connection) {
            SlotBody::Tile(cell.connection)
        } else {
            SlotBody::Missing
        };
        let row_span: usize = if cell.row_span == 0 {
            1
        } else {
            cell.row_span
        };
        let col_span: usize = if cell.col_span == 0 {
            1
        } else {
            cell.col_span
        };
        slots.push(Slot { row: cell.row, col: cell.col, row_span, col_span, body });
        assert(slots@ =~= cells.take(i + 1).map_values(to_slot));
        i += 1;
    }
    let ghost taken = slots@;
    assert(cells.take(i as int) =~= cells);
    assert(slots@ =~= taken + empties(cells, 0, cols as int));
    let mut row: usize = 0;
    while row < rows
        invariant
            row <= rows,
            rows == at_least_one(view.rows),
            cols == at_least_one(view.cols),
            cells == view@.cells,
            slots@ == taken + empties(cells, row as int, cols as int),
            forall|r: int, c: int|
                0 <= r < row && 0 <= c < cols ==> #[trigger] search_fits(cells, r, c),
        decreases rows - row,
    {
        let mut col: usize = 0;
        assert(slots@ =~= taken + (empties(cells, row as int, cols as int) + empties_in_row(
            cells,
            row as int,
            0,
        )));
        while col < cols
            invariant
                row < rows,
                col <= cols,
                rows == at_least_one(view.rows),
                cols == at_least_one(view.cols),
                cells == view@.cells,
                slots@ == taken + (empties(cells, row as int, cols as int) + empties_in_row(
                    cells,
                    row as int,
                    col as int,
                )),
                forall|r: int, c: int|
                    0 <= r < row && 0 <= c < cols ==> #[trigger] search_fits(cells, r, c),
                forall|c: int| 0 <= c < col ==> #[trigger] search_fits(cells, row as int, c),
            decreases cols - col,
        {
            if !view.can_search(row, col) {
                assert(!search_fits(view@.cells, row as int, col as int));
                return None;
            }
            if view.cell_at(row, col).is_none() {
                slots.push(Slot { row, col, row_span: 1, col_span: 1, body: SlotBody::Empty });
                assert(slots@ =~= taken + (empties(cells, row as int, cols as int)
                    + empties_in_row(cells, row as int, col + 1)));
            }
            col += 1;
        }
        row += 1;
    }
    Some(slots)
}

} // verus!

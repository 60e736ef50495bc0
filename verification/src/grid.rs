//! Saved walls: a fixed grid with connections at chosen positions.

use vstd::prelude::*;

use crate::id::{is_random_uuid, Id};

verus! {

/// One connection placed on a saved grid. Spans let a camera take more than a
/// single cell, so a wall can have a large primary view beside small ones.
#[derive(Debug, Clone, Copy)]
pub struct GridCell {
    pub row: usize,
    pub col: usize,
    pub row_span: usize,
    pub col_span: usize,
    pub connection: Id,
}

/// A saved wall.
#[derive(Debug)]
pub struct GridView {
    pub id: Id,
    pub name: String,
    pub rows: usize,
    pub cols: usize,
    pub cells: Vec<GridCell>,
}

/// The contents of a [`GridView`].
#[verifier::ext_equal]
pub struct GridSpec {
    pub id: Id,
    pub name: Seq<char>,
    pub rows: usize,
    pub cols: usize,
    pub cells: Seq<GridCell>,
}

impl View for GridView {
    type V = GridSpec;

    open spec fn view(&self) -> GridSpec {
        GridSpec {
            id: self.id,
            name: self.name@,
            rows: self.rows,
            cols: self.cols,
            cells: self.cells@,
        }
    }
}

/// `n`, or one where `n` is zero.
pub open spec fn at_least_one(n: usize) -> usize {
    if n == 0 {
        1
    } else {
        n
    }
}

/// Whether two of the half-open intervals `[a, a + m)` and `[b, b + n)` meet.
pub open spec fn intervals_meet(a: int, m: int, b: int, n: int) -> bool {
    a < b + n && b < a + m
}

impl GridCell {
    /// How many rows the cell takes; a span of zero counts as one.
    pub open spec fn height(self) -> int {
        at_least_one(self.row_span) as int
    }

    /// How many columns the cell takes; a span of zero counts as one.
    pub open spec fn width(self) -> int {
        at_least_one(self.col_span) as int
    }

    /// Whether the position is one of those that the cell takes.
    pub open spec fn occupies(self, row: int, col: int) -> bool {
        &&& self.row <= row < self.row + self.height()
        &&& self.col <= col < self.col + self.width()
    }

    /// Whether the far edges that a test of the position reaches are numbers that
    /// `usize` can hold.
    pub open spec fn edges_fit(self, row: int, col: int) -> bool {
        &&& row >= self.row ==> self.row + self.height() <= usize::MAX
        &&& self.row <= row < self.row + self.height() && col >= self.col ==> self.col
            + self.width() <= usize::MAX
    }

    /// Whether some position belongs to both cells.
    pub open spec fn overlaps(self, other: GridCell) -> bool {
        exists|row: int, col: int| #[trigger]
            self.occupies(row, col) && #[trigger] other.occupies(row, col)
    }

    /// Whether the cell lies inside a grid of that size, with spans of at least one.
    pub open spec fn inside(self, rows: usize, cols: usize) -> bool {
        &&& self.row_span >= 1
        &&& self.col_span >= 1
        &&& self.row + self.row_span <= rows
        &&& self.col + self.col_span <= cols
    }
}

/// Whether a cell starts inside a grid of that size.
pub open spec fn starts_inside(rows: usize, cols: usize) -> spec_fn(GridCell) -> bool {
    |cell: GridCell| cell.row < rows && cell.col < cols
}

/// `span` brought to at least one and at most what is left from `start` on.
pub open spec fn cut_span(span: usize, start: usize, end: usize) -> usize {
    if at_least_one(span) <= end - start {
        at_least_one(span)
    } else {
        (end - start) as usize
    }
}

/// A cell with its spans cut at the edges of a grid of that size.
pub open spec fn cut_to(rows: usize, cols: usize) -> spec_fn(GridCell) -> GridCell {
    |cell: GridCell|
        GridCell {
            row_span: cut_span(cell.row_span, cell.row, rows),
            col_span: cut_span(cell.col_span, cell.col, cols),
            ..cell
        }
}

/// Whether `cell` overlaps one of `kept`.
pub open spec fn overlaps_any(kept: Seq<GridCell>, cell: GridCell) -> bool {
    exists|i: int| 0 <= i < kept.len() && cell.overlaps(#[trigger] kept[i])
}

/// `cells` without those that overlap one kept before them.
pub open spec fn without_overlaps(cells: Seq<GridCell>) -> Seq<GridCell>
    decreases cells.len(),
{
    if cells.len() == 0 {
        Seq::empty()
    } else {
        let kept = without_overlaps(cells.drop_last());
        if overlaps_any(kept, cells.last()) {
            kept
        } else {
            kept.push(cells.last())
        }
    }
}

/// The first of `cells` that takes the position.
pub open spec fn first_at(cells: Seq<GridCell>, row: int, col: int) -> Option<GridCell>
    decreases cells.len(),
{
    if cells.len() == 0 {
        None
    } else if cells[0].occupies(row, col) {
        Some(cells[0])
    } else {
        first_at(cells.drop_first(), row, col)
    }
}

/// Whether a search of `cells` for the position stays within `usize` on every cell
/// that it reaches.
pub open spec fn search_fits(cells: Seq<GridCell>, row: int, col: int) -> bool
    decreases cells.len(),
{
    cells.len() > 0 ==> {
        &&& cells[0].edges_fit(row, col)
        &&& !cells[0].occupies(row, col) ==> search_fits(cells.drop_first(), row, col)
    }
}

/// Whether a cell stays when `connection` is put at the position.
pub open spec fn stays(connection: Id, row: int, col: int) -> spec_fn(GridCell) -> bool {
    |cell: GridCell| cell.connection != connection && !cell.occupies(row, col)
}

/// Whether a cell shows another connection.
pub open spec fn shows_other(connection: Id) -> spec_fn(GridCell) -> bool {
    |cell: GridCell| cell.connection != connection
}

/// A cell of one position.
pub open spec fn single_cell(row: usize, col: usize, connection: Id) -> GridCell {
    GridCell { row, col, row_span: 1, col_span: 1, connection }
}

impl GridSpec {
    /// The grid after it was made safe to draw.
    pub open spec fn clamped(self) -> GridSpec {
        let rows = at_least_one(self.rows);
        let cols = at_least_one(self.cols);
        GridSpec {
            rows,
            cols,
            cells: without_overlaps(
                self.cells.filter(starts_inside(rows, cols)).map_values(cut_to(rows, cols)),
            ),
            ..self
        }
    }

    /// The grid with `connection` at the position and nowhere else.
    pub open spec fn placed(self, connection: Id, row: usize, col: usize) -> GridSpec {
        GridSpec {
            cells: self.cells.filter(stays(connection, row as int, col as int)).push(
                single_cell(row, col, connection),
            ),
            ..self
        }
    }

    /// The grid without `connection`.
    pub open spec fn without(self, connection: Id) -> GridSpec {
        GridSpec { cells: self.cells.filter(shows_other(connection)), ..self }
    }

    /// Safe to draw: at least one row and column, every cell inside the grid, and no
    /// position taken twice.
    pub open spec fn drawable(self) -> bool {
        &&& self.rows >= 1
        &&& self.cols >= 1
        &&& forall|i: int|
            0 <= i < self.cells.len() ==> (#[trigger] self.cells[i]).inside(self.rows, self.cols)
        &&& forall|i: int, j: int|
            0 <= i < j < self.cells.len() ==> !(#[trigger] self.cells[i]).overlaps(
                #[trigger] self.cells[j],
            )
    }

    /// Whether testing every cell for the position stays within `usize`.
    pub open spec fn edges_fit(self, row: usize, col: usize) -> bool {
        forall|i: int|
            0 <= i < self.cells.len() ==> (#[trigger] self.cells[i]).edges_fit(
                row as int,
                col as int,
            )
    }

    /// Whether the tests that [`GridView::place`] makes stay within `usize`.
    pub open spec fn place_fits(self, connection: Id, row: usize, col: usize) -> bool {
        forall|i: int|
            0 <= i < self.cells.len() && (#[trigger] self.cells[i]).connection != connection
                ==> self.cells[i].edges_fit(row as int, col as int)
    }
}

/// Two cells overlap exactly where their rows meet and their columns meet.
pub proof fn lemma_overlaps(a: GridCell, b: GridCell)
    ensures
        a.overlaps(b) == (intervals_meet(a.row as int, a.height(), b.row as int, b.height())
            && intervals_meet(a.col as int, a.width(), b.col as int, b.width())),
        a.overlaps(b) == b.overlaps(a),
{
    let row = if a.row >= b.row {
        a.row as int
    } else {
        b.row as int
    };
    let col = if a.col >= b.col {
        a.col as int
    } else {
        b.col as int
    };
    if intervals_meet(a.row as int, a.height(), b.row as int, b.height()) && intervals_meet(
        a.col as int,
        a.width(),
        b.col as int,
        b.width(),
    ) {
        assert(a.occupies(row, col) && b.occupies(row, col));
        assert(b.occupies(row, col) && a.occupies(row, col));
    }
    if a.overlaps(b) {
        let (r, c) = choose|r: int, c: int| #[trigger] a.occupies(r, c) && #[trigger] b.occupies(r, c);
        assert(b.occupies(r, c) && a.occupies(r, c));
    }
    if b.overlaps(a) {
        let (r, c) = choose|r: int, c: int| #[trigger] b.occupies(r, c) && #[trigger] a.occupies(r, c);
        assert(a.occupies(r, c) && b.occupies(r, c));
    }
}

/// The larger of `n` and one.
fn max_one(n: usize) -> (r: usize)
    ensures
        r == at_least_one(n),
{
    if n < 1 {
        1
    } else {
        n
    }
}

/// The smaller of two numbers.
fn smaller(a: usize, b: usize) -> (r: usize)
    ensures
        r == (if a <= b {
            a
        } else {
            b
        }),
{
    if a <= b {
        a
    } else {
        b
    }
}

impl GridCell {
    pub fn new(row: usize, col: usize, connection: Id) -> (cell: GridCell)
        ensures
            cell == single_cell(row, col, connection),
    {
        GridCell { row, col, row_span: 1, col_span: 1, connection }
    }

    /// Whether the position is one of those that the cell takes.
    pub fn covers(&self, row: usize, col: usize) -> (yes: bool)
        requires
            self.edges_fit(row as int, col as int),
        ensures
            yes == self.occupies(row as int, col as int),
    {
        row >= self.row && row < self.row + max_one(self.row_span) && col >= self.col && col
            < self.col + max_one(self.col_span)
    }
}

impl GridCell {
    /// Whether [`GridCell::covers`] can be asked about the position.
    pub fn can_cover(&self, row: usize, col: usize) -> (ok: bool)
        ensures
            ok == self.edges_fit(row as int, col as int),
    {
        let height = max_one(self.row_span);
        let width = max_one(self.col_span);
        if row < self.row {
            return true;
        }
        if self.row > usize::MAX - height {
            return false;
        }
        row >= self.row + height || col < self.col || self.col <= usize::MAX - width
    }
}

/// Whether two cells inside a grid overlap.
fn cells_meet(a: &GridCell, b: &GridCell, Ghost(rows): Ghost<usize>, Ghost(cols): Ghost<usize>) -> (yes: bool)
    requires
        a.inside(rows, cols),
        b.inside(rows, cols),
    ensures
        yes == a.overlaps(*b),
{
    proof {
        lemma_overlaps(*a, *b);
    }
    a.row < b.row + b.row_span && b.row < a.row + a.row_span && a.col < b.col + b.col_span && b.col
        < a.col + a.col_span
}

impl Clone for GridView {
    fn clone(&self) -> (copy: GridView)
        ensures
            copy@ == self@,
    {
        let mut cells: Vec<GridCell> = Vec::new();
        let mut i: usize = 0;
        while i < self.cells.len()
            invariant
                i <= self.cells@.len(),
                cells@ == self.cells@.take(i as int),
            decreases self.cells@.len() - i,
        {
            cells.push(self.cells[i]);
            i += 1;
        }
        assert(self.cells@.take(i as int) =~= self.cells@);
        GridView { id: self.id, name: self.name.clone(), rows: self.rows, cols: self.cols, cells }
    }
}

impl GridView {
    /// An empty grid with a fresh id and at least one row and one column.
    pub fn new(name: &str, rows: usize, cols: usize) -> (grid: GridView)
        ensures
            is_random_uuid(grid.id.bits),
            grid@ == (GridSpec {
                id: grid.id,
                name: name@,
                rows: at_least_one(rows),
                cols: at_least_one(cols),
                cells: Seq::empty(),
            }),
    {
        GridView {
            id: Id::new_v4(),
            name: name.to_owned(),
            rows: max_one(rows),
            cols: max_one(cols),
            cells: Vec::new(),
        }
    }

    /// The cell at a position, if one takes it.
    pub fn cell_at(&self, row: usize, col: usize) -> (cell: Option<&GridCell>)
        requires
            search_fits(self@.cells, row as int, col as int),
        ensures
            (match cell {
                Some(c) => Some(*c),
                None => None,
            }) == first_at(self@.cells, row as int, col as int),
    {
        let ghost cells = self.cells@;
        let mut i: usize = 0;
        assert(cells.skip(0) =~= cells);
        while i < self.cells.len()
            invariant
                i <= self.cells@.len(),
                cells == self.cells@,
                search_fits(cells.skip(i as int), row as int, col as int),
                first_at(cells, row as int, col as int) == first_at(
                    cells.skip(i as int),
                    row as int,
                    col as int,
                ),
            decreases self.cells@.len() - i,
        {
            assert(cells.skip(i as int).drop_first() =~= cells.skip(i + 1));
            if self.cells[i].covers(row, col) {
                return Some(&self.cells[i]);
            }
            i += 1;
        }
        None
    }

    /// Whether [`GridView::cell_at`] can be asked about the position.
    pub fn can_search(&self, row: usize, col: usize) -> (ok: bool)
        ensures
            ok == search_fits(self@.cells, row as int, col as int),
    {
        let ghost cells = self.cells@;
        let mut i: usize = 0;
        assert(cells.skip(0) =~= cells);
        while i < self.cells.len()
            invariant
                i <= self.cells@.len(),
                cells == self.cells@,
                search_fits(cells, row as int, col as int) == search_fits(
                    cells.skip(i as int),
                    row as int,
                    col as int,
                ),
            decreases self.cells@.len() - i,
        {
            assert(cells.skip(i as int).drop_first() =~= cells.skip(i + 1));
            if !self.cells[i].can_cover(row, col) {
                return false;
            }
            if self.cells[i].covers(row, col) {
                return true;
            }
            i += 1;
        }
        true
    }

    /// Whether every cell can be asked about the position.
    pub fn can_cover(&self, row: usize, col: usize) -> (ok: bool)
        ensures
            ok == self@.edges_fit(row, col),
    {
        let mut i: usize = 0;
        while i < self.cells.len()
            invariant
                i <= self.cells@.len(),
                forall|k: int|
                    0 <= k < i ==> (#[trigger] self.cells@[k]).edges_fit(row as int, col as int),
            decreases self.cells@.len() - i,
        {
            if !self.cells[i].can_cover(row, col) {
                assert(!self@.cells[i as int].edges_fit(row as int, col as int));
                return false;
            }
            i += 1;
        }
        true
    }

    /// Puts `connection` at a position, evicting whatever occupied it.
    pub fn place(&mut self, connection: Id, row: usize, col: usize)
        requires
            old(self)@.place_fits(connection, row, col),
        ensures
            final(self)@ == old(self)@.placed(connection, row, col),
    {
        let ghost pred = stays(connection, row as int, col as int);
        let mut kept: Vec<GridCell> = Vec::new();
        let mut i: usize = 0;
        assert(kept@ =~= self.cells@.take(0).filter(pred)) by {
            reveal(Seq::filter);
        }
        while i < self.cells.len()
            invariant
                i <= self.cells@.len(),
                *self == *old(self),
                self@.place_fits(connection, row, col),
                pred == stays(connection, row as int, col as int),
                kept@ == self.cells@.take(i as int).filter(pred),
            decreases self.cells@.len() - i,
        {
            let cell = self.cells[i];
            proof {
                reveal(Seq::filter);
                assert(self.cells@.take(i + 1).drop_last() =~= self.cells@.take(i as int));
                assert(self@.cells[i as int] == cell);
            }
            if cell.connection != connection && !cell.covers(row, col) {
                kept.push(cell);
            }
            i += 1;
        }
        assert(self.cells@.take(i as int) =~= self.cells@);
        kept.push(GridCell::new(row, col, connection));
        self.cells = kept;
    }

    /// Takes `connection` off the grid.
    pub fn remove(&mut self, connection: Id)
        ensures
            final(self)@ == old(self)@.without(connection),
    {
        let ghost pred = shows_other(connection);
        let mut kept: Vec<GridCell> = Vec::new();
        let mut i: usize = 0;
        assert(kept@ =~= self.cells@.take(0).filter(pred)) by {
            reveal(Seq::filter);
        }
        while i < self.cells.len()
            invariant
                i <= self.cells@.len(),
                *self == *old(self),
                pred == shows_other(connection),
                kept@ == self.cells@.take(i as int).filter(pred),
            decreases self.cells@.len() - i,
        {
            let cell = self.cells[i];
            proof {
                reveal(Seq::filter);
                assert(self.cells@.take(i + 1).drop_last() =~= self.cells@.take(i as int));
            }
            if cell.connection != connection {
                kept.push(cell);
            }
            i += 1;
        }
        assert(self.cells@.take(i as int) =~= self.cells@);
        self.cells = kept;
    }

    /// Drops placements that fell outside the grid after a resize, and any that
    /// an earlier cell's span already covers. Hand-edited files can overlap;
    /// without this they would be drawn on top of each other.
    pub fn clamp(&mut self)
        ensures
            final(self)@ == old(self)@.clamped(),
    {
        let rows = max_one(self.rows);
        let cols = max_one(self.cols);
        let ghost cells = self.cells@;
        let ghost pred = starts_inside(rows, cols);
        let ghost cut = cut_to(rows, cols);
        let mut kept: Vec<GridCell> = Vec::new();
        let mut i: usize = 0;
        assert(cells.take(0).filter(pred).map_values(cut) =~= Seq::<GridCell>::empty()) by {
            reveal(Seq::filter);
        }
        while i < self.cells.len()
            invariant
                i <= self.cells@.len(),
                *self == *old(self),
                cells == self.cells@,
                pred == starts_inside(rows, cols),
                cut == cut_to(rows, cols),
                kept@ == without_overlaps(cells.take(i as int).filter(pred).map_values(cut)),
                forall|k: int| 0 <= k < kept@.len() ==> (#[trigger] kept@[k]).inside(rows, cols),
            decreases self.cells@.len() - i,
        {
            let mut cell = self.cells[i];
            let ghost before = cells.take(i as int).filter(pred);
            let ghost after = cells.take(i + 1).filter(pred);
            proof {
                reveal(Seq::filter);
                assert(cells.take(i + 1).drop_last() =~= cells.take(i as int));
            }
            if cell.row < rows && cell.col < cols {
                assert(after == before.push(cell));
                cell.row_span = smaller(max_one(cell.row_span), rows - cell.row);
                cell.col_span = smaller(max_one(cell.col_span), cols - cell.col);
                assert(cell == cut(cells[i as int]));
                proof {
                    let all = after.map_values(cut);
                    assert(all.drop_last() =~= before.map_values(cut));
                    assert(all.last() == cell);
                }
                let mut overlaps = false;
                let mut k: usize = 0;
                while k < kept.len()
                    invariant
                        k <= kept@.len(),
                        cell.inside(rows, cols),
                        forall|m: int|
                            0 <= m < kept@.len() ==> (#[trigger] kept@[m]).inside(rows, cols),
                        overlaps == (exists|m: int|
                            0 <= m < k && cell.overlaps(#[trigger] kept@[m])),
                    decreases kept@.len() - k,
                {
                    if cells_meet(&cell, &kept[k], Ghost(rows), Ghost(cols)) {
                        overlaps = true;
                        assert(cell.overlaps(kept@[k as int]));
                    }
                    k += 1;
                }
                if !overlaps {
                    kept.push(cell);
                }
            }
            i += 1;
        }
        assert(cells.take(i as int) =~= cells);
        self.rows = rows;
        self.cols = cols;
        self.cells = kept;
    }
}

} // verus!

//! Saved walls in the window: showing them, changing a working copy, and saving the wall.

use crate::connection::{Connection, ConnectionSpec};
use crate::grid::{at_least_one, single_cell, stays, GridCell, GridSpec, GridView};
use crate::id::{is_random_uuid, Id};
use crate::library::{grid_specs, LibrarySpec};
use crate::text::{decimal, decimal_text};
use crate::tree::connection_specs;
use crate::wall::{columns_for, div_ceil, div_up, grid_columns, law_grid_is_squarest};
use crate::window::{
    known, open_all, position, position_of, AppSpec, Change, Effects, EffectsSpec, PlayerApp,
};
use vstd::prelude::*;
use vstd::string::StringExecFns;

verus! {

/// The connections that cells show.
pub open spec fn shown(cells: Seq<GridCell>) -> Seq<Id> {
    cells.map_values(|cell: GridCell| cell.connection)
}

/// A grid with the first `n` of some streams placed left to right, row by row.
pub open spec fn filled(grid: GridSpec, ids: Seq<Id>, columns: int, n: int) -> GridSpec
    decreases n,
{
    if n <= 0 {
        grid
    } else {
        filled(grid, ids, columns, n - 1).placed(
            ids[n - 1],
            ((n - 1) / columns) as usize,
            ((n - 1) % columns) as usize,
        )
    }
}

/// `n` moved by `by`, held between zero and the largest number.
pub open spec fn moved_by(n: usize, by: isize) -> usize {
    if n + by < 0 {
        0
    } else if n + by > usize::MAX {
        usize::MAX
    } else {
        (n + by) as usize
    }
}

/// The connections that are evicted when another is put at a position.
pub open spec fn evicted(cells: Seq<GridCell>, connection: Id, row: int, col: int) -> Seq<Id> {
    shown(
        cells.filter(
            |cell: GridCell| cell.occupies(row, col) && cell.connection != connection,
        ),
    )
}

/// `ids` without the first of each of `gone`, and which of them were there.
pub open spec fn without_each(ids: Seq<Id>, gone: Seq<Id>) -> (Seq<Id>, Seq<Id>)
    decreases gone.len(),
{
    if gone.len() == 0 {
        (ids, Seq::empty())
    } else {
        let (left, closed) = without_each(ids, gone.drop_last());
        match position(left, gone.last(), 0) {
            Some(at) => (left.remove(at), closed.push(gone.last())),
            None => (left, closed),
        }
    }
}

impl AppSpec {
    /// After loading a saved wall: exactly its connections are open.
    pub open spec fn loaded_view(self, id: Id) -> Change {
        match self.library.view(id) {
            None => self.same(),
            Some(view) => {
                let (open, started) = open_all(
                    Seq::empty(),
                    known(self.library, shown(view.cells)),
                );
                Change {
                    app: AppSpec {
                        library: LibrarySpec { active_view: Some(id), ..self.library },
                        draft: None,
                        open,
                        ..self
                    }.saved(),
                    effects: EffectsSpec { closed: self.open, started, ..EffectsSpec::saving() },
                }
            },
        }
    }

    /// After leaving a saved wall: nothing is open.
    pub open spec fn closed_view(self) -> Change {
        Change {
            app: AppSpec {
                library: LibrarySpec { active_view: None, ..self.library },
                draft: None,
                open: Seq::empty(),
                ..self
            }.saved(),
            effects: EffectsSpec { closed: self.open, ..EffectsSpec::saving() },
        }
    }

    /// What is on the wall, as a saved wall with that id.
    pub open spec fn snapshot(self, id: Id) -> GridSpec {
        let count = self.open.len() as int;
        let columns = columns_for(count);
        filled(
            GridSpec {
                id,
                name: "View "@ + decimal(self.library.views.len() as int + 1),
                rows: at_least_one(div_up(count, columns) as usize),
                cols: at_least_one(columns as usize),
                cells: Seq::empty(),
            },
            self.open,
            columns,
            count,
        )
    }

    /// After saving the wall under that id. An empty one is refused.
    pub open spec fn saved_wall(self, id: Id) -> Change {
        if self.open.len() == 0 {
            AppSpec { error: Some("Open some streams first."@), ..self }.same()
        } else {
            Change {
                app: AppSpec {
                    library: LibrarySpec {
                        views: self.library.views.push(self.snapshot(id)),
                        active_view: Some(id),
                        ..self.library
                    },
                    error: None,
                    ..self
                }.saved(),
                effects: EffectsSpec::saving(),
            }
        }
    }

    /// The saved wall that is active, if it exists.
    pub open spec fn active_saved(self) -> Option<GridSpec> {
        match self.library.active_view {
            Some(id) => self.library.view(id),
            None => None,
        }
    }

    /// The grid on screen: the draft while editing, otherwise the saved view.
    pub open spec fn active_grid(self) -> Option<GridSpec> {
        if self.draft is Some {
            self.draft
        } else {
            self.active_saved()
        }
    }

    /// After unlocking the active wall.
    pub open spec fn begun_edit(self) -> AppSpec {
        if self.draft is Some {
            self
        } else {
            AppSpec { draft: self.active_saved(), ..self }
        }
    }

    /// After writing the working copy back.
    pub open spec fn committed_edit(self) -> Change {
        match self.draft {
            None => self.same(),
            Some(draft) => Change {
                app: AppSpec {
                    library: LibrarySpec {
                        views: match crate::library::view_index(self.library.views, draft.id, 0) {
                            Some(k) => self.library.views.update(k, draft),
                            None => self.library.views,
                        },
                        ..self.library
                    },
                    draft: None,
                    ..self
                }.saved(),
                effects: EffectsSpec::saving(),
            },
        }
    }

    /// After throwing the working copy away.
    pub open spec fn cancelled_edit(self) -> Change {
        let app = AppSpec { draft: None, ..self };
        match (self.draft, self.library.active_view) {
            (Some(_), Some(id)) => app.loaded_view(id),
            _ => app.same(),
        }
    }

    /// After changing the size of the working copy.
    pub open spec fn resized_view(self, rows: isize, cols: isize) -> AppSpec {
        match self.draft {
            None => self,
            Some(draft) => AppSpec {
                draft: Some(
                    GridSpec {
                        rows: at_least_one(moved_by(draft.rows, rows)),
                        cols: at_least_one(moved_by(draft.cols, cols)),
                        ..draft
                    }.clamped(),
                ),
                ..self
            },
        }
    }

    /// After putting a connection at a position of the working copy. What sat there is closed;
    /// the connection is opened if it is not.
    pub open spec fn placed_in_view(self, connection: Id, row: usize, col: usize) -> Change {
        match self.draft {
            None => self.same(),
            Some(draft) => {
                let gone = evicted(draft.cells, connection, row as int, col as int);
                let (left, closed) = without_each(self.open, gone);
                let (open, started) = open_all(
                    left,
                    match self.library.connection(connection) {
                        Some(c) => seq![c],
                        None => Seq::empty(),
                    },
                );
                Change {
                    app: AppSpec {
                        draft: Some(draft.placed(connection, row, col)),
                        open,
                        ..self
                    },
                    effects: EffectsSpec { closed, started, ..EffectsSpec::none() },
                }
            },
        }
    }

    /// After deleting a saved wall. If it was on screen, its streams close.
    pub open spec fn deleted_view(self, id: Id) -> Change {
        let library = LibrarySpec {
            views: self.library.views.filter(|view: GridSpec| view.id != id),
            ..self.library
        };
        if self.library.active_view == Some(id) {
            Change {
                app: AppSpec {
                    library: LibrarySpec { active_view: None, ..library },
                    open: Seq::empty(),
                    ..self
                }.saved(),
                effects: EffectsSpec { closed: self.open, ..EffectsSpec::saving() },
            }
        } else {
            Change { app: self.with_library(library), effects: EffectsSpec::saving() }
        }
    }

    /// After dragging a tile onto another: it stands in front of the other.
    pub open spec fn reordered(self, dragged: Id, target: Id) -> Change {
        match position(self.open, dragged, 0) {
            Some(from) if dragged != target => {
                let others = self.open.remove(from);
                match position(others, target, 0) {
                    Some(to) => Change {
                        app: AppSpec { open: others.insert(to, dragged), ..self }.saved(),
                        effects: EffectsSpec::saving(),
                    },
                    None => self.same(),
                }
            },
            _ => self.same(),
        }
    }

    /// After closing a stream. It leaves the working copy too.
    pub open spec fn closed_stream(self, id: Id) -> Change {
        match position(self.open, id, 0) {
            None => self.same(),
            Some(at) => Change {
                app: AppSpec {
                    open: self.open.remove(at),
                    draft: match self.draft {
                        Some(draft) => Some(draft.without(id)),
                        None => None,
                    },
                    ..self
                }.saved(),
                effects: EffectsSpec { closed: seq![id], ..EffectsSpec::saving() },
            },
        }
    }

    /// After the cursor entered or left a tile. The next tile's enter arrives before this
    /// one's leave, so a tile may only clear the hover while it still owns it.
    pub open spec fn hovered(self, id: Id, entered: bool) -> AppSpec {
        if entered {
            AppSpec { hovered_tile: Some(id), ..self }
        } else if self.hovered_tile == Some(id) {
            AppSpec { hovered_tile: None, ..self }
        } else {
            self
        }
    }
}

/// The connections that cells show.
fn shown_ids(cells: &Vec<GridCell>) -> (ids: Vec<Id>)
    ensures
        ids@ == shown(cells@),
{
    let mut ids: Vec<Id> = Vec::new();
    let mut i: usize = 0;
    while i < cells.len()
        invariant
            i <= cells@.len(),
            ids@ == shown(cells@.take(i as int)),
        decreases cells@.len() - i,
    {
        ids.push(cells[i].connection);
        assert(ids@ =~= shown(cells@.take(i + 1)));
        i += 1;
    }
    assert(cells@.take(i as int) =~= cells@);
    ids
}

/// `n` moved by `by`, held between zero and the largest number, and at least one.
fn stepped(n: usize, by: isize) -> (r: usize)
    ensures
        r == at_least_one(moved_by(n, by)),
{
    let wide = n as i128 + by as i128;
    if wide < 1 {
        1
    } else if wide > usize::MAX as i128 {
        usize::MAX
    } else {
        wide as usize
    }
}

/// The connections that are evicted when another is put at a position.
fn evicted_ids(grid: &GridView, connection: Id, row: usize, col: usize) -> (ids: Vec<Id>)
    requires
        grid@.edges_fit(row, col),
    ensures
        ids@ == evicted(grid@.cells, connection, row as int, col as int),
{
    let ghost cells = grid@.cells;
    let ghost pred = |cell: GridCell|
        cell.occupies(row as int, col as int) && cell.connection != connection;
    let mut ids: Vec<Id> = Vec::new();
    let mut i: usize = 0;
    assert(ids@ =~= shown(cells.take(0).filter(pred))) by {
        reveal(Seq::filter);
    }
    while i < grid.cells.len()
        invariant
            i <= grid.cells@.len(),
            cells == grid@.cells,
            grid@.edges_fit(row, col),
            pred == (|cell: GridCell|
                cell.occupies(row as int, col as int) && cell.connection != connection),
            ids@ == shown(cells.take(i as int).filter(pred)),
        decreases grid.cells@.len() - i,
    {
        let cell = grid.cells[i];
        let ghost before = cells.take(i as int).filter(pred);
        proof {
            reveal(Seq::filter);
            assert(cells.take(i + 1).drop_last() =~= cells.take(i as int));
            assert(grid@.cells[i as int] == cell);
        }
        if cell.covers(row, col) && cell.connection != connection {
            ids.push(cell.connection);
            assert(ids@ =~= shown(before.push(cell)));
        }
        i += 1;
    }
    assert(cells.take(i as int) =~= cells);
    ids
}

/// A row number stays below the number of tiles.
proof fn lemma_quotient_below(i: int, columns: int)
    requires
        0 <= i,
        columns >= 1,
    ensures
        0 <= i / columns <= i,
        0 <= i % columns < columns,
{
    vstd::arithmetic::div_mod::lemma_fundamental_div_mod(i, columns);
    vstd::arithmetic::div_mod::lemma_div_pos_is_pos(i, columns);
    assert(i / columns <= i) by (nonlinear_arith)
        requires
            i == columns * (i / columns) + i % columns,
            i % columns >= 0,
            columns >= 1,
            i / columns >= 0,
    ;
}

/// The cells after placing are cells from before and the new one.
proof fn lemma_placed_cells(grid: GridSpec, connection: Id, row: usize, col: usize)
    ensures
        forall|k: int|
            0 <= k < grid.placed(connection, row, col).cells.len() ==> {
                let cell = #[trigger] grid.placed(connection, row, col).cells[k];
                cell == single_cell(row, col, connection) || grid.cells.contains(cell)
            },
{
    let pred = stays(connection, row as int, col as int);
    let kept = grid.cells.filter(pred);
    let all = grid.placed(connection, row, col).cells;
    assert forall|k: int| 0 <= k < all.len() implies {
        let cell = #[trigger] all[k];
        cell == single_cell(row, col, connection) || grid.cells.contains(cell)
    } by {
        if k < kept.len() {
            assert(all[k] == kept[k]);
            assert(kept.contains(kept[k]));
            grid.cells.lemma_filter_contains_rev(pred, kept[k]);
        }
    }
}

/// Filling a grid leaves its own fields as they are.
proof fn lemma_filled_keeps_id(grid: GridSpec, ids: Seq<Id>, columns: int, n: int)
    ensures
        filled(grid, ids, columns, n) == (GridSpec {
            cells: filled(grid, ids, columns, n).cells,
            ..grid
        }),
    decreases n,
{
    if n > 0 {
        lemma_filled_keeps_id(grid, ids, columns, n - 1);
    }
}

impl PlayerApp {
    /// Loads a saved wall: opens exactly its connections and shows them at the
    /// positions the view records.
    pub fn load_view(&mut self, id: Id) -> (effects: Effects)
        ensures
            (Change { app: final(self)@, effects: effects@ }) == old(self)@.loaded_view(id),
    {
        let wanted = match self.library.view(id) {
            Some(view) => shown_ids(&view.cells),
            None => return Effects::none(),
        };
        let connections = self.connections_of(&wanted);
        self.draft = None;
        let mut effects = Effects::saving();
        effects.closed = self.close_all();
        effects.started = self.push_streams(connections);
        self.library.active_view = Some(id);
        self.note_open();
        proof {
            assert(self@ =~= old(self)@.loaded_view(id).app);
            assert(effects@ =~= old(self)@.loaded_view(id).effects);
        }
        effects
    }

    /// Leaves the wall on screen.
    pub fn close_view(&mut self) -> (effects: Effects)
        ensures
            (Change { app: final(self)@, effects: effects@ }) == old(self)@.closed_view(),
    {
        self.draft = None;
        self.library.active_view = None;
        let mut effects = Effects::saving();
        effects.closed = self.close_all();
        self.note_open();
        effects
    }

    /// Snapshots what is on the wall into a new saved view, filling the grid
    /// left to right.
    pub fn save_wall_as_view(&mut self) -> (effects: Effects)
        ensures
            old(self)@.open.len() == 0 ==> forall|id: Id|
                (Change { app: final(self)@, effects: effects@ }) == #[trigger] old(
                    self,
                )@.saved_wall(id),
            old(self)@.open.len() > 0 ==> {
                &&& final(self)@.library.active_view matches Some(id)
                &&& is_random_uuid(id.bits)
                &&& (Change { app: final(self)@, effects: effects@ }) == old(self)@.saved_wall(id)
            },
    {
        if self.open.len() == 0 {
            self.error = Some("Open some streams first.".to_owned());
            return Effects::none();
        }
        let count = self.open.len();
        let columns = grid_columns(count);
        proof {
            law_grid_is_squarest(count as int, columns as int);
        }
        let rows = div_ceil(count, columns);
        let number = decimal_text(self.library.views.len() as u128 + 1);
        let name = "View ".to_owned().concat(number.as_str());
        let mut view = GridView::new(name.as_str(), rows, columns);
        let ghost blank = view@;
        let mut i: usize = 0;
        while i < count
            invariant
                i <= count,
                count == self.open@.len(),
                columns >= 1,
                *self == *old(self),
                view@ == filled(blank, self@.open, columns as int, i as int),
                blank.cells.len() == 0,
                forall|k: int| 0 <= k < view@.cells.len() ==> (#[trigger] view@.cells[k]).row_span
                    == 1 && view@.cells[k].col_span == 1 && view@.cells[k].row < count
                    && view@.cells[k].col < columns,
            decreases count - i,
        {
            let row = i / columns;
            let col = i % columns;
            proof {
                lemma_quotient_below(i as int, columns as int);
            }
            let ghost before = view@;
            view.place(self.open[i], row, col);
            proof {
                lemma_placed_cells(before, self.open@[i as int], row, col);
            }
            i += 1;
        }
        let id = view.id;
        let ghost views = grid_specs(self.library.views@);
        self.library.views.push(view);
        assert(grid_specs(self.library.views@) =~= views.push(view@));
        self.library.active_view = Some(id);
        self.error = None;
        self.note_open();
        proof {
            lemma_filled_keeps_id(blank, old(self)@.open, columns as int, count as int);
            assert(self@ =~= old(self)@.saved_wall(id).app);
        }
        Effects::saving()
    }

    /// Puts a connection at a grid position, starting its stream if needed.
    pub fn place_in_view(&mut self, connection: Id, row: usize, col: usize) -> (effects: Effects)
        requires
            old(self)@.draft matches Some(draft) ==> draft.edges_fit(row, col),
        ensures
            (Change { app: final(self)@, effects: effects@ }) == old(self)@.placed_in_view(
                connection,
                row,
                col,
            ),
    {
        let mut effects = Effects::none();
        let gone = match &mut self.draft {
            Some(draft) => {
                let gone = evicted_ids(draft, connection, row, col);
                draft.place(connection, row, col);
                gone
            },
            None => return effects,
        };
        effects.closed = self.close_each(&gone);
        let mut found: Vec<Connection> = Vec::new();
        assert(connection_specs(found@) =~= Seq::<ConnectionSpec>::empty());
        if let Some(connection) = self.library.connection(connection) {
            found.push(connection.clone());
            assert(connection_specs(found@) =~= seq![connection@]);
        }
        effects.started = self.push_streams(found);
        proof {
            let change = old(self)@.placed_in_view(connection, row, col);
            assert(self@ =~= change.app);
            assert(effects@ =~= change.effects);
        }
        effects
    }

    /// Puts a dragged row at a grid position if it is a connection.
    pub fn place_node_in_view(&mut self, node: Id, row: usize, col: usize) -> (effects: Effects)
        requires
            old(self)@.library.connection(node) is Some ==> (old(self)@.draft matches Some(draft)
                ==> draft.edges_fit(row, col)),
        ensures
            (Change { app: final(self)@, effects: effects@ }) == if old(self)@.library.connection(node) is Some {
                old(self)@.placed_in_view(node, row, col)
            } else {
                old(self)@.same()
            },
    {
        if self.library.connection(node).is_some() {
            self.place_in_view(node, row, col)
        } else {
            Effects::none()
        }
    }

    /// Stops the first stream with each of those ids.
    fn close_each(&mut self, gone: &Vec<Id>) -> (closed: Vec<Id>)
        ensures
            ({
                let (left, out) = without_each(old(self)@.open, gone@);
                &&& final(self)@ == (AppSpec { open: left, ..old(self)@ })
                &&& closed@ == out
            }),
    {
        let mut closed: Vec<Id> = Vec::new();
        let mut i: usize = 0;
        assert(gone@.take(0) =~= Seq::<Id>::empty());
        while i < gone.len()
            invariant
                i <= gone@.len(),
                ({
                    let (left, out) = without_each(old(self)@.open, gone@.take(i as int));
                    &&& self@ == (AppSpec { open: left, ..old(self)@ })
                    &&& closed@ == out
                }),
            decreases gone@.len() - i,
        {
            assert(gone@.take(i + 1).drop_last() =~= gone@.take(i as int));
            if let Some(at) = position_of(&self.open, gone[i]) {
                let id = self.open.remove(at);
                closed.push(id);
            }
            i += 1;
        }
        assert(gone@.take(i as int) =~= gone@);
        closed
    }

    /// Deletes a saved wall.
    pub fn delete_view(&mut self, id: Id) -> (effects: Effects)
        ensures
            (Change { app: final(self)@, effects: effects@ }) == old(self)@.deleted_view(id),
    {
        let ghost views = self.library.model().views;
        let ghost pred = |view: GridSpec| view.id != id;
        let mut kept: Vec<GridView> = Vec::new();
        let mut i: usize = 0;
        assert(grid_specs(kept@) =~= views.take(0).filter(pred)) by {
            reveal(Seq::filter);
        }
        while i < self.library.views.len()
            invariant
                i <= self.library.views@.len(),
                *self == *old(self),
                views == grid_specs(self.library.views@),
                pred == (|view: GridSpec| view.id != id),
                grid_specs(kept@) == views.take(i as int).filter(pred),
            decreases self.library.views@.len() - i,
        {
            proof {
                reveal(Seq::filter);
                assert(views.take(i + 1).drop_last() =~= views.take(i as int));
            }
            if self.library.views[i].id != id {
                let ghost before = grid_specs(kept@);
                let view = self.library.views[i].clone();
                kept.push(view);
                assert(grid_specs(kept@) =~= before.push(view@));
            }
            i += 1;
        }
        assert(views.take(i as int) =~= views);
        self.library.views = kept;
        let mut effects = Effects::saving();
        if self.library.active_view == Some(id) {
            self.library.active_view = None;
            effects.closed = self.close_all();
        }
        self.note_open();
        proof {
            assert(self@ =~= old(self)@.deleted_view(id).app);
            assert(effects@ =~= old(self)@.deleted_view(id).effects);
        }
        effects
    }

    /// The grid on screen: the draft while editing, otherwise the saved view.
    pub fn active_grid(&self) -> (grid: Option<&GridView>)
        ensures
            (match grid {
                Some(g) => Some(g@),
                None => None,
            }) == self@.active_grid(),
    {
        match &self.draft {
            Some(draft) => Some(draft),
            None => match self.library.active_view {
                Some(id) => self.library.view(id),
                None => None,
            },
        }
    }

    pub fn editing(&self) -> (yes: bool)
        ensures
            yes == (self@.draft is Some),
    {
        self.draft.is_some()
    }

    /// Unlocks the active wall for editing by taking a working copy.
    pub fn begin_edit(&mut self)
        ensures
            final(self)@ == old(self)@.begun_edit(),
    {
        if self.draft.is_some() {
            return;
        }
        if let Some(id) = self.library.active_view {
            let copy = match self.library.view(id) {
                Some(view) => Some(view.clone()),
                None => None,
            };
            self.draft = copy;
        }
    }

    /// Writes the working copy back and locks the wall again.
    pub fn commit_edit(&mut self) -> (effects: Effects)
        ensures
            (Change { app: final(self)@, effects: effects@ }) == old(self)@.committed_edit(),
    {
        let draft = match self.draft.take() {
            Some(draft) => draft,
            None => return Effects::none(),
        };
        if let Some(view) = self.library.view_mut(draft.id) {
            *view = draft;
        }
        self.note_open();
        Effects::saving()
    }

    /// Throws the working copy away and replays the saved wall.
    pub fn cancel_edit(&mut self) -> (effects: Effects)
        ensures
            (Change { app: final(self)@, effects: effects@ }) == old(self)@.cancelled_edit(),
    {
        if self.draft.take().is_none() {
            return Effects::none();
        }
        match self.library.active_view {
            Some(id) => self.load_view(id),
            None => Effects::none(),
        }
    }

    /// Changes the size of the working copy.
    pub fn resize_view(&mut self, rows: isize, cols: isize)
        ensures
            final(self)@ == old(self)@.resized_view(rows, cols),
    {
        if let Some(draft) = &mut self.draft {
            draft.rows = stepped(draft.rows, rows);
            draft.cols = stepped(draft.cols, cols);
            draft.clamp();
        }
    }

    /// Moves an open tile in front of another, so the grid can be arranged.
    pub fn reorder_tile(&mut self, dragged: Id, target: Id) -> (effects: Effects)
        ensures
            (Change { app: final(self)@, effects: effects@ }) == old(self)@.reordered(
                dragged,
                target,
            ),
    {
        if dragged == target {
            return Effects::none();
        }
        let from = match position_of(&self.open, dragged) {
            Some(from) => from,
            None => return Effects::none(),
        };
        let moved = self.open.remove(from);
        match position_of(&self.open, target) {
            Some(to) => {
                self.open.insert(to, moved);
                self.note_open();
                Effects::saving()
            },
            None => {
                self.open.insert(from, moved);
                assert(self.open@ =~= old(self)@.open);
                Effects::none()
            },
        }
    }

    /// Closes a tile.
    pub fn close_stream(&mut self, id: Id) -> (effects: Effects)
        ensures
            (Change { app: final(self)@, effects: effects@ }) == old(self)@.closed_stream(id),
    {
        let mut effects = Effects::none();
        if let Some(at) = position_of(&self.open, id) {
            let closed = self.open.remove(at);
            effects.closed.push(closed);
            effects.save = true;
            if let Some(draft) = &mut self.draft {
                draft.remove(id);
            }
            self.note_open();
        }
        effects
    }

    /// Notes that the cursor entered or left a tile, and says whether that changed anything.
    pub fn hover(&mut self, id: Id, entered: bool) -> (changed: bool)
        ensures
            final(self)@ == old(self)@.hovered(id, entered),
            changed == (final(self)@.hovered_tile != old(self)@.hovered_tile),
    {
        let next = if entered {
            Some(id)
        } else if self.hovered_tile == Some(id) {
            None
        } else {
            return false;
        };
        let changed = self.hovered_tile != next;
        self.hovered_tile = next;
        changed
    }
}

} // verus!

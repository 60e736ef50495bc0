//! What opening, closing, placing, resizing, reordering, saving and deleting do to a wall.

use vstd::prelude::*;

use crate::connection::ConnectionSpec;
use crate::editing::{evicted, moved_by, shown, without_each};
use crate::grid::{at_least_one, GridCell, GridSpec};
use crate::grid_laws::{
    law_clamp_moves_nothing, law_place_evicts_no_other, law_remove_takes_no_other, lies_under,
    lemma_view_index_is_first, span_left,
};
use crate::id::Id;
use crate::library::view_index;
use crate::text::decimal;
use crate::tree::{preorder, Tree};
use crate::tree_laws::law_find;
use crate::wall::{
    cell_slot, columns_for, div_up, law_grid_is_squarest, lemma_columns_exist, SlotBody,
};
use crate::window::{known, open_all, position, AppSpec};
use crate::window_laws::{
    all_known, law_place_opens_and_evicts, law_saved_wall_is_row_major,
    lemma_insert_distinct, lemma_known_members, lemma_open_all_members, lemma_position,
    lemma_remove_distinct, lemma_reopen,
};

verus! {

// ---- what is open ----

/// Opening connections whose ids all differ has exactly them open, in their order, and starts
/// each of them.
proof fn lemma_open_distinct(connections: Seq<ConnectionSpec>)
    requires
        forall|i: int, j: int|
            0 <= i < j < connections.len() ==> (#[trigger] connections[i]).id != (
            #[trigger] connections[j]).id,
    ensures
        open_all(Seq::empty(), connections).0.len() == connections.len(),
        open_all(Seq::empty(), connections).1 == connections,
        forall|i: int|
            0 <= i < connections.len() ==> #[trigger] open_all(Seq::empty(), connections).0[i]
                == connections[i].id,
    decreases connections.len(),
{
    let (ids, started) = open_all(Seq::empty(), connections);
    if connections.len() > 0 {
        let rest = connections.drop_last();
        let last = connections.last();
        assert forall|i: int, j: int| 0 <= i < j < rest.len() implies (#[trigger] rest[i]).id != (
        #[trigger] rest[j]).id by {
            assert(connections[i].id != connections[j].id);
        }
        lemma_open_distinct(rest);
        let (before, begun) = open_all(Seq::empty(), rest);
        assert(connections[connections.len() - 1] == last);
        if before.contains(last.id) {
            let k = choose|k: int| 0 <= k < before.len() && before[k] == last.id;
            assert(before[k] == rest[k].id);
            assert(connections[k].id != connections[connections.len() - 1].id);
        }
        assert(started =~= connections);
        assert forall|i: int| 0 <= i < connections.len() implies #[trigger] ids[i]
            == connections[i].id by {
            if i < rest.len() {
                assert(ids[i] == before[i]);
            }
        }
    } else {
        assert(started =~= connections);
    }
}

/// Opening a group has on the wall exactly the connections at or below it: in the order of the
/// tree where no two have the same id. Whatever was open is stopped first. A group without
/// connections changes nothing.
pub proof fn law_group_opens_exactly_its_own(app: AppSpec, t: Tree, id: Id, c: ConnectionSpec)
    requires
        crate::tree::found(app.library.roots, id) == Some(t),
    ensures
        ({
            let change = app.opened_group(id);
            let inside = preorder(seq![t]);
            &&& inside.contains(Tree::Stream(c)) ==> change.app.open.contains(c.id)
            &&& change.app.open.contains(c.id) && (exists|k: int|
                0 <= k < inside.len() && #[trigger] inside[k] is Stream) ==> exists|k: int|
                0 <= k < inside.len() && #[trigger] inside[k] is Stream && inside[k].id() == c.id
            &&& (exists|k: int| 0 <= k < inside.len() && #[trigger] inside[k] is Stream)
                ==> change.effects.closed == app.open
            &&& (forall|k: int| 0 <= k < inside.len() ==> #[trigger] inside[k] is Group) ==> change
                == app.same()
        }),
        ({
            let connections = app.connections_under(id);
            (connections.len() > 0 && forall|i: int, j: int|
                0 <= i < j < connections.len() ==> (#[trigger] connections[i]).id != (
                #[trigger] connections[j]).id) ==> {
                &&& app.opened_group(id).app.open.len() == connections.len()
                &&& app.opened_group(id).effects.started == connections
                &&& forall|i: int|
                    0 <= i < connections.len() ==> #[trigger] app.opened_group(id).app.open[i]
                        == connections[i].id
            }
        }),
{
    let inside = preorder(seq![t]);
    let connections = app.connections_under(id);
    lemma_streams(inside);
    lemma_open_all_members(Seq::empty(), connections, c.id);
    let change = app.opened_group(id);
    if inside.contains(Tree::Stream(c)) {
        assert(connections.contains(c));
        let i = choose|i: int| 0 <= i < connections.len() && connections[i] == c;
        assert(connections[i].id == c.id);
    }
    if exists|k: int| 0 <= k < inside.len() && #[trigger] inside[k] is Stream {
        let k = choose|k: int| 0 <= k < inside.len() && #[trigger] inside[k] is Stream;
        assert(inside[k] == Tree::Stream(inside[k]->Stream_0));
        assert(inside.contains(Tree::Stream(inside[k]->Stream_0)));
        assert(connections.contains(inside[k]->Stream_0));
        if change.app.open.contains(c.id) {
            let i = choose|i: int| 0 <= i < connections.len() && (#[trigger] connections[i]).id == c.id;
            assert(connections.contains(connections[i]));
            let m = choose|m: int| 0 <= m < inside.len() && inside[m] == Tree::Stream(connections[i]);
            assert(inside[m] is Stream && inside[m].id() == c.id);
        }
    }
    if forall|k: int| 0 <= k < inside.len() ==> #[trigger] inside[k] is Group {
        if connections.len() > 0 {
            assert(connections.contains(connections[0]));
            let m = choose|m: int| 0 <= m < inside.len() && inside[m] == Tree::Stream(connections[0]);
            assert(inside[m] is Group);
        }
    }
    if connections.len() > 0 && forall|i: int, j: int|
        0 <= i < j < connections.len() ==> (#[trigger] connections[i]).id != (
        #[trigger] connections[j]).id {
        lemma_open_distinct(connections);
    }
}

proof fn lemma_streams(s: Seq<Tree>)
    ensures
        forall|c: ConnectionSpec| #[trigger]
            crate::tree::streams(s).contains(c) <==> s.contains(Tree::Stream(c)),
{
    assert forall|c: ConnectionSpec| #[trigger]
        crate::tree::streams(s).contains(c) <==> s.contains(Tree::Stream(c)) by {
        crate::shape_laws::law_connections_keep_their_order(s, Seq::empty(), c, Tree::Stream(c));
    }
}

/// At start-up exactly the streams are open that the library lists and knows, and no stream is
/// stopped.
pub proof fn law_start_opens_what_is_listed(library: crate::library::LibrarySpec, id: Id)
    ensures
        AppSpec::restored(library).app.open.contains(id) <==> library.open.contains(id)
            && library.connection(id) is Some,
        AppSpec::restored(library).effects.closed.len() == 0,
        !AppSpec::restored(library).effects.save,
        AppSpec::restored(library).app.library == library,
        AppSpec::restored(library).app.draft is None,
        AppSpec::restored(library).app.form is None,
        AppSpec::restored(library).app.selected is None,
{
    lemma_known_members(library, library.open, id);
    lemma_open_all_members(Seq::empty(), known(library, library.open), id);
}

/// Loading a wall whose cells show different connections that are all known has them open in the
/// order of the cells. The working copy is gone. What is no wall changes nothing.
pub proof fn law_load_keeps_the_order(app: AppSpec, id: Id)
    ensures
        app.library.view(id) is None ==> app.loaded_view(id) == app.same(),
        app.library.view(id) matches Some(view) ==> {
            &&& app.loaded_view(id).app.draft is None
            &&& app.loaded_view(id).effects.closed == app.open
            &&& (shown(view.cells).no_duplicates() && all_known(app.library, shown(view.cells)))
                ==> {
                &&& app.loaded_view(id).app.open.len() == view.cells.len()
                &&& forall|i: int|
                    0 <= i < view.cells.len() ==> #[trigger] app.loaded_view(id).app.open[i]
                        == view.cells[i].connection
            }
        },
{
    if let Some(view) = app.library.view(id) {
        let ids = shown(view.cells);
        if ids.no_duplicates() && all_known(app.library, ids) {
            lemma_reopen(app.library, ids);
        }
    }
}

/// Closing a wall stops every stream and leaves the wall.
pub proof fn law_close_leaves_nothing_open(app: AppSpec)
    ensures
        app.closed_view().app.open.len() == 0,
        app.closed_view().effects.closed == app.open,
        app.closed_view().effects.started.len() == 0,
        app.closed_view().app.draft is None,
{
}

/// Closing a stream takes its tile off the wall and its cells off the working copy; every other
/// tile stays, in its order. A stream that is not open is not closed.
pub proof fn law_close_takes_one_tile(app: AppSpec, id: Id)
    requires
        app.open.no_duplicates(),
    ensures
        ({
            let change = app.closed_stream(id);
            &&& change.app.open == app.open.filter(|open: Id| open != id)
            &&& app.open.contains(id) ==> {
                &&& change.effects.closed == seq![id]
                &&& match app.draft {
                    Some(draft) => {
                        &&& change.app.draft matches Some(after)
                        &&& forall|k: int|
                            0 <= k < after.cells.len() ==> (#[trigger] after.cells[k]).connection
                                != id
                        &&& forall|i: int|
                            0 <= i < draft.cells.len() && (#[trigger] draft.cells[i]).connection
                                != id ==> after.cells.contains(draft.cells[i])
                    },
                    None => change.app.draft is None,
                }
            }
            &&& !app.open.contains(id) ==> change == app.same()
        }),
{
    lemma_position(app.open, id, 0);
    lemma_filter_out(app.open, id);
    if let Some(draft) = app.draft {
        let from = law_remove_takes_no_other(draft, id);
        let after = draft.without(id);
        assert forall|k: int| 0 <= k < after.cells.len() implies (#[trigger] after.cells[k]).connection
            != id by {
            assert(0 <= from[k] < draft.cells.len());
        }
        assert forall|i: int|
            0 <= i < draft.cells.len() && (#[trigger] draft.cells[i]).connection
                != id implies after.cells.contains(draft.cells[i]) by {
            assert(from.contains(i));
            let k = choose|k: int| 0 <= k < from.len() && from[k] == i;
            assert(after.cells[k] == draft.cells[i]);
        }
    }
}

/// Distinct ids without one of them.
proof fn lemma_filter_out(ids: Seq<Id>, id: Id)
    requires
        ids.no_duplicates(),
    ensures
        match position(ids, id, 0) {
            Some(at) => ids.filter(|open: Id| open != id) == ids.remove(at),
            None => ids.filter(|open: Id| open != id) == ids,
        },
    decreases ids.len(),
{
    reveal(Seq::filter);
    let pred = |open: Id| open != id;
    lemma_position(ids, id, 0);
    if ids.len() > 0 {
        let rest = ids.drop_last();
        let last = ids.last();
        assert forall|i: int, j: int| 0 <= i < rest.len() && 0 <= j < rest.len() && i != j implies rest[i]
            != rest[j] by {
            assert(rest[i] == ids[i] && rest[j] == ids[j]);
        }
        lemma_filter_out(rest, id);
        lemma_position(rest, id, 0);
        if let Some(at) = position(ids, id, 0) {
            if at < rest.len() {
                assert(rest[at] == id);
                let k = position(rest, id, 0)->0;
                assert(rest[k] == rest[at]);
                assert(k == at);
                assert(ids[at] != ids[ids.len() - 1]);
                assert(rest.remove(at).push(last) =~= ids.remove(at));
            } else {
                if let Some(k) = position(rest, id, 0) {
                    assert(ids[k] == id);
                }
                assert(ids.remove(at) =~= rest);
            }
        } else {
            if let Some(k) = position(rest, id, 0) {
                assert(ids[k] == id);
            }
            assert(ids[ids.len() - 1] != id);
            assert(rest.push(last) =~= ids);
        }
    } else {
        assert(ids.filter(pred) =~= ids);
    }
}

/// Dragging a tile onto another leaves the other tiles in their order; dragging it onto itself,
/// or what is not open, changes nothing.
pub proof fn law_reorder_keeps_the_others_in_order(app: AppSpec, dragged: Id, target: Id)
    requires
        app.open.no_duplicates(),
    ensures
        ({
            let after = app.reordered(dragged, target).app.open;
            after.filter(|open: Id| open != dragged) == app.open.filter(|open: Id| open != dragged)
        }),
        dragged == target || !app.open.contains(dragged) || !app.open.contains(target)
            ==> app.reordered(dragged, target) == app.same(),
        app.reordered(dragged, target).app.open.len() == app.open.len(),
        app.reordered(dragged, target).effects.started.len() == 0,
        app.reordered(dragged, target).effects.closed.len() == 0,
{
    lemma_position(app.open, dragged, 0);
    if let Some(from) = position(app.open, dragged, 0) {
        let others = app.open.remove(from);
        lemma_remove_distinct(app.open, from);
        lemma_position(others, target, 0);
        if dragged != target {
            if let Some(to) = position(others, target, 0) {
                let after = others.insert(to, dragged);
                lemma_insert_distinct(others, to, dragged);
                lemma_filter_out(app.open, dragged);
                lemma_filter_out(after, dragged);
                lemma_position(after, dragged, 0);
                let at = position(after, dragged, 0)->0;
                assert(after[to] == dragged);
                assert(at == to);
                assert(after.remove(to) =~= others);
                assert(app.open.contains(target)) by {
                    assert(others.contains(others[to]));
                }
            } else if app.open.contains(target) {
                assert(others.contains(target));
                let k = choose|k: int| 0 <= k < others.len() && others[k] == target;
                assert(others[k] == target);
            }
        }
    }
}

// ---- the working copy ----

/// Unlocking a wall takes a working copy of the wall that is active, and one that is unlocked
/// keeps the one it has. Nothing is opened, closed or written by it.
pub proof fn law_unlock_copies_the_wall(app: AppSpec)
    ensures
        app.draft is Some ==> app.begun_edit() == app,
        app.draft is None ==> app.begun_edit().draft == (match app.library.active_view {
            Some(id) => app.library.view(id),
            None => None,
        }),
        app.begun_edit().open == app.open,
        app.begun_edit().library == app.library,
        app.begun_edit().selected == app.selected,
        app.draft matches Some(draft) ==> app.active_grid() == Some(draft),
        app.draft is None ==> app.active_grid() == (match app.library.active_view {
            Some(id) => app.library.view(id),
            None => None,
        }),
{
}

/// Putting a connection on the working copy keeps every cell that shows another connection and
/// does not take the position, and puts the connection there and nowhere else. A stream that was
/// open is closed exactly where one of its cells took the position; the connection is open
/// afterwards where the library knows it.
pub proof fn law_place_changes_one_position(
    app: AppSpec,
    connection: Id,
    row: usize,
    col: usize,
    id: Id,
)
    requires
        app.draft is Some,
        app.open.no_duplicates(),
    ensures
        ({
            let before = app.draft->0;
            let change = app.placed_in_view(connection, row, col);
            let after = change.app.draft;
            &&& after matches Some(draft)
            &&& draft.cells.last() == (GridCell { row, col, row_span: 1, col_span: 1, connection })
            &&& forall|i: int|
                0 <= i < before.cells.len() && (#[trigger] before.cells[i]).connection
                    != connection && !lies_under(before.cells[i], row as int, col as int)
                    ==> draft.cells.contains(before.cells[i])
            &&& forall|k: int|
                0 <= k < draft.cells.len() - 1 ==> before.cells.contains(#[trigger] draft.cells[k])
                    && draft.cells[k].connection != connection && !lies_under(
                    draft.cells[k],
                    row as int,
                    col as int,
                )
            &&& draft.rows == before.rows
            &&& draft.cols == before.cols
            &&& draft.id == before.id
            &&& draft.name == before.name
            &&& change.app.open.contains(id) <==> (id == connection && app.library.connection(
                connection,
            ) is Some) || (app.open.contains(id) && !(id != connection && exists|i: int|
                0 <= i < before.cells.len() && (#[trigger] before.cells[i]).connection == id
                    && lies_under(before.cells[i], row as int, col as int)))
            &&& change.app.library == app.library
            &&& !change.effects.save
        }),
{
    let before = app.draft->0;
    let from = law_place_evicts_no_other(before, connection, row, col);
    let draft = before.placed(connection, row, col);
    assert forall|i: int|
        0 <= i < before.cells.len() && (#[trigger] before.cells[i]).connection != connection
            && !lies_under(before.cells[i], row as int, col as int) implies draft.cells.contains(
        before.cells[i],
    ) by {
        let k = choose|k: int| 0 <= k < from.len() && from[k] == i;
        assert(draft.cells[k] == before.cells[from[k]]);
    }
    assert forall|k: int| 0 <= k < draft.cells.len() - 1 implies before.cells.contains(
        #[trigger] draft.cells[k],
    ) && draft.cells[k].connection != connection && !lies_under(
        draft.cells[k],
        row as int,
        col as int,
    ) by {
        assert(0 <= from[k] < before.cells.len());
        assert(before.cells[from[k]] == draft.cells[k]);
    }
    law_place_opens_and_evicts(app, connection, row, col, id);
    lemma_evicted(before.cells, connection, row as int, col as int, id);
}

proof fn lemma_evicted(cells: Seq<GridCell>, connection: Id, row: int, col: int, id: Id)
    ensures
        evicted(cells, connection, row, col).contains(id) <==> id != connection && exists|i: int|
            0 <= i < cells.len() && (#[trigger] cells[i]).connection == id && lies_under(
                cells[i],
                row,
                col,
            ),
{
    let pred = |cell: GridCell| cell.occupies(row, col) && cell.connection != connection;
    let gone = cells.filter(pred);
    let out = evicted(cells, connection, row, col);
    if out.contains(id) {
        let k = choose|k: int| 0 <= k < out.len() && out[k] == id;
        assert(gone[k].connection == id);
        cells.lemma_filter_pred(pred, k);
        assert(gone.contains(gone[k]));
        cells.lemma_filter_contains_rev(pred, gone[k]);
        let i = choose|i: int| 0 <= i < cells.len() && cells[i] == gone[k];
        assert(cells[i].connection == id && lies_under(cells[i], row, col));
    }
    if id != connection && exists|i: int|
        0 <= i < cells.len() && (#[trigger] cells[i]).connection == id && lies_under(
            cells[i],
            row,
            col,
        ) {
        let i = choose|i: int|
            0 <= i < cells.len() && (#[trigger] cells[i]).connection == id && lies_under(
                cells[i],
                row,
                col,
            );
        assert(pred(cells[i]));
        cells.lemma_filter_contains(pred, i);
        let k = choose|k: int| 0 <= k < gone.len() && gone[k] == cells[i];
        assert(out[k] == id);
    }
}

/// Resizing adds so many rows and columns to the working copy, or takes them off, and leaves at
/// least one of each. No cell moves or shows anything else: one that still starts inside keeps
/// its place as far as the grid reaches, unless one before it takes some of it.
pub proof fn law_resize_adds_rows_and_columns(app: AppSpec, rows: isize, cols: isize) -> (from: Seq<
    int,
>)
    requires
        app.draft is Some,
    ensures
        ({
            let before = app.draft->0;
            let after = app.resized_view(rows, cols);
            &&& after.draft matches Some(draft)
            &&& before.rows + rows <= usize::MAX ==> draft.rows == (if before.rows + rows >= 1 {
                before.rows + rows
            } else {
                1
            })
            &&& before.rows + rows > usize::MAX ==> draft.rows == usize::MAX
            &&& before.cols + cols <= usize::MAX ==> draft.cols == (if before.cols + cols >= 1 {
                before.cols + cols
            } else {
                1
            })
            &&& before.cols + cols > usize::MAX ==> draft.cols == usize::MAX
            &&& draft.id == before.id
            &&& draft.name == before.name
            &&& from.len() == draft.cells.len()
            &&& forall|k: int|
                0 <= k < from.len() ==> 0 <= #[trigger] from[k] < before.cells.len() && {
                    let was = before.cells[from[k]];
                    let is = draft.cells[k];
                    &&& is.connection == was.connection
                    &&& is.row == was.row
                    &&& is.col == was.col
                    &&& is.row_span == span_left(was.row_span, was.row, draft.rows as int)
                    &&& is.col_span == span_left(was.col_span, was.col, draft.cols as int)
                }
            &&& forall|k: int, m: int|
                0 <= k < m < from.len() ==> #[trigger] from[k] < #[trigger] from[m]
            &&& forall|i: int|
                0 <= i < before.cells.len() && (#[trigger] before.cells[i]).row < draft.rows
                    && before.cells[i].col < draft.cols && !from.contains(i) ==> exists|k: int|
                    0 <= k < from.len() && #[trigger] from[k] < i && {
                        let a = before.cells[i];
                        let b = draft.cells[k];
                        &&& a.row < b.row + b.row_span
                        &&& b.row < a.row + span_left(a.row_span, a.row, draft.rows as int)
                        &&& a.col < b.col + b.col_span
                        &&& b.col < a.col + span_left(a.col_span, a.col, draft.cols as int)
                    }
            &&& after.library == app.library
            &&& after.open == app.open
            &&& after.selected == app.selected
            &&& after.form == app.form
        }),
{
    let before = app.draft->0;
    let sized = GridSpec {
        rows: at_least_one(moved_by(before.rows, rows)),
        cols: at_least_one(moved_by(before.cols, cols)),
        ..before
    };
    law_clamp_moves_nothing(sized)
}

/// Saving the working copy of a wall that is not among the saved ones changes none of them;
/// throwing it away keeps every wall, and the streams of the saved wall are open again.
pub proof fn law_commit_and_cancel_end_the_edit(app: AppSpec)
    ensures
        app.committed_edit().app.draft is None,
        app.cancelled_edit().app.draft is None,
        app.draft matches Some(draft) ==> app.library.view(draft.id) is None
            ==> app.committed_edit().app.library.views == app.library.views,
        app.committed_edit().app.open == app.open,
        app.committed_edit().effects.started.len() == 0,
        app.committed_edit().effects.closed.len() == 0,
        app.committed_edit().app.library.views.len() == app.library.views.len(),
        app.cancelled_edit().app.library.views == app.library.views,
{
    if let Some(draft) = app.draft {
        lemma_view_index_is_first(app.library.views, draft.id, 0);
    }
}

// ---- saved walls ----

/// Saving the wall adds one wall behind the others: under the new id, with the next number in
/// its name, with as few columns as make a square with room for every tile and as few rows as
/// those tiles need, and with the tiles left to right and row by row. Nothing starts or stops.
/// An empty wall is not saved.
pub proof fn law_saved_wall_shows_the_tiles(app: AppSpec, id: Id)
    requires
        app.open.no_duplicates(),
        app.open.len() <= usize::MAX,
    ensures
        ({
            let change = app.saved_wall(id);
            let before = app.library.views;
            let after = change.app.library.views;
            let n = app.open.len() as int;
            &&& change.app.open == app.open
            &&& n == 0 ==> {
                &&& change.app.library == app.library
                &&& change.app.error == Some("Open some streams first."@)
                &&& !change.effects.save
            }
            &&& n > 0 ==> {
                let wall = after.last();
                &&& after.len() == before.len() + 1
                &&& after.drop_last() == before
                &&& wall.id == id
                &&& wall.name == "View "@ + decimal(before.len() as int + 1)
                &&& wall.cols * wall.cols >= n
                &&& (wall.cols - 1) * (wall.cols - 1) < n
                &&& wall.rows * wall.cols >= n
                &&& (wall.rows - 1) * wall.cols < n
                &&& wall.cells.len() == n
                &&& forall|i: int|
                    0 <= i < n ==> {
                        let cell = #[trigger] wall.cells[i];
                        &&& cell.connection == app.open[i]
                        &&& cell.row * wall.cols + cell.col == i
                        &&& cell.col < wall.cols
                        &&& cell.row_span == 1
                        &&& cell.col_span == 1
                    }
                &&& change.app.error is None
                &&& change.effects.save
            }
        }),
{
    let n = app.open.len() as int;
    if n > 0 {
        law_saved_wall_is_row_major(app, id);
        lemma_columns_exist(n);
        let columns = columns_for(n);
        law_grid_is_squarest(n, columns);
        let after = app.saved_wall(id).app.library.views;
        let wall = after.last();
        assert(wall == app.snapshot(id));
        assert(after.drop_last() =~= app.library.views);
        crate::window_laws::lemma_snapshot_name(app, id);
        let rows = div_up(n, columns);
        vstd::arithmetic::div_mod::lemma_fundamental_div_mod(n, columns);
        let q = n / columns;
        let r = n % columns;
        assert(rows * columns >= n && (rows - 1) * columns < n) by (nonlinear_arith)
            requires
                n == columns * q + r,
                0 <= r < columns,
                n > 0,
                columns >= 1,
                rows == if r == 0 {
                    q
                } else {
                    q + 1
                },
        ;
        assert forall|i: int| 0 <= i < n implies {
            let cell = #[trigger] wall.cells[i];
            &&& cell.connection == app.open[i]
            &&& cell.row * wall.cols + cell.col == i
            &&& cell.col < wall.cols
            &&& cell.row_span == 1
            &&& cell.col_span == 1
        } by {
            vstd::arithmetic::div_mod::lemma_fundamental_div_mod(i, columns);
            crate::window_laws::lemma_place_inside(i, n, columns);
            let a = i / columns;
            assert(a * columns == columns * a) by (nonlinear_arith);
        }
    }
}

/// Deleting a wall takes it off the list and leaves every other, in its order. If it was on
/// screen every stream stops; if not, none does.
pub proof fn law_deleted_wall_is_gone(app: AppSpec, id: Id, other: Id)
    ensures
        ({
            let change = app.deleted_view(id);
            let before = app.library.views;
            let after = change.app.library.views;
            &&& change.app.library.view(id) is None
            &&& other != id ==> change.app.library.view(other) == app.library.view(other)
            &&& after == before.filter(|view: GridSpec| view.id != id)
            &&& forall|i: int|
                0 <= i < before.len() && (#[trigger] before[i]).id != id ==> after.contains(before[i])
            &&& forall|k: int| 0 <= k < after.len() ==> before.contains(#[trigger] after[k])
            &&& app.library.active_view == Some(id) ==> change.app.open.len() == 0
                && change.effects.closed == app.open
            &&& app.library.active_view != Some(id) ==> change.app.open == app.open
                && change.effects.closed.len() == 0
            &&& change.effects.started.len() == 0
        }),
{
    let views = app.library.views;
    let pred = |view: GridSpec| view.id != id;
    let after = app.deleted_view(id).app.library.views;
    assert(after == views.filter(pred));
    assert forall|i: int| 0 <= i < views.len() && (#[trigger] views[i]).id != id implies after.contains(
        views[i],
    ) by {
        assert(pred(views[i]));
        views.lemma_filter_contains(pred, i);
    }
    assert forall|k: int| 0 <= k < after.len() implies views.contains(#[trigger] after[k]) && after[k].id
        != id by {
        assert(after.contains(after[k]));
        views.lemma_filter_contains_rev(pred, after[k]);
        views.lemma_filter_pred(pred, k);
    }
    lemma_view_index_is_first(after, id, 0);
    if other != id {
        lemma_view_after_filter(views, id, other);
        lemma_view_index_is_first(views, other, 0);
        lemma_view_index_is_first(after, other, 0);
    }
}

/// What is found by another id is the same without the walls of one id.
proof fn lemma_view_after_filter(views: Seq<GridSpec>, id: Id, other: Id)
    requires
        other != id,
    ensures
        ({
            let after = views.filter(|view: GridSpec| view.id != id);
            match view_index(views, other, 0) {
                Some(k) => view_index(after, other, 0) matches Some(m) && after[m] == views[k],
                None => view_index(after, other, 0) is None,
            }
        }),
    decreases views.len(),
{
    reveal(Seq::filter);
    let pred = |view: GridSpec| view.id != id;
    let after = views.filter(pred);
    lemma_view_index_is_first(views, other, 0);
    lemma_view_index_is_first(after, other, 0);
    if views.len() > 0 {
        let rest = views.drop_last();
        let left = rest.filter(pred);
        lemma_view_after_filter(rest, id, other);
        lemma_view_index_is_first(rest, other, 0);
        lemma_view_index_is_first(left, other, 0);
        assert(views[views.len() - 1] == views.last());
        match view_index(rest, other, 0) {
            Some(k) => {
                let m = view_index(left, other, 0)->0;
                assert(views[k] == rest[k]);
                let v = view_index(views, other, 0)->0;
                assert(v <= k);
                assert(v == k) by {
                    assert(rest[v] == views[v]);
                }
                assert(after[m] == left[m]);
                let w = view_index(after, other, 0)->0;
                assert(w <= m);
                assert(w == m) by {
                    assert(left[w] == after[w]);
                }
            },
            None => {
                assert forall|j: int| 0 <= j < rest.len() implies (#[trigger] views[j]).id != other by {
                    assert(views[j] == rest[j]);
                }
                assert forall|j: int| 0 <= j < left.len() implies (#[trigger] after[j]).id != other by {
                    assert(after[j] == left[j]);
                }
                if views.last().id == other {
                    assert(after[left.len() as int] == views.last());
                }
            },
        }
    }
}

/// A saved wall shows each of its cells at its place: the stream of its connection where that is
/// open, and that it is missing where it is not. Every other place that it shows is empty.
pub proof fn law_slots_show_their_cells(grid: GridSpec, open: Seq<Id>, i: int)
    requires
        0 <= i < grid.slots(open).len(),
    ensures
        grid.slots(open).len() >= grid.cells.len(),
        i < grid.cells.len() ==> {
            let slot = grid.slots(open)[i];
            let cell = grid.cells[i];
            &&& slot.row == cell.row
            &&& slot.col == cell.col
            &&& slot.row_span == (if cell.row_span > 1 {
                cell.row_span as int
            } else {
                1
            })
            &&& slot.col_span == (if cell.col_span > 1 {
                cell.col_span as int
            } else {
                1
            })
            &&& slot.body == (if open.contains(cell.connection) {
                SlotBody::Tile(cell.connection)
            } else {
                SlotBody::Missing
            })
        },
        i >= grid.cells.len() ==> grid.slots(open)[i].body == SlotBody::Empty,
{
    let taken = grid.cells.map_values(cell_slot(open));
    let rows = at_least_one(grid.rows) as int;
    let cols = at_least_one(grid.cols) as int;
    lemma_empties_are_empty(grid.cells, rows, cols);
}

proof fn lemma_empties_are_empty(cells: Seq<GridCell>, rows: int, cols: int)
    ensures
        forall|k: int|
            0 <= k < crate::wall::empties(cells, rows, cols).len() ==> (
            #[trigger] crate::wall::empties(cells, rows, cols)[k]).body == SlotBody::Empty,
    decreases rows,
{
    if rows > 0 {
        lemma_empties_are_empty(cells, rows - 1, cols);
        lemma_row_is_empty(cells, rows - 1, cols);
    }
}

proof fn lemma_row_is_empty(cells: Seq<GridCell>, row: int, cols: int)
    ensures
        forall|k: int|
            0 <= k < crate::wall::empties_in_row(cells, row, cols).len() ==> (
            #[trigger] crate::wall::empties_in_row(cells, row, cols)[k]).body == SlotBody::Empty,
    decreases cols,
{
    if cols > 0 {
        lemma_row_is_empty(cells, row, cols - 1);
    }
}

/// What is started is what the library has under that id, with its URL, its credentials and its
/// transport.
pub proof fn law_streams_start_as_the_library_has_them(
    app: AppSpec,
    connection: ConnectionSpec,
    id: Id,
    row: usize,
    col: usize,
    i: int,
)
    ensures
        0 <= i < app.opened(connection).effects.started.len() ==> app.opened(
            connection,
        ).effects.started[i] == connection,
        0 <= i < app.loaded_view(id).effects.started.len() ==> is_the_librarys(
            app,
            app.loaded_view(id).effects.started[i],
        ),
        0 <= i < app.cancelled_edit().effects.started.len() ==> is_the_librarys(
            app,
            app.cancelled_edit().effects.started[i],
        ),
        0 <= i < app.placed_in_view(id, row, col).effects.started.len() ==> is_the_librarys(
            app,
            app.placed_in_view(id, row, col).effects.started[i],
        ),
        0 <= i < AppSpec::restored(app.library).effects.started.len() ==> is_the_librarys(
            app,
            AppSpec::restored(app.library).effects.started[i],
        ),
        0 <= i < app.opened_group(id).effects.started.len() ==> preorder(app.library.roots).contains(
            Tree::Stream(app.opened_group(id).effects.started[i]),
        ),
{
    let none = Seq::<Id>::empty();
    if let Some(view) = app.library.view(id) {
        lemma_started_are_known(app.library, shown(view.cells), i);
    }
    if let Some(active) = app.library.active_view {
        if let Some(view) = app.library.view(active) {
            lemma_started_are_known(app.library, shown(view.cells), i);
        }
    }
    lemma_started_are_known(app.library, app.library.open, i);
    if let Some(draft) = app.draft {
        law_find(app.library.roots, id);
        let gone = evicted(draft.cells, id, row as int, col as int);
        let left = without_each(app.open, gone).0;
        if let Some(c) = app.library.connection(id) {
            assert(seq![c].drop_last() =~= Seq::<ConnectionSpec>::empty());
            lemma_started_among(left, seq![c], i);
        } else {
            lemma_started_among(left, Seq::empty(), i);
        }
    }
    let connections = app.connections_under(id);
    lemma_started_among(none, connections, i);
    if 0 <= i < app.opened_group(id).effects.started.len() {
        law_find(app.library.roots, id);
        let t = crate::tree::found(app.library.roots, id)->0;
        let c = app.opened_group(id).effects.started[i];
        lemma_streams(preorder(seq![t]));
        assert(preorder(seq![t]).contains(Tree::Stream(c)));
        crate::walk::lemma_preorder_single(t);
        assert(crate::walk::below(t) == preorder(t.children()));
        let whole = preorder(seq![t]);
        let k = choose|k: int| 0 <= k < whole.len() && whole[k] == Tree::Stream(c);
        if k > 0 {
            assert(preorder(t.children())[k - 1] == Tree::Stream(c));
            crate::sheet_laws::lemma_below_is_inside(app.library.roots, t, Tree::Stream(c));
        }
    }
}

/// Whether a connection is the one that the library has under its id.
pub open spec fn is_the_librarys(app: AppSpec, c: ConnectionSpec) -> bool {
    app.library.connection(c.id) == Some(c)
}

/// What is started is among what was to be opened.
proof fn lemma_started_among(open: Seq<Id>, connections: Seq<ConnectionSpec>, i: int)
    ensures
        0 <= i < open_all(open, connections).1.len() ==> connections.contains(
            open_all(open, connections).1[i],
        ),
    decreases connections.len(),
{
    if connections.len() > 0 {
        let rest = connections.drop_last();
        lemma_started_among(open, rest, i);
        let begun = open_all(open, rest).1;
        let started = open_all(open, connections).1;
        if 0 <= i < started.len() {
            if i < begun.len() {
                assert(started[i] == begun[i]);
                let k = choose|k: int| 0 <= k < rest.len() && rest[k] == begun[i];
                assert(connections[k] == begun[i]);
            } else {
                assert(connections[connections.len() - 1] == started[i]);
            }
        }
    }
}

proof fn lemma_known_is_the_librarys(library: crate::library::LibrarySpec, ids: Seq<Id>, c: ConnectionSpec)
    requires
        known(library, ids).contains(c),
    ensures
        library.connection(c.id) == Some(c),
    decreases ids.len(),
{
    if ids.len() > 0 {
        let all = known(library, ids);
        let before = known(library, ids.drop_last());
        let k = choose|k: int| 0 <= k < all.len() && all[k] == c;
        if k < before.len() {
            assert(before[k] == c);
            lemma_known_is_the_librarys(library, ids.drop_last(), c);
        } else {
            law_find(library.roots, ids.last());
        }
    }
}

proof fn lemma_started_are_known(library: crate::library::LibrarySpec, ids: Seq<Id>, i: int)
    ensures
        ({
            let started = open_all(Seq::empty(), known(library, ids)).1;
            0 <= i < started.len() ==> library.connection(started[i].id) == Some(started[i])
        }),
{
    let started = open_all(Seq::empty(), known(library, ids)).1;
    lemma_started_among(Seq::empty(), known(library, ids), i);
    if 0 <= i < started.len() {
        lemma_known_is_the_librarys(library, ids, started[i]);
    }
}

} // verus!

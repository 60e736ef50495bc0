//! What the window's actions keep, undo and promise.

use crate::connection::ConnectionSpec;
use crate::editing::{evicted, filled, moved_by, shown, without_each};
use crate::forms::FieldsSpec;
use crate::grid::{at_least_one, lemma_overlaps, single_cell, stays, GridCell, GridSpec};
use crate::grid_laws::{
    law_clamp_makes_drawable, law_place_keeps_drawable, law_remove_from_grid,
    law_sanitize_makes_safe, lemma_filter_all, lemma_view_index_is_first,
};
use crate::id::Id;
use crate::library::{view_index, LibrarySpec};
use crate::prefs::LayoutMode;
use crate::tree::found;
use crate::tree_laws::law_find;
use crate::text::{decimal, trimmed};
use crate::wall::{columns_for, div_up, is_squarest, law_grid_is_squarest, lemma_columns_exist};
use crate::window::{known, open_all, position, AppSpec, Change};
use vstd::arithmetic::div_mod::lemma_fundamental_div_mod;
use vstd::prelude::*;

verus! {

/// What [`position`] means.
pub(crate) proof fn lemma_position(ids: Seq<Id>, id: Id, from: int)
    requires
        0 <= from,
    ensures
        match position(ids, id, from) {
            Some(k) => from <= k < ids.len() && ids[k] == id && forall|j: int|
                from <= j < k ==> ids[j] != id,
            None => forall|j: int| from <= j < ids.len() ==> ids[j] != id,
        },
    decreases ids.len() - from,
{
    if from < ids.len() && ids[from] != id {
        lemma_position(ids, id, from + 1);
    }
}

pub(crate) proof fn lemma_remove_distinct(ids: Seq<Id>, at: int)
    requires
        ids.no_duplicates(),
        0 <= at < ids.len(),
    ensures
        ids.remove(at).no_duplicates(),
        !ids.remove(at).contains(ids[at]),
        forall|id: Id| id != ids[at] && ids.contains(id) ==> #[trigger] ids.remove(at).contains(id),
        forall|id: Id| #[trigger] ids.remove(at).contains(id) ==> ids.contains(id),
{
    let left = ids.remove(at);
    assert forall|i: int, j: int| 0 <= i < left.len() && 0 <= j < left.len() && i != j implies left[i]
        != left[j] by {
        let a = if i < at {
            i
        } else {
            i + 1
        };
        let b = if j < at {
            j
        } else {
            j + 1
        };
        assert(left[i] == ids[a] && left[j] == ids[b]);
    }
    assert forall|id: Id| id != ids[at] && ids.contains(id) implies #[trigger] left.contains(id) by {
        let k = choose|k: int| 0 <= k < ids.len() && ids[k] == id;
        let m = if k < at {
            k
        } else {
            k - 1
        };
        assert(left[m] == id);
    }
    assert forall|id: Id| #[trigger] left.contains(id) implies ids.contains(id) by {
        let m = choose|m: int| 0 <= m < left.len() && left[m] == id;
        let k = if m < at {
            m
        } else {
            m + 1
        };
        assert(ids[k] == id);
    }
}

pub(crate) proof fn lemma_insert_distinct(ids: Seq<Id>, at: int, id: Id)
    requires
        ids.no_duplicates(),
        0 <= at <= ids.len(),
        !ids.contains(id),
    ensures
        ids.insert(at, id).no_duplicates(),
{
    let more = ids.insert(at, id);
    assert forall|i: int, j: int| 0 <= i < more.len() && 0 <= j < more.len() && i != j implies more[i]
        != more[j] by {
        let a = if i < at {
            i
        } else {
            i - 1
        };
        let b = if j < at {
            j
        } else {
            j - 1
        };
        if i != at {
            assert(more[i] == ids[a]);
        }
        if j != at {
            assert(more[j] == ids[b]);
        }
    }
}

proof fn lemma_open_all_distinct(open: Seq<Id>, connections: Seq<ConnectionSpec>)
    requires
        open.no_duplicates(),
    ensures
        open_all(open, connections).0.no_duplicates(),
    decreases connections.len(),
{
    if connections.len() > 0 {
        lemma_open_all_distinct(open, connections.drop_last());
        let before = open_all(open, connections.drop_last()).0;
        let id = connections.last().id;
        if !before.contains(id) {
            assert(before.push(id) =~= before.insert(before.len() as int, id));
            lemma_insert_distinct(before, before.len() as int, id);
        }
    }
}

proof fn lemma_without_each_distinct(ids: Seq<Id>, gone: Seq<Id>)
    requires
        ids.no_duplicates(),
    ensures
        without_each(ids, gone).0.no_duplicates(),
    decreases gone.len(),
{
    if gone.len() > 0 {
        lemma_without_each_distinct(ids, gone.drop_last());
        let left = without_each(ids, gone.drop_last()).0;
        lemma_position(left, gone.last(), 0);
        if let Some(at) = position(left, gone.last(), 0) {
            lemma_remove_distinct(left, at);
        }
    }
}

proof fn lemma_closed_each_distinct(app: AppSpec, ids: Seq<Id>)
    requires
        app.open.no_duplicates(),
    ensures
        app.closed_each(ids).app.open.no_duplicates(),
    decreases ids.len(),
{
    if ids.len() > 0 {
        lemma_closed_each_distinct(app, ids.drop_last());
        let before = app.closed_each(ids.drop_last()).app;
        lemma_position(before.open, ids.last(), 0);
        if let Some(at) = position(before.open, ids.last(), 0) {
            lemma_remove_distinct(before.open, at);
        }
    }
}

proof fn lemma_opened_distinct(app: AppSpec, connection: ConnectionSpec)
    requires
        app.open.no_duplicates(),
    ensures
        app.opened(connection).app.open.no_duplicates(),
{
    if !app.open.contains(connection.id) {
        let open = app.open;
        assert(open.push(connection.id) =~= open.insert(open.len() as int, connection.id));
        lemma_insert_distinct(open, open.len() as int, connection.id);
    }
}

/// No stream is ever on the wall twice: none is at start-up, and every action that changes what
/// is open keeps it so.
pub proof fn law_tiles_stay_distinct(
    library: LibrarySpec,
    app: AppSpec,
    connection: ConnectionSpec,
    a: Id,
    b: Id,
    row: usize,
    col: usize,
)
    requires
        app.open.no_duplicates(),
    ensures
        AppSpec::restored(library).app.open.no_duplicates(),
        app.opened(connection).app.open.no_duplicates(),
        app.clicked(a).app.open.no_duplicates(),
        app.opened_group(a).app.open.no_duplicates(),
        app.toggled_layout().app.open.no_duplicates(),
        app.loaded_view(a).app.open.no_duplicates(),
        app.closed_view().app.open.no_duplicates(),
        app.cancelled_edit().app.open.no_duplicates(),
        app.placed_in_view(a, row, col).app.open.no_duplicates(),
        app.deleted_view(a).app.open.no_duplicates(),
        app.reordered(a, b).app.open.no_duplicates(),
        app.closed_stream(a).app.open.no_duplicates(),
        app.deleted_selected().app.open.no_duplicates(),
{
    let none = Seq::<Id>::empty();
    lemma_open_all_distinct(none, known(library, library.open));
    lemma_opened_distinct(app, connection);
    let selected = AppSpec { selected: Some(a), ..app };
    if let Some(crate::tree::Tree::Stream(c)) = found(app.library.roots, a) {
        lemma_opened_distinct(selected, c);
    }
    lemma_open_all_distinct(none, app.connections_under(a));
    if let Some(view) = app.library.view(a) {
        lemma_open_all_distinct(none, known(app.library, shown(view.cells)));
    }
    if let Some(id) = app.library.active_view {
        if let Some(view) = app.library.view(id) {
            lemma_open_all_distinct(none, known(app.library, shown(view.cells)));
        }
    }
    if let Some(draft) = app.draft {
        let gone = evicted(draft.cells, a, row as int, col as int);
        lemma_without_each_distinct(app.open, gone);
        let left = without_each(app.open, gone).0;
        lemma_open_all_distinct(
            left,
            match app.library.connection(a) {
                Some(c) => seq![c],
                None => Seq::empty(),
            },
        );
    }
    lemma_position(app.open, a, 0);
    if let Some(from) = position(app.open, a, 0) {
        lemma_remove_distinct(app.open, from);
        let others = app.open.remove(from);
        lemma_position(others, b, 0);
        if let Some(to) = position(others, b, 0) {
            lemma_insert_distinct(others, to, a);
        }
    }
    if let Some(id) = app.selected {
        let unselected = AppSpec { selected: None, ..app };
        lemma_closed_each_distinct(unselected, unselected.open_under(id));
    }
}

/// Whenever the library is written it lists exactly the streams on the wall.
pub proof fn law_open_streams_are_noted(
    app: AppSpec,
    connection: ConnectionSpec,
    fields: FieldsSpec,
    a: Id,
    b: Id,
    group: Option<Id>,
)
    ensures
        noted(app.toggled_sidebar()),
        noted(app.cycled_theme()),
        noted(app.opened(connection)),
        noted(app.clicked(a)),
        noted(app.moved_node(a, group)),
        noted(app.dropped_onto(a, b)),
        noted(app.opened_group(a)),
        noted(app.toggled_layout()),
        noted(app.loaded_view(a)),
        noted(app.closed_view()),
        noted(app.saved_wall(a)),
        noted(app.committed_edit()),
        noted(app.cancelled_edit()),
        noted(app.deleted_view(a)),
        noted(app.reordered(a, b)),
        noted(app.closed_stream(a)),
        noted(app.added_group(a)),
        noted(app.submitted_form(fields, a)),
        noted(app.deleted_selected()),
{
}

/// Whether an action that writes the library has noted the open streams.
pub open spec fn noted(change: Change) -> bool {
    change.effects.save ==> change.app.library.open == change.app.open
}

/// Whether every one of those ids is that of a connection in the library.
pub open spec fn all_known(library: LibrarySpec, ids: Seq<Id>) -> bool {
    forall|i: int| 0 <= i < ids.len() ==> library.connection(#[trigger] ids[i]) is Some
}

/// Opening connections that are all known and distinct gives their ids, in order.
pub(crate) proof fn lemma_reopen(library: LibrarySpec, ids: Seq<Id>)
    requires
        ids.no_duplicates(),
        all_known(library, ids),
    ensures
        open_all(Seq::empty(), known(library, ids)).0 == ids,
        open_all(Seq::empty(), known(library, ids)).1 == known(library, ids),
        known(library, ids).len() == ids.len(),
    decreases ids.len(),
{
    if ids.len() > 0 {
        let before = ids.drop_last();
        let id = ids.last();
        assert forall|i: int, j: int|
            0 <= i < before.len() && 0 <= j < before.len() && i != j implies before[i]
            != before[j] by {
            assert(before[i] == ids[i] && before[j] == ids[j]);
        }
        assert forall|i: int| 0 <= i < before.len() implies library.connection(
            #[trigger] before[i],
        ) is Some by {
            assert(before[i] == ids[i]);
        }
        lemma_reopen(library, before);
        assert(ids[ids.len() - 1] == id);
        let connection = library.connection(id)->0;
        law_find(library.roots, id);
        assert(connection.id == id);
        let all = known(library, ids);
        assert(all.drop_last() =~= known(library, before));
        assert(all.last() == connection);
        assert(!before.contains(id)) by {
            if before.contains(id) {
                let k = choose|k: int| 0 <= k < before.len() && before[k] == id;
                assert(ids[k] == ids[ids.len() - 1]);
            }
        }
        assert(before.push(id) =~= ids);
        assert(known(library, before).push(connection) =~= all);
    } else {
        assert(ids =~= Seq::<Id>::empty());
    }
}

/// Streams that were playing at exit play again after the next launch, in the same order: what
/// was written is read back, made safe and restored.
pub proof fn law_streams_come_back(app: AppSpec)
    requires
        app.open.no_duplicates(),
        all_known(app.library, app.open),
    ensures
        AppSpec::restored(app.saved().library.sanitized()).app.open == app.open,
        AppSpec::restored(app.saved().library.sanitized()).effects.started == known(
            app.library,
            app.open,
        ),
{
    let library = app.saved().library.sanitized();
    assert(library.roots == app.library.roots);
    lemma_known_by_roots(app.library, library, app.open);
    assert forall|i: int| 0 <= i < app.open.len() implies library.connection(
        #[trigger] app.open[i],
    ) is Some by {
        assert(app.library.connection(app.open[i]) is Some);
    }
    lemma_reopen(library, app.open);
}

/// Which connections are known depends on the tree alone.
proof fn lemma_known_by_roots(a: LibrarySpec, b: LibrarySpec, ids: Seq<Id>)
    requires
        a.roots == b.roots,
    ensures
        known(a, ids) == known(b, ids),
    decreases ids.len(),
{
    if ids.len() > 0 {
        lemma_known_by_roots(a, b, ids.drop_last());
    }
}

/// In single mode opening a stream leaves that one alone on the wall, and switching to single
/// mode leaves the last tile, or none where there was none.
pub proof fn law_single_shows_one(app: AppSpec, connection: ConnectionSpec)
    ensures
        app.library.layout == LayoutMode::Single ==> app.opened(connection).app.open
            == seq![connection.id],
        app.library.layout == LayoutMode::Multi ==> app.toggled_layout().app.open
            == if app.open.len() == 0 {
            app.open
        } else {
            seq![app.open.last()]
        },
        app.library.layout == LayoutMode::Single ==> app.toggled_layout().app.open == app.open,
{
    if app.open.len() == 1 {
        assert(app.open =~= seq![app.open.last()]);
    }
}

/// In multi mode opening a stream keeps the tiles in place and has it on the wall.
pub proof fn law_multi_adds_tiles(app: AppSpec, connection: ConnectionSpec)
    requires
        app.library.layout == LayoutMode::Multi,
    ensures
        app.opened(connection).app.open.take(app.open.len() as int) == app.open,
        app.opened(connection).app.open.contains(connection.id),
        app.opened(connection).effects.closed.len() == 0,
{
    let after = app.opened(connection).app.open;
    assert(after.take(app.open.len() as int) =~= app.open);
    if !app.open.contains(connection.id) {
        assert(after[after.len() - 1] == connection.id);
    }
}

/// Opening a group shows every connection in it.
pub proof fn law_group_opens_all(app: AppSpec, id: Id, i: int)
    requires
        0 <= i < app.connections_under(id).len(),
    ensures
        app.opened_group(id).app.open.contains(app.connections_under(id)[i].id),
        app.connections_under(id).len() > 1 ==> app.opened_group(id).app.library.layout
            == LayoutMode::Multi,
        app.opened_group(id).effects.closed == app.open,
{
    lemma_open_all_contains(Seq::empty(), app.connections_under(id), i);
}

proof fn lemma_open_all_contains(open: Seq<Id>, connections: Seq<ConnectionSpec>, i: int)
    requires
        0 <= i < connections.len(),
    ensures
        open_all(open, connections).0.contains(connections[i].id),
    decreases connections.len(),
{
    let before = open_all(open, connections.drop_last()).0;
    let after = open_all(open, connections).0;
    if i < connections.len() - 1 {
        lemma_open_all_contains(open, connections.drop_last(), i);
        let k = choose|k: int| 0 <= k < before.len() && before[k] == connections[i].id;
        assert(after[k] == before[k]);
    } else if !before.contains(connections[i].id) {
        assert(after[before.len() as int] == connections[i].id);
    }
}

/// Until it is saved, editing a wall changes nothing that is written: unlocking, resizing and
/// placing touch neither the library nor the file, and closing a tile or cancelling leaves
/// every saved wall as it is.
pub proof fn law_edits_stay_in_the_draft(
    app: AppSpec,
    connection: Id,
    row: usize,
    col: usize,
    rows: isize,
    cols: isize,
)
    ensures
        app.begun_edit().library == app.library,
        app.resized_view(rows, cols).library == app.library,
        app.placed_in_view(connection, row, col).app.library == app.library,
        !app.placed_in_view(connection, row, col).effects.save,
        app.closed_stream(connection).app.library.views == app.library.views,
        app.cancelled_edit().app.library.views == app.library.views,
{
}

/// What opening connections has open in the end: what was, and those.
pub(crate) proof fn lemma_open_all_members(open: Seq<Id>, connections: Seq<ConnectionSpec>, id: Id)
    ensures
        open_all(open, connections).0.contains(id) <==> open.contains(id) || exists|i: int|
            0 <= i < connections.len() && (#[trigger] connections[i]).id == id,
    decreases connections.len(),
{
    if connections.len() > 0 {
        let rest = connections.drop_last();
        let last = connections.last();
        lemma_open_all_members(open, rest, id);
        let before = open_all(open, rest).0;
        let after = open_all(open, connections).0;
        assert(connections[connections.len() - 1] == last);
        if after.contains(id) {
            let k = choose|k: int| 0 <= k < after.len() && after[k] == id;
            if k < before.len() {
                assert(before[k] == id);
            }
        }
        if before.contains(id) {
            let k = choose|k: int| 0 <= k < before.len() && before[k] == id;
            assert(after[k] == id);
        }
        if last.id == id && !before.contains(id) {
            assert(after[before.len() as int] == id);
        }
        if exists|i: int| 0 <= i < rest.len() && (#[trigger] rest[i]).id == id {
            let i = choose|i: int| 0 <= i < rest.len() && (#[trigger] rest[i]).id == id;
            assert(connections[i].id == id);
        }
        if exists|i: int| 0 <= i < connections.len() && (#[trigger] connections[i]).id == id {
            let i = choose|i: int|
                0 <= i < connections.len() && (#[trigger] connections[i]).id == id;
            if i < rest.len() {
                assert(rest[i].id == id);
            }
        }
    }
}

/// Which connections are known among ids.
pub(crate) proof fn lemma_known_members(library: LibrarySpec, ids: Seq<Id>, id: Id)
    ensures
        (exists|i: int|
            0 <= i < known(library, ids).len() && (#[trigger] known(library, ids)[i]).id == id)
            <==> ids.contains(id) && library.connection(id) is Some,
    decreases ids.len(),
{
    let all = known(library, ids);
    if ids.len() > 0 {
        let rest = ids.drop_last();
        let last = ids.last();
        let before = known(library, rest);
        lemma_known_members(library, rest, id);
        law_find(library.roots, last);
        assert(ids[ids.len() - 1] == last);
        if exists|i: int| 0 <= i < all.len() && (#[trigger] all[i]).id == id {
            let i = choose|i: int| 0 <= i < all.len() && (#[trigger] all[i]).id == id;
            if i < before.len() {
                assert(before[i].id == id);
                let k = choose|k: int| 0 <= k < rest.len() && rest[k] == id;
                assert(ids[k] == id);
            }
        }
        if ids.contains(id) && library.connection(id) is Some {
            let k = choose|k: int| 0 <= k < ids.len() && ids[k] == id;
            if k < rest.len() {
                assert(rest[k] == id);
                let i = choose|i: int| 0 <= i < before.len() && (#[trigger] before[i]).id == id;
                assert(all[i].id == id);
            } else {
                assert(all[before.len() as int].id == id);
            }
        }
    }
}

/// Loading a saved wall opens exactly the connections that it shows and the library knows.
pub proof fn law_load_opens_exactly_the_wall(app: AppSpec, view: Id, id: Id)
    requires
        app.library.view(view) is Some,
    ensures
        app.loaded_view(view).app.open.contains(id) <==> shown(
            app.library.view(view)->0.cells,
        ).contains(id) && app.library.connection(id) is Some,
        app.loaded_view(view).app.active_grid() == app.library.view(view),
{
    let ids = shown(app.library.view(view)->0.cells);
    lemma_known_members(app.library, ids, id);
    lemma_open_all_members(Seq::empty(), known(app.library, ids), id);
}

/// What is left after taking ids out of distinct ones.
proof fn lemma_without_each_members(ids: Seq<Id>, gone: Seq<Id>, id: Id)
    requires
        ids.no_duplicates(),
    ensures
        without_each(ids, gone).0.contains(id) <==> ids.contains(id) && !gone.contains(id),
    decreases gone.len(),
{
    if gone.len() > 0 {
        let rest = gone.drop_last();
        let last = gone.last();
        lemma_without_each_members(ids, rest, id);
        lemma_without_each_members(ids, rest, last);
        lemma_without_each_distinct(ids, rest);
        let left = without_each(ids, rest).0;
        lemma_position(left, last, 0);
        if let Some(at) = position(left, last, 0) {
            lemma_remove_distinct(left, at);
        }
        assert(gone[gone.len() - 1] == last);
        if gone.contains(id) {
            let k = choose|k: int| 0 <= k < gone.len() && gone[k] == id;
            if k < rest.len() {
                assert(rest[k] == id);
            }
        }
        if rest.contains(id) {
            let k = choose|k: int| 0 <= k < rest.len() && rest[k] == id;
            assert(gone[k] == id);
        }
        if left.contains(id) && id == last {
            let k = choose|k: int| 0 <= k < left.len() && left[k] == id;
            assert(left[k] == last);
        }
    }
}

/// Putting a connection on the working copy opens it, if the library knows it, and closes
/// exactly those that it evicts, so that the wall shows what is open.
pub proof fn law_place_opens_and_evicts(app: AppSpec, connection: Id, row: usize, col: usize, id: Id)
    requires
        app.draft is Some,
        app.open.no_duplicates(),
    ensures
        app.placed_in_view(connection, row, col).app.open.contains(id) <==> (id == connection
            && app.library.connection(connection) is Some) || (app.open.contains(id) && !evicted(
            app.draft->0.cells,
            connection,
            row as int,
            col as int,
        ).contains(id)),
        !evicted(app.draft->0.cells, connection, row as int, col as int).contains(connection),
{
    let cells = app.draft->0.cells;
    let pred = |cell: GridCell|
        cell.occupies(row as int, col as int) && cell.connection != connection;
    let gone = evicted(cells, connection, row as int, col as int);
    let kept = cells.filter(pred);
    assert(!gone.contains(connection)) by {
        if gone.contains(connection) {
            let k = choose|k: int| 0 <= k < gone.len() && gone[k] == connection;
            assert(kept[k].connection == connection);
            cells.lemma_filter_pred(pred, k);
        }
    }
    lemma_without_each_members(app.open, gone, id);
    let found_one = match app.library.connection(connection) {
        Some(c) => seq![c],
        None => Seq::empty(),
    };
    law_find(app.library.roots, connection);
    lemma_open_all_members(without_each(app.open, gone).0, found_one, id);
    if app.library.connection(connection) is Some {
        assert(found_one[0].id == connection);
    }
}

/// A locked wall takes no edits.
pub proof fn law_locked_wall_is_fixed(
    app: AppSpec,
    connection: Id,
    row: usize,
    col: usize,
    rows: isize,
    cols: isize,
)
    requires
        app.draft is None,
    ensures
        app.resized_view(rows, cols) == app,
        app.placed_in_view(connection, row, col) == app.same(),
        app.committed_edit() == app.same(),
        app.cancelled_edit() == app.same(),
{
}

/// Saving puts the working copy in place of the wall it was taken from and locks the wall;
/// every other wall stays as it is.
pub proof fn law_commit_writes_the_draft(app: AppSpec, k: int)
    requires
        app.draft is Some,
        view_index(app.library.views, app.draft->0.id, 0) == Some(k),
    ensures
        app.committed_edit().app.draft is None,
        app.committed_edit().app.library.view(app.draft->0.id) == app.draft,
        app.committed_edit().app.library.views == app.library.views.update(k, app.draft->0),
        app.committed_edit().effects.save,
{
    lemma_view_index_is_first(app.library.views, app.draft->0.id, 0);
    let after = app.library.views.update(k, app.draft->0);
    lemma_view_index_is_first(after, app.draft->0.id, 0);
    assert(after[k].id == app.draft->0.id);
    assert forall|j: int| 0 <= j < k implies (#[trigger] after[j]).id != app.draft->0.id by {
        assert(after[j] == app.library.views[j]);
    }
}

/// Unlocking a wall and saving it at once changes no wall.
pub proof fn law_edit_without_change(app: AppSpec)
    requires
        app.draft is None,
    ensures
        app.begun_edit().committed_edit().app.library.views == app.library.views,
{
    if let Some(id) = app.library.active_view {
        lemma_view_index_is_first(app.library.views, id, 0);
        if let Some(k) = view_index(app.library.views, id, 0) {
            assert(app.library.views.update(k, app.library.views[k]) =~= app.library.views);
        }
    }
}

/// Whatever was done to the working copy, cancelling shows the saved wall as loading it does,
/// with every saved wall as it was.
pub proof fn law_cancel_replays_the_saved_wall(app: AppSpec, id: Id)
    requires
        app.draft is Some,
        app.library.active_view == Some(id),
        app.library.view(id) is Some,
    ensures
        app.cancelled_edit().app.draft is None,
        app.cancelled_edit().app.active_grid() == app.library.view(id),
        app.cancelled_edit().app.open == app.loaded_view(id).app.open,
        app.cancelled_edit().app.library.views == app.library.views,
{
}

/// Dragging a tile onto another keeps every tile and puts the dragged one directly in front of
/// the other.
pub proof fn law_reorder_keeps_every_tile(app: AppSpec, dragged: Id, target: Id)
    requires
        app.open.no_duplicates(),
        app.open.contains(dragged),
        app.open.contains(target),
        dragged != target,
    ensures
        app.reordered(dragged, target).app.open.to_multiset() == app.open.to_multiset(),
        exists|k: int|
            0 <= k < app.open.len() - 1 && #[trigger] app.reordered(dragged, target).app.open[k]
                == dragged && app.reordered(dragged, target).app.open[k + 1] == target,
{
    broadcast use vstd::seq_lib::group_to_multiset_ensures;

    lemma_position(app.open, dragged, 0);
    let d = choose|d: int| 0 <= d < app.open.len() && app.open[d] == dragged;
    assert(app.open[d] == dragged);
    let from = position(app.open, dragged, 0)->0;
    lemma_remove_distinct(app.open, from);
    let others = app.open.remove(from);
    assert(others.contains(target));
    lemma_position(others, target, 0);
    let t = choose|t: int| 0 <= t < others.len() && others[t] == target;
    assert(others[t] == target);
    let to = position(others, target, 0)->0;
    let after = others.insert(to, dragged);
    assert(others.to_multiset() =~= app.open.to_multiset().remove(dragged));
    assert(after.to_multiset() =~= others.to_multiset().insert(dragged));
    assert(app.open.to_multiset().contains(dragged));
    assert(after.to_multiset() =~= app.open.to_multiset());
    assert(after[to] == dragged && after[to + 1] == target);
    assert(app.reordered(dragged, target).app.open[to] == dragged);
}

/// The header stays on the tile that the cursor entered last: a late leave of another tile does
/// not take it away.
pub proof fn law_hover_survives_late_leave(app: AppSpec, left: Id, entered: Id)
    ensures
        left != entered ==> app.hovered(entered, true).hovered(left, false) == app.hovered(
            entered,
            true,
        ),
        app.hovered(entered, true).hovered_tile == Some(entered),
        app.hovered(entered, true).hovered(entered, false).hovered_tile is None,
{
}

/// The cells of the first `n` of some streams, left to right and row by row.
pub open spec fn row_major(ids: Seq<Id>, columns: int, n: int) -> Seq<GridCell> {
    Seq::new(
        n as nat,
        |i: int| single_cell((i / columns) as usize, (i % columns) as usize, ids[i]),
    )
}

/// Different places in reading order are different rows or columns.
proof fn lemma_reading_place(i: int, j: int, columns: int)
    requires
        columns >= 1,
        0 <= i,
        0 <= j,
        i != j,
    ensures
        i / columns != j / columns || i % columns != j % columns,
{
    lemma_fundamental_div_mod(i, columns);
    lemma_fundamental_div_mod(j, columns);
}

/// A place in reading order lies inside the grid.
pub(crate) proof fn lemma_place_inside(i: int, n: int, columns: int)
    requires
        columns >= 1,
        0 <= i < n,
    ensures
        0 <= i / columns < div_up(n, columns),
        i / columns <= i,
        0 <= i % columns < columns,
        div_up(n, columns) <= n,
{
    lemma_fundamental_div_mod(i, columns);
    lemma_fundamental_div_mod(n, columns);
    let q = n / columns;
    let p = i / columns;
    let r = i % columns;
    let m = n % columns;
    assert(0 <= r < columns && 0 <= m < columns);
    assert(0 <= p <= i) by (nonlinear_arith)
        requires
            i == columns * p + r,
            0 <= r < columns,
            i >= 0,
            columns >= 1,
    ;
    assert(m == 0 ==> p < q) by (nonlinear_arith)
        requires
            i == columns * p + r,
            n == columns * q + m,
            0 <= r,
            i < n,
            columns >= 1,
    ;
    assert(p < q + 1) by (nonlinear_arith)
        requires
            i == columns * p + r,
            n == columns * q + m,
            0 <= r,
            m < columns,
            i < n,
            columns >= 1,
    ;
    assert(q <= n && (m > 0 ==> q + 1 <= n)) by (nonlinear_arith)
        requires
            n == columns * q + m,
            0 <= m,
            n > 0,
            columns >= 1,
            q >= 0 || n < 0,
    ;
}

proof fn lemma_filled(grid: GridSpec, ids: Seq<Id>, columns: int, n: int)
    requires
        grid.cells.len() == 0,
        ids.no_duplicates(),
        0 <= n <= ids.len(),
        ids.len() <= usize::MAX,
        1 <= columns <= usize::MAX,
    ensures
        filled(grid, ids, columns, n) == (GridSpec { cells: row_major(ids, columns, n), ..grid }),
    decreases n,
{
    if n == 0 {
        assert(grid.cells =~= row_major(ids, columns, 0));
    } else {
        lemma_filled(grid, ids, columns, n - 1);
        let before = row_major(ids, columns, n - 1);
        let last = n - 1;
        lemma_place_inside(last, n, columns);
        let row = (last / columns) as usize;
        let col = (last % columns) as usize;
        let pred = stays(ids[last], row as int, col as int);
        assert forall|i: int| 0 <= i < before.len() implies pred(#[trigger] before[i]) by {
            lemma_place_inside(i, n, columns);
            lemma_reading_place(i, last, columns);
            assert(ids[i] != ids[last]);
        }
        lemma_filter_all(before, pred);
        assert(before.push(single_cell(row, col, ids[last])) =~= row_major(ids, columns, n));
    }
}

/// A saved wall gets the next number in its name.
pub(crate) proof fn lemma_snapshot_name(app: AppSpec, id: Id)
    requires
        app.open.no_duplicates(),
        0 < app.open.len() <= usize::MAX,
    ensures
        app.snapshot(id).name == "View "@ + decimal(app.library.views.len() as int + 1),
{
    let count = app.open.len() as int;
    lemma_columns_exist(count);
    let columns = columns_for(count);
    law_grid_is_squarest(count, columns);
    assert(columns <= count) by (nonlinear_arith)
        requires
            columns >= 1,
            (columns - 1) * (columns - 1) < count,
            count >= 1,
    ;
    let blank = GridSpec {
        id,
        name: "View "@ + decimal(app.library.views.len() as int + 1),
        rows: at_least_one(div_up(count, columns) as usize),
        cols: at_least_one(columns as usize),
        cells: Seq::empty(),
    };
    lemma_filled(blank, app.open, columns, count);
}

/// A saved wall holds every open stream once, left to right and row by row, on the squarest
/// grid, and is safe to draw.
pub proof fn law_saved_wall_is_row_major(app: AppSpec, id: Id)
    requires
        app.open.no_duplicates(),
        0 < app.open.len() <= usize::MAX,
    ensures
        ({
            let columns = columns_for(app.open.len() as int);
            &&& is_squarest(app.open.len() as int, columns)
            &&& app.snapshot(id).cols == columns
            &&& app.snapshot(id).rows == div_up(app.open.len() as int, columns)
            &&& app.snapshot(id).cells == row_major(app.open, columns, app.open.len() as int)
        }),
        app.snapshot(id).drawable(),
        app.snapshot(id).id == id,
        shown(app.snapshot(id).cells) == app.open,
{
    let count = app.open.len() as int;
    lemma_columns_exist(count);
    let columns = columns_for(count);
    law_grid_is_squarest(count, columns);
    lemma_place_inside(0, count, columns);
    assert(columns <= count) by (nonlinear_arith)
        requires
            columns >= 1,
            (columns - 1) * (columns - 1) < count,
            count >= 1,
    ;
    let blank = GridSpec {
        id,
        name: "View "@ + decimal(app.library.views.len() as int + 1),
        rows: at_least_one(div_up(count, columns) as usize),
        cols: at_least_one(columns as usize),
        cells: Seq::empty(),
    };
    lemma_filled(blank, app.open, columns, count);
    let grid = app.snapshot(id);
    let cells = row_major(app.open, columns, count);
    assert forall|i: int| 0 <= i < cells.len() implies (#[trigger] cells[i]).inside(
        grid.rows,
        grid.cols,
    ) by {
        lemma_place_inside(i, count, columns);
    }
    assert forall|i: int, j: int| 0 <= i < j < cells.len() implies !(#[trigger] cells[i]).overlaps(
        #[trigger] cells[j],
    ) by {
        lemma_place_inside(i, count, columns);
        lemma_place_inside(j, count, columns);
        lemma_reading_place(i, j, columns);
        lemma_overlaps(cells[i], cells[j]);
    }
    assert(shown(cells) =~= app.open);
}

/// A wall that was saved shows the same streams in the same order when it is loaded again.
pub proof fn law_saved_wall_comes_back(app: AppSpec, id: Id)
    requires
        app.open.no_duplicates(),
        0 < app.open.len() <= usize::MAX,
        all_known(app.library, app.open),
        app.library.view(id) is None,
    ensures
        app.saved_wall(id).app.loaded_view(id).app.open == app.open,
        app.saved_wall(id).app.loaded_view(id).app.active_grid() == Some(app.snapshot(id)),
{
    law_saved_wall_is_row_major(app, id);
    let saved = app.saved_wall(id).app;
    let views = app.library.views;
    lemma_view_index_is_first(views, id, 0);
    lemma_view_index_is_first(saved.library.views, id, 0);
    assert(saved.library.views[views.len() as int] == app.snapshot(id));
    assert forall|j: int| 0 <= j < views.len() implies (#[trigger] saved.library.views[j]).id
        != id by {
        assert(saved.library.views[j] == views[j]);
    }
    assert(view_index(saved.library.views, id, 0) == Some(views.len() as int));
    lemma_known_by_roots(app.library, saved.library, app.open);
    assert forall|i: int| 0 <= i < app.open.len() implies saved.library.connection(
        #[trigger] app.open[i],
    ) is Some by {
        assert(app.library.connection(app.open[i]) is Some);
    }
    lemma_reopen(saved.library, app.open);
}

/// Closing open streams one by one closes exactly those.
pub(crate) proof fn lemma_closed_each(app: AppSpec, gone: Seq<Id>)
    requires
        app.open.no_duplicates(),
        gone.no_duplicates(),
        forall|i: int| 0 <= i < gone.len() ==> app.open.contains(#[trigger] gone[i]),
    ensures
        app.closed_each(gone).effects.closed == gone,
        app.closed_each(gone).app.open.no_duplicates(),
        forall|id: Id| #[trigger]
            app.closed_each(gone).app.open.contains(id) <==> app.open.contains(id)
                && !gone.contains(id),
    decreases gone.len(),
{
    if gone.len() == 0 {
        assert(app.closed_each(gone).effects.closed =~= gone);
    } else {
        let rest = gone.drop_last();
        let last = gone.last();
        assert forall|i: int, j: int| 0 <= i < rest.len() && 0 <= j < rest.len() && i != j implies rest[i]
            != rest[j] by {
            assert(rest[i] == gone[i] && rest[j] == gone[j]);
        }
        assert forall|i: int| 0 <= i < rest.len() implies app.open.contains(#[trigger] rest[i]) by {
            assert(rest[i] == gone[i]);
        }
        lemma_closed_each(app, rest);
        let before = app.closed_each(rest).app.open;
        assert(gone[gone.len() - 1] == last);
        assert(!rest.contains(last)) by {
            if rest.contains(last) {
                let k = choose|k: int| 0 <= k < rest.len() && rest[k] == last;
                assert(gone[k] == gone[gone.len() - 1]);
            }
        }
        assert(before.contains(last));
        let k = choose|k: int| 0 <= k < before.len() && before[k] == last;
        lemma_position(before, last, 0);
        assert(before[k] == last);
        let at = position(before, last, 0)->0;
        lemma_remove_distinct(before, at);
        assert(rest + seq![last] =~= gone);
        let after = app.closed_each(gone).app.open;
        assert(after == before.remove(at));
        assert forall|id: Id| #[trigger] after.contains(id) <==> app.open.contains(id)
            && !gone.contains(id) by {
            assert(gone.contains(id) <==> rest.contains(id) || id == last) by {
                if gone.contains(id) {
                    let m = choose|m: int| 0 <= m < gone.len() && gone[m] == id;
                    if m < rest.len() {
                        assert(rest[m] == id);
                    }
                }
                if rest.contains(id) {
                    let m = choose|m: int| 0 <= m < rest.len() && rest[m] == id;
                    assert(gone[m] == id);
                }
            }
            assert(before.contains(id) <==> app.open.contains(id) && !rest.contains(id));
        }
    }
}

/// A filter of distinct elements keeps distinct elements.
pub(crate) proof fn lemma_filter_distinct(ids: Seq<Id>, pred: spec_fn(Id) -> bool)
    requires
        ids.no_duplicates(),
    ensures
        ids.filter(pred).no_duplicates(),
        forall|id: Id| #[trigger]
            ids.filter(pred).contains(id) <==> ids.contains(id) && pred(id),
    decreases ids.len(),
{
    reveal(Seq::filter);
    if ids.len() > 0 {
        let rest = ids.drop_last();
        let last = ids.last();
        assert forall|i: int, j: int| 0 <= i < rest.len() && 0 <= j < rest.len() && i != j implies rest[i]
            != rest[j] by {
            assert(rest[i] == ids[i] && rest[j] == ids[j]);
        }
        lemma_filter_distinct(rest, pred);
        let kept = rest.filter(pred);
        let all = ids.filter(pred);
        assert forall|id: Id| ids.contains(id) <==> #[trigger] rest.contains(id) || id == last by {
            if ids.contains(id) {
                let m = choose|m: int| 0 <= m < ids.len() && ids[m] == id;
                if m < rest.len() {
                    assert(rest[m] == id);
                }
            }
            if rest.contains(id) {
                let m = choose|m: int| 0 <= m < rest.len() && rest[m] == id;
                assert(ids[m] == id);
            }
            assert(ids[ids.len() - 1] == last);
        }
        assert(!rest.contains(last)) by {
            if rest.contains(last) {
                let m = choose|m: int| 0 <= m < rest.len() && rest[m] == last;
                assert(ids[m] == ids[ids.len() - 1]);
            }
        }
        if pred(last) {
            assert(!kept.contains(last));
            assert(all =~= kept.insert(kept.len() as int, last));
            lemma_insert_distinct(kept, kept.len() as int, last);
            assert forall|id: Id| #[trigger] all.contains(id) <==> ids.contains(id) && pred(id) by {
                assert(rest.contains(id) || id == last || !ids.contains(id));
                if all.contains(id) {
                    let m = choose|m: int| 0 <= m < all.len() && all[m] == id;
                    if m < kept.len() {
                        assert(kept[m] == id);
                        assert(kept.contains(id));
                    }
                }
                if kept.contains(id) {
                    let m = choose|m: int| 0 <= m < kept.len() && kept[m] == id;
                    assert(all[m] == id);
                }
                assert(all[kept.len() as int] == last);
            }
        } else {
            assert forall|id: Id| #[trigger] all.contains(id) <==> ids.contains(id) && pred(id) by {
                assert(kept.contains(id) <==> rest.contains(id) && pred(id));
            }
        }
    }
}

/// Deleting a node closes exactly the open streams at or below it.
pub proof fn law_delete_closes_what_is_below(app: AppSpec, id: Id)
    requires
        app.open.no_duplicates(),
        app.selected == Some(id),
    ensures
        app.deleted_selected().effects.closed == app.open_under(id),
        forall|open: Id| #[trigger]
            app.deleted_selected().app.open.contains(open) <==> app.open.contains(open)
                && !app.library.is_ancestor(id, open),
{
    let start = AppSpec { selected: None, ..app };
    let gone = start.open_under(id);
    let pred = |open: Id| start.library.is_ancestor(id, open);
    assert((|open: Id| app.library.is_ancestor(id, open)) =~= pred);
    lemma_filter_distinct(app.open, pred);
    assert forall|i: int| 0 <= i < gone.len() implies start.open.contains(#[trigger] gone[i]) by {
        assert(gone.contains(gone[i]));
    }
    lemma_closed_each(start, gone);
    assert forall|open: Id| #[trigger]
        app.deleted_selected().app.open.contains(open) <==> app.open.contains(open)
            && !app.library.is_ancestor(id, open) by {
        assert(start.closed_each(gone).app.open.contains(open) <==> start.open.contains(open)
            && !gone.contains(open));
        assert(gone.contains(open) <==> app.open.contains(open) && pred(open));
    }
}

/// Saving the sheet of a connection without changing it leaves the connection as it is, where
/// its texts have no white space around them and none that is optional is empty.
pub proof fn law_unchanged_sheet_keeps_connection(connection: ConnectionSpec)
    requires
        trimmed(connection.name) == connection.name,
        connection.name.len() > 0,
        trimmed(connection.url) == connection.url,
        connection.username matches Some(user) ==> trimmed(user) == user && user.len() > 0,
        connection.password matches Some(password) ==> password.len() > 0,
    ensures
        FieldsSpec::of_connection(Some(connection)).connection(
            connection.id,
            connection.transport,
        ) == connection,
{
    assert(trimmed(Seq::<char>::empty()) =~= Seq::<char>::empty());
}

/// Whether every wall, saved or in the works, is safe to draw.
pub open spec fn walls_are_safe(app: AppSpec) -> bool {
    &&& forall|k: int|
        0 <= k < app.library.views.len() ==> (#[trigger] app.library.views[k]).drawable()
    &&& app.draft matches Some(draft) ==> draft.drawable()
}

proof fn lemma_closed_each_safe(app: AppSpec, ids: Seq<Id>)
    requires
        walls_are_safe(app),
    ensures
        walls_are_safe(app.closed_each(ids).app),
    decreases ids.len(),
{
    if ids.len() > 0 {
        lemma_closed_each_safe(app, ids.drop_last());
        let before = app.closed_each(ids.drop_last()).app;
        if let Some(draft) = before.draft {
            law_remove_from_grid(draft, ids.last());
        }
    }
}

/// Walls are safe to draw at start-up, and every action that changes one keeps it so: those of
/// a library that was made safe, and those that the window saves, resizes, fills or renames.
pub proof fn law_walls_stay_safe(
    library: LibrarySpec,
    app: AppSpec,
    fields: FieldsSpec,
    a: Id,
    row: usize,
    col: usize,
    rows: isize,
    cols: isize,
)
    requires
        walls_are_safe(app),
        app.open.no_duplicates(),
        app.open.len() <= usize::MAX,
        app.draft matches Some(draft) ==> row < draft.rows && col < draft.cols,
    ensures
        walls_are_safe(AppSpec::restored(library.sanitized()).app),
        walls_are_safe(app.saved_wall(a).app),
        walls_are_safe(app.begun_edit()),
        walls_are_safe(app.committed_edit().app),
        walls_are_safe(app.cancelled_edit().app),
        walls_are_safe(app.resized_view(rows, cols)),
        walls_are_safe(app.placed_in_view(a, row, col).app),
        walls_are_safe(app.deleted_view(a).app),
        walls_are_safe(app.closed_stream(a).app),
        walls_are_safe(app.submitted_form(fields, a).app),
        walls_are_safe(app.deleted_selected().app),
{
    law_sanitize_makes_safe(library);
    let views = app.library.views;
    if app.open.len() > 0 {
        law_saved_wall_is_row_major(app, a);
        let more = views.push(app.snapshot(a));
        assert forall|k: int| 0 <= k < more.len() implies (#[trigger] more[k]).drawable() by {
            if k < views.len() {
                assert(more[k] == views[k]);
            }
        }
    }
    if let Some(id) = app.library.active_view {
        lemma_view_index_is_first(views, id, 0);
    }
    if let Some(draft) = app.draft {
        lemma_view_index_is_first(views, draft.id, 0);
        if let Some(k) = view_index(views, draft.id, 0) {
            let after = views.update(k, draft);
            assert forall|j: int| 0 <= j < after.len() implies (#[trigger] after[j]).drawable() by {
                assert(after[j] == draft || after[j] == views[j]);
            }
        }
        law_clamp_makes_drawable(
            GridSpec {
                rows: at_least_one(moved_by(draft.rows, rows)),
                cols: at_least_one(moved_by(draft.cols, cols)),
                ..draft
            },
        );
        law_place_keeps_drawable(draft, a, row, col);
        law_remove_from_grid(draft, a);
    }
    let pred = |view: GridSpec| view.id != a;
    let kept = views.filter(pred);
    assert forall|k: int| 0 <= k < kept.len() implies (#[trigger] kept[k]).drawable() by {
        assert(kept.contains(kept[k]));
        views.lemma_filter_contains_rev(pred, kept[k]);
        let m = choose|m: int| 0 <= m < views.len() && views[m] == kept[k];
        assert(views[m].drawable());
    }
    if let Some(form) = app.form {
        if let Some(id) = form.editing {
            lemma_view_index_is_first(views, id, 0);
            if let Some(k) = view_index(views, id, 0) {
                let name = trimmed(fields.name);
                let after = views.update(k, GridSpec { name, ..views[k] });
                assert forall|j: int| 0 <= j < after.len() implies (#[trigger] after[j]).drawable() by {
                    assert(views[j].drawable());
                    if j == k {
                        lemma_same_cells_drawable(views[k], after[k]);
                    }
                }
            }
            if let Some(draft) = app.draft {
                lemma_same_cells_drawable(draft, GridSpec { name: trimmed(fields.name), ..draft });
            }
        }
    }
    if let Some(id) = app.selected {
        let start = AppSpec { selected: None, ..app };
        lemma_closed_each_safe(start, start.open_under(id));
    }
}

/// Only the size and the cells of a wall decide whether it is safe to draw.
proof fn lemma_same_cells_drawable(a: GridSpec, b: GridSpec)
    requires
        a.drawable(),
        a.rows == b.rows,
        a.cols == b.cols,
        a.cells == b.cells,
    ensures
        b.drawable(),
{
}

} // verus!

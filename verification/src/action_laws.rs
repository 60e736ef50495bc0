//! What the window's actions leave alone, and how what they ask for fits what they change.

use vstd::multiset::Multiset;
use vstd::prelude::*;

use crate::connection::ConnectionSpec;
use crate::editing::{evicted, shown, without_each};
use crate::forms::FieldsSpec;
use crate::grid_laws::law_remove_takes_no_other;
use crate::id::Id;
use crate::library::LibrarySpec;
use crate::prefs::{LayoutMode, ThemePref};
use crate::sheet_laws::lemma_closed_each_keeps;
use crate::window::{known, open_all, position, AppSpec, Change};
use crate::window_laws::{lemma_closed_each, lemma_filter_distinct, lemma_position};

verus! {

// ---- streams start and stop as tiles come and go ----

/// The ids of connections.
pub open spec fn ids_of(connections: Seq<ConnectionSpec>) -> Seq<Id> {
    connections.map_values(|c: ConnectionSpec| c.id)
}

/// Whether the tiles after an action are those before it, without the streams that it stops and
/// with those that it starts, each counted as often as it is there.
pub open spec fn is_balanced(open: Seq<Id>, change: Change) -> bool {
    change.app.open.to_multiset().add(change.effects.closed.to_multiset())
        == open.to_multiset().add(ids_of(change.effects.started).to_multiset())
}

proof fn lemma_open_all_balanced(open: Seq<Id>, connections: Seq<ConnectionSpec>)
    ensures
        ({
            let (after, started) = open_all(open, connections);
            after.to_multiset() == open.to_multiset().add(ids_of(started).to_multiset())
        }),
    decreases connections.len(),
{
    broadcast use vstd::seq_lib::group_to_multiset_ensures;

    let (after, started) = open_all(open, connections);
    if connections.len() == 0 {
        assert(ids_of(started) =~= Seq::<Id>::empty());
        assert(after.to_multiset() =~= open.to_multiset().add(ids_of(started).to_multiset()));
    } else {
        let (before, begun) = open_all(open, connections.drop_last());
        lemma_open_all_balanced(open, connections.drop_last());
        let last = connections.last();
        if !before.contains(last.id) {
            assert(ids_of(started) =~= ids_of(begun).push(last.id));
            assert(after.to_multiset() =~= open.to_multiset().add(ids_of(started).to_multiset()));
        }
    }
}

proof fn lemma_without_each_balanced(ids: Seq<Id>, gone: Seq<Id>)
    ensures
        ({
            let (left, closed) = without_each(ids, gone);
            left.to_multiset().add(closed.to_multiset()) == ids.to_multiset()
        }),
    decreases gone.len(),
{
    broadcast use vstd::seq_lib::group_to_multiset_ensures;

    let (left, closed) = without_each(ids, gone);
    if gone.len() == 0 {
        assert(left.to_multiset().add(closed.to_multiset()) =~= ids.to_multiset());
    } else {
        let (before, out) = without_each(ids, gone.drop_last());
        lemma_without_each_balanced(ids, gone.drop_last());
        lemma_position(before, gone.last(), 0);
        if let Some(at) = position(before, gone.last(), 0) {
            assert(before.to_multiset().count(before[at]) > 0) by {
                assert(before.contains(before[at]));
            }
            assert(left.to_multiset() =~= before.to_multiset().remove(before[at]));
            assert(closed.to_multiset() =~= out.to_multiset().insert(gone.last()));
            assert(left.to_multiset().add(closed.to_multiset()) =~= ids.to_multiset());
        }
    }
}

proof fn lemma_closed_each_balanced(app: AppSpec, gone: Seq<Id>)
    ensures
        app.closed_each(gone).app.open.to_multiset().add(
            app.closed_each(gone).effects.closed.to_multiset(),
        ) == app.open.to_multiset(),
    decreases gone.len(),
{
    broadcast use vstd::seq_lib::group_to_multiset_ensures;

    let change = app.closed_each(gone);
    if gone.len() == 0 {
        assert(change.app.open.to_multiset().add(change.effects.closed.to_multiset())
            =~= app.open.to_multiset());
    } else {
        let before = app.closed_each(gone.drop_last());
        lemma_closed_each_balanced(app, gone.drop_last());
        lemma_position(before.app.open, gone.last(), 0);
        if let Some(at) = position(before.app.open, gone.last(), 0) {
            let open = before.app.open;
            assert(open.to_multiset().count(open[at]) > 0) by {
                assert(open.contains(open[at]));
            }
            assert(change.app.open.to_multiset() =~= open.to_multiset().remove(open[at]));
            assert(change.effects.closed =~= before.effects.closed.push(gone.last()));
            assert(change.app.open.to_multiset().add(change.effects.closed.to_multiset())
                =~= app.open.to_multiset());
        } else {
            assert(change.effects.closed =~= before.effects.closed);
        }
    }
}

/// An action that neither starts nor stops a stream keeps every tile.
proof fn lemma_quiet(open: Seq<Id>, change: Change)
    requires
        change.app.open == open,
        change.effects.closed.len() == 0,
        change.effects.started.len() == 0,
    ensures
        is_balanced(open, change),
{
    assert(change.effects.closed =~= Seq::<Id>::empty());
    assert(ids_of(change.effects.started) =~= Seq::<Id>::empty());
}

/// An action that stops every stream and starts others has those open.
proof fn lemma_replaced(open: Seq<Id>, change: Change, connections: Seq<ConnectionSpec>)
    requires
        change.effects.closed == open,
        change.app.open == open_all(Seq::empty(), connections).0,
        change.effects.started == open_all(Seq::empty(), connections).1,
    ensures
        is_balanced(open, change),
{
    broadcast use vstd::seq_lib::group_to_multiset_ensures;

    lemma_open_all_balanced(Seq::empty(), connections);
    assert(Seq::<Id>::empty().to_multiset() =~= Multiset::<Id>::empty());
    assert(change.app.open.to_multiset().add(change.effects.closed.to_multiset())
        =~= open.to_multiset().add(ids_of(change.effects.started).to_multiset()));
}

proof fn lemma_opened_balanced(app: AppSpec, connection: ConnectionSpec)
    ensures
        is_balanced(app.open, app.opened(connection)),
{
    broadcast use vstd::seq_lib::group_to_multiset_ensures;

    let change = app.opened(connection);
    if app.library.layout == LayoutMode::Single {
        assert(ids_of(seq![connection]) =~= seq![connection.id]);
        assert(change.app.open.to_multiset().add(change.effects.closed.to_multiset())
            =~= app.open.to_multiset().add(ids_of(change.effects.started).to_multiset()));
    } else if app.open.contains(connection.id) {
        lemma_quiet(app.open, change);
    } else {
        assert(ids_of(seq![connection]) =~= Seq::<Id>::empty().push(connection.id));
        assert(change.app.open.to_multiset().add(change.effects.closed.to_multiset())
            =~= app.open.to_multiset().add(ids_of(change.effects.started).to_multiset()));
    }
}

/// Whatever the user does, a stream is started for every tile that appears and stopped for every
/// tile that goes, and no other.
pub proof fn law_streams_follow_the_tiles(
    library: LibrarySpec,
    app: AppSpec,
    connection: ConnectionSpec,
    fields: FieldsSpec,
    a: Id,
    b: Id,
    group: Option<Id>,
    row: usize,
    col: usize,
)
    ensures
        is_balanced(Seq::empty(), AppSpec::restored(library)),
        is_balanced(app.open, app.toggled_sidebar()),
        is_balanced(app.open, app.cycled_theme()),
        is_balanced(app.open, app.opened(connection)),
        is_balanced(app.open, app.clicked(a)),
        is_balanced(app.open, app.moved_node(a, group)),
        is_balanced(app.open, app.dropped_onto(a, b)),
        is_balanced(app.open, app.expanded_for_drag(a)),
        is_balanced(app.open, app.opened_group(a)),
        is_balanced(app.open, app.toggled_layout()),
        is_balanced(app.open, app.loaded_view(a)),
        is_balanced(app.open, app.closed_view()),
        is_balanced(app.open, app.saved_wall(a)),
        is_balanced(app.open, app.committed_edit()),
        is_balanced(app.open, app.cancelled_edit()),
        is_balanced(app.open, app.placed_in_view(a, row, col)),
        is_balanced(app.open, app.deleted_view(a)),
        is_balanced(app.open, app.reordered(a, b)),
        is_balanced(app.open, app.closed_stream(a)),
        is_balanced(app.open, app.added_group(a)),
        is_balanced(app.open, app.submitted_form(fields, a)),
        is_balanced(app.open, app.deleted_selected()),
{
    broadcast use vstd::seq_lib::group_to_multiset_ensures;

    let none = Seq::<Id>::empty();
    assert(none.to_multiset() =~= Multiset::<Id>::empty());
    let restored = AppSpec::restored(library);
    lemma_open_all_balanced(none, known(library, library.open));
    assert(restored.app.open.to_multiset().add(restored.effects.closed.to_multiset())
        =~= none.to_multiset().add(ids_of(restored.effects.started).to_multiset()));
    lemma_quiet(app.open, app.toggled_sidebar());
    lemma_quiet(app.open, app.cycled_theme());
    lemma_opened_balanced(app, connection);
    match crate::tree::found(app.library.roots, a) {
        Some(crate::tree::Tree::Stream(c)) => {
            lemma_opened_balanced(AppSpec { selected: Some(a), ..app }, c);
        },
        _ => {
            lemma_quiet(app.open, app.clicked(a));
        },
    }
    lemma_quiet(app.open, app.moved_node(a, group));
    lemma_quiet(app.open, app.dropped_onto(a, b));
    lemma_quiet(app.open, app.expanded_for_drag(a));
    if app.connections_under(a).len() == 0 {
        lemma_quiet(app.open, app.opened_group(a));
    } else {
        lemma_replaced(app.open, app.opened_group(a), app.connections_under(a));
    }
    lemma_toggled_balanced(app);
    lemma_loaded_balanced(app, a);
    lemma_closed_all_balanced(app.open, app.closed_view());
    lemma_quiet(app.open, app.saved_wall(a));
    lemma_quiet(app.open, app.committed_edit());
    match (app.draft, app.library.active_view) {
        (Some(_), Some(id)) => {
            lemma_loaded_balanced(AppSpec { draft: None, ..app }, id);
        },
        _ => {
            lemma_quiet(app.open, app.cancelled_edit());
        },
    }
    lemma_placed_balanced(app, a, row, col);
    if app.library.active_view == Some(a) {
        lemma_closed_all_balanced(app.open, app.deleted_view(a));
    } else {
        lemma_quiet(app.open, app.deleted_view(a));
    }
    lemma_reordered_balanced(app, a, b);
    lemma_closed_one_balanced(app, a);
    lemma_quiet(app.open, app.added_group(a));
    lemma_quiet(app.open, app.submitted_form(fields, a));
    match app.selected {
        Some(id) => {
            let start = AppSpec { selected: None, ..app };
            let change = app.deleted_selected();
            lemma_closed_each_balanced(start, start.open_under(id));
            assert(ids_of(change.effects.started) =~= none);
            assert(change.app.open.to_multiset().add(change.effects.closed.to_multiset())
                =~= app.open.to_multiset().add(ids_of(change.effects.started).to_multiset()));
        },
        None => {
            lemma_quiet(app.open, app.deleted_selected());
        },
    }
}

proof fn lemma_toggled_balanced(app: AppSpec)
    ensures
        is_balanced(app.open, app.toggled_layout()),
{
    broadcast use vstd::seq_lib::group_to_multiset_ensures;

    let change = app.toggled_layout();
    if change.app.library.layout == LayoutMode::Single && app.open.len() > 1 {
        let rest = app.open.drop_last();
        assert(app.open =~= rest.push(app.open.last()));
        assert(seq![app.open.last()] =~= Seq::<Id>::empty().push(app.open.last()));
        assert(ids_of(change.effects.started) =~= Seq::<Id>::empty());
        assert(change.app.open.to_multiset().add(change.effects.closed.to_multiset())
            =~= app.open.to_multiset().add(ids_of(change.effects.started).to_multiset()));
    } else {
        lemma_quiet(app.open, change);
    }
}

proof fn lemma_loaded_balanced(app: AppSpec, id: Id)
    ensures
        is_balanced(app.open, app.loaded_view(id)),
{
    match app.library.view(id) {
        Some(view) => {
            lemma_replaced(app.open, app.loaded_view(id), known(app.library, shown(view.cells)));
        },
        None => {
            lemma_quiet(app.open, app.loaded_view(id));
        },
    }
}

proof fn lemma_closed_all_balanced(open: Seq<Id>, change: Change)
    requires
        change.app.open.len() == 0,
        change.effects.closed == open,
        change.effects.started.len() == 0,
    ensures
        is_balanced(open, change),
{
    assert(change.app.open =~= Seq::<Id>::empty());
    assert(ids_of(change.effects.started) =~= Seq::<Id>::empty());
    let none = Seq::<Id>::empty().to_multiset();
    assert(none.add(open.to_multiset()) =~= open.to_multiset().add(none));
}

proof fn lemma_placed_balanced(app: AppSpec, connection: Id, row: usize, col: usize)
    ensures
        is_balanced(app.open, app.placed_in_view(connection, row, col)),
{
    let change = app.placed_in_view(connection, row, col);
    match app.draft {
        Some(draft) => {
            let gone = evicted(draft.cells, connection, row as int, col as int);
            let (left, closed) = without_each(app.open, gone);
            lemma_without_each_balanced(app.open, gone);
            let more = match app.library.connection(connection) {
                Some(c) => seq![c],
                None => Seq::empty(),
            };
            lemma_open_all_balanced(left, more);
            assert(change.app.open.to_multiset().add(change.effects.closed.to_multiset())
                =~= app.open.to_multiset().add(ids_of(change.effects.started).to_multiset()));
        },
        None => {
            lemma_quiet(app.open, change);
        },
    }
}

proof fn lemma_reordered_balanced(app: AppSpec, dragged: Id, target: Id)
    ensures
        is_balanced(app.open, app.reordered(dragged, target)),
{
    broadcast use vstd::seq_lib::group_to_multiset_ensures;

    let change = app.reordered(dragged, target);
    lemma_position(app.open, dragged, 0);
    if change.app.open == app.open {
        lemma_quiet(app.open, change);
    } else {
        let from = position(app.open, dragged, 0)->0;
        let others = app.open.remove(from);
        lemma_position(others, target, 0);
        let to = position(others, target, 0)->0;
        assert(app.open.contains(dragged));
        assert(others.to_multiset() =~= app.open.to_multiset().remove(dragged));
        assert(others.insert(to, dragged).to_multiset() =~= others.to_multiset().insert(dragged));
        assert(change.app.open.to_multiset() =~= app.open.to_multiset());
        assert(change.effects.closed =~= Seq::<Id>::empty());
        assert(ids_of(change.effects.started) =~= Seq::<Id>::empty());
    }
}

proof fn lemma_closed_one_balanced(app: AppSpec, id: Id)
    ensures
        is_balanced(app.open, app.closed_stream(id)),
{
    broadcast use vstd::seq_lib::group_to_multiset_ensures;

    let change = app.closed_stream(id);
    lemma_position(app.open, id, 0);
    match position(app.open, id, 0) {
        Some(at) => {
            assert(app.open.contains(id));
            assert(seq![id] =~= Seq::<Id>::empty().push(id));
            assert(ids_of(change.effects.started) =~= Seq::<Id>::empty());
            assert(change.app.open.to_multiset() =~= app.open.to_multiset().remove(id));
            assert(change.app.open.to_multiset().add(change.effects.closed.to_multiset())
                =~= app.open.to_multiset().add(ids_of(change.effects.started).to_multiset()));
        },
        None => {
            lemma_quiet(app.open, change);
        },
    }
}

// ---- what an action has nothing to do with stays as it is ----

/// Whether a change leaves the look of the window alone: theme, layout and sidebar.
pub open spec fn keeps_look(app: AppSpec, change: Change) -> bool {
    &&& change.app.library.theme == app.library.theme
    &&& change.app.library.layout == app.library.layout
    &&& change.app.library.sidebar_hidden == app.library.sidebar_hidden
}

/// The sidebar button shows and hides the sidebar, the theme button goes on to the next theme,
/// the layout button switches between one stream and many, and opening a group of several
/// switches to many. Nothing else changes the look of the window.
pub proof fn law_look_changes_only_on_demand(
    app: AppSpec,
    connection: ConnectionSpec,
    fields: FieldsSpec,
    a: Id,
    b: Id,
    group: Option<Id>,
    row: usize,
    col: usize,
)
    ensures
        ({
            let change = app.toggled_sidebar();
            &&& change.app.library.sidebar_hidden != app.library.sidebar_hidden
            &&& change.app.library.theme == app.library.theme
            &&& change.app.library.layout == app.library.layout
        }),
        ({
            let change = app.cycled_theme();
            &&& change.app.library.theme == (match app.library.theme {
                ThemePref::System => ThemePref::Light,
                ThemePref::Light => ThemePref::Dark,
                ThemePref::Dark => ThemePref::System,
            })
            &&& change.app.library.sidebar_hidden == app.library.sidebar_hidden
            &&& change.app.library.layout == app.library.layout
        }),
        ({
            let change = app.toggled_layout();
            &&& change.app.library.layout != app.library.layout
            &&& change.app.library.theme == app.library.theme
            &&& change.app.library.sidebar_hidden == app.library.sidebar_hidden
        }),
        ({
            let change = app.opened_group(a);
            &&& change.app.library.layout == (if app.connections_under(a).len() > 1 {
                LayoutMode::Multi
            } else {
                app.library.layout
            })
            &&& change.app.library.theme == app.library.theme
            &&& change.app.library.sidebar_hidden == app.library.sidebar_hidden
        }),
        keeps_look(app, app.opened(connection)),
        keeps_look(app, app.clicked(a)),
        keeps_look(app, app.moved_node(a, group)),
        keeps_look(app, app.dropped_onto(a, b)),
        keeps_look(app, app.expanded_for_drag(a)),
        keeps_look(app, app.loaded_view(a)),
        keeps_look(app, app.closed_view()),
        keeps_look(app, app.saved_wall(a)),
        keeps_look(app, app.committed_edit()),
        keeps_look(app, app.cancelled_edit()),
        keeps_look(app, app.placed_in_view(a, row, col)),
        keeps_look(app, app.deleted_view(a)),
        keeps_look(app, app.reordered(a, b)),
        keeps_look(app, app.closed_stream(a)),
        keeps_look(app, app.added_group(a)),
        keeps_look(app, app.submitted_form(fields, a)),
        keeps_look(app, app.deleted_selected()),
{
    lemma_delete_keeps(app);
}

/// Deleting from the tree keeps the walls and the settings.
proof fn lemma_delete_keeps(app: AppSpec)
    ensures
        ({
            let after = app.deleted_selected().app;
            &&& after.library.theme == app.library.theme
            &&& after.library.layout == app.library.layout
            &&& after.library.sidebar_hidden == app.library.sidebar_hidden
            &&& after.library.views == app.library.views
            &&& after.library.active_view == app.library.active_view
            &&& after.form == app.form
            &&& after.hovered_tile == app.hovered_tile
            &&& after.error == app.error
        }),
{
    if let Some(id) = app.selected {
        let start = AppSpec { selected: None, ..app };
        lemma_closed_each_keeps(start, start.open_under(id));
    }
}

/// Whether a change leaves the tree alone.
pub open spec fn keeps_tree(app: AppSpec, change: Change) -> bool {
    change.app.library.roots == app.library.roots
}

/// What plays, how the window looks and which wall is shown have nothing to do with the tree.
pub proof fn law_playing_keeps_the_tree(
    library: LibrarySpec,
    app: AppSpec,
    connection: ConnectionSpec,
    a: Id,
    b: Id,
    row: usize,
    col: usize,
    rows: isize,
    cols: isize,
)
    ensures
        AppSpec::restored(library).app.library == library,
        keeps_tree(app, app.toggled_sidebar()),
        keeps_tree(app, app.cycled_theme()),
        keeps_tree(app, app.toggled_layout()),
        keeps_tree(app, app.opened(connection)),
        keeps_tree(app, app.opened_group(a)),
        keeps_tree(app, app.loaded_view(a)),
        keeps_tree(app, app.closed_view()),
        keeps_tree(app, app.saved_wall(a)),
        keeps_tree(app, app.committed_edit()),
        keeps_tree(app, app.cancelled_edit()),
        keeps_tree(app, app.placed_in_view(a, row, col)),
        keeps_tree(app, app.deleted_view(a)),
        keeps_tree(app, app.reordered(a, b)),
        keeps_tree(app, app.closed_stream(a)),
        app.begun_edit().library.roots == app.library.roots,
        app.resized_view(rows, cols).library.roots == app.library.roots,
        app.hovered(a, true).library == app.library,
        app.hovered(a, false).library == app.library,
{
}

/// Whether a change leaves the saved walls alone.
pub open spec fn keeps_walls(app: AppSpec, change: Change) -> bool {
    change.app.library.views == app.library.views
}

/// Only saving, committing, deleting and renaming a wall change a saved wall.
pub proof fn law_walls_change_only_on_demand(
    app: AppSpec,
    connection: ConnectionSpec,
    fields: FieldsSpec,
    a: Id,
    b: Id,
    group: Option<Id>,
    row: usize,
    col: usize,
)
    ensures
        keeps_walls(app, app.toggled_sidebar()),
        keeps_walls(app, app.cycled_theme()),
        keeps_walls(app, app.toggled_layout()),
        keeps_walls(app, app.opened(connection)),
        keeps_walls(app, app.clicked(a)),
        keeps_walls(app, app.moved_node(a, group)),
        keeps_walls(app, app.dropped_onto(a, b)),
        keeps_walls(app, app.expanded_for_drag(a)),
        keeps_walls(app, app.opened_group(a)),
        keeps_walls(app, app.loaded_view(a)),
        keeps_walls(app, app.closed_view()),
        keeps_walls(app, app.cancelled_edit()),
        keeps_walls(app, app.placed_in_view(a, row, col)),
        keeps_walls(app, app.reordered(a, b)),
        keeps_walls(app, app.closed_stream(a)),
        keeps_walls(app, app.added_group(a)),
        keeps_walls(app, app.deleted_selected()),
        (app.form matches Some(form) ==> form.target != crate::window::FormTarget::View)
            ==> keeps_walls(app, app.submitted_form(fields, a)),
{
    lemma_delete_keeps(app);
}

/// Whether a change leaves the rest of the window alone: the selection, the sheet, the tile under
/// the cursor and what is said of the last error.
pub open spec fn keeps_window(app: AppSpec, change: Change) -> bool {
    &&& change.app.selected == app.selected
    &&& change.app.form == app.form
    &&& change.app.hovered_tile == app.hovered_tile
    &&& change.app.error == app.error
}

/// What has nothing to do with the selection, the sheet, the cursor and the last error leaves
/// them alone; and so does what has nothing to do with the working copy of a wall.
pub proof fn law_actions_mind_their_own_business(
    app: AppSpec,
    connection: ConnectionSpec,
    fields: FieldsSpec,
    a: Id,
    b: Id,
    group: Option<Id>,
    row: usize,
    col: usize,
)
    ensures
        keeps_window(app, app.toggled_sidebar()),
        keeps_window(app, app.cycled_theme()),
        keeps_window(app, app.toggled_layout()),
        keeps_window(app, app.opened(connection)),
        keeps_window(app, app.moved_node(a, group)),
        keeps_window(app, app.dropped_onto(a, b)),
        keeps_window(app, app.expanded_for_drag(a)),
        keeps_window(app, app.opened_group(a)),
        keeps_window(app, app.loaded_view(a)),
        keeps_window(app, app.closed_view()),
        keeps_window(app, app.committed_edit()),
        keeps_window(app, app.cancelled_edit()),
        keeps_window(app, app.placed_in_view(a, row, col)),
        keeps_window(app, app.deleted_view(a)),
        keeps_window(app, app.reordered(a, b)),
        keeps_window(app, app.closed_stream(a)),
        app.clicked(a).app.form == app.form,
        app.clicked(a).app.draft == app.draft,
        app.toggled_sidebar().app.draft == app.draft,
        app.cycled_theme().app.draft == app.draft,
        app.toggled_layout().app.draft == app.draft,
        app.opened(connection).app.draft == app.draft,
        app.moved_node(a, group).app.draft == app.draft,
        app.dropped_onto(a, b).app.draft == app.draft,
        app.expanded_for_drag(a).app.draft == app.draft,
        app.opened_group(a).app.draft == app.draft,
        app.saved_wall(a).app.draft == app.draft,
        app.deleted_view(a).app.draft == app.draft,
        app.reordered(a, b).app.draft == app.draft,
        app.added_group(a).app.draft == app.draft,
        app.added_group(a).app.form == app.form,
        app.deleted_selected().app.form == app.form,
{
    lemma_delete_keeps(app);
}

/// Whether the saved wall on screen stays what it was.
pub open spec fn keeps_active(app: AppSpec, change: Change) -> bool {
    change.app.library.active_view == app.library.active_view
}

/// Opening a stream or a group leaves the saved wall that was on screen, and so do closing it and
/// deleting it; loading and saving one bring it on screen. Nothing else changes which it is.
pub proof fn law_active_wall_changes_only_on_demand(
    app: AppSpec,
    connection: ConnectionSpec,
    fields: FieldsSpec,
    a: Id,
    b: Id,
    group: Option<Id>,
    row: usize,
    col: usize,
)
    ensures
        app.opened(connection).app.library.active_view is None,
        app.connections_under(a).len() > 0 ==> app.opened_group(a).app.library.active_view is None,
        app.closed_view().app.library.active_view is None,
        app.library.view(a) is Some ==> app.loaded_view(a).app.library.active_view == Some(a),
        app.library.view(a) is None ==> keeps_active(app, app.loaded_view(a)),
        app.open.len() > 0 ==> app.saved_wall(a).app.library.active_view == Some(a),
        app.open.len() == 0 ==> keeps_active(app, app.saved_wall(a)),
        app.deleted_view(a).app.library.active_view == (if app.library.active_view == Some(a) {
            None
        } else {
            app.library.active_view
        }),
        keeps_active(app, app.toggled_sidebar()),
        keeps_active(app, app.cycled_theme()),
        keeps_active(app, app.toggled_layout()),
        keeps_active(app, app.moved_node(a, group)),
        keeps_active(app, app.dropped_onto(a, b)),
        keeps_active(app, app.expanded_for_drag(a)),
        keeps_active(app, app.committed_edit()),
        keeps_active(app, app.cancelled_edit()),
        keeps_active(app, app.placed_in_view(a, row, col)),
        keeps_active(app, app.reordered(a, b)),
        keeps_active(app, app.closed_stream(a)),
        keeps_active(app, app.added_group(a)),
        keeps_active(app, app.submitted_form(fields, a)),
        keeps_active(app, app.deleted_selected()),
{
    lemma_delete_keeps(app);
}

// ---- what is changed is written ----

/// Whether a change that touches the library is written.
pub open spec fn is_written(app: AppSpec, change: Change) -> bool {
    change.app.library != app.library ==> change.effects.save
}

/// Whether a change of the tree is drawn.
pub open spec fn is_drawn(app: AppSpec, change: Change) -> bool {
    change.app.library.roots != app.library.roots ==> change.effects.rebuild
}

/// What changes in the library is written at once, but for a group that only unfolds under a
/// drag and for leaving a wall by opening a stream that is open already; and what changes in the
/// tree is drawn anew, but for a group that folds by itself when it is clicked.
pub proof fn law_changes_are_written(
    app: AppSpec,
    connection: ConnectionSpec,
    fields: FieldsSpec,
    a: Id,
    b: Id,
    group: Option<Id>,
    row: usize,
    col: usize,
)
    ensures
        app.toggled_sidebar().effects.save,
        app.cycled_theme().effects.save,
        app.toggled_layout().effects.save,
        app.closed_view().effects.save,
        app.deleted_view(a).effects.save,
        app.added_group(a).effects.save,
        app.library.layout == LayoutMode::Single || !app.open.contains(connection.id)
            ==> app.opened(connection).effects.save,
        app.connections_under(a).len() > 0 ==> app.opened_group(a).effects.save,
        app.library.view(a) is Some ==> app.loaded_view(a).effects.save,
        app.open.len() > 0 ==> app.saved_wall(a).effects.save,
        app.draft is Some ==> app.committed_edit().effects.save,
        app.open.contains(a) ==> app.closed_stream(a).effects.save,
        app.selected is Some ==> app.deleted_selected().effects.save,
        is_written(app, app.moved_node(a, group)),
        is_written(app, app.dropped_onto(a, b)),
        is_written(app, app.opened_group(a)),
        is_written(app, app.loaded_view(a)),
        is_written(app, app.saved_wall(a)),
        is_written(app, app.committed_edit()),
        is_written(app, app.cancelled_edit()),
        is_written(app, app.placed_in_view(a, row, col)),
        is_written(app, app.reordered(a, b)),
        is_written(app, app.closed_stream(a)),
        is_written(app, app.submitted_form(fields, a)),
        is_written(app, app.deleted_selected()),
        is_drawn(app, app.moved_node(a, group)),
        is_drawn(app, app.dropped_onto(a, b)),
        is_drawn(app, app.expanded_for_drag(a)),
        is_drawn(app, app.added_group(a)),
        is_drawn(app, app.submitted_form(fields, a)),
        is_drawn(app, app.deleted_selected()),
{
    lemma_position(app.open, a, 0);
}

/// Opening a stream where only one is shown stops whatever plays and starts the stream, even if
/// it is that stream. Where many are shown it starts the stream at the end of the wall if it is
/// not open, and does nothing if it is.
pub proof fn law_open_starts_the_stream(app: AppSpec, connection: ConnectionSpec)
    ensures
        ({
            let change = app.opened(connection);
            let effects = change.effects;
            &&& app.library.layout == LayoutMode::Single ==> {
                &&& effects.closed == app.open
                &&& effects.started == seq![connection]
                &&& change.app.open == seq![connection.id]
            }
            &&& app.library.layout == LayoutMode::Multi && !app.open.contains(connection.id) ==> {
                &&& effects.closed.len() == 0
                &&& effects.started == seq![connection]
                &&& change.app.open == app.open.push(connection.id)
            }
            &&& app.library.layout == LayoutMode::Multi && app.open.contains(connection.id) ==> {
                &&& effects.closed.len() == 0
                &&& effects.started.len() == 0
                &&& change.app.open == app.open
            }
            &&& !effects.rebuild
        }),
{
}

/// Streams that are closed one by one leave the working copy, and every other cell stays.
proof fn lemma_closed_each_draft(app: AppSpec, gone: Seq<Id>)
    requires
        app.draft is Some,
        app.open.no_duplicates(),
        gone.no_duplicates(),
        forall|i: int| 0 <= i < gone.len() ==> app.open.contains(#[trigger] gone[i]),
    ensures
        ({
            let before = app.draft->0;
            let after = app.closed_each(gone).app.draft;
            &&& after is Some
            &&& forall|k: int|
                0 <= k < after->0.cells.len() ==> before.cells.contains(
                    #[trigger] after->0.cells[k],
                ) && !gone.contains(after->0.cells[k].connection)
            &&& forall|i: int|
                0 <= i < before.cells.len() && !gone.contains(
                    (#[trigger] before.cells[i]).connection,
                ) ==> after->0.cells.contains(before.cells[i])
        }),
    decreases gone.len(),
{
    let before = app.draft->0;
    if gone.len() > 0 {
        let rest = gone.drop_last();
        let last = gone.last();
        assert forall|i: int, j: int| 0 <= i < rest.len() && 0 <= j < rest.len() && i != j implies rest[i]
            != rest[j] by {
            assert(rest[i] == gone[i] && rest[j] == gone[j]);
        }
        assert forall|i: int| 0 <= i < rest.len() implies app.open.contains(#[trigger] rest[i]) by {
            assert(rest[i] == gone[i]);
        }
        lemma_closed_each_draft(app, rest);
        lemma_closed_each(app, rest);
        let mid = app.closed_each(rest).app;
        assert(gone[gone.len() - 1] == last);
        assert(!rest.contains(last)) by {
            if rest.contains(last) {
                let k = choose|k: int| 0 <= k < rest.len() && rest[k] == last;
                assert(gone[k] == gone[gone.len() - 1]);
            }
        }
        assert(mid.open.contains(last));
        lemma_position(mid.open, last, 0);
        let m = choose|m: int| 0 <= m < mid.open.len() && mid.open[m] == last;
        assert(mid.open[m] == last);
        let middle = mid.draft->0;
        let after = app.closed_each(gone).app.draft->0;
        assert(after == middle.without(last));
        let from = law_remove_takes_no_other(middle, last);
        assert forall|id: Id| #[trigger] gone.contains(id) <==> rest.contains(id) || id == last by {
            if gone.contains(id) {
                let k = choose|k: int| 0 <= k < gone.len() && gone[k] == id;
                if k < rest.len() {
                    assert(rest[k] == id);
                }
            }
            if rest.contains(id) {
                let k = choose|k: int| 0 <= k < rest.len() && rest[k] == id;
                assert(gone[k] == id);
            }
        }
        assert forall|k: int| 0 <= k < after.cells.len() implies before.cells.contains(
            #[trigger] after.cells[k],
        ) && !gone.contains(after.cells[k].connection) by {
            assert(0 <= from[k] < middle.cells.len());
            assert(middle.cells[from[k]] == after.cells[k]);
        }
        assert forall|i: int|
            0 <= i < before.cells.len() && !gone.contains(
                (#[trigger] before.cells[i]).connection,
            ) implies after.cells.contains(before.cells[i]) by {
            assert(middle.cells.contains(before.cells[i]));
            let j = choose|j: int| 0 <= j < middle.cells.len() && middle.cells[j] == before.cells[i];
            assert(middle.cells[j].connection != last);
            assert(from.contains(j));
            let k = choose|k: int| 0 <= k < from.len() && from[k] == j;
            assert(after.cells[k] == middle.cells[j]);
        }
    } else {
        assert forall|k: int| 0 <= k < before.cells.len() implies before.cells.contains(
            #[trigger] before.cells[k],
        ) by {}
    }
}

/// Deleting a node takes what was open at or below it off the working copy of a wall, and leaves
/// every other cell on it.
pub proof fn law_delete_clears_the_draft(app: AppSpec, id: Id)
    requires
        app.draft is Some,
        app.open.no_duplicates(),
        app.selected == Some(id),
    ensures
        ({
            let before = app.draft->0;
            let after = app.deleted_selected().app.draft;
            &&& after is Some
            &&& forall|k: int|
                0 <= k < after->0.cells.len() ==> {
                    let cell = #[trigger] after->0.cells[k];
                    &&& before.cells.contains(cell)
                    &&& !(app.open.contains(cell.connection) && app.library.is_ancestor(
                        id,
                        cell.connection,
                    ))
                }
            &&& forall|i: int|
                0 <= i < before.cells.len() && !(app.open.contains(
                    (#[trigger] before.cells[i]).connection,
                ) && app.library.is_ancestor(id, before.cells[i].connection))
                    ==> after->0.cells.contains(before.cells[i])
        }),
{
    let start = AppSpec { selected: None, ..app };
    let gone = start.open_under(id);
    let pred = |open: Id| start.library.is_ancestor(id, open);
    lemma_filter_distinct(app.open, pred);
    assert forall|i: int| 0 <= i < gone.len() implies start.open.contains(#[trigger] gone[i]) by {
        assert(gone.contains(gone[i]));
    }
    lemma_closed_each_draft(start, gone);
    assert forall|open: Id| #[trigger] gone.contains(open) <==> app.open.contains(open)
        && app.library.is_ancestor(id, open) by {
        assert(gone.contains(open) <==> app.open.contains(open) && pred(open));
    }
}

} // verus!

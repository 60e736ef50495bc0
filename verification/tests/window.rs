use rtsp_player::connection::{Connection, Transport};
use rtsp_player::forms::{Fields, RowOutcome};
use rtsp_player::grid::GridView;
use rtsp_player::id::Id;
use rtsp_player::library::Library;
use rtsp_player::player::{Status, Tone};
use rtsp_player::prefs::{LayoutMode, ThemePref};
use rtsp_player::screen::{view_menu, BarItem, SheetRow, ViewAction};
use rtsp_player::sidebar::{
    chevron, glyph, parse_key, row_menu, tree_items, MenuEntry, RowAction,
};
use rtsp_player::tree::Node;
use rtsp_player::window::{FormTarget, PlayerApp};

fn id(n: u128) -> Id {
    Id::from_u128(n)
}

fn camera(n: u128) -> Connection {
    let mut connection = Connection::new(&format!("cam {n}"), &format!("rtsp://cam{n}"));
    connection.id = id(n);
    connection
}

/// A group (100) of three cameras (1, 2, 3), then a camera (4) and an empty group (200).
fn app(layout: LayoutMode) -> PlayerApp {
    let library = Library {
        roots: vec![
            Node::Group {
                id: id(100),
                name: "house".to_string(),
                children: vec![
                    Node::Stream(camera(1)),
                    Node::Stream(camera(2)),
                    Node::Stream(camera(3)),
                ],
                expanded: true,
            },
            Node::Stream(camera(4)),
            Node::Group {
                id: id(200),
                name: "yard".to_string(),
                children: Vec::new(),
                expanded: false,
            },
        ],
        layout,
        ..Default::default()
    };
    PlayerApp::new(library).0
}

fn started(connections: &[Connection]) -> Vec<Id> {
    connections.iter().map(|c| c.id).collect()
}

fn fields(name: &str, url: &str, username: &str, password: &str) -> Fields {
    Fields {
        name: name.to_string(),
        url: url.to_string(),
        username: username.to_string(),
        password: password.to_string(),
    }
}

#[test]
fn streams_that_were_playing_reopen() {
    let mut library = app(LayoutMode::Multi).library;
    library.open = vec![id(3), id(9), id(100), id(1), id(3)];
    let (app, effects) = PlayerApp::new(library);
    assert_eq!(app.open, vec![id(3), id(1)]);
    assert_eq!(started(&effects.started), vec![id(3), id(1)]);
    assert!(!effects.save);
    assert!(effects.closed.is_empty());
}

#[test]
fn what_is_open_is_noted_for_the_next_launch() {
    let mut app = app(LayoutMode::Multi);
    app.on_item_click(id(2));
    app.on_item_click(id(1));
    assert_eq!(app.library.open, vec![id(2), id(1)]);
    let (again, _) = PlayerApp::new(app.library);
    assert_eq!(again.open, vec![id(2), id(1)]);
}

#[test]
fn single_mode_replaces() {
    let mut app = app(LayoutMode::Single);
    app.on_item_click(id(1));
    let effects = app.on_item_click(id(2));
    assert_eq!(app.open, vec![id(2)]);
    assert_eq!(effects.closed, vec![id(1)]);
    assert_eq!(started(&effects.started), vec![id(2)]);
    assert!(effects.save);
    // The same stream again starts over.
    let effects = app.on_item_click(id(2));
    assert_eq!(effects.closed, vec![id(2)]);
    assert_eq!(started(&effects.started), vec![id(2)]);
    assert_eq!(app.selected, Some(id(2)));
}

#[test]
fn multi_mode_adds() {
    let mut app = app(LayoutMode::Multi);
    app.on_item_click(id(1));
    let effects = app.on_item_click(id(2));
    assert_eq!(app.open, vec![id(1), id(2)]);
    assert!(effects.closed.is_empty());
    let effects = app.on_item_click(id(1));
    assert_eq!(app.open, vec![id(1), id(2)]);
    assert!(effects.started.is_empty());
    assert!(!effects.save);
}

#[test]
fn opening_leaves_a_saved_wall() {
    let mut app = app(LayoutMode::Multi);
    app.library.active_view = Some(id(50));
    app.open_stream(camera(1));
    assert_eq!(app.library.active_view, None);
}

#[test]
fn clicking_a_group_folds_it() {
    let mut app = app(LayoutMode::Multi);
    let effects = app.on_item_click(id(100));
    assert!(effects.save);
    assert!(matches!(app.library.find(id(100)), Some(Node::Group { expanded: false, .. })));
    app.on_item_click(id(100));
    assert!(matches!(app.library.find(id(100)), Some(Node::Group { expanded: true, .. })));
    let effects = app.on_item_click(id(77));
    assert!(!effects.save);
    assert_eq!(app.selected, Some(id(77)));
}

#[test]
fn the_sidebar_and_the_theme_are_saved() {
    let mut app = app(LayoutMode::Multi);
    assert!(app.toggle_sidebar().save);
    assert!(app.library.sidebar_hidden);
    assert!(app.cycle_theme().save);
    assert_eq!(app.library.theme, ThemePref::Light);
    app.save_failed("disk full");
    assert_eq!(app.error, Some("Could not save library: disk full".to_string()));
}

#[test]
fn new_items_go_into_the_selection() {
    let mut app = app(LayoutMode::Multi);
    assert_eq!(app.target_group(), None);
    app.select(id(200));
    assert_eq!(app.target_group(), Some(id(200)));
    app.select(id(2));
    assert_eq!(app.target_group(), Some(id(100)));
    app.select(id(4));
    assert_eq!(app.target_group(), None);
    app.select(id(77));
    assert_eq!(app.target_group(), None);
}

#[test]
fn dropping_moves_into_or_alongside() {
    let mut app = app(LayoutMode::Multi);
    let effects = app.drop_onto(id(4), id(200));
    assert!(effects.save && effects.rebuild);
    assert_eq!(app.library.parent_of(id(4)), Some(id(200)));
    app.drop_onto(id(4), id(2));
    assert_eq!(app.library.parent_of(id(4)), Some(id(100)));
    let effects = app.drop_onto(id(4), id(77));
    assert!(!effects.save && !effects.rebuild);
    assert!(app.move_node(id(4), None).save);
    assert_eq!(app.library.parent_of(id(4)), None);
    assert!(!app.move_node(id(100), Some(id(1))).rebuild);
    let last = app.library.roots[app.library.roots.len() - 1].id();
    let effects = app.move_node(last, Some(id(4242)));
    assert!(!effects.save && !effects.rebuild);
}

#[test]
fn hovering_a_folded_group_unfolds_it() {
    let mut app = app(LayoutMode::Multi);
    let effects = app.expand_for_drag(id(200));
    assert!(effects.rebuild && !effects.save);
    assert!(matches!(app.library.find(id(200)), Some(Node::Group { expanded: true, .. })));
    assert!(!app.expand_for_drag(id(200)).rebuild);
    assert!(!app.expand_for_drag(id(4)).rebuild);
}

#[test]
fn a_group_opens_as_a_set() {
    let mut app = app(LayoutMode::Single);
    app.on_item_click(id(4));
    let effects = app.open_group(id(100));
    assert_eq!(app.open, vec![id(1), id(2), id(3)]);
    assert_eq!(effects.closed, vec![id(4)]);
    assert_eq!(app.library.layout, LayoutMode::Multi);
    let effects = app.open_group(id(200));
    assert!(!effects.save);
    assert_eq!(app.open.len(), 3);
    app.library.layout = LayoutMode::Single;
    app.open_group(id(4));
    assert_eq!(app.open, vec![id(4)]);
    assert_eq!(app.library.layout, LayoutMode::Single);
}

#[test]
fn collapsing_keeps_the_last_tile() {
    let mut app = app(LayoutMode::Multi);
    app.open_group(id(100));
    let effects = app.toggle_layout();
    assert_eq!(app.open, vec![id(3)]);
    assert_eq!(effects.closed, vec![id(1), id(2)]);
    assert!(effects.started.is_empty());
    assert_eq!(app.library.layout, LayoutMode::Single);
    let effects = app.toggle_layout();
    assert_eq!(app.open, vec![id(3)]);
    assert!(effects.closed.is_empty());
    assert_eq!(app.library.layout, LayoutMode::Multi);
}

#[test]
fn a_wall_is_saved_row_by_row() {
    let mut app = app(LayoutMode::Multi);
    let effects = app.save_wall_as_view();
    assert!(!effects.save);
    assert_eq!(app.error, Some("Open some streams first.".to_string()));
    app.open_group(id(100));
    let effects = app.save_wall_as_view();
    assert!(effects.save);
    assert_eq!(app.error, None);
    let view = app.active_grid().unwrap();
    assert_eq!(view.name, "View 1");
    assert_eq!((view.rows, view.cols), (2, 2));
    let places: Vec<(usize, usize, Id)> =
        view.cells.iter().map(|c| (c.row, c.col, c.connection)).collect();
    assert_eq!(places, vec![(0, 0, id(1)), (0, 1, id(2)), (1, 0, id(3))]);
    app.save_wall_as_view();
    assert_eq!(app.library.views[1].name, "View 2");
    assert_eq!(app.library.active_view, Some(app.library.views[1].id));
}

#[test]
fn a_saved_wall_comes_back() {
    let mut app = app(LayoutMode::Multi);
    app.open_group(id(100));
    app.save_wall_as_view();
    let view = app.library.views[0].id;
    let effects = app.close_view();
    assert_eq!(effects.closed, vec![id(1), id(2), id(3)]);
    assert!(app.open.is_empty());
    assert!(app.active_grid().is_none());
    app.open_stream(camera(4));
    let effects = app.load_view(view);
    assert_eq!(app.open, vec![id(1), id(2), id(3)]);
    assert_eq!(effects.closed, vec![id(4)]);
    assert_eq!(app.library.active_view, Some(view));
    let effects = app.load_view(id(77));
    assert!(!effects.save);
    assert_eq!(app.open.len(), 3);
}

fn editing() -> PlayerApp {
    let mut app = app(LayoutMode::Multi);
    app.open_group(id(100));
    app.save_wall_as_view();
    app.begin_edit();
    app
}

#[test]
fn edits_wait_until_they_are_saved() {
    let mut app = editing();
    assert!(app.editing());
    let effects = app.place_in_view(id(4), 0, 0);
    assert!(!effects.save);
    assert_eq!(effects.closed, vec![id(1)]);
    assert_eq!(started(&effects.started), vec![id(4)]);
    assert_eq!(app.open, vec![id(2), id(3), id(4)]);
    assert_eq!(app.library.views[0].cells[0].connection, id(1));
    assert_eq!(app.active_grid().unwrap().cells.len(), 3);
    let effects = app.commit_edit();
    assert!(effects.save);
    assert!(!app.editing());
    assert_eq!(app.library.views[0].cells.last().unwrap().connection, id(4));
    assert!(!app.commit_edit().save);
}

#[test]
fn cancelling_replays_the_saved_wall() {
    let mut app = editing();
    app.place_in_view(id(4), 0, 0);
    app.resize_view(3, 3);
    let effects = app.cancel_edit();
    assert!(!app.editing());
    assert_eq!(app.open, vec![id(1), id(2), id(3)]);
    assert_eq!(effects.closed, vec![id(2), id(3), id(4)]);
    assert_eq!(started(&effects.started), vec![id(1), id(2), id(3)]);
    assert_eq!(app.library.views[0].rows, 2);
    assert!(!app.cancel_edit().save);
}

#[test]
fn a_locked_wall_takes_no_edits() {
    let mut app = editing();
    app.commit_edit();
    app.resize_view(1, 1);
    let effects = app.place_in_view(id(4), 0, 0);
    assert!(effects.closed.is_empty() && effects.started.is_empty());
    assert_eq!(app.active_grid().unwrap().rows, 2);
    assert_eq!(app.open.len(), 3);
}

#[test]
fn a_wall_keeps_one_row_and_column() {
    let mut app = editing();
    app.resize_view(-1, 0);
    let draft = app.draft.as_ref().unwrap();
    assert_eq!((draft.rows, draft.cols), (1, 2));
    assert_eq!(draft.cells.len(), 2);
    app.resize_view(-5, isize::MIN);
    let draft = app.draft.as_ref().unwrap();
    assert_eq!((draft.rows, draft.cols), (1, 1));
    assert_eq!(draft.cells.len(), 1);
    app.resize_view(isize::MAX, 2);
    let draft = app.draft.as_ref().unwrap();
    assert_eq!((draft.rows, draft.cols), (isize::MAX as usize + 1, 3));
}

#[test]
fn only_connections_are_dropped_on_a_wall() {
    let mut app = editing();
    app.place_node_in_view(id(100), 0, 0);
    assert_eq!(app.draft.as_ref().unwrap().cells.len(), 3);
    let effects = app.place_node_in_view(id(4), 1, 1);
    assert_eq!(started(&effects.started), vec![id(4)]);
    assert_eq!(app.draft.as_ref().unwrap().cells.len(), 4);
    // A tile that is already on the wall moves.
    let effects = app.place_in_view(id(2), 0, 0);
    assert_eq!(effects.closed, vec![id(1)]);
    assert!(effects.started.is_empty());
}

#[test]
fn deleting_the_wall_on_screen_closes_it() {
    let mut app = editing();
    app.commit_edit();
    let view = app.library.views[0].id;
    app.library.views.push(GridView::new("other", 1, 1));
    let other = app.library.views[1].id;
    let effects = app.delete_view(other);
    assert!(effects.closed.is_empty());
    assert_eq!(app.library.views.len(), 1);
    let effects = app.delete_view(view);
    assert_eq!(effects.closed, vec![id(1), id(2), id(3)]);
    assert!(app.library.views.is_empty());
    assert_eq!(app.library.active_view, None);
}

#[test]
fn a_dragged_tile_stands_in_front_of_the_other() {
    let mut app = app(LayoutMode::Multi);
    app.open_group(id(100));
    assert!(app.reorder_tile(id(3), id(1)).save);
    assert_eq!(app.open, vec![id(3), id(1), id(2)]);
    app.reorder_tile(id(3), id(2));
    assert_eq!(app.open, vec![id(1), id(3), id(2)]);
    assert!(!app.reorder_tile(id(1), id(1)).save);
    assert!(!app.reorder_tile(id(77), id(1)).save);
    assert!(!app.reorder_tile(id(1), id(77)).save);
    assert_eq!(app.open, vec![id(1), id(3), id(2)]);
}

#[test]
fn closing_a_tile_takes_it_off_the_draft() {
    let mut app = editing();
    let effects = app.close_stream(id(2));
    assert_eq!(effects.closed, vec![id(2)]);
    assert!(effects.save);
    assert_eq!(app.open, vec![id(1), id(3)]);
    assert_eq!(app.draft.as_ref().unwrap().cells.len(), 2);
    let effects = app.close_stream(id(2));
    assert!(effects.closed.is_empty() && !effects.save);
}

#[test]
fn the_header_follows_the_cursor() {
    let mut app = app(LayoutMode::Multi);
    assert!(app.hover(id(1), true));
    assert!(!app.hover(id(1), true));
    assert!(app.hover(id(2), true));
    assert!(!app.hover(id(1), false));
    assert_eq!(app.hovered_tile, Some(id(2)));
    assert!(app.hover(id(2), false));
    assert_eq!(app.hovered_tile, None);
}

#[test]
fn a_new_group_is_selected() {
    let mut app = app(LayoutMode::Multi);
    app.select(id(200));
    let effects = app.add_group();
    assert!(effects.save && effects.rebuild);
    let group = app.selected.unwrap();
    assert_eq!(app.library.parent_of(group), Some(id(200)));
    assert_eq!(app.library.find(group).unwrap().name(), "New group");
}

#[test]
fn a_new_connection_goes_into_the_selected_group() {
    let mut app = app(LayoutMode::Multi);
    app.select(id(200));
    let start = app.open_form(None);
    assert_eq!(start.url, "rtsp://");
    assert_eq!(start.name, "");
    assert_eq!(app.form.unwrap().title(), "New connection");
    assert!(!app.form.unwrap().name_only());
    app.set_transport(Transport::Udp);
    let effects = app.submit_form(&fields("  ", " rtsp://new ", " me ", " pass "));
    assert!(effects.save && effects.rebuild);
    assert!(app.form.is_none());
    let id_new = app.selected.unwrap();
    let connection = app.library.connection(id_new).unwrap();
    assert_eq!(connection.name, "rtsp://new");
    assert_eq!(connection.url, "rtsp://new");
    assert_eq!(connection.username, Some("me".to_string()));
    assert_eq!(connection.password, Some(" pass ".to_string()));
    assert_eq!(connection.transport, Transport::Udp);
    assert_eq!(app.library.parent_of(id_new), Some(id(200)));
}

#[test]
fn a_stream_needs_a_url() {
    let mut app = app(LayoutMode::Multi);
    app.open_form(None);
    let effects = app.submit_form(&fields("door", "  ", "", ""));
    assert!(!effects.save);
    assert_eq!(app.error, Some("A stream needs a URL.".to_string()));
    assert!(app.form.is_some());
    app.cancel_form();
    assert!(app.form.is_none());
    assert_eq!(app.error, None);
    assert!(!app.submit_form(&fields("door", "rtsp://door", "", "")).save);
}

#[test]
fn an_edited_connection_keeps_its_place() {
    let mut app = app(LayoutMode::Multi);
    let mut before = camera(2);
    before.username = Some("admin".to_string());
    app.library.update_connection(before.clone());
    let start = app.open_form(Some(before));
    assert_eq!(app.form.unwrap().title(), "Edit connection");
    assert_eq!(start.username, "admin");
    assert_eq!(start.password, "");
    app.submit_form(&start);
    let connection = app.library.connection(id(2)).unwrap();
    assert_eq!(connection.name, "cam 2");
    assert_eq!(connection.url, "rtsp://cam2");
    assert_eq!(connection.username, Some("admin".to_string()));
    assert_eq!(connection.password, None);
    app.open_form(Some(camera(2)));
    app.submit_with(&fields("renamed", "rtsp://else", "", ""), id(900));
    assert_eq!(app.library.connection(id(2)).unwrap().name, "renamed");
    assert_eq!(app.library.parent_of(id(2)), Some(id(100)));
    assert!(app.library.connection(id(900)).is_none());
}

#[test]
fn groups_and_walls_are_renamed() {
    let mut app = editing();
    let start = app.open_group_form(id(100)).unwrap();
    assert_eq!(start.name, "house");
    assert_eq!(app.form.unwrap().target, FormTarget::Group);
    assert_eq!(app.form.unwrap().title(), "Rename group");
    assert!(app.form.unwrap().name_only());
    let effects = app.submit_form(&fields(" home ", "", "", ""));
    assert!(effects.save && effects.rebuild);
    assert_eq!(app.library.find(id(100)).unwrap().name(), "home");
    app.open_group_form(id(100));
    let effects = app.submit_form(&fields("  ", "", "", ""));
    assert!(!effects.save && effects.rebuild);
    assert_eq!(app.library.find(id(100)).unwrap().name(), "home");
    assert!(app.open_group_form(id(77)).is_none());

    let view = app.library.views[0].id;
    let start = app.open_view_form(view).unwrap();
    assert_eq!(start.name, "View 1");
    assert_eq!(app.form.unwrap().title(), "Rename wall");
    let effects = app.submit_form(&fields(" front ", "", "", ""));
    assert!(effects.save && !effects.rebuild);
    assert_eq!(app.library.views[0].name, "front");
    assert_eq!(app.draft.as_ref().unwrap().name, "front");
    assert!(app.open_view_form(id(77)).is_none());
}

#[test]
fn deleting_closes_what_is_below() {
    let mut app = app(LayoutMode::Multi);
    app.open_group(id(100));
    app.open_stream(camera(4));
    app.select(id(100));
    let effects = app.delete_selected();
    assert_eq!(effects.closed, vec![id(1), id(2), id(3)]);
    assert!(effects.save && effects.rebuild);
    assert_eq!(app.open, vec![id(4)]);
    assert_eq!(app.library.open, vec![id(4)]);
    assert_eq!(app.library.roots.len(), 2);
    assert_eq!(app.selected, None);
    assert!(!app.delete_selected().save);
}

#[test]
fn rows_are_keyed_by_kind_and_id() {
    let app = app(LayoutMode::Multi);
    let rows = tree_items(&app.library.roots);
    assert_eq!(rows.len(), 3);
    assert_eq!(rows[0].label, "house");
    assert!(rows[0].expanded);
    assert_eq!(rows[0].children.len(), 3);
    assert_eq!(rows[0].children[1].label, "cam 2");
    assert_eq!(rows[1].key, format!("s:{}", id(4).text()));
    assert!(!rows[2].expanded);
    let key = parse_key(&rows[2].key);
    assert!(key.is_group);
    assert_eq!(key.id, Some(id(200)));
    let key = parse_key(&rows[0].children[0].key);
    assert!(!key.is_group);
    assert_eq!(key.id, Some(id(1)));
    let bare = parse_key(&id(5).text());
    assert!(!bare.is_group);
    assert_eq!(bare.id, Some(id(5)));
    assert_eq!(parse_key("g:nothing").id, None);
    assert!(parse_key("g:nothing").is_group);
}

#[test]
fn rows_show_their_kind() {
    assert_eq!(glyph(false, true), "icons/camera.svg");
    assert_eq!(glyph(true, true), "icons/folder-open.svg");
    assert_eq!(glyph(true, false), "icons/folder.svg");
    assert_eq!(chevron(true, true), Some("icons/chevron-down.svg"));
    assert_eq!(chevron(true, false), Some("icons/chevron-right.svg"));
    assert_eq!(chevron(false, false), None);
}

#[test]
fn menus_differ_by_kind() {
    let labels = |is_group: bool| -> Vec<&'static str> {
        row_menu(is_group)
            .iter()
            .map(|entry| match entry {
                MenuEntry::Action(action) => action.label(),
                MenuEntry::Separator => "-",
            })
            .collect()
    };
    assert_eq!(
        labels(true),
        vec![
            "Open all",
            "-",
            "New stream\u{2026}",
            "New group",
            "-",
            "Rename\u{2026}",
            "-",
            "Delete"
        ]
    );
    assert_eq!(labels(false), vec!["Open", "Edit\u{2026}", "-", "Delete"]);
    assert_eq!(row_menu(true)[0], MenuEntry::Action(RowAction::OpenAll));
}

#[test]
fn a_locked_wall_shows_no_steppers() {
    let mut app = editing();
    assert_eq!(
        app.bar(),
        vec![
            BarItem::Name,
            BarItem::Rename,
            BarItem::Editing,
            BarItem::Rows,
            BarItem::Cols,
            BarItem::Space,
            BarItem::Cancel,
            BarItem::Save
        ]
    );
    app.commit_edit();
    assert_eq!(
        app.bar(),
        vec![BarItem::Name, BarItem::Size, BarItem::Space, BarItem::Edit, BarItem::Close]
    );
}

#[test]
fn walls_are_listed_with_their_size() {
    let mut app = app(LayoutMode::Multi);
    assert_eq!(app.views_hint(), Some("Open some streams, then Save wall."));
    app.open_group(id(100));
    app.save_wall_as_view();
    app.save_wall_as_view();
    let rows = app.view_rows();
    assert_eq!(rows.len(), 2);
    assert_eq!(rows[0].name, "View 1");
    assert_eq!(rows[0].size, "2\u{00d7}2");
    assert!(!rows[0].selected);
    assert!(rows[1].selected);
    assert_eq!(rows[1].id, app.library.views[1].id);
    assert_eq!(app.views_hint(), None);
}

#[test]
fn the_sheet_has_the_rows_it_needs() {
    let mut app = app(LayoutMode::Multi);
    app.open_form(None);
    let rows = app.form.unwrap().rows();
    let labels: Vec<&str> = rows.iter().map(|row| row.label()).collect();
    assert_eq!(labels, vec!["Name", "URL", "Username", "Password", "Transport"]);
    let hints: Vec<&str> = rows.iter().map(|row| row.hint()).collect();
    assert_eq!(hints, vec!["", "rtsp://host:554/path", "optional", "optional", ""]);
    let form = app.form.unwrap();
    let placeholders: Vec<&str> = rows.iter().map(|row| form.placeholder(*row)).collect();
    assert_eq!(
        placeholders,
        vec!["Front door", "rtsp://192.168.1.50:554/stream1", "optional", "optional", ""]
    );
    app.open_group_form(id(100));
    assert_eq!(app.form.unwrap().rows(), vec![SheetRow::Name]);
    assert_eq!(app.form.unwrap().placeholder(SheetRow::Name), "Group name");
}

#[test]
fn a_tile_says_what_it_waits_for() {
    let mut app = app(LayoutMode::Multi);
    app.hover(id(1), true);
    let plan = app.tile(id(1), &Status::Failed("gone".to_string()), false);
    assert_eq!(plan.message, Some("gone".to_string()));
    assert!(plan.header);
    assert_eq!(plan.tone, Tone::Danger);
    let plan = app.tile(id(2), &Status::Playing, true);
    assert_eq!(plan.message, None);
    assert!(!plan.header);
    assert_eq!(plan.tone, Tone::Success);
}

#[test]
fn empty_lists_explain_themselves() {
    let mut app = app(LayoutMode::Multi);
    assert_eq!(app.tree_hint(), None);
    assert_eq!(app.sidebar_tooltip(), "Hide sidebar");
    app.toggle_sidebar();
    assert_eq!(app.sidebar_tooltip(), "Show sidebar");
    let (empty, _) = PlayerApp::new(Library::default());
    assert_eq!(empty.tree_hint(), Some("No connections yet. Add one to get started."));
}

#[test]
fn an_empty_wall_says_what_to_do() {
    let mut app = app(LayoutMode::Multi);
    let hint = app.wall_hint().unwrap();
    assert_eq!(hint.title, "No streams open");
    assert_eq!(hint.advice, "Click a connection in the sidebar to start playing.");
    app.open_group(id(100));
    assert!(app.wall_hint().is_none());
    app.save_wall_as_view();
    for n in 1..4 {
        app.close_stream(id(n));
    }
    assert!(app.open.is_empty());
    assert!(app.wall_hint().is_none());
}

#[test]
fn a_saved_wall_is_renamed_and_deleted_from_its_menu() {
    let labels: Vec<&str> = view_menu().iter().map(|action| action.label()).collect();
    assert_eq!(labels, vec!["Rename\u{2026}", "Delete wall"]);
    let mut app = app(LayoutMode::Multi);
    app.open_group(id(100));
    app.save_wall_as_view();
    let wall = app.library.views[0].id;
    match app.perform_on_view(ViewAction::Rename, wall) {
        RowOutcome::Sheet(fields) => assert_eq!(fields.name, "View 1"),
        _ => panic!("a wall is renamed"),
    }
    let form = app.form.unwrap();
    assert_eq!(form.target, FormTarget::View);
    assert_eq!(form.placeholder(SheetRow::Name), "Wall name");
    assert!(matches!(app.perform_on_view(ViewAction::Rename, id(77)), RowOutcome::Nothing));
    match app.perform_on_view(ViewAction::Delete, wall) {
        RowOutcome::Done(effects) => assert!(effects.save),
        _ => panic!("a wall is deleted"),
    }
    assert!(app.library.views.is_empty());
}

#[test]
fn menu_entries_do_what_they_say() {
    let mut app = app(LayoutMode::Multi);
    match app.perform(RowAction::OpenAll, id(100)) {
        RowOutcome::Done(effects) => assert_eq!(effects.started.len(), 3),
        _ => panic!("a group opens"),
    }
    match app.perform(RowAction::Open, id(4)) {
        RowOutcome::Done(effects) => assert_eq!(started(&effects.started), vec![id(4)]),
        _ => panic!("a connection opens"),
    }
    assert!(matches!(app.perform(RowAction::Open, id(100)), RowOutcome::Nothing));
    assert!(matches!(app.perform(RowAction::Edit, id(100)), RowOutcome::Nothing));
    match app.perform(RowAction::Edit, id(4)) {
        RowOutcome::Sheet(fields) => assert_eq!(fields.url, "rtsp://cam4"),
        _ => panic!("a connection is edited"),
    }
    match app.perform(RowAction::Rename, id(100)) {
        RowOutcome::Sheet(fields) => assert_eq!(fields.name, "house"),
        _ => panic!("a group is renamed"),
    }
    assert!(matches!(app.perform(RowAction::Rename, id(77)), RowOutcome::Nothing));
    match app.perform(RowAction::NewStream, id(200)) {
        RowOutcome::Sheet(fields) => assert_eq!(fields.url, "rtsp://"),
        _ => panic!("a new stream needs the sheet"),
    }
    assert_eq!(app.form.unwrap().parent, Some(id(200)));
    assert!(matches!(app.perform(RowAction::NewGroup, id(200)), RowOutcome::Done(_)));
    let group = app.selected.unwrap();
    assert_eq!(app.library.parent_of(group), Some(id(200)));
    match app.perform(RowAction::Delete, id(100)) {
        RowOutcome::Done(effects) => assert_eq!(effects.closed, vec![id(1), id(2), id(3)]),
        _ => panic!("a group is deleted"),
    }
    assert!(app.library.find(id(100)).is_none());
}

#[test]
fn unlocking_and_saving_changes_no_wall() {
    let mut app = editing();
    app.commit_edit();
    let before = format!("{:?}", app.library.views);
    app.begin_edit();
    app.begin_edit();
    app.commit_edit();
    assert_eq!(format!("{:?}", app.library.views), before);
    app.close_view();
    app.begin_edit();
    assert!(!app.editing());
}

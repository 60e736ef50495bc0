use rtsp_player::connection::{Connection, Transport};
use rtsp_player::grid::{GridCell, GridView};
use rtsp_player::id::Id;
use rtsp_player::library::{ConfigPath, Library, Stored};
use rtsp_player::prefs::{default_true, is_one, one, LayoutMode, ThemePref};
use rtsp_player::tree::Node;

fn group(name: &str, expanded: bool, children: Vec<Node>) -> Node {
    Node::Group {
        id: Id::new_v4(),
        name: name.to_string(),
        children,
        expanded,
    }
}

fn library() -> Library {
    Library {
        roots: vec![
            group("open", true, vec![Node::Stream(Connection::new("a", "rtsp://a"))]),
            group("shut", false, vec![Node::Stream(Connection::new("b", "rtsp://b"))]),
            Node::Stream(Connection::new("loose", "rtsp://c")),
        ],
        ..Default::default()
    }
}

fn walk(nodes: &[Node], out: &mut Vec<(String, bool)>) {
    for node in nodes {
        if let Node::Group { name, expanded, children, .. } = node {
            out.push((name.clone(), *expanded));
            walk(children, out);
        }
    }
}

fn expansion(library: &Library) -> Vec<(String, bool)> {
    let mut out = Vec::new();
    walk(&library.roots, &mut out);
    out
}

fn names(nodes: &[Node], out: &mut Vec<String>) {
    for node in nodes {
        out.push(node.name().to_string());
        if let Node::Group { children, .. } = node {
            names(children, out);
        }
    }
}

fn all_names(library: &Library) -> Vec<String> {
    let mut out = Vec::new();
    names(&library.roots, &mut out);
    out
}

/// Dragging a node about must not open or close anything.
#[test]
fn moving_a_node_leaves_expansion_alone() {
    let mut library = library();
    let before = expansion(&library);

    let loose = library.roots[2].id();
    let shut = library.roots[1].id();
    assert!(library.move_node(loose, Some(shut)));

    assert_eq!(expansion(&library), before);
    assert_eq!(library.parent_of(loose), Some(shut));
}

#[test]
fn a_group_cannot_be_dropped_inside_itself() {
    let mut library = library();
    let outer = library.roots[0].id();
    let inner = match &library.roots[0] {
        Node::Group { children, .. } => children[0].id(),
        _ => unreachable!(),
    };
    assert!(!library.move_node(outer, Some(inner)));
    assert!(!library.move_node(outer, Some(outer)));
}

/// A span that covers its neighbours wins; the covered cells are dropped.
#[test]
fn overlapping_cells_are_resolved_on_clamp() {
    let (a, b) = (Id::new_v4(), Id::new_v4());
    let mut view = GridView::new("wall", 3, 3);
    view.cells.push(GridCell {
        row: 0,
        col: 0,
        row_span: 2,
        col_span: 2,
        connection: a,
    });
    view.cells.push(GridCell::new(1, 1, b));
    view.clamp();
    assert_eq!(view.cells.len(), 1);
    assert_eq!(view.cells[0].connection, a);
}

#[test]
fn a_new_connection_is_anonymous_over_tcp() {
    let connection = Connection::new("door", "rtsp://door");
    assert_eq!(connection.name, "door");
    assert_eq!(connection.url, "rtsp://door");
    assert_eq!(connection.transport, Transport::Tcp);
    assert!(connection.credentials().is_none());
    assert_ne!(connection.id, Connection::new("door", "rtsp://door").id);
}

#[test]
fn credentials_need_a_user_name() {
    let mut connection = Connection::new("door", "rtsp://door");
    connection.password = Some("secret".to_string());
    assert!(connection.credentials().is_none());
    connection.username = Some(String::new());
    assert!(connection.credentials().is_none());
    connection.username = Some("admin".to_string());
    assert_eq!(connection.credentials(), Some(("admin".to_string(), "secret".to_string())));
    connection.password = None;
    assert_eq!(connection.credentials(), Some(("admin".to_string(), String::new())));
}

#[test]
fn find_walks_depth_first() {
    let library = library();
    let inner = match &library.roots[1] {
        Node::Group { children, .. } => children[0].id(),
        _ => unreachable!(),
    };
    assert_eq!(library.find(inner).map(|n| n.name().to_string()), Some("b".to_string()));
    assert_eq!(library.connection(inner).map(|c| c.url.clone()), Some("rtsp://b".to_string()));
    assert!(library.connection(library.roots[0].id()).is_none());
    assert!(library.find(Id::new_v4()).is_none());
}

#[test]
fn insert_falls_back_to_the_root() {
    let mut library = library();
    let stream = library.roots[2].id();
    library.insert(Some(stream), Node::Stream(Connection::new("x", "rtsp://x")));
    assert_eq!(library.roots.len(), 4);
    library.insert(None, Node::group("y"));
    assert_eq!(library.roots.len(), 5);
    let shut = library.roots[1].id();
    let node = Node::Stream(Connection::new("z", "rtsp://z"));
    let id = node.id();
    library.insert(Some(shut), node);
    assert_eq!(library.roots.len(), 5);
    assert_eq!(library.parent_of(id), Some(shut));
}

#[test]
fn removing_undoes_inserting() {
    let mut library = library();
    let before = all_names(&library);
    let shut = library.roots[1].id();
    let node = Node::Stream(Connection::new("new", "rtsp://new"));
    let id = node.id();
    library.insert(Some(shut), node);
    assert_eq!(all_names(&library).len(), before.len() + 1);
    let gone = library.remove(id);
    assert_eq!(gone.map(|n| n.name().to_string()), Some("new".to_string()));
    assert_eq!(all_names(&library), before);
    assert!(library.remove(id).is_none());
}

#[test]
fn moving_keeps_every_node() {
    let mut library = library();
    let open = library.roots[0].id();
    let shut = library.roots[1].id();
    let mut before = all_names(&library);
    assert!(library.move_node(open, Some(shut)));
    assert_eq!(library.roots.len(), 2);
    let mut after = all_names(&library);
    before.sort();
    after.sort();
    assert_eq!(after, before);
    assert!(library.is_ancestor(shut, open));
    // It is there already.
    assert!(!library.move_node(open, Some(shut)));
    assert!(library.move_node(open, None));
    assert_eq!(library.parent_of(open), None);
    assert!(!library.move_node(Id::new_v4(), Some(shut)));
}

#[test]
fn edits_touch_one_node() {
    let mut library = library();
    let open = library.roots[0].id();
    let shut = library.roots[1].id();
    library.rename_group(shut, "closed".to_string());
    library.set_expanded(open, false);
    assert_eq!(
        expansion(&library),
        vec![("open".to_string(), false), ("closed".to_string(), false)]
    );
    let loose = library.roots[2].id();
    let mut updated = library.connection(loose).unwrap().clone();
    updated.name = "tight".to_string();
    library.update_connection(updated);
    assert_eq!(
        all_names(&library),
        vec!["open", "a", "closed", "b", "tight"]
    );
    // A group is not a connection, and a connection is not a group.
    library.rename_group(loose, "nothing".to_string());
    assert_eq!(all_names(&library)[4], "tight");
}

#[test]
fn connections_under_a_group_come_in_order() {
    let mut library = library();
    let open = library.roots[0].id();
    let shut = library.roots[1].id();
    assert!(library.move_node(shut, Some(open)));
    let urls: Vec<String> =
        library.connections_under(open).iter().map(|c| c.url.clone()).collect();
    assert_eq!(urls, vec!["rtsp://a", "rtsp://b"]);
    let loose = library.roots[1].id();
    assert_eq!(library.connections_under(loose).len(), 1);
    assert!(library.connections_under(Id::new_v4()).is_empty());
}

#[test]
fn ancestors_hold_themselves() {
    let library = library();
    let open = library.roots[0].id();
    let shut = library.roots[1].id();
    assert!(library.is_ancestor(open, open));
    assert!(!library.is_ancestor(open, shut));
    assert!(!library.is_ancestor(Id::new_v4(), open));
}

#[test]
fn a_path_override_wins() {
    assert_eq!(Library::path(Some("mine"), Some("config")), Some(ConfigPath::Exact("mine")));
    assert_eq!(Library::path(None, Some("config")), Some(ConfigPath::InDirectory("config")));
    assert_eq!(Library::path::<&str>(None, None), None);
}

fn hand_edited() -> Library {
    let mut view = GridView::new("wall", 1, 1);
    view.rows = 0;
    view.cells.push(GridCell::new(4, 0, Id::new_v4()));
    let mut library = library();
    library.active_view = Some(Id::new_v4());
    library.views.push(view);
    library
}

#[test]
fn loading_makes_a_hand_edited_file_safe() {
    let loaded = Library::load(Stored::Current(Some(hand_edited())));
    assert!(!loaded.migrate);
    assert_eq!(loaded.library.views[0].rows, 1);
    assert!(loaded.library.views[0].cells.is_empty());
    assert_eq!(loaded.library.active_view, None);
    assert_eq!(loaded.library.roots.len(), 3);
}

#[test]
fn a_corrupt_file_counts_as_empty() {
    let loaded = Library::load(Stored::Current(None));
    assert!(loaded.library.roots.is_empty());
    assert!(!loaded.migrate);
    assert_eq!(loaded.library.theme, ThemePref::System);
    assert_eq!(loaded.library.layout, LayoutMode::Single);
}

#[test]
fn an_older_file_is_migrated() {
    let loaded = Library::load(Stored::Legacy(Some(library())));
    assert!(loaded.migrate);
    assert_eq!(loaded.library.roots.len(), 3);
    assert!(Library::load(Stored::Legacy(None)).migrate);
    assert!(!Library::load(Stored::Nothing).migrate);
}

#[test]
fn views_are_found_by_id() {
    let mut library = library();
    library.views.push(GridView::new("one", 1, 1));
    library.views.push(GridView::new("two", 2, 2));
    let id = library.views[1].id;
    assert_eq!(library.view(id).map(|v| v.name.clone()), Some("two".to_string()));
    if let Some(view) = library.view_mut(id) {
        view.rows = 5;
    }
    assert_eq!(library.views[1].rows, 5);
    assert!(library.view(Id::new_v4()).is_none());
    assert!(library.view_mut(Id::new_v4()).is_none());
}

#[test]
fn the_theme_button_cycles() {
    assert_eq!(ThemePref::System.next(), ThemePref::Light);
    assert_eq!(ThemePref::Light.next(), ThemePref::Dark);
    assert_eq!(ThemePref::Dark.next(), ThemePref::System);
    assert_eq!(ThemePref::System.label(), "\u{25d0} Auto");
    assert_eq!(ThemePref::Light.label(), "\u{2600} Light");
    assert_eq!(ThemePref::Dark.label(), "\u{263e} Dark");
}

#[test]
fn the_layout_button_toggles() {
    assert_eq!(LayoutMode::Single.toggled(), LayoutMode::Multi);
    assert_eq!(LayoutMode::Multi.toggled(), LayoutMode::Single);
    assert_eq!(LayoutMode::Single.label(), "One");
    assert_eq!(LayoutMode::Multi.label(), "Many");
    assert_eq!(LayoutMode::Single.tooltip(), "One at a time \u{2014} opening replaces");
    assert_eq!(LayoutMode::Multi.tooltip(), "Many \u{2014} opening adds a tile");
}

#[test]
fn missing_fields_have_defaults() {
    assert!(default_true());
    assert_eq!(one(), 1);
    assert!(is_one(&1));
    assert!(!is_one(&2));
}

#[test]
fn ids_read_back_from_their_text() {
    let id = Id::from_u128(0x936da01f_9abd_4d9d_80c7_02af85c822a8);
    assert_eq!(id.text(), "936da01f-9abd-4d9d-80c7-02af85c822a8");
    assert_eq!(Id::parse(&id.text()), Some(id));
    assert_eq!(Id::parse("936DA01F9ABD4D9D80C702AF85C822A8"), Some(id));
    assert_eq!(Id::parse("{936da01f-9abd-4d9d-80c7-02af85c822a8}"), Some(id));
    assert_eq!(Id::parse("URN:uuid:936da01f-9abd-4d9d-80c7-02af85c822a8"), Some(id));
    assert_eq!(Id::parse("936da01f-9abd-4d9d-80c7_02af85c822a8"), None);
    assert_eq!(Id::parse("936da01g-9abd-4d9d-80c7-02af85c822a8"), None);
    assert_eq!(Id::parse(""), None);
    assert_eq!(id.as_u128(), 0x936da01f_9abd_4d9d_80c7_02af85c822a8);
}

#[test]
fn fresh_ids_are_random_uuids() {
    let id = Id::new_v4();
    assert_eq!((id.as_u128() >> 76) & 0xf, 4);
    assert_eq!((id.as_u128() >> 62) & 0x3, 2);
    assert_ne!(id, Id::new_v4());
    assert_eq!(uuid::Uuid::from_u128(id.as_u128()).to_string(), id.text());
}

#[test]
fn sanitizing_twice_changes_nothing_more() {
    let mut library = hand_edited();
    library.sanitize();
    let once = format!("{:?}", library);
    library.sanitize();
    assert_eq!(format!("{:?}", library), once);
}

#[test]
fn a_saved_active_wall_stays_active() {
    let mut library = hand_edited();
    let view = library.views[0].id;
    library.active_view = Some(view);
    library.sanitize();
    assert_eq!(library.active_view, Some(view));
}

fn lone(n: u128) -> Node {
    let mut connection = Connection::new("c", "rtsp://c");
    connection.id = Id::from_u128(n);
    Node::Stream(connection)
}

fn root_ids(library: &Library) -> Vec<u128> {
    library.roots.iter().map(|node| node.id().as_u128()).collect()
}

/// A node whose new parent is no group goes to the end of the top level. One that is already
/// there has not moved.
#[test]
fn a_move_that_changes_nothing_is_none() {
    let mut library = Library { roots: vec![lone(1)], ..Default::default() };
    assert!(!library.move_node(Id::from_u128(1), Some(Id::from_u128(2))));
    assert_eq!(root_ids(&library), vec![1]);

    let mut library = Library { roots: vec![lone(1), lone(2)], ..Default::default() };
    assert!(!library.move_node(Id::from_u128(2), Some(Id::from_u128(9))));
    assert!(!library.move_node(Id::from_u128(2), Some(Id::from_u128(1))));
    assert_eq!(root_ids(&library), vec![1, 2]);
    assert!(library.move_node(Id::from_u128(1), Some(Id::from_u128(9))));
    assert_eq!(root_ids(&library), vec![2, 1]);
}

/// Equal nodes at the end change places without a trace; nodes that differ do not.
#[test]
fn only_equal_nodes_change_places_unseen() {
    let shut = |name: &str| Node::Group {
        id: Id::from_u128(7),
        name: "g".to_string(),
        children: vec![Node::Stream(Connection {
            id: Id::from_u128(8),
            name: name.to_string(),
            url: "rtsp://c".to_string(),
            username: Some("me".to_string()),
            password: None,
            transport: Transport::Tcp,
        })],
        expanded: false,
    };
    let (node, nowhere) = (Id::from_u128(7), Some(Id::from_u128(9)));
    let mut library = Library { roots: vec![shut("a"), shut("a")], ..Default::default() };
    assert!(!library.move_node(node, nowhere));
    let mut library = Library { roots: vec![shut("a"), shut("b")], ..Default::default() };
    assert!(library.move_node(node, nowhere));
    assert_eq!(all_names(&library), vec!["g", "b", "g", "a"]);
}

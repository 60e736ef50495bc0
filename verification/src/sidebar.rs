//! The rows of the connection tree: what they are called, what they look like, and what they
//! can be asked to do.

use crate::id::{law_text_reads_back, parsed_uuid, uuid_text, Id};
use crate::text::{chars_of, find_char, first_index, lemma_first_index, same_text};
use crate::tree::{forest, lemma_group_view, Node, Tree};
use vstd::prelude::*;
use vstd::string::{StrSliceExecFns, StringExecFns};

verus! {

/// A row of the tree, with the rows below it.
#[derive(Debug)]
pub struct TreeItem {
    /// The kind of the node and its id.
    pub key: String,
    pub label: String,
    pub children: Vec<TreeItem>,
    pub expanded: bool,
}

/// The contents of a [`TreeItem`].
#[verifier::ext_equal]
pub struct ItemSpec {
    pub key: Seq<char>,
    pub label: Seq<char>,
    pub children: Seq<ItemSpec>,
    pub expanded: bool,
}

/// The contents of one row.
pub open spec fn item(row: TreeItem) -> ItemSpec
    decreases row,
{
    ItemSpec {
        key: row.key@,
        label: row.label@,
        children: Seq::new(
            row.children@.len(),
            |i: int|
                if 0 <= i < row.children@.len() {
                    item(row.children@[i])
                } else {
                    arbitrary()
                },
        ),
        expanded: row.expanded,
    }
}

/// The contents of a list of rows.
pub open spec fn items(rows: Seq<TreeItem>) -> Seq<ItemSpec> {
    rows.map_values(|row: TreeItem| item(row))
}

/// The contents of a row are its own fields and the contents of the rows below it.
proof fn lemma_item(row: TreeItem)
    ensures
        item(row) == (ItemSpec {
            key: row.key@,
            label: row.label@,
            children: items(row.children@),
            expanded: row.expanded,
        }),
{
    reveal_with_fuel(item, 2);
    assert(item(row).children =~= items(row.children@));
}

/// The key of a node's row: its kind, a colon, and its id.
pub open spec fn row_key(is_group: bool, id: Id) -> Seq<char> {
    (if is_group {
        "g:"@
    } else {
        "s:"@
    }) + uuid_text(id.bits)
}

/// The row of a node.
pub open spec fn row_of(t: Tree) -> ItemSpec
    decreases t,
{
    match t {
        Tree::Group { id, name, children, expanded } => ItemSpec {
            key: row_key(true, id),
            label: name,
            children: Seq::new(
                children.len(),
                |i: int|
                    if 0 <= i < children.len() {
                        row_of(children[i])
                    } else {
                        arbitrary()
                    },
            ),
            expanded,
        },
        Tree::Stream(connection) => ItemSpec {
            key: row_key(false, connection.id),
            label: connection.name,
            children: Seq::empty(),
            expanded: false,
        },
    }
}

/// The rows of a list of nodes.
pub open spec fn rows_of(f: Seq<Tree>) -> Seq<ItemSpec> {
    f.map_values(|t: Tree| row_of(t))
}

/// The row of a group holds the rows of its children.
proof fn lemma_row_of_group(t: Tree)
    requires
        t is Group,
    ensures
        row_of(t) == (ItemSpec {
            key: row_key(true, t->id),
            label: t->name,
            children: rows_of(t->children),
            expanded: t->expanded,
        }),
{
    reveal_with_fuel(row_of, 2);
    assert(row_of(t).children =~= rows_of(t->children));
}

/// The key of a node's row.
fn key_text(is_group: bool, id: Id) -> (key: String)
    ensures
        key@ == row_key(is_group, id),
{
    let text = id.text();
    if is_group {
        "g:".to_owned().concat(text.as_str())
    } else {
        "s:".to_owned().concat(text.as_str())
    }
}

/// The rows of the tree.
pub fn tree_items(nodes: &Vec<Node>) -> (rows: Vec<TreeItem>)
    ensures
        items(rows@) == rows_of(forest(nodes@)),
    decreases nodes,
{
    let mut rows: Vec<TreeItem> = Vec::new();
    let mut i: usize = 0;
    while i < nodes.len()
        invariant
            i <= nodes@.len(),
            rows@.len() == i,
            forall|j: int| 0 <= j < i ==> item(#[trigger] rows@[j]) == row_of(nodes@[j]@),
        decreases nodes@.len() - i,
    {
        let row = match &nodes[i] {
            Node::Group { id, name, children, expanded } => {
                let below = tree_items(children);
                let row = TreeItem {
                    key: key_text(true, *id),
                    label: name.clone(),
                    children: below,
                    expanded: *expanded,
                };
                proof {
                    lemma_group_view(nodes@[i as int]);
                    lemma_row_of_group(nodes@[i as int]@);
                    lemma_item(row);
                }
                row
            },
            Node::Stream(connection) => {
                let row = TreeItem {
                    key: key_text(false, connection.id),
                    label: connection.name.clone(),
                    children: Vec::new(),
                    expanded: false,
                };
                proof {
                    lemma_item(row);
                    assert(items(row.children@) =~= Seq::<ItemSpec>::empty());
                }
                row
            },
        };
        rows.push(row);
        i += 1;
    }
    assert(items(rows@) =~= rows_of(forest(nodes@)));
    rows
}

/// What a row's key says of its node.
pub struct RowKey {
    pub is_group: bool,
    pub id: Option<Id>,
}

/// The kind and the id in a key: what stands before and after the first colon. A key without
/// a colon is that of a connection.
pub open spec fn read_key(key: Seq<char>) -> RowKey {
    let at = first_index(key, ':');
    let raw = if at < key.len() {
        key.skip(at + 1)
    } else {
        key
    };
    RowKey {
        is_group: at < key.len() && key.take(at) == "g"@,
        id: match parsed_uuid(raw) {
            Some(bits) => Some(Id { bits }),
            None => None,
        },
    }
}

/// Reads the kind and the id back from a row's key. Whether a row has children does not say
/// that it is a group, since a group can be empty.
pub fn parse_key(key: &str) -> (parsed: RowKey)
    ensures
        parsed == read_key(key@),
{
    let chars = chars_of(key);
    let at = find_char(&chars, ':');
    proof {
        lemma_first_index(key@, ':');
    }
    if at < chars.len() {
        let kind = key.substring_char(0, at);
        let raw = key.substring_char(at + 1, chars.len());
        proof {
            assert(key@.subrange(0, at as int) == key@.take(at as int));
            assert(key@.subrange(at + 1, key@.len() as int) == key@.skip(at + 1));
        }
        RowKey { is_group: same_text(kind, "g"), id: Id::parse(raw) }
    } else {
        RowKey { is_group: false, id: Id::parse(key) }
    }
}

/// A row's key says which node the row is of.
pub proof fn law_key_names_its_node(is_group: bool, id: Id)
    ensures
        read_key(row_key(is_group, id)) == (RowKey { is_group, id: Some(id) }),
{
    let key = row_key(is_group, id);
    reveal_strlit("g:");
    reveal_strlit("s:");
    reveal_strlit("g");
    law_text_reads_back(id.bits);
    lemma_first_index(key, ':');
    assert(key[1] == ':');
    assert(key[0] != ':');
    assert(first_index(key, ':') == 1);
    assert(key.skip(2) == uuid_text(id.bits));
    assert(key.take(1) == if is_group {
        "g"@
    } else {
        seq!['s']
    });
    if !is_group {
        assert(key.take(1)[0] == 's');
    }
}

/// The icon in front of a row.
pub open spec fn glyph_path(is_group: bool, expanded: bool) -> Seq<char> {
    if !is_group {
        "icons/camera.svg"@
    } else if expanded {
        "icons/folder-open.svg"@
    } else {
        "icons/folder.svg"@
    }
}

/// The icon in front of a row.
pub fn glyph(is_group: bool, expanded: bool) -> (path: &'static str)
    ensures
        path@ == glyph_path(is_group, expanded),
{
    if !is_group {
        "icons/camera.svg"
    } else if expanded {
        "icons/folder-open.svg"
    } else {
        "icons/folder.svg"
    }
}

/// The arrow in front of a group. Connections keep its width so that their icons line up.
pub fn chevron(is_group: bool, expanded: bool) -> (path: Option<&'static str>)
    ensures
        match path {
            Some(p) => is_group && p@ == if expanded {
                "icons/chevron-down.svg"@
            } else {
                "icons/chevron-right.svg"@
            },
            None => !is_group,
        },
{
    if !is_group {
        None
    } else if expanded {
        Some("icons/chevron-down.svg")
    } else {
        Some("icons/chevron-right.svg")
    }
}

/// What a row's menu offers.
#[derive(Debug, Clone, Copy, PartialEq, Eq, Structural)]
pub enum RowAction {
    OpenAll,
    NewStream,
    NewGroup,
    Rename,
    Open,
    Edit,
    Delete,
}

/// An entry of a row's menu.
#[derive(Debug, Clone, Copy, PartialEq, Eq, Structural)]
pub enum MenuEntry {
    Action(RowAction),
    Separator,
}

impl RowAction {
    pub open spec fn label_text(self) -> Seq<char> {
        match self {
            RowAction::OpenAll => "Open all"@,
            RowAction::NewStream => "New stream\u{2026}"@,
            RowAction::NewGroup => "New group"@,
            RowAction::Rename => "Rename\u{2026}"@,
            RowAction::Open => "Open"@,
            RowAction::Edit => "Edit\u{2026}"@,
            RowAction::Delete => "Delete"@,
        }
    }

    pub fn label(self) -> (label: &'static str)
        ensures
            label@ == self.label_text(),
    {
        match self {
            RowAction::OpenAll => "Open all",
            RowAction::NewStream => "New stream\u{2026}",
            RowAction::NewGroup => "New group",
            RowAction::Rename => "Rename\u{2026}",
            RowAction::Open => "Open",
            RowAction::Edit => "Edit\u{2026}",
            RowAction::Delete => "Delete",
        }
    }
}

/// Right-click menu for a tree row. Groups can take new children; connections
/// can be opened and edited.
pub open spec fn menu_of(is_group: bool) -> Seq<MenuEntry> {
    if is_group {
        seq![
            MenuEntry::Action(RowAction::OpenAll),
            MenuEntry::Separator,
            MenuEntry::Action(RowAction::NewStream),
            MenuEntry::Action(RowAction::NewGroup),
            MenuEntry::Separator,
            MenuEntry::Action(RowAction::Rename),
            MenuEntry::Separator,
            MenuEntry::Action(RowAction::Delete),
        ]
    } else {
        seq![
            MenuEntry::Action(RowAction::Open),
            MenuEntry::Action(RowAction::Edit),
            MenuEntry::Separator,
            MenuEntry::Action(RowAction::Delete),
        ]
    }
}

/// The entries of a row's menu.
pub fn row_menu(is_group: bool) -> (entries: Vec<MenuEntry>)
    ensures
        entries@ == menu_of(is_group),
{
    let mut entries: Vec<MenuEntry> = Vec::new();
    if is_group {
        entries.push(MenuEntry::Action(RowAction::OpenAll));
        entries.push(MenuEntry::Separator);
        entries.push(MenuEntry::Action(RowAction::NewStream));
        entries.push(MenuEntry::Action(RowAction::NewGroup));
        entries.push(MenuEntry::Separator);
        entries.push(MenuEntry::Action(RowAction::Rename));
    } else {
        entries.push(MenuEntry::Action(RowAction::Open));
        entries.push(MenuEntry::Action(RowAction::Edit));
    }
    entries.push(MenuEntry::Separator);
    entries.push(MenuEntry::Action(RowAction::Delete));
    entries
}

/// The tree shows a row for every node, in order: with the node's name, a key that names the
/// node, and below it a row for everything directly below the node, folded or not.
pub proof fn law_rows_mirror_the_tree(f: Seq<Tree>, i: int)
    requires
        0 <= i < f.len(),
    ensures
        ({
            let rows = rows_of(f);
            &&& rows.len() == f.len()
            &&& rows[i].label == f[i].name()
            &&& read_key(rows[i].key).id == Some(f[i].id())
            &&& read_key(rows[i].key).is_group == (f[i] is Group)
            &&& rows[i].children.len() == f[i].children().len()
            &&& rows[i].children == rows_of(f[i].children())
            &&& f[i] is Group ==> rows[i].expanded == f[i]->expanded
        }),
{
    law_key_names_its_node(f[i] is Group, f[i].id());
    if f[i] is Group {
        lemma_row_of_group(f[i]);
    } else {
        assert(rows_of(f[i].children()) =~= Seq::<ItemSpec>::empty());
    }
}

} // verus!

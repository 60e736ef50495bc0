//! What the window shows around the pictures.

use crate::connection::optional_text;
use crate::grid::GridSpec;
use crate::id::Id;
use crate::library::LibrarySpec;
use crate::player::{Status, Tone};
use crate::text::decimal;
use crate::wall::{size_label, size_text};
use crate::window::{Form, FormTarget, PlayerApp};
use vstd::prelude::*;

verus! {

/// A control in the bar above a saved wall.
#[derive(Debug, Clone, Copy, PartialEq, Eq, Structural)]
pub enum BarItem {
    /// The wall's name.
    Name,
    /// Opens the sheet to rename the wall.
    Rename,
    /// The number of rows and columns.
    Size,
    /// The word that says that the wall is being edited.
    Editing,
    /// Takes a row off or adds one.
    Rows,
    /// Takes a column off or adds one.
    Cols,
    /// The room between the left and the right.
    Space,
    Edit,
    Close,
    Cancel,
    Save,
}

/// Controls for the active wall. Locked by default: the size steppers and
/// the save/cancel pair only appear once it is unlocked.
pub open spec fn bar_items(editing: bool) -> Seq<BarItem> {
    if editing {
        seq![
            BarItem::Name,
            BarItem::Rename,
            BarItem::Editing,
            BarItem::Rows,
            BarItem::Cols,
            BarItem::Space,
            BarItem::Cancel,
            BarItem::Save,
        ]
    } else {
        seq![BarItem::Name, BarItem::Size, BarItem::Space, BarItem::Edit, BarItem::Close]
    }
}

/// A row of the add/edit sheet.
#[derive(Debug, Clone, Copy, PartialEq, Eq, Structural)]
pub enum SheetRow {
    Name,
    Url,
    Username,
    Password,
    Transport,
}

/// The rows of the sheet. Groups and walls have only a name.
pub open spec fn sheet_rows(target: FormTarget) -> Seq<SheetRow> {
    if target == FormTarget::Connection {
        seq![
            SheetRow::Name,
            SheetRow::Url,
            SheetRow::Username,
            SheetRow::Password,
            SheetRow::Transport,
        ]
    } else {
        seq![SheetRow::Name]
    }
}

impl SheetRow {
    pub open spec fn label_text(self) -> Seq<char> {
        match self {
            SheetRow::Name => "Name"@,
            SheetRow::Url => "URL"@,
            SheetRow::Username => "Username"@,
            SheetRow::Password => "Password"@,
            SheetRow::Transport => "Transport"@,
        }
    }

    pub open spec fn hint_text(self) -> Seq<char> {
        match self {
            SheetRow::Url => "rtsp://host:554/path"@,
            SheetRow::Username => "optional"@,
            SheetRow::Password => "optional"@,
            _ => ""@,
        }
    }

    /// What stands beside the row.
    pub fn label(self) -> (text: &'static str)
        ensures
            text@ == self.label_text(),
    {
        match self {
            SheetRow::Name => "Name",
            SheetRow::Url => "URL",
            SheetRow::Username => "Username",
            SheetRow::Password => "Password",
            SheetRow::Transport => "Transport",
        }
    }

    /// What is said of how to fill the row.
    pub fn hint(self) -> (text: &'static str)
        ensures
            text@ == self.hint_text(),
    {
        match self {
            SheetRow::Url => "rtsp://host:554/path",
            SheetRow::Username => "optional",
            SheetRow::Password => "optional",
            _ => "",
        }
    }
}

/// What an empty field of the sheet shows.
pub open spec fn placeholder_text(target: FormTarget, row: SheetRow) -> Seq<char> {
    match row {
        SheetRow::Name => match target {
            FormTarget::Connection => "Front door"@,
            FormTarget::Group => "Group name"@,
            FormTarget::View => "Wall name"@,
        },
        SheetRow::Url => "rtsp://192.168.1.50:554/stream1"@,
        SheetRow::Username => "optional"@,
        SheetRow::Password => "optional"@,
        SheetRow::Transport => ""@,
    }
}

/// What the menu of a saved wall offers.
#[derive(Debug, Clone, Copy, PartialEq, Eq, Structural)]
pub enum ViewAction {
    Rename,
    Delete,
}

impl ViewAction {
    pub open spec fn label_text(self) -> Seq<char> {
        match self {
            ViewAction::Rename => "Rename\u{2026}"@,
            ViewAction::Delete => "Delete wall"@,
        }
    }

    pub fn label(self) -> (label: &'static str)
        ensures
            label@ == self.label_text(),
    {
        match self {
            ViewAction::Rename => "Rename\u{2026}",
            ViewAction::Delete => "Delete wall",
        }
    }
}

/// The entries of the menu of a saved wall.
pub fn view_menu() -> (entries: Vec<ViewAction>)
    ensures
        entries@ == seq![ViewAction::Rename, ViewAction::Delete],
{
    let mut entries: Vec<ViewAction> = Vec::new();
    entries.push(ViewAction::Rename);
    entries.push(ViewAction::Delete);
    entries
}

/// What an empty wall says: a title, and what to do about it.
pub struct WallHint {
    pub title: &'static str,
    pub advice: &'static str,
}

/// What a tile shows besides its picture.
#[derive(Debug)]
pub struct TilePlan {
    /// What stands in for the picture until there is one.
    pub message: Option<String>,
    /// Whether the header floats over the picture.
    pub header: bool,
    pub tone: Tone,
}

/// The contents of a [`TilePlan`].
#[verifier::ext_equal]
pub struct TilePlanSpec {
    pub message: Option<Seq<char>>,
    pub header: bool,
    pub tone: Tone,
}

impl View for TilePlan {
    type V = TilePlanSpec;

    open spec fn view(&self) -> TilePlanSpec {
        TilePlanSpec {
            message: optional_text(self.message),
            header: self.header,
            tone: self.tone,
        }
    }
}

/// A saved wall in the list under the tree.
#[derive(Debug)]
pub struct ViewRow {
    pub id: Id,
    pub name: String,
    pub size: String,
    pub selected: bool,
}

/// The contents of a [`ViewRow`].
#[verifier::ext_equal]
pub struct ViewRowSpec {
    pub id: Id,
    pub name: Seq<char>,
    pub size: Seq<char>,
    pub selected: bool,
}

impl View for ViewRow {
    type V = ViewRowSpec;

    open spec fn view(&self) -> ViewRowSpec {
        ViewRowSpec {
            id: self.id,
            name: self.name@,
            size: self.size@,
            selected: self.selected,
        }
    }
}

/// The saved walls as they are listed; the one on screen is marked.
pub open spec fn view_rows(library: LibrarySpec) -> Seq<ViewRowSpec> {
    library.views.map_values(
        |view: GridSpec|
            ViewRowSpec {
                id: view.id,
                name: view.name,
                size: size_text(view.rows, view.cols),
                selected: library.active_view == Some(view.id),
            },
    )
}

impl Form {
    /// The rows of the sheet.
    pub fn rows(&self) -> (rows: Vec<SheetRow>)
        ensures
            rows@ == sheet_rows(self.target),
    {
        let mut rows: Vec<SheetRow> = Vec::new();
        rows.push(SheetRow::Name);
        if !self.name_only() {
            rows.push(SheetRow::Url);
            rows.push(SheetRow::Username);
            rows.push(SheetRow::Password);
            rows.push(SheetRow::Transport);
        }
        rows
    }

    /// What an empty field of the sheet shows.
    pub fn placeholder(&self, row: SheetRow) -> (text: &'static str)
        ensures
            text@ == placeholder_text(self.target, row),
    {
        match row {
            SheetRow::Name => match self.target {
                FormTarget::Connection => "Front door",
                FormTarget::Group => "Group name",
                FormTarget::View => "Wall name",
            },
            SheetRow::Url => "rtsp://192.168.1.50:554/stream1",
            SheetRow::Username => "optional",
            SheetRow::Password => "optional",
            SheetRow::Transport => "",
        }
    }
}

impl PlayerApp {
    /// The bar above the active wall.
    pub fn bar(&self) -> (items: Vec<BarItem>)
        ensures
            items@ == bar_items(self@.draft is Some),
    {
        let mut items: Vec<BarItem> = Vec::new();
        items.push(BarItem::Name);
        if self.editing() {
            items.push(BarItem::Rename);
            items.push(BarItem::Editing);
            items.push(BarItem::Rows);
            items.push(BarItem::Cols);
            items.push(BarItem::Space);
            items.push(BarItem::Cancel);
            items.push(BarItem::Save);
        } else {
            items.push(BarItem::Size);
            items.push(BarItem::Space);
            items.push(BarItem::Edit);
            items.push(BarItem::Close);
        }
        items
    }

    /// What the tile of a stream shows. Only the tile under the cursor has a header.
    pub fn tile(&self, id: Id, status: &Status, has_picture: bool) -> (plan: TilePlan)
        ensures
            plan@ == (TilePlanSpec {
                message: if has_picture {
                    None
                } else {
                    Some(status@.message())
                },
                header: self@.hovered_tile == Some(id),
                tone: status@.tone(),
            }),
    {
        TilePlan {
            message: if has_picture {
                None
            } else {
                Some(status.message().to_owned())
            },
            header: self.hovered_tile == Some(id),
            tone: status.tone(),
        }
    }

    /// What stands below an empty tree.
    pub fn tree_hint(&self) -> (hint: Option<&'static str>)
        ensures
            match hint {
                Some(text) => self@.library.roots.len() == 0 && text@
                    == "No connections yet. Add one to get started."@,
                None => self@.library.roots.len() > 0,
            },
    {
        if self.library.roots.len() == 0 {
            Some("No connections yet. Add one to get started.")
        } else {
            None
        }
    }

    /// What stands in an empty list of walls.
    pub fn views_hint(&self) -> (hint: Option<&'static str>)
        ensures
            match hint {
                Some(text) => self@.library.views.len() == 0 && text@
                    == "Open some streams, then Save wall."@,
                None => self@.library.views.len() > 0,
            },
    {
        if self.library.views.len() == 0 {
            Some("Open some streams, then Save wall.")
        } else {
            None
        }
    }

    /// What stands on the wall while no stream is open. A saved wall shows its cells instead.
    pub fn wall_hint(&self) -> (hint: Option<WallHint>)
        ensures
            match hint {
                Some(h) => {
                    &&& self@.active_grid() is None
                    &&& self@.open.len() == 0
                    &&& h.title@ == "No streams open"@
                    &&& h.advice@ == "Click a connection in the sidebar to start playing."@
                },
                None => self@.active_grid() is Some || self@.open.len() > 0,
            },
    {
        if self.active_grid().is_none() && self.open.len() == 0 {
            Some(
                WallHint {
                    title: "No streams open",
                    advice: "Click a connection in the sidebar to start playing.",
                },
            )
        } else {
            None
        }
    }

    /// What the button beside the sidebar does.
    pub fn sidebar_tooltip(&self) -> (text: &'static str)
        ensures
            text@ == if self@.library.sidebar_hidden {
                "Show sidebar"@
            } else {
                "Hide sidebar"@
            },
    {
        if self.library.sidebar_hidden {
            "Show sidebar"
        } else {
            "Hide sidebar"
        }
    }

    /// The list of saved walls.
    pub fn view_rows(&self) -> (rows: Vec<ViewRow>)
        ensures
            rows@.map_values(|row: ViewRow| row@) == view_rows(self@.library),
    {
        let ghost all = view_rows(self@.library);
        let mut rows: Vec<ViewRow> = Vec::new();
        let mut i: usize = 0;
        while i < self.library.views.len()
            invariant
                i <= self.library.views@.len(),
                all == view_rows(self@.library),
                rows@.len() == i,
                forall|k: int| 0 <= k < i ==> (#[trigger] rows@[k])@ == all[k],
            decreases self.library.views@.len() - i,
        {
            let view = &self.library.views[i];
            rows.push(
                ViewRow {
                    id: view.id,
                    name: view.name.clone(),
                    size: size_label(view),
                    selected: self.library.active_view == Some(view.id),
                },
            );
            i += 1;
        }
        assert(rows@.map_values(|row: ViewRow| row@) =~= all);
        rows
    }
}

/// A locked wall offers no way to change it.
pub proof fn law_locked_bar_offers_no_edits()
    ensures
        forall|i: int|
            0 <= i < bar_items(false).len() ==> {
                let item = #[trigger] bar_items(false)[i];
                &&& item != BarItem::Rename
                &&& item != BarItem::Rows
                &&& item != BarItem::Cols
                &&& item != BarItem::Save
                &&& item != BarItem::Cancel
            },
{
}

/// Every saved wall is listed in its place, with its name and with its rows and then its columns;
/// exactly the one on screen is marked.
pub proof fn law_walls_are_listed_as_they_are(library: LibrarySpec, k: int)
    requires
        0 <= k < library.views.len(),
    ensures
        ({
            let row = view_rows(library)[k];
            let wall = library.views[k];
            let wide = decimal(wall.rows as int).len() as int;
            &&& view_rows(library).len() == library.views.len()
            &&& row.id == wall.id
            &&& row.name == wall.name
            &&& row.selected <==> library.active_view == Some(wall.id)
            &&& row.size.take(wide) == decimal(wall.rows as int)
            &&& row.size[wide] == '\u{00d7}'
            &&& row.size.skip(wide + 1) == decimal(wall.cols as int)
        }),
{
    let row = view_rows(library)[k];
    let wall = library.views[k];
    let wide = decimal(wall.rows as int).len() as int;
    reveal_strlit("\u{00d7}");
    assert(row.size.take(wide) =~= decimal(wall.rows as int));
    assert(row.size.skip(wide + 1) =~= decimal(wall.cols as int));
}

} // verus!

//! Adding, editing and deleting what is in the tree.

use crate::connection::{optional_text, Connection, ConnectionSpec, Transport};
use crate::grid::GridSpec;
use crate::id::{is_random_uuid, Id};
use crate::library::{view_index, LibrarySpec};
use crate::screen::ViewAction;
use crate::sidebar::RowAction;
use crate::text::{trim, trimmed};
use crate::tree::{edited_or_same, found, inserted, rename, replace_stream, Node, Tree};
use crate::window::{AppSpec, Change, Effects, EffectsSpec, Form, FormTarget, PlayerApp};
use vstd::prelude::*;

verus! {

/// The texts of the sheet's fields.
#[derive(Debug)]
pub struct Fields {
    pub name: String,
    pub url: String,
    pub username: String,
    pub password: String,
}

/// The contents of [`Fields`].
#[verifier::ext_equal]
pub struct FieldsSpec {
    pub name: Seq<char>,
    pub url: Seq<char>,
    pub username: Seq<char>,
    pub password: Seq<char>,
}

impl View for Fields {
    type V = FieldsSpec;

    open spec fn view(&self) -> FieldsSpec {
        FieldsSpec {
            name: self.name@,
            url: self.url@,
            username: self.username@,
            password: self.password@,
        }
    }
}

/// The contents of optional fields.
pub open spec fn optional_fields(fields: Option<Fields>) -> Option<FieldsSpec> {
    match fields {
        Some(f) => Some(f@),
        None => None,
    }
}

/// `text`, or nothing where it is missing.
pub open spec fn or_empty(text: Option<Seq<char>>) -> Seq<char> {
    match text {
        Some(t) => t,
        None => Seq::empty(),
    }
}

/// `text`, or `None` where it is empty.
pub open spec fn unless_empty(text: Seq<char>) -> Option<Seq<char>> {
    if text.len() == 0 {
        None
    } else {
        Some(text)
    }
}

impl FieldsSpec {
    /// What the sheet starts with for a connection, or for a new one.
    pub open spec fn of_connection(editing: Option<ConnectionSpec>) -> FieldsSpec {
        match editing {
            Some(c) => FieldsSpec {
                name: c.name,
                url: c.url,
                username: or_empty(c.username),
                password: or_empty(c.password),
            },
            None => FieldsSpec {
                name: Seq::empty(),
                url: "rtsp://"@,
                username: Seq::empty(),
                password: Seq::empty(),
            },
        }
    }

    /// Only a name.
    pub open spec fn of_name(name: Seq<char>) -> FieldsSpec {
        FieldsSpec { name, url: Seq::empty(), username: Seq::empty(), password: Seq::empty() }
    }

    /// The connection that the fields describe. White space around all but the password is
    /// dropped; a connection without a name is called by its URL.
    pub open spec fn connection(self, id: Id, transport: Transport) -> ConnectionSpec {
        let url = trimmed(self.url);
        let name = trimmed(self.name);
        ConnectionSpec {
            id,
            name: if name.len() == 0 {
                url
            } else {
                name
            },
            url,
            username: unless_empty(trimmed(self.username)),
            password: unless_empty(self.password),
            transport,
        }
    }
}

impl AppSpec {
    /// After opening the sheet for a connection, or for a new one.
    pub open spec fn opened_form(self, editing: Option<ConnectionSpec>) -> AppSpec {
        AppSpec {
            form: Some(
                Form {
                    editing: match editing {
                        Some(c) => Some(c.id),
                        None => None,
                    },
                    parent: self.target_group(),
                    target: FormTarget::Connection,
                    transport: match editing {
                        Some(c) => c.transport,
                        None => Transport::Tcp,
                    },
                },
            ),
            ..self
        }
    }

    /// After opening the sheet to rename something.
    pub open spec fn opened_rename(self, id: Id, target: FormTarget) -> AppSpec {
        AppSpec {
            form: Some(
                Form { editing: Some(id), parent: None, target, transport: Transport::Tcp },
            ),
            ..self
        }
    }

    /// After saving the sheet of a group.
    pub open spec fn renamed_group(self, editing: Option<Id>, name: Seq<char>) -> Change {
        let app = AppSpec { form: None, error: None, ..self };
        match editing {
            Some(id) if name.len() > 0 => Change {
                app: app.with_library(
                    LibrarySpec {
                        roots: edited_or_same(self.library.roots, rename(id, name)),
                        ..self.library
                    },
                ),
                effects: EffectsSpec::rebuilding(),
            },
            _ => Change { app, effects: EffectsSpec { rebuild: true, ..EffectsSpec::none() } },
        }
    }

    /// After saving the sheet of a wall. The working copy carries the name until the wall is
    /// saved.
    pub open spec fn renamed_view(self, editing: Option<Id>, name: Seq<char>) -> Change {
        let app = AppSpec { form: None, error: None, ..self };
        match editing {
            Some(id) if name.len() > 0 => Change {
                app: AppSpec {
                    draft: match self.draft {
                        Some(draft) => Some(GridSpec { name, ..draft }),
                        None => None,
                    },
                    ..app
                }.with_library(
                    LibrarySpec {
                        views: match view_index(self.library.views, id, 0) {
                            Some(k) => self.library.views.update(
                                k,
                                GridSpec { name, ..self.library.views[k] },
                            ),
                            None => self.library.views,
                        },
                        ..self.library
                    },
                ),
                effects: EffectsSpec::saving(),
            },
            _ => app.same(),
        }
    }

    /// The id that the sheet of a connection saves under: that of the connection being edited
    /// where it exists, else the fresh one.
    pub open spec fn edited_id(self, editing: Option<Id>, fresh: Id) -> Id {
        match editing {
            Some(id) => match self.library.connection(id) {
                Some(existing) => existing.id,
                None => fresh,
            },
            None => fresh,
        }
    }

    /// After saving the sheet of a connection, where a new one gets that id. Without a URL
    /// the sheet stays open.
    pub open spec fn submitted_connection(
        self,
        form: Form,
        fields: FieldsSpec,
        fresh: Id,
    ) -> Change {
        if trimmed(fields.url).len() == 0 {
            AppSpec { error: Some("A stream needs a URL."@), ..self }.same()
        } else {
            let connection = fields.connection(
                self.edited_id(form.editing, fresh),
                form.transport,
            );
            let app = AppSpec { form: None, error: None, ..self };
            Change {
                app: if form.editing is Some {
                    app.with_library(
                        LibrarySpec {
                            roots: edited_or_same(self.library.roots, replace_stream(connection)),
                            ..self.library
                        },
                    )
                } else {
                    AppSpec { selected: Some(connection.id), ..app }.with_library(
                        LibrarySpec {
                            roots: inserted(
                                self.library.roots,
                                form.parent,
                                Tree::Stream(connection),
                            ),
                            ..self.library
                        },
                    )
                },
                effects: EffectsSpec::rebuilding(),
            }
        }
    }

    /// After saving the sheet, where a new connection gets that id.
    pub open spec fn submitted_form(self, fields: FieldsSpec, fresh: Id) -> Change {
        match self.form {
            None => self.same(),
            Some(form) => match form.target {
                FormTarget::Group => self.renamed_group(form.editing, trimmed(fields.name)),
                FormTarget::View => self.renamed_view(form.editing, trimmed(fields.name)),
                FormTarget::Connection => self.submitted_connection(form, fields, fresh),
            },
        }
    }

    /// After adding a group with that id.
    pub open spec fn added_group(self, id: Id) -> Change {
        Change {
            app: AppSpec { selected: Some(id), ..self }.with_library(
                LibrarySpec {
                    roots: inserted(
                        self.library.roots,
                        self.target_group(),
                        Tree::Group {
                            id,
                            name: "New group"@,
                            children: Seq::empty(),
                            expanded: true,
                        },
                    ),
                    ..self.library
                },
            ),
            effects: EffectsSpec::rebuilding(),
        }
    }

    /// The open streams at or below a node.
    pub open spec fn open_under(self, id: Id) -> Seq<Id> {
        self.open.filter(|open: Id| self.library.is_ancestor(id, open))
    }

    /// After closing streams one by one.
    pub open spec fn closed_each(self, ids: Seq<Id>) -> Change
        decreases ids.len(),
    {
        if ids.len() == 0 {
            self.same()
        } else {
            let before = self.closed_each(ids.drop_last());
            let last = before.app.closed_stream(ids.last());
            Change {
                app: last.app,
                effects: EffectsSpec {
                    closed: before.effects.closed + last.effects.closed,
                    ..EffectsSpec::none()
                },
            }
        }
    }

    /// After deleting the selection. Anything open inside it is closed first.
    pub open spec fn deleted_selected(self) -> Change {
        match self.selected {
            None => self.same(),
            Some(id) => {
                let app = AppSpec { selected: None, ..self };
                let closing = app.closed_each(app.open_under(id));
                Change {
                    app: closing.app.with_library(
                        LibrarySpec {
                            roots: match crate::tree::removed(self.library.roots, id) {
                                Some((rest, _)) => rest,
                                None => self.library.roots,
                            },
                            ..closing.app.library
                        },
                    ),
                    effects: EffectsSpec {
                        closed: closing.effects.closed,
                        ..EffectsSpec::rebuilding()
                    },
                }
            },
        }
    }
}

impl Form {
    /// The heading of the sheet.
    pub open spec fn title_text(self) -> Seq<char> {
        match self.target {
            FormTarget::View => "Rename wall"@,
            FormTarget::Group => "Rename group"@,
            FormTarget::Connection => if self.editing is Some {
                "Edit connection"@
            } else {
                "New connection"@
            },
        }
    }

    /// The heading of the sheet.
    pub fn title(&self) -> (title: &'static str)
        ensures
            title@ == self.title_text(),
    {
        match self.target {
            FormTarget::View => "Rename wall",
            FormTarget::Group => "Rename group",
            FormTarget::Connection => if self.editing.is_some() {
                "Edit connection"
            } else {
                "New connection"
            },
        }
    }

    /// Whether the sheet shows the name field alone.
    pub fn name_only(&self) -> (yes: bool)
        ensures
            yes == (self.target != FormTarget::Connection),
    {
        self.target != FormTarget::Connection
    }
}

/// What came of an entry of a menu.
pub enum RowOutcome {
    /// The state changed.
    Done(Effects),
    /// The sheet opened, with these texts in its fields.
    Sheet(Fields),
    /// There was nothing to do it with.
    Nothing,
}

/// Whether an action left the state and came out as it should.
pub open spec fn changed(after: AppSpec, outcome: RowOutcome, change: Change) -> bool {
    outcome matches RowOutcome::Done(effects) && (Change { app: after, effects: effects@ })
        == change
}

/// Whether an entry of a row's menu did what it says to the row's node.
pub open spec fn did(
    before: AppSpec,
    after: AppSpec,
    action: RowAction,
    id: Id,
    outcome: RowOutcome,
) -> bool {
    let selected = AppSpec { selected: Some(id), ..before };
    match action {
        RowAction::OpenAll => changed(after, outcome, before.opened_group(id)),
        RowAction::NewStream => {
            &&& outcome matches RowOutcome::Sheet(fields)
            &&& fields@ == FieldsSpec::of_connection(None)
            &&& after == selected.opened_form(None)
        },
        RowAction::NewGroup => {
            &&& after.selected matches Some(fresh)
            &&& is_random_uuid(fresh.bits)
            &&& changed(after, outcome, selected.added_group(fresh))
        },
        RowAction::Rename => match found(before.library.roots, id) {
            Some(t) => {
                &&& outcome matches RowOutcome::Sheet(fields)
                &&& fields@ == FieldsSpec::of_name(t.name())
                &&& after == before.opened_rename(id, FormTarget::Group)
            },
            None => outcome is Nothing && after == before,
        },
        RowAction::Open => match before.library.connection(id) {
            Some(connection) => changed(after, outcome, before.opened(connection)),
            None => outcome is Nothing && after == before,
        },
        RowAction::Edit => match before.library.connection(id) {
            Some(connection) => {
                &&& outcome matches RowOutcome::Sheet(fields)
                &&& fields@ == FieldsSpec::of_connection(Some(connection))
                &&& after == before.opened_form(Some(connection))
            },
            None => outcome is Nothing && after == before,
        },
        RowAction::Delete => changed(after, outcome, selected.deleted_selected()),
    }
}

/// `text`, or `None` where it is empty.
fn some_unless_empty(text: &str) -> (some: Option<String>)
    ensures
        optional_text(some) == unless_empty(text@),
{
    if text.is_empty() {
        None
    } else {
        Some(text.to_owned())
    }
}

/// `text`, or nothing where it is missing.
fn text_or_empty(text: &Option<String>) -> (t: String)
    ensures
        t@ == or_empty(optional_text(*text)),
{
    match text {
        Some(t) => t.clone(),
        None => String::new(),
    }
}

impl PlayerApp {
    /// Selects a row.
    pub fn select(&mut self, id: Id)
        ensures
            final(self)@ == (AppSpec { selected: Some(id), ..old(self)@ }),
    {
        self.selected = Some(id);
    }

    pub fn add_group(&mut self) -> (effects: Effects)
        ensures
            ({
                &&& final(self)@.selected matches Some(id)
                &&& is_random_uuid(id.bits)
                &&& (Change { app: final(self)@, effects: effects@ }) == old(self)@.added_group(id)
            }),
    {
        let parent = self.target_group();
        let group = Node::group("New group");
        let id = group.id();
        self.library.insert(parent, group);
        self.selected = Some(id);
        self.note_open();
        proof {
            assert(self@ =~= old(self)@.added_group(id).app);
        }
        Effects::rebuilding()
    }

    /// Opens the sheet for a connection, or for a new one, and says what its fields hold.
    pub fn open_form(&mut self, editing: Option<Connection>) -> (fields: Fields)
        ensures
            ({
                let base = match editing {
                    Some(c) => Some(c@),
                    None => None,
                };
                &&& final(self)@ == old(self)@.opened_form(base)
                &&& fields@ == FieldsSpec::of_connection(base)
            }),
    {
        let parent = self.target_group();
        match editing {
            Some(c) => {
                self.form = Some(
                    Form {
                        editing: Some(c.id),
                        parent,
                        target: FormTarget::Connection,
                        transport: c.transport,
                    },
                );
                Fields {
                    name: c.name.clone(),
                    url: c.url.clone(),
                    username: text_or_empty(&c.username),
                    password: text_or_empty(&c.password),
                }
            },
            None => {
                self.form = Some(
                    Form {
                        editing: None,
                        parent,
                        target: FormTarget::Connection,
                        transport: Transport::default(),
                    },
                );
                Fields {
                    name: String::new(),
                    url: "rtsp://".to_owned(),
                    username: String::new(),
                    password: String::new(),
                }
            },
        }
    }

    /// Opens the sheet to rename a group and says what its fields hold.
    pub fn open_group_form(&mut self, id: Id) -> (fields: Option<Fields>)
        ensures
            match found(old(self)@.library.roots, id) {
                Some(t) => {
                    &&& final(self)@ == old(self)@.opened_rename(id, FormTarget::Group)
                    &&& optional_fields(fields) == Some(FieldsSpec::of_name(t.name()))
                },
                None => final(self)@ == old(self)@ && fields is None,
            },
    {
        let name = match self.library.find(id) {
            Some(node) => node.name().to_owned(),
            None => return None,
        };
        self.form = Some(
            Form {
                editing: Some(id),
                parent: None,
                target: FormTarget::Group,
                transport: Transport::default(),
            },
        );
        Some(
            Fields { name, url: String::new(), username: String::new(), password: String::new() },
        )
    }

    /// Rename sheet for a saved wall; says what its fields hold.
    pub fn open_view_form(&mut self, id: Id) -> (fields: Option<Fields>)
        ensures
            match old(self)@.library.view(id) {
                Some(view) => {
                    &&& final(self)@ == old(self)@.opened_rename(id, FormTarget::View)
                    &&& optional_fields(fields) == Some(FieldsSpec::of_name(view.name))
                },
                None => final(self)@ == old(self)@ && fields is None,
            },
    {
        let name = match self.library.view(id) {
            Some(view) => view.name.clone(),
            None => return None,
        };
        self.form = Some(
            Form {
                editing: Some(id),
                parent: None,
                target: FormTarget::View,
                transport: Transport::default(),
            },
        );
        Some(
            Fields { name, url: String::new(), username: String::new(), password: String::new() },
        )
    }

    /// Chooses the transport on the sheet.
    pub fn set_transport(&mut self, transport: Transport)
        ensures
            final(self)@ == (AppSpec {
                form: match old(self)@.form {
                    Some(form) => Some(Form { transport, ..form }),
                    None => None,
                },
                ..old(self)@
            }),
    {
        if let Some(form) = self.form {
            self.form = Some(Form { transport, ..form });
        }
    }

    /// Closes the sheet without saving.
    pub fn cancel_form(&mut self)
        ensures
            final(self)@ == (AppSpec { form: None, error: None, ..old(self)@ }),
    {
        self.form = None;
        self.error = None;
    }

    /// Saves the sheet. A new connection gets an id of its own and is selected.
    pub fn submit_form(&mut self, fields: &Fields) -> (effects: Effects)
        ensures
            exists|fresh: Id| is_random_uuid(fresh.bits) && (Change {
                app: final(self)@,
                effects: effects@,
            }) == #[trigger] old(self)@.submitted_form(fields@, fresh),
    {
        let fresh = Id::new_v4();
        self.submit_with(fields, fresh)
    }

    /// Saves the sheet, where a new connection gets that id.
    pub fn submit_with(&mut self, fields: &Fields, fresh: Id) -> (effects: Effects)
        ensures
            (Change { app: final(self)@, effects: effects@ }) == old(self)@.submitted_form(
                fields@,
                fresh,
            ),
    {
        let form = match self.form {
            Some(form) => form,
            None => return Effects::none(),
        };
        let name = trim(fields.name.as_str()).to_owned();
        match form.target {
            FormTarget::Group => {
                self.form = None;
                self.error = None;
                let mut effects = Effects::none();
                effects.rebuild = true;
                if let Some(id) = form.editing {
                    if !name.as_str().is_empty() {
                        self.library.rename_group(id, name);
                        self.note_open();
                        effects.save = true;
                    }
                }
                effects
            },
            FormTarget::View => {
                self.form = None;
                self.error = None;
                if let Some(id) = form.editing {
                    if !name.as_str().is_empty() {
                        if let Some(view) = self.library.view_mut(id) {
                            view.name = name.clone();
                        }
                        if let Some(draft) = &mut self.draft {
                            draft.name = name;
                        }
                        self.note_open();
                        return Effects::saving();
                    }
                }
                Effects::none()
            },
            FormTarget::Connection => self.submit_connection(form, fields, name, fresh),
        }
    }

    fn submit_connection(
        &mut self,
        form: Form,
        fields: &Fields,
        name: String,
        fresh: Id,
    ) -> (effects: Effects)
        requires
            name@ == trimmed(fields@.name),
        ensures
            (Change { app: final(self)@, effects: effects@ }) == old(self)@.submitted_connection(
                form,
                fields@,
                fresh,
            ),
    {
        let url = trim(fields.url.as_str()).to_owned();
        if url.as_str().is_empty() {
            self.error = Some("A stream needs a URL.".to_owned());
            return Effects::none();
        }
        let id = match form.editing {
            Some(id) => match self.library.connection(id) {
                Some(existing) => existing.id,
                None => fresh,
            },
            None => fresh,
        };
        let connection = Connection {
            id,
            name: if name.as_str().is_empty() {
                url.clone()
            } else {
                name
            },
            url,
            username: some_unless_empty(trim(fields.username.as_str())),
            password: some_unless_empty(fields.password.as_str()),
            transport: form.transport,
        };
        let ghost spec = fields@.connection(
            old(self)@.edited_id(form.editing, fresh),
            form.transport,
        );
        assert(connection@ =~= spec);
        self.form = None;
        self.error = None;
        match form.editing {
            Some(_) => {
                self.library.update_connection(connection);
            },
            None => {
                self.selected = Some(connection.id);
                self.library.insert(form.parent, Node::Stream(connection));
            },
        }
        self.note_open();
        proof {
            assert(self@ =~= old(self)@.submitted_connection(form, fields@, fresh).app);
        }
        Effects::rebuilding()
    }

    /// Does what a row's menu offers.
    pub fn perform(&mut self, action: RowAction, id: Id) -> (outcome: RowOutcome)
        ensures
            did(old(self)@, final(self)@, action, id, outcome),
    {
        match action {
            RowAction::OpenAll => RowOutcome::Done(self.open_group(id)),
            RowAction::NewStream => {
                self.select(id);
                RowOutcome::Sheet(self.open_form(None))
            },
            RowAction::NewGroup => {
                self.select(id);
                RowOutcome::Done(self.add_group())
            },
            RowAction::Rename => match self.open_group_form(id) {
                Some(fields) => RowOutcome::Sheet(fields),
                None => RowOutcome::Nothing,
            },
            RowAction::Open => {
                let connection = match self.library.connection(id) {
                    Some(connection) => connection.clone(),
                    None => return RowOutcome::Nothing,
                };
                RowOutcome::Done(self.open_stream(connection))
            },
            RowAction::Edit => {
                let connection = match self.library.connection(id) {
                    Some(connection) => connection.clone(),
                    None => return RowOutcome::Nothing,
                };
                RowOutcome::Sheet(self.open_form(Some(connection)))
            },
            RowAction::Delete => {
                self.select(id);
                RowOutcome::Done(self.delete_selected())
            },
        }
    }

    /// Does what the menu of a saved wall offers.
    pub fn perform_on_view(&mut self, action: ViewAction, id: Id) -> (outcome: RowOutcome)
        ensures
            match action {
                ViewAction::Rename => match old(self)@.library.view(id) {
                    Some(view) => {
                        &&& outcome matches RowOutcome::Sheet(fields)
                        &&& fields@ == FieldsSpec::of_name(view.name)
                        &&& final(self)@ == old(self)@.opened_rename(id, FormTarget::View)
                    },
                    None => outcome is Nothing && final(self)@ == old(self)@,
                },
                ViewAction::Delete => changed(final(self)@, outcome, old(self)@.deleted_view(id)),
            },
    {
        match action {
            ViewAction::Rename => match self.open_view_form(id) {
                Some(fields) => RowOutcome::Sheet(fields),
                None => RowOutcome::Nothing,
            },
            ViewAction::Delete => RowOutcome::Done(self.delete_view(id)),
        }
    }

    /// The open streams at or below a node.
    fn streams_under(&self, id: Id) -> (ids: Vec<Id>)
        ensures
            ids@ == self@.open_under(id),
    {
        let ghost pred = |open: Id| self@.library.is_ancestor(id, open);
        let mut ids: Vec<Id> = Vec::new();
        let mut i: usize = 0;
        assert(ids@ =~= self.open@.take(0).filter(pred)) by {
            reveal(Seq::filter);
        }
        while i < self.open.len()
            invariant
                i <= self.open@.len(),
                pred == (|open: Id| self@.library.is_ancestor(id, open)),
                ids@ == self.open@.take(i as int).filter(pred),
            decreases self.open@.len() - i,
        {
            proof {
                reveal(Seq::filter);
                assert(self.open@.take(i + 1).drop_last() =~= self.open@.take(i as int));
            }
            if self.library.is_ancestor(id, self.open[i]) {
                ids.push(self.open[i]);
            }
            i += 1;
        }
        assert(self.open@.take(i as int) =~= self.open@);
        ids
    }

    /// Deletes the selection from the tree.
    pub fn delete_selected(&mut self) -> (effects: Effects)
        ensures
            (Change { app: final(self)@, effects: effects@ }) == old(self)@.deleted_selected(),
    {
        let id = match self.selected.take() {
            Some(id) => id,
            None => return Effects::none(),
        };
        let ghost app = self@;
        let closing = self.streams_under(id);
        let mut closed: Vec<Id> = Vec::new();
        let mut i: usize = 0;
        assert(closing@.take(0) =~= Seq::<Id>::empty());
        while i < closing.len()
            invariant
                i <= closing@.len(),
                self@ == app.closed_each(closing@.take(i as int)).app,
                closed@ == app.closed_each(closing@.take(i as int)).effects.closed,
                self@.library.roots == app.library.roots,
            decreases closing@.len() - i,
        {
            assert(closing@.take(i + 1).drop_last() =~= closing@.take(i as int));
            let mut effects = self.close_stream(closing[i]);
            closed.append(&mut effects.closed);
            i += 1;
        }
        assert(closing@.take(i as int) =~= closing@);
        self.library.remove(id);
        self.note_open();
        let mut effects = Effects::rebuilding();
        effects.closed = closed;
        proof {
            assert(self@ =~= old(self)@.deleted_selected().app);
            assert(effects@ =~= old(self)@.deleted_selected().effects);
        }
        effects
    }
}

} // verus!

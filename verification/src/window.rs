//! The window: what is selected, what plays, and what each action changes.
//!
//! The window itself is drawn elsewhere. An action here changes the state and says what has to
//! happen outside of it: which streams to stop, which to start, and whether to write the
//! library.

use crate::connection::{Connection, ConnectionSpec, Transport};
use crate::grid::{GridSpec, GridView};
use crate::id::Id;
use crate::library::{Library, LibrarySpec};
use crate::prefs::LayoutMode;
use crate::tree::{
    connection_specs, edited_or_same, fold, found, lemma_group_view, parent, preorder, streams,
    Node, Tree,
};
use crate::wall::holds;
use vstd::prelude::*;
use vstd::string::StringExecFns;

verus! {

/// What the add/edit sheet is editing. Groups and walls reuse it but show only
/// the name field.
#[derive(Debug, Clone, Copy, PartialEq, Eq, Structural)]
pub enum FormTarget {
    Connection,
    Group,
    View,
}

/// The add/edit sheet.
#[derive(Debug, Clone, Copy, PartialEq, Eq, Structural)]
pub struct Form {
    pub editing: Option<Id>,
    pub parent: Option<Id>,
    pub target: FormTarget,
    pub transport: Transport,
}

/// The state of the window.
#[derive(Debug)]
pub struct PlayerApp {
    pub library: Library,
    pub selected: Option<Id>,
    /// The streams on the wall, in the order of their tiles.
    pub open: Vec<Id>,
    pub form: Option<Form>,
    /// The tile under the cursor. Its header is the only one drawn.
    pub hovered_tile: Option<Id>,
    /// A working copy of the active view. A wall is locked until it is
    /// unlocked for editing, and edits live here until they are saved, so
    /// nothing touches the config file until you say so.
    pub draft: Option<GridView>,
    pub error: Option<String>,
}

/// The contents of a [`PlayerApp`].
#[verifier::ext_equal]
pub struct AppSpec {
    pub library: LibrarySpec,
    pub selected: Option<Id>,
    pub open: Seq<Id>,
    pub form: Option<Form>,
    pub hovered_tile: Option<Id>,
    pub draft: Option<GridSpec>,
    pub error: Option<Seq<char>>,
}

/// The contents of an optional wall.
pub open spec fn optional_grid(view: Option<GridView>) -> Option<GridSpec> {
    match view {
        Some(v) => Some(v@),
        None => None,
    }
}

impl View for PlayerApp {
    type V = AppSpec;

    open spec fn view(&self) -> AppSpec {
        AppSpec {
            library: self.library.model(),
            selected: self.selected,
            open: self.open@,
            form: self.form,
            hovered_tile: self.hovered_tile,
            draft: optional_grid(self.draft),
            error: crate::connection::optional_text(self.error),
        }
    }
}

/// What an action asks for outside the window's state. Streams stop before others start.
#[derive(Debug)]
pub struct Effects {
    pub closed: Vec<Id>,
    pub started: Vec<Connection>,
    pub save: bool,
    pub rebuild: bool,
}

/// The contents of [`Effects`].
#[verifier::ext_equal]
pub struct EffectsSpec {
    pub closed: Seq<Id>,
    pub started: Seq<ConnectionSpec>,
    pub save: bool,
    pub rebuild: bool,
}

impl View for Effects {
    type V = EffectsSpec;

    open spec fn view(&self) -> EffectsSpec {
        EffectsSpec {
            closed: self.closed@,
            started: connection_specs(self.started@),
            save: self.save,
            rebuild: self.rebuild,
        }
    }
}

/// The state after an action, and what the action asks for.
#[verifier::ext_equal]
pub struct Change {
    pub app: AppSpec,
    pub effects: EffectsSpec,
}

impl EffectsSpec {
    /// Nothing.
    pub open spec fn none() -> EffectsSpec {
        EffectsSpec {
            closed: Seq::empty(),
            started: Seq::empty(),
            save: false,
            rebuild: false,
        }
    }

    /// Only to write the library.
    pub open spec fn saving() -> EffectsSpec {
        EffectsSpec { save: true, ..EffectsSpec::none() }
    }

    /// To write the library and draw the tree anew.
    pub open spec fn rebuilding() -> EffectsSpec {
        EffectsSpec { rebuild: true, ..EffectsSpec::saving() }
    }
}

impl Effects {
    pub(crate) fn none() -> (effects: Effects)
        ensures
            effects@ == EffectsSpec::none(),
    {
        let effects = Effects {
            closed: Vec::new(),
            started: Vec::new(),
            save: false,
            rebuild: false,
        };
        assert(effects@ =~= EffectsSpec::none());
        effects
    }

    pub(crate) fn saving() -> (effects: Effects)
        ensures
            effects@ == EffectsSpec::saving(),
    {
        let mut effects = Effects::none();
        effects.save = true;
        effects
    }

    pub(crate) fn rebuilding() -> (effects: Effects)
        ensures
            effects@ == EffectsSpec::rebuilding(),
    {
        let mut effects = Effects::saving();
        effects.rebuild = true;
        effects
    }
}

/// The place of the first `id` among `ids`, counted from `from`.
pub open spec fn position(ids: Seq<Id>, id: Id, from: int) -> Option<int>
    decreases ids.len() - from,
{
    if from >= ids.len() {
        None
    } else if ids[from] == id {
        Some(from)
    } else {
        position(ids, id, from + 1)
    }
}

/// The place of the first `id` among `ids`.
pub(crate) fn position_of(ids: &Vec<Id>, id: Id) -> (at: Option<usize>)
    ensures
        (match at {
            Some(i) => Some(i as int),
            None => None,
        }) == position(ids@, id, 0),
        at matches Some(i) ==> i < ids@.len() && ids@[i as int] == id,
{
    let mut i: usize = 0;
    while i < ids.len()
        invariant
            i <= ids@.len(),
            position(ids@, id, 0) == position(ids@, id, i as int),
        decreases ids@.len() - i,
    {
        if ids[i] == id {
            return Some(i);
        }
        i += 1;
    }
    None
}

/// The connections of the library with those ids, in order; an id without one is passed over.
pub open spec fn known(library: LibrarySpec, ids: Seq<Id>) -> Seq<ConnectionSpec>
    decreases ids.len(),
{
    if ids.len() == 0 {
        Seq::empty()
    } else {
        let before = known(library, ids.drop_last());
        match library.connection(ids.last()) {
            Some(connection) => before.push(connection),
            None => before,
        }
    }
}

/// The tiles after opening connections one by one, and those that were started. One that is
/// already open stays as it is.
pub open spec fn open_all(open: Seq<Id>, connections: Seq<ConnectionSpec>) -> (
    Seq<Id>,
    Seq<ConnectionSpec>,
)
    decreases connections.len(),
{
    if connections.len() == 0 {
        (open, Seq::empty())
    } else {
        let (ids, started) = open_all(open, connections.drop_last());
        let connection = connections.last();
        if ids.contains(connection.id) {
            (ids, started)
        } else {
            (ids.push(connection.id), started.push(connection))
        }
    }
}

impl AppSpec {
    /// With the open streams noted in the library, as it is written.
    pub open spec fn saved(self) -> AppSpec {
        AppSpec { library: LibrarySpec { open: self.open, ..self.library }, ..self }
    }

    /// Before the first action: the streams that were open when the library was written are
    /// open again.
    pub open spec fn restored(library: LibrarySpec) -> Change {
        let (open, started) = open_all(Seq::empty(), known(library, library.open));
        Change {
            app: AppSpec {
                library,
                selected: None,
                open,
                form: None,
                hovered_tile: None,
                draft: None,
                error: None,
            },
            effects: EffectsSpec { started, ..EffectsSpec::none() },
        }
    }

    /// After nothing happened.
    pub open spec fn same(self) -> Change {
        Change { app: self, effects: EffectsSpec::none() }
    }

    /// With the library changed and written.
    pub open spec fn with_library(self, library: LibrarySpec) -> AppSpec {
        AppSpec { library, ..self }.saved()
    }

    pub open spec fn toggled_sidebar(self) -> Change {
        Change {
            app: self.with_library(
                LibrarySpec { sidebar_hidden: !self.library.sidebar_hidden, ..self.library },
            ),
            effects: EffectsSpec::saving(),
        }
    }

    pub open spec fn cycled_theme(self) -> Change {
        Change {
            app: self.with_library(
                LibrarySpec { theme: self.library.theme.spec_next(), ..self.library },
            ),
            effects: EffectsSpec::saving(),
        }
    }

    /// The group to add new items into: the selection if it is a group, the
    /// selected connection's parent otherwise.
    pub open spec fn target_group(self) -> Option<Id> {
        match self.selected {
            None => None,
            Some(selected) => match found(self.library.roots, selected) {
                None => None,
                Some(Tree::Group { id, .. }) => Some(id),
                Some(Tree::Stream(_)) => parent(self.library.roots, selected),
            },
        }
    }

    /// After opening a connection. A saved view pins specific positions; opening freely
    /// leaves it. In `Single` the wall shows one stream at a time, so opening replaces
    /// what is there; in `Multi` it adds a tile.
    pub open spec fn opened(self, connection: ConnectionSpec) -> Change {
        let app = AppSpec {
            library: LibrarySpec { active_view: None, ..self.library },
            ..self
        };
        if self.library.layout == LayoutMode::Single {
            Change {
                app: AppSpec { open: seq![connection.id], ..app }.saved(),
                effects: EffectsSpec {
                    closed: self.open,
                    started: seq![connection],
                    ..EffectsSpec::saving()
                },
            }
        } else if self.open.contains(connection.id) {
            app.same()
        } else {
            Change {
                app: AppSpec { open: self.open.push(connection.id), ..app }.saved(),
                effects: EffectsSpec { started: seq![connection], ..EffectsSpec::saving() },
            }
        }
    }

    /// After a click on a row: a group folds or unfolds, a connection opens.
    pub open spec fn clicked(self, id: Id) -> Change {
        let app = AppSpec { selected: Some(id), ..self };
        match found(self.library.roots, id) {
            Some(Tree::Group { expanded, .. }) => Change {
                app: app.with_library(
                    LibrarySpec {
                        roots: edited_or_same(self.library.roots, fold(id, !expanded)),
                        ..self.library
                    },
                ),
                effects: EffectsSpec::saving(),
            },
            Some(Tree::Stream(connection)) => app.opened(connection),
            None => app.same(),
        }
    }

    /// After moving a node under a group, or to the top level.
    pub open spec fn moved_node(self, dragged: Id, new_parent: Option<Id>) -> Change {
        match self.library.moved(dragged, new_parent) {
            Some(roots) => Change {
                app: self.with_library(LibrarySpec { roots, ..self.library }),
                effects: EffectsSpec::rebuilding(),
            },
            None => self.same(),
        }
    }

    /// After dropping a row onto another: into a group, or alongside a connection.
    pub open spec fn dropped_onto(self, dragged: Id, target: Id) -> Change {
        match found(self.library.roots, target) {
            Some(Tree::Group { id, .. }) => self.moved_node(dragged, Some(id)),
            Some(Tree::Stream(_)) => self.moved_node(dragged, parent(self.library.roots, target)),
            None => self.same(),
        }
    }

    /// After hovering a row in the middle of a drag: a folded group unfolds.
    pub open spec fn expanded_for_drag(self, id: Id) -> Change {
        match found(self.library.roots, id) {
            Some(Tree::Group { expanded: false, .. }) => Change {
                app: AppSpec {
                    library: LibrarySpec {
                        roots: edited_or_same(self.library.roots, fold(id, true)),
                        ..self.library
                    },
                    ..self
                },
                effects: EffectsSpec { rebuild: true, ..EffectsSpec::none() },
            },
            _ => self.same(),
        }
    }

    /// The connections at or below a node, depth first.
    pub open spec fn connections_under(self, id: Id) -> Seq<ConnectionSpec> {
        match found(self.library.roots, id) {
            Some(t) => streams(preorder(seq![t])),
            None => Seq::empty(),
        }
    }

    /// After opening every connection in a group as a set, on the grid where there are
    /// several.
    pub open spec fn opened_group(self, id: Id) -> Change {
        let connections = self.connections_under(id);
        if connections.len() == 0 {
            self.same()
        } else {
            let (open, started) = open_all(Seq::empty(), connections);
            Change {
                app: AppSpec {
                    library: LibrarySpec {
                        active_view: None,
                        layout: if connections.len() > 1 {
                            LayoutMode::Multi
                        } else {
                            self.library.layout
                        },
                        ..self.library
                    },
                    open,
                    ..self
                }.saved(),
                effects: EffectsSpec { closed: self.open, started, ..EffectsSpec::saving() },
            }
        }
    }

    /// After switching between one stream and many. Collapsing to one keeps the stream that
    /// was opened last.
    pub open spec fn toggled_layout(self) -> Change {
        let app = AppSpec {
            library: LibrarySpec { layout: self.library.layout.spec_toggled(), ..self.library },
            ..self
        };
        if app.library.layout == LayoutMode::Single && self.open.len() > 1 {
            Change {
                app: AppSpec { open: seq![self.open.last()], ..app }.saved(),
                effects: EffectsSpec { closed: self.open.drop_last(), ..EffectsSpec::saving() },
            }
        } else {
            Change { app: app.saved(), effects: EffectsSpec::saving() }
        }
    }
}

impl PlayerApp {
    /// The window at start-up: streams that were playing at exit are opened again.
    pub fn new(library: Library) -> (made: (PlayerApp, Effects))
        ensures
            made.0@ == AppSpec::restored(library.model()).app,
            made.1@ == AppSpec::restored(library.model()).effects,
    {
        let mut app = PlayerApp {
            library,
            selected: None,
            open: Vec::new(),
            form: None,
            hovered_tile: None,
            draft: None,
            error: None,
        };
        let restore = app.connections_of(&app.library.open);
        let started = app.push_streams(restore);
        let mut effects = Effects::none();
        effects.started = started;
        proof {
            assert(effects@.started =~= AppSpec::restored(library.model()).effects.started);
            assert(app@ =~= AppSpec::restored(library.model()).app);
        }
        (app, effects)
    }

    /// The connections with those ids.
    pub(crate) fn connections_of(&self, ids: &Vec<Id>) -> (connections: Vec<Connection>)
        ensures
            connection_specs(connections@) == known(self.library.model(), ids@),
    {
        let ghost library = self.library.model();
        let mut connections: Vec<Connection> = Vec::new();
        let mut i: usize = 0;
        assert(connection_specs(connections@) =~= known(library, ids@.take(0)));
        while i < ids.len()
            invariant
                i <= ids@.len(),
                library == self.library.model(),
                connection_specs(connections@) == known(library, ids@.take(i as int)),
            decreases ids@.len() - i,
        {
            let ghost before = connection_specs(connections@);
            assert(ids@.take(i + 1).drop_last() =~= ids@.take(i as int));
            if let Some(connection) = self.library.connection(ids[i]) {
                let copy = connection.clone();
                connections.push(copy);
                assert(connection_specs(connections@) =~= before.push(copy@));
            }
            i += 1;
        }
        assert(ids@.take(i as int) =~= ids@);
        connections
    }

    /// Opens a stream unless it is open.
    pub(crate) fn push_stream(&mut self, connection: Connection, started: &mut Vec<Connection>)
        ensures
            final(self)@ == (AppSpec {
                open: if old(self)@.open.contains(connection.id) {
                    old(self)@.open
                } else {
                    old(self)@.open.push(connection.id)
                },
                ..old(self)@
            }),
            connection_specs(final(started)@) == if old(self)@.open.contains(connection.id) {
                connection_specs(old(started)@)
            } else {
                connection_specs(old(started)@).push(connection@)
            },
    {
        if holds(&self.open, connection.id) {
            return;
        }
        self.open.push(connection.id);
        started.push(connection);
        assert(connection_specs(started@) =~= connection_specs(old(started)@).push(connection@));
    }

    /// Opens streams one by one and says which were started.
    pub(crate) fn push_streams(&mut self, connections: Vec<Connection>) -> (started: Vec<Connection>)
        ensures
            ({
                let (open, new) = open_all(old(self)@.open, connection_specs(connections@));
                &&& final(self)@ == (AppSpec { open, ..old(self)@ })
                &&& connection_specs(started@) == new
            }),
    {
        let ghost all = connection_specs(connections@);
        let mut started: Vec<Connection> = Vec::new();
        let mut i: usize = 0;
        assert(all.take(0) =~= Seq::<ConnectionSpec>::empty());
        assert(connection_specs(started@) =~= Seq::<ConnectionSpec>::empty());
        while i < connections.len()
            invariant
                i <= connections@.len(),
                all == connection_specs(connections@),
                ({
                    let (open, new) = open_all(old(self)@.open, all.take(i as int));
                    &&& self@ == (AppSpec { open, ..old(self)@ })
                    &&& connection_specs(started@) == new
                }),
            decreases connections@.len() - i,
        {
            assert(all.take(i + 1).drop_last() =~= all.take(i as int));
            assert(all.take(i + 1).last() == connections@[i as int]@);
            let connection = connections[i].clone();
            self.push_stream(connection, &mut started);
            i += 1;
        }
        assert(all.take(i as int) =~= all);
        started
    }

    /// Stops every stream.
    pub(crate) fn close_all(&mut self) -> (closed: Vec<Id>)
        ensures
            closed@ == old(self)@.open,
            final(self)@ == (AppSpec { open: Seq::empty(), ..old(self)@ }),
    {
        let mut closed: Vec<Id> = Vec::new();
        std::mem::swap(&mut closed, &mut self.open);
        closed
    }

    /// Notes the open streams in the library, which is then written.
    pub(crate) fn note_open(&mut self)
        ensures
            final(self)@ == old(self)@.saved(),
    {
        let mut open: Vec<Id> = Vec::new();
        let mut i: usize = 0;
        while i < self.open.len()
            invariant
                i <= self.open@.len(),
                *self == *old(self),
                open@ == self.open@.take(i as int),
            decreases self.open@.len() - i,
        {
            open.push(self.open[i]);
            i += 1;
        }
        assert(open@ =~= self.open@);
        self.library.open = open;
        assert(self@ =~= old(self)@.saved());
    }

    /// What is shown when the library could not be written.
    pub fn save_failed(&mut self, reason: &str)
        ensures
            final(self)@ == (AppSpec {
                error: Some("Could not save library: "@ + reason@),
                ..old(self)@
            }),
    {
        self.error = Some("Could not save library: ".to_owned().concat(reason));
    }

    pub fn toggle_sidebar(&mut self) -> (effects: Effects)
        ensures
            (Change { app: final(self)@, effects: effects@ }) == old(self)@.toggled_sidebar(),
    {
        self.library.sidebar_hidden = !self.library.sidebar_hidden;
        self.note_open();
        Effects::saving()
    }

    pub fn cycle_theme(&mut self) -> (effects: Effects)
        ensures
            (Change { app: final(self)@, effects: effects@ }) == old(self)@.cycled_theme(),
    {
        self.library.theme = self.library.theme.next();
        self.note_open();
        Effects::saving()
    }

    /// The group to add new items into.
    pub fn target_group(&self) -> (group: Option<Id>)
        ensures
            group == self@.target_group(),
    {
        broadcast use lemma_group_view;

        let selected = match self.selected {
            Some(selected) => selected,
            None => return None,
        };
        match self.library.find(selected) {
            Some(Node::Group { id, .. }) => Some(*id),
            Some(Node::Stream(_)) => self.library.parent_of(selected),
            None => None,
        }
    }

    pub fn open_stream(&mut self, connection: Connection) -> (effects: Effects)
        ensures
            (Change { app: final(self)@, effects: effects@ }) == old(self)@.opened(connection@),
    {
        self.library.active_view = None;
        let mut effects = Effects::none();
        if self.library.layout == LayoutMode::Single {
            effects.closed = self.close_all();
        } else if holds(&self.open, connection.id) {
            return effects;
        }
        let ghost app = self@;
        let mut started: Vec<Connection> = Vec::new();
        assert(connection_specs(started@) =~= Seq::<ConnectionSpec>::empty());
        self.push_stream(connection, &mut started);
        effects.started = started;
        effects.save = true;
        self.note_open();
        proof {
            assert(effects@.started =~= seq![connection@]);
            assert(self@ =~= old(self)@.opened(connection@).app);
            assert(effects@ =~= old(self)@.opened(connection@).effects);
        }
        effects
    }

    pub fn on_item_click(&mut self, id: Id) -> (effects: Effects)
        ensures
            (Change { app: final(self)@, effects: effects@ }) == old(self)@.clicked(id),
    {
        broadcast use lemma_group_view;

        self.selected = Some(id);
        let connection = match self.library.find(id) {
            Some(Node::Group { expanded, .. }) => {
                let unfold = !*expanded;
                self.library.set_expanded(id, unfold);
                self.note_open();
                return Effects::saving();
            },
            Some(Node::Stream(connection)) => connection.clone(),
            None => return Effects::none(),
        };
        self.open_stream(connection)
    }

    /// Dropping onto a group moves into it; dropping onto a connection moves
    /// alongside that connection, the way Zed's project panel behaves.
    pub fn drop_onto(&mut self, dragged: Id, target: Id) -> (effects: Effects)
        ensures
            (Change { app: final(self)@, effects: effects@ }) == old(self)@.dropped_onto(
                dragged,
                target,
            ),
    {
        broadcast use lemma_group_view;

        let new_parent = match self.library.find(target) {
            Some(Node::Group { id, .. }) => Some(*id),
            Some(Node::Stream(_)) => self.library.parent_of(target),
            None => return Effects::none(),
        };
        self.move_node(dragged, new_parent)
    }

    pub fn move_node(&mut self, dragged: Id, new_parent: Option<Id>) -> (effects: Effects)
        ensures
            (Change { app: final(self)@, effects: effects@ }) == old(self)@.moved_node(
                dragged,
                new_parent,
            ),
    {
        if self.library.move_node(dragged, new_parent) {
            self.note_open();
            Effects::rebuilding()
        } else {
            Effects::none()
        }
    }

    /// Hovering a collapsed group mid-drag opens it, so you can drop deeper
    /// without letting go first.
    pub fn expand_for_drag(&mut self, id: Id) -> (effects: Effects)
        ensures
            (Change { app: final(self)@, effects: effects@ }) == old(self)@.expanded_for_drag(id),
    {
        broadcast use lemma_group_view;

        let mut effects = Effects::none();
        let collapsed = match self.library.find(id) {
            Some(Node::Group { expanded, .. }) => !*expanded,
            _ => false,
        };
        if collapsed {
            self.library.set_expanded(id, true);
            effects.rebuild = true;
        }
        effects
    }

    /// Opens every connection in a group as a set, switching to the grid so
    /// they are all visible.
    pub fn open_group(&mut self, id: Id) -> (effects: Effects)
        ensures
            (Change { app: final(self)@, effects: effects@ }) == old(self)@.opened_group(id),
    {
        let connections = self.library.connections_under(id);
        let mut effects = Effects::none();
        if connections.len() == 0 {
            return effects;
        }
        self.library.active_view = None;
        effects.closed = self.close_all();
        if connections.len() > 1 {
            self.library.layout = LayoutMode::Multi;
        }
        effects.started = self.push_streams(connections);
        effects.save = true;
        self.note_open();
        proof {
            assert(self@ =~= old(self)@.opened_group(id).app);
            assert(effects@ =~= old(self)@.opened_group(id).effects);
        }
        effects
    }

    pub fn toggle_layout(&mut self) -> (effects: Effects)
        ensures
            (Change { app: final(self)@, effects: effects@ }) == old(self)@.toggled_layout(),
    {
        self.library.layout = self.library.layout.toggled();
        let mut effects = Effects::saving();
        if self.library.layout == LayoutMode::Single && self.open.len() > 1 {
            if let Some(keep) = self.open.pop() {
                effects.closed = self.close_all();
                self.open.push(keep);
            }
        }
        self.note_open();
        proof {
            assert(self@ =~= old(self)@.toggled_layout().app);
            assert(effects@ =~= old(self)@.toggled_layout().effects);
        }
        effects
    }
}

} // verus!

//! The connection library: a tree of groups and RTSP connections, the saved walls,
//! and what the window should look like.

use vstd::prelude::*;

use crate::connection::{Connection, ConnectionSpec};
use crate::grid::{GridSpec, GridView};
use crate::id::Id;
use crate::prefs::{LayoutMode, ThemePref};
use crate::tree::{
    connection_specs, edited_or_same, fold, forest, found, holds_id, inserted, lemma_group_view,
    optional_tree, parent, preorder, removed, rename, replace_stream, streams, Node, Tree,
};
use crate::walk::{
    collect_streams, contains_node, find_node, fold_node, insert_node, parent_node, remove_node,
    rename_node, stays_last, update_stream,
};
use crate::tree_laws::lemma_move_changes_nothing;

verus! {

#[derive(Debug)]
pub struct Library {
    pub roots: Vec<Node>,
    /// Streams that were playing when the window last closed, reopened on
    /// launch so a monitoring wall comes back the way it was left.
    pub open: Vec<Id>,
    pub theme: ThemePref,
    pub layout: LayoutMode,
    /// Collapsed sidebar, so a wall can fill the window.
    pub sidebar_hidden: bool,
    /// Saved walls, each a fixed grid with connections at chosen positions.
    pub views: Vec<GridView>,
    /// The view currently on the wall, if any.
    pub active_view: Option<Id>,
}

/// The contents of a [`Library`].
#[verifier::ext_equal]
pub struct LibrarySpec {
    pub roots: Seq<Tree>,
    pub open: Seq<Id>,
    pub theme: ThemePref,
    pub layout: LayoutMode,
    pub sidebar_hidden: bool,
    pub views: Seq<GridSpec>,
    pub active_view: Option<Id>,
}

/// The contents of a list of saved walls.
pub open spec fn grid_specs(views: Seq<GridView>) -> Seq<GridSpec> {
    views.map_values(|view: GridView| view@)
}

/// The index of the first wall with the id, counted from `from`.
pub open spec fn view_index(views: Seq<GridSpec>, id: Id, from: int) -> Option<int>
    decreases views.len() - from,
{
    if from >= views.len() {
        None
    } else if views[from].id == id {
        Some(from)
    } else {
        view_index(views, id, from + 1)
    }
}

impl LibrarySpec {
    /// An empty library with every setting at its default.
    pub open spec fn empty() -> LibrarySpec {
        LibrarySpec {
            roots: Seq::empty(),
            open: Seq::empty(),
            theme: ThemePref::System,
            layout: LayoutMode::Single,
            sidebar_hidden: false,
            views: Seq::empty(),
            active_view: None,
        }
    }

    /// The first saved wall with the id.
    pub open spec fn view(self, id: Id) -> Option<GridSpec> {
        match view_index(self.views, id, 0) {
            Some(k) => Some(self.views[k]),
            None => None,
        }
    }

    /// The library after it was made safe to render: every wall clamped, and no wall
    /// active that does not exist.
    pub open spec fn sanitized(self) -> LibrarySpec {
        LibrarySpec {
            views: self.views.map_values(|grid: GridSpec| grid.clamped()),
            active_view: match self.active_view {
                Some(id) if view_index(self.views, id, 0) is Some => Some(id),
                _ => None,
            },
            ..self
        }
    }

    /// The connection with the id; a group with the id hides it.
    pub open spec fn connection(self, id: Id) -> Option<ConnectionSpec> {
        match found(self.roots, id) {
            Some(Tree::Stream(connection)) => Some(connection),
            _ => None,
        }
    }

    /// Whether `ancestor` is in the tree, and is or contains `node`.
    pub open spec fn is_ancestor(self, ancestor: Id, node: Id) -> bool {
        match found(self.roots, ancestor) {
            Some(t) => holds_id(seq![t], node),
            None => false,
        }
    }

    /// The tree after `node` was moved under `new_parent`; `None` where the move is
    /// not allowed or changes nothing.
    pub open spec fn moved(self, node: Id, new_parent: Option<Id>) -> Option<Seq<Tree>> {
        if new_parent is Some && self.is_ancestor(node, new_parent->0) {
            None
        } else if parent(self.roots, node) == new_parent {
            None
        } else {
            match removed(self.roots, node) {
                Some((rest, t)) => {
                    let roots = inserted(rest, new_parent, t);
                    if roots == self.roots {
                        None
                    } else {
                        Some(roots)
                    }
                },
                None => None,
            }
        }
    }
}

impl Default for Library {
    fn default() -> (library: Library)
        ensures
            library.model() == LibrarySpec::empty(),
    {
        let library = Library {
            roots: Vec::new(),
            open: Vec::new(),
            theme: ThemePref::default(),
            layout: LayoutMode::default(),
            sidebar_hidden: false,
            views: Vec::new(),
            active_view: None,
        };
        assert(library.model() =~= LibrarySpec::empty());
        library
    }
}

/// What was found on disk at start-up.
pub enum Stored {
    /// The library file was read; its contents where it could be understood.
    Current(Option<Library>),
    /// Only a file of the older format was read.
    Legacy(Option<Library>),
    /// Neither could be read.
    Nothing,
}

/// The library to start with, and whether the older file is to be replaced by a new
/// one.
pub struct Loaded {
    pub library: Library,
    pub migrate: bool,
}

/// Where the library file is: at a place the user named, or in the platform's
/// configuration directory.
#[derive(Debug, PartialEq, Eq)]
pub enum ConfigPath<P> {
    Exact(P),
    InDirectory(P),
}

impl Library {
    pub open spec fn model(&self) -> LibrarySpec {
        LibrarySpec {
            roots: forest(self.roots@),
            open: self.open@,
            theme: self.theme,
            layout: self.layout,
            sidebar_hidden: self.sidebar_hidden,
            views: grid_specs(self.views@),
            active_view: self.active_view,
        }
    }

    /// The config file. An override takes precedence, which is handy for keeping
    /// several libraries; without one and without a home directory there is none.
    pub fn path<P>(override_path: Option<P>, config_dir: Option<P>) -> (path: Option<ConfigPath<P>>)
        ensures
            path == (match override_path {
                Some(place) => Some(ConfigPath::Exact(place)),
                None => match config_dir {
                    Some(dir) => Some(ConfigPath::InDirectory(dir)),
                    None => None,
                },
            }),
    {
        match override_path {
            Some(place) => Some(ConfigPath::Exact(place)),
            None => match config_dir {
                Some(dir) => Some(ConfigPath::InDirectory(dir)),
                None => None,
            },
        }
    }

    /// The library to start with. A corrupt file should not lose the user their
    /// window: it counts as an empty library.
    pub fn load(stored: Stored) -> (loaded: Loaded)
        ensures
            loaded.library.model() == (match stored {
                Stored::Current(Some(library)) => library.model().sanitized(),
                Stored::Legacy(Some(library)) => library.model(),
                _ => LibrarySpec::empty(),
            }),
            loaded.migrate == (stored is Legacy),
    {
        match stored {
            Stored::Current(parsed) => {
                let mut library = match parsed {
                    Some(library) => library,
                    None => Library::default(),
                };
                library.sanitize();
                proof {
                    assert(LibrarySpec::empty().sanitized() =~= LibrarySpec::empty());
                }
                Loaded { library, migrate: false }
            },
            Stored::Legacy(parsed) => {
                let library = match parsed {
                    Some(library) => library,
                    None => Library::default(),
                };
                Loaded { library, migrate: true }
            },
            Stored::Nothing => Loaded { library: Library::default(), migrate: false },
        }
    }

    /// Makes a hand-edited file safe to render.
    pub fn sanitize(&mut self)
        ensures
            final(self).model() == old(self).model().sanitized(),
    {
        let ghost views = grid_specs(self.views@);
        let ghost clamp = |grid: GridSpec| grid.clamped();
        let mut i: usize = 0;
        while i < self.views.len()
            invariant
                i <= self.views@.len(),
                self.views@.len() == views.len(),
                views == grid_specs(old(self).views@),
                clamp == (|grid: GridSpec| grid.clamped()),
                forall|k: int| 0 <= k < i ==> (#[trigger] self.views@[k])@ == views[k].clamped(),
                forall|k: int| i <= k < self.views@.len() ==> (#[trigger] self.views@[k])@ == views[k],
                *self == (Library { views: self.views, ..*old(self) }),
            decreases self.views@.len() - i,
        {
            self.views[i].clamp();
            i += 1;
        }
        assert(grid_specs(self.views@) =~= views.map_values(clamp));
        if let Some(active) = self.active_view {
            let known = self.view(active).is_some();
            proof {
                lemma_view_index_same_ids(views, views.map_values(clamp), active, 0);
            }
            if !known {
                self.active_view = None;
            }
        }
    }

    pub fn view(&self, id: Id) -> (view: Option<&GridView>)
        ensures
            (match view {
                Some(v) => Some(v@),
                None => None,
            }) == self.model().view(id),
    {
        let ghost views = grid_specs(self.views@);
        let mut i: usize = 0;
        while i < self.views.len()
            invariant
                i <= self.views@.len(),
                views == grid_specs(self.views@),
                view_index(views, id, 0) == view_index(views, id, i as int),
            decreases self.views@.len() - i,
        {
            if self.views[i].id == id {
                return Some(&self.views[i]);
            }
            i += 1;
        }
        None
    }

    pub fn view_mut(&mut self, id: Id) -> (view: Option<&mut GridView>)
        ensures
            (match view {
                Some(v) => {
                    let k = view_index(old(self).model().views, id, 0);
                    &&& k is Some
                    &&& v@ == old(self).model().views[k->0]
                    &&& final(self).model() == (LibrarySpec {
                        views: old(self).model().views.update(k->0, (*final(v))@),
                        ..old(self).model()
                    })
                },
                None => {
                    &&& view_index(old(self).model().views, id, 0) is None
                    &&& final(self).model() == old(self).model()
                },
            }),
    {
        let ghost views = grid_specs(self.views@);
        let mut i: usize = 0;
        while i < self.views.len()
            invariant
                i <= self.views@.len(),
                *self == *old(self),
                views == grid_specs(self.views@),
                view_index(views, id, 0) == view_index(views, id, i as int),
            decreases self.views@.len() - i,
        {
            if self.views[i].id == id {
                return Some(&mut self.views[i]);
            }
            i += 1;
        }
        None
    }
}

impl Library {
    /// The first node, depth first, with the id.
    pub fn find(&self, id: Id) -> (node: Option<&Node>)
        ensures
            optional_tree(node) == found(self.model().roots, id),
    {
        find_node(&self.roots, id)
    }

    pub fn connection(&self, id: Id) -> (connection: Option<&Connection>)
        ensures
            (match connection {
                Some(c) => Some(c@),
                None => None,
            }) == self.model().connection(id),
    {
        broadcast use lemma_group_view;

        match self.find(id) {
            Some(Node::Stream(connection)) => Some(connection),
            Some(Node::Group { .. }) => None,
            None => None,
        }
    }

    /// Insert `node` into the group `parent`, or at the root when `parent` is
    /// `None` or names something that is not a group.
    pub fn insert(&mut self, parent: Option<Id>, node: Node)
        ensures
            final(self).model() == (LibrarySpec {
                roots: inserted(old(self).model().roots, parent, node@),
                ..old(self).model()
            }),
    {
        let leftover = match parent {
            Some(parent) => insert_node(&mut self.roots, parent, node),
            None => Some(node),
        };
        let ghost roots = forest(self.roots@);
        if let Some(node) = leftover {
            self.roots.push(node);
            assert(forest(self.roots@) =~= roots.push(node@));
        }
    }

    /// Takes a node, with all that is below it, out of the tree.
    pub fn remove(&mut self, id: Id) -> (gone: Option<Node>)
        ensures
            (match removed(old(self).model().roots, id) {
                Some((rest, t)) => {
                    &&& gone is Some
                    &&& gone->0@ == t
                    &&& final(self).model() == (LibrarySpec { roots: rest, ..old(self).model() })
                },
                None => gone is None && final(self).model() == old(self).model(),
            }),
    {
        remove_node(&mut self.roots, id)
    }

    /// Replaces the connection that has the id of `updated`.
    pub fn update_connection(&mut self, updated: Connection)
        ensures
            final(self).model() == (LibrarySpec {
                roots: edited_or_same(old(self).model().roots, replace_stream(updated@)),
                ..old(self).model()
            }),
    {
        update_stream(&mut self.roots, &updated);
    }

    pub fn rename_group(&mut self, id: Id, new_name: String)
        ensures
            final(self).model() == (LibrarySpec {
                roots: edited_or_same(old(self).model().roots, rename(id, new_name@)),
                ..old(self).model()
            }),
    {
        rename_node(&mut self.roots, id, new_name.as_str());
    }

    pub fn set_expanded(&mut self, id: Id, value: bool)
        ensures
            final(self).model() == (LibrarySpec {
                roots: edited_or_same(old(self).model().roots, fold(id, value)),
                ..old(self).model()
            }),
    {
        fold_node(&mut self.roots, id, value);
    }

    /// Every connection at or below `id`, depth first, so a group can be
    /// opened as a set.
    pub fn connections_under(&self, id: Id) -> (connections: Vec<Connection>)
        ensures
            connection_specs(connections@) == (match found(self.model().roots, id) {
                Some(t) => streams(preorder(seq![t])),
                None => Seq::empty(),
            }),
    {
        let mut out: Vec<Connection> = Vec::new();
        let ghost none = connection_specs(out@);
        assert(none =~= Seq::<ConnectionSpec>::empty());
        if let Some(node) = self.find(id) {
            collect_streams(node, &mut out);
            assert(none + streams(preorder(seq![node@])) =~= streams(preorder(seq![node@])));
        }
        out
    }

    /// Reparent `node` under `new_parent`, or to the top level when `None`.
    /// Returns false when the move is not allowed or changes nothing.
    pub fn move_node(&mut self, node: Id, new_parent: Option<Id>) -> (done: bool)
        ensures
            (match old(self).model().moved(node, new_parent) {
                Some(roots) => {
                    &&& done
                    &&& final(self).model() == (LibrarySpec { roots, ..old(self).model() })
                },
                None => !done && final(self).model() == old(self).model(),
            }),
    {
        if let Some(parent) = new_parent {
            // Dropping a group into itself or one of its own descendants would
            // detach that whole subtree from the tree.
            if self.is_ancestor(node, parent) {
                return false;
            }
        }
        if self.parent_of(node) == new_parent {
            return false;
        }
        // The end of the top level is also where a node goes whose new parent is no group.
        let last = stays_last(&self.roots, node);
        let count = self.roots.len();
        match self.remove(node) {
            Some(detached) => {
                self.insert(new_parent, detached);
                proof {
                    lemma_move_changes_nothing(old(self).model().roots, node, new_parent);
                }
                !(last && self.roots.len() == count)
            },
            None => false,
        }
    }

    /// The group holding `child`, or `None` when it sits at the top level.
    pub fn parent_of(&self, child: Id) -> (group: Option<Id>)
        ensures
            group == parent(self.model().roots, child),
    {
        parent_node(&self.roots, child)
    }

    /// True when `ancestor` is `node` or contains it; used to reject moves that
    /// would drop a group inside itself.
    pub fn is_ancestor(&self, ancestor: Id, node: Id) -> (yes: bool)
        ensures
            yes == self.model().is_ancestor(ancestor, node),
    {
        match self.find(ancestor) {
            Some(found) => contains_node(found, node),
            None => false,
        }
    }
}

/// Where two lists of walls have the same ids, a wall is at the same place in both.
pub proof fn lemma_view_index_same_ids(a: Seq<GridSpec>, b: Seq<GridSpec>, id: Id, from: int)
    requires
        a.len() == b.len(),
        0 <= from,
        forall|k: int| 0 <= k < a.len() ==> (#[trigger] a[k]).id == b[k].id,
    ensures
        view_index(a, id, from) == view_index(b, id, from),
    decreases a.len() - from,
{
    if from < a.len() {
        assert(a[from].id == b[from].id);
        lemma_view_index_same_ids(a, b, id, from + 1);
    }
}

} // verus!

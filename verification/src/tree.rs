//! The tree of groups and connections: its contents, and the walks over it.

use vstd::prelude::*;

use crate::connection::{Connection, ConnectionSpec};
use crate::id::{is_random_uuid, Id};

verus! {

#[derive(Debug)]
pub enum Node {
    Group { id: Id, name: String, children: Vec<Node>, expanded: bool },
    Stream(Connection),
}

/// The contents of a [`Node`].
#[verifier::ext_equal]
pub enum Tree {
    Group { id: Id, name: Seq<char>, children: Seq<Tree>, expanded: bool },
    Stream(ConnectionSpec),
}

/// The contents of one node.
pub open spec fn tree(node: Node) -> Tree
    decreases node,
{
    match node {
        Node::Group { id, name, children, expanded } => Tree::Group {
            id,
            name: name@,
            children: Seq::new(
                children@.len(),
                |i: int|
                    if 0 <= i < children@.len() {
                        tree(children@[i])
                    } else {
                        arbitrary()
                    },
            ),
            expanded,
        },
        Node::Stream(connection) => Tree::Stream(connection@),
    }
}

impl View for Node {
    type V = Tree;

    open spec fn view(&self) -> Tree {
        tree(*self)
    }
}

/// The contents of a list of nodes.
pub open spec fn forest(nodes: Seq<Node>) -> Seq<Tree> {
    nodes.map_values(|node: Node| node@)
}

/// The contents of a node that may be missing.
pub open spec fn optional_tree(node: Option<&Node>) -> Option<Tree> {
    match node {
        Some(n) => Some(n@),
        None => None,
    }
}

impl Tree {
    pub open spec fn id(self) -> Id {
        match self {
            Tree::Group { id, .. } => id,
            Tree::Stream(connection) => connection.id,
        }
    }

    pub open spec fn name(self) -> Seq<char> {
        match self {
            Tree::Group { name, .. } => name,
            Tree::Stream(connection) => connection.name,
        }
    }

    /// The nodes directly below; a connection has none.
    pub open spec fn children(self) -> Seq<Tree> {
        match self {
            Tree::Group { children, .. } => children,
            Tree::Stream(_) => Seq::empty(),
        }
    }
}

/// Every node of `f`, depth first: each node before what is below it, and that
/// before the node's next sibling.
pub open spec fn preorder(f: Seq<Tree>) -> Seq<Tree>
    decreases f,
{
    if f.len() == 0 {
        Seq::empty()
    } else {
        let below = match f[0] {
            Tree::Group { children, .. } => preorder(children),
            Tree::Stream(_) => Seq::empty(),
        };
        seq![f[0]] + below + preorder(f.drop_first())
    }
}

/// The first element of `s` that meets `pred`.
pub open spec fn first_match(s: Seq<Tree>, pred: spec_fn(Tree) -> bool) -> Option<Tree>
    decreases s.len(),
{
    if s.len() == 0 {
        None
    } else if pred(s[0]) {
        Some(s[0])
    } else {
        first_match(s.drop_first(), pred)
    }
}

pub open spec fn has_id(id: Id) -> spec_fn(Tree) -> bool {
    |t: Tree| t.id() == id
}

pub open spec fn has_child(child: Id) -> spec_fn(Tree) -> bool {
    |t: Tree| has_id_at_level(t.children(), child)
}

/// Whether one of `f` itself, rather than something below, has the id.
pub open spec fn has_id_at_level(f: Seq<Tree>, id: Id) -> bool {
    exists|i: int| 0 <= i < f.len() && (#[trigger] f[i]).id() == id
}

/// The first node of `f`, depth first, with the id.
pub open spec fn found(f: Seq<Tree>, id: Id) -> Option<Tree> {
    first_match(preorder(f), has_id(id))
}

/// Whether some node of `f`, at any depth, has the id.
pub open spec fn holds_id(f: Seq<Tree>, id: Id) -> bool {
    exists|i: int| 0 <= i < preorder(f).len() && (#[trigger] preorder(f)[i]).id() == id
}

/// The id of the first group of `f`, depth first, that has `child` directly below it.
pub open spec fn parent(f: Seq<Tree>, child: Id) -> Option<Id> {
    match first_match(preorder(f), has_child(child)) {
        Some(t) => Some(t.id()),
        None => None,
    }
}

/// The contents of a list of connections.
pub open spec fn connection_specs(connections: Seq<Connection>) -> Seq<ConnectionSpec> {
    connections.map_values(|connection: Connection| connection@)
}

/// The connections among `s`, in order.
pub open spec fn streams(s: Seq<Tree>) -> Seq<ConnectionSpec>
    decreases s.len(),
{
    if s.len() == 0 {
        Seq::empty()
    } else {
        let rest = streams(s.drop_first());
        match s[0] {
            Tree::Stream(connection) => seq![connection] + rest,
            Tree::Group { .. } => rest,
        }
    }
}

/// `f` with the first node, depth first, that `edit` applies to replaced by what
/// `edit` makes of it; `None` where it applies to none.
pub open spec fn edited(f: Seq<Tree>, edit: spec_fn(Tree) -> Option<Tree>) -> Option<Seq<Tree>>
    decreases f,
{
    if f.len() == 0 {
        None
    } else {
        match edited_tree(f[0], edit) {
            Some(t) => Some(f.update(0, t)),
            None => match edited(f.drop_first(), edit) {
                Some(rest) => Some(seq![f[0]] + rest),
                None => None,
            },
        }
    }
}

/// The same for one node and what is below it.
pub open spec fn edited_tree(t: Tree, edit: spec_fn(Tree) -> Option<Tree>) -> Option<Tree>
    decreases t,
{
    match edit(t) {
        Some(u) => Some(u),
        None => match t {
            Tree::Group { id, name, children, expanded } => match edited(children, edit) {
                Some(c) => Some(Tree::Group { id, name, children: c, expanded }),
                None => None,
            },
            Tree::Stream(_) => None,
        },
    }
}

/// `f` after an edit that changes nothing where it applies to no node.
pub open spec fn edited_or_same(f: Seq<Tree>, edit: spec_fn(Tree) -> Option<Tree>) -> Seq<Tree> {
    match edited(f, edit) {
        Some(g) => g,
        None => f,
    }
}

/// Appends `node` to the children of the group `parent`.
pub open spec fn add_child(parent: Id, node: Tree) -> spec_fn(Tree) -> Option<Tree> {
    |t: Tree|
        match t {
            Tree::Group { id, name, children, expanded } if id == parent => Some(
                Tree::Group { id, name, children: children.push(node), expanded },
            ),
            _ => None,
        }
}

/// Gives the group `group` another name.
pub open spec fn rename(group: Id, new_name: Seq<char>) -> spec_fn(Tree) -> Option<Tree> {
    |t: Tree|
        match t {
            Tree::Group { id, name, children, expanded } if id == group => Some(
                Tree::Group { id, name: new_name, children, expanded },
            ),
            _ => None,
        }
}

/// Folds or unfolds the group `group`.
pub open spec fn fold(group: Id, value: bool) -> spec_fn(Tree) -> Option<Tree> {
    |t: Tree|
        match t {
            Tree::Group { id, name, children, expanded } if id == group => Some(
                Tree::Group { id, name, children, expanded: value },
            ),
            _ => None,
        }
}

/// Replaces the connection that has the id of `updated`.
pub open spec fn replace_stream(updated: ConnectionSpec) -> spec_fn(Tree) -> Option<Tree> {
    |t: Tree|
        match t {
            Tree::Stream(connection) if connection.id == updated.id => Some(Tree::Stream(updated)),
            _ => None,
        }
}

/// `f` with `node` in the group `parent`, or at the end of the top level where
/// `parent` is `None` or no group has that id.
pub open spec fn inserted(f: Seq<Tree>, parent: Option<Id>, node: Tree) -> Seq<Tree> {
    match parent {
        Some(p) => match edited(f, add_child(p, node)) {
            Some(g) => g,
            None => f.push(node),
        },
        None => f.push(node),
    }
}

/// The index of the first of `f` itself that has the id, counted from `from`.
pub open spec fn level_index(f: Seq<Tree>, id: Id, from: int) -> Option<int>
    decreases f.len() - from,
{
    if from >= f.len() {
        None
    } else if f[from].id() == id {
        Some(from)
    } else {
        level_index(f, id, from + 1)
    }
}

/// `f` without the node that has the id, and that node with all that is below it.
/// A sibling is taken before anything below the siblings before it.
pub open spec fn removed(f: Seq<Tree>, id: Id) -> Option<(Seq<Tree>, Tree)>
    decreases f, 1int,
{
    match level_index(f, id, 0) {
        Some(ix) => Some((f.remove(ix), f[ix])),
        None => removed_below(f, id),
    }
}

/// The same where none of `f` itself has the id.
pub open spec fn removed_below(f: Seq<Tree>, id: Id) -> Option<(Seq<Tree>, Tree)>
    decreases f, 0int,
{
    if f.len() == 0 {
        None
    } else {
        match removed_inside(f[0], id) {
            Some((g, t)) => Some((f.update(0, g), t)),
            None => match removed_below(f.drop_first(), id) {
                Some((rest, t)) => Some((seq![f[0]] + rest, t)),
                None => None,
            },
        }
    }
}

/// The same for what is below one node.
pub open spec fn removed_inside(t: Tree, id: Id) -> Option<(Tree, Tree)>
    decreases t, 0int,
{
    match t {
        Tree::Group { id: gid, name, children, expanded } => match removed(children, id) {
            Some((c, gone)) => Some((Tree::Group { id: gid, name, children: c, expanded }, gone)),
            None => None,
        },
        Tree::Stream(_) => None,
    }
}

/// The contents of a group are its own fields and the contents of its children.
pub broadcast proof fn lemma_group_view(node: Node)
    requires
        node is Group,
    ensures
        #[trigger] node.view() == (Tree::Group {
            id: node->id,
            name: node->name@,
            children: forest(node->children@),
            expanded: node->expanded,
        }),
{
    reveal_with_fuel(tree, 2);
    assert(node@->children =~= forest(node->children@));
}

impl Clone for Node {
    fn clone(&self) -> (copy: Node)
        ensures
            copy@ == self@,
        decreases self,
    {
        match self {
            Node::Group { id, name, children, expanded } => {
                let mut copied: Vec<Node> = Vec::new();
                let mut i: usize = 0;
                while i < children.len()
                    invariant
                        i <= children@.len(),
                        copied@.len() == i,
                        self matches Node::Group { children: c, .. } && c == children,
                        forall|j: int| 0 <= j < i ==> (#[trigger] copied@[j])@ == children@[j]@,
                    decreases children@.len() - i,
                {
                    let child = (&children[i]).clone();
                    copied.push(child);
                    i += 1;
                }
                let copy = Node::Group { id: *id, name: name.clone(), children: copied, expanded: *expanded };
                proof {
                    lemma_group_view(*self);
                    lemma_group_view(copy);
                    assert(forest(copied@) =~= forest(children@));
                }
                copy
            },
            Node::Stream(connection) => Node::Stream(connection.clone()),
        }
    }
}

impl Node {
    /// An empty, unfolded group with a fresh id.
    pub fn group(name: &str) -> (node: Node)
        ensures
            is_random_uuid(node@.id().bits),
            node@ == (Tree::Group {
                id: node@.id(),
                name: name@,
                children: Seq::empty(),
                expanded: true,
            }),
    {
        let node = Node::Group {
            id: Id::new_v4(),
            name: name.to_owned(),
            children: Vec::new(),
            expanded: true,
        };
        assert(node@.children() == Seq::<Tree>::empty());
        node
    }

    pub fn id(&self) -> (id: Id)
        ensures
            id == self@.id(),
    {
        match self {
            Node::Group { id, .. } => *id,
            Node::Stream(connection) => connection.id,
        }
    }

    pub fn name(&self) -> (name: &str)
        ensures
            name@ == self@.name(),
    {
        match self {
            Node::Group { name, .. } => name.as_str(),
            Node::Stream(connection) => connection.name.as_str(),
        }
    }
}

} // verus!

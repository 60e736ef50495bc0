//! The walks over a list of nodes that the library's operations are made of.

use vstd::prelude::*;

use crate::connection::Connection;
use crate::id::Id;
use crate::text::same_text;
use crate::tree::{
    add_child, edited, edited_or_same, edited_tree, first_match, fold, forest, found, has_child,
    has_id, has_id_at_level, holds_id, lemma_group_view, level_index, optional_tree, parent,
    preorder, removed, removed_below, removed_inside, rename, replace_stream, streams,
    connection_specs, Node, Tree,
};
use crate::tree_laws::is_settled;

verus! {

broadcast use lemma_group_view;

/// What lies below a node, depth first.
pub open spec fn below(t: Tree) -> Seq<Tree> {
    match t {
        Tree::Group { children, .. } => preorder(children),
        Tree::Stream(_) => Seq::empty(),
    }
}

/// The depth-first order of the nodes from index `i` on starts with node `i`.
pub proof fn lemma_preorder_step(f: Seq<Tree>, i: int)
    requires
        0 <= i < f.len(),
    ensures
        preorder(f.skip(i)) == seq![f[i]] + below(f[i]) + preorder(f.skip(i + 1)),
{
    assert(f.skip(i).drop_first() =~= f.skip(i + 1));
}

/// The depth-first order of a single node.
pub proof fn lemma_preorder_single(t: Tree)
    ensures
        preorder(seq![t]) == seq![t] + below(t),
{
    let f = seq![t];
    assert(f.drop_first() =~= Seq::<Tree>::empty());
    reveal_with_fuel(preorder, 2);
    assert(preorder(f) =~= seq![t] + below(t));
}

/// The first match in a concatenation.
pub proof fn lemma_first_match_concat(a: Seq<Tree>, b: Seq<Tree>, pred: spec_fn(Tree) -> bool)
    ensures
        first_match(a + b, pred) == (match first_match(a, pred) {
            Some(t) => Some(t),
            None => first_match(b, pred),
        }),
    decreases a.len(),
{
    if a.len() == 0 {
        assert(a + b =~= b);
    } else {
        assert((a + b).drop_first() =~= a.drop_first() + b);
        lemma_first_match_concat(a.drop_first(), b, pred);
    }
}

/// The first match from node `i` on: the node itself, what is below it, or later.
pub proof fn lemma_first_match_step(f: Seq<Tree>, i: int, pred: spec_fn(Tree) -> bool)
    requires
        0 <= i < f.len(),
    ensures
        first_match(preorder(f.skip(i)), pred) == (if pred(f[i]) {
            Some(f[i])
        } else {
            match first_match(below(f[i]), pred) {
                Some(t) => Some(t),
                None => first_match(preorder(f.skip(i + 1)), pred),
            }
        }),
{
    lemma_preorder_step(f, i);
    let head = seq![f[i]];
    lemma_first_match_concat(head + below(f[i]), preorder(f.skip(i + 1)), pred);
    lemma_first_match_concat(head, below(f[i]), pred);
    assert(head.drop_first() =~= Seq::<Tree>::empty());
    reveal_with_fuel(first_match, 2);
}

/// Where an edit applies to nothing before node `i`, it applies within node `i`
/// first, and past the last node it applies to nothing.
pub proof fn lemma_edited_at(f: Seq<Tree>, i: int, edit: spec_fn(Tree) -> Option<Tree>)
    requires
        0 <= i <= f.len(),
        forall|j: int| 0 <= j < i ==> edited_tree(#[trigger] f[j], edit) is None,
    ensures
        i == f.len() ==> edited(f, edit) is None,
        i < f.len() ==> (edited_tree(f[i], edit) matches Some(t) ==> edited(f, edit) == Some(
            f.update(i, t),
        )),
    decreases f.len(),
{
    if f.len() > 0 && i > 0 {
        let rest = f.drop_first();
        assert(edited_tree(f[0], edit) is None);
        assert forall|j: int| 0 <= j < i - 1 implies edited_tree(#[trigger] rest[j], edit) is None by {
            assert(rest[j] == f[j + 1]);
        }
        lemma_edited_at(rest, i - 1, edit);
        if i < f.len() {
            assert(rest[i - 1] == f[i]);
            if let Some(t) = edited_tree(f[i], edit) {
                assert(seq![f[0]] + rest.update(i - 1, t) =~= f.update(i, t));
            }
        }
    }
}

/// The first node, depth first, with the id.
pub(crate) fn find_node(nodes: &Vec<Node>, id: Id) -> (node: Option<&Node>)
    ensures
        optional_tree(node) == found(forest(nodes@), id),
    decreases nodes,
{
    let ghost f = forest(nodes@);
    let mut i: usize = 0;
    assert(f.skip(0) =~= f);
    while i < nodes.len()
        invariant
            i <= nodes@.len(),
            f == forest(nodes@),
            found(f, id) == first_match(preorder(f.skip(i as int)), has_id(id)),
        decreases nodes@.len() - i,
    {
        proof {
            lemma_first_match_step(f, i as int, has_id(id));
        }
        let node = &nodes[i];
        if node.id() == id {
            return Some(node);
        }
        if let Node::Group { children, .. } = node {
            if let Some(inner) = find_node(children, id) {
                return Some(inner);
            }
        }
        i += 1;
    }
    assert(f.skip(i as int) =~= Seq::<Tree>::empty());
    None
}

/// Appends `node` to the children of the first group with the id `parent`; hands it
/// back where there is none.
pub(crate) fn insert_node(nodes: &mut Vec<Node>, parent: Id, node: Node) -> (leftover: Option<Node>)
    ensures
        leftover is None <==> edited(forest(old(nodes)@), add_child(parent, node@)) is Some,
        leftover matches Some(n) ==> n@ == node@,
        forest(final(nodes)@) == edited_or_same(forest(old(nodes)@), add_child(parent, node@)),
    decreases *old(nodes),
{
    let ghost f = forest(nodes@);
    let ghost edit = add_child(parent, node@);
    let mut carried = node;
    let mut i: usize = 0;
    while i < nodes.len()
        invariant
            i <= nodes@.len(),
            nodes@.len() == old(nodes)@.len(),
            f == forest(old(nodes)@),
            edit == add_child(parent, node@),
            carried@ == node@,
            forest(nodes@) == f,
            forall|j: int| i <= j < nodes@.len() ==> nodes@[j] == old(nodes)@[j],
            forall|j: int| 0 <= j < i ==> edited_tree(#[trigger] f[j], edit) is None,
        decreases nodes@.len() - i,
    {
        proof {
            lemma_edited_at(f, i as int, edit);
        }
        match &mut nodes[i] {
            Node::Group { id, children, .. } => {
                if *id == parent {
                    let ghost kept = children@;
                    children.push(carried);
                    proof {
                        assert(forest(children@) =~= forest(kept).push(node@));
                        assert(forest(nodes@) =~= f.update(i as int, nodes@[i as int]@));
                    }
                    return None;
                }
                match insert_node(children, parent, carried) {
                    Some(returned) => {
                        carried = returned;
                    },
                    None => {
                        assert(forest(nodes@) =~= f.update(i as int, nodes@[i as int]@));
                        return None;
                    },
                }
            },
            Node::Stream(_) => {},
        }
        i += 1;
    }
    proof {
        lemma_edited_at(f, i as int, edit);
    }
    Some(carried)
}

/// Where the first `from` nodes have another id, the search goes on from there.
pub proof fn lemma_removed_below_at(f: Seq<Tree>, i: int, id: Id)
    requires
        0 <= i <= f.len(),
        forall|j: int| 0 <= j < i ==> removed_inside(#[trigger] f[j], id) is None,
    ensures
        i == f.len() ==> removed_below(f, id) is None,
        i < f.len() ==> (removed_inside(f[i], id) matches Some((g, t)) ==> removed_below(f, id)
            == Some((f.update(i, g), t))),
    decreases f.len(),
{
    if f.len() > 0 && i > 0 {
        let rest = f.drop_first();
        assert(removed_inside(f[0], id) is None);
        assert forall|j: int| 0 <= j < i - 1 implies removed_inside(#[trigger] rest[j], id) is None by {
            assert(rest[j] == f[j + 1]);
        }
        lemma_removed_below_at(rest, i - 1, id);
        if i < f.len() {
            assert(rest[i - 1] == f[i]);
            if let Some((g, t)) = removed_inside(f[i], id) {
                assert(seq![f[0]] + rest.update(i - 1, g) =~= f.update(i, g));
            }
        }
    }
}

/// Takes out the node with the id, wherever it is.
pub(crate) fn remove_node(nodes: &mut Vec<Node>, id: Id) -> (gone: Option<Node>)
    ensures
        (match removed(forest(old(nodes)@), id) {
            Some((rest, t)) => gone is Some && gone->0@ == t && forest(final(nodes)@) == rest,
            None => gone is None && forest(final(nodes)@) == forest(old(nodes)@),
        }),
    decreases *old(nodes),
{
    let ghost f = forest(nodes@);
    let mut ix: usize = 0;
    while ix < nodes.len()
        invariant
            ix <= nodes@.len(),
            nodes@ == old(nodes)@,
            f == forest(nodes@),
            level_index(f, id, 0) == level_index(f, id, ix as int),
        decreases nodes@.len() - ix,
    {
        if nodes[ix].id() == id {
            let gone = nodes.remove(ix);
            assert(forest(nodes@) =~= f.remove(ix as int));
            return Some(gone);
        }
        ix += 1;
    }
    let mut i: usize = 0;
    while i < nodes.len()
        invariant
            i <= nodes@.len(),
            nodes@.len() == old(nodes)@.len(),
            f == forest(old(nodes)@),
            forest(nodes@) == f,
            level_index(f, id, 0) is None,
            forall|j: int| i <= j < nodes@.len() ==> nodes@[j] == old(nodes)@[j],
            forall|j: int| 0 <= j < i ==> removed_inside(#[trigger] f[j], id) is None,
        decreases nodes@.len() - i,
    {
        proof {
            lemma_removed_below_at(f, i as int, id);
        }
        if let Node::Group { children, .. } = &mut nodes[i] {
            if let Some(gone) = remove_node(children, id) {
                assert(forest(nodes@) =~= f.update(i as int, nodes@[i as int]@));
                return Some(gone);
            }
        }
        assert(forest(nodes@) =~= f);
        i += 1;
    }
    proof {
        lemma_removed_below_at(f, i as int, id);
    }
    None
}

/// Replaces the first connection that has the id of `updated`.
pub(crate) fn update_stream(nodes: &mut Vec<Node>, updated: &Connection) -> (done: bool)
    ensures
        done == (edited(forest(old(nodes)@), replace_stream(updated@)) is Some),
        forest(final(nodes)@) == edited_or_same(forest(old(nodes)@), replace_stream(updated@)),
    decreases *old(nodes),
{
    let ghost f = forest(nodes@);
    let ghost edit = replace_stream(updated@);
    let mut i: usize = 0;
    while i < nodes.len()
        invariant
            i <= nodes@.len(),
            nodes@.len() == old(nodes)@.len(),
            f == forest(old(nodes)@),
            edit == replace_stream(updated@),
            forest(nodes@) == f,
            forall|j: int| i <= j < nodes@.len() ==> nodes@[j] == old(nodes)@[j],
            forall|j: int| 0 <= j < i ==> edited_tree(#[trigger] f[j], edit) is None,
        decreases nodes@.len() - i,
    {
        proof {
            lemma_edited_at(f, i as int, edit);
        }
        let done = match &mut nodes[i] {
            Node::Stream(connection) => {
                if connection.id == updated.id {
                    *connection = updated.clone();
                    true
                } else {
                    false
                }
            },
            Node::Group { children, .. } => update_stream(children, updated),
        };
        assert(forest(nodes@) =~= f.update(i as int, nodes@[i as int]@));
        if done {
            return true;
        }
        assert(forest(nodes@) =~= f);
        i += 1;
    }
    proof {
        lemma_edited_at(f, i as int, edit);
    }
    false
}

/// Renames the first group that has the id.
pub(crate) fn rename_node(nodes: &mut Vec<Node>, id: Id, new_name: &str) -> (done: bool)
    ensures
        done == (edited(forest(old(nodes)@), rename(id, new_name@)) is Some),
        forest(final(nodes)@) == edited_or_same(forest(old(nodes)@), rename(id, new_name@)),
    decreases *old(nodes),
{
    let ghost f = forest(nodes@);
    let ghost edit = rename(id, new_name@);
    let mut i: usize = 0;
    while i < nodes.len()
        invariant
            i <= nodes@.len(),
            nodes@.len() == old(nodes)@.len(),
            f == forest(old(nodes)@),
            edit == rename(id, new_name@),
            forest(nodes@) == f,
            forall|j: int| i <= j < nodes@.len() ==> nodes@[j] == old(nodes)@[j],
            forall|j: int| 0 <= j < i ==> edited_tree(#[trigger] f[j], edit) is None,
        decreases nodes@.len() - i,
    {
        proof {
            lemma_edited_at(f, i as int, edit);
        }
        let done = match &mut nodes[i] {
            Node::Group { id: gid, name, children, .. } => {
                if *gid == id {
                    *name = new_name.to_owned();
                    true
                } else {
                    rename_node(children, id, new_name)
                }
            },
            Node::Stream(_) => false,
        };
        assert(forest(nodes@) =~= f.update(i as int, nodes@[i as int]@));
        if done {
            return true;
        }
        assert(forest(nodes@) =~= f);
        i += 1;
    }
    proof {
        lemma_edited_at(f, i as int, edit);
    }
    false
}

/// Folds or unfolds the first group that has the id.
pub(crate) fn fold_node(nodes: &mut Vec<Node>, id: Id, value: bool) -> (done: bool)
    ensures
        done == (edited(forest(old(nodes)@), fold(id, value)) is Some),
        forest(final(nodes)@) == edited_or_same(forest(old(nodes)@), fold(id, value)),
    decreases *old(nodes),
{
    let ghost f = forest(nodes@);
    let ghost edit = fold(id, value);
    let mut i: usize = 0;
    while i < nodes.len()
        invariant
            i <= nodes@.len(),
            nodes@.len() == old(nodes)@.len(),
            f == forest(old(nodes)@),
            edit == fold(id, value),
            forest(nodes@) == f,
            forall|j: int| i <= j < nodes@.len() ==> nodes@[j] == old(nodes)@[j],
            forall|j: int| 0 <= j < i ==> edited_tree(#[trigger] f[j], edit) is None,
        decreases nodes@.len() - i,
    {
        proof {
            lemma_edited_at(f, i as int, edit);
        }
        let done = match &mut nodes[i] {
            Node::Group { id: gid, expanded, children, .. } => {
                if *gid == id {
                    *expanded = value;
                    true
                } else {
                    fold_node(children, id, value)
                }
            },
            Node::Stream(_) => false,
        };
        assert(forest(nodes@) =~= f.update(i as int, nodes@[i as int]@));
        if done {
            return true;
        }
        assert(forest(nodes@) =~= f);
        i += 1;
    }
    proof {
        lemma_edited_at(f, i as int, edit);
    }
    false
}

/// The connections of a concatenation.
pub proof fn lemma_streams_concat(a: Seq<Tree>, b: Seq<Tree>)
    ensures
        streams(a + b) == streams(a) + streams(b),
    decreases a.len(),
{
    if a.len() == 0 {
        assert(a + b =~= b);
        assert(streams(a) + streams(b) =~= streams(b));
    } else {
        assert((a + b).drop_first() =~= a.drop_first() + b);
        lemma_streams_concat(a.drop_first(), b);
        assert(streams(a + b) =~= streams(a) + streams(b));
    }
}

/// Appends the connections at or below `node`, depth first.
pub(crate) fn collect_streams(node: &Node, out: &mut Vec<Connection>)
    ensures
        connection_specs(final(out)@) == connection_specs(old(out)@) + streams(
            preorder(seq![node@]),
        ),
    decreases node,
{
    proof {
        lemma_preorder_single(node@);
        lemma_streams_concat(seq![node@], below(node@));
        assert(seq![node@].drop_first() =~= Seq::<Tree>::empty());
        reveal_with_fuel(streams, 2);
    }
    match node {
        Node::Stream(connection) => {
            out.push(connection.clone());
            assert(connection_specs(out@) =~= connection_specs(old(out)@) + streams(
                preorder(seq![node@]),
            ));
        },
        Node::Group { children, .. } => {
            let ghost f = forest(children@);
            let mut i: usize = 0;
            assert(f.take(0) =~= Seq::<Tree>::empty());
            assert(f.skip(0) =~= f);
            while i < children.len()
                invariant
                    i <= children@.len(),
                    *node matches Node::Group { children: c, .. } && c == children,
                    f == forest(children@),
                    connection_specs(old(out)@) + streams(preorder(f)) == connection_specs(out@)
                        + streams(preorder(f.skip(i as int))),
                decreases children@.len() - i,
            {
                let ghost before = connection_specs(out@);
                collect_streams(&children[i], out);
                proof {
                    let t = f[i as int];
                    lemma_preorder_step(f, i as int);
                    lemma_preorder_single(t);
                    lemma_streams_concat(seq![t] + below(t), preorder(f.skip(i + 1)));
                    assert(connection_specs(out@) + streams(preorder(f.skip(i + 1))) =~= before
                        + (streams(seq![t] + below(t)) + streams(preorder(f.skip(i + 1)))));
                }
                i += 1;
            }
            assert(f.skip(i as int) =~= Seq::<Tree>::empty());
            assert(connection_specs(out@) =~= connection_specs(old(out)@) + streams(preorder(f)));
        },
    }
}

/// Whether one of `nodes` itself has the id.
fn any_has_id(nodes: &Vec<Node>, id: Id) -> (any: bool)
    ensures
        any == has_id_at_level(forest(nodes@), id),
{
    let ghost f = forest(nodes@);
    let mut i: usize = 0;
    while i < nodes.len()
        invariant
            i <= nodes@.len(),
            f == forest(nodes@),
            forall|j: int| 0 <= j < i ==> (#[trigger] f[j]).id() != id,
        decreases nodes@.len() - i,
    {
        if nodes[i].id() == id {
            assert(f[i as int].id() == id);
            return true;
        }
        i += 1;
    }
    false
}

/// The id of the first group, depth first, that has `child` directly below it.
pub(crate) fn parent_node(nodes: &Vec<Node>, child: Id) -> (group: Option<Id>)
    ensures
        group == parent(forest(nodes@), child),
    decreases nodes,
{
    let ghost f = forest(nodes@);
    let mut i: usize = 0;
    assert(f.skip(0) =~= f);
    while i < nodes.len()
        invariant
            i <= nodes@.len(),
            f == forest(nodes@),
            first_match(preorder(f), has_child(child)) == first_match(
                preorder(f.skip(i as int)),
                has_child(child),
            ),
        decreases nodes@.len() - i,
    {
        proof {
            lemma_first_match_step(f, i as int, has_child(child));
        }
        if let Node::Group { id, children, .. } = &nodes[i] {
            if any_has_id(children, child) {
                return Some(*id);
            }
            if let Some(group) = parent_node(children, child) {
                return Some(group);
            }
        }
        i += 1;
    }
    assert(f.skip(i as int) =~= Seq::<Tree>::empty());
    None
}

/// Whether `node` or something below it has the id `target`.
pub(crate) fn contains_node(node: &Node, target: Id) -> (yes: bool)
    ensures
        yes == holds_id(seq![node@], target),
    decreases node,
{
    proof {
        lemma_preorder_single(node@);
    }
    let ghost all = preorder(seq![node@]);
    if node.id() == target {
        assert(all[0].id() == target);
        return true;
    }
    match node {
        Node::Group { children, .. } => {
            let ghost f = forest(children@);
            assert(below(node@) == preorder(f));
            let mut i: usize = 0;
            assert(f.skip(0) =~= f);
            while i < children.len()
                invariant
                    i <= children@.len(),
                    *node matches Node::Group { children: c, .. } && c == children,
                    f == forest(children@),
                    all == preorder(seq![node@]),
                    all == seq![node@] + preorder(f),
                    holds_id(f, target) == holds_id(f.skip(i as int), target),
                decreases children@.len() - i,
            {
                let inside = contains_node(&children[i], target);
                proof {
                    lemma_holds_id_step(f, i as int, target);
                }
                if inside {
                    proof {
                        let k = choose|k: int|
                            0 <= k < preorder(f).len() && (#[trigger] preorder(f)[k]).id() == target;
                        assert(all[k + 1].id() == target);
                    }
                    return true;
                }
                i += 1;
            }
            assert(f.skip(i as int) =~= Seq::<Tree>::empty());
            proof {
                if holds_id(seq![node@], target) {
                    let k = choose|k: int| 0 <= k < all.len() && (#[trigger] all[k]).id() == target;
                    assert(preorder(f)[k - 1].id() == target);
                }
            }
            false
        },
        Node::Stream(_) => false,
    }
}

/// An id from node `i` on is at or below node `i`, or later.
pub proof fn lemma_holds_id_step(f: Seq<Tree>, i: int, id: Id)
    requires
        0 <= i < f.len(),
    ensures
        holds_id(f.skip(i), id) == (holds_id(seq![f[i]], id) || holds_id(f.skip(i + 1), id)),
{
    lemma_preorder_step(f, i);
    lemma_preorder_single(f[i]);
    let head = preorder(seq![f[i]]);
    let rest = preorder(f.skip(i + 1));
    let all = preorder(f.skip(i));
    assert(all =~= head + rest);
    if holds_id(seq![f[i]], id) {
        let k = choose|k: int| 0 <= k < head.len() && (#[trigger] head[k]).id() == id;
        assert(all[k].id() == id);
    }
    if holds_id(f.skip(i + 1), id) {
        let k = choose|k: int| 0 <= k < rest.len() && (#[trigger] rest[k]).id() == id;
        assert(all[head.len() + k].id() == id);
    }
    if holds_id(f.skip(i), id) {
        let k = choose|k: int| 0 <= k < all.len() && (#[trigger] all[k]).id() == id;
        if k < head.len() {
            assert(head[k].id() == id);
        } else {
            assert(rest[k - head.len()].id() == id);
        }
    }
}

/// Whether two nodes agree in everything, down to the last node below them.
pub(crate) fn same_node(a: &Node, b: &Node) -> (same: bool)
    ensures
        same == (a@ == b@),
    decreases a,
{
    match (a, b) {
        (Node::Stream(x), Node::Stream(y)) => x.same(y),
        (
            Node::Group { id, name, children, expanded },
            Node::Group {
                id: other_id,
                name: other_name,
                children: other_children,
                expanded: other_expanded,
            },
        ) => {
            if *id != *other_id || *expanded != *other_expanded || children.len()
                != other_children.len() || !same_text(name.as_str(), other_name.as_str()) {
                proof {
                    if children@.len() != other_children@.len() {
                        assert(forest(children@).len() != forest(other_children@).len());
                    }
                }
                return false;
            }
            let mut i: usize = 0;
            while i < children.len()
                invariant
                    i <= children@.len(),
                    children@.len() == other_children@.len(),
                    a matches Node::Group { children: c, .. } && c == children,
                    b matches Node::Group { children: c, .. } && c == other_children,
                    forall|j: int| 0 <= j < i ==> (#[trigger] children@[j])@ == other_children@[j]@,
                decreases children@.len() - i,
            {
                if !same_node(&children[i], &other_children[i]) {
                    assert(forest(children@)[i as int] != forest(other_children@)[i as int]);
                    return false;
                }
                i += 1;
            }
            assert(forest(children@) =~= forest(other_children@));
            true
        },
        _ => false,
    }
}

/// Whether the first of `nodes` with the id, put behind the others, leaves them as they are.
pub(crate) fn stays_last(nodes: &Vec<Node>, id: Id) -> (stays: bool)
    ensures
        stays == is_settled(forest(nodes@), id),
{
    let ghost f = forest(nodes@);
    let mut ix: usize = 0;
    while ix < nodes.len() && nodes[ix].id() != id
        invariant
            ix <= nodes@.len(),
            f == forest(nodes@),
            level_index(f, id, 0) == level_index(f, id, ix as int),
        ensures
            ix <= nodes@.len(),
            level_index(f, id, 0) == if ix < nodes@.len() {
                Some(ix as int)
            } else {
                None
            },
        decreases nodes@.len() - ix,
    {
        ix += 1;
    }
    if ix == nodes.len() {
        return false;
    }
    let ghost g = f.remove(ix as int).push(f[ix as int]);
    let mut i: usize = ix + 1;
    while i < nodes.len()
        invariant
            ix < i <= nodes@.len(),
            f == forest(nodes@),
            g == f.remove(ix as int).push(f[ix as int]),
            level_index(f, id, 0) == Some(ix as int),
            forall|j: int| ix <= j < i ==> #[trigger] f[j] == f[ix as int],
        decreases nodes@.len() - i,
    {
        if !same_node(&nodes[i], &nodes[ix]) {
            assert(f[i as int] != f[ix as int]);
            assert(g[i - 1] == f[i as int]);
            assert(f[i - 1] == f[ix as int]);
            return false;
        }
        i += 1;
    }
    assert(g =~= f);
    true
}

} // verus!

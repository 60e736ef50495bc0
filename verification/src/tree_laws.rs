//! What the operations on the tree keep, and what they undo.

use vstd::multiset::Multiset;
use vstd::prelude::*;

use crate::connection::ConnectionSpec;
use crate::id::Id;
use crate::library::LibrarySpec;
use crate::tree::{
    add_child, edited, edited_or_same, edited_tree, first_match, fold, found, has_child, has_id,
    holds_id, inserted, level_index, parent, preorder, removed, removed_below, removed_inside,
    rename, replace_stream, Tree,
};
use crate::walk::{
    below, lemma_first_match_concat, lemma_first_match_step, lemma_preorder_single,
    lemma_preorder_step,
};

verus! {

/// A node without what is below it.
pub enum Shell {
    Group { id: Id, name: Seq<char>, expanded: bool },
    Stream(ConnectionSpec),
}

pub open spec fn shell(t: Tree) -> Shell {
    match t {
        Tree::Group { id, name, expanded, .. } => Shell::Group { id, name, expanded },
        Tree::Stream(connection) => Shell::Stream(connection),
    }
}

/// Every node of `f`, depth first, each without what is below it.
pub open spec fn shells(f: Seq<Tree>) -> Seq<Shell> {
    preorder(f).map_values(|t: Tree| shell(t))
}

/// What `f` consists of, in no order.
pub open spec fn bag(f: Seq<Tree>) -> Multiset<Shell> {
    shells(f).to_multiset()
}

/// The ids in `f`, depth first.
pub open spec fn ids(f: Seq<Tree>) -> Seq<Id> {
    preorder(f).map_values(|t: Tree| t.id())
}

/// No two nodes of `f` have the same id.
pub open spec fn unique_ids(f: Seq<Tree>) -> bool {
    ids(f).no_duplicates()
}

/// The groups among `s`, in order, each with its name and whether it is unfolded.
pub open spec fn groups(s: Seq<Tree>) -> Seq<(Id, Seq<char>, bool)>
    decreases s.len(),
{
    if s.len() == 0 {
        Seq::empty()
    } else {
        let rest = groups(s.drop_first());
        match s[0] {
            Tree::Group { id, name, expanded, .. } => seq![(id, name, expanded)] + rest,
            Tree::Stream(_) => rest,
        }
    }
}

// ---- depth-first order ----

pub(crate) proof fn lemma_preorder_concat(a: Seq<Tree>, b: Seq<Tree>)
    ensures
        preorder(a + b) == preorder(a) + preorder(b),
    decreases a.len(),
{
    if a.len() == 0 {
        assert(a + b =~= b);
        assert(preorder(a) + preorder(b) =~= preorder(b));
    } else {
        assert((a + b).drop_first() =~= a.drop_first() + b);
        lemma_preorder_concat(a.drop_first(), b);
        assert(preorder(a + b) =~= preorder(a) + preorder(b));
    }
}

proof fn lemma_bag_concat(a: Seq<Tree>, b: Seq<Tree>)
    ensures
        bag(a + b) == bag(a).add(bag(b)),
{
    lemma_preorder_concat(a, b);
    assert(shells(a + b) =~= shells(a) + shells(b));
    vstd::seq_lib::lemma_multiset_commutative(shells(a), shells(b));
}

/// A list consists of its first node, what is below that, and the rest.
proof fn lemma_bag_head(f: Seq<Tree>)
    requires
        f.len() > 0,
    ensures
        bag(f) == Multiset::singleton(shell(f[0])).add(bag(f[0].children())).add(
            bag(f.drop_first()),
        ),
{
    let head = seq![f[0]];
    assert(f =~= head + f.drop_first());
    lemma_bag_concat(head, f.drop_first());
    lemma_preorder_single(f[0]);
    let first = seq![shell(f[0])];
    assert(shells(head) =~= first + shells(f[0].children()));
    vstd::seq_lib::lemma_multiset_commutative(first, shells(f[0].children()));
    broadcast use vstd::seq_lib::group_to_multiset_ensures;
    assert(first =~= Seq::<Shell>::empty().push(shell(f[0])));
    assert(first.to_multiset() =~= Multiset::singleton(shell(f[0])));
}

// ---- finding ----

/// The first match is an element that matches, and there is one wherever some
/// element matches.
pub(crate) proof fn lemma_first_match(s: Seq<Tree>, pred: spec_fn(Tree) -> bool)
    ensures
        first_match(s, pred) matches Some(t) ==> pred(t) && s.contains(t),
        first_match(s, pred) is None ==> forall|i: int| 0 <= i < s.len() ==> !pred(#[trigger] s[i]),
    decreases s.len(),
{
    if s.len() > 0 {
        let rest = s.drop_first();
        lemma_first_match(rest, pred);
        assert(forall|i: int| 0 <= i < rest.len() ==> rest[i] == s[i + 1]);
        if pred(s[0]) {
            assert(s.contains(s[0]));
        } else {
            if let Some(t) = first_match(s, pred) {
                let k = choose|k: int| 0 <= k < rest.len() && rest[k] == t;
                assert(s[k + 1] == t);
            } else {
                assert forall|i: int| 0 <= i < s.len() implies !pred(#[trigger] s[i]) by {
                    if i > 0 {
                        assert(rest[i - 1] == s[i]);
                    }
                }
            }
        }
    }
}

/// A search finds a node of the tree that has the id, and it finds one exactly where
/// the tree has one.
pub proof fn law_find(f: Seq<Tree>, id: Id)
    ensures
        found(f, id) is Some <==> holds_id(f, id),
        found(f, id) matches Some(t) ==> t.id() == id && preorder(f).contains(t),
{
    lemma_first_match(preorder(f), has_id(id));
    if let Some(t) = found(f, id) {
        let k = choose|k: int| 0 <= k < preorder(f).len() && preorder(f)[k] == t;
        assert(preorder(f)[k].id() == id);
    }
}

/// Where no id occurs twice, a search finds every node by its id.
pub proof fn law_find_unique(f: Seq<Tree>, t: Tree)
    requires
        unique_ids(f),
        preorder(f).contains(t),
    ensures
        found(f, t.id()) == Some(t),
{
    let all = preorder(f);
    let k = choose|k: int| 0 <= k < all.len() && all[k] == t;
    assert(all[k].id() == t.id());
    law_find(f, t.id());
    let u = found(f, t.id())->0;
    let m = choose|m: int| 0 <= m < all.len() && all[m] == u;
    assert(ids(f)[k] == ids(f)[m]);
}

// ---- inserting ----

/// What a tree consists of after one of its groups got another child.
proof fn lemma_add_child_bag(f: Seq<Tree>, p: Id, node: Tree)
    ensures
        edited(f, add_child(p, node)) matches Some(g) ==> bag(g) == bag(f).add(bag(seq![node])),
    decreases f,
{
    let edit = add_child(p, node);
    if f.len() > 0 {
        if let Some(g) = edited(f, edit) {
            lemma_bag_head(f);
            lemma_bag_head(g);
            match edited_tree(f[0], edit) {
                Some(t) => {
                    assert(g.drop_first() =~= f.drop_first());
                    match edit(f[0]) {
                        Some(u) => {
                            let children = f[0].children();
                            assert(children.push(node) =~= children + seq![node]);
                            lemma_bag_concat(children, seq![node]);
                            assert(bag(g) =~= bag(f).add(bag(seq![node])));
                        },
                        None => {
                            lemma_add_child_bag(f[0].children(), p, node);
                            assert(bag(g) =~= bag(f).add(bag(seq![node])));
                        },
                    }
                },
                None => {
                    assert(g.drop_first() =~= edited(f.drop_first(), edit)->0);
                    lemma_add_child_bag(f.drop_first(), p, node);
                    assert(bag(g) =~= bag(f).add(bag(seq![node])));
                },
            }
        }
    }
}

/// Inserting a node adds it, with all that is below it, and leaves everything else
/// in the tree.
pub proof fn law_insert_adds(f: Seq<Tree>, p: Option<Id>, node: Tree)
    ensures
        bag(inserted(f, p, node)) == bag(f).add(bag(seq![node])),
{
    assert(f.push(node) =~= f + seq![node]);
    lemma_bag_concat(f, seq![node]);
    if let Some(group) = p {
        lemma_add_child_bag(f, group, node);
    }
}

// ---- removing ----

proof fn lemma_level_index(f: Seq<Tree>, id: Id, from: int)
    requires
        0 <= from,
    ensures
        level_index(f, id, from) matches Some(ix) ==> from <= ix < f.len() && f[ix].id() == id
            && forall|j: int| from <= j < ix ==> (#[trigger] f[j]).id() != id,
        level_index(f, id, from) is None ==> forall|j: int|
            from <= j < f.len() ==> (#[trigger] f[j]).id() != id,
    decreases f.len() - from,
{
    if from < f.len() && f[from].id() != id {
        lemma_level_index(f, id, from + 1);
    }
}

/// What is below a node is in the tree that the node is in.
proof fn lemma_preorder_contains(f: Seq<Tree>, i: int, t: Tree)
    requires
        0 <= i < f.len(),
        t == f[i] || preorder(f[i].children()).contains(t),
    ensures
        preorder(f).contains(t),
{
    let all = preorder(f);
    assert(f =~= f.take(i) + f.skip(i));
    lemma_preorder_concat(f.take(i), f.skip(i));
    lemma_preorder_step(f, i);
    let n = preorder(f.take(i)).len();
    assert(all[n as int] == f[i]);
    if t != f[i] {
        let inner = preorder(f[i].children());
        let k = choose|k: int| 0 <= k < inner.len() && inner[k] == t;
        assert(all[n + 1 + k] == t);
    }
}

/// What a removal takes out of a tree, and what it leaves.
proof fn lemma_removed_bag(f: Seq<Tree>, id: Id)
    ensures
        removed(f, id) matches Some((rest, t)) ==> {
            &&& t.id() == id
            &&& preorder(f).contains(t)
            &&& bag(f) == bag(rest).add(bag(seq![t]))
        },
        removed(f, id) is None ==> !holds_id(f, id),
    decreases f, 1int,
{
    lemma_level_index(f, id, 0);
    match level_index(f, id, 0) {
        Some(ix) => {
            let t = f[ix];
            assert(f =~= f.take(ix) + (seq![t] + f.skip(ix + 1)));
            assert(f.remove(ix) =~= f.take(ix) + f.skip(ix + 1));
            lemma_bag_concat(f.take(ix), seq![t] + f.skip(ix + 1));
            lemma_bag_concat(seq![t], f.skip(ix + 1));
            lemma_bag_concat(f.take(ix), f.skip(ix + 1));
            lemma_preorder_contains(f, ix, t);
            assert(bag(f) =~= bag(f.remove(ix)).add(bag(seq![t])));
        },
        None => {
            lemma_removed_below_bag(f, id);
        },
    }
}

proof fn lemma_removed_below_bag(f: Seq<Tree>, id: Id)
    requires
        forall|j: int| 0 <= j < f.len() ==> (#[trigger] f[j]).id() != id,
    ensures
        removed_below(f, id) matches Some((rest, t)) ==> {
            &&& t.id() == id
            &&& preorder(f).contains(t)
            &&& bag(f) == bag(rest).add(bag(seq![t]))
        },
        removed_below(f, id) is None ==> !holds_id(f, id),
    decreases f, 0int,
{
    if f.len() > 0 {
        let tail = f.drop_first();
        assert(f[0].id() != id);
        assert(forall|j: int| 0 <= j < tail.len() ==> #[trigger] tail[j] == f[j + 1]);
        lemma_removed_below_bag(tail, id);
        lemma_bag_head(f);
        if let Tree::Group { children, .. } = f[0] {
            lemma_removed_bag(children, id);
        }
        match removed_below(f, id) {
            Some((rest, t)) => {
                lemma_bag_head(rest);
                match removed_inside(f[0], id) {
                    Some((g, u)) => {
                        assert(rest.drop_first() =~= tail);
                        lemma_preorder_contains(f, 0, t);
                        assert(bag(f) =~= bag(rest).add(bag(seq![t])));
                    },
                    None => {
                        let (left, _) = removed_below(tail, id)->0;
                        assert(rest.drop_first() =~= left);
                        let k = choose|k: int| 0 <= k < preorder(tail).len() && preorder(tail)[k] == t;
                        assert(preorder(f)[1 + below(f[0]).len() + k] == t);
                        assert(bag(f) =~= bag(rest).add(bag(seq![t])));
                    },
                }
            },
            None => {
                assert(removed_inside(f[0], id) is None);
                let all = preorder(f);
                assert forall|i: int| 0 <= i < all.len() implies (#[trigger] all[i]).id() != id by {
                    let inner = below(f[0]);
                    if 0 < i <= inner.len() {
                        assert(all[i] == inner[i - 1]);
                        assert(inner == preorder(f[0].children()));
                    } else if i > inner.len() {
                        assert(all[i] == preorder(tail)[i - 1 - inner.len()]);
                    }
                }
            },
        }
    }
}

/// A removal takes out exactly the node that it hands back, with all that is below
/// it; it takes out a node that has the id, and does so exactly where there is one.
pub proof fn law_remove_takes(f: Seq<Tree>, id: Id)
    ensures
        removed(f, id) is Some <==> holds_id(f, id),
        removed(f, id) matches Some((rest, t)) ==> {
            &&& t.id() == id
            &&& preorder(f).contains(t)
            &&& bag(f) == bag(rest).add(bag(seq![t]))
        },
{
    lemma_removed_bag(f, id);
    if let Some((rest, t)) = removed(f, id) {
        let k = choose|k: int| 0 <= k < preorder(f).len() && preorder(f)[k] == t;
        assert(preorder(f)[k].id() == id);
    }
}

// ---- ids ----

/// Where `f` has no node with the id, neither has any of its nodes below it.
proof fn lemma_absent(f: Seq<Tree>, id: Id)
    requires
        f.len() > 0,
        !holds_id(f, id),
    ensures
        f[0].id() != id,
        !holds_id(f[0].children(), id),
        !holds_id(f.drop_first(), id),
{
    let all = preorder(f);
    let inner = below(f[0]);
    let tail = preorder(f.drop_first());
    assert(inner == preorder(f[0].children()));
    assert(all[0] == f[0]);
    if holds_id(f[0].children(), id) {
        let k = choose|k: int| 0 <= k < inner.len() && (#[trigger] inner[k]).id() == id;
        assert(all[k + 1].id() == id);
    }
    if holds_id(f.drop_first(), id) {
        let k = choose|k: int| 0 <= k < tail.len() && (#[trigger] tail[k]).id() == id;
        assert(all[k + 1 + inner.len()].id() == id);
    }
}

/// Where `f` has no node with the id, none of its top-level nodes has it.
pub(crate) proof fn lemma_absent_at_level(f: Seq<Tree>, id: Id)
    requires
        !holds_id(f, id),
    ensures
        forall|j: int| 0 <= j < f.len() ==> (#[trigger] f[j]).id() != id,
    decreases f.len(),
{
    if f.len() > 0 {
        lemma_absent(f, id);
        lemma_absent_at_level(f.drop_first(), id);
        assert forall|j: int| 0 <= j < f.len() implies (#[trigger] f[j]).id() != id by {
            if j > 0 {
                assert(f.drop_first()[j - 1] == f[j]);
            }
        }
    }
}

/// An edit that keeps the id of what it changes keeps the ids of a whole level.
proof fn lemma_edited_level_ids(f: Seq<Tree>, edit: spec_fn(Tree) -> Option<Tree>)
    requires
        forall|t: Tree| #[trigger] edit(t) matches Some(u) ==> u.id() == t.id(),
    ensures
        edited(f, edit) matches Some(g) ==> {
            &&& g.len() == f.len()
            &&& forall|j: int| 0 <= j < f.len() ==> (#[trigger] g[j]).id() == f[j].id()
        },
    decreases f.len(),
{
    if f.len() > 0 {
        lemma_edited_level_ids(f.drop_first(), edit);
        if let Some(g) = edited(f, edit) {
            if edited_tree(f[0], edit) is None {
                let rest = edited(f.drop_first(), edit)->0;
                assert forall|j: int| 0 <= j < f.len() implies (#[trigger] g[j]).id() == f[j].id() by {
                    if j > 0 {
                        assert(g[j] == rest[j - 1]);
                        assert(f.drop_first()[j - 1] == f[j]);
                    }
                }
            }
        }
    }
}

// ---- removing what was inserted ----

proof fn lemma_level_index_is(f: Seq<Tree>, id: Id, from: int, ix: int)
    requires
        0 <= from <= ix < f.len(),
        f[ix].id() == id,
        forall|j: int| from <= j < ix ==> (#[trigger] f[j]).id() != id,
    ensures
        level_index(f, id, from) == Some(ix),
    decreases ix - from,
{
    if from < ix {
        assert(f[from].id() != id);
        lemma_level_index_is(f, id, from + 1, ix);
    }
}

proof fn lemma_level_index_none(f: Seq<Tree>, id: Id, from: int)
    requires
        0 <= from,
        forall|j: int| from <= j < f.len() ==> (#[trigger] f[j]).id() != id,
    ensures
        level_index(f, id, from) is None,
    decreases f.len() - from,
{
    if from < f.len() {
        assert(f[from].id() != id);
        lemma_level_index_none(f, id, from + 1);
    }
}

/// Removing the last node of a level where the id occurs nowhere else.
proof fn lemma_remove_last(f: Seq<Tree>, node: Tree)
    requires
        !holds_id(f, node.id()),
    ensures
        removed(f.push(node), node.id()) == Some((f, node)),
{
    lemma_absent_at_level(f, node.id());
    let g = f.push(node);
    assert(forall|j: int| 0 <= j < f.len() ==> #[trigger] g[j] == f[j]);
    lemma_level_index_is(g, node.id(), 0, f.len() as int);
    assert(g.remove(f.len() as int) =~= f);
}

/// Nothing is removed where the id does not occur.
proof fn lemma_remove_absent(f: Seq<Tree>, id: Id)
    requires
        !holds_id(f, id),
    ensures
        removed(f, id) is None,
        removed_below(f, id) is None,
{
    law_remove_takes(f, id);
    lemma_absent_at_level(f, id);
    lemma_level_index_none(f, id, 0);
}

proof fn lemma_remove_undoes_add_child(f: Seq<Tree>, p: Id, node: Tree)
    requires
        !holds_id(f, node.id()),
    ensures
        edited(f, add_child(p, node)) matches Some(g) ==> removed(g, node.id()) == Some((f, node)),
        edited(f, add_child(p, node)) matches Some(g) ==> removed_below(g, node.id()) == Some(
            (f, node),
        ),
    decreases f,
{
    let edit = add_child(p, node);
    let id = node.id();
    if f.len() > 0 {
        if let Some(g) = edited(f, edit) {
            lemma_absent(f, id);
            lemma_absent_at_level(f, id);
            lemma_edited_level_ids(f, edit);
            lemma_level_index_none(g, id, 0);
            match edited_tree(f[0], edit) {
                Some(t) => {
                    let children = f[0].children();
                    match edit(f[0]) {
                        Some(u) => {
                            lemma_remove_last(children, node);
                        },
                        None => {
                            lemma_remove_undoes_add_child(children, p, node);
                        },
                    }
                    assert(removed_inside(t, id) == Some((f[0], node)));
                    assert(g.update(0, f[0]) =~= f);
                },
                None => {
                    lemma_remove_undoes_add_child(f.drop_first(), p, node);
                    let rest = edited(f.drop_first(), edit)->0;
                    assert(g.drop_first() =~= rest);
                    if let Tree::Group { children, .. } = f[0] {
                        lemma_remove_absent(children, id);
                    }
                    assert(seq![f[0]] + f.drop_first() =~= f);
                },
            }
        }
    }
}

/// Removing a node that was just inserted, whose id did not occur before, hands the
/// node back and restores the tree.
pub proof fn law_remove_undoes_insert(f: Seq<Tree>, p: Option<Id>, node: Tree)
    requires
        !holds_id(f, node.id()),
    ensures
        removed(inserted(f, p, node), node.id()) == Some((f, node)),
{
    lemma_remove_last(f, node);
    if let Some(group) = p {
        lemma_remove_undoes_add_child(f, group, node);
    }
}

// ---- where an inserted node is ----

/// A search for what occurs nowhere finds nothing.
pub(crate) proof fn lemma_no_parent(f: Seq<Tree>, id: Id)
    requires
        !holds_id(f, id),
    ensures
        first_match(preorder(f), has_child(id)) is None,
    decreases f,
{
    if f.len() > 0 {
        lemma_absent(f, id);
        lemma_absent_at_level(f[0].children(), id);
        assert(f.skip(0) =~= f);
        assert(f.skip(1) =~= f.drop_first());
        lemma_first_match_step(f, 0, has_child(id));
        if let Tree::Group { children, .. } = f[0] {
            lemma_no_parent(children, id);
        }
        lemma_no_parent(f.drop_first(), id);
    }
}

proof fn lemma_add_child_parent(f: Seq<Tree>, p: Id, node: Tree)
    requires
        !holds_id(f, node.id()),
    ensures
        edited(f, add_child(p, node)) is Some ==> parent(
            edited(f, add_child(p, node))->0,
            node.id(),
        ) == Some(p),
    decreases f,
{
    let edit = add_child(p, node);
    let id = node.id();
    if f.len() > 0 {
        if let Some(g) = edited(f, edit) {
            lemma_absent(f, id);
            assert(g.skip(0) =~= g);
            assert(g.skip(1) =~= g.drop_first());
            lemma_first_match_step(g, 0, has_child(id));
            let children = f[0].children();
            lemma_absent_at_level(children, id);
            match edited_tree(f[0], edit) {
                Some(t) => match edit(f[0]) {
                    Some(u) => {
                        assert(u.children()[children.len() as int].id() == id);
                    },
                    None => {
                        lemma_add_child_parent(children, p, node);
                        lemma_edited_level_ids(children, edit);
                    },
                },
                None => {
                    lemma_add_child_parent(f.drop_first(), p, node);
                    assert(g.drop_first() =~= edited(f.drop_first(), edit)->0);
                    if let Tree::Group { children: c, .. } = f[0] {
                        lemma_no_parent(c, id);
                    }
                },
            }
        }
    }
}

/// An edit that gives a group a child finds its group exactly where the tree has it.
pub(crate) proof fn lemma_add_child_applies(f: Seq<Tree>, p: Id, node: Tree)
    ensures
        edited(f, add_child(p, node)) is Some <==> exists|i: int|
            0 <= i < preorder(f).len() && #[trigger] is_group(preorder(f)[i], p),
    decreases f,
{
    let edit = add_child(p, node);
    let all = preorder(f);
    if f.len() > 0 {
        let tail = f.drop_first();
        let inner = below(f[0]);
        lemma_add_child_applies(tail, p, node);
        if let Tree::Group { children, .. } = f[0] {
            lemma_add_child_applies(children, p, node);
        }
        if exists|i: int| 0 <= i < all.len() && #[trigger] is_group(all[i], p) {
            let i = choose|i: int| 0 <= i < all.len() && #[trigger] is_group(all[i], p);
            if i == 0 {
                assert(edit(f[0]) is Some);
            } else if i <= inner.len() {
                assert(is_group(inner[i - 1], p));
            } else {
                assert(is_group(preorder(tail)[i - 1 - inner.len()], p));
            }
        }
        if edited(f, edit) is Some {
            if edit(f[0]) is Some {
                assert(is_group(all[0], p));
            } else if edited_tree(f[0], edit) is Some {
                let i = choose|i: int| 0 <= i < inner.len() && #[trigger] is_group(inner[i], p);
                assert(is_group(all[i + 1], p));
            } else {
                let i = choose|i: int|
                    0 <= i < preorder(tail).len() && #[trigger] is_group(preorder(tail)[i], p);
                assert(is_group(all[i + 1 + inner.len()], p));
            }
        }
    }
}

/// Whether a node is a group with the id.
pub open spec fn is_group(t: Tree, id: Id) -> bool {
    t is Group && t.id() == id
}

/// Whether `f` has a group with the id, at any depth.
pub open spec fn has_group(f: Seq<Tree>, id: Id) -> bool {
    exists|i: int| 0 <= i < preorder(f).len() && #[trigger] is_group(preorder(f)[i], id)
}

/// A node whose id occurs nowhere else is, after it was inserted, in the group that
/// was asked for, or at the top level where there is no such group.
pub proof fn law_insert_places(f: Seq<Tree>, p: Option<Id>, node: Tree)
    requires
        !holds_id(f, node.id()),
        !holds_id(node.children(), node.id()),
    ensures
        parent(inserted(f, p, node), node.id()) == (match p {
            Some(group) if has_group(f, group) => Some(group),
            _ => None,
        }),
{
    let id = node.id();
    lemma_no_parent(f, id);
    lemma_no_parent(node.children(), id);
    lemma_absent_at_level(node.children(), id);
    assert(f.push(node) =~= f + seq![node]);
    lemma_preorder_concat(f, seq![node]);
    lemma_first_match_concat(preorder(f), preorder(seq![node]), has_child(id));
    lemma_preorder_single(node);
    lemma_first_match_concat(seq![node], below(node), has_child(id));
    if let Some(group) = p {
        lemma_add_child_parent(f, group, node);
        lemma_add_child_applies(f, group, node);
    }
    assert(below(node) == preorder(node.children()));
    assert(seq![node].drop_first() =~= Seq::<Tree>::empty());
    reveal_with_fuel(first_match, 2);
}

// ---- a move that changes nothing ----

/// How many nodes are directly below those with the id.
spec fn child_count(f: Seq<Tree>, id: Id) -> nat
    decreases f,
{
    if f.len() == 0 {
        0
    } else {
        let own = if f[0].id() == id {
            f[0].children().len()
        } else {
            0
        };
        let inner = match f[0] {
            Tree::Group { children, .. } => child_count(children, id),
            Tree::Stream(_) => 0,
        };
        own + inner + child_count(f.drop_first(), id)
    }
}

proof fn lemma_child_count_concat(a: Seq<Tree>, b: Seq<Tree>, id: Id)
    ensures
        child_count(a + b, id) == child_count(a, id) + child_count(b, id),
    decreases a.len(),
{
    if a.len() == 0 {
        assert(a + b =~= b);
    } else {
        assert((a + b).drop_first() =~= a.drop_first() + b);
        lemma_child_count_concat(a.drop_first(), b, id);
    }
}

/// Giving another group a child adds only what is below that child.
proof fn lemma_add_child_count(f: Seq<Tree>, p: Id, node: Tree, id: Id)
    requires
        p != id,
    ensures
        edited(f, add_child(p, node)) matches Some(g) ==> g.len() == f.len() && child_count(g, id)
            == child_count(f, id) + child_count(seq![node], id),
    decreases f,
{
    let edit = add_child(p, node);
    if f.len() > 0 {
        if let Some(g) = edited(f, edit) {
            match edited_tree(f[0], edit) {
                Some(t) => {
                    assert(g.drop_first() =~= f.drop_first());
                    let children = f[0].children();
                    match edit(f[0]) {
                        Some(u) => {
                            assert(children.push(node) =~= children + seq![node]);
                            lemma_child_count_concat(children, seq![node], id);
                        },
                        None => {
                            lemma_add_child_count(children, p, node, id);
                        },
                    }
                },
                None => {
                    assert(g.drop_first() =~= edited(f.drop_first(), edit)->0);
                    lemma_add_child_count(f.drop_first(), p, node, id);
                },
            }
        }
    }
}

/// What is taken from below the top level leaves the first group that holds it with one
/// child less.
proof fn lemma_removed_child_count(f: Seq<Tree>, id: Id)
    ensures
        removed_below(f, id) matches Some((rest, t)) ==> {
            &&& rest.len() == f.len()
            &&& parent(f, id) is Some
            &&& child_count(f, parent(f, id)->0) == 1 + child_count(rest, parent(f, id)->0)
                + child_count(seq![t], parent(f, id)->0)
        },
    decreases f,
{
    if f.len() > 0 {
        if let Some((rest, t)) = removed_below(f, id) {
            let tail = f.drop_first();
            assert(f.skip(0) =~= f);
            assert(f.skip(1) =~= tail);
            lemma_first_match_step(f, 0, has_child(id));
            match removed_inside(f[0], id) {
                Some((g, u)) => {
                    assert(rest.drop_first() =~= tail);
                    let children = f[0].children();
                    lemma_level_index(children, id, 0);
                    match level_index(children, id, 0) {
                        Some(ix) => {
                            let p = f[0].id();
                            assert(children[ix].id() == id);
                            assert(has_child(id)(f[0]));
                            let head = children.take(ix);
                            let back = children.skip(ix + 1);
                            assert(children =~= head + (seq![t] + back));
                            assert(children.remove(ix) =~= head + back);
                            lemma_child_count_concat(head, seq![t] + back, p);
                            lemma_child_count_concat(seq![t], back, p);
                            lemma_child_count_concat(head, back, p);
                        },
                        None => {
                            assert(!has_child(id)(f[0]));
                            lemma_removed_child_count(children, id);
                        },
                    }
                },
                None => {
                    let (left, _) = removed_below(tail, id)->0;
                    assert(rest.drop_first() =~= left);
                    lemma_removed_child_count(tail, id);
                    if let Tree::Group { children, .. } = f[0] {
                        law_remove_takes(children, id);
                        lemma_absent_at_level(children, id);
                        lemma_no_parent(children, id);
                    }
                },
            }
        }
    }
}

/// Whether the first node of a level with the id, put behind the others, leaves the level as
/// it is.
pub open spec fn is_settled(f: Seq<Tree>, id: Id) -> bool {
    level_index(f, id, 0) matches Some(ix) && f.remove(ix).push(f[ix]) == f
}

/// Taking a node out and putting it somewhere else leaves the tree as it was only where the
/// node goes from the end of the top level back to it.
pub proof fn lemma_move_changes_nothing(f: Seq<Tree>, node: Id, new_parent: Option<Id>)
    requires
        removed(f, node) is Some,
        parent(f, node) != new_parent,
    ensures
        ({
            let (rest, t) = removed(f, node)->0;
            let g = inserted(rest, new_parent, t);
            g == f <==> is_settled(f, node) && g.len() == f.len()
        }),
{
    let (rest, t) = removed(f, node)->0;
    let g = inserted(rest, new_parent, t);
    lemma_level_index(f, node, 0);
    if let Some(group) = new_parent {
        lemma_edited_level_ids(rest, add_child(group, t));
    }
    if level_index(f, node, 0) is None {
        lemma_removed_child_count(f, node);
        let p = parent(f, node)->0;
        if let Some(group) = new_parent {
            lemma_add_child_count(rest, group, t, p);
        }
    }
}

// ---- moving ----

/// Lists with the same elements have the same elements after a function was applied
/// to each.
proof fn lemma_same_elements_mapped<A, B>(a: Seq<A>, b: Seq<A>, m: spec_fn(A) -> B)
    requires
        a.to_multiset() == b.to_multiset(),
    ensures
        a.map_values(m).to_multiset() == b.map_values(m).to_multiset(),
    decreases a.len(),
{
    broadcast use vstd::seq_lib::group_to_multiset_ensures;

    assert(a.len() == a.to_multiset().len());
    assert(b.len() == b.to_multiset().len());
    if a.len() == 0 {
        assert(a.map_values(m) =~= b.map_values(m));
    } else {
        let x = a.last();
        let rest = a.drop_last();
        assert(a =~= rest.push(x));
        assert(a.contains(x));
        assert(a.to_multiset().count(x) > 0);
        assert(b.contains(x));
        let k = choose|k: int| 0 <= k < b.len() && b[k] == x;
        assert(b.remove(k).to_multiset() =~= rest.to_multiset());
        lemma_same_elements_mapped(rest, b.remove(k), m);
        assert(a.map_values(m) =~= rest.map_values(m).push(m(x)));
        assert(b.map_values(m).remove(k) =~= b.remove(k).map_values(m));
        assert(b.map_values(m)[k] == m(x));
        assert(b.map_values(m).to_multiset() =~= b.map_values(m).remove(k).to_multiset().insert(m(x)));
    }
}

pub open spec fn shell_id(s: Shell) -> Id {
    match s {
        Shell::Group { id, .. } => id,
        Shell::Stream(connection) => connection.id,
    }
}

/// Trees that consist of the same nodes have the same ids.
proof fn lemma_same_bag_same_ids(f: Seq<Tree>, a: Seq<Tree>, b: Seq<Tree>)
    requires
        bag(f) == bag(a).add(bag(b)),
    ensures
        ids(f).to_multiset() == (ids(a) + ids(b)).to_multiset(),
{
    let m = |s: Shell| shell_id(s);
    vstd::seq_lib::lemma_multiset_commutative(shells(a), shells(b));
    lemma_same_elements_mapped(shells(f), shells(a) + shells(b), m);
    assert(shells(f).map_values(m) =~= ids(f));
    assert((shells(a) + shells(b)).map_values(m) =~= ids(a) + ids(b));
}

/// Lists with the same elements repeat one or both do not.
proof fn lemma_no_duplicates_permuted(a: Seq<Id>, b: Seq<Id>)
    requires
        a.to_multiset() == b.to_multiset(),
        a.no_duplicates(),
    ensures
        b.no_duplicates(),
{
    a.lemma_multiset_has_no_duplicates();
    b.lemma_multiset_has_no_duplicates_conv();
}

/// Moving a node keeps everything in the tree: nothing is lost, nothing is doubled,
/// no group is renamed, opened or closed, and no connection changes.
pub proof fn law_move_keeps_everything(library: LibrarySpec, node: Id, new_parent: Option<Id>)
    ensures
        library.moved(node, new_parent) matches Some(roots) ==> bag(roots) == bag(library.roots),
{
    if let Some(roots) = library.moved(node, new_parent) {
        law_remove_takes(library.roots, node);
        let (rest, t) = removed(library.roots, node)->0;
        law_insert_adds(rest, new_parent, t);
    }
}

/// A move that counts as done has changed the tree. Where it does not count, it was not
/// allowed, there was nothing to move, or the tree would have stayed as it is.
pub proof fn law_move_changes_the_tree(library: LibrarySpec, node: Id, new_parent: Option<Id>)
    ensures
        library.moved(node, new_parent) matches Some(roots) ==> roots != library.roots,
        library.moved(node, new_parent) is None ==> {
            ||| new_parent is Some && library.is_ancestor(node, new_parent->0)
            ||| parent(library.roots, node) == new_parent
            ||| !holds_id(library.roots, node)
            ||| {
                let (rest, t) = removed(library.roots, node)->0;
                inserted(rest, new_parent, t) == library.roots
            }
        },
{
    law_remove_takes(library.roots, node);
}

/// A group cannot be dropped inside itself or inside anything below it.
pub proof fn law_no_move_inside_itself(library: LibrarySpec, node: Id, inner: Id)
    ensures
        library.is_ancestor(node, inner) ==> library.moved(node, Some(inner)) is None,
        library.moved(node, Some(node)) is None,
{
    law_find(library.roots, node);
    law_remove_takes(library.roots, node);
    if let Some(t) = found(library.roots, node) {
        lemma_preorder_single(t);
        assert(preorder(seq![t])[0].id() == node);
    }
}

/// Where no id occurs twice, a node that was taken out and put in again is in the group that was
/// asked for, or at the top level where there is no such group.
pub(crate) proof fn lemma_removed_groups(library: LibrarySpec, node: Id, new_parent: Option<Id>)
    requires
        unique_ids(library.roots),
        holds_id(library.roots, node),
        new_parent matches Some(group) ==> !library.is_ancestor(node, group),
    ensures
        ({
            let (rest, t) = removed(library.roots, node)->0;
            parent(inserted(rest, new_parent, t), node) == (match new_parent {
                Some(group) if has_group(library.roots, group) => Some(group),
                _ => None,
            })
        }),
{
    let f = library.roots;
    law_remove_takes(f, node);
    let (rest, t) = removed(f, node)->0;
    law_find_unique(f, t);
    lemma_same_bag_same_ids(f, rest, seq![t]);
    let parts = ids(rest) + ids(seq![t]);
    lemma_no_duplicates_permuted(ids(f), parts);
    lemma_preorder_single(t);
    let whole = preorder(seq![t]);
    let n = ids(rest).len();
    assert(parts[n as int] == node) by {
        assert(whole[0] == t);
    }
    if holds_id(rest, node) {
        let k = choose|k: int|
            0 <= k < preorder(rest).len() && (#[trigger] preorder(rest)[k]).id() == node;
        assert(parts[k] == node);
    }
    if holds_id(t.children(), node) {
        let inner = preorder(t.children());
        let k = choose|k: int| 0 <= k < inner.len() && (#[trigger] inner[k]).id() == node;
        assert(whole[k + 1] == inner[k]);
        assert(parts[n + k + 1] == node);
    }
    law_insert_places(rest, new_parent, t);
    if let Some(group) = new_parent {
        assert(has_group(rest, group) == has_group(f, group)) by {
            lemma_group_by_bag(f, rest, t, group);
        }
    }
}

/// Where no id occurs twice, a moved node ends up in the group that was asked for (at
/// the top level where there is no such group), it is the node that it was, and still
/// no id occurs twice.
pub proof fn law_move_reparents(library: LibrarySpec, node: Id, new_parent: Option<Id>)
    requires
        unique_ids(library.roots),
    ensures
        library.moved(node, new_parent) matches Some(roots) ==> {
            &&& parent(roots, node) == (match new_parent {
                Some(group) if has_group(library.roots, group) => Some(group),
                _ => None,
            })
            &&& found(roots, node) == found(library.roots, node)
            &&& unique_ids(roots)
        },
{
    let f = library.roots;
    if let Some(roots) = library.moved(node, new_parent) {
        law_remove_takes(f, node);
        let (rest, t) = removed(f, node)->0;
        law_find_unique(f, t);
        law_remove_keeps_ids_unique(f, node);
        lemma_removed_groups(library, node, new_parent);
        law_move_keeps_everything(library, node, new_parent);
        lemma_bag_of_nothing();
        assert(bag(roots) =~= bag(f).add(bag(Seq::<Tree>::empty())));
        lemma_same_bag_same_ids(roots, f, Seq::empty());
        assert(ids(f) + ids(Seq::<Tree>::empty()) =~= ids(f));
        lemma_no_duplicates_permuted(ids(f), ids(roots));
        law_remove_undoes_insert(rest, new_parent, t);
        law_remove_takes(roots, node);
        law_find_unique(roots, t);
    }
}

proof fn lemma_bag_of_nothing()
    ensures
        bag(Seq::empty()) == Multiset::<Shell>::empty(),
{
    broadcast use vstd::seq_lib::group_to_multiset_ensures;

    assert(shells(Seq::empty()) =~= Seq::<Shell>::empty());
    assert(bag(Seq::empty()).len() == 0);
}

/// A group outside the removed node is still there afterwards, and no other is.
proof fn lemma_group_by_bag(f: Seq<Tree>, rest: Seq<Tree>, t: Tree, group: Id)
    requires
        bag(f) == bag(rest).add(bag(seq![t])),
        !holds_id(seq![t], group),
    ensures
        has_group(rest, group) == has_group(f, group),
{
    broadcast use vstd::seq_lib::group_to_multiset_ensures;

    if has_group(f, group) {
        let i = choose|i: int| 0 <= i < preorder(f).len() && #[trigger] is_group(preorder(f)[i], group);
        let s = shells(f)[i];
        assert(shells(f).contains(s));
        assert(bag(f).count(s) > 0);
        if bag(seq![t]).count(s) > 0 {
            assert(shells(seq![t]).contains(s));
            let k = choose|k: int| 0 <= k < shells(seq![t]).len() && shells(seq![t])[k] == s;
            assert(preorder(seq![t])[k].id() == group);
        }
        assert(shells(rest).contains(s));
        let k = choose|k: int| 0 <= k < shells(rest).len() && shells(rest)[k] == s;
        assert(is_group(preorder(rest)[k], group));
    }
    if has_group(rest, group) {
        let i = choose|i: int| 0 <= i < preorder(rest).len() && #[trigger] is_group(preorder(rest)[i], group);
        let s = shells(rest)[i];
        assert(shells(rest).contains(s));
        assert(bag(rest).count(s) > 0);
        assert(bag(f).count(s) > 0);
        assert(shells(f).contains(s));
        let k = choose|k: int| 0 <= k < shells(f).len() && shells(f)[k] == s;
        assert(is_group(preorder(f)[k], group));
    }
}

proof fn lemma_groups_concat(a: Seq<Tree>, b: Seq<Tree>)
    ensures
        groups(a + b) == groups(a) + groups(b),
    decreases a.len(),
{
    if a.len() == 0 {
        assert(a + b =~= b);
        assert(groups(a) + groups(b) =~= groups(b));
    } else {
        assert((a + b).drop_first() =~= a.drop_first() + b);
        lemma_groups_concat(a.drop_first(), b);
        assert(groups(a + b) =~= groups(a) + groups(b));
    }
}

/// The groups of a list: those of its first node, of what is below, and of the rest.
proof fn lemma_groups_head(f: Seq<Tree>)
    requires
        f.len() > 0,
    ensures
        groups(preorder(f)) == groups(seq![f[0]]) + groups(preorder(f[0].children())) + groups(
            preorder(f.drop_first()),
        ),
{
    assert(below(f[0]) == preorder(f[0].children()));
    lemma_groups_concat(seq![f[0]] + below(f[0]), preorder(f.drop_first()));
    lemma_groups_concat(seq![f[0]], below(f[0]));
}

proof fn lemma_groups_single(t: Tree)
    ensures
        groups(seq![t]) == (match t {
            Tree::Group { id, name, expanded, .. } => seq![(id, name, expanded)],
            Tree::Stream(_) => Seq::empty(),
        }),
{
    assert(seq![t].drop_first() =~= Seq::<Tree>::empty());
    reveal_with_fuel(groups, 2);
    assert(groups(seq![t]) =~= (match t {
        Tree::Group { id, name, expanded, .. } => seq![(id, name, expanded)],
        Tree::Stream(_) => Seq::empty(),
    }));
}

proof fn lemma_add_stream_groups(f: Seq<Tree>, p: Id, node: Tree)
    requires
        node is Stream,
    ensures
        edited(f, add_child(p, node)) matches Some(g) ==> groups(preorder(g)) == groups(
            preorder(f),
        ),
    decreases f,
{
    let edit = add_child(p, node);
    if f.len() > 0 {
        if let Some(g) = edited(f, edit) {
            lemma_groups_head(f);
            lemma_groups_head(g);
            lemma_groups_single(f[0]);
            lemma_groups_single(g[0]);
            match edited_tree(f[0], edit) {
                Some(t) => {
                    assert(g.drop_first() =~= f.drop_first());
                    let children = f[0].children();
                    if edit(f[0]) is Some {
                        lemma_push_stream_groups(children, node);
                    } else {
                        lemma_add_stream_groups(children, p, node);
                    }
                },
                None => {
                    assert(g.drop_first() =~= edited(f.drop_first(), edit)->0);
                    lemma_add_stream_groups(f.drop_first(), p, node);
                },
            }
        }
    }
}

proof fn lemma_push_stream_groups(f: Seq<Tree>, node: Tree)
    requires
        node is Stream,
    ensures
        groups(preorder(f.push(node))) == groups(preorder(f)),
{
    assert(f.push(node) =~= f + seq![node]);
    lemma_preorder_concat(f, seq![node]);
    lemma_groups_concat(preorder(f), preorder(seq![node]));
    lemma_preorder_single(node);
    assert(preorder(seq![node]) =~= seq![node]);
    lemma_groups_single(node);
    assert(groups(preorder(f)) + Seq::<(Id, Seq<char>, bool)>::empty() =~= groups(preorder(f)));
}

proof fn lemma_remove_stream_groups(f: Seq<Tree>, id: Id)
    ensures
        removed(f, id) matches Some((rest, t)) ==> t is Stream ==> groups(preorder(rest)) == groups(
            preorder(f),
        ),
        removed_below(f, id) matches Some((rest, t)) ==> t is Stream ==> groups(preorder(rest))
            == groups(preorder(f)),
    decreases f,
{
    lemma_level_index(f, id, 0);
    if let Some(ix) = level_index(f, id, 0) {
        let t = f[ix];
        if t is Stream {
            let head = f.take(ix);
            let tail = f.skip(ix + 1);
            assert(f =~= head.push(t) + tail);
            assert(f.remove(ix) =~= head + tail);
            lemma_preorder_concat(head.push(t), tail);
            lemma_preorder_concat(head, tail);
            lemma_groups_concat(preorder(head.push(t)), preorder(tail));
            lemma_groups_concat(preorder(head), preorder(tail));
            lemma_push_stream_groups(head, t);
        }
    }
    if f.len() > 0 {
        let tail = f.drop_first();
        lemma_remove_stream_groups(tail, id);
        if let Tree::Group { children, .. } = f[0] {
            lemma_remove_stream_groups(children, id);
        }
        if let Some((rest, t)) = removed_below(f, id) {
            lemma_groups_head(f);
            lemma_groups_head(rest);
            lemma_groups_single(f[0]);
            lemma_groups_single(rest[0]);
            match removed_inside(f[0], id) {
                Some((g, u)) => {
                    assert(rest.drop_first() =~= tail);
                },
                None => {
                    let (left, _) = removed_below(tail, id)->0;
                    assert(rest.drop_first() =~= left);
                },
            }
        }
    }
}

/// Moving a connection leaves the groups as they are, in the same order, each as open
/// or closed as it was.
pub proof fn law_move_stream_keeps_groups(
    library: LibrarySpec,
    node: Id,
    new_parent: Option<Id>,
)
    requires
        removed(library.roots, node) matches Some((rest, t)) ==> t is Stream,
    ensures
        library.moved(node, new_parent) matches Some(roots) ==> groups(preorder(roots)) == groups(
            preorder(library.roots),
        ),
{
    if let Some(roots) = library.moved(node, new_parent) {
        let (rest, t) = removed(library.roots, node)->0;
        lemma_remove_stream_groups(library.roots, node);
        lemma_push_stream_groups(rest, t);
        if let Some(group) = new_parent {
            lemma_add_stream_groups(rest, group, t);
        }
    }
}

/// Where no id occurs twice, neither does one after a node with new ids was inserted.
pub proof fn law_insert_keeps_ids_unique(f: Seq<Tree>, p: Option<Id>, node: Tree)
    requires
        unique_ids(f),
        unique_ids(seq![node]),
        forall|id: Id| #[trigger] holds_id(f, id) ==> !holds_id(seq![node], id),
    ensures
        unique_ids(inserted(f, p, node)),
{
    law_insert_adds(f, p, node);
    let g = inserted(f, p, node);
    lemma_same_bag_same_ids(g, f, seq![node]);
    let parts = ids(f) + ids(seq![node]);
    assert forall|i: int, j: int| 0 <= i < parts.len() && 0 <= j < parts.len() && i != j implies parts[i]
        != parts[j] by {
        let n = ids(f).len();
        if i < n && j >= n {
            assert(preorder(f)[i].id() == parts[i]);
            assert(preorder(seq![node])[j - n].id() == parts[j]);
            assert(holds_id(f, parts[i]));
        } else if i >= n && j < n {
            assert(preorder(f)[j].id() == parts[j]);
            assert(preorder(seq![node])[i - n].id() == parts[i]);
            assert(holds_id(f, parts[j]));
        } else if i < n {
            assert(ids(f)[i] != ids(f)[j]);
        } else {
            assert(ids(seq![node])[i - n] != ids(seq![node])[j - n]);
        }
    }
    lemma_no_duplicates_permuted(parts, ids(g));
}

/// Where no id occurs twice, neither does one after a removal, and the id that was
/// removed no longer occurs.
pub proof fn law_remove_keeps_ids_unique(f: Seq<Tree>, id: Id)
    requires
        unique_ids(f),
    ensures
        removed(f, id) matches Some((rest, t)) ==> unique_ids(rest) && !holds_id(rest, id),
{
    if let Some((rest, t)) = removed(f, id) {
        law_remove_takes(f, id);
        lemma_same_bag_same_ids(f, rest, seq![t]);
        let parts = ids(rest) + ids(seq![t]);
        lemma_no_duplicates_permuted(ids(f), parts);
        let n = ids(rest).len();
        lemma_preorder_single(t);
        assert(parts[n as int] == id) by {
            assert(preorder(seq![t])[0] == t);
        }
        assert forall|i: int, j: int| 0 <= i < n && 0 <= j < n && i != j implies ids(rest)[i] != ids(
            rest,
        )[j] by {
            assert(parts[i] != parts[j]);
        }
        if holds_id(rest, id) {
            let k = choose|k: int| 0 <= k < preorder(rest).len() && (#[trigger] preorder(rest)[k]).id() == id;
            assert(parts[k] == id);
        }
    }
}

// ---- editing one node ----

/// The index of the first node, depth first, that an edit applies to.
pub open spec fn edit_index(f: Seq<Tree>, edit: spec_fn(Tree) -> Option<Tree>, k: int) -> bool {
    &&& 0 <= k < preorder(f).len()
    &&& edit(preorder(f)[k]) is Some
    &&& forall|j: int| 0 <= j < k ==> edit(#[trigger] preorder(f)[j]) is None
}

/// An edit of one node that leaves what is below it alone changes that node and no
/// other.
proof fn lemma_edit_changes_one(f: Seq<Tree>, edit: spec_fn(Tree) -> Option<Tree>)
    requires
        forall|t: Tree| #[trigger] edit(t) matches Some(u) ==> u.children() == t.children(),
    ensures
        edited(f, edit) matches Some(g) ==> exists|k: int| #[trigger]
            edit_index(f, edit, k) && shells(g) == shells(f).update(
                k,
                shell(edit(preorder(f)[k])->0),
            ),
        edited(f, edit) is None ==> forall|j: int|
            0 <= j < preorder(f).len() ==> edit(#[trigger] preorder(f)[j]) is None,
    decreases f,
{
    let all = preorder(f);
    if f.len() > 0 {
        let tail = f.drop_first();
        let inner = below(f[0]);
        let n = inner.len();
        assert(inner == preorder(f[0].children()));
        assert(all[0] == f[0]);
        assert(forall|j: int| 0 <= j < n ==> #[trigger] all[j + 1] == inner[j]);
        assert(forall|j: int| 0 <= j < preorder(tail).len() ==> #[trigger] all[j + 1 + n] == preorder(tail)[j]);
        lemma_edit_changes_one(tail, edit);
        if let Tree::Group { children, .. } = f[0] {
            lemma_edit_changes_one(children, edit);
        }
        match edited(f, edit) {
            Some(g) => {
                if edit(f[0]) is Some {
                    assert(g.drop_first() =~= tail);
                    assert(edit_index(f, edit, 0));
                    assert(shells(g) =~= shells(f).update(0, shell(edit(all[0])->0)));
                } else if edited_tree(f[0], edit) is Some {
                    let c = edited(f[0].children(), edit)->0;
                    assert(g.drop_first() =~= tail);
                    assert(g[0].children() == c);
                    let k = choose|k: int| #[trigger]
                        edit_index(f[0].children(), edit, k) && shells(c) == shells(
                            f[0].children(),
                        ).update(k, shell(edit(inner[k])->0));
                    assert(all[k + 1] == inner[k]);
                    assert forall|j: int| 0 <= j < k + 1 implies edit(#[trigger] all[j]) is None by {
                        if j > 0 {
                            assert(all[j] == inner[j - 1]);
                        }
                    }
                    assert(edit_index(f, edit, k + 1));
                    assert(shells(g) =~= seq![shell(g[0])] + shells(c) + shells(tail));
                    assert(shells(f) =~= seq![shell(f[0])] + shells(f[0].children()) + shells(tail));
                    assert(shells(g) =~= shells(f).update(k + 1, shell(edit(all[k + 1])->0)));
                } else {
                    let rest = edited(tail, edit)->0;
                    assert(g.drop_first() =~= rest);
                    let k = choose|k: int| #[trigger]
                        edit_index(tail, edit, k) && shells(rest) == shells(tail).update(
                            k,
                            shell(edit(preorder(tail)[k])->0),
                        );
                    assert(all[k + 1 + n] == preorder(tail)[k]);
                    assert forall|j: int| 0 <= j < k + 1 + n implies edit(#[trigger] all[j]) is None by {
                        if 0 < j <= n {
                            assert(all[j] == inner[j - 1]);
                        } else if j > n {
                            assert(all[j] == preorder(tail)[j - 1 - n]);
                        }
                    }
                    assert(edit_index(f, edit, k + 1 + n));
                    assert(shells(g) =~= seq![shell(f[0])] + shells(f[0].children()) + shells(rest));
                    assert(shells(f) =~= seq![shell(f[0])] + shells(f[0].children()) + shells(tail));
                    assert(shells(g) =~= shells(f).update(k + 1 + n, shell(edit(all[k + 1 + n])->0)));
                }
            },
            None => {
                assert forall|j: int| 0 <= j < all.len() implies edit(#[trigger] all[j]) is None by {
                    if 0 < j <= n {
                        assert(all[j] == inner[j - 1]);
                    } else if j > n {
                        assert(all[j] == preorder(tail)[j - 1 - n]);
                    }
                }
            },
        }
    }
}

/// Renaming changes the name of the first group with the id and nothing else, and
/// changes nothing where there is none.
pub proof fn law_rename_changes_one_name(f: Seq<Tree>, id: Id, new_name: Seq<char>)
    ensures
        has_group(f, id) ==> exists|k: int| #[trigger]
            edit_index(f, rename(id, new_name), k) && is_group(preorder(f)[k], id) && shells(
                edited_or_same(f, rename(id, new_name)),
            ) == shells(f).update(
                k,
                Shell::Group { id, name: new_name, expanded: preorder(f)[k]->expanded },
            ),
        !has_group(f, id) ==> edited_or_same(f, rename(id, new_name)) == f,
{
    let edit = rename(id, new_name);
    lemma_edit_changes_one(f, edit);
    if has_group(f, id) {
        let i = choose|i: int| 0 <= i < preorder(f).len() && #[trigger] is_group(preorder(f)[i], id);
        assert(edit(preorder(f)[i]) is Some);
        let g = edited(f, edit)->0;
        let k = choose|k: int| #[trigger]
            edit_index(f, edit, k) && shells(g) == shells(f).update(k, shell(edit(preorder(f)[k])->0));
        assert(is_group(preorder(f)[k], id));
    } else if edited(f, edit) is Some {
        let k = choose|k: int| #[trigger] edit_index(f, edit, k);
        assert(is_group(preorder(f)[k], id));
    }
}

/// Folding or unfolding changes the first group with the id and nothing else, and
/// changes nothing where there is none.
pub proof fn law_set_expanded_changes_one_group(f: Seq<Tree>, id: Id, value: bool)
    ensures
        has_group(f, id) ==> exists|k: int| #[trigger]
            edit_index(f, fold(id, value), k) && is_group(preorder(f)[k], id) && shells(
                edited_or_same(f, fold(id, value)),
            ) == shells(f).update(
                k,
                Shell::Group { id, name: preorder(f)[k].name(), expanded: value },
            ),
        !has_group(f, id) ==> edited_or_same(f, fold(id, value)) == f,
{
    let edit = fold(id, value);
    lemma_edit_changes_one(f, edit);
    if has_group(f, id) {
        let i = choose|i: int| 0 <= i < preorder(f).len() && #[trigger] is_group(preorder(f)[i], id);
        assert(edit(preorder(f)[i]) is Some);
        let g = edited(f, edit)->0;
        let k = choose|k: int| #[trigger]
            edit_index(f, edit, k) && shells(g) == shells(f).update(k, shell(edit(preorder(f)[k])->0));
        assert(is_group(preorder(f)[k], id));
    } else if edited(f, edit) is Some {
        let k = choose|k: int| #[trigger] edit_index(f, edit, k);
        assert(is_group(preorder(f)[k], id));
    }
}

/// Updating a connection replaces the first one with its id and nothing else, and
/// changes nothing where there is none.
pub proof fn law_update_changes_one_connection(f: Seq<Tree>, updated: ConnectionSpec)
    ensures
        (exists|i: int|
            0 <= i < preorder(f).len() && #[trigger] is_stream(preorder(f)[i], updated.id))
            ==> exists|k: int| #[trigger]
            edit_index(f, replace_stream(updated), k) && is_stream(preorder(f)[k], updated.id)
                && shells(edited_or_same(f, replace_stream(updated))) == shells(f).update(
                k,
                Shell::Stream(updated),
            ),
        (forall|i: int|
            0 <= i < preorder(f).len() ==> !#[trigger] is_stream(preorder(f)[i], updated.id))
            ==> edited_or_same(f, replace_stream(updated)) == f,
{
    let edit = replace_stream(updated);
    lemma_edit_changes_one(f, edit);
    if exists|i: int| 0 <= i < preorder(f).len() && #[trigger] is_stream(preorder(f)[i], updated.id) {
        let i = choose|i: int|
            0 <= i < preorder(f).len() && #[trigger] is_stream(preorder(f)[i], updated.id);
        assert(edit(preorder(f)[i]) is Some);
        let g = edited(f, edit)->0;
        let k = choose|k: int| #[trigger]
            edit_index(f, edit, k) && shells(g) == shells(f).update(k, shell(edit(preorder(f)[k])->0));
        assert(is_stream(preorder(f)[k], updated.id));
    } else if edited(f, edit) is Some {
        let k = choose|k: int| #[trigger] edit_index(f, edit, k);
        assert(is_stream(preorder(f)[k], updated.id));
    }
}

/// Whether a node is a connection with the id.
pub open spec fn is_stream(t: Tree, id: Id) -> bool {
    t is Stream && t.id() == id
}

} // verus!

//! Where things are in the tree: what lies below what, and in which order.

use vstd::prelude::*;

use crate::connection::ConnectionSpec;
use crate::id::Id;
use crate::library::LibrarySpec;
use crate::tree::{
    add_child, edited, edited_tree, first_match, found, has_child, has_id_at_level, holds_id,
    inserted, level_index, parent, preorder, removed, removed_below, removed_inside, streams, Tree,
};
use crate::tree_laws::{
    bag, has_group, ids, is_group, law_find_unique,
    law_move_keeps_everything, law_move_reparents, law_remove_keeps_ids_unique, law_remove_takes,
    law_remove_undoes_insert, lemma_absent_at_level, lemma_add_child_applies, lemma_first_match,
    lemma_no_parent, lemma_preorder_concat, lemma_removed_groups, unique_ids,
};
use crate::walk::{below, lemma_edited_at, lemma_first_match_step, lemma_preorder_single};

verus! {

/// A walk over the tree visits each node, then what is below it, then its next sibling.
pub proof fn law_walk_is_depth_first(a: Seq<Tree>, b: Seq<Tree>, t: Tree)
    ensures
        preorder(Seq::empty()) == Seq::<Tree>::empty(),
        preorder(a + b) == preorder(a) + preorder(b),
        preorder(seq![t]) == seq![t] + preorder(t.children()),
{
    lemma_preorder_concat(a, b);
    lemma_preorder_single(t);
    assert(below(t) == preorder(t.children()));
}

/// A walk visits what is at the top and what is directly below anything it visits.
pub proof fn law_walk_reaches_everything(f: Seq<Tree>, t: Tree, c: Tree)
    ensures
        f.contains(c) ==> preorder(f).contains(c),
        preorder(f).contains(t) && t.children().contains(c) ==> preorder(f).contains(c),
    decreases f,
{
    if f.len() > 0 {
        let tail = f.drop_first();
        let inner = preorder(f[0].children());
        let all = preorder(f);
        assert(inner == below(f[0]));
        law_walk_reaches_everything(tail, t, c);
        if let Tree::Group { children, .. } = f[0] {
            law_walk_reaches_everything(children, t, c);
        }
        assert(all[0] == f[0]);
        assert(forall|k: int| 0 <= k < inner.len() ==> all[k + 1] == #[trigger] inner[k]);
        assert(forall|k: int|
            0 <= k < preorder(tail).len() ==> all[k + 1 + inner.len()] == #[trigger] preorder(tail)[k]);
        if preorder(tail).contains(c) {
            let k = choose|k: int| 0 <= k < preorder(tail).len() && preorder(tail)[k] == c;
            assert(all[k + 1 + inner.len()] == c);
        }
        if inner.contains(c) {
            let k = choose|k: int| 0 <= k < inner.len() && inner[k] == c;
            assert(all[k + 1] == c);
        }
        if f.contains(c) {
            let k = choose|k: int| 0 <= k < f.len() && f[k] == c;
            if k > 0 {
                assert(tail[k - 1] == c);
            }
        }
        if all.contains(t) && t.children().contains(c) {
            lemma_in_parts(f, t);
            if t == f[0] {
                law_walk_reaches_everything(f[0].children(), t, c);
            }
        }
    }
}

/// What a walk visits is the first node, below it, or in the rest.
proof fn lemma_in_parts(f: Seq<Tree>, t: Tree)
    requires
        f.len() > 0,
    ensures
        preorder(f).contains(t) <==> t == f[0] || preorder(f[0].children()).contains(t) || preorder(
            f.drop_first(),
        ).contains(t),
{
    let all = preorder(f);
    let inner = preorder(f[0].children());
    let tail = preorder(f.drop_first());
    assert(inner == below(f[0]));
    if all.contains(t) {
        let k = choose|k: int| 0 <= k < all.len() && all[k] == t;
        if 0 < k <= inner.len() {
            assert(inner[k - 1] == t);
        } else if k > inner.len() {
            assert(tail[k - 1 - inner.len()] == t);
        }
    }
    if inner.contains(t) {
        let k = choose|k: int| 0 <= k < inner.len() && inner[k] == t;
        assert(all[k + 1] == t);
    }
    if tail.contains(t) {
        let k = choose|k: int| 0 <= k < tail.len() && tail[k] == t;
        assert(all[k + 1 + inner.len()] == t);
    }
    assert(all[0] == f[0]);
}

/// A node that a walk visits has its id in the tree.
proof fn lemma_holds(f: Seq<Tree>, t: Tree)
    requires
        preorder(f).contains(t),
    ensures
        holds_id(f, t.id()),
{
    let k = choose|k: int| 0 <= k < preorder(f).len() && preorder(f)[k] == t;
    assert(preorder(f)[k].id() == t.id());
}

/// Where no id occurs twice, the first node, what is below it and the rest have none in common.
proof fn lemma_unique_parts(f: Seq<Tree>)
    requires
        f.len() > 0,
        unique_ids(f),
    ensures
        unique_ids(f[0].children()),
        unique_ids(f.drop_first()),
        forall|id: Id| #[trigger]
            holds_id(f[0].children(), id) ==> id != f[0].id() && !holds_id(f.drop_first(), id),
        forall|id: Id| #[trigger] holds_id(f.drop_first(), id) ==> id != f[0].id(),
{
    let all = ids(f);
    let inner = preorder(f[0].children());
    let tail = preorder(f.drop_first());
    let n = inner.len() as int;
    assert(inner == below(f[0]));
    assert(all[0] == f[0].id());
    assert(forall|k: int| 0 <= k < n ==> all[k + 1] == #[trigger] inner[k].id());
    assert(forall|k: int| 0 <= k < tail.len() ==> all[k + 1 + n] == #[trigger] tail[k].id());
    assert forall|i: int, j: int|
        0 <= i < n && 0 <= j < n && i != j implies ids(f[0].children())[i] != ids(
        f[0].children(),
    )[j] by {
        assert(all[i + 1] == inner[i].id() && all[j + 1] == inner[j].id());
        assert(all[i + 1] != all[j + 1]);
    }
    assert forall|i: int, j: int|
        0 <= i < tail.len() && 0 <= j < tail.len() && i != j implies ids(f.drop_first())[i] != ids(
        f.drop_first(),
    )[j] by {
        assert(all[i + 1 + n] == tail[i].id() && all[j + 1 + n] == tail[j].id());
        assert(all[i + 1 + n] != all[j + 1 + n]);
    }
    assert forall|id: Id| #[trigger] holds_id(f[0].children(), id) implies id != f[0].id()
        && !holds_id(f.drop_first(), id) by {
        let i = choose|i: int| 0 <= i < inner.len() && (#[trigger] inner[i]).id() == id;
        assert(all[i + 1] == id);
        assert(all[0] != all[i + 1]);
        if holds_id(f.drop_first(), id) {
            let j = choose|j: int| 0 <= j < tail.len() && (#[trigger] tail[j]).id() == id;
            assert(all[j + 1 + n] == id);
            assert(all[i + 1] != all[j + 1 + n]);
        }
    }
    assert forall|id: Id| #[trigger] holds_id(f.drop_first(), id) implies id != f[0].id() by {
        let j = choose|j: int| 0 <= j < tail.len() && (#[trigger] tail[j]).id() == id;
        assert(all[j + 1 + n] == id);
        assert(all[0] != all[j + 1 + n]);
    }
}

/// What is directly below something is not at the top.
proof fn lemma_child_not_at_top(f: Seq<Tree>, t: Tree, c: Tree)
    requires
        unique_ids(f),
        preorder(f).contains(t),
        t.children().contains(c),
    ensures
        !has_id_at_level(f, c.id()),
    decreases f.len(),
{
    if f.len() > 0 {
        let tail = f.drop_first();
        lemma_unique_parts(f);
        lemma_in_parts(f, t);
        if preorder(tail).contains(t) {
            law_walk_reaches_everything(tail, t, c);
            lemma_holds(tail, c);
            lemma_child_not_at_top(tail, t, c);
        } else {
            law_walk_reaches_everything(f[0].children(), t, c);
            lemma_holds(f[0].children(), c);
            lemma_absent_at_level(tail, c.id());
        }
        if has_id_at_level(f, c.id()) {
            let i = choose|i: int| 0 <= i < f.len() && (#[trigger] f[i]).id() == c.id();
            if i > 0 {
                assert(tail[i - 1].id() == c.id());
            }
        }
    }
}

/// Where no id occurs twice, the parent of what is directly below a group is that group.
pub proof fn law_parent_is_the_group_above(f: Seq<Tree>, t: Tree, c: Tree)
    requires
        unique_ids(f),
        preorder(f).contains(t),
        t.children().contains(c),
    ensures
        parent(f, c.id()) == Some(t.id()),
    decreases f,
{
    if f.len() > 0 {
        let tail = f.drop_first();
        let children = f[0].children();
        lemma_unique_parts(f);
        lemma_in_parts(f, t);
        assert(f.skip(0) =~= f);
        assert(f.skip(1) =~= tail);
        lemma_first_match_step(f, 0, has_child(c.id()));
        assert(below(f[0]) == preorder(children));
        if t == f[0] {
            let k = choose|k: int| 0 <= k < children.len() && children[k] == c;
            assert(children[k].id() == c.id());
        } else if preorder(children).contains(t) {
            lemma_child_not_at_top(children, t, c);
            law_parent_is_the_group_above(children, t, c);
        } else {
            law_walk_reaches_everything(tail, t, c);
            lemma_holds(tail, c);
            assert(!holds_id(children, c.id()));
            lemma_absent_at_level(children, c.id());
            lemma_no_parent(children, c.id());
            law_parent_is_the_group_above(tail, t, c);
        }
    }
}

/// Where no id occurs twice, what is at the top has no parent; nor has what is not in the tree.
pub proof fn law_top_level_has_no_parent(f: Seq<Tree>, c: Id)
    requires
        unique_ids(f),
        has_id_at_level(f, c) || !holds_id(f, c),
    ensures
        parent(f, c) is None,
{
    lemma_first_match(preorder(f), has_child(c));
    if !holds_id(f, c) {
        lemma_no_parent(f, c);
    } else if let Some(t) = first_match(preorder(f), has_child(c)) {
        let k = choose|k: int| 0 <= k < t.children().len() && (#[trigger] t.children()[k]).id() == c;
        lemma_child_not_at_top(f, t, t.children()[k]);
    }
}

/// Where no id occurs twice, a node contains itself and what is below it, and nothing else.
pub proof fn law_ancestors_are_above(library: LibrarySpec, t: Tree, node: Id)
    requires
        unique_ids(library.roots),
        preorder(library.roots).contains(t),
    ensures
        library.is_ancestor(t.id(), node) <==> node == t.id() || holds_id(t.children(), node),
{
    law_find_unique(library.roots, t);
    lemma_preorder_single(t);
    let whole = preorder(seq![t]);
    let inner = preorder(t.children());
    assert(inner == below(t));
    assert(whole[0] == t);
    if holds_id(seq![t], node) {
        let k = choose|k: int| 0 <= k < whole.len() && (#[trigger] whole[k]).id() == node;
        if k > 0 {
            assert(inner[k - 1].id() == node);
        }
    }
    if holds_id(t.children(), node) {
        let k = choose|k: int| 0 <= k < inner.len() && (#[trigger] inner[k]).id() == node;
        assert(whole[k + 1].id() == node);
    }
}

/// The connections of a list of nodes are those that are connections, in order.
pub proof fn law_connections_keep_their_order(a: Seq<Tree>, b: Seq<Tree>, c: ConnectionSpec, t: Tree)
    ensures
        streams(Seq::empty()) == Seq::<ConnectionSpec>::empty(),
        streams(a + b) == streams(a) + streams(b),
        streams(seq![Tree::Stream(c)]) == seq![c],
        t is Group ==> streams(seq![t]) == Seq::<ConnectionSpec>::empty(),
        streams(a).contains(c) <==> a.contains(Tree::Stream(c)),
    decreases a.len(),
{
    let none = Seq::<Tree>::empty();
    assert(seq![Tree::Stream(c)].drop_first() =~= none);
    assert(seq![t].drop_first() =~= none);
    reveal_with_fuel(streams, 2);
    assert(streams(seq![Tree::Stream(c)]) =~= seq![c]);
    if a.len() == 0 {
        assert(a + b =~= b);
        assert(streams(a) + streams(b) =~= streams(b));
    } else {
        let rest = a.drop_first();
        assert((a + b).drop_first() =~= rest + b);
        law_connections_keep_their_order(rest, b, c, t);
        assert(streams(a + b) =~= streams(a) + streams(b));
        if a.contains(Tree::Stream(c)) {
            let k = choose|k: int| 0 <= k < a.len() && a[k] == Tree::Stream(c);
            if k == 0 {
                assert(streams(a)[0] == c);
            } else {
                assert(rest[k - 1] == Tree::Stream(c));
            }
        }
        if rest.contains(Tree::Stream(c)) {
            let k = choose|k: int| 0 <= k < rest.len() && rest[k] == Tree::Stream(c);
            assert(a[k + 1] == Tree::Stream(c));
        }
        match a[0] {
            Tree::Stream(first) => {
                let all = streams(a);
                let more = streams(rest);
                assert(all =~= seq![first] + more);
                if more.contains(c) {
                    let k = choose|k: int| 0 <= k < more.len() && more[k] == c;
                    assert(all[k + 1] == c);
                }
                if all.contains(c) {
                    let k = choose|k: int| 0 <= k < all.len() && all[k] == c;
                    if k > 0 {
                        assert(more[k - 1] == c);
                    } else {
                        assert(a[0] == Tree::Stream(c));
                    }
                }
            },
            Tree::Group { .. } => {},
        }
    }
}

// ---- taking out ----

proof fn lemma_level_index_at(f: Seq<Tree>, id: Id, from: int, ix: int)
    requires
        0 <= from <= ix < f.len(),
        f[ix].id() == id,
        forall|j: int| from <= j < ix ==> (#[trigger] f[j]).id() != id,
    ensures
        level_index(f, id, from) == Some(ix),
    decreases ix - from,
{
    if from < ix {
        assert(f[from].id() != id);
        lemma_level_index_at(f, id, from + 1, ix);
    }
}

proof fn lemma_level_index_missing(f: Seq<Tree>, id: Id, from: int)
    requires
        0 <= from,
        forall|j: int| from <= j < f.len() ==> (#[trigger] f[j]).id() != id,
    ensures
        level_index(f, id, from) is None,
    decreases f.len() - from,
{
    if from < f.len() {
        assert(f[from].id() != id);
        lemma_level_index_missing(f, id, from + 1);
    }
}

/// Taking a node out of a level closes the gap: what stood before it and what stood behind it
/// stay as they are and in their order.
pub proof fn law_remove_closes_the_gap(a: Seq<Tree>, t: Tree, b: Seq<Tree>)
    requires
        !has_id_at_level(a, t.id()),
    ensures
        removed(a + seq![t] + b, t.id()) == Some((a + b, t)),
{
    let f = a + seq![t] + b;
    let ix = a.len() as int;
    assert(f[ix] == t);
    assert forall|j: int| 0 <= j < ix implies (#[trigger] f[j]).id() != t.id() by {
        assert(f[j] == a[j]);
    }
    lemma_level_index_at(f, t.id(), 0, ix);
    assert(f.remove(ix) =~= a + b);
}

/// Taking a node out of a group changes that group's children alone.
pub proof fn law_remove_reaches_inside(a: Seq<Tree>, group: Tree, b: Seq<Tree>, id: Id)
    requires
        group is Group,
        removed(group.children(), id) is Some,
        !holds_id(a, id),
        group.id() != id,
        !has_id_at_level(b, id),
    ensures
        ({
            let (left, t) = removed(group.children(), id)->0;
            removed(a + seq![group] + b, id) == Some(
                (
                    a + seq![
                        Tree::Group {
                            id: group->id,
                            name: group->name,
                            children: left,
                            expanded: group->expanded,
                        },
                    ] + b,
                    t,
                ),
            )
        }),
{
    let f = a + seq![group] + b;
    lemma_absent_at_level(a, id);
    assert forall|j: int| 0 <= j < f.len() implies (#[trigger] f[j]).id() != id by {
        if j < a.len() {
            assert(f[j] == a[j]);
        } else if j > a.len() {
            assert(f[j] == b[j - 1 - a.len()]);
        }
    }
    lemma_level_index_missing(f, id, 0);
    lemma_removed_below_after(a, group, b, id);
}

proof fn lemma_removed_below_after(a: Seq<Tree>, group: Tree, b: Seq<Tree>, id: Id)
    requires
        removed_inside(group, id) is Some,
        !holds_id(a, id),
    ensures
        ({
            let (g, t) = removed_inside(group, id)->0;
            removed_below(a + seq![group] + b, id) == Some((a + seq![g] + b, t))
        }),
    decreases a.len(),
{
    let f = a + seq![group] + b;
    let (g, t) = removed_inside(group, id)->0;
    if a.len() == 0 {
        assert(f[0] == group);
        assert(f.update(0, g) =~= a + seq![g] + b);
    } else {
        let rest = a.drop_first();
        assert(f[0] == a[0]);
        assert(f.drop_first() =~= rest + seq![group] + b);
        assert(!holds_id(rest, id)) by {
            if holds_id(rest, id) {
                let k = choose|k: int|
                    0 <= k < preorder(rest).len() && (#[trigger] preorder(rest)[k]).id() == id;
                lemma_in_parts(a, preorder(rest)[k]);
                assert(preorder(rest).contains(preorder(rest)[k]));
                lemma_holds(a, preorder(rest)[k]);
            }
        }
        if let Tree::Group { children, .. } = a[0] {
            law_remove_takes(children, id);
            if holds_id(children, id) {
                let k = choose|k: int|
                    0 <= k < preorder(children).len() && (#[trigger] preorder(children)[k]).id() == id;
                lemma_in_parts(a, preorder(children)[k]);
                assert(preorder(children).contains(preorder(children)[k]));
                lemma_holds(a, preorder(children)[k]);
            }
        }
        assert(removed_inside(a[0], id) is None);
        lemma_removed_below_after(rest, group, b, id);
        assert(seq![f[0]] + (rest + seq![g] + b) =~= a + seq![g] + b);
    }
}

// ---- putting in ----

proof fn lemma_group_in_parts(f: Seq<Tree>, p: Id)
    requires
        f.len() > 0,
    ensures
        has_group(f, p) <==> is_group(f[0], p) || has_group(f[0].children(), p) || has_group(
            f.drop_first(),
            p,
        ),
{
    let all = preorder(f);
    let inner = preorder(f[0].children());
    let tail = preorder(f.drop_first());
    assert(inner == below(f[0]));
    assert(all[0] == f[0]);
    if has_group(f, p) {
        let i = choose|i: int| 0 <= i < all.len() && #[trigger] is_group(all[i], p);
        if 0 < i <= inner.len() {
            assert(is_group(inner[i - 1], p));
        } else if i > inner.len() {
            assert(is_group(tail[i - 1 - inner.len()], p));
        }
    }
    if has_group(f[0].children(), p) {
        let i = choose|i: int| 0 <= i < inner.len() && #[trigger] is_group(inner[i], p);
        assert(is_group(all[i + 1], p));
    }
    if has_group(f.drop_first(), p) {
        let i = choose|i: int| 0 <= i < tail.len() && #[trigger] is_group(tail[i], p);
        assert(is_group(all[i + 1 + inner.len()], p));
    }
    if is_group(f[0], p) {
        assert(is_group(all[0], p));
    }
}

proof fn lemma_edited_after(a: Seq<Tree>, group: Tree, b: Seq<Tree>, p: Id, node: Tree)
    requires
        edited_tree(group, add_child(p, node)) is Some,
        !has_group(a, p),
    ensures
        edited(a + seq![group] + b, add_child(p, node)) == Some(
            a + seq![edited_tree(group, add_child(p, node))->0] + b,
        ),
    decreases a.len(),
{
    let edit = add_child(p, node);
    let f = a + seq![group] + b;
    let g = edited_tree(group, edit)->0;
    if a.len() == 0 {
        assert(f[0] == group);
        assert(f.update(0, g) =~= a + seq![g] + b);
    } else {
        let rest = a.drop_first();
        assert(f[0] == a[0]);
        assert(f.drop_first() =~= rest + seq![group] + b);
        lemma_group_in_parts(a, p);
        if let Tree::Group { children, .. } = a[0] {
            lemma_add_child_applies(children, p, node);
        }
        assert(edited_tree(a[0], edit) is None);
        lemma_edited_after(rest, group, b, p, node);
        assert(seq![f[0]] + (rest + seq![g] + b) =~= a + seq![g] + b);
    }
}

/// A node that is put into a group stands behind the group's other children, and nothing else
/// changes.
pub proof fn law_insert_appends_to_the_group(a: Seq<Tree>, group: Tree, b: Seq<Tree>, node: Tree)
    requires
        group is Group,
        !has_group(a, group.id()),
    ensures
        inserted(a + seq![group] + b, Some(group.id()), node) == a + seq![
            Tree::Group {
                id: group->id,
                name: group->name,
                children: group->children.push(node),
                expanded: group->expanded,
            },
        ] + b,
{
    lemma_edited_after(a, group, b, group.id(), node);
}

/// A node that is put into a group further down changes what is above only there.
pub proof fn law_insert_reaches_inside(
    a: Seq<Tree>,
    group: Tree,
    b: Seq<Tree>,
    p: Id,
    node: Tree,
)
    requires
        group is Group,
        group.id() != p,
        has_group(group.children(), p),
        !has_group(a, p),
    ensures
        inserted(a + seq![group] + b, Some(p), node) == a + seq![
            Tree::Group {
                id: group->id,
                name: group->name,
                children: inserted(group->children, Some(p), node),
                expanded: group->expanded,
            },
        ] + b,
{
    lemma_add_child_applies(group.children(), p, node);
    lemma_edited_after(a, group, b, p, node);
}

/// A node that is put into no group stands at the end of the top level, and nothing else
/// changes.
pub proof fn law_insert_goes_to_the_end(f: Seq<Tree>, p: Option<Id>, node: Tree)
    requires
        p matches Some(group) ==> !has_group(f, group),
    ensures
        inserted(f, p, node) == f + seq![node],
{
    if let Some(group) = p {
        lemma_add_child_applies(f, group, node);
    }
    assert(f.push(node) =~= f + seq![node]);
}

// ---- moving ----

/// Where no id occurs twice: after a node of the tree was moved to the top level, or to a group
/// of the tree that is not inside it, that is where it is. It is the node that it was, and the
/// tree without it is what it was. The move counts as done exactly where the node was somewhere
/// else.
pub proof fn law_move_ends_where_asked(library: LibrarySpec, node: Id, new_parent: Option<Id>)
    requires
        unique_ids(library.roots),
        holds_id(library.roots, node),
        new_parent matches Some(group) ==> has_group(library.roots, group) && !library.is_ancestor(
            node,
            group,
        ),
    ensures
        ({
            let after = match library.moved(node, new_parent) {
                Some(roots) => roots,
                None => library.roots,
            };
            &&& parent(after, node) == new_parent
            &&& found(after, node) == found(library.roots, node)
            &&& removed(after, node) == removed(library.roots, node)
            &&& bag(after) == bag(library.roots)
            &&& unique_ids(after)
            &&& library.moved(node, new_parent) is Some <==> parent(library.roots, node)
                != new_parent
        }),
{
    let f = library.roots;
    law_remove_takes(f, node);
    law_move_reparents(library, node, new_parent);
    law_move_keeps_everything(library, node, new_parent);
    if parent(f, node) != new_parent {
        let (rest, t) = removed(f, node)->0;
        law_remove_keeps_ids_unique(f, node);
        law_find_unique(f, t);
        let roots = inserted(rest, new_parent, t);
        law_remove_undoes_insert(rest, new_parent, t);
        lemma_removed_groups(library, node, new_parent);
        assert(parent(roots, node) == new_parent);
        assert(library.moved(node, new_parent) == Some(roots));
    }
}

/// The group that got a child has it as its last.
proof fn lemma_added_is_last(f: Seq<Tree>, p: Id, node: Tree)
    ensures
        edited(f, add_child(p, node)) matches Some(g) ==> exists|k: int|
            0 <= k < preorder(g).len() && #[trigger] is_group(preorder(g)[k], p)
                && preorder(g)[k].children().len() > 0 && preorder(g)[k].children().last() == node,
    decreases f,
{
    let edit = add_child(p, node);
    if f.len() > 0 {
        if let Some(g) = edited(f, edit) {
            let all = preorder(g);
            let inner = preorder(g[0].children());
            let tail = preorder(g.drop_first());
            assert(inner == below(g[0]));
            assert(all[0] == g[0]);
            if edit(f[0]) is Some {
                assert(is_group(all[0], p));
            } else if edited_tree(f[0], edit) is Some {
                lemma_added_is_last(f[0].children(), p, node);
                let k = choose|k: int|
                    0 <= k < inner.len() && #[trigger] is_group(inner[k], p)
                        && inner[k].children().len() > 0 && inner[k].children().last() == node;
                assert(all[k + 1] == inner[k]);
                assert(is_group(all[k + 1], p));
            } else {
                lemma_added_is_last(f.drop_first(), p, node);
                assert(g.drop_first() =~= edited(f.drop_first(), edit)->0);
                let k = choose|k: int|
                    0 <= k < tail.len() && #[trigger] is_group(tail[k], p)
                        && tail[k].children().len() > 0 && tail[k].children().last() == node;
                assert(all[k + 1 + inner.len()] == tail[k]);
                assert(is_group(all[k + 1 + inner.len()], p));
            }
        }
    }
}

/// Where no id occurs twice, a node that was moved is the last of its group, or the last of all
/// at the top level.
pub proof fn law_moved_node_is_last(library: LibrarySpec, node: Id, new_parent: Option<Id>)
    requires
        unique_ids(library.roots),
    ensures
        library.moved(node, new_parent) matches Some(roots) ==> match parent(roots, node) {
            Some(group) => {
                &&& found(roots, group) matches Some(t)
                &&& t.children().len() > 0
                &&& t.children().last().id() == node
            },
            None => roots.len() > 0 && roots.last().id() == node,
        },
{
    if let Some(roots) = library.moved(node, new_parent) {
        let f = library.roots;
        law_remove_takes(f, node);
        law_move_reparents(library, node, new_parent);
        let (rest, t) = removed(f, node)->0;
        if let Some(group) = parent(roots, node) {
            assert(new_parent == Some(group));
            lemma_added_is_last(rest, group, t);
            law_remove_keeps_ids_unique(f, node);
            if edited(rest, add_child(group, t)) is None {
                lemma_add_child_applies(rest, group, t);
                lemma_at_top(rest, group, t);
            }
            let k = choose|k: int|
                0 <= k < preorder(roots).len() && #[trigger] is_group(preorder(roots)[k], group)
                    && preorder(roots)[k].children().len() > 0
                    && preorder(roots)[k].children().last() == t;
            assert(preorder(roots).contains(preorder(roots)[k]));
            law_find_unique(roots, preorder(roots)[k]);
        } else if let Some(group) = new_parent {
            assert(!has_group(f, group));
            lemma_added_is_last(rest, group, t);
            if edited(rest, add_child(group, t)) is Some {
                let k = choose|k: int|
                    0 <= k < preorder(roots).len() && #[trigger] is_group(preorder(roots)[k], group)
                        && preorder(roots)[k].children().len() > 0
                        && preorder(roots)[k].children().last() == t;
                assert(preorder(roots).contains(preorder(roots)[k]));
                assert(preorder(roots)[k].children()[preorder(roots)[k].children().len() - 1] == t);
                law_parent_is_the_group_above(roots, preorder(roots)[k], t);
            }
        }
    }
}

/// A node at the top level is in no group.
proof fn lemma_at_top(rest: Seq<Tree>, group: Id, t: Tree)
    requires
        unique_ids(inserted(rest, Some(group), t)),
        edited(rest, add_child(group, t)) is None,
    ensures
        parent(inserted(rest, Some(group), t), t.id()) is None,
{
    let roots = inserted(rest, Some(group), t);
    assert(roots[rest.len() as int] == t);
    law_top_level_has_no_parent(roots, t.id());
}

// ---- editing in place ----

/// Whether an edit applies to a node or to something below it.
pub open spec fn applies(t: Tree, edit: spec_fn(Tree) -> Option<Tree>) -> bool {
    exists|k: int|
        0 <= k < preorder(seq![t]).len() && edit(#[trigger] preorder(seq![t])[k]) is Some
}

proof fn lemma_applies(f: Seq<Tree>, edit: spec_fn(Tree) -> Option<Tree>)
    requires
        edited(f, edit) is Some,
    ensures
        exists|k: int| 0 <= k < preorder(f).len() && edit(#[trigger] preorder(f)[k]) is Some,
    decreases f,
{
    if f.len() > 0 {
        let all = preorder(f);
        let inner = preorder(f[0].children());
        let tail = preorder(f.drop_first());
        assert(inner == below(f[0]));
        assert(all[0] == f[0]);
        if edit(f[0]) is Some {
            assert(edit(all[0]) is Some);
        } else if edited_tree(f[0], edit) is Some {
            lemma_applies(f[0].children(), edit);
            let k = choose|k: int| 0 <= k < inner.len() && edit(#[trigger] inner[k]) is Some;
            assert(all[k + 1] == inner[k]);
        } else {
            lemma_applies(f.drop_first(), edit);
            let k = choose|k: int| 0 <= k < tail.len() && edit(#[trigger] tail[k]) is Some;
            assert(all[k + 1 + inner.len()] == tail[k]);
        }
    }
}

/// An edit leaves every node where it is: where it applies to nothing before a node, it changes
/// that node in its place, or what is below the node and nothing else.
pub proof fn law_edits_happen_in_place(
    a: Seq<Tree>,
    t: Tree,
    b: Seq<Tree>,
    edit: spec_fn(Tree) -> Option<Tree>,
)
    requires
        forall|i: int| 0 <= i < a.len() ==> !applies(#[trigger] a[i], edit),
    ensures
        edit(t) matches Some(u) ==> edited(a + seq![t] + b, edit) == Some(a + seq![u] + b),
        edit(t) is None && t is Group ==> (edited(t->children, edit) matches Some(children)
            ==> edited(a + seq![t] + b, edit) == Some(
            a + seq![
                Tree::Group { id: t->id, name: t->name, children, expanded: t->expanded },
            ] + b,
        )),
{
    let f = a + seq![t] + b;
    let n = a.len() as int;
    assert forall|j: int| 0 <= j < n implies edited_tree(#[trigger] f[j], edit) is None by {
        assert(f[j] == a[j]);
        if edited_tree(a[j], edit) is Some {
            let one = seq![a[j]];
            assert(edited(one, edit) is Some);
            lemma_applies(one, edit);
            let k = choose|k: int| 0 <= k < preorder(one).len() && edit(#[trigger] preorder(one)[k]) is Some;
            assert(applies(a[j], edit));
        }
    }
    lemma_edited_at(f, n, edit);
    assert(f[n] == t);
    if let Some(u) = edited_tree(t, edit) {
        assert(f.update(n, u) =~= a + seq![u] + b);
    }
}

} // verus!

//! What dragging, adding, editing, renaming and deleting do to the tree.

use vstd::prelude::*;

use crate::connection::{ConnectionSpec, Transport};
use crate::forms::{did, FieldsSpec, RowOutcome};
use crate::grid::GridSpec;
use crate::grid_laws::lemma_view_index_is_first;
use crate::id::Id;
use crate::library::{view_index, LibrarySpec};
use crate::shape_laws::{
    law_ancestors_are_above, law_move_ends_where_asked, law_walk_reaches_everything,
};
use crate::sidebar::RowAction;
use crate::text::trimmed;
use crate::tree::{
    first_match, found, has_child, holds_id, inserted, parent, preorder, removed, Tree,
};
use crate::tree_laws::{
    bag, has_group, ids, is_group, is_stream, law_find, law_find_unique,
    law_insert_keeps_ids_unique, law_insert_places, law_remove_keeps_ids_unique, law_remove_takes,
    law_remove_undoes_insert, law_rename_changes_one_name, law_set_expanded_changes_one_group,
    law_update_changes_one_connection, lemma_first_match, shell_id, shells, unique_ids, Shell,
};
use crate::window::{AppSpec, Form, FormTarget};

verus! {

// ---- dragging ----

/// What has a parent is below a group.
proof fn lemma_parent_is_a_group(f: Seq<Tree>, child: Id)
    ensures
        parent(f, child) matches Some(p) ==> has_group(f, p) && exists|t: Tree, c: Tree|
            #![trigger preorder(f).contains(t), t.children().contains(c)]
            preorder(f).contains(t) && t.id() == p && t.children().contains(c) && c.id() == child,
{
    lemma_first_match(preorder(f), has_child(child));
    if let Some(t) = first_match(preorder(f), has_child(child)) {
        let k = choose|k: int| 0 <= k < preorder(f).len() && preorder(f)[k] == t;
        let i = choose|i: int| 0 <= i < t.children().len() && (#[trigger] t.children()[i]).id() == child;
        assert(t is Group);
        assert(is_group(preorder(f)[k], t.id()));
        assert(t.children().contains(t.children()[i]));
        assert(preorder(f).contains(t));
    }
}

/// What does not contain a node does not contain the group that the node is in.
proof fn lemma_not_above_the_parent(library: LibrarySpec, dragged: Id, target: Id)
    requires
        unique_ids(library.roots),
        holds_id(library.roots, dragged),
        !library.is_ancestor(dragged, target),
    ensures
        parent(library.roots, target) matches Some(p) ==> !library.is_ancestor(dragged, p),
{
    let f = library.roots;
    law_find(f, dragged);
    let d = found(f, dragged)->0;
    lemma_parent_is_a_group(f, target);
    if let Some(p) = parent(f, target) {
        if library.is_ancestor(dragged, p) {
            let (t, c) = choose|t: Tree, c: Tree|
                #![trigger preorder(f).contains(t), t.children().contains(c)]
                preorder(f).contains(t) && t.id() == p && t.children().contains(c) && c.id() == target;
            law_ancestors_are_above(library, d, p);
            law_ancestors_are_above(library, d, target);
            law_find_unique(f, t);
            if p == dragged {
                law_walk_reaches_everything(d.children(), d, c);
                let k = choose|k: int|
                    0 <= k < preorder(d.children()).len() && preorder(d.children())[k] == c;
                assert(preorder(d.children())[k].id() == target);
            } else {
                let inner = preorder(d.children());
                let k = choose|k: int| 0 <= k < inner.len() && (#[trigger] inner[k]).id() == p;
                let u = inner[k];
                assert(inner.contains(u));
                lemma_below_is_inside(f, d, u);
                law_find_unique(f, u);
                assert(u == t);
                law_walk_reaches_everything(d.children(), u, c);
                let m = choose|m: int| 0 <= m < inner.len() && inner[m] == c;
                assert(inner[m].id() == target);
            }
        }
    }
}

/// What is below a node of the tree is in the tree.
pub(crate) proof fn lemma_below_is_inside(f: Seq<Tree>, d: Tree, u: Tree)
    requires
        preorder(f).contains(d),
        preorder(d.children()).contains(u),
    ensures
        preorder(f).contains(u),
{
    lemma_list_is_inside(f, d.children(), u, d);
}

proof fn lemma_list_is_inside(f: Seq<Tree>, list: Seq<Tree>, u: Tree, d: Tree)
    requires
        preorder(f).contains(d),
        forall|i: int| 0 <= i < list.len() ==> d.children().contains(#[trigger] list[i]),
        preorder(list).contains(u),
    ensures
        preorder(f).contains(u),
    decreases list,
{
    if list.len() > 0 {
        let tail = list.drop_first();
        let head = list[0];
        law_walk_reaches_everything(f, d, head);
        let all = preorder(list);
        let inner = preorder(head.children());
        assert(inner == crate::walk::below(head));
        let k = choose|k: int| 0 <= k < all.len() && all[k] == u;
        if k == 0 {
            assert(u == head);
        } else if k <= inner.len() {
            assert(inner[k - 1] == u);
            assert forall|i: int| 0 <= i < head.children().len() implies head.children().contains(
                #[trigger] head.children()[i],
            ) by {}
            lemma_list_is_inside(f, head.children(), u, head);
        } else {
            assert(preorder(tail)[k - 1 - inner.len()] == u);
            assert forall|i: int| 0 <= i < tail.len() implies d.children().contains(
                #[trigger] tail[i],
            ) by {
                assert(tail[i] == list[i + 1]);
            }
            lemma_list_is_inside(f, tail, u, d);
        }
    }
}

/// Where no id occurs twice: after a node is dropped onto a connection that it does not hold, it
/// is where that connection is, in the same group or at the top level. Everything is still in
/// the tree; the library is written and the tree drawn anew exactly where the node was somewhere
/// else before.
pub proof fn law_drop_lands_alongside(app: AppSpec, dragged: Id, target: Id)
    requires
        unique_ids(app.library.roots),
        app.library.connection(target) is Some,
        holds_id(app.library.roots, dragged),
        !app.library.is_ancestor(dragged, target),
    ensures
        ({
            let before = app.library.roots;
            let change = app.dropped_onto(dragged, target);
            let after = change.app.library.roots;
            &&& parent(after, dragged) == parent(before, target)
            &&& found(after, dragged) == found(before, dragged)
            &&& removed(after, dragged) == removed(before, dragged)
            &&& bag(after) == bag(before)
            &&& change.effects.save == (parent(before, dragged) != parent(before, target))
            &&& change.effects.rebuild == change.effects.save
        }),
{
    let f = app.library.roots;
    lemma_parent_is_a_group(f, target);
    lemma_not_above_the_parent(app.library, dragged, target);
    law_move_ends_where_asked(app.library, dragged, parent(f, target));
}

/// Where no id occurs twice: after a node is dropped onto a group that is not inside it, it is
/// in that group. Everything is still in the tree; the library is written and the tree drawn
/// anew exactly where the node was somewhere else before.
pub proof fn law_drop_goes_into_the_group(app: AppSpec, dragged: Id, target: Id)
    requires
        unique_ids(app.library.roots),
        has_group(app.library.roots, target),
        holds_id(app.library.roots, dragged),
        !app.library.is_ancestor(dragged, target),
    ensures
        ({
            let before = app.library.roots;
            let change = app.dropped_onto(dragged, target);
            let after = change.app.library.roots;
            &&& parent(after, dragged) == Some(target)
            &&& found(after, dragged) == found(before, dragged)
            &&& removed(after, dragged) == removed(before, dragged)
            &&& bag(after) == bag(before)
            &&& change.effects.save == (parent(before, dragged) != Some(target))
            &&& change.effects.rebuild == change.effects.save
        }),
{
    let f = app.library.roots;
    let k = choose|k: int| 0 <= k < preorder(f).len() && #[trigger] is_group(preorder(f)[k], target);
    assert(preorder(f).contains(preorder(f)[k]));
    law_find_unique(f, preorder(f)[k]);
    law_move_ends_where_asked(app.library, dragged, Some(target));
}

/// Where no id occurs twice: dragging a node to the empty space below the rows brings it to the
/// top level, with everything still in the tree.
pub proof fn law_drag_out_reaches_the_top(app: AppSpec, dragged: Id)
    requires
        unique_ids(app.library.roots),
        holds_id(app.library.roots, dragged),
    ensures
        ({
            let change = app.moved_node(dragged, None);
            let after = change.app.library.roots;
            &&& parent(after, dragged) is None
            &&& found(after, dragged) == found(app.library.roots, dragged)
            &&& removed(after, dragged) == removed(app.library.roots, dragged)
            &&& change.effects.save == (parent(app.library.roots, dragged) is Some)
            &&& change.effects.rebuild == change.effects.save
        }),
{
    law_move_ends_where_asked(app.library, dragged, None);
}

/// A node cannot be dropped onto what it holds, nor onto what is not there: nothing changes.
pub proof fn law_drop_inside_itself_does_nothing(app: AppSpec, dragged: Id, target: Id)
    ensures
        found(app.library.roots, target) is None ==> app.dropped_onto(dragged, target)
            == app.same(),
        has_group(app.library.roots, target) && unique_ids(app.library.roots)
            && app.library.is_ancestor(dragged, target) ==> app.dropped_onto(dragged, target)
            == app.same(),
{
    let f = app.library.roots;
    if has_group(f, target) && unique_ids(f) {
        let k = choose|k: int|
            0 <= k < preorder(f).len() && #[trigger] is_group(preorder(f)[k], target);
        assert(preorder(f).contains(preorder(f)[k]));
        law_find_unique(f, preorder(f)[k]);
    }
}

// ---- connections by their id ----

/// Where no id occurs twice, a connection is known by its id exactly where the tree has it.
proof fn lemma_connection_by_shell(library: LibrarySpec, c: ConnectionSpec)
    requires
        unique_ids(library.roots),
    ensures
        library.connection(c.id) == Some(c) <==> shells(library.roots).contains(Shell::Stream(c)),
{
    let f = library.roots;
    law_find(f, c.id);
    if library.connection(c.id) == Some(c) {
        let k = choose|k: int| 0 <= k < preorder(f).len() && preorder(f)[k] == Tree::Stream(c);
        assert(shells(f)[k] == Shell::Stream(c));
    }
    if shells(f).contains(Shell::Stream(c)) {
        let k = choose|k: int| 0 <= k < shells(f).len() && shells(f)[k] == Shell::Stream(c);
        assert(preorder(f)[k] == Tree::Stream(c));
        assert(preorder(f).contains(preorder(f)[k]));
        law_find_unique(f, preorder(f)[k]);
    }
}

/// A list of nodes in which one was replaced by another with the same id keeps its ids.
proof fn lemma_update_keeps_ids(before: Seq<Tree>, after: Seq<Tree>, k: int, s: Shell)
    requires
        unique_ids(before),
        0 <= k < shells(before).len(),
        shell_id(s) == preorder(before)[k].id(),
        shells(after) == shells(before).update(k, s),
    ensures
        unique_ids(after),
        ids(after) == ids(before),
{
    assert(shells(after).len() == preorder(after).len());
    assert forall|i: int| 0 <= i < ids(after).len() implies ids(after)[i] == ids(before)[i] by {
        assert(shell_id(shells(after)[i]) == preorder(after)[i].id());
        assert(shell_id(shells(before)[i]) == preorder(before)[i].id());
    }
    assert(ids(after) =~= ids(before));
}

/// The name of a saved connection: what was typed without the white space around it, or the URL
/// where that is nothing.
pub open spec fn typed_name(fields: FieldsSpec, name: Seq<char>) -> bool {
    if trimmed(fields.name).len() > 0 {
        name == trimmed(fields.name)
    } else {
        name == trimmed(fields.url)
    }
}

/// Whether a connection is what the sheet says: every text as it was typed, without the white
/// space around all but the password, the optional ones missing where they are empty, and the
/// transport that was chosen.
pub open spec fn says_the_sheet(c: ConnectionSpec, form: Form, fields: FieldsSpec) -> bool {
    &&& c.url == trimmed(fields.url)
    &&& typed_name(fields, c.name)
    &&& c.username is Some <==> trimmed(fields.username).len() > 0
    &&& c.username matches Some(user) ==> user == trimmed(fields.username)
    &&& c.password is Some <==> fields.password.len() > 0
    &&& c.password matches Some(password) ==> password == fields.password
    &&& c.transport == form.transport
}

/// Where no id occurs twice: saving the sheet of a connection makes the connection what the
/// sheet says, under its old id and in its old place, leaves every other connection as it is,
/// closes the sheet, and writes the library.
pub proof fn law_saved_sheet_is_kept(app: AppSpec, fields: FieldsSpec, fresh: Id, id: Id)
    requires
        unique_ids(app.library.roots),
        app.form is Some,
        app.form->0.target == FormTarget::Connection,
        app.form->0.editing == Some(id),
        app.library.connection(id) is Some,
        trimmed(fields.url).len() > 0,
    ensures
        ({
            let change = app.submitted_form(fields, fresh);
            let after = change.app.library;
            &&& after.connection(id) matches Some(c)
            &&& c.id == id
            &&& says_the_sheet(c, app.form->0, fields)
            &&& forall|other: Id|
                other != id ==> #[trigger] after.connection(other) == app.library.connection(other)
            &&& ids(after.roots) == ids(app.library.roots)
            &&& unique_ids(after.roots)
            &&& change.app.form is None
            &&& change.app.error is None
            &&& change.app.selected == app.selected
            &&& change.effects.save
            &&& change.effects.rebuild
        }),
{
    let form = app.form->0;
    let f = app.library.roots;
    law_find(f, id);
    let c = fields.connection(app.edited_id(form.editing, fresh), form.transport);
    assert(c.id == id);
    let old = app.library.connection(id)->0;
    let m = choose|m: int| 0 <= m < preorder(f).len() && preorder(f)[m] == Tree::Stream(old);
    assert(is_stream(preorder(f)[m], c.id));
    law_update_changes_one_connection(f, c);
    let edit = crate::tree::replace_stream(c);
    let g = crate::tree::edited_or_same(f, edit);
    let k = choose|k: int| #[trigger]
        crate::tree_laws::edit_index(f, edit, k) && is_stream(preorder(f)[k], c.id) && shells(g)
            == shells(f).update(k, Shell::Stream(c));
    lemma_update_keeps_ids(f, g, k, Shell::Stream(c));
    let after = app.submitted_form(fields, fresh).app.library;
    assert(after.roots == g);
    assert(shells(g)[k] == Shell::Stream(c));
    lemma_connection_by_shell(after, c);
    assert forall|other: Id| other != id implies #[trigger] after.connection(other)
        == app.library.connection(other) by {
        law_find(f, other);
        law_find(g, other);
        if let Some(d) = app.library.connection(other) {
            lemma_connection_by_shell(app.library, d);
            let i = choose|i: int| 0 <= i < shells(f).len() && shells(f)[i] == Shell::Stream(d);
            assert(shell_id(shells(f)[k]) == preorder(f)[k].id());
            assert(i != k);
            assert(shells(g)[i] == Shell::Stream(d));
            lemma_connection_by_shell(after, d);
        }
        if let Some(d) = after.connection(other) {
            lemma_connection_by_shell(after, d);
            let i = choose|i: int| 0 <= i < shells(g).len() && shells(g)[i] == Shell::Stream(d);
            assert(i != k);
            assert(shells(f)[i] == Shell::Stream(d));
            lemma_connection_by_shell(app.library, d);
        }
    }
}

/// Where no id occurs twice: saving the sheet of a new connection puts one into the tree that is
/// what the sheet says, in the group that the sheet was opened for or at the top level where
/// there is no such group. It is selected, nothing else in the tree changes, the sheet closes,
/// and the library is written.
pub proof fn law_new_connection_is_added(app: AppSpec, fields: FieldsSpec, fresh: Id)
    requires
        unique_ids(app.library.roots),
        !holds_id(app.library.roots, fresh),
        app.form is Some,
        app.form->0.target == FormTarget::Connection,
        app.form->0.editing is None,
        trimmed(fields.url).len() > 0,
    ensures
        ({
            let change = app.submitted_form(fields, fresh);
            let after = change.app.library;
            &&& after.connection(fresh) matches Some(c)
            &&& c.id == fresh
            &&& says_the_sheet(c, app.form->0, fields)
            &&& parent(after.roots, fresh) == (match app.form->0.parent {
                Some(group) if has_group(app.library.roots, group) => Some(group),
                _ => None,
            })
            &&& removed(after.roots, fresh) matches Some((rest, _)) && rest == app.library.roots
            &&& change.app.selected == Some(fresh)
            &&& change.app.form is None
            &&& change.app.error is None
            &&& change.effects.save
            &&& change.effects.rebuild
        }),
{
    let form = app.form->0;
    let f = app.library.roots;
    let c = fields.connection(fresh, form.transport);
    let node = Tree::Stream(c);
    let g = inserted(f, form.parent, node);
    lemma_single(node);
    law_remove_undoes_insert(f, form.parent, node);
    law_insert_places(f, form.parent, node);
    assert forall|id: Id| #[trigger] holds_id(f, id) implies !holds_id(seq![node], id) by {}
    law_insert_keeps_ids_unique(f, form.parent, node);
    law_remove_takes(g, fresh);
    law_find_unique(g, node);
}

/// A node without anything below it.
proof fn lemma_single(node: Tree)
    requires
        node.children().len() == 0,
    ensures
        unique_ids(seq![node]),
        forall|id: Id| #[trigger] holds_id(seq![node], id) <==> id == node.id(),
        !holds_id(node.children(), node.id()),
{
    crate::walk::lemma_preorder_single(node);
    assert(node.children() =~= Seq::<Tree>::empty());
    assert(crate::walk::below(node) =~= Seq::<Tree>::empty());
    assert(preorder(seq![node]) =~= seq![node]);
    assert forall|id: Id| #[trigger] holds_id(seq![node], id) <==> id == node.id() by {
        if id == node.id() {
            assert(preorder(seq![node])[0].id() == id);
        }
    }
}

/// Without a URL nothing is saved: the sheet stays open, says why, and the library is as it was.
pub proof fn law_blank_url_saves_nothing(app: AppSpec, fields: FieldsSpec, fresh: Id)
    requires
        app.form is Some,
        app.form->0.target == FormTarget::Connection,
        trimmed(fields.url).len() == 0,
    ensures
        ({
            let change = app.submitted_form(fields, fresh);
            &&& change.app.library == app.library
            &&& change.app.form == app.form
            &&& change.app.selected == app.selected
            &&& change.app.error == Some("A stream needs a URL."@)
            &&& !change.effects.save
            &&& !change.effects.rebuild
        }),
{
}

/// The sheet of a connection opens with what the connection is, and that of a new one with the
/// start of a URL, over TCP, for the group that new items go into.
pub proof fn law_sheet_opens_with_the_connection(app: AppSpec, c: ConnectionSpec)
    ensures
        ({
            let fields = FieldsSpec::of_connection(Some(c));
            let form = app.opened_form(Some(c)).form;
            &&& fields.name == c.name
            &&& fields.url == c.url
            &&& match c.username {
                Some(user) => fields.username == user,
                None => fields.username.len() == 0,
            }
            &&& match c.password {
                Some(password) => fields.password == password,
                None => fields.password.len() == 0,
            }
            &&& form matches Some(f)
            &&& f.editing == Some(c.id)
            &&& f.transport == c.transport
            &&& f.target == FormTarget::Connection
        }),
        ({
            let fields = FieldsSpec::of_connection(None);
            let form = app.opened_form(None).form;
            &&& fields.name.len() == 0
            &&& fields.url == "rtsp://"@
            &&& fields.username.len() == 0
            &&& fields.password.len() == 0
            &&& form matches Some(f)
            &&& f.editing is None
            &&& f.transport == Transport::Tcp
            &&& f.target == FormTarget::Connection
            &&& f.parent == app.target_group()
        }),
        app.opened_form(Some(c)).library == app.library,
        app.opened_form(None).library == app.library,
{
}

/// Opening the sheet of a connection and saving it as it is leaves the connection as it is,
/// where its texts have no white space around them and none that is optional is empty.
pub proof fn law_sheet_goes_round(app: AppSpec, c: ConnectionSpec, fresh: Id)
    requires
        unique_ids(app.library.roots),
        app.library.connection(c.id) == Some(c),
        trimmed(c.name) == c.name,
        c.name.len() > 0,
        trimmed(c.url) == c.url,
        c.url.len() > 0,
        c.username matches Some(user) ==> trimmed(user) == user && user.len() > 0,
        c.password matches Some(password) ==> password.len() > 0,
    ensures
        app.opened_form(Some(c)).submitted_form(
            FieldsSpec::of_connection(Some(c)),
            fresh,
        ).app.library.connection(c.id) == Some(c),
{
    let fields = FieldsSpec::of_connection(Some(c));
    law_saved_sheet_is_kept(app.opened_form(Some(c)), fields, fresh, c.id);
    assert(trimmed(Seq::<char>::empty()) =~= Seq::<char>::empty());
    let kept = app.opened_form(Some(c)).submitted_form(fields, fresh).app.library.connection(
        c.id,
    )->0;
    assert(kept =~= c);
}

// ---- groups ----

/// Where no id occurs twice: saving the sheet of a group gives the group the name that was
/// typed, without the white space around it, and changes nothing else in the tree. A blank name
/// changes nothing at all, and nothing is written then.
pub proof fn law_sheet_renames_the_group(app: AppSpec, fields: FieldsSpec, fresh: Id, id: Id)
    requires
        unique_ids(app.library.roots),
        app.form is Some,
        app.form->0.target == FormTarget::Group,
        app.form->0.editing == Some(id),
        has_group(app.library.roots, id),
    ensures
        ({
            let before = app.library.roots;
            let change = app.submitted_form(fields, fresh);
            let after = change.app.library.roots;
            let name = trimmed(fields.name);
            &&& name.len() > 0 ==> {
                &&& exists|k: int|
                    0 <= k < shells(before).len() && shells(before)[k] == (#[trigger] named(
                        before,
                        k,
                        id,
                        preorder(before)[k].name(),
                    )) && shells(after) == shells(before).update(k, named(before, k, id, name))
                &&& change.effects.save
            }
            &&& name.len() == 0 ==> after == before && !change.effects.save
            &&& change.effects.rebuild
            &&& change.app.form is None
            &&& change.app.error is None
        }),
{
    let f = app.library.roots;
    let name = trimmed(fields.name);
    if name.len() > 0 {
        law_rename_changes_one_name(f, id, name);
        let edit = crate::tree::rename(id, name);
        let g = crate::tree::edited_or_same(f, edit);
        let k = choose|k: int| #[trigger]
            crate::tree_laws::edit_index(f, edit, k) && is_group(preorder(f)[k], id) && shells(g)
                == shells(f).update(
                k,
                Shell::Group { id, name, expanded: preorder(f)[k]->expanded },
            );
        assert(shells(f)[k] == named(f, k, id, preorder(f)[k].name()));
    }
}

/// The group at a place of the tree, under that id and name, as open or closed as it is.
pub open spec fn named(f: Seq<Tree>, k: int, id: Id, name: Seq<char>) -> Shell {
    Shell::Group { id, name, expanded: preorder(f)[k]->expanded }
}

/// Where no id occurs twice, a new group is empty, unfolded and called `New group`, it is
/// selected, and it is where the selection asks for it: inside the selected group, beside the
/// selected connection, and at the top level without a selection. Nothing else in the tree
/// changes.
pub proof fn law_new_group_goes_into_the_selection(app: AppSpec, fresh: Id)
    requires
        unique_ids(app.library.roots),
        !holds_id(app.library.roots, fresh),
    ensures
        ({
            let f = app.library.roots;
            let change = app.added_group(fresh);
            let after = change.app.library.roots;
            &&& found(after, fresh) == Some(
                Tree::Group {
                    id: fresh,
                    name: "New group"@,
                    children: Seq::empty(),
                    expanded: true,
                },
            )
            &&& match app.selected {
                Some(s) => {
                    &&& has_group(f, s) ==> parent(after, fresh) == Some(s)
                    &&& app.library.connection(s) is Some ==> parent(after, fresh) == parent(f, s)
                    &&& !holds_id(f, s) ==> parent(after, fresh) is None
                },
                None => parent(after, fresh) is None,
            }
            &&& removed(after, fresh) matches Some((rest, _)) && rest == f
            &&& change.app.selected == Some(fresh)
            &&& change.effects.save
            &&& change.effects.rebuild
        }),
{
    let f = app.library.roots;
    let node = Tree::Group {
        id: fresh,
        name: "New group"@,
        children: Seq::empty(),
        expanded: true,
    };
    let p = app.target_group();
    let g = inserted(f, p, node);
    lemma_single(node);
    law_remove_undoes_insert(f, p, node);
    law_insert_places(f, p, node);
    assert forall|id: Id| #[trigger] holds_id(f, id) implies !holds_id(seq![node], id) by {}
    law_insert_keeps_ids_unique(f, p, node);
    law_remove_takes(g, fresh);
    law_find_unique(g, node);
    if let Some(s) = app.selected {
        law_find(f, s);
        lemma_parent_is_a_group(f, s);
        if has_group(f, s) {
            let k = choose|k: int| 0 <= k < preorder(f).len() && #[trigger] is_group(preorder(f)[k], s);
            assert(preorder(f).contains(preorder(f)[k]));
            law_find_unique(f, preorder(f)[k]);
        }
    }
}

/// New items go into the selected group, beside the selected connection, and to the top level
/// without a selection.
pub proof fn law_new_items_follow_the_selection(app: AppSpec)
    requires
        unique_ids(app.library.roots),
    ensures
        match app.selected {
            Some(s) => {
                &&& has_group(app.library.roots, s) ==> app.target_group() == Some(s)
                &&& app.library.connection(s) is Some ==> app.target_group() == parent(
                    app.library.roots,
                    s,
                )
                &&& !holds_id(app.library.roots, s) ==> app.target_group() is None
            },
            None => app.target_group() is None,
        },
{
    let f = app.library.roots;
    if let Some(s) = app.selected {
        law_find(f, s);
        if has_group(f, s) {
            let k = choose|k: int| 0 <= k < preorder(f).len() && #[trigger] is_group(preorder(f)[k], s);
            assert(preorder(f).contains(preorder(f)[k]));
            law_find_unique(f, preorder(f)[k]);
        }
    }
}

/// Where no id occurs twice: deleting takes the selected node out of the tree with all that is
/// below it and nothing else, nothing is selected then, and the library is written.
pub proof fn law_delete_takes_the_selection(app: AppSpec, id: Id)
    requires
        unique_ids(app.library.roots),
        app.selected == Some(id),
        holds_id(app.library.roots, id),
    ensures
        ({
            let before = app.library.roots;
            let change = app.deleted_selected();
            let after = change.app.library.roots;
            &&& found(before, id) matches Some(t)
            &&& bag(before) == bag(after).add(bag(seq![t]))
            &&& !holds_id(after, id)
            &&& unique_ids(after)
            &&& change.app.selected is None
            &&& change.effects.save
            &&& change.effects.rebuild
        }),
{
    let f = app.library.roots;
    law_remove_takes(f, id);
    law_remove_keeps_ids_unique(f, id);
    let (rest, t) = removed(f, id)->0;
    law_find_unique(f, t);
    let start = AppSpec { selected: None, ..app };
    lemma_closed_each_keeps(start, start.open_under(id));
}

/// Closing streams keeps the tree, the walls and the settings.
pub(crate) proof fn lemma_closed_each_keeps(app: AppSpec, gone: Seq<Id>)
    ensures
        ({
            let after = app.closed_each(gone).app;
            &&& after.library == (LibrarySpec { open: after.library.open, ..app.library })
            &&& after.selected == app.selected
            &&& after.form == app.form
            &&& after.hovered_tile == app.hovered_tile
            &&& after.error == app.error
            &&& after.draft is Some <==> app.draft is Some
        }),
    decreases gone.len(),
{
    if gone.len() > 0 {
        lemma_closed_each_keeps(app, gone.drop_last());
    }
}

// ---- folding ----

/// Where no id occurs twice: a click selects the row, and one on a group folds it where it is
/// unfolded and unfolds it where it is folded, changing nothing else in the tree.
pub proof fn law_click_folds_the_group(app: AppSpec, id: Id)
    requires
        unique_ids(app.library.roots),
        has_group(app.library.roots, id),
    ensures
        ({
            let before = app.library.roots;
            let change = app.clicked(id);
            let after = change.app.library.roots;
            &&& exists|k: int|
                0 <= k < shells(before).len() && #[trigger] is_group(preorder(before)[k], id)
                    && shells(after) == shells(before).update(
                    k,
                    Shell::Group {
                        id,
                        name: preorder(before)[k].name(),
                        expanded: !preorder(before)[k]->expanded,
                    },
                )
            &&& change.app.selected == Some(id)
            &&& change.app.open == app.open
            &&& change.effects.save
            &&& change.effects.started.len() == 0
            &&& change.effects.closed.len() == 0
        }),
{
    lemma_fold_one(app.library.roots, id);
}

/// A group is found by its id, and folding it changes it alone.
proof fn lemma_fold_one(f: Seq<Tree>, id: Id)
    requires
        unique_ids(f),
        has_group(f, id),
    ensures
        found(f, id) matches Some(t) && is_group(t, id),
        forall|value: bool|
            #![trigger crate::tree::fold(id, value)]
            exists|k: int|
                0 <= k < shells(f).len() && #[trigger] is_group(preorder(f)[k], id)
                    && preorder(f)[k] == found(f, id)->0 && shells(
                    crate::tree::edited_or_same(f, crate::tree::fold(id, value)),
                ) == shells(f).update(
                    k,
                    Shell::Group { id, name: preorder(f)[k].name(), expanded: value },
                ),
{
    let m = choose|m: int| 0 <= m < preorder(f).len() && #[trigger] is_group(preorder(f)[m], id);
    assert(preorder(f).contains(preorder(f)[m]));
    law_find_unique(f, preorder(f)[m]);
    assert forall|value: bool|
        #![trigger crate::tree::fold(id, value)]
        exists|k: int|
            0 <= k < shells(f).len() && #[trigger] is_group(preorder(f)[k], id) && preorder(f)[k]
                == found(f, id)->0 && shells(
                crate::tree::edited_or_same(f, crate::tree::fold(id, value)),
            ) == shells(f).update(
                k,
                Shell::Group { id, name: preorder(f)[k].name(), expanded: value },
            ) by {
        law_set_expanded_changes_one_group(f, id, value);
        let edit = crate::tree::fold(id, value);
        let k = choose|k: int| #[trigger]
            crate::tree_laws::edit_index(f, edit, k) && is_group(preorder(f)[k], id) && shells(
                crate::tree::edited_or_same(f, edit),
            ) == shells(f).update(
                k,
                Shell::Group { id, name: preorder(f)[k].name(), expanded: value },
            );
        assert(ids(f)[k] == ids(f)[m]);
        assert(k == m);
        assert(is_group(preorder(f)[k], id));
    }
}

/// Where no id occurs twice: hovering a folded group with a drag unfolds it and changes nothing
/// else; an unfolded group stays as it is, and so does everything when it is no group. Nothing
/// is written.
pub proof fn law_drag_unfolds_the_group(app: AppSpec, id: Id)
    requires
        unique_ids(app.library.roots),
    ensures
        ({
            let before = app.library.roots;
            let change = app.expanded_for_drag(id);
            let after = change.app.library.roots;
            &&& !change.effects.save
            &&& (found(before, id) matches Some(t) && t is Group && !t->expanded) ==> {
                &&& change.effects.rebuild
                &&& exists|k: int|
                    0 <= k < shells(before).len() && #[trigger] is_group(preorder(before)[k], id)
                        && shells(after) == shells(before).update(
                        k,
                        Shell::Group { id, name: preorder(before)[k].name(), expanded: true },
                    )
            }
            &&& !(found(before, id) matches Some(t) && t is Group && !t->expanded)
                ==> change == app.same()
        }),
{
    let f = app.library.roots;
    law_find(f, id);
    if let Some(t) = found(f, id) {
        if t is Group {
            let k = choose|k: int| 0 <= k < preorder(f).len() && preorder(f)[k] == t;
            assert(is_group(preorder(f)[k], id));
            lemma_fold_one(f, id);
            assert(crate::tree::fold(id, true) == crate::tree::fold(id, true));
        }
    }
}

/// A click on a connection selects it and opens it.
pub proof fn law_click_opens_the_connection(app: AppSpec, id: Id)
    requires
        app.library.connection(id) is Some,
    ensures
        ({
            let change = app.clicked(id);
            &&& change.app.selected == Some(id)
            &&& change.app.open.contains(id)
            &&& change.app.library.active_view is None
            &&& change.app.library.roots == app.library.roots
        }),
{
    law_find(app.library.roots, id);
    let c = app.library.connection(id)->0;
    assert(c.id == id);
    let after = app.clicked(id).app.open;
    if app.open.contains(id) && app.library.layout != crate::prefs::LayoutMode::Single {
        assert(after == app.open);
    } else {
        assert(after[after.len() - 1] == id);
    }
}

// ---- walls ----

/// Saving the sheet of a wall gives the wall the name that was typed, without the white space
/// around it, and the working copy too. A blank name changes nothing. Every other wall, and
/// everything else about this one, stays as it is.
pub proof fn law_sheet_renames_the_wall(app: AppSpec, fields: FieldsSpec, fresh: Id, id: Id)
    requires
        app.form is Some,
        app.form->0.target == FormTarget::View,
        app.form->0.editing == Some(id),
        app.library.view(id) is Some,
    ensures
        ({
            let change = app.submitted_form(fields, fresh);
            let after = change.app.library;
            let name = trimmed(fields.name);
            &&& change.app.form is None
            &&& change.app.error is None
            &&& name.len() > 0 ==> {
                &&& after.view(id) == Some(GridSpec { name, ..app.library.view(id)->0 })
                &&& forall|other: Id|
                    other != id ==> #[trigger] after.view(other) == app.library.view(other)
                &&& after.views.len() == app.library.views.len()
                &&& match app.draft {
                    Some(draft) => change.app.draft == Some(GridSpec { name, ..draft }),
                    None => change.app.draft is None,
                }
                &&& change.effects.save
            }
            &&& name.len() == 0 ==> {
                &&& after == app.library
                &&& change.app.draft == app.draft
                &&& !change.effects.save
            }
        }),
{
    let views = app.library.views;
    let name = trimmed(fields.name);
    lemma_view_index_is_first(views, id, 0);
    let k = view_index(views, id, 0)->0;
    let after = app.submitted_form(fields, fresh).app.library;
    if name.len() > 0 {
        assert forall|other: Id| #[trigger] after.view(other) == (if other == id {
            Some(GridSpec { name, ..views[k] })
        } else {
            app.library.view(other)
        }) by {
            crate::library::lemma_view_index_same_ids(views, after.views, other, 0);
            lemma_view_index_is_first(views, other, 0);
        }
    }
}

// ---- menus ----

/// Where no id occurs twice, a connection is found by its id exactly where the tree has it.
pub proof fn law_connection_is_found_by_id(library: LibrarySpec, c: ConnectionSpec)
    requires
        unique_ids(library.roots),
    ensures
        library.connection(c.id) == Some(c) <==> preorder(library.roots).contains(Tree::Stream(c)),
        forall|id: Id| #[trigger] library.connection(id) matches Some(d) ==> d.id == id,
{
    let f = library.roots;
    lemma_connection_by_shell(library, c);
    if preorder(f).contains(Tree::Stream(c)) {
        let k = choose|k: int| 0 <= k < preorder(f).len() && preorder(f)[k] == Tree::Stream(c);
        assert(shells(f)[k] == Shell::Stream(c));
    }
    if shells(f).contains(Shell::Stream(c)) {
        let k = choose|k: int| 0 <= k < shells(f).len() && shells(f)[k] == Shell::Stream(c);
        assert(preorder(f)[k] == Tree::Stream(c));
    }
    assert forall|id: Id| (#[trigger] library.connection(id)) is Some implies library.connection(
        id,
    )->0.id == id by {
        law_find(f, id);
    }
}

/// Where no id occurs twice, the menu of a row acts on the row's own node: `Delete` takes it out
/// of the tree, `Open` has it on the wall, `Edit` opens the sheet of that connection with what it
/// is, `Rename` the sheet of that group with its name, `New stream` a sheet for that group, and
/// `New group` adds a group to it.
pub proof fn law_menu_acts_on_its_row(
    before: AppSpec,
    after: AppSpec,
    action: RowAction,
    id: Id,
    outcome: RowOutcome,
)
    requires
        did(before, after, action, id, outcome),
        unique_ids(before.library.roots),
        holds_id(before.library.roots, id),
        action == RowAction::NewGroup ==> !holds_id(before.library.roots, after.selected->0),
    ensures
        action == RowAction::Delete ==> !holds_id(after.library.roots, id),
        action == RowAction::Open && before.library.connection(id) is Some ==> after.open.contains(
            id,
        ),
        action == RowAction::Open && before.library.connection(id) is None ==> after == before,
        action == RowAction::Edit && before.library.connection(id) is Some ==> {
            let c = before.library.connection(id)->0;
            &&& outcome matches RowOutcome::Sheet(fields)
            &&& fields@.name == c.name
            &&& fields@.url == c.url
            &&& after.form matches Some(form)
            &&& form.editing == Some(id)
            &&& form.target == FormTarget::Connection
            &&& form.transport == c.transport
            &&& after.library == before.library
        },
        action == RowAction::Rename && has_group(before.library.roots, id) ==> {
            &&& outcome matches RowOutcome::Sheet(fields)
            &&& found(before.library.roots, id) matches Some(t)
            &&& fields@.name == t.name()
            &&& after.form matches Some(form)
            &&& form.editing == Some(id)
            &&& form.target == FormTarget::Group
            &&& after.library == before.library
        },
        action == RowAction::NewStream && has_group(before.library.roots, id) ==> {
            &&& outcome is Sheet
            &&& after.form matches Some(form)
            &&& form.editing is None
            &&& form.target == FormTarget::Connection
            &&& form.parent == Some(id)
            &&& after.library == before.library
        },
        action == RowAction::NewGroup && has_group(before.library.roots, id) ==> {
            &&& after.selected matches Some(fresh)
            &&& parent(after.library.roots, fresh) == Some(id)
            &&& found(after.library.roots, fresh) matches Some(t)
            &&& t is Group
            &&& t.children().len() == 0
        },
{
    let f = before.library.roots;
    let selected = AppSpec { selected: Some(id), ..before };
    law_find(f, id);
    if action == RowAction::Delete {
        law_delete_takes_the_selection(selected, id);
    }
    if action == RowAction::Open && before.library.connection(id) is Some {
        let c = before.library.connection(id)->0;
        assert(c.id == id);
        let open = before.opened(c).app.open;
        if before.library.layout == crate::prefs::LayoutMode::Single || !before.open.contains(id) {
            assert(open[open.len() - 1] == id);
        }
    }
    law_new_items_follow_the_selection(selected);
    if action == RowAction::NewGroup {
        law_new_group_goes_into_the_selection(selected, after.selected->0);
    }
}

/// The sheet to rename something is for that thing, holds its name, and changes nothing by
/// itself.
pub proof fn law_rename_sheet_opens(app: AppSpec, id: Id, target: FormTarget, name: Seq<char>)
    ensures
        ({
            let after = app.opened_rename(id, target);
            &&& after.form matches Some(form)
            &&& form.editing == Some(id)
            &&& form.target == target
            &&& after == (AppSpec { form: after.form, ..app })
        }),
        FieldsSpec::of_name(name).name == name,
        FieldsSpec::of_name(name).url.len() == 0,
        FieldsSpec::of_name(name).username.len() == 0,
        FieldsSpec::of_name(name).password.len() == 0,
{
}

} // verus!

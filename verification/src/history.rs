//! What holds of a directory through any sequence of objects added and removed.
use crate::consts::{NO_STREAM, OBJ_TYPE_UNALLOCATED, ROOT_STREAM_ID};
use crate::direntry::EntryView;
use crate::model::{free_entry, insertion_slot, removal, with_object, without_object};
use crate::search::all_ordered;
use crate::tree::{children, find, has_tree, ids, reachable, rightmost, tree_at, vacated, Slot};
use vstd::prelude::*;

verus! {

/// One change to a directory.
pub enum Edit {
    /// An object is added below `parent`.
    Add { parent: u32, name: Seq<char>, obj_type: u8, now: u64 },
    /// The child of `parent` with the given name is removed.
    Remove { parent: u32, name: Seq<char> },
}

impl Edit {
    /// The change can be made: there is no object with this name yet and an entry for a
    /// new one, or there is an object with this name, which has no children.
    pub open spec fn can_apply(self, es: Seq<EntryView>) -> bool {
        match self {
            Edit::Add { parent, name, obj_type, .. } => {
                &&& reachable(es).contains(parent)
                &&& find(es, children(es, parent), name) is None
                &&& obj_type != OBJ_TYPE_UNALLOCATED
                &&& free_entry(es) < NO_STREAM
            },
            Edit::Remove { parent, name } => {
                &&& reachable(es).contains(parent)
                &&& find(es, children(es, parent), name) matches Some(id) && es[id as int].child
                    == NO_STREAM
            },
        }
    }

    /// The entries after the change.
    pub open spec fn applied(self, es: Seq<EntryView>) -> Seq<EntryView> {
        match self {
            Edit::Add { parent, name, obj_type, now } => with_object(
                es,
                parent,
                name,
                obj_type,
                now,
            ),
            Edit::Remove { parent, name } => without_object(es, parent, name),
        }
    }
}

/// The entries after some changes, made in order.
pub open spec fn edited(es: Seq<EntryView>, edits: Seq<Edit>) -> Seq<EntryView>
    decreases edits.len(),
{
    if edits.len() == 0 {
        es
    } else {
        edits.last().applied(edited(es, edits.drop_last()))
    }
}

/// Each of some changes can be made once those before it are.
pub open spec fn can_edit(es: Seq<EntryView>, edits: Seq<Edit>) -> bool
    decreases edits.len(),
{
    edits.len() == 0 || (can_edit(es, edits.drop_last()) && edits.last().can_apply(
        edited(es, edits.drop_last()),
    ))
}

/// An object that is added or removed leaves the root entry as it is but for its child
/// link.
pub proof fn lemma_root_after_edit(es: Seq<EntryView>, edit: Edit)
    requires
        has_tree(es),
        edit.can_apply(es),
    ensures
        ({
            let es2 = edit.applied(es);
            &&& has_tree(es2)
            &&& es2[ROOT_STREAM_ID as int].with_child(NO_STREAM)
                == es[ROOT_STREAM_ID as int].with_child(NO_STREAM)
        }),
{
    let whole = tree_at(es, ROOT_STREAM_ID);
    let root = es[ROOT_STREAM_ID as int];
    crate::model::lemma_the_tree(es);
    match edit {
        Edit::Add { parent, name, obj_type, now } => {
            let t = children(es, parent);
            let es2 = with_object(es, parent, name, obj_type, now);
            let slot = insertion_slot(es, parent, name);
            crate::model::lemma_free_entry(es, 0);
            crate::model::lemma_with_object_tree(es, parent, name, obj_type, now);
            crate::tree::lemma_children(es, ROOT_STREAM_ID, whole, parent);
            crate::tree::lemma_free_slot(es, t, name, Slot::Child(parent));
            assert(!ids(t).contains(ROOT_STREAM_ID));
            assert(slot is Child || slot.holder() != ROOT_STREAM_ID);
            assert(es2[ROOT_STREAM_ID as int].with_child(NO_STREAM) == root.with_child(NO_STREAM));
        },
        Edit::Remove { parent, name } => {
            let t = children(es, parent);
            let es2 = without_object(es, parent, name);
            let (slot, found) = removal(es, parent, name);
            crate::model::lemma_without_object_tree(es, parent, name);
            crate::tree::lemma_children(es, ROOT_STREAM_ID, whole, parent);
            crate::tree::lemma_target(es, es[parent as int].child, t, name, Slot::Child(parent));
            assert(!ids(t).contains(ROOT_STREAM_ID));
            assert(slot is Child || slot.holder() != ROOT_STREAM_ID);
            crate::tree::lemma_branch_ids(found);
            let top = found.top();
            crate::tree::lemma_repr_top(es, es[top as int].left_sibling, found.left());
            crate::tree::lemma_repr_top(es, es[top as int].right_sibling, found.right());
            if found.left() is Node {
                crate::tree::lemma_rightmost(
                    es,
                    es[top as int].left_sibling,
                    found.left(),
                    Slot::Left(top),
                );
                let (from, last) = rightmost(found.left(), Slot::Left(top));
                assert(from.holder() != ROOT_STREAM_ID);
                assert(last.top() != ROOT_STREAM_ID);
            }
            assert(top != ROOT_STREAM_ID && vacated(found) != ROOT_STREAM_ID);
            assert(es2[ROOT_STREAM_ID as int].with_child(NO_STREAM) == root.with_child(NO_STREAM));
        },
    }
}

/// Whatever objects are added and removed, the links stay a tree, and the root entry
/// stays as it is but for its child link.
pub proof fn lemma_root_keeps(es: Seq<EntryView>, edits: Seq<Edit>)
    requires
        has_tree(es),
        can_edit(es, edits),
    ensures
        has_tree(edited(es, edits)),
        edited(es, edits)[ROOT_STREAM_ID as int].with_child(NO_STREAM)
            == es[ROOT_STREAM_ID as int].with_child(NO_STREAM),
    decreases edits.len(),
{
    if edits.len() > 0 {
        lemma_root_keeps(es, edits.drop_last());
        lemma_root_after_edit(edited(es, edits.drop_last()), edits.last());
    }
}

/// Whatever objects are added and removed, siblings stay in the order of their names
/// if they were so everywhere.
pub proof fn lemma_order_keeps(es: Seq<EntryView>, edits: Seq<Edit>)
    requires
        has_tree(es),
        all_ordered(es),
        can_edit(es, edits),
    ensures
        has_tree(edited(es, edits)),
        all_ordered(edited(es, edits)),
    decreases edits.len(),
{
    if edits.len() > 0 {
        let before = edited(es, edits.drop_last());
        lemma_order_keeps(es, edits.drop_last());
        lemma_root_after_edit(before, edits.last());
        match edits.last() {
            Edit::Add { parent, name, obj_type, now } => {
                crate::search::lemma_added_object_found(before, parent, name, obj_type, now);
            },
            Edit::Remove { parent, name } => {
                crate::search::lemma_removed_object_gone(before, parent, name);
            },
        }
    }
}

} // verus!

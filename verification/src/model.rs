//! What adding and removing an object does to the entries of a directory.
use crate::consts::{NO_STREAM, OBJ_TYPE_UNALLOCATED, ROOT_STREAM_ID};
use crate::direntry::EntryView;
use crate::tree::{
    children, detached, find, free_slot, grafted, has_tree, ids, is_tree, linked, reachable,
    removed, repr, target, tree_at, vacated, with_children, Slot, Tree,
};
use vstd::prelude::*;

verus! {

/// The first entry from `i` on that is not in use, or the number of entries.
pub open spec fn free_entry_from(es: Seq<EntryView>, i: int) -> int
    decreases es.len() - i,
{
    if i >= es.len() {
        es.len() as int
    } else if es[i].obj_type == OBJ_TYPE_UNALLOCATED {
        i
    } else {
        free_entry_from(es, i + 1)
    }
}

/// The entry that the next new object gets: the first that is not in use, or one
/// behind all others.
pub open spec fn free_entry(es: Seq<EntryView>) -> int {
    free_entry_from(es, 0)
}

/// The entries with the one at `i` replaced, or added if it is the next.
pub open spec fn put(es: Seq<EntryView>, i: int, entry: EntryView) -> Seq<EntryView> {
    if i < es.len() {
        es.update(i, entry)
    } else {
        es.push(entry)
    }
}

/// The link that comes to lead to a new child of `parent` with the given name.
pub open spec fn insertion_slot(es: Seq<EntryView>, parent: u32, name: Seq<char>) -> Slot {
    free_slot(es, children(es, parent), name, Slot::Child(parent))->0
}

/// The entries after an object is added below `parent`.
pub open spec fn with_object(
    es: Seq<EntryView>,
    parent: u32,
    name: Seq<char>,
    obj_type: u8,
    now: u64,
) -> Seq<EntryView> {
    let id = free_entry(es);
    linked(
        put(es, id, EntryView::created(name, obj_type, now)),
        insertion_slot(es, parent, name),
        id as u32,
    )
}

/// The link that leads to the child of `parent` with the given name, and the tree
/// of siblings from this child on.
pub open spec fn removal(es: Seq<EntryView>, parent: u32, name: Seq<char>) -> (Slot, Tree) {
    target(es, children(es, parent), name, Slot::Child(parent))->0
}

/// The entries after the child of `parent` with the given name is removed.
pub open spec fn without_object(es: Seq<EntryView>, parent: u32, name: Seq<char>) -> Seq<EntryView> {
    let (slot, found) = removal(es, parent, name);
    removed(es, slot, found)
}

/// All entries before the first that is not in use are in use.
pub proof fn lemma_free_entry(es: Seq<EntryView>, i: int)
    requires
        0 <= i <= es.len(),
    ensures
        i <= free_entry_from(es, i) <= es.len(),
        free_entry_from(es, i) < es.len() ==> es[free_entry_from(es, i)].obj_type
            == OBJ_TYPE_UNALLOCATED,
        forall|j: int| i <= j < free_entry_from(es, i) ==> (#[trigger] es[j]).obj_type
            != OBJ_TYPE_UNALLOCATED,
    decreases es.len() - i,
{
    if i < es.len() && es[i].obj_type != OBJ_TYPE_UNALLOCATED {
        lemma_free_entry(es, i + 1);
    }
}

/// The tree that the links from the root form is the tree of the root.
pub proof fn lemma_the_tree(es: Seq<EntryView>)
    requires
        has_tree(es),
    ensures
        is_tree(es, tree_at(es, ROOT_STREAM_ID)),
        forall|x: u32| #[trigger] reachable(es).contains(x) ==> x < es.len() && x != NO_STREAM,
        reachable(es).contains(ROOT_STREAM_ID),
{
    let t = choose|t: Tree| is_tree(es, t);
    crate::tree::lemma_tree_at(es, ROOT_STREAM_ID, t);
    crate::tree::lemma_ids_in_range(es, ROOT_STREAM_ID, t);
    crate::tree::lemma_branch_ids(t);
}

/// Adding an object keeps the links a tree, and adds its one entry to it.
pub proof fn lemma_with_object_tree(
    es: Seq<EntryView>,
    parent: u32,
    name: Seq<char>,
    obj_type: u8,
    now: u64,
)
    requires
        has_tree(es),
        reachable(es).contains(parent),
        find(es, children(es, parent), name) is None,
        obj_type != OBJ_TYPE_UNALLOCATED,
        free_entry(es) < NO_STREAM,
    ensures
        ({
            let id = free_entry(es) as u32;
            let es2 = with_object(es, parent, name, obj_type, now);
            let old = children(es, parent);
            &&& !reachable(es).contains(id)
            &&& is_tree(
                es2,
                with_children(tree_at(es, ROOT_STREAM_ID), parent, grafted(es, old, name, id)),
            )
            &&& has_tree(es2)
            &&& reachable(es2) =~= reachable(es).insert(id)
            &&& children(es2, parent) == grafted(es, old, name, id)
            &&& insertion_slot(es, parent, name).holder() == parent || ids(old).contains(
                insertion_slot(es, parent, name).holder(),
            )
            &&& reachable(es).contains(insertion_slot(es, parent, name).holder())
        }),
{
    let t = tree_at(es, ROOT_STREAM_ID);
    let id = free_entry(es) as u32;
    let fresh = EntryView::created(name, obj_type, now);
    let es1 = put(es, id as int, fresh);
    let es2 = with_object(es, parent, name, obj_type, now);
    let old = children(es, parent);
    let slot = insertion_slot(es, parent, name);
    lemma_the_tree(es);
    lemma_free_entry(es, 0);
    crate::tree::lemma_children(es, ROOT_STREAM_ID, t, parent);
    crate::tree::lemma_ids_in_range(es, ROOT_STREAM_ID, t);
    assert(!ids(t).contains(id));
    assert forall|x: u32| #[trigger] ids(t).contains(x) implies es1[x as int] == es[x as int] by {}
    crate::tree::lemma_repr_frame(es, es1, es[parent as int].child, old);
    lemma_same_names(es, es1, old, name, Slot::Child(parent), id);
    crate::tree::lemma_free_slot(es, old, name, Slot::Child(parent));
    let new = grafted(es, old, name, id);
    crate::tree::lemma_grafted(es1, es1[parent as int].child, old, name, Slot::Child(parent), id);
    if old is Nil {
        reveal_with_fuel(repr, 3);
        assert(es2[id as int] == fresh);
        assert(repr(es2, id, new));
    }
    crate::tree::lemma_with_children(es, es2, ROOT_STREAM_ID, t, parent, new);
    let whole = with_children(t, parent, new);
    assert(is_tree(es2, whole)) by {
        assert forall|x: u32| #[trigger] ids(whole).contains(x) implies es2[x as int].obj_type
            != OBJ_TYPE_UNALLOCATED by {
            if x != id {
                assert(ids(t).contains(x));
            }
        }
    }
    crate::tree::lemma_tree_at(es2, ROOT_STREAM_ID, whole);
    crate::tree::lemma_tree_at(es2, es2[parent as int].child, new);
}

/// Searches depend only on the names of the entries in the tree.
pub proof fn lemma_same_names(
    es: Seq<EntryView>,
    es2: Seq<EntryView>,
    t: Tree,
    name: Seq<char>,
    at: Slot,
    new: u32,
)
    requires
        forall|x: u32| #[trigger]
            ids(t).contains(x) ==> es[x as int].name == es2[x as int].name,
    ensures
        find(es, t, name) == find(es2, t, name),
        free_slot(es, t, name, at) == free_slot(es2, t, name, at),
        target(es, t, name, at) == target(es2, t, name, at),
        grafted(es, t, name, new) == grafted(es2, t, name, new),
        detached(es, t, name) == detached(es2, t, name),
    decreases t,
{
    match t {
        Tree::Nil => {},
        Tree::Node { id, left, right, .. } => {
            crate::tree::lemma_branch_ids(t);
            lemma_same_names(es, es2, *left, name, Slot::Left(id), new);
            lemma_same_names(es, es2, *right, name, Slot::Right(id), new);
        },
    }
}

/// Removing an object without children keeps the links a tree, and takes one
/// entry out of it.
pub proof fn lemma_without_object_tree(es: Seq<EntryView>, parent: u32, name: Seq<char>)
    requires
        has_tree(es),
        reachable(es).contains(parent),
        find(es, children(es, parent), name) matches Some(id) && es[id as int].child == NO_STREAM,
    ensures
        ({
            let es2 = without_object(es, parent, name);
            let old = children(es, parent);
            let (slot, found) = removal(es, parent, name);
            &&& is_tree(
                es2,
                with_children(tree_at(es, ROOT_STREAM_ID), parent, detached(es, old, name)),
            )
            &&& has_tree(es2)
            &&& reachable(es).contains(vacated(found))
            &&& vacated(found) != ROOT_STREAM_ID
            &&& reachable(es2) =~= reachable(es).remove(vacated(found))
            &&& children(es2, parent) == detached(es, old, name)
            &&& es2.len() == es.len()
        }),
{
    let t = tree_at(es, ROOT_STREAM_ID);
    let old = children(es, parent);
    let es2 = without_object(es, parent, name);
    lemma_the_tree(es);
    crate::tree::lemma_children(es, ROOT_STREAM_ID, t, parent);
    crate::tree::lemma_ids_in_range(es, ROOT_STREAM_ID, t);
    crate::tree::lemma_target(es, es[parent as int].child, old, name, Slot::Child(parent));
    let (slot, found) = removal(es, parent, name);
    reveal_with_fuel(repr, 2);
    crate::tree::lemma_detached(es, es[parent as int].child, old, name, Slot::Child(parent));
    crate::tree::lemma_without_top(es, found, slot);
    let new = detached(es, old, name);
    assert(repr(es2, es2[parent as int].child, new));
    crate::tree::lemma_with_children(es, es2, ROOT_STREAM_ID, t, parent, new);
    let whole = with_children(t, parent, new);
    crate::tree::lemma_removed_payload(es, found, slot);
    assert(is_tree(es2, whole)) by {
        assert forall|x: u32| #[trigger] ids(whole).contains(x) implies es2[x as int].obj_type
            != OBJ_TYPE_UNALLOCATED by {
            assert(ids(t).contains(x));
            assert(x != vacated(found));
            assert(es2[x as int].obj_type == es2[x as int].payload().obj_type);
            let from = if x == found.top() { vacated(found) } else { x };
            assert(es[from as int].payload().obj_type == es[from as int].obj_type);
        }
    }
    crate::tree::lemma_tree_at(es2, ROOT_STREAM_ID, whole);
    crate::tree::lemma_tree_at(es2, es2[parent as int].child, new);
}

} // verus!

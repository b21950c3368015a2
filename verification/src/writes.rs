//! Which writes adding and removing objects makes, and in which order.
use crate::bytes::u32_le;
use crate::direntry::{same_object, EntryView};
use crate::directory::DirectoryView;
use crate::effects::{end_slot, is_right_way, is_search};
use crate::model::{free_entry, insertion_slot, removal};
use crate::names::{name_order, NameOrder};
use crate::search::link_of;
use crate::storage::WriteView;
use crate::tree::{children, find, reachable, rightmost, tree_at, Slot};
use vstd::prelude::*;

verus! {

/// The write that sets a link of an entry, and no more of the entry, to `to`.
pub open spec fn link_write(d: DirectoryView, slot: Slot, to: u32) -> WriteView {
    WriteView {
        offset: match slot {
            Slot::Left(id) => d.entry_at(id as int) + 68,
            Slot::Right(id) => d.entry_at(id as int) + 72,
            Slot::Child(id) => d.entry_at(id as int) + 76,
        },
        bytes: u32_le(to),
    }
}

/// The write of a whole entry.
pub open spec fn entry_write(d: DirectoryView, id: int, entry: EntryView) -> WriteView {
    WriteView { offset: d.entry_at(id), bytes: entry.bytes() }
}

/// Adding an object makes two writes, behind those that extend the directory if it has to
/// grow: of the link at which the search for the name ends, and of the new entry.
pub proof fn lemma_adding_writes(
    d: DirectoryView,
    parent: u32,
    name: Seq<char>,
    obj_type: u8,
    now: u64,
) -> (way: Seq<u32>)
    requires
        d.wf(),
        d.stored(),
        d.has_place(),
        reachable(d.entries).contains(parent),
        find(d.entries, children(d.entries, parent), name) is None,
        obj_type != 0,
    ensures
        ({
            let es = d.entries;
            let e = d.inserted(parent, name, obj_type, now);
            let id = free_entry(es);
            let slot = end_slot(es, parent, way, name);
            &&& is_search(es, es[parent as int].child, way, name)
            &&& way.len() > 0 ==> name_order(name, es[way.last() as int].name) != NameOrder::Equal
            &&& link_of(es, slot) == 0xffff_ffff
            &&& 0 <= id < e.entries.len()
            &&& e.storage.pending == d.with_place().storage.pending.push(
                link_write(e, slot, id as u32),
            ).push(entry_write(e, id, e.entries[id]))
        }),
{
    let es = d.entries;
    let id = free_entry(es);
    crate::directory::lemma_with_place(d);
    crate::model::lemma_the_tree(es);
    crate::model::lemma_free_entry(es, 0);
    crate::model::lemma_with_object_tree(es, parent, name, obj_type, now);
    crate::tree::lemma_children(es, 0, tree_at(es, 0), parent);
    let way = crate::effects::lemma_search_way(
        es,
        es[parent as int].child,
        children(es, parent),
        name,
        Slot::Child(parent),
    );
    assert(end_slot(es, parent, way, name) == insertion_slot(es, parent, name));
    way
}

/// Where the directory does not have to grow for it, adding an object makes no other
/// writes.
pub proof fn lemma_placing_writes(d: DirectoryView)
    ensures
        ({
            let n = d.entries.len();
            let unused = exists|i: int| 0 <= i < n && (#[trigger] d.entries[i]).obj_type == 0;
            &&& unused || n % (d.storage.version.entries_per_sector() as nat) != 0
                ==> d.with_place().storage == d.storage
        }),
{
    crate::model::lemma_free_entry(d.entries, 0);
}

/// Removing an object that links to at most one sibling makes two writes: of the link that
/// the search for the name came by, and of the cleared entry. If it links to two, there
/// are three: of the entry with the object that moves into it, of the link to where that
/// one was, and of the cleared entry there.
pub proof fn lemma_removing_writes(d: DirectoryView, parent: u32, name: Seq<char>) -> (ways: (
    Seq<u32>,
    Seq<u32>,
))
    requires
        d.wf(),
        d.stored(),
        reachable(d.entries).contains(parent),
        d.can_erase(parent, name),
    ensures
        ({
            let es = d.entries;
            let e = d.erased(parent, name);
            let (way, right_way) = ways;
            let x = way.last();
            let (left, right) = (es[x as int].left_sibling, es[x as int].right_sibling);
            &&& way.len() > 0
            &&& is_search(es, es[parent as int].child, way, name)
            &&& name_order(name, es[x as int].name) == NameOrder::Equal
            &&& left == 0xffff_ffff || right == 0xffff_ffff ==> {
                let slot = end_slot(es, parent, way.drop_last(), name);
                let link = if left == 0xffff_ffff {
                    right
                } else {
                    left
                };
                e.storage.pending == d.storage.pending.push(link_write(d, slot, link)).push(
                    entry_write(d, x as int, e.entries[x as int]),
                )
            }
            &&& left != 0xffff_ffff && right != 0xffff_ffff ==> {
                let last = right_way.last();
                let moved = es[last as int];
                let slot = if right_way.len() == 1 {
                    Slot::Left(x)
                } else {
                    Slot::Right(right_way[right_way.len() - 2])
                };
                &&& is_right_way(es, left, right_way)
                &&& exists|entry: EntryView|
                    same_object(moved, entry) && entry.child == moved.child && entry.left_sibling
                        == left && entry.right_sibling == right && e.storage.pending
                        == d.storage.pending.push(#[trigger] entry_write(d, x as int, entry)).push(
                        link_write(d, slot, moved.left_sibling),
                    ).push(entry_write(d, last as int, e.entries[last as int]))
            }
        }),
{
    let es = d.entries;
    let all = children(es, parent);
    let at = Slot::Child(parent);
    let e = d.erased(parent, name);
    crate::directory::lemma_removal(d, parent, name);
    crate::model::lemma_the_tree(es);
    crate::tree::lemma_children(es, 0, tree_at(es, 0), parent);
    let way = crate::effects::lemma_search_way(es, es[parent as int].child, all, name, at);
    crate::tree::lemma_target(es, es[parent as int].child, all, name, at);
    let (slot, found) = removal(es, parent, name);
    let x = way.last();
    let before = way.drop_last();
    if before.len() > 0 {
        assert(before.last() == way[way.len() - 2]);
    }
    assert(slot == end_slot(es, parent, before, name));
    let (left, right) = (es[x as int].left_sibling, es[x as int].right_sibling);
    crate::tree::lemma_repr_top(es, left, found.left());
    if left != 0xffff_ffff && right != 0xffff_ffff {
        let right_way = crate::effects::lemma_right_way(es, left, found.left(), Slot::Left(x));
        let (from, last) = rightmost(found.left(), Slot::Left(x));
        let moved = es[last.top() as int];
        let entry = moved.with_left(left).with_right(right);
        assert(same_object(moved, entry));
        assert(e.storage.pending == d.storage.pending.push(entry_write(d, x as int, entry)).push(
            link_write(d, from, moved.left_sibling),
        ).push(entry_write(d, last.top() as int, e.entries[last.top() as int])));
        (way, right_way)
    } else {
        (way, Seq::empty())
    }
}

} // verus!

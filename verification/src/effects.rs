//! What searching, adding, removing and changing objects does to single entries and
//! links.
use crate::consts::NO_STREAM;
use crate::direntry::{same_object, EntryView};
use crate::directory::DirectoryView;
use crate::model::{free_entry, insertion_slot, removal, with_object, without_object};
use crate::names::{name_order, NameOrder};
use crate::search::link_of;
use crate::tree::{
    children, find, free_slot, has_tree, ids, lookup, reachable, repr, rightmost, target, tree_at,
    Slot, Tree,
};
use vstd::prelude::*;

verus! {

/// The link by which the search for a name goes on from an entry with another name: the
/// left one if the name is less than that of the entry, else the right one.
pub open spec fn next_slot(es: Seq<EntryView>, x: u32, name: Seq<char>) -> Slot {
    if name_order(name, es[x as int].name) == NameOrder::Less {
        Slot::Left(x)
    } else {
        Slot::Right(x)
    }
}

/// The search for a name comes to the entries in `way`, beginning with `from`. None but
/// perhaps the last has this name.
pub open spec fn is_search(es: Seq<EntryView>, from: u32, way: Seq<u32>, name: Seq<char>) -> bool {
    &&& way.len() == 0 ==> from == 0xffff_ffff
    &&& way.len() > 0 ==> way[0] == from
    &&& forall|i: int| 0 <= i < way.len() ==> (#[trigger] way[i]) < es.len() && way[i] != 0xffff_ffff
    &&& forall|i: int| 0 < i < way.len() ==> #[trigger] goes_on(es, way, name, i)
}

/// The search for a name goes on to the entry `i` of `way` from the one before it.
pub open spec fn goes_on(es: Seq<EntryView>, way: Seq<u32>, name: Seq<char>, i: int) -> bool {
    &&& name_order(name, es[way[i - 1] as int].name) != NameOrder::Equal
    &&& way[i] == link_of(es, next_slot(es, way[i - 1], name))
}

/// The link that the search for a name below `parent` would follow next.
pub open spec fn end_slot(es: Seq<EntryView>, parent: u32, way: Seq<u32>, name: Seq<char>) -> Slot {
    if way.len() == 0 {
        Slot::Child(parent)
    } else {
        next_slot(es, way.last(), name)
    }
}

proof fn lemma_search_step(es: Seq<EntryView>, id: u32, rest: Seq<u32>, name: Seq<char>)
    requires
        id < es.len(),
        id != NO_STREAM,
        name_order(name, es[id as int].name) != NameOrder::Equal,
        is_search(es, link_of(es, next_slot(es, id, name)), rest, name),
    ensures
        is_search(es, id, seq![id] + rest, name),
{
    let way = seq![id] + rest;
    assert forall|i: int| 0 < i < way.len() implies #[trigger] goes_on(es, way, name, i) by {
        assert(way[i] == rest[i - 1]);
        if i > 1 {
            assert(way[i - 1] == rest[i - 2]);
            assert(goes_on(es, rest, name, i - 1));
        }
    }
    assert forall|i: int| 0 <= i < way.len() implies (#[trigger] way[i]) < es.len() && way[i]
        != 0xffff_ffff by {
        if i > 0 {
            assert(way[i] == rest[i - 1]);
        }
    }
}

/// The search for a name goes from entry to entry, to the left where the name is less
/// and to the right where it is greater. It finds the entry where it comes to this name,
/// and nothing where it comes to a link that leads nowhere.
pub proof fn lemma_search_way(es: Seq<EntryView>, id: u32, t: Tree, name: Seq<char>, at: Slot) -> (way:
    Seq<u32>)
    requires
        repr(es, id, t),
    ensures
        is_search(es, id, way, name),
        match find(es, t, name) {
            Some(x) => {
                &&& way.len() > 0
                &&& way.last() == x
                &&& name_order(name, es[x as int].name) == NameOrder::Equal
                &&& target(es, t, name, at) matches Some((slot, found)) && slot == (if way.len()
                    == 1 {
                    at
                } else {
                    next_slot(es, way[way.len() - 2], name)
                }) && found.top() == x
            },
            None => {
                let end = if way.len() == 0 {
                    at
                } else {
                    next_slot(es, way.last(), name)
                };
                &&& way.len() > 0 ==> {
                    &&& name_order(name, es[way.last() as int].name) != NameOrder::Equal
                    &&& link_of(es, end) == 0xffff_ffff
                }
                &&& free_slot(es, t, name, at) == Some(end)
            },
        },
    decreases t,
{
    match t {
        Tree::Nil => Seq::empty(),
        Tree::Node { id: n, left, right, .. } => {
            let entry = es[id as int];
            match name_order(name, entry.name) {
                NameOrder::Equal => seq![id],
                NameOrder::Less => {
                    let rest = lemma_search_way(es, entry.left_sibling, *left, name, Slot::Left(n));
                    lemma_search_step(es, id, rest, name);
                    lemma_way_end(id, rest);
                    seq![id] + rest
                },
                NameOrder::Greater => {
                    let rest = lemma_search_way(
                        es,
                        entry.right_sibling,
                        *right,
                        name,
                        Slot::Right(n),
                    );
                    lemma_search_step(es, id, rest, name);
                    lemma_way_end(id, rest);
                    seq![id] + rest
                },
            }
        },
    }
}

proof fn lemma_way_end(id: u32, rest: Seq<u32>)
    ensures
        ({
            let way = seq![id] + rest;
            &&& way.len() == rest.len() + 1
            &&& rest.len() == 0 ==> way.last() == id
            &&& rest.len() > 0 ==> way.last() == rest.last()
            &&& rest.len() == 1 ==> way[way.len() - 2] == id
            &&& rest.len() > 1 ==> way[way.len() - 2] == rest[rest.len() - 2]
        }),
{
}

/// A chain of no names leads to the root. A longer one leads to the child with its last
/// name of what the chain without this name leads to, and else nowhere. This child is
/// what the search for the name comes to from the child link.
pub proof fn lemma_lookup_way(es: Seq<EntryView>, names: Seq<Seq<char>>, name: Seq<char>) -> (way: Seq<
    u32,
>)
    requires
        has_tree(es),
    ensures
        lookup(es, Seq::empty()) == Some(0u32),
        lookup(es, names) is None ==> lookup(es, names.push(name)) is None,
        lookup(es, names) matches Some(p) ==> {
            &&& p < es.len()
            &&& is_search(es, es[p as int].child, way, name)
            &&& match lookup(es, names.push(name)) {
                Some(x) => {
                    &&& way.len() > 0
                    &&& way.last() == x
                    &&& name_order(name, es[x as int].name) == NameOrder::Equal
                },
                None => {
                    &&& way.len() > 0 ==> name_order(name, es[way.last() as int].name)
                        != NameOrder::Equal
                    &&& link_of(es, end_slot(es, p, way, name)) == 0xffff_ffff
                },
            }
        },
{
    crate::model::lemma_the_tree(es);
    crate::search::lemma_descend_last(es, 0, names, name);
    crate::search::lemma_descend_in_tree(es, 0, names);
    match lookup(es, names) {
        None => Seq::empty(),
        Some(p) => {
            crate::tree::lemma_children(es, 0, tree_at(es, 0), p);
            lemma_search_way(es, es[p as int].child, children(es, p), name, Slot::Child(p))
        },
    }
}

/// An entry stays as it is but for one of its links.
pub open spec fn only_link_set(a: EntryView, b: EntryView, slot: Slot, to: u32) -> bool {
    &&& same_object(a, b)
    &&& b.left_sibling == if slot is Left {
        to
    } else {
        a.left_sibling
    }
    &&& b.right_sibling == if slot is Right {
        to
    } else {
        a.right_sibling
    }
    &&& b.child == if slot is Child {
        to
    } else {
        a.child
    }
}

/// Adding an object takes the first entry that is not in use, or one behind all others,
/// and describes a new object there: with the given name, type and time, black, without
/// links, class, bits or content. The link at which the search for the name ends comes
/// to lead to it. No other entry changes, and nothing else of the entry with this link.
pub proof fn lemma_adding_effects(
    es: Seq<EntryView>,
    parent: u32,
    name: Seq<char>,
    obj_type: u8,
    now: u64,
) -> (way: Seq<u32>)
    requires
        has_tree(es),
        reachable(es).contains(parent),
        find(es, children(es, parent), name) is None,
        obj_type != 0,
        free_entry(es) < NO_STREAM,
    ensures
        ({
            let es2 = with_object(es, parent, name, obj_type, now);
            let id = free_entry(es);
            let slot = end_slot(es, parent, way, name);
            let h = slot.holder() as int;
            &&& 0 <= id <= es.len()
            &&& forall|i: int| 0 <= i < id ==> (#[trigger] es[i]).obj_type != 0
            &&& id < es.len() ==> es[id].obj_type == 0
            &&& es2.len() == if id < es.len() {
                es.len()
            } else {
                es.len() + 1
            }
            &&& is_new_entry(es2[id], name, obj_type, now)
            &&& is_search(es, es[parent as int].child, way, name)
            &&& way.len() > 0 ==> name_order(name, es[way.last() as int].name) != NameOrder::Equal
            &&& link_of(es, slot) == 0xffff_ffff
            &&& 0 <= h < es.len()
            &&& h != id
            &&& only_link_set(es[h], es2[h], slot, id as u32)
            &&& forall|x: int| 0 <= x < es.len() && x != id && x != h ==> #[trigger] es2[x] == es[x]
        }),
{
    let es2 = with_object(es, parent, name, obj_type, now);
    crate::model::lemma_the_tree(es);
    crate::model::lemma_free_entry(es, 0);
    crate::model::lemma_with_object_tree(es, parent, name, obj_type, now);
    crate::direntry::lemma_created_entry(name, obj_type, now);
    crate::tree::lemma_children(es, 0, tree_at(es, 0), parent);
    let way = lemma_search_way(
        es,
        es[parent as int].child,
        children(es, parent),
        name,
        Slot::Child(parent),
    );
    let slot = end_slot(es, parent, way, name);
    assert(slot == insertion_slot(es, parent, name));
    assert(reachable(es).contains(slot.holder()));
    way
}

/// The entry describes a new object: every field of it is what it should be.
pub open spec fn is_new_entry(entry: EntryView, name: Seq<char>, obj_type: u8, now: u64) -> bool {
    &&& entry.name == name
    &&& entry.obj_type == obj_type
    &&& entry.color == 1
    &&& entry.left_sibling == 0xffff_ffff
    &&& entry.right_sibling == 0xffff_ffff
    &&& entry.child == 0xffff_ffff
    &&& entry.clsid.len() == 16
    &&& forall|i: int| 0 <= i < 16 ==> #[trigger] entry.clsid[i] == 0
    &&& entry.state_bits == 0
    &&& entry.creation_time == now
    &&& entry.modified_time == now
    &&& entry.start_sector == if obj_type == 2 {
        0xffff_fffeu32
    } else {
        0
    }
    &&& entry.stream_len == 0
}

/// The entry is not in use: every field of it is what it should be.
pub open spec fn is_cleared(entry: EntryView) -> bool {
    &&& entry.name.len() == 0
    &&& entry.obj_type == 0
    &&& entry.color == 1
    &&& entry.left_sibling == 0xffff_ffff
    &&& entry.right_sibling == 0xffff_ffff
    &&& entry.child == 0xffff_ffff
    &&& entry.clsid.len() == 16
    &&& forall|i: int| 0 <= i < 16 ==> #[trigger] entry.clsid[i] == 0
    &&& entry.state_bits == 0
    &&& entry.creation_time == 0
    &&& entry.modified_time == 0
    &&& entry.start_sector == 0
    &&& entry.stream_len == 0
}

/// Right links lead from `from` through the entries in `way`, up to one that has none.
pub open spec fn is_right_way(es: Seq<EntryView>, from: u32, way: Seq<u32>) -> bool {
    &&& way.len() > 0
    &&& way[0] == from
    &&& forall|i: int| 0 <= i < way.len() ==> (#[trigger] way[i]) < es.len()
    &&& forall|i: int| 0 < i < way.len() ==> #[trigger] goes_right(es, way, i)
    &&& es[way.last() as int].right_sibling == 0xffff_ffff
}

/// A right link leads to the entry `i` of `way` from the one before it.
pub open spec fn goes_right(es: Seq<EntryView>, way: Seq<u32>, i: int) -> bool {
    way[i] == es[way[i - 1] as int].right_sibling
}

/// The greatest object of a tree of siblings is where right links lead to.
pub proof fn lemma_right_way(es: Seq<EntryView>, id: u32, t: Tree, at: Slot) -> (way: Seq<u32>)
    requires
        repr(es, id, t),
        t is Node,
    ensures
        is_right_way(es, id, way),
        way.last() == rightmost(t, at).1.top(),
        rightmost(t, at).0 == if way.len() == 1 {
            at
        } else {
            Slot::Right(way[way.len() - 2])
        },
    decreases t,
{
    let right = es[id as int].right_sibling;
    crate::tree::lemma_repr_top(es, right, t.right());
    if t.right() is Nil {
        seq![id]
    } else {
        let rest = lemma_right_way(es, right, t.right(), Slot::Right(id));
        let way = seq![id] + rest;
        lemma_way_end(id, rest);
        assert forall|i: int| 0 < i < way.len() implies #[trigger] goes_right(es, way, i) by {
            assert(way[i] == rest[i - 1]);
            if i > 1 {
                assert(way[i - 1] == rest[i - 2]);
                assert(goes_right(es, rest, i - 1));
            }
        }
        assert forall|i: int| 0 <= i < way.len() implies (#[trigger] way[i]) < es.len() by {
            if i > 0 {
                assert(way[i] == rest[i - 1]);
            }
        }
        way
    }
}

/// Removing an object without children: the search for its name ends at its entry. If it
/// links to at most one sibling, the link that the search came by comes to lead to this
/// sibling, or nowhere, and the entry is cleared. If it links to two, the object that
/// right links lead to from the left one moves into the entry, with all that describes it
/// and its children. The link to where it was comes to lead to its own left sibling, and
/// the entry where it was is cleared. No other entry changes.
pub proof fn lemma_removing_effects(es: Seq<EntryView>, parent: u32, name: Seq<char>) -> (ways: (
    Seq<u32>,
    Seq<u32>,
))
    requires
        has_tree(es),
        reachable(es).contains(parent),
        find(es, children(es, parent), name) matches Some(id) && es[id as int].child == NO_STREAM,
    ensures
        ({
            let es2 = without_object(es, parent, name);
            let (way, right_way) = ways;
            let x = way.last();
            let (left, right) = (es[x as int].left_sibling, es[x as int].right_sibling);
            let slot = end_slot(es, parent, way.drop_last(), name);
            &&& es2.len() == es.len()
            &&& way.len() > 0
            &&& is_search(es, es[parent as int].child, way, name)
            &&& name_order(name, es[x as int].name) == NameOrder::Equal
            &&& find(es, children(es, parent), name) == Some(x)
            &&& left == 0xffff_ffff || right == 0xffff_ffff ==> {
                let h = slot.holder() as int;
                let link = if left == 0xffff_ffff {
                    right
                } else {
                    left
                };
                &&& 0 <= h < es.len()
                &&& h != x
                &&& only_link_set(es[h], es2[h], slot, link)
                &&& is_cleared(es2[x as int])
                &&& forall|y: int|
                    0 <= y < es.len() && y != x && y != h ==> #[trigger] es2[y] == es[y]
            }
            &&& left != 0xffff_ffff && right != 0xffff_ffff ==> {
                let last = right_way.last();
                let moved = es[last as int];
                &&& is_right_way(es, left, right_way)
                &&& last != x
                &&& is_cleared(es2[last as int])
                &&& same_object(moved, es2[x as int])
                &&& es2[x as int].child == moved.child
                &&& es2[x as int].right_sibling == right
                &&& if right_way.len() == 1 {
                    &&& es2[x as int].left_sibling == moved.left_sibling
                    &&& forall|y: int|
                        0 <= y < es.len() && y != x && y != last ==> #[trigger] es2[y] == es[y]
                } else {
                    let h = right_way[right_way.len() - 2] as int;
                    &&& h != x && h != last
                    &&& es2[x as int].left_sibling == left
                    &&& only_link_set(es[h], es2[h], Slot::Right(h as u32), moved.left_sibling)
                    &&& forall|y: int|
                        0 <= y < es.len() && y != x && y != last && y != h ==> #[trigger] es2[y]
                            == es[y]
                }
            }
        }),
{
    let es2 = without_object(es, parent, name);
    let all = children(es, parent);
    let at = Slot::Child(parent);
    crate::model::lemma_the_tree(es);
    crate::model::lemma_without_object_tree(es, parent, name);
    crate::direntry::lemma_unallocated_entry();
    crate::tree::lemma_children(es, 0, tree_at(es, 0), parent);
    crate::tree::lemma_ids_in_range(es, es[parent as int].child, all);
    let way = lemma_search_way(es, es[parent as int].child, all, name, at);
    crate::tree::lemma_target(es, es[parent as int].child, all, name, at);
    let (slot, found) = removal(es, parent, name);
    let x = way.last();
    let before = way.drop_last();
    if before.len() > 0 {
        assert(before.last() == way[way.len() - 2]);
    }
    assert(slot == end_slot(es, parent, before, name));
    crate::tree::lemma_branch_ids(found);
    let (left, right) = (es[x as int].left_sibling, es[x as int].right_sibling);
    crate::tree::lemma_repr_top(es, left, found.left());
    crate::tree::lemma_repr_top(es, right, found.right());
    assert(ids(found).contains(x) && slot.holder() != x);
    assert(slot.holder() < es.len()) by {
        if way.len() == 1 {
            assert(slot == at);
        } else {
            assert(slot.holder() == way[way.len() - 2]);
        }
    }
    if left != NO_STREAM && right != NO_STREAM {
        let right_way = lemma_right_way(es, left, found.left(), Slot::Left(x));
        let (from, last) = rightmost(found.left(), Slot::Left(x));
        crate::tree::lemma_rightmost(es, left, found.left(), Slot::Left(x));
        assert(ids(found.left()).contains(last.top()));
        assert(last.top() != x);
        if right_way.len() > 1 {
            assert(found.left().right() is Node) by {
                if found.left().right() is Nil {
                    assert(from == Slot::Left(x));
                }
            }
            assert(from.holder() != last.top());
            assert(ids(found.left()).contains(from.holder()) && from.holder() != x);
        }
        (way, right_way)
    } else {
        (way, Seq::empty())
    }
}

/// Replacing an entry changes this entry, and no other.
pub proof fn lemma_replacing_effects(d: DirectoryView, id: u32, entry: EntryView)
    requires
        id < d.entries.len(),
    ensures
        ({
            let e = d.entry_written(id, entry);
            &&& e.start == d.start
            &&& e.storage.fat == d.storage.fat
            &&& e.storage.difat == d.storage.difat
            &&& e.storage.difat_sectors == d.storage.difat_sectors
            &&& e.storage.version == d.storage.version
            &&& e.entries.len() == d.entries.len()
            &&& e.entries[id as int] == entry
            &&& forall|i: int|
                0 <= i < d.entries.len() && i != id ==> #[trigger] e.entries[i] == d.entries[i]
        }),
{
}

} // verus!

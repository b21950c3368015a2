//! Adding and removing objects keeps a directory valid.
use crate::consts;
use crate::consts::{NO_STREAM, OBJ_TYPE_UNALLOCATED, ROOT_STREAM_ID};
use crate::direntry::EntryView;
use crate::error::ErrorView;
use crate::model::{free_entry, insertion_slot, removal, with_object, without_object};
use crate::names::{name_order, NameOrder};
use crate::search::{
    all_ordered, lemma_same_siblings, lemma_siblings_in_tree, link_of, ordered, siblings,
};
use crate::tree::{
    children, descend, distinct, find, free_slot, has_tree, ids, lookup, reachable, repr,
    rightmost, same_links, target, tree_at, vacated, Slot, Tree,
};
use crate::validity::{
    child_fault, fault, is_red, left_fault, node_fault, right_fault, sound, type_fault, valid_tree,
    visits, walk_fault,
};
use vstd::prelude::*;

verus! {

/// Nothing is wrong with one entry, its color aside.
pub open spec fn sound_but_color(es: Seq<EntryView>, id: u32) -> bool {
    &&& type_fault(es, id) is None
    &&& left_fault(es, id) is None
    &&& right_fault(es, id) is None
    &&& child_fault(es, id) is None
}

/// The siblings right below a red entry are not red.
pub open spec fn well_colored(es: Seq<EntryView>, id: u32) -> bool {
    let entry = es[id as int];
    is_red(entry) ==> {
        &&& entry.left_sibling != NO_STREAM ==> !is_red(es[entry.left_sibling as int])
        &&& entry.right_sibling != NO_STREAM ==> !is_red(es[entry.right_sibling as int])
    }
}

/// Nothing is wrong in a tree exactly if nothing is wrong with any node of it by
/// itself.
pub proof fn lemma_sound_by_node(es: Seq<EntryView>, id: u32, t: Tree, parent_is_red: bool)
    requires
        repr(es, id, t),
    ensures
        sound(es, t, parent_is_red) <==> {
            &&& t is Node && parent_is_red ==> !is_red(es[id as int])
            &&& forall|x: u32| #[trigger]
                ids(t).contains(x) ==> sound_but_color(es, x) && well_colored(es, x)
        },
    decreases t,
{
    match t {
        Tree::Nil => {
            assert(ids(t) =~= Set::<u32>::empty());
        },
        Tree::Node { id: n, left, right, child } => {
            let entry = es[id as int];
            lemma_sound_by_node(es, entry.left_sibling, *left, is_red(entry));
            lemma_sound_by_node(es, entry.right_sibling, *right, is_red(entry));
            lemma_sound_by_node(es, entry.child, *child, false);
            crate::tree::lemma_branch_ids(t);
            crate::tree::lemma_repr_top(es, entry.left_sibling, *left);
            crate::tree::lemma_repr_top(es, entry.right_sibling, *right);
            if sound(es, t, parent_is_red) {
                assert forall|x: u32| #[trigger] ids(t).contains(x) implies sound_but_color(es, x)
                    && well_colored(es, x) by {
                    if ids(*left).contains(x) || ids(*right).contains(x) || ids(*child).contains(x) {
                    } else {
                        assert(x == n);
                        assert(node_fault(es, n, parent_is_red) is None);
                    }
                }
            }
            if (t is Node && parent_is_red ==> !is_red(es[id as int])) && forall|x: u32| #[trigger]
                ids(t).contains(x) ==> sound_but_color(es, x) && well_colored(es, x) {
                assert(ids(t).contains(n));
                assert(sound_but_color(es, n) && well_colored(es, n));
                assert(node_fault(es, n, parent_is_red) is None);
            }
        },
    }
}

/// A walk over trees in which nothing is wrong but perhaps the colors finds nothing
/// wrong but perhaps two red nodes in a row.
proof fn lemma_walk_colors(
    es: Seq<EntryView>,
    pending: Seq<(u32, bool)>,
    ts: Seq<Tree>,
    visited: Set<u32>,
    steps: nat,
)
    requires
        ts.len() == pending.len(),
        forall|i: int|
            0 <= i < ts.len() ==> {
                &&& #[trigger] ts[i] is Node
                &&& repr(es, pending[i].0, ts[i])
                &&& distinct(ts[i])
                &&& ids(ts[i]).disjoint(visited)
                &&& forall|x: u32| #[trigger] ids(ts[i]).contains(x) ==> sound_but_color(es, x)
            },
        forall|i: int, j: int|
            0 <= i < j < ts.len() ==> (#[trigger] ids(ts[i])).disjoint(#[trigger] ids(ts[j])),
    ensures
        walk_fault(es, pending, visited, steps) is None || walk_fault(es, pending, visited, steps)
            == Some(ErrorView::TwoRedNodes),
    decreases steps,
{
    if pending.len() > 0 && steps > 0 {
        let (id, parent_is_red) = pending.last();
        let t = ts.last();
        assert(t == ts[ts.len() - 1]);
        crate::tree::lemma_branch_ids(t);
        reveal_with_fuel(repr, 2);
        assert(sound_but_color(es, id));
        if !(parent_is_red && is_red(es[id as int])) {
            let rest = pending.drop_last();
            let more = rest + visits(es, id);
            let n = rest.len() as int;
            let lefts = if t.left() is Nil { Seq::empty() } else { seq![t.left()] };
            let rights = if t.right() is Nil { Seq::empty() } else { seq![t.right()] };
            let kids = if t.child() is Nil { Seq::empty() } else { seq![t.child()] };
            let us = ts.drop_last() + (lefts + rights + kids);
            assert(us.len() == more.len());
            assert forall|i: int| 0 <= i < us.len() implies {
                &&& #[trigger] us[i] is Node
                &&& repr(es, more[i].0, us[i])
                &&& distinct(us[i])
                &&& ids(us[i]).disjoint(visited.insert(id))
                &&& forall|x: u32| #[trigger] ids(us[i]).contains(x) ==> sound_but_color(es, x)
            } by {
                if i < n {
                    assert(us[i] == ts[i]);
                    assert(more[i] == pending[i]);
                    assert(ids(ts[i]).disjoint(ids(t)));
                } else {
                    assert(ids(t).disjoint(visited));
                    assert forall|x: u32| #[trigger] ids(us[i]).contains(
                        x,
                    ) implies sound_but_color(es, x) by {
                        assert(ids(t).contains(x));
                    }
                }
            }
            assert forall|i: int, j: int| 0 <= i < j < us.len() implies (
            #[trigger] ids(us[i])).disjoint(#[trigger] ids(us[j])) by {
                if i < n {
                    assert(us[i] == ts[i]);
                    assert(ids(ts[i]).disjoint(ids(t)));
                    if j < n {
                        assert(us[j] == ts[j]);
                    }
                }
            }
            lemma_walk_colors(es, more, us, visited.insert(id), (steps - 1) as nat);
        }
    }
}

/// A link within a tree leads to a node of the tree other than its top.
pub proof fn lemma_link_target(es: Seq<EntryView>, id: u32, t: Tree, slot: Slot)
    requires
        repr(es, id, t),
        distinct(t),
        ids(t).contains(slot.holder()),
        link_of(es, slot) != NO_STREAM,
    ensures
        ids(t).contains(link_of(es, slot)),
        link_of(es, slot) != t.top(),
        link_of(es, slot) < es.len(),
    decreases t,
{
    match t {
        Tree::Nil => {},
        Tree::Node { id: n, left, right, child } => {
            let entry = es[id as int];
            let h = slot.holder();
            crate::tree::lemma_branch_ids(t);
            crate::tree::lemma_repr_top(es, entry.left_sibling, *left);
            crate::tree::lemma_repr_top(es, entry.right_sibling, *right);
            crate::tree::lemma_repr_top(es, entry.child, *child);
            if h == n {
            } else if ids(*left).contains(h) {
                lemma_link_target(es, entry.left_sibling, *left, slot);
            } else if ids(*right).contains(h) {
                lemma_link_target(es, entry.right_sibling, *right, slot);
            } else {
                lemma_link_target(es, entry.child, *child, slot);
            }
        },
    }
}

/// No two links within a tree lead to one node.
pub proof fn lemma_one_link(es: Seq<EntryView>, id: u32, t: Tree, a: Slot, b: Slot)
    requires
        repr(es, id, t),
        distinct(t),
        ids(t).contains(a.holder()),
        ids(t).contains(b.holder()),
        link_of(es, a) != NO_STREAM,
        link_of(es, a) == link_of(es, b),
    ensures
        a == b,
    decreases t,
{
    match t {
        Tree::Nil => {},
        Tree::Node { id: n, left, right, child } => {
            let entry = es[id as int];
            let (l, r, c) = (entry.left_sibling, entry.right_sibling, entry.child);
            crate::tree::lemma_branch_ids(t);
            crate::tree::lemma_repr_top(es, l, *left);
            crate::tree::lemma_repr_top(es, r, *right);
            crate::tree::lemma_repr_top(es, c, *child);
            lemma_link_in_branch(es, id, t, a);
            lemma_link_in_branch(es, id, t, b);
            let (x, y) = (a.holder(), b.holder());
            if ids(*left).contains(x) && ids(*left).contains(y) {
                lemma_one_link(es, l, *left, a, b);
            } else if ids(*right).contains(x) && ids(*right).contains(y) {
                lemma_one_link(es, r, *right, a, b);
            } else if ids(*child).contains(x) && ids(*child).contains(y) {
                lemma_one_link(es, c, *child, a, b);
            }
        },
    }
}

/// A link held in a branch leads to a node of the branch other than its top; a link
/// held by the top leads to the top of a branch.
proof fn lemma_link_in_branch(es: Seq<EntryView>, id: u32, t: Tree, slot: Slot)
    requires
        repr(es, id, t),
        distinct(t),
        ids(t).contains(slot.holder()),
        link_of(es, slot) != NO_STREAM,
    ensures
        ({
            let h = slot.holder();
            let y = link_of(es, slot);
            &&& ids(t.left()).contains(h) ==> ids(t.left()).contains(y) && y != t.left().top()
            &&& ids(t.right()).contains(h) ==> ids(t.right()).contains(y) && y != t.right().top()
            &&& ids(t.child()).contains(h) ==> ids(t.child()).contains(y) && y != t.child().top()
            &&& h == t.top() ==> match slot {
                Slot::Left(_) => y == t.left().top() && ids(t.left()).contains(y),
                Slot::Right(_) => y == t.right().top() && ids(t.right()).contains(y),
                Slot::Child(_) => y == t.child().top() && ids(t.child()).contains(y),
            }
        }),
{
    let entry = es[id as int];
    let h = slot.holder();
    crate::tree::lemma_repr_top(es, entry.left_sibling, t.left());
    crate::tree::lemma_repr_top(es, entry.right_sibling, t.right());
    crate::tree::lemma_repr_top(es, entry.child, t.child());
    if ids(t.left()).contains(h) {
        lemma_link_target(es, entry.left_sibling, t.left(), slot);
    }
    if ids(t.right()).contains(h) {
        lemma_link_target(es, entry.right_sibling, t.right(), slot);
    }
    if ids(t.child()).contains(h) {
        lemma_link_target(es, entry.child, t.child(), slot);
    }
}

/// On the left of an entry, a new object with a lesser name comes; on the right, one
/// with a greater name.
proof fn lemma_slot_side(es: Seq<EntryView>, t: Tree, name: Seq<char>, at: Slot)
    ensures
        t is Node ==> (free_slot(es, t, name, at) matches Some(s) ==> {
            &&& s is Left ==> name_order(name, es[s.holder() as int].name) == NameOrder::Less
            &&& s is Right ==> name_order(name, es[s.holder() as int].name) == NameOrder::Greater
            &&& s !is Child
        }),
        t is Nil ==> free_slot(es, t, name, at) == Some(at),
    decreases t,
{
    match t {
        Tree::Nil => {},
        Tree::Node { id, left, right, .. } => {
            lemma_slot_side(es, *left, name, Slot::Left(id));
            lemma_slot_side(es, *right, name, Slot::Right(id));
        },
    }
}

/// Adding a storage or a stream to a valid directory leaves it valid.
pub proof fn lemma_adding_keeps_valid(
    es: Seq<EntryView>,
    parent: u32,
    name: Seq<char>,
    obj_type: u8,
    now: u64,
)
    requires
        es.len() > 0,
        fault(es) is None,
        reachable(es).contains(parent),
        find(es, children(es, parent), name) is None,
        obj_type == consts::OBJ_TYPE_STORAGE || obj_type == consts::OBJ_TYPE_STREAM,
        free_entry(es) < NO_STREAM,
    ensures
        fault(with_object(es, parent, name, obj_type, now)) is None,
{
    let id = free_entry(es) as u32;
    let es2 = with_object(es, parent, name, obj_type, now);
    let whole = tree_at(es, ROOT_STREAM_ID);
    let whole2 = tree_at(es2, ROOT_STREAM_ID);
    let slot = insertion_slot(es, parent, name);
    crate::validity::lemma_valid_iff(es);
    crate::model::lemma_the_tree(es);
    crate::model::lemma_with_object_tree(es, parent, name, obj_type, now);
    crate::model::lemma_the_tree(es2);
    crate::model::lemma_free_entry(es, 0);
    crate::search::lemma_added_object_found(es, parent, name, obj_type, now);
    lemma_slot_side(es, children(es, parent), name, Slot::Child(parent));
    crate::tree::lemma_free_slot(es, children(es, parent), name, Slot::Child(parent));
    lemma_sound_by_node(es, ROOT_STREAM_ID, whole, false);
    lemma_sound_by_node(es2, ROOT_STREAM_ID, whole2, false);
    crate::names::lemma_name_order_reversed(name, es[slot.holder() as int].name);
    assert forall|x: u32| reachable(es).contains(x) implies (#[trigger] es2[x as int]).name
        == es[x as int].name && es2[x as int].color == es[x as int].color && es2[x as int].obj_type
        == es[x as int].obj_type && es2[x as int].stream_len == es[x as int].stream_len by {
        assert(es2[x as int].payload() == es[x as int].payload());
    }
    assert forall|x: u32| #[trigger] ids(whole2).contains(x) implies sound_but_color(es2, x)
        && well_colored(es2, x) by {
        if x == id {
            assert(es2[id as int] == EntryView::created(name, obj_type, now));
        } else {
            assert(ids(whole).contains(x));
            assert(sound_but_color(es, x) && well_colored(es, x));
            let entry = es[x as int];
            if entry.left_sibling != NO_STREAM {
                lemma_link_target(es, ROOT_STREAM_ID, whole, Slot::Left(x));
                assert(reachable(es).contains(entry.left_sibling));
            }
            if entry.right_sibling != NO_STREAM {
                lemma_link_target(es, ROOT_STREAM_ID, whole, Slot::Right(x));
                assert(reachable(es).contains(entry.right_sibling));
            }
            assert(es2[x as int] == if x != slot.holder() {
                entry
            } else {
                match slot {
                    Slot::Child(_) => entry.with_child(id),
                    Slot::Left(_) => entry.with_left(id),
                    Slot::Right(_) => entry.with_right(id),
                }
            });
            assert(es2[id as int] == EntryView::created(name, obj_type, now));
            assert(id < es2.len());
            assert(type_fault(es2, x) is None);
            assert(left_fault(es2, x) is None);
            assert(right_fault(es2, x) is None);
            assert(child_fault(es2, x) is None);
            assert(well_colored(es2, x));
        }
    }
    assert(valid_tree(es2, whole2));
    crate::validity::lemma_valid_iff(es2);
}

/// In a tree of siblings in order, each stands on its side of the one that links to
/// it.
proof fn lemma_ordered_links(es: Seq<EntryView>, id: u32, t: Tree, x: u32)
    requires
        repr(es, id, t),
        ordered(es, t),
        siblings(t).contains(x),
    ensures
        left_fault(es, x) is None,
        right_fault(es, x) is None,
    decreases t,
{
    match t {
        Tree::Nil => {},
        Tree::Node { id: n, left, right, .. } => {
            let entry = es[id as int];
            crate::tree::lemma_repr_top(es, entry.left_sibling, *left);
            crate::tree::lemma_repr_top(es, entry.right_sibling, *right);
            lemma_siblings_in_tree(*left);
            lemma_siblings_in_tree(*right);
            if x == n {
            } else if siblings(*left).contains(x) {
                lemma_ordered_links(es, entry.left_sibling, *left, x);
            } else {
                lemma_ordered_links(es, entry.right_sibling, *right, x);
            }
        },
    }
}

/// Removing an object leaves nothing wrong with any entry, its color aside.
proof fn lemma_removal_sound_but_color(es: Seq<EntryView>, parent: u32, name: Seq<char>)
    requires
        es.len() > 0,
        fault(es) is None,
        reachable(es).contains(parent),
        find(es, children(es, parent), name) matches Some(id) && es[id as int].child == NO_STREAM,
        ordered(es, children(es, parent)),
    ensures
        forall|x: u32| #[trigger]
            reachable(without_object(es, parent, name)).contains(x) ==> sound_but_color(
                without_object(es, parent, name),
                x,
            ),
{
    let es2 = without_object(es, parent, name);
    let (slot, found) = removal(es, parent, name);
    let top = found.top();
    let whole = tree_at(es, ROOT_STREAM_ID);
    let whole2 = tree_at(es2, ROOT_STREAM_ID);
    let old = children(es, parent);
    crate::validity::lemma_valid_iff(es);
    crate::model::lemma_the_tree(es);
    crate::model::lemma_without_object_tree(es, parent, name);
    crate::model::lemma_the_tree(es2);
    crate::search::lemma_removed_elsewhere(es, parent, name);
    crate::tree::lemma_children(es, ROOT_STREAM_ID, whole, parent);
    lemma_siblings_in_tree(old);
    crate::tree::lemma_target(es, es[parent as int].child, old, name, Slot::Child(parent));
    lemma_sound_by_node(es, ROOT_STREAM_ID, whole, false);
    crate::search::lemma_siblings_after_removing(es, parent, name);
    assert(parent != vacated(found));
    crate::tree::lemma_children(es2, ROOT_STREAM_ID, whole2, parent);
    assert(!ids(old).contains(ROOT_STREAM_ID));
    assert forall|x: u32| #[trigger] ids(whole2).contains(x) implies sound_but_color(es2, x) by {
        assert(reachable(es).contains(x) && x != vacated(found));
        let from = if x == top { vacated(found) } else { x };
        assert(reachable(es).contains(from));
        assert(sound_but_color(es, from));
        assert(es2[x as int].payload() == es[from as int].payload());
        assert(es2[x as int].obj_type == es2[x as int].payload().obj_type);
        assert(es[from as int].obj_type == es[from as int].payload().obj_type);
        assert(type_fault(es2, x) is None);
        if es2[x as int].child != NO_STREAM {
            lemma_link_target(es2, ROOT_STREAM_ID, whole2, Slot::Child(x));
        }
        if siblings(old).contains(x) {
            lemma_ordered_links(es2, es2[parent as int].child, children(es2, parent), x);
        } else {
            let entry = es[x as int];
            assert(from == x);
            if entry.left_sibling != NO_STREAM {
                let y = entry.left_sibling;
                lemma_link_target(es2, ROOT_STREAM_ID, whole2, Slot::Left(x));
                assert(reachable(es2).contains(y));
                if y == top {
                    lemma_target_link(es, old, name, parent);
                    lemma_one_link(es, ROOT_STREAM_ID, whole, Slot::Left(x), slot);
                }
                assert(es2[y as int].name == es[y as int].name);
            }
            if entry.right_sibling != NO_STREAM {
                let y = entry.right_sibling;
                lemma_link_target(es2, ROOT_STREAM_ID, whole2, Slot::Right(x));
                assert(reachable(es2).contains(y));
                if y == top {
                    lemma_target_link(es, old, name, parent);
                    lemma_one_link(es, ROOT_STREAM_ID, whole, Slot::Right(x), slot);
                }
                assert(es2[y as int].name == es[y as int].name);
            }
        }
    }
}

/// Removing an object leaves no red entry below a red one among entries that are not
/// its siblings.
proof fn lemma_removal_colors(es: Seq<EntryView>, parent: u32, name: Seq<char>)
    requires
        es.len() > 0,
        fault(es) is None,
        reachable(es).contains(parent),
        find(es, children(es, parent), name) matches Some(id) && es[id as int].child == NO_STREAM,
        ordered(es, children(es, parent)),
    ensures
        forall|x: u32| #[trigger]
            reachable(without_object(es, parent, name)).contains(x) && !siblings(
                children(es, parent),
            ).contains(x) ==> well_colored(without_object(es, parent, name), x),
{
    let es2 = without_object(es, parent, name);
    let (slot, found) = removal(es, parent, name);
    let top = found.top();
    let whole = tree_at(es, ROOT_STREAM_ID);
    let whole2 = tree_at(es2, ROOT_STREAM_ID);
    let old = children(es, parent);
    crate::validity::lemma_valid_iff(es);
    crate::model::lemma_the_tree(es);
    crate::model::lemma_without_object_tree(es, parent, name);
    crate::model::lemma_the_tree(es2);
    crate::search::lemma_removed_elsewhere(es, parent, name);
    crate::tree::lemma_children(es, ROOT_STREAM_ID, whole, parent);
    lemma_siblings_in_tree(old);
    crate::tree::lemma_target(es, es[parent as int].child, old, name, Slot::Child(parent));
    lemma_sound_by_node(es, ROOT_STREAM_ID, whole, false);
    assert(siblings(old).contains(top) && siblings(old).contains(vacated(found))) by {
        lemma_vacated_sibling(es, old, name, Slot::Child(parent));
    }
    assert forall|x: u32| #[trigger] ids(whole2).contains(x) && !siblings(old).contains(
        x,
    ) implies well_colored(es2, x) by {
        assert(reachable(es).contains(x) && x != vacated(found) && x != top);
        assert(well_colored(es, x));
        lemma_same_color(es, es2, x, x);
        if es[x as int].left_sibling != NO_STREAM {
            let y = es[x as int].left_sibling;
            lemma_link_target(es2, ROOT_STREAM_ID, whole2, Slot::Left(x));
            if y == top {
                lemma_target_link(es, old, name, parent);
                lemma_one_link(es, ROOT_STREAM_ID, whole, Slot::Left(x), slot);
            }
            lemma_same_color(es, es2, y, y);
        }
        if es[x as int].right_sibling != NO_STREAM {
            let y = es[x as int].right_sibling;
            lemma_link_target(es2, ROOT_STREAM_ID, whole2, Slot::Right(x));
            if y == top {
                lemma_target_link(es, old, name, parent);
                lemma_one_link(es, ROOT_STREAM_ID, whole, Slot::Right(x), slot);
            }
            lemma_same_color(es, es2, y, y);
        }
    }
}

/// Where nothing is wrong with any entry, its color aside, and colors can be wrong only
/// in some of them, the directory is valid exactly if they are not wrong in these.
proof fn lemma_valid_by_color(es: Seq<EntryView>, some: Set<u32>)
    requires
        es.len() > 0,
        has_tree(es),
        es[ROOT_STREAM_ID as int].name == consts::ROOT_DIR_NAME@,
        es[ROOT_STREAM_ID as int].stream_len % (consts::MINI_SECTOR_LEN as u64) == 0,
        some.subset_of(reachable(es)),
        forall|x: u32| #[trigger] reachable(es).contains(x) ==> sound_but_color(es, x),
        forall|x: u32| #[trigger]
            reachable(es).contains(x) && !some.contains(x) ==> well_colored(es, x),
    ensures
        fault(es) is None || fault(es) == Some(ErrorView::TwoRedNodes),
        fault(es) is None <==> forall|x: u32| #[trigger] some.contains(x) ==> well_colored(es, x),
{
    let whole = tree_at(es, ROOT_STREAM_ID);
    crate::model::lemma_the_tree(es);
    crate::validity::lemma_valid_iff(es);
    lemma_walk_colors(es, seq![(ROOT_STREAM_ID, false)], seq![whole], Set::empty(), es.len() + 1);
    lemma_sound_by_node(es, ROOT_STREAM_ID, whole, false);
    if fault(es) is None {
        assert forall|x: u32| #[trigger] some.contains(x) implies well_colored(es, x) by {
            assert(ids(whole).contains(x));
        }
    }
    if forall|x: u32| #[trigger] some.contains(x) ==> well_colored(es, x) {
        assert(valid_tree(es, whole));
    }
}

/// Removing an object leaves the name and the stream of the root as they are, and only
/// siblings of the object among its siblings; they are not red if none of them was.
proof fn lemma_removal_siblings(es: Seq<EntryView>, parent: u32, name: Seq<char>)
    requires
        es.len() > 0,
        fault(es) is None,
        reachable(es).contains(parent),
        find(es, children(es, parent), name) matches Some(id) && es[id as int].child == NO_STREAM,
        ordered(es, children(es, parent)),
    ensures
        ({
            let es2 = without_object(es, parent, name);
            let left = siblings(children(es2, parent));
            let (root, root2) = (es[ROOT_STREAM_ID as int], es2[ROOT_STREAM_ID as int]);
            &&& es2.len() == es.len()
            &&& has_tree(es2)
            &&& root2.name == root.name
            &&& root2.stream_len == root.stream_len
            &&& left.subset_of(reachable(es2))
            &&& forall|x: u32| #[trigger]
                reachable(es2).contains(x) && !left.contains(x) ==> !siblings(
                    children(es, parent),
                ).contains(x)
            &&& (forall|x: u32| #[trigger]
                siblings(children(es, parent)).contains(x) ==> !is_red(es[x as int])) ==> forall|
                x: u32,
            | #[trigger] left.contains(x) ==> !is_red(es2[x as int])
        }),
{
    let es2 = without_object(es, parent, name);
    let found = removal(es, parent, name).1;
    let top = found.top();
    let old = children(es, parent);
    let left = siblings(children(es2, parent));
    crate::validity::lemma_valid_iff(es);
    crate::model::lemma_the_tree(es);
    crate::model::lemma_without_object_tree(es, parent, name);
    crate::search::lemma_removed_elsewhere(es, parent, name);
    crate::search::lemma_siblings_after_removing(es, parent, name);
    crate::tree::lemma_children(es, ROOT_STREAM_ID, tree_at(es, ROOT_STREAM_ID), parent);
    crate::tree::lemma_target(es, es[parent as int].child, old, name, Slot::Child(parent));
    lemma_siblings_in_tree(old);
    lemma_vacated_sibling(es, old, name, Slot::Child(parent));
    assert(left == siblings(old).remove(vacated(found)));
    assert(reachable(es2) == reachable(es).remove(vacated(found)));
    assert(ids(old).contains(top) && top != ROOT_STREAM_ID);
    let (root, root2) = (es[ROOT_STREAM_ID as int], es2[ROOT_STREAM_ID as int]);
    assert(root2.payload() == root.payload());
    assert(root2.payload().stream_len == root2.stream_len);
    assert(root.payload().stream_len == root.stream_len);
    assert(left.subset_of(reachable(es2))) by {
        assert forall|x: u32| left.contains(x) implies #[trigger] reachable(es2).contains(x) by {
            assert(ids(old).contains(x));
        }
    }
    if forall|x: u32| #[trigger] siblings(old).contains(x) ==> !is_red(es[x as int]) {
        assert forall|x: u32| #[trigger] left.contains(x) implies !is_red(es2[x as int]) by {
            let from = if x == top { vacated(found) } else { x };
            assert(siblings(old).contains(from));
            assert(ids(old).contains(x) && reachable(es).contains(x));
            lemma_same_color(es, es2, from, x);
        }
    }
}

/// Removing an object without children, from among siblings in the order of their
/// names, from a valid directory leaves nothing wrong with it but perhaps two red
/// nodes in a row. It leaves the directory valid exactly if there are no two red nodes
/// in a row among the siblings that remain; so it does where none of the siblings was
/// red.
pub proof fn lemma_removing_keeps_valid(es: Seq<EntryView>, parent: u32, name: Seq<char>)
    requires
        es.len() > 0,
        fault(es) is None,
        reachable(es).contains(parent),
        find(es, children(es, parent), name) matches Some(id) && es[id as int].child == NO_STREAM,
        ordered(es, children(es, parent)),
    ensures
        ({
            let es2 = without_object(es, parent, name);
            &&& fault(es2) is None || fault(es2) == Some(ErrorView::TwoRedNodes)
            &&& fault(es2) is None <==> forall|x: u32| #[trigger]
                siblings(children(es2, parent)).contains(x) ==> well_colored(es2, x)
            &&& (forall|x: u32| #[trigger]
                siblings(children(es, parent)).contains(x) ==> !is_red(es[x as int])) ==> fault(es2) is None
        }),
{
    let es2 = without_object(es, parent, name);
    crate::validity::lemma_valid_iff(es);
    lemma_removal_siblings(es, parent, name);
    lemma_removal_sound_but_color(es, parent, name);
    lemma_removal_colors(es, parent, name);
    lemma_valid_by_color(es2, siblings(children(es2, parent)));
}

/// Entries that describe the same object have the same color.
proof fn lemma_same_color(es: Seq<EntryView>, es2: Seq<EntryView>, x: u32, y: u32)
    requires
        es2[y as int].payload() == es[x as int].payload(),
    ensures
        is_red(es2[y as int]) == is_red(es[x as int]),
{
    assert(es2[y as int].color == es2[y as int].payload().color);
    assert(es[x as int].color == es[x as int].payload().color);
}

/// The entry that falls out of use when an object is removed is that of a sibling.
proof fn lemma_vacated_sibling(es: Seq<EntryView>, t: Tree, name: Seq<char>, at: Slot)
    requires
        target(es, t, name, at) is Some,
        ordered(es, t),
    ensures
        siblings(t).contains(vacated((target(es, t, name, at)->0).1)),
        siblings(t).contains((target(es, t, name, at)->0).1.top()),
{
    let found = (target(es, t, name, at)->0).1;
    crate::search::lemma_target_siblings(es, t, name, at);
    lemma_target_node(es, t, name, at);
    lemma_siblings_in_tree(found);
    if found.left() is Node && found.right() is Node {
        lemma_rightmost_sibling(found.left(), Slot::Left(found.top()));
    }
}

proof fn lemma_target_node(es: Seq<EntryView>, t: Tree, name: Seq<char>, at: Slot)
    ensures
        target(es, t, name, at) matches Some((_, found)) ==> found is Node,
    decreases t,
{
    match t {
        Tree::Nil => {},
        Tree::Node { id, left, right, .. } => {
            lemma_target_node(es, *left, name, Slot::Left(id));
            lemma_target_node(es, *right, name, Slot::Right(id));
        },
    }
}

proof fn lemma_rightmost_sibling(t: Tree, at: Slot)
    requires
        t is Node,
    ensures
        siblings(t).contains(rightmost(t, at).1.top()),
    decreases t,
{
    if t.right() is Node {
        lemma_rightmost_sibling(t.right(), Slot::Right(t.top()));
    }
}

/// The link that a search follows last leads to the object that it finds, and is
/// held by the parent or by one of the siblings of this object.
proof fn lemma_target_link(es: Seq<EntryView>, t: Tree, name: Seq<char>, parent: u32)
    requires
        has_tree(es),
        reachable(es).contains(parent),
        t == children(es, parent),
        find(es, t, name) is Some,
        ordered(es, t),
    ensures
        ({
            let (slot, found) = removal(es, parent, name);
            &&& link_of(es, slot) == found.top()
            &&& found.top() != NO_STREAM
            &&& slot is Child ==> slot.holder() == parent
            &&& slot !is Child ==> siblings(t).contains(slot.holder())
            &&& reachable(es).contains(slot.holder())
        }),
{
    let whole = tree_at(es, ROOT_STREAM_ID);
    let at = Slot::Child(parent);
    crate::model::lemma_the_tree(es);
    crate::tree::lemma_children(es, ROOT_STREAM_ID, whole, parent);
    crate::tree::lemma_target(es, es[parent as int].child, t, name, at);
    crate::search::lemma_target_siblings(es, t, name, at);
    lemma_siblings_in_tree(t);
    let found = removal(es, parent, name).1;
    crate::tree::lemma_repr_top(es, es[parent as int].child, t);
    crate::tree::lemma_repr_top(es, found.top(), found);
}

/// An entry that is changed in place, but for its links, stays where it is in the
/// tree. If its name stays the same, every chain of names still leads to where it
/// led, and siblings stay in order.
pub proof fn lemma_updating_keeps_tree(
    es: Seq<EntryView>,
    id: u32,
    entry: EntryView,
    names: Seq<Seq<char>>,
)
    requires
        has_tree(es),
        reachable(es).contains(id),
        same_links(es[id as int], entry),
        entry.obj_type != OBJ_TYPE_UNALLOCATED,
    ensures
        ({
            let es2 = es.update(id as int, entry);
            &&& has_tree(es2)
            &&& tree_at(es2, ROOT_STREAM_ID) == tree_at(es, ROOT_STREAM_ID)
            &&& reachable(es2) == reachable(es)
            &&& entry.name == es[id as int].name ==> {
                &&& lookup(es2, names) == lookup(es, names)
                &&& all_ordered(es2) == all_ordered(es)
            }
        }),
{
    let es2 = es.update(id as int, entry);
    let whole = tree_at(es, ROOT_STREAM_ID);
    crate::model::lemma_the_tree(es);
    crate::tree::lemma_repr_frame(es, es2, ROOT_STREAM_ID, whole);
    crate::tree::lemma_tree_at(es2, ROOT_STREAM_ID, whole);
    assert(crate::tree::is_tree(es2, whole));
    if entry.name == es[id as int].name {
        assert forall|p: u32| #[trigger] reachable(es).contains(p) implies ordered(
            es2,
            children(es2, p),
        ) == ordered(es, children(es, p)) by {
            lemma_updated_children(es, id, entry, p, es[p as int].name);
        }
        lemma_descend_after_updating(es, id, entry, ROOT_STREAM_ID, names);
    }
}

proof fn lemma_updated_children(
    es: Seq<EntryView>,
    id: u32,
    entry: EntryView,
    p: u32,
    name: Seq<char>,
)
    requires
        has_tree(es),
        reachable(es).contains(id),
        same_links(es[id as int], entry),
        entry.name == es[id as int].name,
        reachable(es).contains(p),
    ensures
        ({
            let es2 = es.update(id as int, entry);
            &&& find(es2, children(es2, p), name) == find(es, children(es, p), name)
            &&& ordered(es2, children(es2, p)) == ordered(es, children(es, p))
        }),
{
    let es2 = es.update(id as int, entry);
    let t = children(es, p);
    crate::model::lemma_the_tree(es);
    crate::tree::lemma_children(es, ROOT_STREAM_ID, tree_at(es, ROOT_STREAM_ID), p);
    crate::tree::lemma_repr_frame(es, es2, es[p as int].child, t);
    crate::tree::lemma_tree_at(es2, es2[p as int].child, t);
    crate::tree::lemma_ids_in_range(es, es[p as int].child, t);
    lemma_siblings_in_tree(t);
    lemma_same_siblings(es, es2, es[p as int].child, t, t, name);
}

proof fn lemma_descend_after_updating(
    es: Seq<EntryView>,
    id: u32,
    entry: EntryView,
    p: u32,
    names: Seq<Seq<char>>,
)
    requires
        has_tree(es),
        reachable(es).contains(id),
        same_links(es[id as int], entry),
        entry.name == es[id as int].name,
        reachable(es).contains(p),
    ensures
        descend(es.update(id as int, entry), p, names) == descend(es, p, names),
    decreases names.len(),
{
    if names.len() > 0 {
        lemma_updated_children(es, id, entry, p, names[0]);
        match find(es, children(es, p), names[0]) {
            None => {},
            Some(next) => {
                crate::model::lemma_the_tree(es);
                crate::tree::lemma_children(es, ROOT_STREAM_ID, tree_at(es, ROOT_STREAM_ID), p);
                crate::tree::lemma_find_in_tree(es, children(es, p), names[0]);
                lemma_descend_after_updating(es, id, entry, next, names.drop_first());
            },
        }
    }
}

/// Changing other parts of an entry than its links, name, type and color leaves a
/// valid directory valid, as long as the stream of the root is of whole mini sectors.
pub proof fn lemma_updating_keeps_valid(es: Seq<EntryView>, id: u32, entry: EntryView)
    requires
        es.len() > 0,
        fault(es) is None,
        reachable(es).contains(id),
        same_links(es[id as int], entry),
        entry.name == es[id as int].name,
        entry.obj_type == es[id as int].obj_type,
        entry.color == es[id as int].color,
        id == ROOT_STREAM_ID ==> entry.stream_len % (consts::MINI_SECTOR_LEN as u64) == 0,
    ensures
        fault(es.update(id as int, entry)) is None,
{
    let es2 = es.update(id as int, entry);
    let whole = tree_at(es, ROOT_STREAM_ID);
    crate::validity::lemma_valid_iff(es);
    crate::model::lemma_the_tree(es);
    crate::tree::lemma_repr_frame(es, es2, ROOT_STREAM_ID, whole);
    lemma_sound_by_node(es, ROOT_STREAM_ID, whole, false);
    lemma_sound_by_node(es2, ROOT_STREAM_ID, whole, false);
    assert forall|x: u32| #[trigger] ids(whole).contains(x) implies sound_but_color(es2, x)
        && well_colored(es2, x) by {
        assert(sound_but_color(es, x) && well_colored(es, x));
    }
    assert(valid_tree(es2, whole));
    crate::validity::lemma_valid_iff(es2);
}

} // verus!

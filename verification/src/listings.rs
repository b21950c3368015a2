//! What listings of a directory have in them, and in which order.
use crate::consts::{NO_STREAM, OBJ_TYPE_ROOT, OBJ_TYPE_STREAM, ROOT_STREAM_ID};
use crate::direntry::EntryView;
use crate::directory::DirectoryView;
use crate::entries::{joined, listing, object_listing, EntriesOrder};
use crate::error::ErrorView;
use crate::names::{name_chain, name_order, ComponentView, NameOrder};
use crate::search::{ordered, siblings};
use crate::tree::{children, distinct, has_tree, ids, lookup, reachable, repr, tree_at, Tree};
use crate::validity::{fault, is_link};
use vstd::prelude::*;

verus! {

/// The stream IDs in a listing.
pub open spec fn listed(l: Seq<(Seq<Seq<char>>, u32)>) -> Seq<u32> {
    l.map_values(|e: (Seq<Seq<char>>, u32)| e.1)
}

/// Only the root is of the type of a root, as in every valid directory.
pub open spec fn one_root(es: Seq<EntryView>) -> bool {
    forall|x: u32| #[trigger]
        reachable(es).contains(x) ==> (es[x as int].obj_type == OBJ_TYPE_ROOT <==> x
            == ROOT_STREAM_ID)
}

/// The entries in a tree that a walk comes to: all but those below streams.
pub open spec fn walked(es: Seq<EntryView>, t: Tree) -> Set<u32>
    decreases t,
{
    match t {
        Tree::Nil => Set::empty(),
        Tree::Node { id, left, right, child } => walked(es, *left).union(walked(es, *right)).union(
            if es[id as int].obj_type == OBJ_TYPE_STREAM {
                Set::empty()
            } else {
                walked(es, *child)
            },
        ).insert(id),
    }
}

/// The walks over some objects in one storage, one after the other.
pub open spec fn walks(es: Seq<EntryView>, objects: Seq<u32>, parent: Seq<Seq<char>>) -> Seq<
    (Seq<Seq<char>>, u32),
>
    decreases objects.len(),
{
    if objects.len() == 0 {
        Seq::empty()
    } else {
        walks(es, objects.drop_last(), parent) + object_listing(
            es,
            EntriesOrder::Preorder,
            objects.last(),
            parent,
        )
    }
}

/// What the listing of a tree of siblings is made of.
proof fn lemma_listing_parts(
    es: Seq<EntryView>,
    order: EntriesOrder,
    t: Tree,
    parent: Seq<Seq<char>>,
) -> (parts: (
    Seq<(Seq<Seq<char>>, u32)>,
    Seq<(Seq<Seq<char>>, u32)>,
    Seq<(Seq<Seq<char>>, u32)>,
))
    requires
        t is Node,
    ensures
        ({
            let path = joined(parent, es[t.top() as int]);
            let (a, b, c) = parts;
            &&& a == listing(es, order, t.left(), parent)
            &&& b == if order == EntriesOrder::Preorder && es[t.top() as int].obj_type
                != OBJ_TYPE_STREAM {
                listing(es, order, t.child(), path)
            } else {
                Seq::empty()
            }
            &&& c == listing(es, order, t.right(), parent)
            &&& listing(es, order, t, parent) == a + (seq![(path, t.top())] + b + c)
        }),
{
    reveal(listing);
    let path = joined(parent, es[t.top() as int]);
    let below = if order == EntriesOrder::Preorder && es[t.top() as int].obj_type
        != OBJ_TYPE_STREAM {
        listing(es, order, t.child(), path)
    } else {
        Seq::empty()
    };
    (listing(es, order, t.left(), parent), below, listing(es, order, t.right(), parent))
}

/// A listing has only objects of the tree in it, each once.
proof fn lemma_listed_once(es: Seq<EntryView>, order: EntriesOrder, t: Tree, parent: Seq<Seq<char>>)
    requires
        distinct(t),
    ensures
        ({
            let l = listing(es, order, t, parent);
            &&& forall|i: int| 0 <= i < l.len() ==> ids(t).contains((#[trigger] l[i]).1)
            &&& forall|i: int, j: int|
                0 <= i < j < l.len() ==> (#[trigger] l[i]).1 != (#[trigger] l[j]).1
        }),
    decreases t,
{
    let l = listing(es, order, t, parent);
    if t is Nil {
        reveal(listing);
    } else {
        let path = joined(parent, es[t.top() as int]);
        let (a, b, c) = lemma_listing_parts(es, order, t, parent);
        lemma_listed_once(es, order, t.left(), parent);
        lemma_listed_once(es, order, t.child(), path);
        lemma_listed_once(es, order, t.right(), parent);
        crate::tree::lemma_branch_ids(t);
        assert forall|i: int| 0 <= i < l.len() implies ids(t).contains((#[trigger] l[i]).1) by {
            if i < a.len() {
                assert(l[i] == a[i]);
            } else if i == a.len() {
            } else if i <= a.len() + b.len() {
                assert(l[i] == b[i - a.len() - 1]);
            } else {
                assert(l[i] == c[i - a.len() - 1 - b.len()]);
            }
        }
        assert forall|i: int, j: int| 0 <= i < j < l.len() implies (#[trigger] l[i]).1 != (
        #[trigger] l[j]).1 by {
            let (m, n) = (a.len() as int, a.len() + 1 + b.len());
            if i < m {
                assert(l[i] == a[i]);
            } else if m < i < n {
                assert(l[i] == b[i - m - 1]);
            } else if n <= i {
                assert(l[i] == c[i - n]);
            }
            if j < m {
                assert(l[j] == a[j]);
            } else if m < j < n {
                assert(l[j] == b[j - m - 1]);
            } else if n <= j {
                assert(l[j] == c[j - n]);
            }
        }
    }
}

/// The listing of one storage has every sibling in it, and no other object.
proof fn lemma_listed_siblings(es: Seq<EntryView>, t: Tree, parent: Seq<Seq<char>>)
    ensures
        ({
            let l = listing(es, EntriesOrder::Nonrecursive, t, parent);
            &&& forall|i: int| 0 <= i < l.len() ==> siblings(t).contains((#[trigger] l[i]).1)
            &&& forall|x: u32| #[trigger] siblings(t).contains(x) ==> listed(l).contains(x)
        }),
    decreases t,
{
    let order = EntriesOrder::Nonrecursive;
    let l = listing(es, order, t, parent);
    if t is Nil {
        reveal(listing);
    } else {
        let (a, b, c) = lemma_listing_parts(es, order, t, parent);
        lemma_listed_siblings(es, t.left(), parent);
        lemma_listed_siblings(es, t.right(), parent);
        assert forall|i: int| 0 <= i < l.len() implies siblings(t).contains((#[trigger] l[i]).1) by {
            if i < a.len() {
                assert(l[i] == a[i]);
            } else if i > a.len() {
                assert(l[i] == c[i - a.len() - 1]);
            }
        }
        assert forall|x: u32| #[trigger] siblings(t).contains(x) implies listed(l).contains(x) by {
            if siblings(t.left()).contains(x) {
                let i = choose|i: int| 0 <= i < listed(a).len() && listed(a)[i] == x;
                assert(l[i] == a[i]);
                assert(listed(l)[i] == x);
            } else if siblings(t.right()).contains(x) {
                let i = choose|i: int| 0 <= i < listed(c).len() && listed(c)[i] == x;
                assert(l[a.len() + 1 + i] == c[i]);
                assert(listed(l)[a.len() + 1 + i] == x);
            } else {
                assert(listed(l)[a.len() as int] == x);
            }
        }
    }
}

/// The listing of one storage is in the order of the names, if the siblings are.
proof fn lemma_listed_in_order(es: Seq<EntryView>, t: Tree, parent: Seq<Seq<char>>)
    requires
        ordered(es, t),
    ensures
        ({
            let l = listing(es, EntriesOrder::Nonrecursive, t, parent);
            forall|i: int, j: int|
                0 <= i < j < l.len() ==> name_order(
                    es[(#[trigger] l[i]).1 as int].name,
                    es[(#[trigger] l[j]).1 as int].name,
                ) == NameOrder::Less
        }),
    decreases t,
{
    let order = EntriesOrder::Nonrecursive;
    let l = listing(es, order, t, parent);
    if t is Nil {
        reveal(listing);
    } else {
        let (a, b, c) = lemma_listing_parts(es, order, t, parent);
        lemma_listed_in_order(es, t.left(), parent);
        lemma_listed_in_order(es, t.right(), parent);
        lemma_listed_siblings(es, t.left(), parent);
        lemma_listed_siblings(es, t.right(), parent);
        let own = es[t.top() as int].name;
        assert forall|i: int, j: int| 0 <= i < j < l.len() implies name_order(
            es[(#[trigger] l[i]).1 as int].name,
            es[(#[trigger] l[j]).1 as int].name,
        ) == NameOrder::Less by {
            let m = a.len() as int;
            if i < m {
                assert(l[i] == a[i]);
            } else if i > m {
                assert(l[i] == c[i - m - 1]);
            }
            if j < m {
                assert(l[j] == a[j]);
            } else if j > m {
                assert(l[j] == c[j - m - 1]);
            }
            if i < m && m < j {
                assert(siblings(t.left()).contains(l[i].1));
                assert(siblings(t.right()).contains(l[j].1));
                crate::names::lemma_name_order_transitive(
                    es[l[i].1 as int].name,
                    own,
                    es[l[j].1 as int].name,
                );
            }
        }
    }
}

/// A listing in preorder has in it what a walk comes to, and nothing else.
proof fn lemma_listed_walked(es: Seq<EntryView>, t: Tree, parent: Seq<Seq<char>>)
    ensures
        ({
            let l = listing(es, EntriesOrder::Preorder, t, parent);
            &&& forall|i: int| 0 <= i < l.len() ==> walked(es, t).contains((#[trigger] l[i]).1)
            &&& forall|x: u32| #[trigger] walked(es, t).contains(x) ==> listed(l).contains(x)
        }),
    decreases t,
{
    let order = EntriesOrder::Preorder;
    let l = listing(es, order, t, parent);
    if t is Nil {
        reveal(listing);
    } else {
        let path = joined(parent, es[t.top() as int]);
        let (a, b, c) = lemma_listing_parts(es, order, t, parent);
        let (m, n) = (a.len() as int, a.len() + 1 + b.len());
        lemma_listed_walked(es, t.left(), parent);
        lemma_listed_walked(es, t.right(), parent);
        lemma_listed_walked(es, t.child(), path);
        assert forall|i: int| 0 <= i < l.len() implies walked(es, t).contains(
            (#[trigger] l[i]).1,
        ) by {
            if i < m {
                assert(l[i] == a[i]);
            } else if m < i < n {
                assert(l[i] == b[i - m - 1]);
            } else if n <= i {
                assert(l[i] == c[i - n]);
            }
        }
        assert forall|x: u32| #[trigger] walked(es, t).contains(x) implies listed(l).contains(x) by {
            if walked(es, t.left()).contains(x) {
                let i = choose|i: int| 0 <= i < listed(a).len() && listed(a)[i] == x;
                assert(l[i] == a[i]);
                assert(listed(l)[i] == x);
            } else if walked(es, t.right()).contains(x) {
                let i = choose|i: int| 0 <= i < listed(c).len() && listed(c)[i] == x;
                assert(l[n + i] == c[i]);
                assert(listed(l)[n + i] == x);
            } else if x == t.top() {
                assert(listed(l)[m] == x);
            } else {
                assert(es[t.top() as int].obj_type != OBJ_TYPE_STREAM);
                assert(walked(es, t.child()).contains(x));
                assert(listed(b).contains(x));
                let i = choose|i: int| 0 <= i < listed(b).len() && listed(b)[i] == x;
                assert(l[m + 1 + i] == b[i]);
                assert(listed(l)[m + 1 + i] == x);
            }
        }
    }
}

/// A walk comes to every node of a tree in which no stream has children.
proof fn lemma_walked_all(es: Seq<EntryView>, id: u32, t: Tree)
    requires
        repr(es, id, t),
        forall|x: u32| #[trigger]
            ids(t).contains(x) && es[x as int].obj_type == OBJ_TYPE_STREAM ==> es[x as int].child
                == NO_STREAM,
    ensures
        walked(es, t) =~= ids(t),
    decreases t,
{
    if t is Node {
        crate::tree::lemma_branch_ids(t);
        lemma_walked_all(es, es[id as int].left_sibling, t.left());
        lemma_walked_all(es, es[id as int].right_sibling, t.right());
        lemma_walked_all(es, es[id as int].child, t.child());
        crate::tree::lemma_repr_top(es, es[id as int].child, t.child());
        assert(ids(t).contains(id));
    }
}

/// In a listing in preorder, what lies below an object comes behind it.
proof fn lemma_listed_preorder(es: Seq<EntryView>, id: u32, t: Tree, parent: Seq<Seq<char>>)
    requires
        repr(es, id, t),
        distinct(t),
    ensures
        ({
            let l = listing(es, EntriesOrder::Preorder, t, parent);
            forall|i: int, j: int|
                0 <= i < l.len() && 0 <= j < l.len() && ids(
                    children(es, (#[trigger] l[i]).1),
                ).contains((#[trigger] l[j]).1) ==> i < j
        }),
    decreases t,
{
    let order = EntriesOrder::Preorder;
    let l = listing(es, order, t, parent);
    if t is Nil {
        reveal(listing);
    } else {
        let path = joined(parent, es[t.top() as int]);
        let (a, b, c) = lemma_listing_parts(es, order, t, parent);
        let (left, right, child) = (
            es[id as int].left_sibling,
            es[id as int].right_sibling,
            es[id as int].child,
        );
        lemma_listed_preorder(es, left, t.left(), parent);
        lemma_listed_preorder(es, right, t.right(), parent);
        lemma_listed_preorder(es, child, t.child(), path);
        lemma_listed_once(es, order, t.left(), parent);
        lemma_listed_once(es, order, t.right(), parent);
        lemma_listed_once(es, order, t.child(), path);
        crate::tree::lemma_tree_at(es, child, t.child());
        let (m, n) = (a.len() as int, a.len() + 1 + b.len());
        assert forall|i: int, j: int|
            0 <= i < l.len() && 0 <= j < l.len() && ids(
                children(es, (#[trigger] l[i]).1),
            ).contains((#[trigger] l[j]).1) implies i < j by {
            if j < m {
                assert(l[j] == a[j]);
            } else if m < j < n {
                assert(l[j] == b[j - m - 1]);
            } else if n <= j {
                assert(l[j] == c[j - n]);
            }
            if i < m {
                assert(l[i] == a[i]);
                crate::tree::lemma_children(es, left, t.left(), a[i].1);
            } else if m < i < n {
                assert(l[i] == b[i - m - 1]);
                crate::tree::lemma_children(es, child, t.child(), b[i - m - 1].1);
            } else if n <= i {
                assert(l[i] == c[i - n]);
                crate::tree::lemma_children(es, right, t.right(), c[i - n].1);
            }
        }
    }
}

/// The paths in a listing lead to the objects that they stand with.
proof fn lemma_listed_paths(
    es: Seq<EntryView>,
    order: EntriesOrder,
    id: u32,
    t: Tree,
    p: u32,
    names: Seq<Seq<char>>,
)
    requires
        has_tree(es),
        one_root(es),
        ordered(es, children(es, p)),
        order == EntriesOrder::Preorder ==> forall|x: u32| #[trigger]
            ids(t).contains(x) ==> ordered(es, children(es, x)),
        reachable(es).contains(p),
        lookup(es, names) == Some(p),
        repr(es, id, t),
        ids(t).subset_of(reachable(es)),
        !ids(t).contains(ROOT_STREAM_ID),
        siblings(t).subset_of(siblings(children(es, p))),
    ensures
        ({
            let l = listing(es, order, t, names);
            forall|i: int| 0 <= i < l.len() ==> lookup(es, (#[trigger] l[i]).0) == Some(l[i].1)
        }),
    decreases t,
{
    let l = listing(es, order, t, names);
    if t is Nil {
        reveal(listing);
    } else {
        let top = t.top();
        let path = joined(names, es[top as int]);
        let (a, b, c) = lemma_listing_parts(es, order, t, names);
        crate::tree::lemma_branch_ids(t);
        crate::search::lemma_siblings_in_tree(t);
        lemma_own_path(es, p, names, top);
        lemma_listed_paths(es, order, es[id as int].left_sibling, t.left(), p, names);
        lemma_listed_paths(es, order, es[id as int].right_sibling, t.right(), p, names);
        crate::tree::lemma_tree_at(es, es[id as int].child, t.child());
        if order == EntriesOrder::Preorder {
            lemma_listed_paths(es, order, es[id as int].child, t.child(), top, path);
        }
        assert forall|i: int| 0 <= i < l.len() implies lookup(es, (#[trigger] l[i]).0) == Some(
            l[i].1,
        ) by {
            if i < a.len() {
                assert(l[i] == a[i]);
            } else if i == a.len() {
                assert(l[i] == (path, top));
            } else if i <= a.len() + b.len() {
                assert(l[i] == b[i - a.len() - 1]);
            } else {
                assert(l[i] == c[i - a.len() - 1 - b.len()]);
            }
        }
    }
}

/// The path of a storage with the name of a child leads to the child.
proof fn lemma_own_path(es: Seq<EntryView>, p: u32, names: Seq<Seq<char>>, x: u32)
    requires
        has_tree(es),
        one_root(es),
        ordered(es, children(es, p)),
        reachable(es).contains(p),
        lookup(es, names) == Some(p),
        reachable(es).contains(x),
        x != ROOT_STREAM_ID,
        siblings(children(es, p)).contains(x),
    ensures
        lookup(es, joined(names, es[x as int])) == Some(x),
{
    let name = es[x as int].name;
    crate::search::lemma_search_finds(es, children(es, p), name);
    crate::names::lemma_name_order_reversed(name, name);
    crate::search::lemma_descend_last(es, ROOT_STREAM_ID, names, name);
}

/// The listing of a storage has each of its children in it, once, and nothing else.
/// The paths are that of the storage with the name of the child.
pub proof fn lemma_storage_listing(d: DirectoryView, path: Seq<ComponentView>)
    requires
        d.wf(),
        d.storage_start(path) is Ok,
    ensures
        ({
            let es = d.entries;
            let (names, top) = d.storage_start(path)->Ok_0;
            let id = lookup(es, names)->0;
            let l = listing(es, EntriesOrder::Nonrecursive, tree_at(es, top), names);
            &&& tree_at(es, top) == children(es, id)
            &&& listed(l).no_duplicates()
            &&& forall|x: u32| #[trigger]
                listed(l).contains(x) <==> siblings(children(es, id)).contains(x)
            &&& forall|i: int|
                0 <= i < l.len() ==> (#[trigger] l[i]).0 == joined(names, es[l[i].1 as int])
        }),
{
    let es = d.entries;
    let (names, top) = d.storage_start(path)->Ok_0;
    let id = lookup(es, names)->0;
    let t = children(es, id);
    let l = listing(es, EntriesOrder::Nonrecursive, t, names);
    crate::model::lemma_the_tree(es);
    crate::search::lemma_descend_in_tree(es, ROOT_STREAM_ID, names);
    crate::tree::lemma_children(es, ROOT_STREAM_ID, tree_at(es, ROOT_STREAM_ID), id);
    lemma_listed_once(es, EntriesOrder::Nonrecursive, t, names);
    lemma_listed_siblings(es, t, names);
    lemma_sibling_paths(es, t, names);
    assert(listed(l).no_duplicates()) by {
        assert forall|i: int, j: int| 0 <= i < j < listed(l).len() implies listed(l)[i]
            != listed(l)[j] by {
            assert(l[i].1 != l[j].1);
        }
    }
    assert forall|x: u32| #[trigger] listed(l).contains(x) implies siblings(t).contains(x) by {
        let i = choose|i: int| 0 <= i < listed(l).len() && listed(l)[i] == x;
        assert(siblings(t).contains(l[i].1));
    }
}

proof fn lemma_sibling_paths(es: Seq<EntryView>, t: Tree, names: Seq<Seq<char>>)
    ensures
        ({
            let l = listing(es, EntriesOrder::Nonrecursive, t, names);
            forall|i: int|
                0 <= i < l.len() ==> (#[trigger] l[i]).0 == joined(names, es[l[i].1 as int])
        }),
    decreases t,
{
    let l = listing(es, EntriesOrder::Nonrecursive, t, names);
    if t is Nil {
        reveal(listing);
    } else {
        let (a, b, c) = lemma_listing_parts(es, EntriesOrder::Nonrecursive, t, names);
        lemma_sibling_paths(es, t.left(), names);
        lemma_sibling_paths(es, t.right(), names);
        assert forall|i: int| 0 <= i < l.len() implies (#[trigger] l[i]).0 == joined(
            names,
            es[l[i].1 as int],
        ) by {
            if i < a.len() {
                assert(l[i] == a[i]);
            } else if i > a.len() {
                assert(l[i] == c[i - a.len() - 1]);
            }
        }
    }
}

/// Where the children of a storage are in the order of their names, the listing of the
/// storage is in this order too.
pub proof fn lemma_storage_listing_ordered(d: DirectoryView, path: Seq<ComponentView>)
    requires
        d.wf(),
        d.storage_start(path) is Ok,
        ordered(d.entries, tree_at(d.entries, (d.storage_start(path)->Ok_0).1)),
    ensures
        ({
            let es = d.entries;
            let (names, top) = d.storage_start(path)->Ok_0;
            let l = listing(es, EntriesOrder::Nonrecursive, tree_at(es, top), names);
            forall|i: int, j: int|
                0 <= i < j < l.len() ==> name_order(
                    es[(#[trigger] l[i]).1 as int].name,
                    es[(#[trigger] l[j]).1 as int].name,
                ) == NameOrder::Less
        }),
{
    let (names, top) = d.storage_start(path)->Ok_0;
    lemma_listed_in_order(d.entries, tree_at(d.entries, top), names);
}

/// Where the children of a storage are in the order of their names, each path in the
/// listing of the storage leads to the object that it stands with.
pub proof fn lemma_storage_listing_paths(d: DirectoryView, path: Seq<ComponentView>)
    requires
        d.wf(),
        d.storage_start(path) is Ok,
        ordered(d.entries, tree_at(d.entries, (d.storage_start(path)->Ok_0).1)),
        one_root(d.entries),
    ensures
        ({
            let es = d.entries;
            let (names, top) = d.storage_start(path)->Ok_0;
            let l = listing(es, EntriesOrder::Nonrecursive, tree_at(es, top), names);
            forall|i: int| 0 <= i < l.len() ==> lookup(es, (#[trigger] l[i]).0) == Some(l[i].1)
        }),
{
    let es = d.entries;
    let (names, top) = d.storage_start(path)->Ok_0;
    let id = lookup(es, names)->0;
    let t = children(es, id);
    crate::model::lemma_the_tree(es);
    crate::search::lemma_descend_in_tree(es, ROOT_STREAM_ID, names);
    crate::tree::lemma_children(es, ROOT_STREAM_ID, tree_at(es, ROOT_STREAM_ID), id);
    lemma_listed_paths(es, EntriesOrder::Nonrecursive, top, t, id, names);
}

/// Walking over an object lists this object first, then everything below it that a
/// walk comes to, once each, with each object before what lies below it. Where no
/// stream below the object has children, it lists everything below it.
pub proof fn lemma_walk(d: DirectoryView, path: Seq<ComponentView>)
    requires
        d.wf(),
        d.walk_start(path) is Ok,
    ensures
        ({
            let es = d.entries;
            let (names, id) = d.walk_start(path)->Ok_0;
            let l = object_listing(es, EntriesOrder::Preorder, id, names);
            &&& l[0] == (joined(names, es[id as int]), id)
            &&& listed(l).no_duplicates()
            &&& forall|x: u32| #[trigger]
                listed(l).contains(x) <==> x == id || (es[id as int].obj_type != OBJ_TYPE_STREAM
                    && walked(es, children(es, id)).contains(x))
            &&& forall|i: int, j: int|
                0 <= i < l.len() && 0 <= j < l.len() && ids(
                    children(es, (#[trigger] l[i]).1),
                ).contains((#[trigger] l[j]).1) ==> i < j
            &&& (forall|x: u32| #[trigger]
                ids(children(es, id)).insert(id).contains(x) && es[x as int].obj_type
                    == OBJ_TYPE_STREAM ==> es[x as int].child == NO_STREAM) ==> forall|x: u32|
                #[trigger]
                listed(l).contains(x) <==> x == id || ids(children(es, id)).contains(x)
        }),
{
    let es = d.entries;
    let (names, id) = d.walk_start(path)->Ok_0;
    let order = EntriesOrder::Preorder;
    let own = joined(names, es[id as int]);
    let l = object_listing(es, order, id, names);
    let t = children(es, id);
    let whole = tree_at(es, ROOT_STREAM_ID);
    crate::model::lemma_the_tree(es);
    crate::search::lemma_descend_in_tree(es, ROOT_STREAM_ID, name_chain(path)->Ok_0);
    crate::tree::lemma_children(es, ROOT_STREAM_ID, whole, id);
    let below = if es[id as int].obj_type != OBJ_TYPE_STREAM {
        listing(es, order, t, own)
    } else {
        Seq::empty()
    };
    assert(l == seq![(own, id)] + below);
    lemma_listed_once(es, order, t, own);
    lemma_listed_walked(es, t, own);
    lemma_listed_preorder(es, es[id as int].child, t, own);
    assert forall|i: int, j: int| 0 <= i < j < listed(l).len() implies listed(l)[i]
        != listed(l)[j] by {
        assert(l[j] == below[j - 1]);
        if i > 0 {
            assert(l[i] == below[i - 1]);
        }
    }
    assert forall|x: u32| #[trigger] listed(l).contains(x) <==> x == id || (
    es[id as int].obj_type != OBJ_TYPE_STREAM && walked(es, t).contains(x)) by {
        if listed(l).contains(x) {
            let i = choose|i: int| 0 <= i < listed(l).len() && listed(l)[i] == x;
            if i > 0 {
                assert(l[i] == below[i - 1]);
            }
        }
        if x == id {
            assert(listed(l)[0] == x);
        } else if es[id as int].obj_type != OBJ_TYPE_STREAM && walked(es, t).contains(x) {
            let i = choose|i: int| 0 <= i < listed(below).len() && listed(below)[i] == x;
            assert(l[i + 1] == below[i]);
            assert(listed(l)[i + 1] == x);
        }
    }
    assert forall|i: int, j: int|
        0 <= i < l.len() && 0 <= j < l.len() && ids(children(es, (#[trigger] l[i]).1)).contains(
            (#[trigger] l[j]).1,
        ) implies i < j by {
        if j > 0 {
            assert(l[j] == below[j - 1]);
        }
        if i > 0 {
            assert(l[i] == below[i - 1]);
            crate::tree::lemma_children(es, es[id as int].child, t, below[i - 1].1);
        }
    }
    if forall|x: u32| #[trigger]
        ids(t).insert(id).contains(x) && es[x as int].obj_type == OBJ_TYPE_STREAM
            ==> es[x as int].child == NO_STREAM {
        assert forall|x: u32| #[trigger] ids(t).contains(x) && es[x as int].obj_type
            == OBJ_TYPE_STREAM implies es[x as int].child == NO_STREAM by {
            assert(ids(t).insert(id).contains(x));
        }
        lemma_walked_all(es, es[id as int].child, t);
        assert(ids(t).insert(id).contains(id));
        crate::tree::lemma_repr_top(es, es[id as int].child, t);
    }
}

/// Where the siblings of an object, and all siblings below it, are in the order of
/// their names, each path that a walk over the object lists leads to the object that
/// it stands with.
pub proof fn lemma_walk_paths(d: DirectoryView, path: Seq<ComponentView>)
    requires
        d.wf(),
        d.walk_start(path) is Ok,
        one_root(d.entries),
        ({
            let es = d.entries;
            let (names, id) = d.walk_start(path)->Ok_0;
            &&& lookup(es, names) matches Some(p) ==> ordered(es, children(es, p))
            &&& forall|x: u32| #[trigger]
                ids(children(es, id)).insert(id).contains(x) ==> ordered(es, children(es, x))
        }),
    ensures
        ({
            let es = d.entries;
            let (names, id) = d.walk_start(path)->Ok_0;
            let l = object_listing(es, EntriesOrder::Preorder, id, names);
            forall|i: int| 0 <= i < l.len() ==> lookup(es, (#[trigger] l[i]).0) == Some(l[i].1)
        }),
{
    let es = d.entries;
    let (names, id) = d.walk_start(path)->Ok_0;
    let order = EntriesOrder::Preorder;
    let own = joined(names, es[id as int]);
    let l = object_listing(es, order, id, names);
    let t = children(es, id);
    let whole = tree_at(es, ROOT_STREAM_ID);
    let chain = name_chain(path)->Ok_0;
    crate::model::lemma_the_tree(es);
    crate::search::lemma_descend_in_tree(es, ROOT_STREAM_ID, chain);
    crate::tree::lemma_children(es, ROOT_STREAM_ID, whole, id);
    assert(lookup(es, own) == Some(id)) by {
        if chain.len() > 0 {
            crate::search::lemma_descend_last(es, ROOT_STREAM_ID, names, chain.last());
            assert(names.push(chain.last()) =~= chain);
            let p = lookup(es, names)->0;
            crate::search::lemma_descend_in_tree(es, ROOT_STREAM_ID, names);
            crate::tree::lemma_children(es, ROOT_STREAM_ID, whole, p);
            crate::search::lemma_search_finds(es, children(es, p), chain.last());
            crate::search::lemma_siblings_in_tree(children(es, p));
            lemma_own_path(es, p, names, id);
        }
    }
    assert(ids(t).insert(id).contains(id));
    assert forall|x: u32| #[trigger] ids(t).contains(x) implies ordered(es, children(es, x)) by {
        assert(ids(t).insert(id).contains(x));
    }
    lemma_listed_paths(es, order, es[id as int].child, t, id, own);
    assert forall|i: int| 0 <= i < l.len() implies lookup(es, (#[trigger] l[i]).0) == Some(
        l[i].1,
    ) by {
        if i > 0 {
            assert(l[i] == listing(es, order, t, own)[i - 1]);
        }
    }
}

/// Walking over an object that is not a stream lists this object, and then what walking
/// over its children lists, one after the other, as the listing of the object has them.
pub proof fn lemma_walk_of_children(es: Seq<EntryView>, id: u32, parent: Seq<Seq<char>>)
    requires
        has_tree(es),
        reachable(es).contains(id),
        es[id as int].obj_type != OBJ_TYPE_STREAM,
    ensures
        ({
            let path = joined(parent, es[id as int]);
            let own = listing(es, EntriesOrder::Nonrecursive, children(es, id), path);
            object_listing(es, EntriesOrder::Preorder, id, parent) == seq![(path, id)] + walks(
                es,
                listed(own),
                path,
            )
        }),
{
    let path = joined(parent, es[id as int]);
    crate::model::lemma_the_tree(es);
    crate::tree::lemma_children(es, ROOT_STREAM_ID, tree_at(es, ROOT_STREAM_ID), id);
    lemma_listing_is_walks(es, es[id as int].child, children(es, id), path);
}

/// A listing in preorder is made of the walks over the siblings.
proof fn lemma_listing_is_walks(es: Seq<EntryView>, id: u32, t: Tree, path: Seq<Seq<char>>)
    requires
        repr(es, id, t),
    ensures
        listing(es, EntriesOrder::Preorder, t, path) == walks(
            es,
            listed(listing(es, EntriesOrder::Nonrecursive, t, path)),
            path,
        ),
    decreases t,
{
    let flat = listing(es, EntriesOrder::Nonrecursive, t, path);
    if t is Nil {
        reveal(listing);
        assert(listed(flat) =~= Seq::<u32>::empty());
    } else {
        let (a, b, c) = lemma_listing_parts(es, EntriesOrder::Preorder, t, path);
        let (fa, fb, fc) = lemma_listing_parts(es, EntriesOrder::Nonrecursive, t, path);
        lemma_listing_is_walks(es, es[id as int].left_sibling, t.left(), path);
        lemma_listing_is_walks(es, es[id as int].right_sibling, t.right(), path);
        crate::tree::lemma_tree_at(es, es[id as int].child, t.child());
        let top = seq![t.top()];
        assert(listed(flat) =~= listed(fa) + (top + listed(fc)));
        lemma_walks_joined(es, listed(fa), top + listed(fc), path);
        lemma_walks_joined(es, top, listed(fc), path);
        let own = object_listing(es, EntriesOrder::Preorder, t.top(), path);
        assert(walks(es, top, path) =~= own) by {
            assert(top.drop_last() =~= Seq::<u32>::empty());
            assert(walks(es, top.drop_last(), path) =~= Seq::empty());
            assert(top.last() == t.top());
        }
        assert(own =~= seq![(joined(path, es[t.top() as int]), t.top())] + b);
        assert(listing(es, EntriesOrder::Preorder, t, path) =~= a + (own + c));
    }
}

proof fn lemma_walks_joined(es: Seq<EntryView>, a: Seq<u32>, b: Seq<u32>, parent: Seq<Seq<char>>)
    ensures
        walks(es, a + b, parent) == walks(es, a, parent) + walks(es, b, parent),
    decreases b.len(),
{
    if b.len() == 0 {
        assert(a + b =~= a);
        assert(walks(es, a, parent) + walks(es, b, parent) =~= walks(es, a, parent));
    } else {
        assert((a + b).drop_last() =~= a + b.drop_last());
        assert((a + b).last() == b.last());
        lemma_walks_joined(es, a, b.drop_last(), parent);
        assert(walks(es, a + b, parent) =~= walks(es, a, parent) + walks(es, b, parent));
    }
}

/// In a valid directory, only the root is of the type of a root.
pub proof fn lemma_one_root(es: Seq<EntryView>)
    requires
        es.len() > 0,
        fault(es) is None,
    ensures
        has_tree(es),
        one_root(es),
{
    let whole = tree_at(es, ROOT_STREAM_ID);
    crate::validity::lemma_valid_iff(es);
    crate::upkeep::lemma_sound_by_node(es, ROOT_STREAM_ID, whole, false);
    assert forall|x: u32| #[trigger] reachable(es).contains(x) implies (es[x as int].obj_type
        == OBJ_TYPE_ROOT <==> x == ROOT_STREAM_ID) by {
        assert(crate::upkeep::sound_but_color(es, x));
    }
}

/// Listing a storage starts exactly where the path spells a chain of names that leads to
/// an entry that is not a stream, and from the child link of this entry. Else the error
/// of the path is given, or it is said that there is no such storage, or that it is none.
pub proof fn lemma_storage_start_meaning(d: DirectoryView, path: Seq<ComponentView>)
    ensures
        name_chain(path) matches Err(error) ==> d.storage_start(path) == Err::<
            (Seq<Seq<char>>, u32),
            ErrorView,
        >(error),
        name_chain(path) matches Ok(names) ==> match lookup(d.entries, names) {
            None => d.storage_start(path) == Err::<(Seq<Seq<char>>, u32), ErrorView>(
                ErrorView::NoSuchStorage { names },
            ),
            Some(id) => if d.entries[id as int].obj_type == 2 {
                d.storage_start(path) == Err::<(Seq<Seq<char>>, u32), ErrorView>(
                    ErrorView::NotAStorage { names },
                )
            } else {
                d.storage_start(path) == Ok::<(Seq<Seq<char>>, u32), ErrorView>(
                    (names, d.entries[id as int].child),
                )
            },
        },
{
}

/// Walking starts exactly where the path spells a chain of names that leads to an entry,
/// whatever the type and the content of this entry, and from this entry; the last name
/// of the chain is not part of the path that it lies in. Else the error of the path is
/// given, or it is said that there is no such object.
pub proof fn lemma_walk_start_meaning(d: DirectoryView, path: Seq<ComponentView>)
    ensures
        name_chain(path) matches Err(error) ==> d.walk_start(path) == Err::<
            (Seq<Seq<char>>, u32),
            ErrorView,
        >(error),
        name_chain(path) matches Ok(names) ==> match lookup(d.entries, names) {
            None => d.walk_start(path) == Err::<(Seq<Seq<char>>, u32), ErrorView>(
                ErrorView::NoSuchObject { names },
            ),
            Some(id) => {
                &&& d.walk_start(path) is Ok
                &&& (d.walk_start(path)->Ok_0).1 == id
                &&& names.len() == 0 ==> (d.walk_start(path)->Ok_0).0.len() == 0
                &&& names.len() > 0 ==> (d.walk_start(path)->Ok_0).0 == names.take(names.len() - 1)
            },
        },
{
    if let Ok(names) = name_chain(path) {
        if names.len() > 0 {
            assert(names.take(names.len() - 1) =~= names.drop_last());
        }
    }
}

/// The path of an object in a listing is that of the storage with the name of the object
/// behind it; the root alone has no name in its path.
pub proof fn lemma_listed_path(parent: Seq<Seq<char>>, entry: EntryView)
    ensures
        entry.obj_type != 5 ==> joined(parent, entry) == parent.push(entry.name),
        entry.obj_type == 5 ==> joined(parent, entry) == parent,
{
}

/// Walking over a stream lists the stream alone, whatever it links to and however long
/// it is.
pub proof fn lemma_walk_of_stream(es: Seq<EntryView>, id: u32, parent: Seq<Seq<char>>)
    requires
        es[id as int].obj_type == 2,
    ensures
        object_listing(es, EntriesOrder::Preorder, id, parent) == seq![
            (parent.push(es[id as int].name), id),
        ],
{
    assert(object_listing(es, EntriesOrder::Preorder, id, parent) =~= seq![
        (parent.push(es[id as int].name), id),
    ]);
}

/// The listing of a storage has what left links lead to from an object before it, and
/// what right links lead to behind it.
pub proof fn lemma_listing_between(es: Seq<EntryView>, id: u32, t: Tree, names: Seq<Seq<char>>)
    requires
        repr(es, id, t),
        distinct(t),
    ensures
        ({
            let l = listing(es, EntriesOrder::Nonrecursive, t, names);
            forall|i: int, j: int|
                0 <= i < l.len() && 0 <= j < l.len() ==> {
                    let x = (#[trigger] l[i]).1;
                    let y = (#[trigger] l[j]).1;
                    &&& ids(tree_at(es, es[x as int].left_sibling)).contains(y) ==> j < i
                    &&& ids(tree_at(es, es[x as int].right_sibling)).contains(y) ==> i < j
                }
        }),
    decreases t,
{
    let order = EntriesOrder::Nonrecursive;
    let l = listing(es, order, t, names);
    if t is Nil {
        reveal(listing);
    } else {
        let (a, b, c) = lemma_listing_parts(es, order, t, names);
        let (left, right) = (es[id as int].left_sibling, es[id as int].right_sibling);
        lemma_listing_between(es, left, t.left(), names);
        lemma_listing_between(es, right, t.right(), names);
        lemma_listed_once(es, order, t.left(), names);
        lemma_listed_once(es, order, t.right(), names);
        crate::tree::lemma_tree_at(es, left, t.left());
        crate::tree::lemma_tree_at(es, right, t.right());
        let m = a.len() as int;
        assert forall|i: int, j: int| 0 <= i < l.len() && 0 <= j < l.len() implies {
            let x = (#[trigger] l[i]).1;
            let y = (#[trigger] l[j]).1;
            &&& ids(tree_at(es, es[x as int].left_sibling)).contains(y) ==> j < i
            &&& ids(tree_at(es, es[x as int].right_sibling)).contains(y) ==> i < j
        } by {
            if j < m {
                assert(l[j] == a[j]);
            } else if j > m {
                assert(l[j] == c[j - m - 1]);
            }
            if i < m {
                assert(l[i] == a[i]);
                lemma_sibling_branches(es, left, t.left(), a[i].1);
            } else if i > m {
                assert(l[i] == c[i - m - 1]);
                lemma_sibling_branches(es, right, t.right(), c[i - m - 1].1);
            }
        }
    }
}

proof fn lemma_sibling_branches(es: Seq<EntryView>, id: u32, t: Tree, x: u32)
    requires
        repr(es, id, t),
        distinct(t),
        ids(t).contains(x),
    ensures
        ids(tree_at(es, es[x as int].left_sibling)).subset_of(ids(t)),
        ids(tree_at(es, es[x as int].right_sibling)).subset_of(ids(t)),
{
    crate::tree::lemma_node(es, id, t, x);
    let u = tree_at(es, x);
    crate::tree::lemma_branch_ids(u);
    crate::tree::lemma_tree_at(es, es[x as int].left_sibling, u.left());
    crate::tree::lemma_tree_at(es, es[x as int].right_sibling, u.right());
}

/// Which entries are in a tree, and which are siblings in it: the one that the tree hangs
/// from, what the links of entries in it lead to (for siblings, the left and right links
/// of siblings), and no others.
pub proof fn lemma_tree_by_links(es: Seq<EntryView>, id: u32, t: Tree)
    requires
        repr(es, id, t),
    ensures
        id == 0xffff_ffff ==> ids(t).is_empty() && siblings(t).is_empty(),
        id != 0xffff_ffff ==> ids(t).contains(id) && siblings(t).contains(id),
        forall|x: u32| #[trigger]
            ids(t).contains(x) ==> {
                let entry = es[x as int];
                &&& x < es.len()
                &&& entry.left_sibling != 0xffff_ffff ==> ids(t).contains(entry.left_sibling)
                &&& entry.right_sibling != 0xffff_ffff ==> ids(t).contains(entry.right_sibling)
                &&& entry.child != 0xffff_ffff ==> ids(t).contains(entry.child)
                &&& x == id || exists|y: u32| #[trigger] ids(t).contains(y) && is_link(es, y, x)
            },
        forall|x: u32| #[trigger]
            siblings(t).contains(x) ==> {
                let entry = es[x as int];
                &&& ids(t).contains(x)
                &&& entry.left_sibling != 0xffff_ffff ==> siblings(t).contains(entry.left_sibling)
                &&& entry.right_sibling != 0xffff_ffff ==> siblings(t).contains(
                    entry.right_sibling,
                )
                &&& x == id || exists|y: u32| #[trigger]
                    siblings(t).contains(y) && (es[y as int].left_sibling == x
                        || es[y as int].right_sibling == x)
            },
    decreases t,
{
    crate::tree::lemma_ids_in_range(es, id, t);
    crate::search::lemma_siblings_in_tree(t);
    match t {
        Tree::Nil => {
            assert(ids(t) =~= Set::<u32>::empty());
            assert(siblings(t) =~= Set::<u32>::empty());
        },
        Tree::Node { id: n, left, right, child } => {
            let entry = es[id as int];
            crate::tree::lemma_branch_ids(t);
            lemma_tree_by_links(es, entry.left_sibling, *left);
            lemma_tree_by_links(es, entry.right_sibling, *right);
            lemma_tree_by_links(es, entry.child, *child);
            assert forall|x: u32| #[trigger] ids(t).contains(x) && x != id implies exists|y: u32|
                #[trigger]
                ids(t).contains(y) && is_link(es, y, x) by {
                if x == entry.left_sibling || x == entry.right_sibling || x == entry.child {
                    assert(ids(t).contains(id) && is_link(es, id, x));
                } else {
                    let branch = if ids(*left).contains(x) {
                        *left
                    } else if ids(*right).contains(x) {
                        *right
                    } else {
                        *child
                    };
                    assert(ids(branch).contains(x));
                    let y = choose|y: u32| #[trigger] ids(branch).contains(y) && is_link(es, y, x);
                    assert(ids(t).contains(y) && is_link(es, y, x));
                }
            }
            assert forall|x: u32| #[trigger] siblings(t).contains(x) && x != id implies exists|
                y: u32,
            | #[trigger]
                siblings(t).contains(y) && (es[y as int].left_sibling == x
                    || es[y as int].right_sibling == x) by {
                if x == entry.left_sibling || x == entry.right_sibling {
                    assert(siblings(t).contains(id));
                } else {
                    let branch = if siblings(*left).contains(x) {
                        *left
                    } else {
                        *right
                    };
                    assert(siblings(branch).contains(x));
                    let y = choose|y: u32| #[trigger]
                        siblings(branch).contains(y) && (es[y as int].left_sibling == x
                            || es[y as int].right_sibling == x);
                    assert(siblings(t).contains(y));
                }
            }
        },
    }
}

} // verus!

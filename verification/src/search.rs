//! What searching a directory finds, and what adding and removing objects means
//! for it.
use crate::consts::{NO_STREAM, OBJ_TYPE_UNALLOCATED, ROOT_STREAM_ID};
use crate::direntry::EntryView;
use crate::model::{
    free_entry, insertion_slot, put, removal, with_object, without_object,
};
use crate::names::{name_order, NameOrder};
use crate::tree::{
    children, descend, detached, distinct, find, free_slot, grafted, has_tree, ids, linked, lookup,
    reachable, repr, rightmost, target, tree_at, vacated, without_rightmost, without_top, Slot,
    Tree,
};
use vstd::prelude::*;

verus! {

/// The entries that left and right links lead to from the top of a tree, and the
/// top itself.
pub open spec fn siblings(t: Tree) -> Set<u32>
    decreases t,
{
    match t {
        Tree::Nil => Set::empty(),
        Tree::Node { id, left, right, .. } => siblings(*left).union(siblings(*right)).insert(id),
    }
}

/// The siblings in a tree are in the order of their names: all on the left of a
/// node have lesser names, all on the right greater ones.
pub open spec fn ordered(es: Seq<EntryView>, t: Tree) -> bool
    decreases t,
{
    match t {
        Tree::Nil => true,
        Tree::Node { id, left, right, .. } => {
            &&& ordered(es, *left)
            &&& ordered(es, *right)
            &&& forall|x: u32| #[trigger]
                siblings(*left).contains(x) ==> name_order(es[x as int].name, es[id as int].name)
                    == NameOrder::Less
            &&& forall|x: u32| #[trigger]
                siblings(*right).contains(x) ==> name_order(es[id as int].name, es[x as int].name)
                    == NameOrder::Less
        },
    }
}

/// The children of every entry in the tree are in the order of their names.
pub open spec fn all_ordered(es: Seq<EntryView>) -> bool {
    forall|p: u32| #[trigger] reachable(es).contains(p) ==> ordered(es, children(es, p))
}

/// The laws of the order of names, for all names.
proof fn lemma_orders()
    ensures
        forall|a: Seq<char>, b: Seq<char>| #[trigger]
            name_order(b, a) == name_order(a, b).reversed(),
        forall|a: Seq<char>, b: Seq<char>, c: Seq<char>|
            #![trigger name_order(a, b), name_order(b, c)]
            name_order(a, b) == NameOrder::Less && name_order(b, c) == NameOrder::Less
                ==> name_order(a, c) == NameOrder::Less,
        forall|a: Seq<char>, b: Seq<char>, c: Seq<char>|
            #![trigger name_order(a, b), name_order(b, c)]
            #![trigger name_order(a, b), name_order(a, c)]
            name_order(a, b) == NameOrder::Equal ==> name_order(a, c) == name_order(b, c),
{
    assert forall|a: Seq<char>, b: Seq<char>| #[trigger] name_order(b, a) == name_order(
        a,
        b,
    ).reversed() by {
        crate::names::lemma_name_order_reversed(a, b);
    }
    assert forall|a: Seq<char>, b: Seq<char>, c: Seq<char>|
        #![trigger name_order(a, b), name_order(b, c)]
        name_order(a, b) == NameOrder::Less && name_order(b, c)
            == NameOrder::Less implies name_order(a, c) == NameOrder::Less by {
        crate::names::lemma_name_order_transitive(a, b, c);
    }
    assert forall|a: Seq<char>, b: Seq<char>, c: Seq<char>|
        #![trigger name_order(a, b), name_order(b, c)]
        #![trigger name_order(a, b), name_order(a, c)]
        name_order(a, b) == NameOrder::Equal implies name_order(a, c) == name_order(b, c) by {
        crate::names::lemma_name_order_transitive(a, b, c);
    }
}

/// The siblings in a tree are nodes of it.
pub proof fn lemma_siblings_in_tree(t: Tree)
    ensures
        siblings(t).subset_of(ids(t)),
        t is Node ==> siblings(t).contains(t.top()),
    decreases t,
{
    match t {
        Tree::Nil => {},
        Tree::Node { left, right, .. } => {
            lemma_siblings_in_tree(*left);
            lemma_siblings_in_tree(*right);
        },
    }
}

/// In a tree of siblings that is in order, the search finds exactly the sibling
/// with the name that is sought, if there is one.
pub proof fn lemma_search_finds(es: Seq<EntryView>, t: Tree, name: Seq<char>)
    requires
        ordered(es, t),
    ensures
        forall|x: u32| #[trigger]
            siblings(t).contains(x) && name_order(name, es[x as int].name) == NameOrder::Equal
                ==> find(es, t, name) == Some(x),
        find(es, t, name) matches Some(x) ==> siblings(t).contains(x) && name_order(
            name,
            es[x as int].name,
        ) == NameOrder::Equal,
    decreases t,
{
    match t {
        Tree::Nil => {},
        Tree::Node { id, left, right, .. } => {
            lemma_orders();
            lemma_search_finds(es, *left, name);
            lemma_search_finds(es, *right, name);
            assert forall|x: u32| #[trigger] siblings(t).contains(x) && name_order(
                name,
                es[x as int].name,
            ) == NameOrder::Equal implies find(es, t, name) == Some(x) by {
                if siblings(*left).contains(x) {
                    assert(name_order(name, es[id as int].name) == NameOrder::Less);
                } else if siblings(*right).contains(x) {
                    assert(name_order(es[x as int].name, es[id as int].name) == NameOrder::Greater);
                    assert(name_order(name, es[id as int].name) == NameOrder::Greater);
                } else {
                    assert(x == id);
                }
            }
        },
    }
}

/// Searches and the order of siblings depend on the links and names of the
/// siblings alone.
pub proof fn lemma_same_siblings(
    es: Seq<EntryView>,
    es2: Seq<EntryView>,
    id: u32,
    t: Tree,
    t2: Tree,
    name: Seq<char>,
)
    requires
        repr(es, id, t),
        repr(es2, id, t2),
        forall|x: u32| #[trigger]
            siblings(t).contains(x) ==> {
                &&& es2[x as int].left_sibling == es[x as int].left_sibling
                &&& es2[x as int].right_sibling == es[x as int].right_sibling
                &&& es2[x as int].name == es[x as int].name
            },
    ensures
        find(es2, t2, name) == find(es, t, name),
        siblings(t2) == siblings(t),
        ordered(es2, t2) == ordered(es, t),
    decreases t,
{
    match t {
        Tree::Nil => {},
        Tree::Node { id: n, left, right, .. } => {
            assert(t2 is Node);
            assert(siblings(t).contains(n));
            assert forall|x: u32| #[trigger] siblings(*left).contains(x) implies {
                &&& es2[x as int].left_sibling == es[x as int].left_sibling
                &&& es2[x as int].right_sibling == es[x as int].right_sibling
                &&& es2[x as int].name == es[x as int].name
            } by {
                assert(siblings(t).contains(x));
            }
            assert forall|x: u32| #[trigger] siblings(*right).contains(x) implies {
                &&& es2[x as int].left_sibling == es[x as int].left_sibling
                &&& es2[x as int].right_sibling == es[x as int].right_sibling
                &&& es2[x as int].name == es[x as int].name
            } by {
                assert(siblings(t).contains(x));
            }
            lemma_same_siblings(es, es2, es[id as int].left_sibling, *left, t2.left(), name);
            lemma_same_siblings(es, es2, es[id as int].right_sibling, *right, t2.right(), name);
        },
    }
}

/// The children of a node lie below the level of the siblings at the top.
proof fn lemma_children_below(es: Seq<EntryView>, id: u32, t: Tree, q: u32)
    requires
        repr(es, id, t),
        distinct(t),
        ids(t).contains(q),
    ensures
        siblings(t).disjoint(ids(children(es, q))),
    decreases t,
{
    match t {
        Tree::Nil => {},
        Tree::Node { id: n, left, right, child } => {
            lemma_siblings_in_tree(*left);
            lemma_siblings_in_tree(*right);
            crate::tree::lemma_children(es, id, t, q);
            if q == n {
                crate::tree::lemma_tree_at(es, es[n as int].child, *child);
            } else if ids(*left).contains(q) {
                crate::tree::lemma_children(es, es[id as int].left_sibling, *left, q);
                lemma_children_below(es, es[id as int].left_sibling, *left, q);
            } else if ids(*right).contains(q) {
                crate::tree::lemma_children(es, es[id as int].right_sibling, *right, q);
                lemma_children_below(es, es[id as int].right_sibling, *right, q);
            } else {
                crate::tree::lemma_children(es, es[id as int].child, *child, q);
            }
        },
    }
}

/// No entry is a child of two others.
pub proof fn lemma_one_parent(es: Seq<EntryView>, id: u32, t: Tree, p: u32, q: u32)
    requires
        repr(es, id, t),
        distinct(t),
        ids(t).contains(p),
        ids(t).contains(q),
        p != q,
    ensures
        siblings(children(es, p)).disjoint(siblings(children(es, q))),
    decreases t,
{
    match t {
        Tree::Nil => {},
        Tree::Node { id: n, left, right, child } => {
            let (l, r, c) = (
                es[id as int].left_sibling,
                es[id as int].right_sibling,
                es[id as int].child,
            );
            crate::tree::lemma_tree_at(es, c, *child);
            lemma_siblings_in_tree(children(es, p));
            lemma_siblings_in_tree(children(es, q));
            if p == n || q == n {
                let other = if p == n { q } else { p };
                if ids(*left).contains(other) {
                    crate::tree::lemma_children(es, l, *left, other);
                } else if ids(*right).contains(other) {
                    crate::tree::lemma_children(es, r, *right, other);
                } else {
                    lemma_children_below(es, c, *child, other);
                }
            } else {
                if ids(*left).contains(p) {
                    crate::tree::lemma_children(es, l, *left, p);
                } else if ids(*right).contains(p) {
                    crate::tree::lemma_children(es, r, *right, p);
                } else {
                    crate::tree::lemma_children(es, c, *child, p);
                }
                if ids(*left).contains(q) {
                    crate::tree::lemma_children(es, l, *left, q);
                } else if ids(*right).contains(q) {
                    crate::tree::lemma_children(es, r, *right, q);
                } else {
                    crate::tree::lemma_children(es, c, *child, q);
                }
                if ids(*left).contains(p) && ids(*left).contains(q) {
                    lemma_one_parent(es, l, *left, p, q);
                }
                if ids(*right).contains(p) && ids(*right).contains(q) {
                    lemma_one_parent(es, r, *right, p, q);
                }
                if ids(*child).contains(p) && ids(*child).contains(q) {
                    lemma_one_parent(es, c, *child, p, q);
                }
            }
        },
    }
}

proof fn lemma_find_grafted(
    es: Seq<EntryView>,
    es2: Seq<EntryView>,
    t: Tree,
    name: Seq<char>,
    new: u32,
    sought: Seq<char>,
)
    requires
        find(es, t, name) is None,
        es2[new as int].name == name,
        forall|x: u32| #[trigger]
            siblings(t).contains(x) ==> es2[x as int].name == es[x as int].name,
    ensures
        find(es2, grafted(es, t, name, new), sought) == if name_order(sought, name)
            == NameOrder::Equal {
            Some(new)
        } else {
            find(es, t, sought)
        },
        siblings(grafted(es, t, name, new)) =~= siblings(t).insert(new),
        ordered(es, t) ==> ordered(es2, grafted(es, t, name, new)),
    decreases t,
{
    lemma_orders();
    match t {
        Tree::Nil => {
            reveal_with_fuel(find, 3);
            reveal_with_fuel(siblings, 3);
            reveal_with_fuel(ordered, 3);
        },
        Tree::Node { id, left, right, child } => {
            assert(siblings(t).contains(id));
            assert forall|x: u32| #[trigger] siblings(*left).contains(x) implies es2[x as int].name
                == es[x as int].name by {
                assert(siblings(t).contains(x));
            }
            assert forall|x: u32| #[trigger] siblings(*right).contains(x) implies es2[x as int].name
                == es[x as int].name by {
                assert(siblings(t).contains(x));
            }
            lemma_same_names_of_siblings(es, es2, *left, sought);
            lemma_same_names_of_siblings(es, es2, *right, sought);
            match name_order(name, es[id as int].name) {
                NameOrder::Equal => {},
                NameOrder::Less => {
                    lemma_find_grafted(es, es2, *left, name, new, sought);
                },
                NameOrder::Greater => {
                    lemma_find_grafted(es, es2, *right, name, new, sought);
                },
            }
        },
    }
}

proof fn lemma_same_names_of_siblings(
    es: Seq<EntryView>,
    es2: Seq<EntryView>,
    t: Tree,
    name: Seq<char>,
)
    requires
        forall|x: u32| #[trigger]
            siblings(t).contains(x) ==> es2[x as int].name == es[x as int].name,
    ensures
        find(es2, t, name) == find(es, t, name),
        ordered(es2, t) == ordered(es, t),
    decreases t,
{
    match t {
        Tree::Nil => {},
        Tree::Node { id, left, right, .. } => {
            assert(siblings(t).contains(id));
            assert forall|x: u32| #[trigger] siblings(*left).contains(x) implies es2[x as int].name
                == es[x as int].name by {
                assert(siblings(t).contains(x));
            }
            assert forall|x: u32| #[trigger] siblings(*right).contains(x) implies es2[x as int].name
                == es[x as int].name by {
                assert(siblings(t).contains(x));
            }
            lemma_same_names_of_siblings(es, es2, *left, name);
            lemma_same_names_of_siblings(es, es2, *right, name);
        },
    }
}

/// The link that comes to lead to a new object is the child link of the parent, or
/// a sibling link of one of its children.
proof fn lemma_insertion_slot(es: Seq<EntryView>, t: Tree, name: Seq<char>, at: Slot)
    ensures
        free_slot(es, t, name, at) matches Some(s) ==> s == at || (s !is Child && siblings(
            t,
        ).contains(s.holder())),
        t is Nil ==> free_slot(es, t, name, at) == Some(at),
        t is Node ==> (free_slot(es, t, name, at) matches Some(s) ==> s !is Child),
    decreases t,
{
    match t {
        Tree::Nil => {},
        Tree::Node { id, left, right, .. } => {
            lemma_insertion_slot(es, *left, name, Slot::Left(id));
            lemma_insertion_slot(es, *right, name, Slot::Right(id));
        },
    }
}

/// Adding an object: a search among the children of its parent finds it for each
/// name that equals its own, and for any other name finds what it found before.
/// Searches among the children of other entries find what they found before, and
/// the new object has no children. All objects stay what they were. If siblings
/// were in the order of their names everywhere, they still are.
pub proof fn lemma_added_object_found(
    es: Seq<EntryView>,
    parent: u32,
    name: Seq<char>,
    obj_type: u8,
    now: u64,
)
    requires
        has_tree(es),
        reachable(es).contains(parent),
        find(es, children(es, parent), name) is None,
        obj_type != OBJ_TYPE_UNALLOCATED,
        free_entry(es) < NO_STREAM,
    ensures
        ({
            let id = free_entry(es) as u32;
            let es2 = with_object(es, parent, name, obj_type, now);
            &&& forall|sought: Seq<char>| #[trigger]
                find(es2, children(es2, parent), sought) == if name_order(sought, name)
                    == NameOrder::Equal {
                    Some(id)
                } else {
                    find(es, children(es, parent), sought)
                }
            &&& forall|q: u32, sought: Seq<char>|
                reachable(es).contains(q) && q != parent ==> #[trigger] find(
                    es2,
                    children(es2, q),
                    sought,
                ) == find(es, children(es, q), sought)
            &&& children(es2, id) is Nil
            &&& es2[id as int].payload() == EntryView::created(name, obj_type, now)
            &&& forall|x: u32| #[trigger]
                reachable(es).contains(x) ==> es2[x as int].payload() == es[x as int].payload()
            &&& all_ordered(es) ==> all_ordered(es2)
        }),
{
    let id = free_entry(es) as u32;
    let fresh = EntryView::created(name, obj_type, now);
    let es1 = put(es, id as int, fresh);
    let es2 = with_object(es, parent, name, obj_type, now);
    let whole = tree_at(es, ROOT_STREAM_ID);
    let whole2 = tree_at(es2, ROOT_STREAM_ID);
    let old = children(es, parent);
    let slot = insertion_slot(es, parent, name);
    crate::model::lemma_with_object_tree(es, parent, name, obj_type, now);
    crate::model::lemma_the_tree(es);
    crate::model::lemma_the_tree(es2);
    crate::model::lemma_free_entry(es, 0);
    crate::tree::lemma_children(es, ROOT_STREAM_ID, whole, parent);
    crate::tree::lemma_free_slot(es, old, name, Slot::Child(parent));
    lemma_insertion_slot(es, old, name, Slot::Child(parent));
    lemma_siblings_in_tree(old);
    assert(es2[id as int] == fresh);
    assert forall|x: u32| #[trigger] reachable(es).contains(x) implies es2[x as int].payload()
        == es[x as int].payload() && es2[x as int].name == es[x as int].name by {}
    assert forall|sought: Seq<char>| #[trigger] find(es2, children(es2, parent), sought)
        == if name_order(sought, name) == NameOrder::Equal {
        Some(id)
    } else {
        find(es, old, sought)
    } by {
        lemma_find_grafted(es, es2, old, name, id, sought);
    }
    assert forall|q: u32| reachable(es).contains(q) && q != parent implies {
        &&& repr(es, es[q as int].child, children(es, q))
        &&& repr(es2, es[q as int].child, #[trigger] children(es2, q))
        &&& forall|x: u32| #[trigger]
            siblings(children(es, q)).contains(x) ==> {
                &&& es2[x as int].left_sibling == es[x as int].left_sibling
                &&& es2[x as int].right_sibling == es[x as int].right_sibling
                &&& es2[x as int].name == es[x as int].name
            }
    } by {
        crate::tree::lemma_children(es, ROOT_STREAM_ID, whole, q);
        crate::tree::lemma_children(es2, ROOT_STREAM_ID, whole2, q);
        lemma_one_parent(es, ROOT_STREAM_ID, whole, parent, q);
        lemma_siblings_in_tree(children(es, q));
        assert(es2[q as int].child == es[q as int].child);
        assert forall|x: u32| #[trigger] siblings(children(es, q)).contains(x) implies {
            &&& es2[x as int].left_sibling == es[x as int].left_sibling
            &&& es2[x as int].right_sibling == es[x as int].right_sibling
            &&& es2[x as int].name == es[x as int].name
        } by {
            assert(reachable(es).contains(x));
            assert(!siblings(old).contains(x));
        }
    }
    assert forall|q: u32, sought: Seq<char>|
        reachable(es).contains(q) && q != parent implies #[trigger] find(
        es2,
        children(es2, q),
        sought,
    ) == find(es, children(es, q), sought) by {
        lemma_same_siblings(
            es,
            es2,
            es[q as int].child,
            children(es, q),
            children(es2, q),
            sought,
        );
    }
    assert(repr(es2, NO_STREAM, Tree::Nil));
    crate::tree::lemma_tree_at(es2, NO_STREAM, Tree::Nil);
    if all_ordered(es) {
        assert forall|p: u32| #[trigger] reachable(es2).contains(p) implies ordered(
            es2,
            children(es2, p),
        ) by {
            if p == parent {
                lemma_find_grafted(es, es2, old, name, id, name);
            } else if p != id {
                assert(reachable(es).contains(p));
                lemma_same_siblings(
                    es,
                    es2,
                    es[p as int].child,
                    children(es, p),
                    children(es2, p),
                    name,
                );
            }
        }
    }
}

/// A chain of names leads to where its last name leads from where the others do.
pub proof fn lemma_descend_last(es: Seq<EntryView>, id: u32, names: Seq<Seq<char>>, name: Seq<char>)
    ensures
        descend(es, id, names.push(name)) == match descend(es, id, names) {
            None => None,
            Some(p) => find(es, children(es, p), name),
        },
    decreases names.len(),
{
    if names.len() == 0 {
        assert(names.push(name).drop_first() =~= names);
        reveal_with_fuel(descend, 2);
    } else {
        assert(names.push(name).drop_first() =~= names.drop_first().push(name));
        match find(es, children(es, id), names[0]) {
            None => {},
            Some(next) => {
                lemma_descend_last(es, next, names.drop_first(), name);
            },
        }
    }
}

/// A chain of names that is made of two leads to where the second leads from where the
/// first does.
pub proof fn lemma_descend_joined(
    es: Seq<EntryView>,
    id: u32,
    a: Seq<Seq<char>>,
    b: Seq<Seq<char>>,
)
    ensures
        descend(es, id, a + b) == match descend(es, id, a) {
            None => None,
            Some(p) => descend(es, p, b),
        },
    decreases a.len(),
{
    if a.len() == 0 {
        assert(a + b =~= b);
    } else {
        assert((a + b).drop_first() =~= a.drop_first() + b);
        match find(es, children(es, id), a[0]) {
            None => {},
            Some(next) => {
                lemma_descend_joined(es, next, a.drop_first(), b);
            },
        }
    }
}

/// What a chain of names leads to lies in the tree.
pub proof fn lemma_descend_in_tree(es: Seq<EntryView>, id: u32, names: Seq<Seq<char>>)
    requires
        has_tree(es),
        reachable(es).contains(id),
    ensures
        descend(es, id, names) matches Some(x) ==> reachable(es).contains(x),
    decreases names.len(),
{
    if names.len() > 0 {
        match find(es, children(es, id), names[0]) {
            None => {},
            Some(next) => {
                crate::model::lemma_the_tree(es);
                crate::tree::lemma_children(es, ROOT_STREAM_ID, tree_at(es, ROOT_STREAM_ID), id);
                crate::tree::lemma_find_in_tree(es, children(es, id), names[0]);
                lemma_descend_in_tree(es, next, names.drop_first());
            },
        }
    }
}

/// Adding an object below the storage at the end of a chain of names puts it at the
/// end of this chain with its name added. Every chain that led to an object before
/// still leads to it, and one that led nowhere leads nowhere or to the new object.
pub proof fn lemma_lookup_after_adding(
    es: Seq<EntryView>,
    parent: u32,
    name: Seq<char>,
    obj_type: u8,
    now: u64,
    names: Seq<Seq<char>>,
)
    requires
        has_tree(es),
        reachable(es).contains(parent),
        find(es, children(es, parent), name) is None,
        obj_type != OBJ_TYPE_UNALLOCATED,
        free_entry(es) < NO_STREAM,
    ensures
        ({
            let es2 = with_object(es, parent, name, obj_type, now);
            &&& lookup(es, names) == Some(parent) ==> lookup(es2, names.push(name)) == Some(
                free_entry(es) as u32,
            )
            &&& lookup(es, names) is Some ==> lookup(es2, names) == lookup(es, names)
            &&& lookup(es, names) is None ==> lookup(es2, names) is None || lookup(es2, names)
                == Some(free_entry(es) as u32)
        }),
{
    let es2 = with_object(es, parent, name, obj_type, now);
    crate::model::lemma_the_tree(es);
    lemma_added_object_found(es, parent, name, obj_type, now);
    lemma_descend_after_adding(es, parent, name, obj_type, now, ROOT_STREAM_ID, names);
    lemma_descend_last(es2, ROOT_STREAM_ID, names, name);
    crate::names::lemma_name_order_reversed(name, name);
}

proof fn lemma_descend_after_adding(
    es: Seq<EntryView>,
    parent: u32,
    name: Seq<char>,
    obj_type: u8,
    now: u64,
    id: u32,
    names: Seq<Seq<char>>,
)
    requires
        has_tree(es),
        reachable(es).contains(parent),
        reachable(es).contains(id),
        find(es, children(es, parent), name) is None,
        obj_type != OBJ_TYPE_UNALLOCATED,
        free_entry(es) < NO_STREAM,
    ensures
        ({
            let es2 = with_object(es, parent, name, obj_type, now);
            ||| descend(es2, id, names) == descend(es, id, names)
            ||| descend(es, id, names) is None && descend(es2, id, names) == Some(
                free_entry(es) as u32,
            )
        }),
    decreases names.len(),
{
    if names.len() > 0 {
        let es2 = with_object(es, parent, name, obj_type, now);
        lemma_added_object_found(es, parent, name, obj_type, now);
        crate::model::lemma_the_tree(es);
        crate::tree::lemma_children(es, ROOT_STREAM_ID, tree_at(es, ROOT_STREAM_ID), id);
        crate::tree::lemma_find_in_tree(es, children(es, id), names[0]);
        if id == parent && name_order(names[0], name) == NameOrder::Equal {
            lemma_find_equal(es, children(es, id), names[0], name);
            reveal_with_fuel(descend, 2);
        } else {
            assert(find(es2, children(es2, id), names[0]) == find(
                es,
                children(es, id),
                names[0],
            ));
            if let Some(next) = find(es, children(es, id), names[0]) {
                lemma_descend_after_adding(
                    es,
                    parent,
                    name,
                    obj_type,
                    now,
                    next,
                    names.drop_first(),
                );
            }
        }
    }
}

/// Names that are equal in the order find the same.
pub proof fn lemma_find_equal(es: Seq<EntryView>, t: Tree, a: Seq<char>, b: Seq<char>)
    requires
        name_order(a, b) == NameOrder::Equal,
    ensures
        find(es, t, a) == find(es, t, b),
    decreases t,
{
    match t {
        Tree::Nil => {},
        Tree::Node { id, left, right, .. } => {
            crate::names::lemma_name_order_transitive(a, b, es[id as int].name);
            lemma_find_equal(es, *left, a, b);
            lemma_find_equal(es, *right, a, b);
        },
    }
}

/// Where the object in entry `x` is after the one at the top of `found` is removed.
pub open spec fn moved_to(found: Tree, x: u32) -> u32 {
    if x == vacated(found) {
        found.top()
    } else {
        x
    }
}

/// A tree of siblings in order without its rightmost node: the search finds what it
/// found before, but for the name of this node, which is the greatest.
proof fn lemma_find_without_rightmost(es: Seq<EntryView>, t: Tree, at: Slot, sought: Seq<char>)
    requires
        ordered(es, t),
        distinct(t),
        t is Node,
    ensures
        ({
            let (from, node) = rightmost(t, at);
            let last = node.top();
            &&& node is Node
            &&& siblings(t).contains(last)
            &&& from == at || siblings(t).contains(from.holder())
            &&& siblings(without_rightmost(t)) =~= siblings(t).remove(last)
            &&& ordered(es, without_rightmost(t))
            &&& forall|x: u32| #[trigger]
                siblings(t).contains(x) && x != last ==> name_order(
                    es[x as int].name,
                    es[last as int].name,
                ) == NameOrder::Less
            &&& find(es, without_rightmost(t), sought) == if name_order(
                sought,
                es[last as int].name,
            ) == NameOrder::Equal {
                None
            } else {
                find(es, t, sought)
            }
        }),
    decreases t,
{
    lemma_orders();
    match t {
        Tree::Nil => {},
        Tree::Node { id, left, right, .. } => {
            lemma_siblings_in_tree(*left);
            lemma_siblings_in_tree(*right);
            lemma_search_finds(es, *left, sought);
            match *right {
                Tree::Nil => {
                    if let Some(x) = find(es, *left, sought) {
                        assert(name_order(es[x as int].name, es[id as int].name)
                            == NameOrder::Less);
                    }
                },
                _ => {
                    lemma_find_without_rightmost(es, *right, Slot::Right(id), sought);
                    let last = rightmost(*right, Slot::Right(id)).1.top();
                    assert(name_order(es[id as int].name, es[last as int].name)
                        == NameOrder::Less);
                    assert forall|x: u32| #[trigger] siblings(t).contains(x) && x
                        != last implies name_order(es[x as int].name, es[last as int].name)
                        == NameOrder::Less by {
                        if siblings(*left).contains(x) {
                            assert(name_order(es[x as int].name, es[id as int].name)
                                == NameOrder::Less);
                        }
                    }
                },
            }
        },
    }
}

/// A tree of siblings in order without the object at its top: the search finds
/// what it found before, but for the name of this object.
proof fn lemma_find_without_top(
    es: Seq<EntryView>,
    es2: Seq<EntryView>,
    t: Tree,
    sought: Seq<char>,
)
    requires
        ordered(es, t),
        distinct(t),
        t is Node,
        forall|x: u32| #[trigger]
            siblings(t).contains(x) && x != t.top() && x != vacated(t) ==> es2[x as int].name
                == es[x as int].name,
        vacated(t) != t.top() ==> es2[t.top() as int].name == es[vacated(t) as int].name,
    ensures
        siblings(t).contains(vacated(t)),
        siblings(without_top(t)) =~= siblings(t).remove(vacated(t)),
        ordered(es2, without_top(t)),
        find(es2, without_top(t), sought) == if name_order(sought, es[t.top() as int].name)
            == NameOrder::Equal {
            None
        } else {
            match find(es, t, sought) {
                None => None,
                Some(x) => Some(moved_to(t, x)),
            }
        },
{
    lemma_orders();
    let top = t.top();
    let name = es[top as int].name;
    let (left, right) = (t.left(), t.right());
    lemma_siblings_in_tree(t);
    lemma_siblings_in_tree(left);
    lemma_siblings_in_tree(right);
    lemma_search_finds(es, left, sought);
    lemma_search_finds(es, right, sought);
    if let Some(x) = find(es, left, sought) {
        assert(name_order(es[x as int].name, name) == NameOrder::Less);
    }
    if let Some(x) = find(es, right, sought) {
        assert(name_order(name, es[x as int].name) == NameOrder::Less);
    }
    if left is Nil {
        assert forall|x: u32| #[trigger] siblings(right).contains(x) implies es2[x as int].name
            == es[x as int].name by {
            assert(siblings(t).contains(x));
        }
        lemma_same_names_of_siblings(es, es2, right, sought);
    } else if right is Nil {
        assert forall|x: u32| #[trigger] siblings(left).contains(x) implies es2[x as int].name
            == es[x as int].name by {
            assert(siblings(t).contains(x));
        }
        lemma_same_names_of_siblings(es, es2, left, sought);
    } else {
        let last = vacated(t);
        let moved = es[last as int].name;
        let rest = without_rightmost(left);
        lemma_find_without_rightmost(es, left, Slot::Left(top), sought);
        assert(name_order(moved, name) == NameOrder::Less);
        assert forall|x: u32| #[trigger] siblings(rest).contains(x) implies es2[x as int].name
            == es[x as int].name by {
            assert(siblings(t).contains(x));
        }
        assert forall|x: u32| #[trigger] siblings(right).contains(x) implies es2[x as int].name
            == es[x as int].name && name_order(moved, es[x as int].name) == NameOrder::Less by {
            assert(siblings(t).contains(x));
            assert(name_order(name, es[x as int].name) == NameOrder::Less);
        }
        lemma_same_names_of_siblings(es, es2, rest, sought);
        lemma_same_names_of_siblings(es, es2, right, sought);
        if name_order(sought, moved) == NameOrder::Equal {
            assert(find(es, left, sought) == Some(last));
            assert(name_order(sought, name) == NameOrder::Less);
        } else if name_order(sought, moved) == NameOrder::Greater {
            assert(name_order(moved, sought) == NameOrder::Less);
            if let Some(x) = find(es, left, sought) {
                assert(name_order(es[x as int].name, moved) == NameOrder::Less || x == last);
                assert(name_order(sought, es[x as int].name) == NameOrder::Equal);
            }
            if name_order(sought, name) != NameOrder::Greater {
                if let Some(x) = find(es, right, sought) {
                    assert(name_order(sought, es[x as int].name) == NameOrder::Equal);
                }
            }
        } else {
            assert(name_order(sought, name) == NameOrder::Less);
        }
    }
}

/// A tree of siblings in order without the object that a search finds: searches
/// find what they found before, but for the name of this object.
proof fn lemma_find_detached(
    es: Seq<EntryView>,
    es2: Seq<EntryView>,
    t: Tree,
    name: Seq<char>,
    at: Slot,
    sought: Seq<char>,
)
    requires
        ordered(es, t),
        distinct(t),
        target(es, t, name, at) is Some,
        ({
            let found = (target(es, t, name, at)->0).1;
            &&& forall|x: u32| #[trigger]
                siblings(t).contains(x) && x != found.top() && x != vacated(found)
                    ==> es2[x as int].name == es[x as int].name
            &&& vacated(found) != found.top() ==> es2[found.top() as int].name
                == es[vacated(found) as int].name
        }),
    ensures
        ({
            let (slot, found) = target(es, t, name, at)->0;
            &&& found is Node
            &&& ordered(es, found)
            &&& distinct(found)
            &&& siblings(found).subset_of(siblings(t))
            &&& slot == at || siblings(t).contains(slot.holder())
            &&& siblings(t).contains(found.top())
            &&& siblings(t).contains(vacated(found))
            &&& siblings(detached(es, t, name)) =~= siblings(t).remove(vacated(found))
            &&& ordered(es2, detached(es, t, name))
            &&& find(es2, detached(es, t, name), sought) == if name_order(sought, name)
                == NameOrder::Equal {
                None
            } else {
                match find(es, t, sought) {
                    None => None,
                    Some(x) => Some(moved_to(found, x)),
                }
            }
        }),
    decreases t,
{
    let (slot, found) = target(es, t, name, at)->0;
    match t {
        Tree::Nil => {},
        Tree::Node { id, left, right, .. } => {
            lemma_siblings_in_tree(*left);
            lemma_siblings_in_tree(*right);
            assert(siblings(t).contains(id));
            assert forall|x: u32| #[trigger] siblings(*left).contains(x) implies siblings(
                t,
            ).contains(x) by {}
            assert forall|x: u32| #[trigger] siblings(*right).contains(x) implies siblings(
                t,
            ).contains(x) by {}
            match name_order(name, es[id as int].name) {
                NameOrder::Equal => {
                    lemma_find_without_top(es, es2, t, sought);
                    lemma_orders();
                },
                NameOrder::Less => {
                    lemma_find_detached(es, es2, *left, name, Slot::Left(id), sought);
                    lemma_same_names_of_siblings(es, es2, *right, sought);
                    lemma_search_finds(es, *right, sought);
                    lemma_orders();
                    assert(es2[id as int].name == es[id as int].name);
                    assert forall|x: u32| #[trigger] siblings(
                        detached(es, *left, name),
                    ).contains(x) implies name_order(es2[x as int].name, es2[id as int].name)
                        == NameOrder::Less by {
                        assert(siblings(*left).contains(x));
                        assert(siblings(*left).contains(vacated(found)));
                    }
                },
                NameOrder::Greater => {
                    lemma_find_detached(es, es2, *right, name, Slot::Right(id), sought);
                    lemma_same_names_of_siblings(es, es2, *left, sought);
                    lemma_search_finds(es, *left, sought);
                    lemma_orders();
                    assert(es2[id as int].name == es[id as int].name);
                    assert forall|x: u32| #[trigger] siblings(
                        detached(es, *right, name),
                    ).contains(x) implies name_order(es2[id as int].name, es2[x as int].name)
                        == NameOrder::Less by {
                        assert(siblings(*right).contains(x));
                        assert(siblings(*right).contains(vacated(found)));
                    }
                },
            }
        },
    }
}

proof fn lemma_find_among_siblings(es: Seq<EntryView>, t: Tree, name: Seq<char>)
    ensures
        find(es, t, name) matches Some(x) ==> siblings(t).contains(x),
    decreases t,
{
    match t {
        Tree::Nil => {},
        Tree::Node { left, right, .. } => {
            lemma_find_among_siblings(es, *left, name);
            lemma_find_among_siblings(es, *right, name);
        },
    }
}

/// Removing an object changes sibling links and names only in the entries of the
/// siblings of this object.
pub proof fn lemma_removed_elsewhere(es: Seq<EntryView>, parent: u32, name: Seq<char>)
    requires
        has_tree(es),
        reachable(es).contains(parent),
        find(es, children(es, parent), name) matches Some(id) && es[id as int].child == NO_STREAM,
        ordered(es, children(es, parent)),
    ensures
        ({
            let es2 = without_object(es, parent, name);
            let (slot, found) = removal(es, parent, name);
            &&& forall|x: u32|
                x < es.len() && x != vacated(found) && x != found.top() ==> {
                    &&& (#[trigger] es2[x as int]).payload() == es[x as int].payload()
                    &&& es2[x as int].name == es[x as int].name
                    &&& x != parent ==> es2[x as int].child == es[x as int].child
                }
            &&& vacated(found) != found.top() ==> {
                &&& es2[found.top() as int].payload() == es[vacated(found) as int].payload()
                &&& es2[found.top() as int].name == es[vacated(found) as int].name
                &&& es2[found.top() as int].child == es[vacated(found) as int].child
            }
            &&& forall|x: u32|
                x < es.len() && !siblings(children(es, parent)).contains(x) ==> {
                    &&& (#[trigger] es2[x as int]).left_sibling == es[x as int].left_sibling
                    &&& es2[x as int].right_sibling == es[x as int].right_sibling
                }
            &&& siblings(children(es, parent)).contains(found.top())
            &&& siblings(children(es, parent)).contains(vacated(found))
            &&& find(es, children(es, parent), name) == Some(found.top())
            &&& es2.len() == es.len()
        }),
{
    let whole = tree_at(es, ROOT_STREAM_ID);
    let old = children(es, parent);
    let at = Slot::Child(parent);
    let es2 = without_object(es, parent, name);
    crate::model::lemma_the_tree(es);
    crate::tree::lemma_children(es, ROOT_STREAM_ID, whole, parent);
    crate::tree::lemma_target(es, es[parent as int].child, old, name, at);
    crate::model::lemma_without_object_tree(es, parent, name);
    crate::tree::lemma_ids_in_range(es, es[parent as int].child, old);
    let (slot, found) = removal(es, parent, name);
    let top = found.top();
    crate::tree::lemma_removed_payload(es, found, slot);
    crate::tree::lemma_repr_top(es, es[top as int].left_sibling, found.left());
    crate::tree::lemma_repr_top(es, es[top as int].right_sibling, found.right());
    lemma_siblings_in_tree(old);
    lemma_siblings_in_tree(found);
    lemma_target_siblings(es, old, name, at);
    if found.left() is Node && found.right() is Node {
        lemma_find_without_rightmost(es, found.left(), Slot::Left(top), name);
        crate::tree::lemma_rightmost(es, es[top as int].left_sibling, found.left(), Slot::Left(top));
        let (from, last) = rightmost(found.left(), Slot::Left(top));
        assert(siblings(found).contains(from.holder()));
        assert(siblings(found).contains(last.top()));
    }
    assert forall|x: u32| x < es.len() && x != vacated(found) && x != top implies {
        &&& (#[trigger] es2[x as int]).payload() == es[x as int].payload()
        &&& es2[x as int].name == es[x as int].name
        &&& x != parent ==> es2[x as int].child == es[x as int].child
    } by {
        assert(es2[x as int].name == es2[x as int].payload().name);
        assert(es[x as int].name == es[x as int].payload().name);
    }
}

/// The object that a search reaches, and the entry whose link leads to it, are
/// among the siblings.
pub proof fn lemma_target_siblings(es: Seq<EntryView>, t: Tree, name: Seq<char>, at: Slot)
    requires
        ordered(es, t),
    ensures
        target(es, t, name, at) matches Some((slot, found)) ==> {
            &&& siblings(found).subset_of(siblings(t))
            &&& slot == at || (slot !is Child && siblings(t).contains(slot.holder()))
            &&& ordered(es, found)
        },
    decreases t,
{
    match t {
        Tree::Nil => {},
        Tree::Node { id, left, right, .. } => {
            lemma_target_siblings(es, *left, name, Slot::Left(id));
            lemma_target_siblings(es, *right, name, Slot::Right(id));
        },
    }
}

/// Removing an object without children, from among siblings in the order of their
/// names: a search among the children of its parent no longer finds its name, and
/// for any other name finds the object that it found before. Searches among the
/// children of other objects find what they found before. All other objects stay
/// what they were, though one may be in another entry: see [`moved_to`]. If siblings
/// were in the order of their names everywhere, they still are.
pub proof fn lemma_removed_object_gone(es: Seq<EntryView>, parent: u32, name: Seq<char>)
    requires
        has_tree(es),
        reachable(es).contains(parent),
        find(es, children(es, parent), name) matches Some(id) && es[id as int].child == NO_STREAM,
        ordered(es, children(es, parent)),
    ensures
        ({
            let es2 = without_object(es, parent, name);
            let found = removal(es, parent, name).1;
            &&& find(es, children(es, parent), name) == Some(found.top())
            &&& forall|sought: Seq<char>| #[trigger]
                find(es2, children(es2, parent), sought) == if name_order(sought, name)
                    == NameOrder::Equal {
                    None
                } else {
                    match find(es, children(es, parent), sought) {
                        None => None,
                        Some(x) => Some(moved_to(found, x)),
                    }
                }
            &&& forall|q: u32, sought: Seq<char>|
                reachable(es).contains(q) && q != parent && q != found.top() ==> #[trigger] find(
                    es2,
                    children(es2, moved_to(found, q)),
                    sought,
                ) == find(es, children(es, q), sought)
            &&& forall|x: u32| #[trigger]
                reachable(es).contains(x) && x != found.top() ==> es2[moved_to(
                    found,
                    x,
                ) as int].payload() == es[x as int].payload()
            &&& all_ordered(es) ==> all_ordered(es2)
        }),
{
    let whole = tree_at(es, ROOT_STREAM_ID);
    let old = children(es, parent);
    let at = Slot::Child(parent);
    let es2 = without_object(es, parent, name);
    let whole2 = tree_at(es2, ROOT_STREAM_ID);
    let (slot, found) = removal(es, parent, name);
    let top = found.top();
    lemma_removed_elsewhere(es, parent, name);
    crate::model::lemma_the_tree(es);
    crate::model::lemma_without_object_tree(es, parent, name);
    crate::model::lemma_the_tree(es2);
    crate::tree::lemma_children(es, ROOT_STREAM_ID, whole, parent);
    crate::tree::lemma_target(es, es[parent as int].child, old, name, at);
    lemma_siblings_in_tree(old);
    assert forall|x: u32| #[trigger] siblings(old).contains(x) && x != top && x != vacated(
        found,
    ) implies es2[x as int].name == es[x as int].name by {
        assert(ids(old).contains(x));
        assert(reachable(es).contains(x));
    }
    assert forall|sought: Seq<char>| #[trigger] find(es2, children(es2, parent), sought)
        == if name_order(sought, name) == NameOrder::Equal {
        None
    } else {
        match find(es, old, sought) {
            None => None,
            Some(x) => Some(moved_to(found, x)),
        }
    } by {
        lemma_find_detached(es, es2, old, name, at, sought);
    }
    assert forall|q: u32| reachable(es).contains(q) && q != parent && q != top implies {
        &&& reachable(es2).contains(moved_to(found, q))
        &&& repr(es, es[q as int].child, children(es, q))
        &&& repr(es2, es[q as int].child, #[trigger] children(es2, moved_to(found, q)))
        &&& forall|x: u32| #[trigger]
            siblings(children(es, q)).contains(x) ==> {
                &&& es2[x as int].left_sibling == es[x as int].left_sibling
                &&& es2[x as int].right_sibling == es[x as int].right_sibling
                &&& es2[x as int].name == es[x as int].name
            }
    } by {
        let q2 = moved_to(found, q);
        assert(reachable(es).contains(top));
        crate::tree::lemma_children(es, ROOT_STREAM_ID, whole, q);
        crate::tree::lemma_children(es2, ROOT_STREAM_ID, whole2, q2);
        lemma_one_parent(es, ROOT_STREAM_ID, whole, parent, q);
        lemma_siblings_in_tree(children(es, q));
        assert(es2[q2 as int].child == es[q as int].child);
        assert forall|x: u32| #[trigger] siblings(children(es, q)).contains(x) implies {
            &&& es2[x as int].left_sibling == es[x as int].left_sibling
            &&& es2[x as int].right_sibling == es[x as int].right_sibling
            &&& es2[x as int].name == es[x as int].name
        } by {
            assert(reachable(es).contains(x));
            assert(!siblings(old).contains(x));
        }
    }
    assert forall|q: u32, sought: Seq<char>|
        reachable(es).contains(q) && q != parent && q != top implies #[trigger] find(
        es2,
        children(es2, moved_to(found, q)),
        sought,
    ) == find(es, children(es, q), sought) by {
        lemma_same_siblings(
            es,
            es2,
            es[q as int].child,
            children(es, q),
            children(es2, moved_to(found, q)),
            sought,
        );
    }
    if all_ordered(es) {
        assert forall|p: u32| #[trigger] reachable(es2).contains(p) implies ordered(
            es2,
            children(es2, p),
        ) by {
            if p == parent {
                lemma_find_detached(es, es2, old, name, at, name);
            } else {
                let q = if p == top { vacated(found) } else { p };
                assert(reachable(es).contains(q));
                assert(q != top && moved_to(found, q) == p);
                assert(children(es2, moved_to(found, q)) == children(es2, p));
                lemma_same_siblings(
                    es,
                    es2,
                    es[q as int].child,
                    children(es, q),
                    children(es2, p),
                    name,
                );
            }
        }
    }
}

/// The siblings that are left when an object is removed from among siblings in the
/// order of their names are in this order.
pub proof fn lemma_siblings_after_removing(es: Seq<EntryView>, parent: u32, name: Seq<char>)
    requires
        has_tree(es),
        reachable(es).contains(parent),
        find(es, children(es, parent), name) matches Some(id) && es[id as int].child == NO_STREAM,
        ordered(es, children(es, parent)),
    ensures
        ({
            let es2 = without_object(es, parent, name);
            &&& ordered(es2, children(es2, parent))
            &&& siblings(children(es2, parent)) == siblings(children(es, parent)).remove(
                vacated(removal(es, parent, name).1),
            )
        }),
{
    let old = children(es, parent);
    let es2 = without_object(es, parent, name);
    let found = removal(es, parent, name).1;
    lemma_removed_elsewhere(es, parent, name);
    crate::model::lemma_the_tree(es);
    crate::model::lemma_without_object_tree(es, parent, name);
    crate::tree::lemma_children(es, ROOT_STREAM_ID, tree_at(es, ROOT_STREAM_ID), parent);
    crate::tree::lemma_target(es, es[parent as int].child, old, name, Slot::Child(parent));
    lemma_siblings_in_tree(old);
    assert forall|x: u32| #[trigger] siblings(old).contains(x) && x != found.top() && x != vacated(
        found,
    ) implies es2[x as int].name == es[x as int].name by {
        assert(ids(old).contains(x));
        assert(reachable(es).contains(x));
    }
    lemma_find_detached(es, es2, old, name, Slot::Child(parent), name);
}

/// After an object without children is removed, from among siblings in the order of
/// their names, a chain of names that led to it leads nowhere, and any other leads
/// to the object that it led to before.
pub proof fn lemma_lookup_after_removing(
    es: Seq<EntryView>,
    parent: u32,
    name: Seq<char>,
    names: Seq<Seq<char>>,
)
    requires
        has_tree(es),
        reachable(es).contains(parent),
        find(es, children(es, parent), name) matches Some(id) && es[id as int].child == NO_STREAM,
        ordered(es, children(es, parent)),
    ensures
        ({
            let es2 = without_object(es, parent, name);
            let found = removal(es, parent, name).1;
            &&& lookup(es2, names) == match lookup(es, names) {
                None => None,
                Some(x) => if x == found.top() {
                    None
                } else {
                    Some(moved_to(found, x))
                },
            }
            &&& lookup(es, names) == Some(parent) ==> lookup(es2, names.push(name)) is None
        }),
{
    let whole = tree_at(es, ROOT_STREAM_ID);
    crate::model::lemma_the_tree(es);
    crate::model::lemma_without_object_tree(es, parent, name);
    crate::tree::lemma_children(es, ROOT_STREAM_ID, whole, parent);
    lemma_removed_elsewhere(es, parent, name);
    lemma_siblings_in_tree(children(es, parent));
    assert(removal(es, parent, name).1.top() != ROOT_STREAM_ID);
    lemma_descend_after_removing(es, parent, name, ROOT_STREAM_ID, names);
    lemma_descend_after_removing(es, parent, name, ROOT_STREAM_ID, names.push(name));
    lemma_descend_last(es, ROOT_STREAM_ID, names, name);
}

proof fn lemma_descend_after_removing(
    es: Seq<EntryView>,
    parent: u32,
    name: Seq<char>,
    id: u32,
    names: Seq<Seq<char>>,
)
    requires
        has_tree(es),
        reachable(es).contains(parent),
        find(es, children(es, parent), name) matches Some(x) && es[x as int].child == NO_STREAM,
        ordered(es, children(es, parent)),
        reachable(es).contains(id),
        id != removal(es, parent, name).1.top(),
    ensures
        ({
            let es2 = without_object(es, parent, name);
            let found = removal(es, parent, name).1;
            descend(es2, moved_to(found, id), names) == match descend(es, id, names) {
                None => None,
                Some(x) => if x == found.top() {
                    None
                } else {
                    Some(moved_to(found, x))
                },
            }
        }),
    decreases names.len(),
{
    if names.len() > 0 {
        let es2 = without_object(es, parent, name);
        let found = removal(es, parent, name).1;
        let top = found.top();
        let whole = tree_at(es, ROOT_STREAM_ID);
        lemma_removed_object_gone(es, parent, name);
        lemma_removed_elsewhere(es, parent, name);
        crate::model::lemma_the_tree(es);
        crate::tree::lemma_children(es, ROOT_STREAM_ID, whole, id);
        crate::tree::lemma_children(es, ROOT_STREAM_ID, whole, parent);
        lemma_siblings_in_tree(children(es, parent));
        crate::tree::lemma_find_in_tree(es, children(es, id), names[0]);
        lemma_find_among_siblings(es, children(es, id), names[0]);
        let next = find(es, children(es, id), names[0]);
        if id == parent {
            assert(moved_to(found, id) == parent);
            if name_order(names[0], name) == NameOrder::Equal {
                lemma_find_equal(es, children(es, parent), names[0], name);
                assert(repr(es, NO_STREAM, Tree::Nil));
                crate::tree::lemma_tree_at(es, NO_STREAM, Tree::Nil);
                assert(children(es, top) is Nil);
                reveal_with_fuel(descend, 2);
                assert(find(es2, children(es2, parent), names[0]) is None);
            } else {
                assert(find(es2, children(es2, parent), names[0]) == match next {
                    None => None,
                    Some(x) => Some(moved_to(found, x)),
                });
                if let Some(x) = next {
                    if x == top {
                        lemma_search_finds(es, children(es, parent), name);
                        lemma_search_finds(es, children(es, parent), names[0]);
                        lemma_orders();
                        assert(name_order(names[0], es[top as int].name) == NameOrder::Equal);
                        assert(name_order(name, es[top as int].name) == NameOrder::Equal);
                        assert(name_order(names[0], name) == NameOrder::Equal);
                    }
                    lemma_descend_after_removing(es, parent, name, x, names.drop_first());
                }
            }
        } else {
            assert(find(es2, children(es2, moved_to(found, id)), names[0]) == next);
            if let Some(x) = next {
                lemma_one_parent(es, ROOT_STREAM_ID, whole, parent, id);
                assert(!siblings(children(es, parent)).contains(x));
                assert(x != top && x != vacated(found));
                lemma_descend_after_removing(es, parent, name, x, names.drop_first());
            }
        }
    }
}

/// The entry that a link leads to.
pub open spec fn link_of(es: Seq<EntryView>, slot: Slot) -> u32 {
    match slot {
        Slot::Child(id) => es[id as int].child,
        Slot::Left(id) => es[id as int].left_sibling,
        Slot::Right(id) => es[id as int].right_sibling,
    }
}

proof fn lemma_slot_is_empty(es: Seq<EntryView>, t: Tree, name: Seq<char>, at: Slot)
    requires
        repr(es, link_of(es, at), t),
    ensures
        free_slot(es, t, name, at) matches Some(slot) ==> link_of(es, slot) == NO_STREAM,
    decreases t,
{
    match t {
        Tree::Nil => {},
        Tree::Node { id, left, right, .. } => {
            lemma_slot_is_empty(es, *left, name, Slot::Left(id));
            lemma_slot_is_empty(es, *right, name, Slot::Right(id));
        },
    }
}

proof fn lemma_target_of_new(
    es: Seq<EntryView>,
    es2: Seq<EntryView>,
    t: Tree,
    name: Seq<char>,
    new: u32,
    at: Slot,
)
    requires
        find(es, t, name) is None,
        es2[new as int].name == name,
        forall|x: u32| #[trigger]
            siblings(t).contains(x) ==> es2[x as int].name == es[x as int].name,
    ensures
        target(es2, grafted(es, t, name, new), name, at) matches Some((slot, found)) && Some(slot)
            == free_slot(es, t, name, at) && found == grafted(es, Tree::Nil, name, new),
    decreases t,
{
    match t {
        Tree::Nil => {
            crate::names::lemma_name_order_reversed(name, name);
        },
        Tree::Node { id, left, right, .. } => {
            assert(siblings(t).contains(id));
            assert forall|x: u32| #[trigger] siblings(*left).contains(x) implies es2[x as int].name
                == es[x as int].name by {
                assert(siblings(t).contains(x));
            }
            assert forall|x: u32| #[trigger] siblings(*right).contains(x) implies es2[x as int].name
                == es[x as int].name by {
                assert(siblings(t).contains(x));
            }
            match name_order(name, es[id as int].name) {
                NameOrder::Equal => {},
                NameOrder::Less => {
                    lemma_target_of_new(es, es2, *left, name, new, Slot::Left(id));
                },
                NameOrder::Greater => {
                    lemma_target_of_new(es, es2, *right, name, new, Slot::Right(id));
                },
            }
        },
    }
}

/// Removing an object that was just added undoes adding it: all entries are what
/// they were, and that of the object is not in use.
pub proof fn lemma_removing_undoes_adding(
    es: Seq<EntryView>,
    parent: u32,
    name: Seq<char>,
    obj_type: u8,
    now: u64,
)
    requires
        has_tree(es),
        reachable(es).contains(parent),
        find(es, children(es, parent), name) is None,
        obj_type != OBJ_TYPE_UNALLOCATED,
        free_entry(es) < NO_STREAM,
    ensures
        ({
            let es2 = with_object(es, parent, name, obj_type, now);
            &&& find(es2, children(es2, parent), name) matches Some(id) && es2[id as int].child
                == NO_STREAM
            &&& without_object(es2, parent, name) == put(
                es,
                free_entry(es),
                EntryView::unallocated(),
            )
        }),
{
    let id = free_entry(es) as u32;
    let fresh = EntryView::created(name, obj_type, now);
    let es1 = put(es, id as int, fresh);
    let es2 = with_object(es, parent, name, obj_type, now);
    let whole = tree_at(es, ROOT_STREAM_ID);
    let old = children(es, parent);
    let at = Slot::Child(parent);
    crate::model::lemma_with_object_tree(es, parent, name, obj_type, now);
    lemma_added_object_found(es, parent, name, obj_type, now);
    crate::names::lemma_name_order_reversed(name, name);
    crate::model::lemma_the_tree(es);
    crate::model::lemma_free_entry(es, 0);
    crate::tree::lemma_children(es, ROOT_STREAM_ID, whole, parent);
    crate::tree::lemma_free_slot(es, old, name, at);
    lemma_siblings_in_tree(old);
    lemma_slot_is_empty(es, old, name, at);
    assert(es2[id as int] == fresh);
    assert forall|x: u32| #[trigger] siblings(old).contains(x) implies es2[x as int].name
        == es[x as int].name by {
        assert(reachable(es).contains(x));
        assert(es2[x as int].payload().name == es[x as int].payload().name);
    }
    lemma_target_of_new(es, es2, old, name, id, at);
    let (slot, found) = removal(es2, parent, name);
    assert(slot == insertion_slot(es, parent, name));
    assert(found.top() == id);
    assert(slot.holder() != id);
    assert(linked(es2, slot, NO_STREAM) =~= es1);
    assert(without_object(es2, parent, name) =~= put(
        es,
        id as int,
        EntryView::unallocated(),
    ));
}

} // verus!

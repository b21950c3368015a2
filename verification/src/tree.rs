//! The trees that the links of directory entries form.
//!
//! The children of a storage form a binary search tree through their left and
//! right links; the child link of the storage leads to the top of it. Taken
//! together, the three links of every entry make one tree with three branches
//! at each node.
use crate::consts::{NO_STREAM, OBJ_TYPE_UNALLOCATED, ROOT_STREAM_ID};
use crate::direntry::EntryView;
use crate::names::{name_order, NameOrder};
use vstd::prelude::*;

verus! {

/// A tree of stream IDs.
pub enum Tree {
    Nil,
    Node { id: u32, left: Box<Tree>, right: Box<Tree>, child: Box<Tree> },
}

/// The links that lead from `id` form the tree `t`, and all of them lead to
/// entries.
pub open spec fn repr(es: Seq<EntryView>, id: u32, t: Tree) -> bool
    decreases t,
{
    match t {
        Tree::Nil => id == NO_STREAM,
        Tree::Node { id: n, left, right, child } => {
            &&& id == n
            &&& id != NO_STREAM
            &&& id < es.len()
            &&& repr(es, es[id as int].left_sibling, *left)
            &&& repr(es, es[id as int].right_sibling, *right)
            &&& repr(es, es[id as int].child, *child)
        },
    }
}

/// The stream IDs in a tree.
pub open spec fn ids(t: Tree) -> Set<u32>
    decreases t,
{
    match t {
        Tree::Nil => Set::empty(),
        Tree::Node { id, left, right, child } => ids(*left).union(ids(*right)).union(
            ids(*child),
        ).insert(id),
    }
}

/// No stream ID occurs twice in the tree.
pub open spec fn distinct(t: Tree) -> bool
    decreases t,
{
    match t {
        Tree::Nil => true,
        Tree::Node { id, left, right, child } => {
            &&& distinct(*left)
            &&& distinct(*right)
            &&& distinct(*child)
            &&& !ids(*left).contains(id)
            &&& !ids(*right).contains(id)
            &&& !ids(*child).contains(id)
            &&& ids(*left).disjoint(ids(*right))
            &&& ids(*left).disjoint(ids(*child))
            &&& ids(*right).disjoint(ids(*child))
        },
    }
}

/// The tree that the links from `id` form.
pub open spec fn tree_at(es: Seq<EntryView>, id: u32) -> Tree {
    choose|t: Tree| repr(es, id, t)
}

/// The tree of the children of the entry `id`.
pub open spec fn children(es: Seq<EntryView>, id: u32) -> Tree {
    tree_at(es, es[id as int].child)
}

/// The links from the root form a tree in which no entry occurs twice, and every
/// entry in it is in use.
pub open spec fn is_tree(es: Seq<EntryView>, t: Tree) -> bool {
    &&& repr(es, ROOT_STREAM_ID, t)
    &&& distinct(t)
    &&& forall|x: u32| #[trigger]
        ids(t).contains(x) ==> es[x as int].obj_type != OBJ_TYPE_UNALLOCATED
}

/// The links from the root form a tree.
pub open spec fn has_tree(es: Seq<EntryView>) -> bool {
    exists|t: Tree| is_tree(es, t)
}

/// The stream IDs of the entries that links from the root lead to.
pub open spec fn reachable(es: Seq<EntryView>) -> Set<u32> {
    ids(tree_at(es, ROOT_STREAM_ID))
}

/// Two entries have the same links.
pub open spec fn same_links(a: EntryView, b: EntryView) -> bool {
    &&& a.left_sibling == b.left_sibling
    &&& a.right_sibling == b.right_sibling
    &&& a.child == b.child
}

/// A link of an entry.
#[derive(Clone, Copy, Debug, PartialEq, Eq, Structural)]
pub enum Slot {
    Child(u32),
    Left(u32),
    Right(u32),
}

impl Slot {
    /// The entry whose link this is.
    pub open spec fn holder(self) -> u32 {
        match self {
            Slot::Child(id) => id,
            Slot::Left(id) => id,
            Slot::Right(id) => id,
        }
    }
}

/// The entries after a link is set to `id`.
pub open spec fn linked(es: Seq<EntryView>, slot: Slot, id: u32) -> Seq<EntryView> {
    let h = slot.holder() as int;
    match slot {
        Slot::Child(_) => es.update(h, es[h].with_child(id)),
        Slot::Left(_) => es.update(h, es[h].with_left(id)),
        Slot::Right(_) => es.update(h, es[h].with_right(id)),
    }
}

/// The entry with the given name in a tree of siblings: down to the left where
/// the name is less than that of a node, down to the right where it is greater.
pub open spec fn find(es: Seq<EntryView>, t: Tree, name: Seq<char>) -> Option<u32>
    decreases t,
{
    match t {
        Tree::Nil => None,
        Tree::Node { id, left, right, .. } => match name_order(name, es[id as int].name) {
            NameOrder::Equal => Some(id),
            NameOrder::Less => find(es, *left, name),
            NameOrder::Greater => find(es, *right, name),
        },
    }
}

/// The entry that a chain of names leads to from the entry `id`.
pub open spec fn descend(es: Seq<EntryView>, id: u32, names: Seq<Seq<char>>) -> Option<u32>
    decreases names.len(),
{
    if names.len() == 0 {
        Some(id)
    } else {
        match find(es, children(es, id), names[0]) {
            None => None,
            Some(next) => descend(es, next, names.drop_first()),
        }
    }
}

/// The entry that a chain of names leads to from the root.
pub open spec fn lookup(es: Seq<EntryView>, names: Seq<Seq<char>>) -> Option<u32> {
    descend(es, ROOT_STREAM_ID, names)
}

/// The empty link at which the search for `name` ends, if it does not find the
/// name; `at` is the link that leads to the tree.
pub open spec fn free_slot(es: Seq<EntryView>, t: Tree, name: Seq<char>, at: Slot) -> Option<Slot>
    decreases t,
{
    match t {
        Tree::Nil => Some(at),
        Tree::Node { id, left, right, .. } => match name_order(name, es[id as int].name) {
            NameOrder::Equal => None,
            NameOrder::Less => free_slot(es, *left, name, Slot::Left(id)),
            NameOrder::Greater => free_slot(es, *right, name, Slot::Right(id)),
        },
    }
}

/// The tree of siblings with a new node where the search for `name` ends.
pub open spec fn grafted(es: Seq<EntryView>, t: Tree, name: Seq<char>, new: u32) -> Tree
    decreases t,
{
    match t {
        Tree::Nil => Tree::Node {
            id: new,
            left: Box::new(Tree::Nil),
            right: Box::new(Tree::Nil),
            child: Box::new(Tree::Nil),
        },
        Tree::Node { id, left, right, child } => match name_order(name, es[id as int].name) {
            NameOrder::Equal => t,
            NameOrder::Less => Tree::Node {
                id,
                left: Box::new(grafted(es, *left, name, new)),
                right,
                child,
            },
            NameOrder::Greater => Tree::Node {
                id,
                left,
                right: Box::new(grafted(es, *right, name, new)),
                child,
            },
        },
    }
}

/// The link that leads to the entry that the search for `name` finds, and the
/// tree from this entry on.
pub open spec fn target(es: Seq<EntryView>, t: Tree, name: Seq<char>, at: Slot) -> Option<(Slot, Tree)>
    decreases t,
{
    match t {
        Tree::Nil => None,
        Tree::Node { id, left, right, .. } => match name_order(name, es[id as int].name) {
            NameOrder::Equal => Some((at, t)),
            NameOrder::Less => target(es, *left, name, Slot::Left(id)),
            NameOrder::Greater => target(es, *right, name, Slot::Right(id)),
        },
    }
}

/// The link that leads to the rightmost node of a tree of siblings, and the tree
/// from this node on.
pub open spec fn rightmost(t: Tree, at: Slot) -> (Slot, Tree)
    decreases t,
{
    match t {
        Tree::Nil => (at, t),
        Tree::Node { id, right, .. } => match *right {
            Tree::Nil => (at, t),
            _ => rightmost(*right, Slot::Right(id)),
        },
    }
}

impl Tree {
    /// The ID at the top.
    pub open spec fn top(self) -> u32 {
        match self {
            Tree::Nil => NO_STREAM,
            Tree::Node { id, .. } => id,
        }
    }

    /// The branch that the left link leads to.
    pub open spec fn left(self) -> Tree {
        match self {
            Tree::Nil => Tree::Nil,
            Tree::Node { left, .. } => *left,
        }
    }

    /// The branch that the right link leads to.
    pub open spec fn right(self) -> Tree {
        match self {
            Tree::Nil => Tree::Nil,
            Tree::Node { right, .. } => *right,
        }
    }

    /// The branch that the child link leads to.
    pub open spec fn child(self) -> Tree {
        match self {
            Tree::Nil => Tree::Nil,
            Tree::Node { child, .. } => *child,
        }
    }
}

/// A tree of siblings without its rightmost node.
pub open spec fn without_rightmost(t: Tree) -> Tree
    decreases t,
{
    match t {
        Tree::Nil => Tree::Nil,
        Tree::Node { id, left, right, child } => match *right {
            Tree::Nil => *left,
            _ => Tree::Node { id, left, right: Box::new(without_rightmost(*right)), child },
        },
    }
}

/// A tree of siblings without the object at its top. Where the top has two
/// branches, its ID stays, for the object that was the rightmost on the left.
pub open spec fn without_top(t: Tree) -> Tree {
    match t {
        Tree::Nil => Tree::Nil,
        Tree::Node { id, left, right, child } => if *left is Nil {
            *right
        } else if *right is Nil {
            *left
        } else {
            Tree::Node {
                id,
                left: Box::new(without_rightmost(*left)),
                right,
                child: Box::new(rightmost(*left, Slot::Left(id)).1.child()),
            }
        },
    }
}

/// A tree of siblings without the object that the search for `name` finds.
pub open spec fn detached(es: Seq<EntryView>, t: Tree, name: Seq<char>) -> Tree
    decreases t,
{
    match t {
        Tree::Nil => Tree::Nil,
        Tree::Node { id, left, right, child } => match name_order(name, es[id as int].name) {
            NameOrder::Equal => without_top(t),
            NameOrder::Less => Tree::Node {
                id,
                left: Box::new(detached(es, *left, name)),
                right,
                child,
            },
            NameOrder::Greater => Tree::Node {
                id,
                left,
                right: Box::new(detached(es, *right, name)),
                child,
            },
        },
    }
}

/// The entry that falls out of use when the object at the top of `t` is removed.
pub open spec fn vacated(t: Tree) -> u32 {
    if t.left() is Nil || t.right() is Nil {
        t.top()
    } else {
        rightmost(t.left(), Slot::Left(t.top())).1.top()
    }
}

/// The entries after the object at the top of `t`, to which the link `slot`
/// leads, is removed. With at most one sibling below it, that sibling takes its
/// place. With two, the object with the greatest name on the left moves into its
/// entry, and the left sibling of that object takes the place of the latter.
pub open spec fn removed(es: Seq<EntryView>, slot: Slot, t: Tree) -> Seq<EntryView> {
    let top = t.top() as int;
    let left = es[top].left_sibling;
    let right = es[top].right_sibling;
    if left == NO_STREAM || right == NO_STREAM {
        linked(es, slot, if left == NO_STREAM { right } else { left }).update(
            top,
            EntryView::unallocated(),
        )
    } else {
        let (from, last) = rightmost(t.left(), Slot::Left(t.top()));
        let moved = es[last.top() as int];
        linked(
            es.update(top, moved.with_left(left).with_right(right)),
            from,
            moved.left_sibling,
        ).update(last.top() as int, EntryView::unallocated())
    }
}

/// The tree with the branch that hangs from the child link of `parent` replaced.
pub open spec fn with_children(t: Tree, parent: u32, branch: Tree) -> Tree
    decreases t,
{
    match t {
        Tree::Nil => Tree::Nil,
        Tree::Node { id, left, right, child } => Tree::Node {
            id,
            left: Box::new(with_children(*left, parent, branch)),
            right: Box::new(with_children(*right, parent, branch)),
            child: if id == parent {
                Box::new(branch)
            } else {
                Box::new(with_children(*child, parent, branch))
            },
        },
    }
}

/// The links from one entry form at most one tree.
pub proof fn lemma_repr_unique(es: Seq<EntryView>, id: u32, a: Tree, b: Tree)
    requires
        repr(es, id, a),
        repr(es, id, b),
    ensures
        a == b,
    decreases a,
{
    match a {
        Tree::Nil => {},
        Tree::Node { left, right, child, .. } => {
            lemma_repr_unique(es, es[id as int].left_sibling, *left, b.left());
            lemma_repr_unique(es, es[id as int].right_sibling, *right, b.right());
            lemma_repr_unique(es, es[id as int].child, *child, b.child());
        },
    }
}

/// A tree that the links from an entry form is the tree of this entry.
pub proof fn lemma_tree_at(es: Seq<EntryView>, id: u32, t: Tree)
    requires
        repr(es, id, t),
    ensures
        tree_at(es, id) == t,
{
    lemma_repr_unique(es, id, tree_at(es, id), t);
}

/// A tree hangs from the link to its top.
pub proof fn lemma_repr_top(es: Seq<EntryView>, id: u32, t: Tree)
    requires
        repr(es, id, t),
    ensures
        id == t.top(),
        t is Nil <==> id == NO_STREAM,
        t is Node ==> ids(t).contains(id) && id < es.len(),
{
}

/// The IDs in a tree are those of entries, and finitely many.
pub proof fn lemma_ids_in_range(es: Seq<EntryView>, id: u32, t: Tree)
    requires
        repr(es, id, t),
    ensures
        forall|x: u32| #[trigger] ids(t).contains(x) ==> x < es.len() && x != NO_STREAM,
        ids(t).finite(),
    decreases t,
{
    match t {
        Tree::Nil => {},
        Tree::Node { left, right, child, .. } => {
            lemma_ids_in_range(es, es[id as int].left_sibling, *left);
            lemma_ids_in_range(es, es[id as int].right_sibling, *right);
            lemma_ids_in_range(es, es[id as int].child, *child);
        },
    }
}

/// The IDs of the branches of a tree are IDs of the tree.
pub proof fn lemma_branch_ids(t: Tree)
    requires
        t is Node,
    ensures
        ids(t).contains(t.top()),
        forall|x: u32| #[trigger] ids(t.left()).contains(x) ==> ids(t).contains(x),
        forall|x: u32| #[trigger] ids(t.right()).contains(x) ==> ids(t).contains(x),
        forall|x: u32| #[trigger] ids(t.child()).contains(x) ==> ids(t).contains(x),
{
}

/// A tree stays as it is when the links of its nodes do.
pub proof fn lemma_repr_frame(es: Seq<EntryView>, es2: Seq<EntryView>, id: u32, t: Tree)
    requires
        repr(es, id, t),
        es.len() <= es2.len(),
        forall|x: u32| #[trigger]
            ids(t).contains(x) ==> same_links(es[x as int], es2[x as int]),
    ensures
        repr(es2, id, t),
    decreases t,
{
    match t {
        Tree::Nil => {},
        Tree::Node { id: n, left, right, child } => {
            lemma_branch_ids(t);
            lemma_repr_frame(es, es2, es[id as int].left_sibling, *left);
            lemma_repr_frame(es, es2, es[id as int].right_sibling, *right);
            lemma_repr_frame(es, es2, es[id as int].child, *child);
        },
    }
}

/// Every node of a tree has a tree of children of its own, which lies within the
/// tree and in which no ID occurs twice.
pub proof fn lemma_children(es: Seq<EntryView>, id: u32, t: Tree, x: u32)
    requires
        repr(es, id, t),
        distinct(t),
        ids(t).contains(x),
    ensures
        x < es.len(),
        repr(es, es[x as int].child, children(es, x)),
        distinct(children(es, x)),
        ids(children(es, x)).subset_of(ids(t)),
        !ids(children(es, x)).contains(x),
        !ids(children(es, x)).contains(t.top()),
    decreases t,
{
    match t {
        Tree::Nil => {},
        Tree::Node { id: n, left, right, child } => {
            if x == n {
                lemma_tree_at(es, es[x as int].child, *child);
            } else if ids(*left).contains(x) {
                lemma_children(es, es[id as int].left_sibling, *left, x);
            } else if ids(*right).contains(x) {
                lemma_children(es, es[id as int].right_sibling, *right, x);
            } else {
                lemma_children(es, es[id as int].child, *child, x);
            }
        },
    }
}

/// Every node of a tree is the top of a tree of its own, which lies within the
/// tree and in which no ID occurs twice.
pub proof fn lemma_node(es: Seq<EntryView>, id: u32, t: Tree, x: u32)
    requires
        repr(es, id, t),
        distinct(t),
        ids(t).contains(x),
    ensures
        x < es.len(),
        repr(es, x, tree_at(es, x)),
        distinct(tree_at(es, x)),
        tree_at(es, x) is Node,
        ids(tree_at(es, x)).subset_of(ids(t)),
    decreases t,
{
    match t {
        Tree::Nil => {},
        Tree::Node { id: n, left, right, child } => {
            if x == n {
                lemma_tree_at(es, x, t);
            } else if ids(*left).contains(x) {
                lemma_node(es, es[id as int].left_sibling, *left, x);
            } else if ids(*right).contains(x) {
                lemma_node(es, es[id as int].right_sibling, *right, x);
            } else {
                lemma_node(es, es[id as int].child, *child, x);
            }
        },
    }
}

/// What a search finds lies in the tree and has a name equal to the one sought.
pub proof fn lemma_find_in_tree(es: Seq<EntryView>, t: Tree, name: Seq<char>)
    ensures
        find(es, t, name) matches Some(x) ==> ids(t).contains(x) && name_order(
            name,
            es[x as int].name,
        ) == NameOrder::Equal,
    decreases t,
{
    match t {
        Tree::Nil => {},
        Tree::Node { left, right, .. } => {
            lemma_find_in_tree(es, *left, name);
            lemma_find_in_tree(es, *right, name);
        },
    }
}

/// The search ends at an empty link exactly if it does not find the name.
pub proof fn lemma_free_slot(es: Seq<EntryView>, t: Tree, name: Seq<char>, at: Slot)
    ensures
        free_slot(es, t, name, at) is None <==> find(es, t, name) is Some,
        t is Nil ==> free_slot(es, t, name, at) == Some(at),
        t is Node ==> (free_slot(es, t, name, at) matches Some(s) ==> s !is Child && ids(
            t,
        ).contains(s.holder())),
    decreases t,
{
    match t {
        Tree::Nil => {},
        Tree::Node { id, left, right, .. } => {
            lemma_free_slot(es, *left, name, Slot::Left(id));
            lemma_free_slot(es, *right, name, Slot::Right(id));
        },
    }
}

/// Linking a new entry at the place where the search for its name ends adds this
/// one node to the tree.
pub proof fn lemma_grafted(
    es: Seq<EntryView>,
    id: u32,
    t: Tree,
    name: Seq<char>,
    at: Slot,
    new: u32,
)
    requires
        repr(es, id, t),
        distinct(t),
        find(es, t, name) is None,
        !ids(t).contains(new),
        new < es.len(),
        new != NO_STREAM,
        es[new as int].left_sibling == NO_STREAM,
        es[new as int].right_sibling == NO_STREAM,
        es[new as int].child == NO_STREAM,
    ensures
        distinct(grafted(es, t, name, new)),
        ids(grafted(es, t, name, new)) =~= ids(t).insert(new),
        t is Node ==> repr(
            linked(es, free_slot(es, t, name, at)->0, new),
            id,
            grafted(es, t, name, new),
        ),
    decreases t,
{
    match t {
        Tree::Nil => {
            assert(ids(Tree::Nil) =~= Set::<u32>::empty());
        },
        Tree::Node { id: n, left, right, child } => {
            lemma_free_slot(es, t, name, at);
            let slot = free_slot(es, t, name, at)->0;
            let es2 = linked(es, slot, new);
            lemma_ids_in_range(es, id, t);
            assert forall|x: u32| ids(t).contains(x) && x != slot.holder() implies #[trigger] es2[x as int]
                == es[x as int] by {}
            match name_order(name, es[n as int].name) {
                NameOrder::Equal => {},
                NameOrder::Less => {
                    lemma_free_slot(es, *left, name, Slot::Left(n));
                    lemma_grafted(es, es[id as int].left_sibling, *left, name, Slot::Left(n), new);
                    lemma_repr_frame(es, es2, es[id as int].right_sibling, *right);
                    lemma_repr_frame(es, es2, es[id as int].child, *child);
                    if *left is Nil {
                        reveal_with_fuel(repr, 3);
                        assert(repr(es2, new, grafted(es, *left, name, new)));
                    }
                },
                NameOrder::Greater => {
                    lemma_free_slot(es, *right, name, Slot::Right(n));
                    lemma_grafted(es, es[id as int].right_sibling, *right, name, Slot::Right(n), new);
                    lemma_repr_frame(es, es2, es[id as int].left_sibling, *left);
                    lemma_repr_frame(es, es2, es[id as int].child, *child);
                    if *right is Nil {
                        reveal_with_fuel(repr, 3);
                        assert(repr(es2, new, grafted(es, *right, name, new)));
                    }
                },
            }
        },
    }
}

/// The object at the top of the rightmost branch lies in the tree, has no right
/// branch, and the link to it is either the one to the tree or a right link.
pub proof fn lemma_rightmost(es: Seq<EntryView>, id: u32, t: Tree, at: Slot)
    requires
        repr(es, id, t),
        distinct(t),
        t is Node,
    ensures
        ({
            let (from, last) = rightmost(t, at);
            &&& last is Node
            &&& last.right() is Nil
            &&& repr(es, last.top(), last)
            &&& distinct(last)
            &&& ids(t).contains(last.top())
            &&& ids(last).subset_of(ids(t))
            &&& if t.right() is Nil {
                from == at && last == t
            } else {
                &&& from is Right
                &&& ids(t).contains(from.holder())
                &&& !ids(last).contains(from.holder())
                &&& from.holder() != last.top()
                &&& es[from.holder() as int].right_sibling == last.top()
                &&& es[from.holder() as int].left_sibling != last.top()
            }
        }),
    decreases t,
{
    lemma_branch_ids(t);
    if t.right() is Node {
        lemma_rightmost(es, es[id as int].right_sibling, t.right(), Slot::Right(t.top()));
        reveal_with_fuel(repr, 2);
        reveal_with_fuel(rightmost, 2);
        lemma_branch_ids(t.right());
        if t.left() is Node {
            lemma_branch_ids(t.left());
        }
    }
}

/// Taking the rightmost node out of a tree of siblings, its left branch put in
/// its place, leaves the tree without this node.
pub proof fn lemma_without_rightmost(
    es: Seq<EntryView>,
    es2: Seq<EntryView>,
    id: u32,
    t: Tree,
    at: Slot,
)
    requires
        repr(es, id, t),
        distinct(t),
        t is Node,
        es2.len() == es.len(),
        ({
            let (from, last) = rightmost(t, at);
            &&& forall|x: u32| #[trigger]
                ids(t).contains(x) && x != last.top() && (t.right() is Nil || x != from.holder())
                    ==> same_links(es[x as int], es2[x as int])
            &&& t.right() is Node ==> same_links(
                es2[from.holder() as int],
                es[from.holder() as int].with_right(es[last.top() as int].left_sibling),
            )
        }),
    ensures
        ({
            let last = rightmost(t, at).1;
            &&& distinct(without_rightmost(t))
            &&& ids(last.child()).subset_of(ids(t))
            &&& ids(without_rightmost(t)) =~= ids(t).difference(ids(last.child())).remove(last.top())
            &&& t.right() is Nil ==> repr(
                es2,
                es[last.top() as int].left_sibling,
                without_rightmost(t),
            )
            &&& t.right() is Node ==> repr(es2, id, without_rightmost(t))
        }),
    decreases t,
{
    let (from, last) = rightmost(t, at);
    lemma_rightmost(es, id, t, at);
    lemma_ids_in_range(es, id, t);
    lemma_branch_ids(t);
    match t {
        Tree::Nil => {},
        Tree::Node { id: n, left, right, child } => {
            if *right is Nil {
                lemma_repr_frame(es, es2, es[id as int].left_sibling, *left);
            } else {
                lemma_rightmost(es, es[id as int].right_sibling, *right, Slot::Right(n));
                lemma_without_rightmost(
                    es,
                    es2,
                    es[id as int].right_sibling,
                    *right,
                    Slot::Right(n),
                );
                lemma_repr_frame(es, es2, es[id as int].left_sibling, *left);
                lemma_repr_frame(es, es2, es[id as int].child, *child);
                assert(ids(t).contains(n));
            }
        },
    }
}

/// Removing the object at the top of a tree of siblings, an object without
/// children, leaves the tree without it; one entry falls out of use.
pub proof fn lemma_without_top(es: Seq<EntryView>, t: Tree, at: Slot)
    requires
        repr(es, t.top(), t),
        distinct(t),
        t is Node,
        t.child() is Nil,
        !ids(t).contains(at.holder()),
        at.holder() < es.len(),
    ensures
        repr(removed(es, at, t), without_top(t).top(), without_top(t)),
        distinct(without_top(t)),
        ids(t).contains(vacated(t)),
        ids(without_top(t)) =~= ids(t).remove(vacated(t)),
        removed(es, at, t).len() == es.len(),
        forall|x: u32|
            x < es.len() && !ids(t).contains(x) && x != at.holder() ==> #[trigger] removed(es, at, t)[x as int]
                == es[x as int],
        same_links(
            removed(es, at, t)[at.holder() as int],
            linked(es, at, without_top(t).top())[at.holder() as int],
        ) || (t.left() is Node && t.right() is Node && removed(es, at, t)[at.holder() as int]
            == es[at.holder() as int]),
{
    let top = t.top();
    let es2 = removed(es, at, t);
    lemma_ids_in_range(es, top, t);
    lemma_branch_ids(t);
    assert(ids(Tree::Nil) =~= Set::<u32>::empty());
    assert(repr(es, es[top as int].left_sibling, t.left()));
    assert(repr(es, es[top as int].right_sibling, t.right()));
    if t.left() is Nil {
        lemma_repr_frame(es, es2, es[top as int].right_sibling, t.right());
    } else if t.right() is Nil {
        lemma_repr_frame(es, es2, es[top as int].left_sibling, t.left());
    } else {
        let (from, last) = rightmost(t.left(), Slot::Left(top));
        lemma_rightmost(es, es[top as int].left_sibling, t.left(), Slot::Left(top));
        lemma_without_rightmost(es, es2, es[top as int].left_sibling, t.left(), Slot::Left(top));
        lemma_branch_ids(last);
        lemma_repr_frame(es, es2, es[top as int].right_sibling, t.right());
        lemma_repr_frame(es, es2, es[last.top() as int].child, last.child());
    }
}

/// Removing the object at the top of a tree of siblings leaves every other object
/// what it was. All keep their entries, except that one may move into the entry
/// of the removed object; the entry that falls out of use is cleared.
pub proof fn lemma_removed_payload(es: Seq<EntryView>, t: Tree, at: Slot)
    requires
        repr(es, t.top(), t),
        distinct(t),
        t is Node,
        !ids(t).contains(at.holder()),
        at.holder() < es.len(),
    ensures
        vacated(t) < es.len(),
        removed(es, at, t)[vacated(t) as int] == EntryView::unallocated(),
        forall|x: u32|
            x < es.len() && x != vacated(t) && x != t.top() ==> (#[trigger] removed(
                es,
                at,
                t,
            )[x as int]).payload() == es[x as int].payload(),
        vacated(t) != t.top() ==> removed(es, at, t)[t.top() as int].payload()
            == es[vacated(t) as int].payload(),
{
    lemma_ids_in_range(es, t.top(), t);
    lemma_branch_ids(t);
    reveal_with_fuel(repr, 2);
    if t.left() is Node && t.right() is Node {
        lemma_rightmost(es, es[t.top() as int].left_sibling, t.left(), Slot::Left(t.top()));
    }
}

/// What the search for `name` reaches, and the link to it.
pub proof fn lemma_target(es: Seq<EntryView>, id: u32, t: Tree, name: Seq<char>, at: Slot)
    requires
        repr(es, id, t),
        distinct(t),
        !ids(t).contains(at.holder()),
    ensures
        target(es, t, name, at) is Some <==> find(es, t, name) is Some,
        target(es, t, name, at) matches Some((slot, found)) ==> {
            &&& found is Node
            &&& find(es, t, name) == Some(found.top())
            &&& repr(es, found.top(), found)
            &&& distinct(found)
            &&& ids(found).subset_of(ids(t))
            &&& !ids(found).contains(slot.holder())
            &&& t.top() == found.top() ==> slot == at && found == t
            &&& t.top() != found.top() ==> {
                &&& ids(t).contains(slot.holder())
                &&& slot is Left ==> es[slot.holder() as int].left_sibling == found.top()
                &&& slot is Right ==> es[slot.holder() as int].right_sibling == found.top()
                    && es[slot.holder() as int].left_sibling != found.top()
                &&& slot !is Child
            }
        },
    decreases t,
{
    match t {
        Tree::Nil => {},
        Tree::Node { id: n, left, right, .. } => {
            lemma_branch_ids(t);
            reveal_with_fuel(repr, 2);
            if *left is Node {
                lemma_branch_ids(*left);
            }
            if *right is Node {
                lemma_branch_ids(*right);
            }
            match name_order(name, es[n as int].name) {
                NameOrder::Equal => {},
                NameOrder::Less => {
                    lemma_target(es, es[id as int].left_sibling, *left, name, Slot::Left(n));
                    if let Some((slot, found)) = target(es, *left, name, Slot::Left(n)) {
                        lemma_branch_ids(found);
                    }
                },
                NameOrder::Greater => {
                    lemma_target(es, es[id as int].right_sibling, *right, name, Slot::Right(n));
                    if let Some((slot, found)) = target(es, *right, name, Slot::Right(n)) {
                        lemma_branch_ids(found);
                    }
                },
            }
        },
    }
}

/// Removing the object that the search for `name` finds, an object without
/// children, leaves the tree of siblings without it; one entry falls out of use.
pub proof fn lemma_detached(es: Seq<EntryView>, id: u32, t: Tree, name: Seq<char>, at: Slot)
    requires
        repr(es, id, t),
        distinct(t),
        !ids(t).contains(at.holder()),
        at.holder() < es.len(),
        target(es, t, name, at) is Some,
        (target(es, t, name, at)->0).1.child() is Nil,
    ensures
        ({
            let (slot, found) = target(es, t, name, at)->0;
            let es2 = removed(es, slot, found);
            &&& repr(
                es2,
                if slot == at {
                    without_top(t).top()
                } else {
                    id
                },
                detached(es, t, name),
            )
            &&& slot == at ==> found == t && detached(es, t, name) == without_top(t)
            &&& distinct(detached(es, t, name))
            &&& ids(t).contains(vacated(found))
            &&& ids(detached(es, t, name)) =~= ids(t).remove(vacated(found))
            &&& es2.len() == es.len()
            &&& forall|x: u32|
                x < es.len() && !ids(t).contains(x) && x != at.holder() ==> #[trigger] es2[x as int]
                    == es[x as int]
            &&& slot != at ==> es2[at.holder() as int] == es[at.holder() as int]
        }),
    decreases t,
{
    lemma_target(es, id, t, name, at);
    let (slot, found) = target(es, t, name, at)->0;
    let es2 = removed(es, slot, found);
    lemma_ids_in_range(es, id, t);
    match t {
        Tree::Nil => {},
        Tree::Node { id: n, left, right, child } => {
            lemma_branch_ids(t);
            lemma_without_top(es, found, slot);
            match name_order(name, es[n as int].name) {
                NameOrder::Equal => {},
                NameOrder::Less => {
                    lemma_detached(es, es[id as int].left_sibling, *left, name, Slot::Left(n));
                    lemma_target(es, es[id as int].left_sibling, *left, name, Slot::Left(n));
                    lemma_repr_frame(es, es2, es[id as int].right_sibling, *right);
                    lemma_repr_frame(es, es2, es[id as int].child, *child);
                },
                NameOrder::Greater => {
                    lemma_detached(es, es[id as int].right_sibling, *right, name, Slot::Right(n));
                    lemma_target(es, es[id as int].right_sibling, *right, name, Slot::Right(n));
                    lemma_repr_frame(es, es2, es[id as int].left_sibling, *left);
                    lemma_repr_frame(es, es2, es[id as int].child, *child);
                },
            }
        },
    }
}

/// Replacing the children of an entry that is not in the tree changes nothing.
pub proof fn lemma_with_children_absent(t: Tree, parent: u32, branch: Tree)
    requires
        !ids(t).contains(parent),
    ensures
        with_children(t, parent, branch) == t,
    decreases t,
{
    match t {
        Tree::Nil => {},
        Tree::Node { left, right, child, .. } => {
            lemma_branch_ids(t);
            lemma_with_children_absent(*left, parent, branch);
            lemma_with_children_absent(*right, parent, branch);
            lemma_with_children_absent(*child, parent, branch);
        },
    }
}

/// When the links below the child link of one entry come to form another tree,
/// and all others stay, the whole tree changes in this branch alone.
pub proof fn lemma_with_children(
    es: Seq<EntryView>,
    es2: Seq<EntryView>,
    id: u32,
    t: Tree,
    parent: u32,
    branch: Tree,
)
    requires
        repr(es, id, t),
        distinct(t),
        ids(t).contains(parent),
        es.len() <= es2.len(),
        forall|x: u32| #[trigger]
            ids(t).contains(x) && x != parent && !ids(children(es, parent)).contains(x)
                ==> same_links(es[x as int], es2[x as int]),
        es2[parent as int].left_sibling == es[parent as int].left_sibling,
        es2[parent as int].right_sibling == es[parent as int].right_sibling,
        repr(es2, es2[parent as int].child, branch),
        distinct(branch),
        !ids(branch).contains(parent),
        forall|x: u32| #[trigger]
            ids(branch).contains(x) && ids(t).contains(x) ==> ids(children(es, parent)).contains(x),
    ensures
        repr(es2, id, with_children(t, parent, branch)),
        distinct(with_children(t, parent, branch)),
        ids(with_children(t, parent, branch)) =~= ids(t).difference(
            ids(children(es, parent)),
        ).union(ids(branch)),
    decreases t,
{
    lemma_children(es, id, t, parent);
    match t {
        Tree::Nil => {},
        Tree::Node { id: n, left, right, child } => {
            let old = children(es, parent);
            lemma_branch_ids(t);
            if n == parent {
                lemma_tree_at(es, es[n as int].child, *child);
                lemma_with_children_absent(*left, parent, branch);
                lemma_with_children_absent(*right, parent, branch);
                lemma_repr_frame(es, es2, es[id as int].left_sibling, *left);
                lemma_repr_frame(es, es2, es[id as int].right_sibling, *right);
            } else if ids(*left).contains(parent) {
                lemma_children(es, es[id as int].left_sibling, *left, parent);
                lemma_with_children(es, es2, es[id as int].left_sibling, *left, parent, branch);
                lemma_with_children_absent(*right, parent, branch);
                lemma_with_children_absent(*child, parent, branch);
                lemma_repr_frame(es, es2, es[id as int].right_sibling, *right);
                lemma_repr_frame(es, es2, es[id as int].child, *child);
            } else if ids(*right).contains(parent) {
                lemma_children(es, es[id as int].right_sibling, *right, parent);
                lemma_with_children(es, es2, es[id as int].right_sibling, *right, parent, branch);
                lemma_with_children_absent(*left, parent, branch);
                lemma_with_children_absent(*child, parent, branch);
                lemma_repr_frame(es, es2, es[id as int].left_sibling, *left);
                lemma_repr_frame(es, es2, es[id as int].child, *child);
            } else {
                lemma_children(es, es[id as int].child, *child, parent);
                lemma_with_children(es, es2, es[id as int].child, *child, parent, branch);
                lemma_with_children_absent(*left, parent, branch);
                lemma_with_children_absent(*right, parent, branch);
                lemma_repr_frame(es, es2, es[id as int].left_sibling, *left);
                lemma_repr_frame(es, es2, es[id as int].right_sibling, *right);
            }
        },
    }
}

/// How much there is of a tree: one for the tree, and one for each node.
pub open spec fn size(t: Tree) -> nat
    decreases t,
{
    match t {
        Tree::Nil => 1,
        Tree::Node { left, right, child, .. } => 1 + size(*left) + size(*right) + size(*child),
    }
}

/// How much there is of a list of trees.
pub open spec fn forest_size(trees: Seq<Tree>) -> nat
    decreases trees.len(),
{
    if trees.len() == 0 {
        0
    } else {
        forest_size(trees.drop_last()) + size(trees.last())
    }
}

/// A list of trees becomes smaller when its last tree gives way to its branches.
pub proof fn lemma_forest_step(trees: Seq<Tree>)
    requires
        trees.len() > 0,
        trees.last() is Node,
    ensures
        ({
            let t = trees.last();
            forest_size(trees.drop_last().push(t.left()).push(t.right()).push(t.child()))
                < forest_size(trees)
        }),
{
    let t = trees.last();
    let rest = trees.drop_last();
    let one = rest.push(t.left());
    let two = one.push(t.right());
    let three = two.push(t.child());
    assert(three.drop_last() =~= two);
    assert(two.drop_last() =~= one);
    assert(one.drop_last() =~= rest);
    assert(forest_size(one) == forest_size(rest) + size(t.left()));
    assert(forest_size(two) == forest_size(one) + size(t.right()));
    assert(forest_size(three) == forest_size(two) + size(t.child()));
}

} // verus!

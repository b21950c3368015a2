//! When the entries of a directory are valid, and what is wrong with them if not.
use crate::consts;
use crate::consts::{NO_STREAM, OBJ_TYPE_UNALLOCATED, ROOT_STREAM_ID};
use crate::direntry::EntryView;
use crate::error::ErrorView;
use crate::names::{name_order, NameOrder};
use crate::tree::{distinct, has_tree, ids, is_tree, reachable, repr, tree_at, Tree};
use vstd::prelude::*;

verus! {

/// Whether an entry is a red tree node.
pub open spec fn is_red(entry: EntryView) -> bool {
    entry.color == consts::COLOR_RED
}

/// What is wrong with the link to the left sibling, if anything.
pub open spec fn left_fault(es: Seq<EntryView>, id: u32) -> Option<ErrorView> {
    let entry = es[id as int];
    let left = entry.left_sibling;
    if left == NO_STREAM {
        None
    } else if left >= es.len() {
        Some(ErrorView::LeftSiblingIndex { index: left, count: es.len() as int })
    } else if name_order(es[left as int].name, entry.name) != NameOrder::Less {
        Some(ErrorView::NamesOutOfOrder { name: entry.name, sibling: es[left as int].name })
    } else {
        None
    }
}

/// What is wrong with the link to the right sibling, if anything.
pub open spec fn right_fault(es: Seq<EntryView>, id: u32) -> Option<ErrorView> {
    let entry = es[id as int];
    let right = entry.right_sibling;
    if right == NO_STREAM {
        None
    } else if right >= es.len() {
        Some(ErrorView::RightSiblingIndex { index: right, count: es.len() as int })
    } else if name_order(entry.name, es[right as int].name) != NameOrder::Less {
        Some(ErrorView::NamesOutOfOrder { name: entry.name, sibling: es[right as int].name })
    } else {
        None
    }
}

/// What is wrong with the link to the children, if anything.
pub open spec fn child_fault(es: Seq<EntryView>, id: u32) -> Option<ErrorView> {
    let child = es[id as int].child;
    if child != NO_STREAM && child >= es.len() {
        Some(ErrorView::ChildIndex { index: child, count: es.len() as int })
    } else {
        None
    }
}

/// What is wrong with the object type of an entry in the tree, if anything.
pub open spec fn type_fault(es: Seq<EntryView>, id: u32) -> Option<ErrorView> {
    let obj_type = es[id as int].obj_type;
    if id == ROOT_STREAM_ID {
        if obj_type != consts::OBJ_TYPE_ROOT {
            Some(ErrorView::RootType { obj_type })
        } else {
            None
        }
    } else if obj_type != consts::OBJ_TYPE_STORAGE && obj_type != consts::OBJ_TYPE_STREAM {
        Some(ErrorView::NonRootType { obj_type })
    } else {
        None
    }
}

/// The first thing that is wrong with one entry in the tree, if anything:
/// its object type, then its color below a red node, then its three links.
pub open spec fn node_fault(es: Seq<EntryView>, id: u32, parent_is_red: bool) -> Option<ErrorView> {
    if type_fault(es, id) is Some {
        type_fault(es, id)
    } else if parent_is_red && is_red(es[id as int]) {
        Some(ErrorView::TwoRedNodes)
    } else if left_fault(es, id) is Some {
        left_fault(es, id)
    } else if right_fault(es, id) is Some {
        right_fault(es, id)
    } else {
        child_fault(es, id)
    }
}

/// The entry that a link leads to, with the color of the entry that it leads from.
pub open spec fn visit(id: u32, parent_is_red: bool) -> Seq<(u32, bool)> {
    if id == NO_STREAM {
        Seq::empty()
    } else {
        seq![(id, parent_is_red)]
    }
}

/// The entries that the links of an entry lead to; the children of an entry do
/// not count as hanging from a red node.
pub open spec fn visits(es: Seq<EntryView>, id: u32) -> Seq<(u32, bool)> {
    let entry = es[id as int];
    visit(entry.left_sibling, is_red(entry)) + visit(entry.right_sibling, is_red(entry)) + visit(
        entry.child,
        false,
    )
}

/// The first thing that is found to be wrong by visiting the entries in
/// `pending`, the last first, and for each the entries that its links lead to:
/// its children, then its right sibling, then its left, before all others.
/// An entry in `visited` must not come up again.
pub open spec fn walk_fault(
    es: Seq<EntryView>,
    pending: Seq<(u32, bool)>,
    visited: Set<u32>,
    steps: nat,
) -> Option<ErrorView>
    decreases steps,
{
    if pending.len() == 0 || steps == 0 {
        None
    } else {
        let (id, parent_is_red) = pending.last();
        if visited.contains(id) {
            Some(ErrorView::TreeLoop)
        } else if node_fault(es, id, parent_is_red) is Some {
            node_fault(es, id, parent_is_red)
        } else {
            walk_fault(
                es,
                pending.drop_last() + visits(es, id),
                visited.insert(id),
                (steps - 1) as nat,
            )
        }
    }
}

/// The first thing that is wrong with the entries of a directory, if anything:
/// the name of the root, the length of its stream, or what the walk from the
/// root over all links finds. The walk visits no entry twice, so that it takes
/// at most one step more than there are entries.
pub open spec fn fault(es: Seq<EntryView>) -> Option<ErrorView> {
    let root = es[ROOT_STREAM_ID as int];
    if root.name != consts::ROOT_DIR_NAME@ {
        Some(ErrorView::RootName { name: root.name })
    } else if root.stream_len % (consts::MINI_SECTOR_LEN as u64) != 0 {
        Some(ErrorView::RootStreamLen { stream_len: root.stream_len })
    } else {
        walk_fault(es, seq![(ROOT_STREAM_ID, false)], Set::empty(), es.len() + 1)
    }
}

/// Nothing is wrong with any single entry of a tree.
pub open spec fn sound(es: Seq<EntryView>, t: Tree, parent_is_red: bool) -> bool
    decreases t,
{
    match t {
        Tree::Nil => true,
        Tree::Node { id, left, right, child } => {
            &&& node_fault(es, id, parent_is_red) is None
            &&& sound(es, *left, is_red(es[id as int]))
            &&& sound(es, *right, is_red(es[id as int]))
            &&& sound(es, *child, false)
        },
    }
}

/// The trees `ts` hang from the entries in `pending`; nothing is wrong in any of
/// them, and no entry is in two of them or in `visited`.
pub open spec fn sound_forest(
    es: Seq<EntryView>,
    pending: Seq<(u32, bool)>,
    ts: Seq<Tree>,
    visited: Set<u32>,
) -> bool {
    &&& ts.len() == pending.len()
    &&& forall|i: int|
        0 <= i < ts.len() ==> {
            &&& #[trigger] ts[i] is Node
            &&& repr(es, pending[i].0, ts[i])
            &&& distinct(ts[i])
            &&& sound(es, ts[i], pending[i].1)
            &&& ids(ts[i]).disjoint(visited)
        }
    &&& forall|i: int, j: int|
        0 <= i < j < ts.len() ==> (#[trigger] ids(ts[i])).disjoint(#[trigger] ids(ts[j]))
}

/// There are no more visited entries than entries.
pub proof fn lemma_visited_bound(count: nat, visited: Set<u32>)
    requires
        visited.finite(),
        forall|x: u32| #[trigger] visited.contains(x) ==> x < count,
    ensures
        visited.len() <= count,
    decreases count,
{
    if count == 0 {
        assert(visited =~= Set::<u32>::empty());
    } else {
        let last = (count - 1) as u32;
        let rest = visited.remove(last);
        assert forall|x: u32| #[trigger] rest.contains(x) implies x < count - 1 by {
            assert(visited.contains(x));
        }
        lemma_visited_bound((count - 1) as nat, rest);
    }
}

/// A walk that finds nothing wrong has passed over trees in which nothing is.
pub proof fn lemma_walk_to_forest(
    es: Seq<EntryView>,
    pending: Seq<(u32, bool)>,
    visited: Set<u32>,
    steps: nat,
) -> (ts: Seq<Tree>)
    requires
        walk_fault(es, pending, visited, steps) is None,
        steps + visited.len() >= es.len() + 1,
        visited.finite(),
        forall|x: u32| #[trigger] visited.contains(x) ==> x < es.len(),
        forall|i: int|
            0 <= i < pending.len() ==> (#[trigger] pending[i]).0 < es.len() && pending[i].0
                != NO_STREAM,
    ensures
        sound_forest(es, pending, ts, visited),
    decreases steps,
{
    lemma_visited_bound(es.len(), visited);
    if pending.len() == 0 {
        Seq::empty()
    } else {
        let (id, parent_is_red) = pending.last();
        let entry = es[id as int];
        let rest = pending.drop_last();
        let more = rest + visits(es, id);
        assert forall|i: int| 0 <= i < more.len() implies (#[trigger] more[i]).0 < es.len()
            && more[i].0 != NO_STREAM by {
            if i < rest.len() {
                assert(more[i] == pending[i]);
            }
        }
        let found = lemma_walk_to_forest(es, more, visited.insert(id), (steps - 1) as nat);
        let n = rest.len() as int;
        let at_right = n + visit(entry.left_sibling, is_red(entry)).len();
        let at_child = at_right + visit(entry.right_sibling, is_red(entry)).len();
        let left = if entry.left_sibling == NO_STREAM { Tree::Nil } else { found[n] };
        let right = if entry.right_sibling == NO_STREAM { Tree::Nil } else { found[at_right] };
        let child = if entry.child == NO_STREAM { Tree::Nil } else { found[at_child] };
        let node = Tree::Node {
            id,
            left: Box::new(left),
            right: Box::new(right),
            child: Box::new(child),
        };
        assert(ids(Tree::Nil) =~= Set::<u32>::empty());
        assert(repr(es, NO_STREAM, Tree::Nil));
        assert(sound(es, Tree::Nil, is_red(entry)));
        assert(sound(es, Tree::Nil, false));
        if entry.left_sibling != NO_STREAM {
            assert(more[n] == (entry.left_sibling, is_red(entry)));
        }
        if entry.right_sibling != NO_STREAM {
            assert(more[at_right] == (entry.right_sibling, is_red(entry)));
        }
        if entry.child != NO_STREAM {
            assert(more[at_child] == (entry.child, false));
        }
        assert(repr(es, id, node));
        assert(sound(es, node, parent_is_red));
        assert forall|i: int| n <= i < found.len() implies !(#[trigger] ids(found[i])).contains(id) by {
            assert(found[i] is Node);
            assert(ids(found[i]).disjoint(visited.insert(id)));
        }
        assert(distinct(Tree::Nil));
        assert(distinct(node));
        let ts = found.take(n).push(node);
        assert forall|i: int| 0 <= i < ts.len() implies {
            &&& #[trigger] ts[i] is Node
            &&& repr(es, pending[i].0, ts[i])
            &&& distinct(ts[i])
            &&& sound(es, ts[i], pending[i].1)
            &&& ids(ts[i]).disjoint(visited)
        } by {
            if i < n {
                assert(ts[i] == found[i]);
                assert(more[i] == pending[i]);
                assert(ids(ts[i]).disjoint(visited.insert(id)));
            }
        }
        assert forall|i: int, j: int| 0 <= i < j < ts.len() implies (#[trigger] ids(ts[i])).disjoint(
            #[trigger] ids(ts[j]),
        ) by {
            assert(ts[i] == found[i]);
            if j < n {
                assert(ts[j] == found[j]);
            } else {
                assert(ids(found[i]).disjoint(visited.insert(id)));
            }
        }
        ts
    }
}

/// A walk over trees in which nothing is wrong finds nothing wrong.
pub proof fn lemma_forest_to_walk(
    es: Seq<EntryView>,
    pending: Seq<(u32, bool)>,
    ts: Seq<Tree>,
    visited: Set<u32>,
    steps: nat,
)
    requires
        sound_forest(es, pending, ts, visited),
    ensures
        walk_fault(es, pending, visited, steps) is None,
    decreases steps,
{
    if pending.len() > 0 && steps > 0 {
        let (id, parent_is_red) = pending.last();
        let entry = es[id as int];
        let t = ts.last();
        assert(t == ts[ts.len() - 1]);
        crate::tree::lemma_branch_ids(t);
        reveal_with_fuel(repr, 2);
        let rest = pending.drop_last();
        let more = rest + visits(es, id);
        let n = rest.len() as int;
        let lefts = if t.left() is Nil { Seq::empty() } else { seq![t.left()] };
        let rights = if t.right() is Nil { Seq::empty() } else { seq![t.right()] };
        let kids = if t.child() is Nil { Seq::empty() } else { seq![t.child()] };
        let us = ts.drop_last() + (lefts + rights + kids);
        assert(us.len() == more.len());
        assert forall|i: int| 0 <= i < us.len() implies {
            &&& #[trigger] us[i] is Node
            &&& repr(es, more[i].0, us[i])
            &&& distinct(us[i])
            &&& sound(es, us[i], more[i].1)
            &&& ids(us[i]).disjoint(visited.insert(id))
        } by {
            if i < n {
                assert(us[i] == ts[i]);
                assert(more[i] == pending[i]);
                assert(ids(ts[i]).disjoint(ids(t)));
            } else {
                assert(ids(t).disjoint(visited));
            }
        }
        assert forall|i: int, j: int| 0 <= i < j < us.len() implies (#[trigger] ids(us[i])).disjoint(
            #[trigger] ids(us[j]),
        ) by {
            if i < n {
                assert(us[i] == ts[i]);
                assert(ids(ts[i]).disjoint(ids(t)));
                if j < n {
                    assert(us[j] == ts[j]);
                }
            }
        }
        lemma_forest_to_walk(es, more, us, visited.insert(id), (steps - 1) as nat);
    }
}

/// The entries are valid exactly if the root has its name and a stream of whole
/// mini sectors, and the links from it form a tree in which no entry occurs twice
/// and no single entry has anything wrong with it.
pub open spec fn valid_tree(es: Seq<EntryView>, t: Tree) -> bool {
    &&& es[ROOT_STREAM_ID as int].name == consts::ROOT_DIR_NAME@
    &&& es[ROOT_STREAM_ID as int].stream_len % (consts::MINI_SECTOR_LEN as u64) == 0
    &&& repr(es, ROOT_STREAM_ID, t)
    &&& distinct(t)
    &&& sound(es, t, false)
}

proof fn lemma_sound_in_use(es: Seq<EntryView>, t: Tree, parent_is_red: bool)
    requires
        sound(es, t, parent_is_red),
    ensures
        forall|x: u32| #[trigger]
            ids(t).contains(x) ==> type_fault(es, x) is None && es[x as int].obj_type
                != OBJ_TYPE_UNALLOCATED,
    decreases t,
{
    match t {
        Tree::Nil => {
            assert(ids(t) =~= Set::<u32>::empty());
        },
        Tree::Node { id, left, right, child } => {
            lemma_sound_in_use(es, *left, is_red(es[id as int]));
            lemma_sound_in_use(es, *right, is_red(es[id as int]));
            lemma_sound_in_use(es, *child, false);
            assert forall|x: u32| #[trigger] ids(t).contains(x) implies type_fault(es, x) is None
                && es[x as int].obj_type != OBJ_TYPE_UNALLOCATED by {
                if ids(*left).contains(x) || ids(*right).contains(x) || ids(*child).contains(x) {
                } else {
                    assert(x == id);
                    assert(node_fault(es, id, parent_is_red) is None);
                }
            }
        },
    }
}

/// Validation finds nothing wrong exactly with the entries that are
/// [valid](valid_tree); and then their links form a tree.
pub proof fn lemma_valid_iff(es: Seq<EntryView>)
    requires
        es.len() > 0,
    ensures
        fault(es) is None <==> exists|t: Tree| valid_tree(es, t),
        fault(es) is None ==> has_tree(es) && valid_tree(es, tree_at(es, ROOT_STREAM_ID)),
{
    let start = seq![(ROOT_STREAM_ID, false)];
    if fault(es) is None {
        let ts = lemma_walk_to_forest(es, start, Set::empty(), es.len() + 1);
        let t = ts[0];
        assert(start[0] == (ROOT_STREAM_ID, false));
        lemma_sound_in_use(es, t, false);
        crate::tree::lemma_tree_at(es, ROOT_STREAM_ID, t);
        assert(valid_tree(es, t));
        assert(is_tree(es, t));
    }
    if exists|t: Tree| valid_tree(es, t) {
        let t = choose|t: Tree| valid_tree(es, t);
        assert(sound_forest(es, start, seq![t], Set::empty()));
        lemma_forest_to_walk(es, start, seq![t], Set::empty(), es.len() + 1);
    }
}

/// A link of the entry `x` leads to the entry `y`.
pub open spec fn is_link(es: Seq<EntryView>, x: u32, y: u32) -> bool {
    let entry = es[x as int];
    &&& y != NO_STREAM
    &&& y < es.len()
    &&& entry.left_sibling == y || entry.right_sibling == y || entry.child == y
}

/// The entries in `way` begin with the root, and a link leads from each to the next.
pub open spec fn is_way(es: Seq<EntryView>, way: Seq<u32>) -> bool {
    &&& way.len() > 0
    &&& way[0] == ROOT_STREAM_ID
    &&& forall|i: int| 0 < i < way.len() ==> is_link(es, way[i - 1], #[trigger] way[i])
}

/// Links from the root lead to the entry `x`, whatever shape the links have.
pub open spec fn in_reach(es: Seq<EntryView>, x: u32) -> bool {
    exists|way: Seq<u32>| #[trigger] is_way(es, way) && way.last() == x
}

/// The root is in its own reach, and what a link of an entry in reach leads to is in
/// reach.
pub proof fn lemma_in_reach(es: Seq<EntryView>, x: u32, y: u32)
    ensures
        in_reach(es, ROOT_STREAM_ID),
        in_reach(es, x) && is_link(es, x, y) ==> in_reach(es, y),
{
    let root = seq![ROOT_STREAM_ID];
    assert(is_way(es, root) && root.last() == ROOT_STREAM_ID);
    if in_reach(es, x) && is_link(es, x, y) {
        let way = choose|way: Seq<u32>| #[trigger] is_way(es, way) && way.last() == x;
        let longer = way.push(y);
        assert forall|i: int| 0 < i < longer.len() implies is_link(
            es,
            longer[i - 1],
            #[trigger] longer[i],
        ) by {
            if i < way.len() {
                assert(longer[i - 1] == way[i - 1] && longer[i] == way[i]);
            } else {
                assert(longer[i - 1] == way.last());
            }
        }
        assert(is_way(es, longer) && longer.last() == y);
    }
}

/// Where the links form a tree, the entries in the reach of the root are those in the
/// tree.
pub proof fn lemma_reach_of_tree(es: Seq<EntryView>, x: u32)
    requires
        has_tree(es),
    ensures
        in_reach(es, x) <==> reachable(es).contains(x),
{
    let t = tree_at(es, ROOT_STREAM_ID);
    crate::model::lemma_the_tree(es);
    if in_reach(es, x) {
        let way = choose|way: Seq<u32>| #[trigger] is_way(es, way) && way.last() == x;
        lemma_way_in_tree(es, way, way.len() - 1);
    }
    if reachable(es).contains(x) {
        lemma_in_reach(es, x, x);
        lemma_tree_in_reach(es, ROOT_STREAM_ID, t, x);
    }
}

proof fn lemma_way_in_tree(es: Seq<EntryView>, way: Seq<u32>, i: int)
    requires
        has_tree(es),
        is_way(es, way),
        0 <= i < way.len(),
    ensures
        reachable(es).contains(way[i]),
    decreases i,
{
    let whole = tree_at(es, ROOT_STREAM_ID);
    crate::model::lemma_the_tree(es);
    if i > 0 {
        lemma_way_in_tree(es, way, i - 1);
        let x = way[i - 1];
        assert(is_link(es, x, way[i]));
        crate::tree::lemma_node(es, ROOT_STREAM_ID, whole, x);
        let t = tree_at(es, x);
        crate::tree::lemma_branch_ids(t);
        crate::tree::lemma_repr_top(es, es[x as int].left_sibling, t.left());
        crate::tree::lemma_repr_top(es, es[x as int].right_sibling, t.right());
        crate::tree::lemma_repr_top(es, es[x as int].child, t.child());
    }
}

proof fn lemma_tree_in_reach(es: Seq<EntryView>, id: u32, t: Tree, x: u32)
    requires
        repr(es, id, t),
        t is Node ==> in_reach(es, id),
        ids(t).contains(x),
    ensures
        in_reach(es, x),
    decreases t,
{
    match t {
        Tree::Nil => {},
        Tree::Node { id: n, left, right, child } => {
            let entry = es[id as int];
            crate::tree::lemma_repr_top(es, entry.left_sibling, *left);
            crate::tree::lemma_repr_top(es, entry.right_sibling, *right);
            crate::tree::lemma_repr_top(es, entry.child, *child);
            lemma_in_reach(es, id, entry.left_sibling);
            lemma_in_reach(es, id, entry.right_sibling);
            lemma_in_reach(es, id, entry.child);
            if x == n {
            } else if ids(*left).contains(x) {
                lemma_tree_in_reach(es, entry.left_sibling, *left, x);
            } else if ids(*right).contains(x) {
                lemma_tree_in_reach(es, entry.right_sibling, *right, x);
            } else {
                lemma_tree_in_reach(es, entry.child, *child, x);
            }
        },
    }
}

/// Entries out of the reach of the root play no part in validity: of two lists of one
/// length that agree on all entries in the reach of the root, validation finds the same
/// thing to be wrong, or nothing with both.
pub proof fn lemma_only_reach_matters(es: Seq<EntryView>, es2: Seq<EntryView>)
    requires
        es.len() > 0,
        es.len() == es2.len(),
        forall|x: u32| x < es.len() && #[trigger] in_reach(es, x) ==> es[x as int] == es2[x as int],
    ensures
        fault(es) == fault(es2),
{
    lemma_in_reach(es, ROOT_STREAM_ID, ROOT_STREAM_ID);
    lemma_walk_in_reach(es, es2, seq![(ROOT_STREAM_ID, false)], Set::empty(), es.len() + 1);
}

proof fn lemma_walk_in_reach(
    es: Seq<EntryView>,
    es2: Seq<EntryView>,
    pending: Seq<(u32, bool)>,
    visited: Set<u32>,
    steps: nat,
)
    requires
        es.len() == es2.len(),
        forall|x: u32| x < es.len() && #[trigger] in_reach(es, x) ==> es[x as int] == es2[x as int],
        forall|i: int|
            0 <= i < pending.len() ==> (#[trigger] pending[i]).0 < es.len() && in_reach(
                es,
                pending[i].0,
            ),
    ensures
        walk_fault(es, pending, visited, steps) == walk_fault(es2, pending, visited, steps),
    decreases steps,
{
    if pending.len() > 0 && steps > 0 {
        let (id, parent_is_red) = pending.last();
        assert(pending[pending.len() - 1] == (id, parent_is_red));
        let entry = es[id as int];
        lemma_in_reach(es, id, entry.left_sibling);
        lemma_in_reach(es, id, entry.right_sibling);
        lemma_in_reach(es, id, entry.child);
        assert(es2[id as int] == entry);
        assert(left_fault(es, id) == left_fault(es2, id));
        assert(right_fault(es, id) == right_fault(es2, id));
        assert(node_fault(es, id, parent_is_red) == node_fault(es2, id, parent_is_red));
        if !visited.contains(id) && node_fault(es, id, parent_is_red) is None {
            let rest = pending.drop_last();
            let more = rest + visits(es, id);
            assert(visits(es, id) == visits(es2, id));
            assert forall|i: int| 0 <= i < more.len() implies (#[trigger] more[i]).0 < es.len()
                && in_reach(es, more[i].0) by {
                if i < rest.len() {
                    assert(more[i] == pending[i]);
                } else {
                    assert(is_link(es, id, more[i].0));
                }
            }
            lemma_walk_in_reach(es, es2, more, visited.insert(id), (steps - 1) as nat);
        }
    }
}

} // verus!

//! How to tell whether the links of entries form a tree.
use crate::consts::{NO_STREAM, OBJ_TYPE_UNALLOCATED, ROOT_STREAM_ID};
use crate::direntry::EntryView;
use crate::tree::{distinct, has_tree, ids, is_tree, repr, Tree};
use vstd::prelude::*;

verus! {

/// The entry that a link leads to, if it leads anywhere.
pub open spec fn link_target(id: u32) -> Seq<u32> {
    if id == NO_STREAM {
        Seq::empty()
    } else {
        seq![id]
    }
}

/// The entries that the links of an entry lead to.
pub open spec fn link_targets(entry: EntryView) -> Seq<u32> {
    link_target(entry.left_sibling) + link_target(entry.right_sibling) + link_target(entry.child)
}

/// The trees `ts` hang from the entries in `pending`; all entries in them are in use, and
/// none is in two of them or in `visited`.
pub open spec fn is_forest(
    es: Seq<EntryView>,
    pending: Seq<u32>,
    ts: Seq<Tree>,
    visited: Set<u32>,
) -> bool {
    &&& ts.len() == pending.len()
    &&& forall|i: int|
        0 <= i < ts.len() ==> {
            &&& #[trigger] ts[i] is Node
            &&& repr(es, pending[i], ts[i])
            &&& distinct(ts[i])
            &&& ids(ts[i]).disjoint(visited)
            &&& in_use(es, ts[i])
        }
    &&& forall|i: int, j: int|
        0 <= i < j < ts.len() ==> (#[trigger] ids(ts[i])).disjoint(#[trigger] ids(ts[j]))
}

/// All entries in a tree are in use.
pub open spec fn in_use(es: Seq<EntryView>, t: Tree) -> bool {
    forall|x: u32| #[trigger] ids(t).contains(x) ==> es[x as int].obj_type != OBJ_TYPE_UNALLOCATED
}

/// Trees hang from the entries in `pending`.
pub open spec fn has_forest(es: Seq<EntryView>, pending: Seq<u32>, visited: Set<u32>) -> bool {
    exists|ts: Seq<Tree>| is_forest(es, pending, ts, visited)
}

/// The links form a tree exactly if one hangs from the root.
pub proof fn lemma_root_forest(es: Seq<EntryView>)
    ensures
        has_tree(es) <==> has_forest(es, seq![ROOT_STREAM_ID], Set::empty()),
{
    let pending = seq![ROOT_STREAM_ID];
    if has_tree(es) {
        let t = choose|t: Tree| is_tree(es, t);
        assert(is_forest(es, pending, seq![t], Set::empty()));
    }
    if has_forest(es, pending, Set::empty()) {
        let ts = choose|ts: Seq<Tree>| is_forest(es, pending, ts, Set::empty());
        assert(ts[0] is Node);
        assert(is_tree(es, ts[0]));
    }
}

/// Nothing hangs from nothing.
pub proof fn lemma_empty_forest(es: Seq<EntryView>, visited: Set<u32>)
    ensures
        has_forest(es, Seq::empty(), visited),
{
    assert(is_forest(es, Seq::empty(), Seq::empty(), visited));
}

/// A tree hangs from an entry only if the entry is there, is in use, and was not visited.
pub proof fn lemma_no_forest(es: Seq<EntryView>, pending: Seq<u32>, visited: Set<u32>)
    requires
        pending.len() > 0,
        ({
            let id = pending.last();
            ||| id >= es.len()
            ||| visited.contains(id)
            ||| es[id as int].obj_type == OBJ_TYPE_UNALLOCATED
        }),
    ensures
        !has_forest(es, pending, visited),
{
    if has_forest(es, pending, visited) {
        let ts = choose|ts: Seq<Tree>| is_forest(es, pending, ts, visited);
        let t = ts[ts.len() - 1];
        assert(t is Node);
        crate::tree::lemma_repr_top(es, pending.last(), t);
        assert(ids(t).contains(pending.last()));
    }
}

/// Trees hang from some entries exactly if, with the last of them visited, trees hang
/// from the others and from what the links of this one lead to.
pub proof fn lemma_forest_step(es: Seq<EntryView>, pending: Seq<u32>, visited: Set<u32>)
    requires
        pending.len() > 0,
        pending.last() < es.len(),
        pending.last() != NO_STREAM,
        !visited.contains(pending.last()),
        es[pending.last() as int].obj_type != OBJ_TYPE_UNALLOCATED,
    ensures
        has_forest(es, pending, visited) <==> has_forest(
            es,
            pending.drop_last() + link_targets(es[pending.last() as int]),
            visited.insert(pending.last()),
        ),
{
    let id = pending.last();
    let more = pending.drop_last() + link_targets(es[id as int]);
    if has_forest(es, pending, visited) {
        let ts = choose|ts: Seq<Tree>| is_forest(es, pending, ts, visited);
        lemma_split(es, pending, ts, visited);
    }
    if has_forest(es, more, visited.insert(id)) {
        let us = choose|us: Seq<Tree>| is_forest(es, more, us, visited.insert(id));
        lemma_join(es, pending, us, visited);
    }
}

proof fn lemma_split(es: Seq<EntryView>, pending: Seq<u32>, ts: Seq<Tree>, visited: Set<u32>)
    requires
        pending.len() > 0,
        is_forest(es, pending, ts, visited),
    ensures
        has_forest(
            es,
            pending.drop_last() + link_targets(es[pending.last() as int]),
            visited.insert(pending.last()),
        ),
{
    let id = pending.last();
    let more = pending.drop_last() + link_targets(es[id as int]);
    let t = ts.last();
    assert(t == ts[ts.len() - 1]);
    crate::tree::lemma_branch_ids(t);
    reveal_with_fuel(repr, 2);
    let n = pending.len() - 1;
    let lefts = if t.left() is Nil { Seq::empty() } else { seq![t.left()] };
    let rights = if t.right() is Nil { Seq::empty() } else { seq![t.right()] };
    let kids = if t.child() is Nil { Seq::empty() } else { seq![t.child()] };
    let us = ts.drop_last() + (lefts + rights + kids);
    assert(us.len() == more.len());
    assert forall|i: int| 0 <= i < us.len() implies {
        &&& #[trigger] us[i] is Node
        &&& repr(es, more[i], us[i])
        &&& distinct(us[i])
        &&& ids(us[i]).disjoint(visited.insert(id))
        &&& in_use(es, us[i])
    } by {
        if i < n {
            assert(us[i] == ts[i]);
            assert(more[i] == pending[i]);
            assert(ids(ts[i]).disjoint(ids(t)));
        } else {
            assert(ids(t).disjoint(visited));
        }
    }
    assert forall|i: int, j: int| 0 <= i < j < us.len() implies (#[trigger] ids(us[i])).disjoint(
        #[trigger] ids(us[j]),
    ) by {
        if i < n {
            assert(us[i] == ts[i]);
            assert(ids(ts[i]).disjoint(ids(t)));
            if j < n {
                assert(us[j] == ts[j]);
            }
        }
    }
    assert(is_forest(es, more, us, visited.insert(id)));
}

proof fn lemma_join(es: Seq<EntryView>, pending: Seq<u32>, us: Seq<Tree>, visited: Set<u32>)
    requires
        pending.len() > 0,
        pending.last() < es.len(),
        pending.last() != NO_STREAM,
        !visited.contains(pending.last()),
        es[pending.last() as int].obj_type != OBJ_TYPE_UNALLOCATED,
        is_forest(
            es,
            pending.drop_last() + link_targets(es[pending.last() as int]),
            us,
            visited.insert(pending.last()),
        ),
    ensures
        has_forest(es, pending, visited),
{
    let id = pending.last();
    let entry = es[id as int];
    let rest = pending.drop_last();
    let more = rest + link_targets(entry);
    let n = rest.len() as int;
    let at_right = n + link_target(entry.left_sibling).len();
    let at_child = at_right + link_target(entry.right_sibling).len();
    let left = if entry.left_sibling == NO_STREAM { Tree::Nil } else { us[n] };
    let right = if entry.right_sibling == NO_STREAM { Tree::Nil } else { us[at_right] };
    let child = if entry.child == NO_STREAM { Tree::Nil } else { us[at_child] };
    let node = Tree::Node {
        id,
        left: Box::new(left),
        right: Box::new(right),
        child: Box::new(child),
    };
    assert(ids(Tree::Nil) =~= Set::<u32>::empty());
    assert(repr(es, NO_STREAM, Tree::Nil));
    assert(distinct(Tree::Nil));
    if entry.left_sibling != NO_STREAM {
        assert(more[n] == entry.left_sibling);
    }
    if entry.right_sibling != NO_STREAM {
        assert(more[at_right] == entry.right_sibling);
    }
    if entry.child != NO_STREAM {
        assert(more[at_child] == entry.child);
    }
    assert(repr(es, id, node));
    assert forall|i: int| n <= i < us.len() implies !(#[trigger] ids(us[i])).contains(id) by {
        assert(us[i] is Node);
        assert(ids(us[i]).disjoint(visited.insert(id)));
    }
    assert(distinct(node));
    let ts = us.take(n).push(node);
    assert forall|i: int| 0 <= i < ts.len() implies {
        &&& #[trigger] ts[i] is Node
        &&& repr(es, pending[i], ts[i])
        &&& distinct(ts[i])
        &&& ids(ts[i]).disjoint(visited)
        &&& in_use(es, ts[i])
    } by {
        if i < n {
            assert(ts[i] == us[i]);
            assert(more[i] == pending[i]);
            assert(ids(ts[i]).disjoint(visited.insert(id)));
        }
    }
    assert forall|i: int, j: int| 0 <= i < j < ts.len() implies (#[trigger] ids(ts[i])).disjoint(
        #[trigger] ids(ts[j]),
    ) by {
        assert(ts[i] == us[i]);
        if j < n {
            assert(ts[j] == us[j]);
        } else {
            assert(ids(us[i]).disjoint(visited.insert(id)));
        }
    }
    assert(is_forest(es, pending, ts, visited));
}

} // verus!

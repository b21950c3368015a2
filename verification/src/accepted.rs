//! What validation accepts, and what it reports, said of the entries themselves.
use crate::direntry::EntryView;
use crate::error::ErrorView;
use crate::names::{name_order, NameOrder};
use crate::search::link_of;
use crate::tree::{distinct, ids, repr, tree_at, Slot, Tree};
use crate::upkeep::{sound_but_color, well_colored};
use crate::validity::{fault, in_reach, is_link, node_fault, valid_tree, visits, walk_fault};
use vstd::prelude::*;

verus! {

/// The first entry is of the type of a root, every other a storage or a stream.
pub open spec fn has_right_type(es: Seq<EntryView>, x: u32) -> bool {
    if x == 0 {
        es[0].obj_type == 5
    } else {
        es[x as int].obj_type == 1 || es[x as int].obj_type == 2
    }
}

/// The left link leads nowhere, or to an entry with a lesser name.
pub open spec fn has_right_left(es: Seq<EntryView>, x: u32) -> bool {
    let left = es[x as int].left_sibling;
    left == 0xffff_ffff || (left < es.len() && name_order(
        es[left as int].name,
        es[x as int].name,
    ) == NameOrder::Less)
}

/// The right link leads nowhere, or to an entry with a greater name.
pub open spec fn has_right_right(es: Seq<EntryView>, x: u32) -> bool {
    let right = es[x as int].right_sibling;
    right == 0xffff_ffff || (right < es.len() && name_order(
        es[x as int].name,
        es[right as int].name,
    ) == NameOrder::Less)
}

/// The child link leads nowhere, or to an entry.
pub open spec fn has_right_child(es: Seq<EntryView>, x: u32) -> bool {
    let child = es[x as int].child;
    child == 0xffff_ffff || child < es.len()
}

/// If an entry is red, the siblings that it links to are not.
pub open spec fn has_right_colors(es: Seq<EntryView>, x: u32) -> bool {
    let (left, right) = (es[x as int].left_sibling, es[x as int].right_sibling);
    es[x as int].color == 0 ==> {
        &&& left != 0xffff_ffff ==> es[left as int].color != 0
        &&& right != 0xffff_ffff ==> es[right as int].color != 0
    }
}

proof fn lemma_right_entry(es: Seq<EntryView>, x: u32)
    ensures
        sound_but_color(es, x) <==> {
            &&& has_right_type(es, x)
            &&& has_right_left(es, x)
            &&& has_right_right(es, x)
            &&& has_right_child(es, x)
        },
        well_colored(es, x) <==> has_right_colors(es, x),
{
}

/// If validation accepts some entries, the first is named "Root Entry" and has a stream
/// of a multiple of 64 bytes. Every entry in its reach is of the right type, has a left
/// sibling with a lesser and a right sibling with a greater name, whatever the types of
/// these, links only to entries, and is not red together with a sibling that it links
/// to.
pub proof fn lemma_accepted_entries(es: Seq<EntryView>)
    requires
        es.len() > 0,
        fault(es) is None,
    ensures
        es[0].name == "Root Entry"@,
        es[0].stream_len % 64 == 0,
        forall|x: u32| #[trigger]
            in_reach(es, x) ==> {
                &&& x < es.len()
                &&& has_right_type(es, x)
                &&& has_right_left(es, x)
                &&& has_right_right(es, x)
                &&& has_right_child(es, x)
                &&& has_right_colors(es, x)
            },
{
    let t = tree_at(es, 0);
    crate::validity::lemma_valid_iff(es);
    crate::model::lemma_the_tree(es);
    crate::upkeep::lemma_sound_by_node(es, 0, t, false);
    assert forall|x: u32| #[trigger] in_reach(es, x) implies {
        &&& x < es.len()
        &&& has_right_type(es, x)
        &&& has_right_left(es, x)
        &&& has_right_right(es, x)
        &&& has_right_child(es, x)
        &&& has_right_colors(es, x)
    } by {
        crate::validity::lemma_reach_of_tree(es, x);
        assert(ids(t).contains(x));
        lemma_right_entry(es, x);
    }
}

/// If validation accepts some entries, no two links of entries in the reach of the root
/// lead to the same entry, and none leads to the root.
pub proof fn lemma_accepted_links(es: Seq<EntryView>, a: Slot, b: Slot)
    requires
        es.len() > 0,
        fault(es) is None,
        in_reach(es, a.holder()),
        in_reach(es, b.holder()),
        link_of(es, a) != 0xffff_ffff,
    ensures
        link_of(es, a) != 0,
        in_reach(es, link_of(es, a)),
        link_of(es, a) == link_of(es, b) ==> a == b,
{
    let t = tree_at(es, 0);
    crate::validity::lemma_valid_iff(es);
    crate::model::lemma_the_tree(es);
    crate::validity::lemma_reach_of_tree(es, a.holder());
    crate::validity::lemma_reach_of_tree(es, b.holder());
    crate::upkeep::lemma_link_target(es, 0, t, a);
    crate::validity::lemma_reach_of_tree(es, link_of(es, a));
    if link_of(es, a) == link_of(es, b) {
        crate::upkeep::lemma_one_link(es, 0, t, a, b);
    }
}

/// Validation accepts entries whose links form a tree without an entry twice, if the
/// first is named "Root Entry" and has a stream of a multiple of 64 bytes, and nothing
/// is wrong with any entry in the tree.
pub proof fn lemma_acceptable_entries(es: Seq<EntryView>, t: Tree)
    requires
        es.len() > 0,
        repr(es, 0, t),
        distinct(t),
        es[0].name == "Root Entry"@,
        es[0].stream_len % 64 == 0,
        forall|x: u32| #[trigger]
            ids(t).contains(x) ==> {
                &&& has_right_type(es, x)
                &&& has_right_left(es, x)
                &&& has_right_right(es, x)
                &&& has_right_child(es, x)
                &&& has_right_colors(es, x)
            },
    ensures
        fault(es) is None,
{
    crate::upkeep::lemma_sound_by_node(es, 0, t, false);
    assert forall|x: u32| #[trigger] ids(t).contains(x) implies sound_but_color(es, x)
        && well_colored(es, x) by {
        lemma_right_entry(es, x);
    }
    assert(valid_tree(es, t));
    crate::validity::lemma_valid_iff(es);
}

/// The error is true of the entry `x`, and comes before all other errors that may be
/// true of it.
pub open spec fn is_error_of(es: Seq<EntryView>, x: u32, error: ErrorView) -> bool {
    let entry = es[x as int];
    match error {
        ErrorView::RootType { obj_type } => {
            &&& x == 0
            &&& obj_type == entry.obj_type
            &&& obj_type != 5
        },
        ErrorView::NonRootType { obj_type } => {
            &&& x != 0
            &&& obj_type == entry.obj_type
            &&& obj_type != 1
            &&& obj_type != 2
        },
        ErrorView::TwoRedNodes => {
            &&& has_right_type(es, x)
            &&& entry.color == 0
            &&& exists|h: u32| #[trigger]
                in_reach(es, h) && es[h as int].color == 0 && (es[h as int].left_sibling == x
                    || es[h as int].right_sibling == x)
        },
        ErrorView::LeftSiblingIndex { index, count } => {
            &&& has_right_type(es, x)
            &&& index == entry.left_sibling
            &&& index != 0xffff_ffff
            &&& index >= es.len()
            &&& count == es.len()
        },
        ErrorView::RightSiblingIndex { index, count } => {
            &&& has_right_type(es, x)
            &&& has_right_left(es, x)
            &&& index == entry.right_sibling
            &&& index != 0xffff_ffff
            &&& index >= es.len()
            &&& count == es.len()
        },
        ErrorView::ChildIndex { index, count } => {
            &&& has_right_type(es, x)
            &&& has_right_left(es, x)
            &&& has_right_right(es, x)
            &&& index == entry.child
            &&& index != 0xffff_ffff
            &&& index >= es.len()
            &&& count == es.len()
        },
        ErrorView::NamesOutOfOrder { name, sibling } => {
            let (left, right) = (entry.left_sibling, entry.right_sibling);
            &&& has_right_type(es, x)
            &&& name == entry.name
            &&& if has_right_left(es, x) {
                &&& right != 0xffff_ffff
                &&& right < es.len()
                &&& sibling == es[right as int].name
                &&& name_order(name, sibling) != NameOrder::Less
            } else {
                &&& left < es.len()
                &&& sibling == es[left as int].name
                &&& name_order(sibling, name) != NameOrder::Less
            }
        },
        _ => false,
    }
}

/// The entries in `pending` are in the reach of the root, and where one is said to hang
/// from a red one, it does.
spec fn is_pending(es: Seq<EntryView>, pending: Seq<(u32, bool)>) -> bool {
    forall|i: int|
        0 <= i < pending.len() ==> {
            let (id, parent_is_red) = #[trigger] pending[i];
            &&& id < es.len()
            &&& in_reach(es, id)
            &&& parent_is_red ==> exists|h: u32| #[trigger]
                in_reach(es, h) && es[h as int].color == 0 && (es[h as int].left_sibling == id
                    || es[h as int].right_sibling == id)
        }
}

proof fn lemma_node_error(es: Seq<EntryView>, pending: Seq<(u32, bool)>)
    requires
        pending.len() > 0,
        is_pending(es, pending),
    ensures
        ({
            let (id, parent_is_red) = pending.last();
            match node_fault(es, id, parent_is_red) {
                Some(error) => is_error_of(es, id, error),
                None => is_pending(es, pending.drop_last() + visits(es, id)) && sound_but_color(
                    es,
                    id,
                ),
            }
        }),
{
    let (id, parent_is_red) = pending.last();
    assert(pending[pending.len() - 1] == (id, parent_is_red));
    let entry = es[id as int];
    lemma_right_entry(es, id);
    if node_fault(es, id, parent_is_red) is None {
        let rest = pending.drop_last();
        let more = rest + visits(es, id);
        crate::validity::lemma_in_reach(es, id, entry.left_sibling);
        crate::validity::lemma_in_reach(es, id, entry.right_sibling);
        crate::validity::lemma_in_reach(es, id, entry.child);
        assert forall|i: int| 0 <= i < more.len() implies {
            let (x, red) = #[trigger] more[i];
            &&& x < es.len()
            &&& in_reach(es, x)
            &&& red ==> exists|h: u32| #[trigger]
                in_reach(es, h) && es[h as int].color == 0 && (es[h as int].left_sibling == x
                    || es[h as int].right_sibling == x)
        } by {
            if i < rest.len() {
                assert(more[i] == pending[i]);
            } else {
                let (x, red) = more[i];
                assert(is_link(es, id, x));
                if red {
                    assert(in_reach(es, id) && entry.color == 0 && (entry.left_sibling == x
                        || entry.right_sibling == x));
                }
            }
        }
    }
}

proof fn lemma_walk_error(
    es: Seq<EntryView>,
    pending: Seq<(u32, bool)>,
    visited: Set<u32>,
    steps: nat,
)
    requires
        is_pending(es, pending),
    ensures
        walk_fault(es, pending, visited, steps) matches Some(error) ==> error
            == ErrorView::TreeLoop || exists|x: u32|
            x < es.len() && in_reach(es, x) && #[trigger] is_error_of(es, x, error),
    decreases steps,
{
    if pending.len() > 0 && steps > 0 {
        let (id, parent_is_red) = pending.last();
        assert(pending[pending.len() - 1] == (id, parent_is_red));
        lemma_node_error(es, pending);
        if !visited.contains(id) && node_fault(es, id, parent_is_red) is None {
            lemma_walk_error(
                es,
                pending.drop_last() + visits(es, id),
                visited.insert(id),
                (steps - 1) as nat,
            );
        }
    }
}

/// What validation reports is true. A wrong name of the root comes before a wrong length
/// of its stream, and this before all else. Any other error but a loop is true of an
/// entry in the reach of the root, and is the first that is true of this entry. A loop is
/// reported only of links that form no tree without an entry twice.
pub proof fn lemma_reported_error(es: Seq<EntryView>)
    requires
        es.len() > 0,
    ensures
        es[0].name != "Root Entry"@ <==> fault(es) == Some(
            ErrorView::RootName { name: es[0].name },
        ),
        es[0].name == "Root Entry"@ && es[0].stream_len % 64 != 0 <==> fault(es) == Some(
            ErrorView::RootStreamLen { stream_len: es[0].stream_len },
        ),
        es[0].name == "Root Entry"@ && es[0].stream_len % 64 == 0 ==> match fault(es) {
            None => true,
            Some(ErrorView::TreeLoop) => forall|t: Tree| !(#[trigger] repr(es, 0, t) && distinct(t)),
            Some(error) => exists|x: u32|
                x < es.len() && in_reach(es, x) && #[trigger] is_error_of(es, x, error),
        },
{
    let start = seq![(0u32, false)];
    crate::validity::lemma_in_reach(es, 0, 0);
    assert(is_pending(es, start));
    lemma_walk_error(es, start, Set::empty(), es.len() + 1);
    if fault(es) == Some(ErrorView::TreeLoop) {
        assert forall|t: Tree| !(#[trigger] repr(es, 0, t) && distinct(t)) by {
            if repr(es, 0, t) && distinct(t) {
                assert(t is Node);
                lemma_walk_in_order(es, start, seq![t], Set::empty(), es.len() + 1);
            }
        }
    }
}

/// The order in which validation comes to the entries of a tree: an entry, then all from
/// its child on, then all from its right sibling on, then all from its left sibling on.
pub open spec fn visit_order(t: Tree) -> Seq<u32>
    decreases t,
{
    match t {
        Tree::Nil => Seq::empty(),
        Tree::Node { id, left, right, child } => seq![id] + visit_order(*child) + visit_order(
            *right,
        ) + visit_order(*left),
    }
}

/// The order for several trees, the last of them first.
spec fn visit_order_all(ts: Seq<Tree>) -> Seq<u32>
    decreases ts.len(),
{
    if ts.len() == 0 {
        Seq::empty()
    } else {
        visit_order(ts.last()) + visit_order_all(ts.drop_last())
    }
}

/// The error is true of the entry at some place of an order, and no entry before it has
/// anything wrong with its type or links.
pub open spec fn is_first_error(es: Seq<EntryView>, order: Seq<u32>, error: ErrorView) -> bool {
    exists|k: int| #[trigger] is_first_error_at(es, order, error, k)
}

/// Nothing is wrong with the type and the links of an entry.
pub open spec fn is_right_but_color(es: Seq<EntryView>, x: u32) -> bool {
    &&& has_right_type(es, x)
    &&& has_right_left(es, x)
    &&& has_right_right(es, x)
    &&& has_right_child(es, x)
}

/// The error is true of the entry at the place `k`, and no entry before it has anything
/// wrong with its type or links.
pub open spec fn is_first_error_at(
    es: Seq<EntryView>,
    order: Seq<u32>,
    error: ErrorView,
    k: int,
) -> bool {
    &&& 0 <= k < order.len()
    &&& is_error_of(es, order[k], error)
    &&& forall|j: int| 0 <= j < k ==> is_right_but_color(es, #[trigger] order[j])
}

/// Where the links form a tree without an entry twice, validation reports what is wrong
/// with the first entry, in the order of [`visit_order`], that has anything wrong with it.
pub proof fn lemma_first_error(es: Seq<EntryView>, t: Tree)
    requires
        es.len() > 0,
        repr(es, 0, t),
        distinct(t),
        es[0].name == "Root Entry"@,
        es[0].stream_len % 64 == 0,
    ensures
        fault(es) matches Some(error) ==> is_first_error(es, visit_order(t), error),
{
    let start = seq![(0u32, false)];
    crate::validity::lemma_in_reach(es, 0, 0);
    assert(is_pending(es, start));
    assert(t is Node);
    lemma_walk_in_order(es, start, seq![t], Set::empty(), es.len() + 1);
    assert(seq![t].drop_last() =~= Seq::<Tree>::empty());
    assert(visit_order_all(seq![t].drop_last()) =~= Seq::<u32>::empty());
    assert(seq![t].last() == t);
    assert(visit_order_all(seq![t]) =~= visit_order(t));
}

proof fn lemma_walk_in_order(
    es: Seq<EntryView>,
    pending: Seq<(u32, bool)>,
    ts: Seq<Tree>,
    visited: Set<u32>,
    steps: nat,
)
    requires
        is_pending(es, pending),
        ts.len() == pending.len(),
        forall|i: int|
            0 <= i < ts.len() ==> {
                &&& #[trigger] ts[i] is Node
                &&& repr(es, pending[i].0, ts[i])
                &&& distinct(ts[i])
                &&& ids(ts[i]).disjoint(visited)
            },
        forall|i: int, j: int|
            0 <= i < j < ts.len() ==> (#[trigger] ids(ts[i])).disjoint(#[trigger] ids(ts[j])),
    ensures
        walk_fault(es, pending, visited, steps) matches Some(error) ==> error
            != ErrorView::TreeLoop && is_first_error(es, visit_order_all(ts), error),
    decreases steps,
{
    if pending.len() > 0 && steps > 0 {
        let (id, parent_is_red) = pending.last();
        let t = ts.last();
        assert(t == ts[ts.len() - 1]);
        crate::tree::lemma_branch_ids(t);
        crate::tree::lemma_repr_top(es, id, t);
        lemma_node_error(es, pending);
        let order = visit_order_all(ts);
        assert(order[0] == id);
        match node_fault(es, id, parent_is_red) {
            Some(error) => {
                assert(is_first_error_at(es, order, error, 0));
            },
            None => {
                let more = pending.drop_last() + visits(es, id);
                let us = lemma_split(es, pending, ts, visited);
                lemma_walk_in_order(es, more, us, visited.insert(id), (steps - 1) as nat);
                let rest = visit_order_all(us);
                assert(order =~= seq![id] + rest);
                if let Some(error) = walk_fault(es, more, visited.insert(id), (steps - 1) as nat) {
                    let k = choose|k: int| #[trigger] is_first_error_at(es, rest, error, k);
                    assert forall|j: int| 0 <= j < k + 1 implies is_right_but_color(
                        es,
                        #[trigger] order[j],
                    ) by {
                        lemma_right_entry(es, id);
                        if j > 0 {
                            assert(order[j] == rest[j - 1]);
                        }
                    }
                    assert(order[k + 1] == rest[k]);
                    assert(is_first_error_at(es, order, error, k + 1));
                }
            },
        }
    }
}

/// The trees that hang from what is pending once its last entry is visited.
proof fn lemma_split(
    es: Seq<EntryView>,
    pending: Seq<(u32, bool)>,
    ts: Seq<Tree>,
    visited: Set<u32>,
) -> (us: Seq<Tree>)
    requires
        pending.len() > 0,
        ts.len() == pending.len(),
        forall|i: int|
            0 <= i < ts.len() ==> {
                &&& #[trigger] ts[i] is Node
                &&& repr(es, pending[i].0, ts[i])
                &&& distinct(ts[i])
                &&& ids(ts[i]).disjoint(visited)
            },
        forall|i: int, j: int|
            0 <= i < j < ts.len() ==> (#[trigger] ids(ts[i])).disjoint(#[trigger] ids(ts[j])),
    ensures
        ({
            let id = pending.last().0;
            let t = ts.last();
            let more = pending.drop_last() + visits(es, id);
            &&& us.len() == more.len()
            &&& forall|i: int|
                0 <= i < us.len() ==> {
                    &&& #[trigger] us[i] is Node
                    &&& repr(es, more[i].0, us[i])
                    &&& distinct(us[i])
                    &&& ids(us[i]).disjoint(visited.insert(id))
                }
            &&& forall|i: int, j: int|
                0 <= i < j < us.len() ==> (#[trigger] ids(us[i])).disjoint(#[trigger] ids(us[j]))
            &&& visit_order_all(us) == visit_order(t.child()) + visit_order(t.right())
                + visit_order(t.left()) + visit_order_all(ts.drop_last())
        }),
{
    let (id, parent_is_red) = pending.last();
    let t = ts.last();
    assert(t == ts[ts.len() - 1]);
    crate::tree::lemma_branch_ids(t);
    reveal_with_fuel(repr, 2);
    let rest = pending.drop_last();
    let more = rest + visits(es, id);
    let n = rest.len() as int;
    let lefts = if t.left() is Nil { Seq::empty() } else { seq![t.left()] };
    let rights = if t.right() is Nil { Seq::empty() } else { seq![t.right()] };
    let kids = if t.child() is Nil { Seq::empty() } else { seq![t.child()] };
    let base = ts.drop_last();
    let us = base + (lefts + rights + kids);
    assert(us.len() == more.len());
    assert forall|i: int| 0 <= i < us.len() implies {
        &&& #[trigger] us[i] is Node
        &&& repr(es, more[i].0, us[i])
        &&& distinct(us[i])
        &&& ids(us[i]).disjoint(visited.insert(id))
    } by {
        if i < n {
            assert(us[i] == ts[i]);
            assert(more[i] == pending[i]);
            assert(ids(ts[i]).disjoint(ids(t)));
        } else {
            assert(ids(t).disjoint(visited));
        }
    }
    assert forall|i: int, j: int| 0 <= i < j < us.len() implies (#[trigger] ids(us[i])).disjoint(
        #[trigger] ids(us[j]),
    ) by {
        if i < n {
            assert(us[i] == ts[i]);
            assert(ids(ts[i]).disjoint(ids(t)));
            if j < n {
                assert(us[j] == ts[j]);
            }
        }
    }
    lemma_order_push(base, t.left());
    lemma_order_push(base + lefts, t.right());
    lemma_order_push(base + lefts + rights, t.child());
    assert(us =~= base + lefts + rights + kids);
    assert(visit_order_all(us) =~= visit_order(t.child()) + visit_order(t.right()) + visit_order(
        t.left(),
    ) + visit_order_all(base));
    us
}

proof fn lemma_order_push(ts: Seq<Tree>, t: Tree)
    ensures
        visit_order_all(
            ts + if t is Nil {
                Seq::empty()
            } else {
                seq![t]
            },
        ) == visit_order(t) + visit_order_all(ts),
{
    if t is Nil {
        assert(ts + Seq::<Tree>::empty() =~= ts);
        assert(visit_order(t) + visit_order_all(ts) =~= visit_order_all(ts));
    } else {
        let us = ts + seq![t];
        assert(us.drop_last() =~= ts);
        assert(us.last() == t);
    }
}

} // verus!

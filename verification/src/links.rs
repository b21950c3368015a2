//! What a tree of entries is, and which entries validation accepts, said of their links.
use crate::accepted::{
    has_right_child, has_right_colors, has_right_left, has_right_right, has_right_type,
    is_error_of,
};
use crate::consts::NO_STREAM;
use crate::direntry::EntryView;
use crate::error::ErrorView;
use crate::search::link_of;
use crate::shape::{has_forest, link_targets};
use crate::tree::{has_tree, ids, tree_at, Slot};
use crate::validity::{fault, in_reach, is_link};
use vstd::prelude::*;

verus! {

/// The links of all entries in the reach of the root lead nowhere, or to an entry in use.
pub open spec fn links_lead_to_entries(es: Seq<EntryView>) -> bool {
    forall|a: Slot|
        in_reach(es, a.holder()) && #[trigger] link_of(es, a) != 0xffff_ffff ==> link_of(es, a)
            < es.len() && es[link_of(es, a) as int].obj_type != 0
}

/// No two links of entries in the reach of the root lead to the same entry, and none
/// leads to the root.
pub open spec fn links_are_apart(es: Seq<EntryView>) -> bool {
    &&& forall|a: Slot| in_reach(es, a.holder()) ==> #[trigger] link_of(es, a) != 0
    &&& forall|a: Slot, b: Slot|
        in_reach(es, a.holder()) && in_reach(es, b.holder()) && link_of(es, a) != 0xffff_ffff
            && #[trigger] link_of(es, a) == #[trigger] link_of(es, b) ==> a == b
}

/// How a walk over links came to the entry `x`: it began there, or a link of an entry that
/// it visited leads there.
spec fn came_by(es: Seq<EntryView>, x: u32, from: Option<Slot>, visited: Set<u32>) -> bool {
    match from {
        None => x == 0,
        Some(slot) => {
            &&& link_of(es, slot) == x
            &&& x != NO_STREAM
            &&& visited.contains(slot.holder())
        },
    }
}

/// A walk over links is to go on with the entries in `pending`, to which it came by `from`.
/// It has been at the entries in `seen`, and takes no link twice.
spec fn is_walk(
    es: Seq<EntryView>,
    pending: Seq<u32>,
    from: Seq<Option<Slot>>,
    seen: Map<u32, Option<Slot>>,
) -> bool {
    &&& from.len() == pending.len()
    &&& seen.dom().finite()
    &&& forall|x: u32| #[trigger]
        seen.dom().contains(x) ==> x < es.len() && in_reach(es, x) && came_by(
            es,
            x,
            seen[x],
            seen.dom(),
        )
    &&& forall|i: int|
        0 <= i < pending.len() ==> came_by(es, #[trigger] pending[i], from[i], seen.dom())
    &&& forall|i: int, j: int| 0 <= i < j < from.len() ==> #[trigger] from[i] != #[trigger] from[j]
    &&& forall|i: int, x: u32|
        0 <= i < from.len() && #[trigger] seen.dom().contains(x) ==> #[trigger] from[i] != seen[x]
}

/// A link, if it leads anywhere.
spec fn slot_taken(id: u32, slot: Slot) -> Seq<Option<Slot>> {
    if id == NO_STREAM {
        Seq::empty()
    } else {
        seq![Some(slot)]
    }
}

/// The links of an entry that lead anywhere.
spec fn slots_taken(entry: EntryView, x: u32) -> Seq<Option<Slot>> {
    slot_taken(entry.left_sibling, Slot::Left(x)) + slot_taken(
        entry.right_sibling,
        Slot::Right(x),
    ) + slot_taken(entry.child, Slot::Child(x))
}

proof fn lemma_walk_step(
    es: Seq<EntryView>,
    pending: Seq<u32>,
    from: Seq<Option<Slot>>,
    seen: Map<u32, Option<Slot>>,
)
    requires
        is_walk(es, pending, from, seen),
        pending.len() > 0,
        pending.last() < es.len(),
        in_reach(es, pending.last()),
        !seen.dom().contains(pending.last()),
    ensures
        is_walk(
            es,
            pending.drop_last() + link_targets(es[pending.last() as int]),
            from.drop_last() + slots_taken(es[pending.last() as int], pending.last()),
            seen.insert(pending.last(), from.last()),
        ),
{
    let x = pending.last();
    let entry = es[x as int];
    let (targets, slots) = (link_targets(entry), slots_taken(entry, x));
    let pending2 = pending.drop_last() + targets;
    let from2 = from.drop_last() + slots;
    let seen2 = seen.insert(x, from.last());
    let n = pending.len() - 1;
    assert(pending[n] == x && from[n] == from.last());
    assert(seen2.dom() =~= seen.dom().insert(x));
    assert(targets.len() == slots.len());
    assert forall|k: int| 0 <= k < slots.len() implies {
        &&& (#[trigger] slots[k]) matches Some(slot) && slot.holder() == x && link_of(es, slot)
            == targets[k]
        &&& targets[k] != NO_STREAM
    } by {}
    assert forall|k: int, l: int| 0 <= k < l < slots.len() implies #[trigger] slots[k]
        != #[trigger] slots[l] by {}
    assert forall|i: int| 0 <= i < pending2.len() implies came_by(
        es,
        #[trigger] pending2[i],
        from2[i],
        seen2.dom(),
    ) by {
        if i < n {
            assert(pending2[i] == pending[i] && from2[i] == from[i]);
        } else {
            assert(pending2[i] == targets[i - n] && from2[i] == slots[i - n]);
        }
    }
    assert forall|y: u32| #[trigger] seen2.dom().contains(y) implies y < es.len() && in_reach(es, y)
        && came_by(es, y, seen2[y], seen2.dom()) by {
        if y != x {
            assert(seen.dom().contains(y));
        }
    }
    assert forall|i: int| 0 <= i < n implies (#[trigger] from[i] matches Some(slot)
        ==> slot.holder() != x) by {
        assert(came_by(es, pending[i], from[i], seen.dom()));
    }
    assert forall|i: int, j: int| 0 <= i < j < from2.len() implies #[trigger] from2[i]
        != #[trigger] from2[j] by {
        if j < n {
            assert(from2[i] == from[i] && from2[j] == from[j]);
        } else if i < n {
            assert(from2[i] == from[i] && from2[j] == slots[j - n]);
        } else {
            assert(from2[i] == slots[i - n] && from2[j] == slots[j - n]);
        }
    }
    assert forall|i: int, y: u32|
        0 <= i < from2.len() && #[trigger] seen2.dom().contains(y) implies #[trigger] from2[i]
        != seen2[y] by {
        if i < n {
            assert(from2[i] == from[i]);
            if y != x {
                assert(seen.dom().contains(y));
            }
        } else {
            assert(from2[i] == slots[i - n]);
            if y != x {
                assert(seen.dom().contains(y));
                assert(came_by(es, y, seen[y], seen.dom()));
            } else {
                assert(came_by(es, x, from[n], seen.dom()));
            }
        }
    }
}

/// A walk over links that are apart comes to an entry that it has not been at.
proof fn lemma_walk_meets_new(
    es: Seq<EntryView>,
    pending: Seq<u32>,
    from: Seq<Option<Slot>>,
    seen: Map<u32, Option<Slot>>,
)
    requires
        is_walk(es, pending, from, seen),
        pending.len() > 0,
        es.len() > 0,
        es[0].obj_type != 0,
        links_lead_to_entries(es),
        links_are_apart(es),
    ensures
        !seen.dom().contains(pending.last()),
        pending.last() < es.len(),
        pending.last() != NO_STREAM,
        es[pending.last() as int].obj_type != 0,
        in_reach(es, pending.last()),
{
    let x = pending.last();
    let n = pending.len() - 1;
    assert(came_by(es, pending[n], from[n], seen.dom()));
    match from[n] {
        None => {
            crate::validity::lemma_in_reach(es, 0, 0);
        },
        Some(slot) => {
            assert(seen.dom().contains(slot.holder()));
            assert(link_of(es, slot) == x);
            crate::validity::lemma_in_reach(es, slot.holder(), x);
        },
    }
    if seen.dom().contains(x) {
        assert(from[n] != seen[x]);
        if let Some(slot) = seen[x] {
            assert(seen.dom().contains(slot.holder()));
            assert(link_of(es, slot) == x);
        }
    }
}

proof fn lemma_forest_by_links(
    es: Seq<EntryView>,
    pending: Seq<u32>,
    from: Seq<Option<Slot>>,
    seen: Map<u32, Option<Slot>>,
)
    requires
        is_walk(es, pending, from, seen),
        es.len() > 0,
        es[0].obj_type != 0,
        links_lead_to_entries(es),
        links_are_apart(es),
    ensures
        has_forest(es, pending, seen.dom()),
    decreases es.len() - seen.dom().len(),
{
    if pending.len() == 0 {
        assert(pending =~= Seq::empty());
        crate::shape::lemma_empty_forest(es, seen.dom());
    } else {
        let x = pending.last();
        lemma_walk_meets_new(es, pending, from, seen);
        lemma_walk_step(es, pending, from, seen);
        let seen2 = seen.insert(x, from.last());
        assert(seen2.dom() =~= seen.dom().insert(x));
        crate::validity::lemma_visited_bound(es.len(), seen2.dom());
        lemma_forest_by_links(
            es,
            pending.drop_last() + link_targets(es[x as int]),
            from.drop_last() + slots_taken(es[x as int], x),
            seen2,
        );
        crate::shape::lemma_forest_step(es, pending, seen.dom());
    }
}

/// Entries form a tree exactly if the first is in use, and the links of all entries in
/// its reach lead to entries in use, none to the root and no two to the same.
pub proof fn lemma_tree_iff_links(es: Seq<EntryView>)
    ensures
        has_tree(es) <==> {
            &&& es.len() > 0
            &&& es[0].obj_type != 0
            &&& links_lead_to_entries(es)
            &&& links_are_apart(es)
        },
{
    if has_tree(es) {
        let t = tree_at(es, 0);
        crate::model::lemma_the_tree(es);
        assert forall|a: Slot|
            in_reach(es, a.holder()) && #[trigger] link_of(es, a) != 0xffff_ffff implies link_of(
            es,
            a,
        ) < es.len() && es[link_of(es, a) as int].obj_type != 0 by {
            crate::validity::lemma_reach_of_tree(es, a.holder());
            crate::upkeep::lemma_link_target(es, 0, t, a);
            assert(ids(t).contains(link_of(es, a)));
        }
        assert forall|a: Slot| in_reach(es, a.holder()) implies #[trigger] link_of(es, a) != 0 by {
            crate::validity::lemma_reach_of_tree(es, a.holder());
            if link_of(es, a) == 0 {
                crate::upkeep::lemma_link_target(es, 0, t, a);
                crate::tree::lemma_repr_top(es, 0, t);
            }
        }
        assert forall|a: Slot, b: Slot|
            in_reach(es, a.holder()) && in_reach(es, b.holder()) && link_of(es, a) != 0xffff_ffff
                && #[trigger] link_of(es, a) == #[trigger] link_of(es, b) implies a == b by {
            crate::validity::lemma_reach_of_tree(es, a.holder());
            crate::validity::lemma_reach_of_tree(es, b.holder());
            crate::upkeep::lemma_one_link(es, 0, t, a, b);
        }
    }
    if es.len() > 0 && es[0].obj_type != 0 && links_lead_to_entries(es) && links_are_apart(es) {
        let seen = Map::<u32, Option<Slot>>::empty();
        assert(seen.dom() =~= Set::empty());
        lemma_forest_by_links(es, seq![0u32], seq![None], seen);
        crate::shape::lemma_root_forest(es);
    }
}

/// Validation accepts entries exactly if the first is named "Root Entry" and has a stream
/// of a multiple of 64 bytes, nothing is wrong with any entry in its reach, and the links
/// of these lead none to the root and no two to the same entry.
pub proof fn lemma_accepted_iff_links(es: Seq<EntryView>)
    requires
        es.len() > 0,
    ensures
        fault(es) is None <==> {
            &&& es[0].name == "Root Entry"@
            &&& es[0].stream_len % 64 == 0
            &&& forall|x: u32| #[trigger]
                in_reach(es, x) ==> {
                    &&& has_right_type(es, x)
                    &&& has_right_left(es, x)
                    &&& has_right_right(es, x)
                    &&& has_right_child(es, x)
                    &&& has_right_colors(es, x)
                }
            &&& links_are_apart(es)
        },
{
    if fault(es) is None {
        crate::accepted::lemma_accepted_entries(es);
        crate::validity::lemma_valid_iff(es);
        lemma_tree_iff_links(es);
    }
    if es[0].name == "Root Entry"@ && es[0].stream_len % 64 == 0 && (forall|x: u32| #[trigger]
        in_reach(es, x) ==> {
            &&& has_right_type(es, x)
            &&& has_right_left(es, x)
            &&& has_right_right(es, x)
            &&& has_right_child(es, x)
            &&& has_right_colors(es, x)
        }) && links_are_apart(es) {
        let t = tree_at(es, 0);
        crate::validity::lemma_in_reach(es, 0, 0);
        assert forall|a: Slot|
            in_reach(es, a.holder()) && #[trigger] link_of(es, a) != 0xffff_ffff implies link_of(
            es,
            a,
        ) < es.len() && es[link_of(es, a) as int].obj_type != 0 by {
            let x = link_of(es, a);
            assert(is_link(es, a.holder(), x));
            crate::validity::lemma_in_reach(es, a.holder(), x);
        }
        assert(has_right_type(es, 0));
        lemma_tree_iff_links(es);
        crate::model::lemma_the_tree(es);
        assert forall|x: u32| #[trigger] ids(t).contains(x) implies {
            &&& has_right_type(es, x)
            &&& has_right_left(es, x)
            &&& has_right_right(es, x)
            &&& has_right_child(es, x)
            &&& has_right_colors(es, x)
        } by {
            crate::validity::lemma_reach_of_tree(es, x);
        }
        crate::accepted::lemma_acceptable_entries(es, t);
    }
}

/// Where nothing is wrong with any single entry in the reach of the root, validation
/// reports a loop exactly if a link leads to the root, or two lead to the same entry.
pub proof fn lemma_loop_iff_links(es: Seq<EntryView>)
    requires
        es.len() > 0,
        es[0].name == "Root Entry"@,
        es[0].stream_len % 64 == 0,
        forall|x: u32| #[trigger]
            in_reach(es, x) ==> {
                &&& has_right_type(es, x)
                &&& has_right_left(es, x)
                &&& has_right_right(es, x)
                &&& has_right_child(es, x)
                &&& has_right_colors(es, x)
            },
    ensures
        fault(es) == Some(ErrorView::TreeLoop) <==> !links_are_apart(es),
{
    lemma_accepted_iff_links(es);
    crate::accepted::lemma_reported_error(es);
    if let Some(error) = fault(es) {
        if error != ErrorView::TreeLoop {
            let x = choose|x: u32|
                x < es.len() && in_reach(es, x) && #[trigger] is_error_of(es, x, error);
            assert(in_reach(es, x) && is_error_of(es, x, error));
            if error == ErrorView::TwoRedNodes {
                let h = choose|h: u32| #[trigger]
                    in_reach(es, h) && es[h as int].color == 0 && (es[h as int].left_sibling == x
                        || es[h as int].right_sibling == x);
                assert(has_right_left(es, h) && has_right_right(es, h));
                assert(has_right_colors(es, h));
            }
        }
    }
}

} // verus!

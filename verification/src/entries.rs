//! Listing the objects of a directory.
use crate::consts::{NO_STREAM, OBJ_TYPE_ROOT, OBJ_TYPE_STREAM, ROOT_STREAM_ID};
use crate::direntry::{DirEntry, EntryView};
use crate::error::texts;
use crate::tree::{children, has_tree, reachable, repr, tree_at, Tree};
use vstd::prelude::*;

verus! {

/// Which objects a listing has.
#[derive(Clone, Copy, Debug, PartialEq, Eq, Structural)]
pub enum EntriesOrder {
    /// The objects in one storage, in the order of their names.
    Nonrecursive,
    /// Each object before all that lie below it.
    Preorder,
}

/// The models of directory entries.
pub open spec fn entry_views(entries: Seq<DirEntry>) -> Seq<EntryView> {
    entries.map_values(|e: DirEntry| e@)
}

/// The path of an object: its own name behind those of the storages that it lies
/// in, except that the root has no name in a path.
pub open spec fn joined(parent: Seq<Seq<char>>, entry: EntryView) -> Seq<Seq<char>> {
    if entry.obj_type == OBJ_TYPE_ROOT {
        parent
    } else {
        parent.push(entry.name)
    }
}

/// The objects, with their paths, in a tree of siblings: those on the left of the
/// top, then the top, then those on the right. In preorder, each object that is
/// not a stream is followed by all that lies below it.
#[verifier::opaque]
pub open spec fn listing(
    es: Seq<EntryView>,
    order: EntriesOrder,
    t: Tree,
    parent: Seq<Seq<char>>,
) -> Seq<(Seq<Seq<char>>, u32)>
    decreases t,
{
    match t {
        Tree::Nil => Seq::empty(),
        Tree::Node { id, left, right, child } => {
            let path = joined(parent, es[id as int]);
            let below = if order == EntriesOrder::Preorder && es[id as int].obj_type
                != OBJ_TYPE_STREAM {
                listing(es, order, *child, path)
            } else {
                Seq::empty()
            };
            listing(es, order, *left, parent) + (seq![(path, id)] + below + listing(
                es,
                order,
                *right,
                parent,
            ))
        },
    }
}

proof fn lemma_listing_nil(es: Seq<EntryView>, order: EntriesOrder, parent: Seq<Seq<char>>)
    ensures
        listing(es, order, Tree::Nil, parent) == Seq::<(Seq<Seq<char>>, u32)>::empty(),
{
    reveal(listing);
}

proof fn lemma_take_first<A>(first: A, below: Seq<A>, right: Seq<A>, rest: Seq<A>)
    ensures
        ({
            let whole = seq![first] + below + right + rest;
            &&& whole.len() > 0
            &&& whole[0] == first
            &&& whole.drop_first() == below + (right + rest)
            &&& Seq::<A>::empty() + rest == rest
            &&& Seq::<A>::empty() + (right + rest) == right + rest
        }),
{
    let whole = seq![first] + below + right + rest;
    assert(whole.drop_first() =~= below + (right + rest));
    assert(Seq::<A>::empty() + rest =~= rest);
    assert(Seq::<A>::empty() + (right + rest) =~= right + rest);
}

/// One object and, in preorder, all that lies below it.
pub open spec fn object_listing(
    es: Seq<EntryView>,
    order: EntriesOrder,
    id: u32,
    parent: Seq<Seq<char>>,
) -> Seq<(Seq<Seq<char>>, u32)> {
    let path = joined(parent, es[id as int]);
    seq![(path, id)] + if order == EntriesOrder::Preorder && es[id as int].obj_type
        != OBJ_TYPE_STREAM {
        listing(es, order, children(es, id), path)
    } else {
        Seq::empty()
    }
}

/// What is still to be listed: an object in the given storage, and, if the flag
/// is set, its siblings on the right.
pub struct Pending {
    parent: Vec<String>,
    id: u32,
    siblings: bool,
}

/// What the pending objects will list, the last of them first.
pub closed spec fn pending_listing(
    es: Seq<EntryView>,
    order: EntriesOrder,
    stack: Seq<Pending>,
) -> Seq<(Seq<Seq<char>>, u32)>
    decreases stack.len(),
{
    if stack.len() == 0 {
        Seq::empty()
    } else {
        let top = stack.last();
        let right = if top.siblings {
            listing(es, order, tree_at(es, es[top.id as int].right_sibling), texts(top.parent@))
        } else {
            Seq::empty()
        };
        object_listing(es, order, top.id, texts(top.parent@)) + right + pending_listing(
            es,
            order,
            stack.drop_last(),
        )
    }
}

/// An object in a listing.
pub struct Entry<'a> {
    /// The names that lead to the object from the root.
    pub path: Vec<String>,
    /// The stream ID of the object.
    pub stream_id: u32,
    /// The directory entry of the object.
    pub dir_entry: &'a DirEntry,
}

/// A listing of objects.
pub struct Entries<'a> {
    order: EntriesOrder,
    directory: &'a Vec<DirEntry>,
    stack: Vec<Pending>,
}

/// Copies a list of names.
pub(crate) fn copy_names(names: &Vec<String>) -> (copy: Vec<String>)
    ensures
        texts(copy@) == texts(names@),
{
    let mut copy: Vec<String> = Vec::new();
    let mut i: usize = 0;
    while i < names.len()
        invariant
            i <= names@.len(),
            texts(copy@) == texts(names@).take(i as int),
        decreases names@.len() - i,
    {
        let ghost before = texts(copy@);
        copy.push(names[i].clone());
        assert(texts(copy@) =~= before.push(names@[i as int]@));
        assert(texts(copy@) =~= texts(names@).take(i + 1));
        i += 1;
    }
    assert(texts(names@).take(i as int) =~= texts(names@));
    copy
}

proof fn lemma_reachable_node(es: Seq<EntryView>, id: u32)
    requires
        has_tree(es),
        reachable(es).contains(id),
    ensures
        id < es.len(),
        id != NO_STREAM,
        repr(es, id, tree_at(es, id)),
        tree_at(es, id) is Node,
        tree_at(es, id).top() == id,
        repr(es, es[id as int].left_sibling, tree_at(es, id).left()),
        repr(es, es[id as int].right_sibling, tree_at(es, id).right()),
        repr(es, es[id as int].child, tree_at(es, id).child()),
        tree_at(es, es[id as int].right_sibling) == tree_at(es, id).right(),
        children(es, id) == tree_at(es, id).child(),
        es[id as int].left_sibling != NO_STREAM ==> reachable(es).contains(
            es[id as int].left_sibling,
        ),
        es[id as int].right_sibling != NO_STREAM ==> reachable(es).contains(
            es[id as int].right_sibling,
        ),
        es[id as int].child != NO_STREAM ==> reachable(es).contains(es[id as int].child),
        es[id as int].child == NO_STREAM ==> children(es, id) is Nil,
{
    crate::model::lemma_the_tree(es);
    let whole = tree_at(es, ROOT_STREAM_ID);
    crate::tree::lemma_node(es, ROOT_STREAM_ID, whole, id);
    let t = tree_at(es, id);
    crate::tree::lemma_tree_at(es, es[id as int].right_sibling, t.right());
    crate::tree::lemma_tree_at(es, es[id as int].child, t.child());
    crate::tree::lemma_branch_ids(t);
    crate::tree::lemma_repr_top(es, es[id as int].left_sibling, t.left());
    crate::tree::lemma_repr_top(es, es[id as int].right_sibling, t.right());
    crate::tree::lemma_repr_top(es, es[id as int].child, t.child());
}

impl<'a> Entries<'a> {
    /// The entries of the directory.
    pub closed spec fn entries(self) -> Seq<EntryView> {
        entry_views(self.directory@)
    }

    /// The objects, with their paths, that are still to be listed.
    pub closed spec fn rest(self) -> Seq<(Seq<Seq<char>>, u32)> {
        pending_listing(self.entries(), self.order, self.stack@)
    }

    /// The links of the directory form a tree, and what is pending lies in it.
    pub closed spec fn wf(self) -> bool {
        &&& has_tree(self.entries())
        &&& forall|i: int|
            0 <= i < self.stack@.len() ==> reachable(self.entries()).contains(
                (#[trigger] self.stack@[i]).id,
            )
    }

    /// Starts a listing. A nonrecursive one is of the siblings in the tree from
    /// `start` on, a preorder one of the object `start` and all below it; they
    /// lie in the storage `parent`.
    pub fn new(
        order: EntriesOrder,
        directory: &'a Vec<DirEntry>,
        parent: Vec<String>,
        start: u32,
    ) -> (entries: Entries<'a>)
        requires
            has_tree(entry_views(directory@)),
            start == NO_STREAM ==> order == EntriesOrder::Nonrecursive,
            start != NO_STREAM ==> reachable(entry_views(directory@)).contains(start),
        ensures
            entries.wf(),
            entries.entries() == entry_views(directory@),
            entries.rest() == match order {
                EntriesOrder::Nonrecursive => listing(
                    entry_views(directory@),
                    order,
                    tree_at(entry_views(directory@), start),
                    texts(parent@),
                ),
                EntriesOrder::Preorder => object_listing(
                    entry_views(directory@),
                    order,
                    start,
                    texts(parent@),
                ),
            },
    {
        let mut entries = Entries { order, directory, stack: Vec::new() };
        match order {
            EntriesOrder::Nonrecursive => {
                entries.stack_left_spine(&parent, start);
                assert(entries.rest() =~= listing(
                    entry_views(directory@),
                    order,
                    tree_at(entry_views(directory@), start),
                    texts(parent@),
                ));
            },
            EntriesOrder::Preorder => {
                let ghost names = texts(parent@);
                entries.stack.push(Pending { parent, id: start, siblings: false });
                assert(entries.stack@.drop_last() =~= Seq::<Pending>::empty());
                assert(pending_listing(
                    entry_views(directory@),
                    order,
                    Seq::<Pending>::empty(),
                ) =~= Seq::empty());
                assert(entries.rest() =~= object_listing(
                    entry_views(directory@),
                    order,
                    start,
                    names,
                ));
            },
        }
        entries
    }

    /// Puts the tree of siblings from `start` on before all that is pending.
    fn stack_left_spine(&mut self, parent: &Vec<String>, start: u32)
        requires
            old(self).wf(),
            start != NO_STREAM ==> reachable(old(self).entries()).contains(start),
        ensures
            final(self).wf(),
            final(self).entries() == old(self).entries(),
            final(self).order == old(self).order,
            final(self).directory == old(self).directory,
            final(self).rest() == listing(
                old(self).entries(),
                old(self).order,
                tree_at(old(self).entries(), start),
                texts(parent@),
            ) + old(self).rest(),
    {
        let mut current: u32 = start;
        let ghost es = self.entries();
        let ghost names = texts(parent@);
        let ghost mut t = tree_at(es, start);
        let ghost goal = listing(es, self.order, t, names) + self.rest();
        proof {
            if start == NO_STREAM {
                assert(repr(es, start, Tree::Nil));
                crate::tree::lemma_tree_at(es, start, Tree::Nil);
            } else {
                lemma_reachable_node(es, start);
            }
        }
        while current != NO_STREAM
            invariant
                es == self.entries(),
                self.order == old(self).order,
                self.directory == old(self).directory,
                names == texts(parent@),
                self.wf(),
                repr(es, current, t),
                current != NO_STREAM ==> reachable(es).contains(current),
                listing(es, self.order, t, names) + self.rest() == goal,
            decreases t,
        {
            proof {
                lemma_reachable_node(es, current);
                crate::tree::lemma_repr_unique(es, current, t, tree_at(es, current));
            }
            let ghost before = self.stack@;
            let ghost rest = self.rest();
            self.stack.push(
                Pending { parent: copy_names(parent), id: current, siblings: true },
            );
            proof {
                assert(self.stack@.drop_last() =~= before);
                reveal(listing);
                let own = object_listing(es, self.order, current, names);
                let right = listing(es, self.order, t.right(), names);
                assert(self.rest() == own + right + rest);
                assert(listing(es, self.order, t, names) =~= listing(es, self.order, t.left(), names)
                    + (own + right));
                assert(listing(es, self.order, t.left(), names) + self.rest() =~= goal);
                t = t.left();
            }
            current = self.directory[current as usize].left_sibling;
        }
        proof {
            lemma_listing_nil(es, self.order, names);
            assert(listing(es, self.order, t, names) + self.rest() =~= self.rest());
        }
    }

    /// Returns the next object of the listing, or nothing behind the last.
    pub fn next(&mut self) -> (entry: Option<Entry<'a>>)
        requires
            old(self).wf(),
        ensures
            final(self).wf(),
            final(self).entries() == old(self).entries(),
            match entry {
                None => old(self).rest().len() == 0 && final(self).rest() == old(self).rest(),
                Some(entry) => {
                    &&& old(self).rest().len() > 0
                    &&& old(self).rest()[0] == (texts(entry.path@), entry.stream_id)
                    &&& entry.stream_id < old(self).entries().len()
                    &&& entry.dir_entry@ == old(self).entries()[entry.stream_id as int]
                    &&& final(self).rest() == old(self).rest().drop_first()
                },
            },
    {
        let ghost es = self.entries();
        let ghost before = self.stack@;
        match self.stack.pop() {
            None => None,
            Some(top) => {
                let id: u32 = top.id;
                proof {
                    assert(top == before.last());
                    assert(before[before.len() - 1].id == id);
                    assert(self.stack@ =~= before.drop_last());
                    assert forall|i: int| 0 <= i < self.stack@.len() implies reachable(es).contains(
                        (#[trigger] self.stack@[i]).id,
                    ) by {
                        assert(self.stack@[i] == before[i]);
                    }
                    lemma_reachable_node(es, id);
                }
                let ghost rest = self.rest();
                let dir_entry: &'a DirEntry = &self.directory[id as usize];
                let mut path: Vec<String> = copy_names(&top.parent);
                let ghost parent = texts(top.parent@);
                if dir_entry.obj_type != OBJ_TYPE_ROOT {
                    path.push(dir_entry.name.clone());
                }
                assert(texts(path@) =~= joined(parent, es[id as int]));
                if top.siblings {
                    self.stack_left_spine(&top.parent, dir_entry.right_sibling);
                }
                if self.order == EntriesOrder::Preorder && dir_entry.obj_type != OBJ_TYPE_STREAM
                    && dir_entry.child != NO_STREAM {
                    self.stack_left_spine(&path, dir_entry.child);
                }
                proof {
                    lemma_listing_nil(es, self.order, texts(path@));
                    let below = if self.order == EntriesOrder::Preorder && es[id as int].obj_type
                        != OBJ_TYPE_STREAM {
                        listing(es, self.order, children(es, id), texts(path@))
                    } else {
                        Seq::empty()
                    };
                    let right = if top.siblings {
                        listing(es, self.order, tree_at(es, es[id as int].right_sibling), parent)
                    } else {
                        Seq::empty()
                    };
                    lemma_take_first((texts(path@), id), below, right, rest);
                    assert(old(self).rest() == seq![(texts(path@), id)] + below + right + rest);
                    assert(self.rest() == below + (right + rest));
                }
                Some(Entry { path, stream_id: id, dir_entry })
            },
        }
    }

    /// Returns all objects of the listing, in order.
    pub fn collect(self) -> (all: Vec<Entry<'a>>)
        requires
            self.wf(),
        ensures
            all@.len() == self.rest().len(),
            forall|i: int|
                0 <= i < all@.len() ==> {
                    &&& (texts((#[trigger] all@[i]).path@), all@[i].stream_id) == self.rest()[i]
                    &&& all@[i].dir_entry@ == self.entries()[all@[i].stream_id as int]
                },
    {
        let mut entries = self;
        let ghost whole = self.rest();
        let mut all: Vec<Entry<'a>> = Vec::new();
        assert(whole.skip(0) =~= whole);
        loop
            invariant
                entries.wf(),
                entries.entries() == self.entries(),
                whole == self.rest(),
                all@.len() <= whole.len(),
                entries.rest() == whole.skip(all@.len() as int),
                forall|i: int|
                    0 <= i < all@.len() ==> {
                        &&& (texts((#[trigger] all@[i]).path@), all@[i].stream_id) == whole[i]
                        &&& all@[i].dir_entry@ == self.entries()[all@[i].stream_id as int]
                    },
            ensures
                all@.len() == whole.len(),
            decreases entries.rest().len(),
        {
            match entries.next() {
                None => {
                    break;
                },
                Some(entry) => {
                    assert(whole.skip(all@.len() as int).drop_first() =~= whole.skip(
                        all@.len() as int + 1,
                    ));
                    all.push(entry);
                },
            }
        }
        all
    }
}

} // verus!

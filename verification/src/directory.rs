//! The directory of a compound file.
use crate::allocator::{Allocator, Chain, Sector};
use crate::bytes::{u32_le, write_u32_le};
use crate::consts;
use crate::consts::{END_OF_CHAIN, NO_STREAM, OBJ_TYPE_STREAM, OBJ_TYPE_UNALLOCATED, ROOT_STREAM_ID};
use crate::direntry::{DirEntry, EntryView};
use crate::entries::{entry_views, listing, object_listing, Entries, EntriesOrder};
use crate::error::{texts, Error, ErrorView};
use crate::model::{
    free_entry, free_entry_from, insertion_slot, put, removal, with_object, without_object,
};
use crate::names::{
    compare_names, component_views, name_chain, name_chain_from_components, path_components,
    path_parts, strs, utf16_units, ComponentView, NameOrder, PathComponent,
};
use crate::shape::{has_forest, link_targets};
use crate::storage::{
    chain_of, has_chain, is_chain, sector_start, write_views, SectorInit, StorageView, Write,
};
use crate::time::{current_timestamp, is_timestamp};
use crate::tree::{
    children, descend, find, forest_size, free_slot, has_tree, ids, linked, lookup, reachable, repr,
    rightmost, target, tree_at, Slot,
};
use crate::validity::{fault, node_fault, visits, walk_fault};
use crate::version::Version;
use std::collections::HashSet;
use std::path::PathBuf;
use vstd::prelude::*;

verus! {

/// How many entries a chain of `n` sectors holds.
pub open spec fn entry_capacity(v: Version, n: int) -> int {
    match v {
        Version::V3 => n * 4,
        Version::V4 => n * 32,
    }
}

/// Where in the file the entry `i` is, for a directory in the given sectors.
pub open spec fn entry_position(v: Version, sectors: Seq<u32>, i: int) -> int {
    match v {
        Version::V3 => sector_start(v, sectors[i / 4] as int) + 128 * (i % 4),
        Version::V4 => sector_start(v, sectors[i / 32] as int) + 128 * (i % 32),
    }
}

impl Slot {
    /// Where in an entry this link is.
    pub open spec fn offset(self) -> int {
        match self {
            Slot::Left(_) => 68,
            Slot::Right(_) => 72,
            Slot::Child(_) => 76,
        }
    }
}

/// The model of [`Directory`]: its entries, the first sector of the chain that
/// holds them, and the storage that this chain is in.
#[verifier::ext_equal]
pub struct DirectoryView {
    pub entries: Seq<EntryView>,
    pub start: u32,
    pub storage: StorageView,
}

impl DirectoryView {
    /// The links from the root form a tree of entries in use.
    pub open spec fn wf(self) -> bool {
        has_tree(self.entries)
    }

    /// The chain of the directory has a place in the file for every entry.
    pub open spec fn stored(self) -> bool {
        &&& self.storage.wf()
        &&& self.start != END_OF_CHAIN
        &&& has_chain(self.storage.fat, self.start)
        &&& self.entries.len() <= entry_capacity(
            self.storage.version,
            chain_of(self.storage.fat, self.start).len() as int,
        )
    }

    /// The sectors of the directory.
    pub open spec fn sectors(self) -> Seq<u32> {
        chain_of(self.storage.fat, self.start)
    }

    /// Where in the file the entry `i` is.
    pub open spec fn entry_at(self, i: int) -> int {
        entry_position(self.storage.version, self.sectors(), i)
    }

    /// An entry is replaced, in the file too.
    pub open spec fn entry_written(self, id: u32, entry: EntryView) -> DirectoryView {
        DirectoryView {
            entries: self.entries.update(id as int, entry),
            storage: self.storage.written(self.entry_at(id as int), entry.bytes()),
            ..self
        }
    }

    /// A link of an entry is set, in the file too, where only the link is written.
    pub open spec fn link_written(self, slot: Slot, id: u32) -> DirectoryView {
        DirectoryView {
            entries: linked(self.entries, slot, id),
            storage: self.storage.written(
                self.entry_at(slot.holder() as int) + slot.offset(),
                u32_le(id),
            ),
            ..self
        }
    }

    /// The next new object needs one more sector for the directory.
    pub open spec fn is_full(self) -> bool {
        free_entry(self.entries) == self.entries.len() && match self.storage.version {
            Version::V3 => self.entries.len() % 4 == 0,
            Version::V4 => self.entries.len() % 32 == 0,
        }
    }

    /// The directory has a place in the file for the next new object: where all
    /// entries are in use and fill their sectors, its chain is extended.
    pub open spec fn with_place(self) -> DirectoryView {
        DirectoryView {
            storage: if self.is_full() {
                self.storage.chain_extended(self.start, SectorInit::Dir)
            } else {
                self.storage
            },
            ..self
        }
    }

    /// A new object can be placed: there is a stream ID left for it, and a sector
    /// if the directory needs one more.
    pub open spec fn has_place(self) -> bool {
        &&& free_entry(self.entries) < NO_STREAM
        &&& self.is_full() ==> self.storage.has_room()
    }

    /// What listing the storage at a path has to start from: the chain of names
    /// that the path spells, and the topmost child of the storage.
    pub open spec fn storage_start(self, path: Seq<ComponentView>) -> Result<
        (Seq<Seq<char>>, u32),
        ErrorView,
    > {
        match name_chain(path) {
            Err(error) => Err(error),
            Ok(names) => match lookup(self.entries, names) {
                None => Err(ErrorView::NoSuchStorage { names }),
                Some(id) => if self.entries[id as int].obj_type == OBJ_TYPE_STREAM {
                    Err(ErrorView::NotAStorage { names })
                } else {
                    Ok((names, self.entries[id as int].child))
                },
            },
        }
    }

    /// What walking over the object at a path and all below it has to start from:
    /// the chain of names that leads to the storage which the object is in, and the
    /// object.
    pub open spec fn walk_start(self, path: Seq<ComponentView>) -> Result<
        (Seq<Seq<char>>, u32),
        ErrorView,
    > {
        match name_chain(path) {
            Err(error) => Err(error),
            Ok(names) => match lookup(self.entries, names) {
                None => Err(ErrorView::NoSuchObject { names }),
                Some(id) => Ok(
                    (
                        if names.len() == 0 {
                            names
                        } else {
                            names.drop_last()
                        },
                        id,
                    ),
                ),
            },
        }
    }

    /// The outcome of listing the storage at a path.
    pub open spec fn is_storage_listing(
        self,
        path: Seq<ComponentView>,
        outcome: Result<Entries, Error>,
    ) -> bool {
        match outcome {
            Ok(entries) => {
                &&& entries.wf()
                &&& entries.entries() == self.entries
                &&& self.storage_start(path) matches Ok((names, top))
                &&& entries.rest() == listing(
                    self.entries,
                    EntriesOrder::Nonrecursive,
                    tree_at(self.entries, top),
                    names,
                )
            },
            Err(error) => self.storage_start(path) matches Err(e) && e == error@,
        }
    }

    /// The outcome of walking over the object at a path and all below it.
    pub open spec fn is_walk(
        self,
        path: Seq<ComponentView>,
        outcome: Result<Entries, Error>,
    ) -> bool {
        match outcome {
            Ok(entries) => {
                &&& entries.wf()
                &&& entries.entries() == self.entries
                &&& self.walk_start(path) matches Ok((names, id))
                &&& entries.rest() == object_listing(
                    self.entries,
                    EntriesOrder::Preorder,
                    id,
                    names,
                )
            },
            Err(error) => self.walk_start(path) matches Err(e) && e == error@,
        }
    }

    /// A new object is added below `parent`. Its entry is linked where the search
    /// for its name ends; the link and then the entry are written to the file.
    pub open spec fn inserted(
        self,
        parent: u32,
        name: Seq<char>,
        obj_type: u8,
        now: u64,
    ) -> DirectoryView {
        let id = free_entry(self.entries);
        let entry = EntryView::created(name, obj_type, now);
        let placed = DirectoryView {
            entries: put(self.entries, id, entry),
            ..self.with_place()
        };
        placed.link_written(insertion_slot(self.entries, parent, name), id as u32).entry_written(
            id as u32,
            entry,
        )
    }

    /// The child of `parent` with the given name can be removed: there is one, it
    /// has no children, and if another object moves into its entry, that one fits
    /// into its place in the file.
    pub open spec fn can_erase(self, parent: u32, name: Seq<char>) -> bool {
        &&& find(self.entries, children(self.entries, parent), name) matches Some(id)
            && self.entries[id as int].child == NO_STREAM
        &&& {
            let found = removal(self.entries, parent, name).1;
            let entry = self.entries[found.top() as int];
            entry.left_sibling != NO_STREAM && entry.right_sibling != NO_STREAM ==> self.entries[
                rightmost(found.left(), Slot::Left(found.top())).1.top() as int
            ].fits()
        }
    }

    /// The child of `parent` with the given name is removed. With at most one
    /// sibling below it, that sibling takes its place. With two, the object with
    /// the greatest name on the left moves into its entry, and the left sibling of
    /// that object takes the place of the latter. The entry that falls out of use
    /// is cleared.
    pub open spec fn erased(self, parent: u32, name: Seq<char>) -> DirectoryView {
        let (slot, found) = removal(self.entries, parent, name);
        let top = found.top();
        let left = self.entries[top as int].left_sibling;
        let right = self.entries[top as int].right_sibling;
        if left == NO_STREAM || right == NO_STREAM {
            self.link_written(
                slot,
                if left == NO_STREAM {
                    right
                } else {
                    left
                },
            ).entry_written(top, EntryView::unallocated())
        } else {
            let (from, last) = rightmost(found.left(), Slot::Left(top));
            let moved = self.entries[last.top() as int];
            self.entry_written(top, moved.with_left(left).with_right(right)).link_written(
                from,
                moved.left_sibling,
            ).entry_written(last.top(), EntryView::unallocated())
        }
    }
}

/// A wrapper around the sector allocator that additionally manages the chain of
/// the directory.
pub struct Directory<F> {
    allocator: Allocator<F>,
    dir_entries: Vec<DirEntry>,
    dir_start_sector: u32,
}

impl<F> View for Directory<F> {
    type V = DirectoryView;

    closed spec fn view(&self) -> DirectoryView {
        DirectoryView {
            entries: entry_views(self.dir_entries@),
            start: self.dir_start_sector,
            storage: self.allocator@,
        }
    }
}

impl<F> Directory<F> {
    /// What stands for the file.
    pub closed spec fn file(self) -> F {
        self.allocator.file()
    }

    /// Makes the directory of a file that has been read, if its entries are
    /// valid; else returns the first thing that is wrong with them.
    pub fn new(
        allocator: Allocator<F>,
        dir_entries: Vec<DirEntry>,
        dir_start_sector: u32,
    ) -> (directory: Result<Directory<F>, Error>)
        requires
            dir_entries@.len() > 0,
        ensures
            match directory {
                Ok(directory) => {
                    &&& fault(entry_views(dir_entries@)) is None
                    &&& directory@.entries == entry_views(dir_entries@)
                    &&& directory@.start == dir_start_sector
                    &&& directory@.storage == allocator@
                    &&& directory.file() == allocator.file()
                    &&& directory@.wf()
                },
                Err(error) => fault(entry_views(dir_entries@)) == Some(error@),
            },
    {
        let directory = Directory { allocator, dir_entries, dir_start_sector };
        match directory.validate() {
            Ok(()) => {
                proof {
                    crate::validity::lemma_valid_iff(directory@.entries);
                }
                Ok(directory)
            },
            Err(error) => Err(error),
        }
    }

    /// Returns the version of the file.
    pub fn version(&self) -> (version: Version)
        ensures
            version == self@.storage.version,
    {
        self.allocator.version()
    }

    /// Returns the length of a sector, in bytes.
    pub fn sector_len(&self) -> (len: usize)
        ensures
            len == self@.storage.version.sector_size(),
    {
        self.allocator.sector_len()
    }

    /// Hands back what stands for the file. Writes that the file has not received
    /// are lost: see [`Directory::flush`].
    pub fn into_inner(self) -> (inner: F)
        ensures
            inner == self.file(),
    {
        self.allocator.into_inner()
    }

    /// Gives access to what stands for the file.
    pub fn inner_mut(&mut self) -> (inner: &mut F)
        ensures
            *inner == old(self).file(),
            final(self).file() == *final(inner),
            final(self)@ == old(self)@,
    {
        self.allocator.inner_mut()
    }

    /// Returns how many entries there are, in use or not.
    pub fn num_dir_entries(&self) -> (count: usize)
        ensures
            count == self@.entries.len(),
    {
        self.dir_entries.len()
    }

    /// Returns the entry of the root.
    pub fn root_dir_entry(&self) -> (entry: &DirEntry)
        requires
            self@.entries.len() > 0,
        ensures
            entry@ == self@.entries[ROOT_STREAM_ID as int],
    {
        self.dir_entry(ROOT_STREAM_ID)
    }

    /// Returns an entry.
    pub fn dir_entry(&self, stream_id: u32) -> (entry: &DirEntry)
        requires
            stream_id < self@.entries.len(),
        ensures
            entry@ == self@.entries[stream_id as int],
    {
        &self.dir_entries[stream_id as usize]
    }

    /// Tells whether the chain of the directory has a place in the file for every
    /// entry.
    pub fn is_stored(&self) -> (stored: bool)
        ensures
            stored == self@.stored(),
    {
        if self.dir_start_sector == END_OF_CHAIN || !self.allocator.is_consistent() {
            return false;
        }
        match self.allocator.chain_sectors(self.dir_start_sector) {
            None => false,
            Some(sectors) => {
                proof {
                    crate::storage::lemma_chain_distinct(
                        self@.storage.fat,
                        self@.start,
                        sectors@,
                    );
                }
                let places: u64 = match self.version() {
                    Version::V3 => sectors.len() as u64 * 4,
                    Version::V4 => sectors.len() as u64 * 32,
                };
                self.dir_entries.len() as u64 <= places
            },
        }
    }

    /// Tells whether there is a place for a new object.
    pub fn has_place(&self) -> (place: bool)
        ensures
            place == self@.has_place(),
    {
        let free: usize = self.first_free_entry();
        proof {
            crate::model::lemma_free_entry(self@.entries, 0);
        }
        if free as u64 >= NO_STREAM as u64 {
            return false;
        }
        free < self.dir_entries.len() || free % self.version().dir_entries_per_sector() != 0
            || self.allocator.has_room()
    }

    /// Tells whether a sector can still be taken.
    pub fn has_room(&self) -> (room: bool)
        ensures
            room == self@.storage.has_room(),
    {
        self.allocator.has_room()
    }

    /// Tells whether a chain begins with a sector.
    pub fn is_chain_start(&self, sector_id: u32) -> (starts: bool)
        requires
            self@.storage.wf(),
        ensures
            starts == has_chain(self@.storage.fat, sector_id),
    {
        self.allocator.chain_sectors(sector_id).is_some()
    }

    /// Tells whether links from the root lead to an entry.
    pub fn is_in_tree(&self, stream_id: u32) -> (inside: bool)
        requires
            self@.wf(),
        ensures
            inside == reachable(self@.entries).contains(stream_id),
    {
        let ghost es = self@.entries;
        let mut stack: Vec<u32> = Vec::new();
        stack.push(ROOT_STREAM_ID);
        let ghost mut trees = seq![tree_at(es, ROOT_STREAM_ID)];
        proof {
            crate::model::lemma_the_tree(es);
            assert(stack@[0] == ROOT_STREAM_ID);
            assert(ids(trees[0]) == reachable(es));
        }
        while stack.len() > 0
            invariant
                es == self@.entries,
                trees.len() == stack@.len(),
                forall|i: int| 0 <= i < stack@.len() ==> repr(es, #[trigger] stack@[i], trees[i]),
                reachable(es).contains(stream_id) <==> exists|i: int|
                    0 <= i < trees.len() && ids(#[trigger] trees[i]).contains(stream_id),
            decreases forest_size(trees),
        {
            let ghost before = stack@;
            let ghost old_trees = trees;
            let ghost t = trees.last();
            let current: u32 = match stack.pop() {
                Some(current) => current,
                None => NO_STREAM,
            };
            assert(before[before.len() - 1] == current);
            assert(t == trees[before.len() - 1]);
            proof {
                crate::tree::lemma_repr_top(es, current, t);
                trees = trees.drop_last();
            }
            if current == NO_STREAM {
                proof {
                    assert(ids(t) =~= Set::<u32>::empty());
                    if exists|i: int|
                        0 <= i < old_trees.len() && ids(#[trigger] old_trees[i]).contains(stream_id) {
                        let i = choose|i: int|
                            0 <= i < old_trees.len() && ids(#[trigger] old_trees[i]).contains(
                                stream_id,
                            );
                        assert(trees[i] == old_trees[i]);
                    }
                    if exists|i: int|
                        0 <= i < trees.len() && ids(#[trigger] trees[i]).contains(stream_id) {
                        let i = choose|i: int|
                            0 <= i < trees.len() && ids(#[trigger] trees[i]).contains(stream_id);
                        assert(old_trees[i] == trees[i]);
                    }
                }
                continue;
            }
            if current == stream_id {
                assert(ids(old_trees[before.len() - 1]).contains(stream_id));
                return true;
            }
            let dir_entry = self.dir_entry(current);
            stack.push(dir_entry.left_sibling);
            stack.push(dir_entry.right_sibling);
            stack.push(dir_entry.child);
            proof {
                let n = before.len() - 1;
                trees = trees.push(t.left()).push(t.right()).push(t.child());
                crate::tree::lemma_forest_step(old_trees);
                if exists|i: int|
                    0 <= i < old_trees.len() && ids(#[trigger] old_trees[i]).contains(stream_id) {
                    let i = choose|i: int|
                        0 <= i < old_trees.len() && ids(#[trigger] old_trees[i]).contains(stream_id);
                    if i < n {
                        assert(trees[i] == old_trees[i]);
                    } else {
                        assert(trees[n] == t.left() && trees[n + 1] == t.right() && trees[n + 2]
                            == t.child());
                    }
                }
                if exists|i: int|
                    0 <= i < trees.len() && ids(#[trigger] trees[i]).contains(stream_id) {
                    let i = choose|i: int|
                        0 <= i < trees.len() && ids(#[trigger] trees[i]).contains(stream_id);
                    if i < n {
                        assert(old_trees[i] == trees[i]);
                    } else {
                        crate::tree::lemma_branch_ids(t);
                        assert(old_trees[n] == t);
                    }
                }
            }
        }
        false
    }

    /// Tells whether the links from the root form a tree of entries in use.
    pub fn is_tree(&self) -> (tree: bool)
        ensures
            tree == self@.wf(),
    {
        let ghost es = self@.entries;
        let mut visited: HashSet<u32> = HashSet::new();
        let mut stack: Vec<u32> = Vec::new();
        stack.push(ROOT_STREAM_ID);
        proof {
            assert(stack@ =~= seq![ROOT_STREAM_ID]);
            assert(visited@ =~= Set::<u32>::empty());
            crate::shape::lemma_root_forest(es);
        }
        while stack.len() > 0
            invariant
                es == self@.entries,
                self@.wf() <==> has_forest(es, stack@, visited@),
                visited@.finite(),
                forall|x: u32| #[trigger] visited@.contains(x) ==> x < es.len(),
                forall|i: int| 0 <= i < stack@.len() ==> #[trigger] stack@[i] != NO_STREAM,
            decreases es.len() - visited@.len(),
        {
            let ghost before = stack@;
            let ghost seen = visited@;
            let stream_id: u32 = match stack.pop() {
                Some(stream_id) => stream_id,
                None => ROOT_STREAM_ID,
            };
            assert(before.last() == stream_id && before[before.len() - 1] != NO_STREAM);
            if stream_id as usize >= self.dir_entries.len() || visited.contains(&stream_id)
                || self.dir_entries[stream_id as usize].obj_type == OBJ_TYPE_UNALLOCATED {
                proof {
                    crate::shape::lemma_no_forest(es, before, seen);
                }
                return false;
            }
            visited.insert(stream_id);
            let dir_entry = self.dir_entry(stream_id);
            if dir_entry.left_sibling != NO_STREAM {
                stack.push(dir_entry.left_sibling);
            }
            if dir_entry.right_sibling != NO_STREAM {
                stack.push(dir_entry.right_sibling);
            }
            if dir_entry.child != NO_STREAM {
                stack.push(dir_entry.child);
            }
            proof {
                crate::validity::lemma_visited_bound(es.len(), visited@);
                crate::shape::lemma_forest_step(es, before, seen);
                assert(stack@ =~= before.drop_last() + link_targets(es[stream_id as int]));
            }
        }
        proof {
            assert(stack@ =~= Seq::<u32>::empty());
            crate::shape::lemma_empty_forest(es, visited@);
        }
        true
    }

    /// Returns the first entry that is not in use, or the number of entries.
    fn first_free_entry(&self) -> (i: usize)
        ensures
            i == free_entry(self@.entries),
    {
        let mut i: usize = 0;
        while i < self.dir_entries.len() && self.dir_entries[i].obj_type != OBJ_TYPE_UNALLOCATED
            invariant
                i <= self@.entries.len(),
                self@.entries.len() == self.dir_entries@.len(),
                free_entry(self@.entries) == free_entry_from(self@.entries, i as int),
            decreases self.dir_entries@.len() - i,
        {
            i += 1;
        }
        i
    }

    /// Gives access to an entry in memory.
    fn dir_entry_mut(&mut self, stream_id: u32) -> (entry: &mut DirEntry)
        requires
            stream_id < old(self).dir_entries@.len(),
        ensures
            *entry == old(self).dir_entries@[stream_id as int],
            final(self).dir_entries@ == old(self).dir_entries@.update(
                stream_id as int,
                *final(entry),
            ),
            final(self).allocator == old(self).allocator,
            final(self).dir_start_sector == old(self).dir_start_sector,
    {
        &mut self.dir_entries[stream_id as usize]
    }

    /// Visits all entries that links from the root lead to, and returns the first
    /// thing that is found to be wrong. A red root is not held against the file:
    /// some writers do not color it black.
    pub fn validate(&self) -> (result: Result<(), Error>)
        requires
            self@.entries.len() > 0,
        ensures
            match result {
                Ok(()) => fault(self@.entries) is None,
                Err(error) => fault(self@.entries) == Some(error@),
            },
    {
        let ghost es = self@.entries;
        let root_entry = self.root_dir_entry();
        if !same_text(root_entry.name.as_str(), consts::ROOT_DIR_NAME) {
            return Err(Error::RootName { name: root_entry.name.clone() });
        }
        if root_entry.stream_len % consts::MINI_SECTOR_LEN as u64 != 0 {
            return Err(Error::RootStreamLen { stream_len: root_entry.stream_len });
        }
        let mut visited: HashSet<u32> = HashSet::new();
        let mut stack: Vec<(u32, bool)> = Vec::new();
        stack.push((ROOT_STREAM_ID, false));
        let ghost mut steps: nat = es.len() + 1;
        proof {
            assert(stack@ =~= seq![(ROOT_STREAM_ID, false)]);
            assert(visited@ =~= Set::<u32>::empty());
        }
        while stack.len() > 0
            invariant
                es == self@.entries,
                es.len() > 0,
                fault(es) == walk_fault(es, stack@, visited@, steps),
                steps + visited@.len() == es.len() + 1,
                visited@.finite(),
                forall|x: u32| #[trigger] visited@.contains(x) ==> x < es.len(),
                forall|i: int| 0 <= i < stack@.len() ==> (#[trigger] stack@[i]).0 < es.len(),
            decreases steps,
        {
            proof {
                crate::validity::lemma_visited_bound(es.len(), visited@);
            }
            let ghost before = stack@;
            let (stream_id, parent_is_red) = match stack.pop() {
                Some(top) => top,
                None => (ROOT_STREAM_ID, false),
            };
            assert(before.last() == (stream_id, parent_is_red));
            assert(before[before.len() - 1].0 < es.len());
            if visited.contains(&stream_id) {
                return Err(Error::TreeLoop);
            }
            visited.insert(stream_id);
            match self.check_entry(stream_id, parent_is_red) {
                Ok(()) => {},
                Err(error) => {
                    return Err(error);
                },
            }
            let dir_entry = self.dir_entry(stream_id);
            let node_is_red: bool = dir_entry.color == consts::COLOR_RED;
            if dir_entry.left_sibling != NO_STREAM {
                stack.push((dir_entry.left_sibling, node_is_red));
            }
            if dir_entry.right_sibling != NO_STREAM {
                stack.push((dir_entry.right_sibling, node_is_red));
            }
            if dir_entry.child != NO_STREAM {
                stack.push((dir_entry.child, false));
            }
            proof {
                assert(stack@ =~= before.drop_last() + visits(es, stream_id));
                steps = (steps - 1) as nat;
            }
        }
        Ok(())
    }

    /// Returns the first thing that is wrong with one entry in the tree.
    fn check_entry(&self, stream_id: u32, parent_is_red: bool) -> (result: Result<(), Error>)
        requires
            stream_id < self@.entries.len(),
        ensures
            match result {
                Ok(()) => node_fault(self@.entries, stream_id, parent_is_red) is None,
                Err(error) => node_fault(self@.entries, stream_id, parent_is_red) == Some(error@),
            },
    {
        let dir_entry = self.dir_entry(stream_id);
        if stream_id == ROOT_STREAM_ID {
            if dir_entry.obj_type != consts::OBJ_TYPE_ROOT {
                return Err(Error::RootType { obj_type: dir_entry.obj_type });
            }
        } else if dir_entry.obj_type != consts::OBJ_TYPE_STORAGE && dir_entry.obj_type
            != consts::OBJ_TYPE_STREAM {
            return Err(Error::NonRootType { obj_type: dir_entry.obj_type });
        }
        if parent_is_red && dir_entry.color == consts::COLOR_RED {
            return Err(Error::TwoRedNodes);
        }
        let left_sibling: u32 = dir_entry.left_sibling;
        if left_sibling != NO_STREAM {
            if left_sibling as usize >= self.dir_entries.len() {
                return Err(
                    Error::LeftSiblingIndex { index: left_sibling, count: self.dir_entries.len() },
                );
            }
            let sibling = self.dir_entry(left_sibling);
            if compare_names(sibling.name.as_str(), dir_entry.name.as_str()) != NameOrder::Less {
                return Err(
                    Error::NamesOutOfOrder {
                        name: dir_entry.name.clone(),
                        sibling: sibling.name.clone(),
                    },
                );
            }
        }
        let right_sibling: u32 = dir_entry.right_sibling;
        if right_sibling != NO_STREAM {
            if right_sibling as usize >= self.dir_entries.len() {
                return Err(
                    Error::RightSiblingIndex { index: right_sibling, count: self.dir_entries.len() },
                );
            }
            let sibling = self.dir_entry(right_sibling);
            if compare_names(dir_entry.name.as_str(), sibling.name.as_str()) != NameOrder::Less {
                return Err(
                    Error::NamesOutOfOrder {
                        name: dir_entry.name.clone(),
                        sibling: sibling.name.clone(),
                    },
                );
            }
        }
        let child: u32 = dir_entry.child;
        if child != NO_STREAM && child as usize >= self.dir_entries.len() {
            return Err(Error::ChildIndex { index: child, count: self.dir_entries.len() });
        }
        Ok(())
    }

    /// Returns the child of an entry with the given name.
    pub fn find_child(&self, parent_id: u32, name: &str) -> (id: Option<u32>)
        requires
            self@.wf(),
            reachable(self@.entries).contains(parent_id),
        ensures
            id == find(self@.entries, children(self@.entries, parent_id), name@),
            id matches Some(id) ==> reachable(self@.entries).contains(id) && id
                < self@.entries.len(),
    {
        let ghost es = self@.entries;
        let ghost all = children(es, parent_id);
        let ghost mut t = all;
        proof {
            lemma_children_reachable(es, parent_id);
            crate::tree::lemma_find_in_tree(es, all, name@);
        }
        let mut stream_id: u32 = self.dir_entry(parent_id).child;
        while stream_id != NO_STREAM
            invariant
                self@.wf(),
                es == self@.entries,
                all == children(es, parent_id),
                repr(es, stream_id, t),
                find(es, all, name@) == find(es, t, name@),
                find(es, all, name@) matches Some(x) ==> reachable(es).contains(x) && x < es.len(),
            decreases t,
        {
            let dir_entry = self.dir_entry(stream_id);
            match compare_names(name, dir_entry.name.as_str()) {
                NameOrder::Equal => {
                    return Some(stream_id);
                },
                NameOrder::Less => {
                    stream_id = dir_entry.left_sibling;
                    proof {
                        t = t.left();
                    }
                },
                NameOrder::Greater => {
                    stream_id = dir_entry.right_sibling;
                    proof {
                        t = t.right();
                    }
                },
            }
        }
        None
    }

    /// Returns the entry that a chain of names leads to from the root.
    pub fn stream_id_for_name_chain(&self, names: &[&str]) -> (id: Option<u32>)
        requires
            self@.wf(),
        ensures
            id == lookup(self@.entries, strs(names@)),
            id matches Some(id) ==> reachable(self@.entries).contains(id) && id
                < self@.entries.len(),
    {
        let ghost es = self@.entries;
        let ghost chain = strs(names@);
        let mut stream_id: u32 = ROOT_STREAM_ID;
        let mut i: usize = 0;
        proof {
            crate::model::lemma_the_tree(es);
            assert(chain.skip(0) =~= chain);
        }
        while i < names.len()
            invariant
                self@.wf(),
                es == self@.entries,
                chain == strs(names@),
                i <= names@.len(),
                reachable(es).contains(stream_id),
                stream_id < es.len(),
                lookup(es, chain) == descend(es, stream_id, chain.skip(i as int)),
            decreases names@.len() - i,
        {
            proof {
                assert(chain.skip(i as int)[0] == names@[i as int]@);
                assert(chain.skip(i as int).drop_first() =~= chain.skip(i + 1));
            }
            match self.find_child(stream_id, names[i]) {
                None => {
                    return None;
                },
                Some(child) => {
                    stream_id = child;
                },
            }
            i += 1;
        }
        Some(stream_id)
    }

    /// Lists the objects in the storage at a path, given by its parts.
    pub fn storage_entries_at(&self, path: &[PathComponent]) -> (entries: Result<Entries<'_>, Error>)
        requires
            self@.wf(),
        ensures
            self@.is_storage_listing(component_views(path@), entries),
            ({
                let es = self@.entries;
                let chain = name_chain(component_views(path@));
                &&& entries is Ok <==> (chain matches Ok(names) && (lookup(es, names) matches Some(id)
                    && es[id as int].obj_type != 2))
                &&& entries matches Err(error) ==> match chain {
                    Err(e) => error@ == e,
                    Ok(names) => error@ == if lookup(es, names) is None {
                        ErrorView::NoSuchStorage { names }
                    } else {
                        ErrorView::NotAStorage { names }
                    },
                }
                &&& entries matches Ok(list) ==> list.entries() == es && list.rest() == listing(
                    es,
                    EntriesOrder::Nonrecursive,
                    children(es, lookup(es, chain->Ok_0)->0),
                    chain->Ok_0,
                )
            }),
    {
        let names = match name_chain_from_components(path) {
            Ok(names) => names,
            Err(error) => {
                return Err(error);
            },
        };
        let stream_id = match self.stream_id_for_name_chain(names.as_slice()) {
            Some(stream_id) => stream_id,
            None => {
                return Err(Error::NoSuchStorage { names: owned_names(&names) });
            },
        };
        let dir_entry = self.dir_entry(stream_id);
        if dir_entry.obj_type == OBJ_TYPE_STREAM {
            return Err(Error::NotAStorage { names: owned_names(&names) });
        }
        proof {
            lemma_children_reachable(self@.entries, stream_id);
        }
        Ok(
            Entries::new(
                EntriesOrder::Nonrecursive,
                &self.dir_entries,
                owned_names(&names),
                dir_entry.child,
            ),
        )
    }

    /// Lists the objects in the storage at a path, in the order of the tree of
    /// siblings. Fails if the path is no path within the file, leads nowhere, or
    /// leads to a stream.
    pub fn storage_entries(&self, path: &PathBuf) -> (entries: Result<Entries<'_>, Error>)
        requires
            self@.wf(),
        ensures
            self@.is_storage_listing(path_parts(*path), entries),
            ({
                let es = self@.entries;
                let chain = name_chain(path_parts(*path));
                &&& entries is Ok <==> (chain matches Ok(names) && (lookup(es, names) matches Some(id)
                    && es[id as int].obj_type != 2))
                &&& entries matches Err(error) ==> match chain {
                    Err(e) => error@ == e,
                    Ok(names) => error@ == if lookup(es, names) is None {
                        ErrorView::NoSuchStorage { names }
                    } else {
                        ErrorView::NotAStorage { names }
                    },
                }
                &&& entries matches Ok(list) ==> list.entries() == es && list.rest() == listing(
                    es,
                    EntriesOrder::Nonrecursive,
                    children(es, lookup(es, chain->Ok_0)->0),
                    chain->Ok_0,
                )
            }),
    {
        let components: Vec<PathComponent> = path_components(path);
        self.storage_entries_at(components.as_slice())
    }

    /// Lists the object at a path, given by its parts, and all that lies below it.
    pub fn walk_storage_at(&self, path: &[PathComponent]) -> (entries: Result<Entries<'_>, Error>)
        requires
            self@.wf(),
        ensures
            self@.is_walk(component_views(path@), entries),
            ({
                let es = self@.entries;
                let chain = name_chain(component_views(path@));
                &&& entries is Ok <==> (chain matches Ok(names) && lookup(es, names) is Some)
                &&& entries matches Err(error) ==> match chain {
                    Err(e) => error@ == e,
                    Ok(names) => error@ == ErrorView::NoSuchObject { names },
                }
                &&& entries matches Ok(list) ==> list.entries() == es && list.rest()
                    == object_listing(
                    es,
                    EntriesOrder::Preorder,
                    lookup(es, chain->Ok_0)->0,
                    (chain->Ok_0).take(
                        if (chain->Ok_0).len() == 0 {
                            0
                        } else {
                            (chain->Ok_0).len() - 1
                        },
                    ),
                )
            }),
    {
        let mut names = match name_chain_from_components(path) {
            Ok(names) => names,
            Err(error) => {
                return Err(error);
            },
        };
        let stream_id = match self.stream_id_for_name_chain(names.as_slice()) {
            Some(stream_id) => stream_id,
            None => {
                return Err(Error::NoSuchObject { names: owned_names(&names) });
            },
        };
        let ghost before = strs(names@);
        proof {
            crate::model::lemma_the_tree(self@.entries);
        }
        let _ = names.pop();
        assert(strs(names@) =~= if before.len() == 0 {
            before
        } else {
            before.drop_last()
        });
        assert(strs(names@) =~= before.take(
            if before.len() == 0 {
                0
            } else {
                before.len() - 1
            },
        ));
        Ok(
            Entries::new(
                EntriesOrder::Preorder,
                &self.dir_entries,
                owned_names(&names),
                stream_id,
            ),
        )
    }

    /// Lists the object at a path and all that lies below it, each object before
    /// what lies below it. Fails if the path is no path within the file or leads
    /// nowhere.
    pub fn walk_storage(&self, path: &PathBuf) -> (entries: Result<Entries<'_>, Error>)
        requires
            self@.wf(),
        ensures
            self@.is_walk(path_parts(*path), entries),
            ({
                let es = self@.entries;
                let chain = name_chain(path_parts(*path));
                &&& entries is Ok <==> (chain matches Ok(names) && lookup(es, names) is Some)
                &&& entries matches Err(error) ==> match chain {
                    Err(e) => error@ == e,
                    Ok(names) => error@ == ErrorView::NoSuchObject { names },
                }
                &&& entries matches Ok(list) ==> list.entries() == es && list.rest()
                    == object_listing(
                    es,
                    EntriesOrder::Preorder,
                    lookup(es, chain->Ok_0)->0,
                    (chain->Ok_0).take(
                        if (chain->Ok_0).len() == 0 {
                            0
                        } else {
                            (chain->Ok_0).len() - 1
                        },
                    ),
                )
            }),
    {
        let components: Vec<PathComponent> = path_components(path);
        self.walk_storage_at(components.as_slice())
    }

    /// Opens the chain that begins with a sector.
    pub fn open_chain(&self, start_sector_id: u32, init: SectorInit) -> (chain: Chain)
        requires
            self@.storage.wf(),
            has_chain(self@.storage.fat, start_sector_id),
        ensures
            chain.sector_ids@ == chain_of(self@.storage.fat, start_sector_id),
            is_chain(self@.storage.fat, start_sector_id, chain.sector_ids@),
            chain.init == init,
            chain.version == self@.storage.version,
    {
        self.allocator.open_chain(start_sector_id, init)
    }

    /// Returns a place in the header of the file.
    pub fn seek_within_header(&self, offset_within_header: u64) -> (sector: Sector)
        requires
            offset_within_header < consts::HEADER_LEN,
        ensures
            sector == (Sector {
                start: 0,
                len: consts::HEADER_LEN,
                offset: offset_within_header as usize,
            }),
            sector.len == 512,
            sector.wf(),
    {
        self.allocator.seek_within_header(offset_within_header)
    }

    /// Returns the place of an entry in the file.
    fn seek_to_dir_entry(&self, stream_id: u32) -> (sector: Sector)
        requires
            self@.stored(),
            stream_id < entry_capacity(self@.storage.version, self@.sectors().len() as int),
        ensures
            sector.start == self@.entry_at(stream_id as int),
            sector.len == consts::DIR_ENTRY_LEN,
            sector.offset == 0,
            sector.wf(),
    {
        self.seek_within_dir_entry(stream_id, 0)
    }

    /// Returns a place in an entry in the file.
    fn seek_within_dir_entry(&self, stream_id: u32, offset_within_dir_entry: usize) -> (sector: Sector)
        requires
            self@.stored(),
            stream_id < entry_capacity(self@.storage.version, self@.sectors().len() as int),
            offset_within_dir_entry <= consts::DIR_ENTRY_LEN,
        ensures
            sector.start == self@.entry_at(stream_id as int),
            sector.len == consts::DIR_ENTRY_LEN,
            sector.offset == offset_within_dir_entry,
            sector.wf(),
    {
        let (skipped, index_within_sector): (u32, u32) = match self.version() {
            Version::V3 => (stream_id / 4, stream_id % 4),
            Version::V4 => (stream_id / 32, stream_id % 32),
        };
        let ghost sectors = self@.sectors();
        let mut directory_sector: u32 = self.dir_start_sector;
        let mut i: u32 = 0;
        assert(sectors[0] == directory_sector && sectors[0] < self@.storage.fat.len());
        while i < skipped
            invariant
                self@.storage.wf(),
                is_chain(self@.storage.fat, self@.start, sectors),
                i <= skipped < sectors.len(),
                directory_sector == sectors[i as int],
                directory_sector < self@.storage.fat.len(),
            decreases skipped - i,
        {
            assert(self@.storage.fat[sectors[i as int] as int] == sectors[i + 1]);
            assert(sectors[i + 1] < self@.storage.fat.len());
            directory_sector = self.allocator.next(directory_sector);
            i += 1;
        }
        self.allocator.seek_within_subsector(
            directory_sector,
            index_within_sector,
            consts::DIR_ENTRY_LEN,
            offset_within_dir_entry as u64,
        )
    }

    /// Writes as much of `bytes` as fits into the rest of a part of the file, and
    /// moves the place in it behind them. Returns how many bytes these were.
    pub fn write(&mut self, sector: &mut Sector, bytes: &[u8]) -> (count: usize)
        requires
            old(sector).wf(),
        ensures
            final(sector).wf(),
            count <= bytes@.len(),
            count <= old(sector).len - old(sector).offset,
            count == bytes@.len() || count == old(sector).len - old(sector).offset,
            count == if bytes@.len() < old(sector).rest() {
                bytes@.len() as int
            } else {
                old(sector).rest()
            },
            *final(sector) == (Sector {
                offset: (old(sector).offset + count) as usize,
                ..*old(sector)
            }),
            final(self)@ == (DirectoryView {
                storage: if count == 0 {
                    old(self)@.storage
                } else {
                    old(self)@.storage.written(
                        old(sector).start + old(sector).offset,
                        bytes@.take(count as int),
                    )
                },
                ..old(self)@
            }),
            final(self).file() == old(self).file(),
    {
        self.allocator.write(sector, bytes)
    }

    /// Takes a sector, as a chain of its own, and returns it: the first free one,
    /// or one at the end of the file, for which the FAT grows as necessary.
    pub fn begin_chain(&mut self, init: SectorInit) -> (id: u32)
        requires
            old(self)@.storage.wf(),
            old(self)@.storage.has_room(),
        ensures
            id == old(self)@.storage.next_sector(),
            final(self)@ == (DirectoryView {
                storage: old(self)@.storage.chain_begun(init),
                ..old(self)@
            }),
            final(self)@.storage.wf(),
            final(self).file() == old(self).file(),
    {
        self.allocator.begin_chain(init)
    }

    /// Given any sector of a chain, extends the end of that chain by one sector
    /// and returns the new sector, for which the FAT grows as necessary.
    pub fn extend_chain(&mut self, start_sector_id: u32, init: SectorInit) -> (id: u32)
        requires
            old(self)@.storage.wf(),
            old(self)@.storage.has_room(),
            has_chain(old(self)@.storage.fat, start_sector_id),
            start_sector_id != END_OF_CHAIN,
        ensures
            id == old(self)@.storage.next_sector(),
            final(self)@ == (DirectoryView {
                storage: old(self)@.storage.chain_extended(start_sector_id, init),
                ..old(self)@
            }),
            final(self)@.storage.wf(),
            final(self).file() == old(self).file(),
    {
        self.allocator.extend_chain(start_sector_id, init)
    }

    /// Gives up all sectors of the chain that begins with a sector.
    pub fn free_chain(&mut self, start_sector_id: u32)
        requires
            old(self)@.storage.wf(),
            has_chain(old(self)@.storage.fat, start_sector_id),
        ensures
            final(self)@ == (DirectoryView {
                storage: old(self)@.storage.chain_freed(start_sector_id),
                ..old(self)@
            }),
            final(self)@.storage.wf(),
            final(self).file() == old(self).file(),
    {
        self.allocator.free_chain(start_sector_id)
    }

    /// Writes a link of an entry to the file.
    fn write_link(&mut self, stream_id: u32, offset_within_dir_entry: usize, link: u32)
        requires
            old(self)@.stored(),
            stream_id < old(self)@.entries.len(),
            offset_within_dir_entry + 4 <= consts::DIR_ENTRY_LEN,
        ensures
            final(self)@ == (DirectoryView {
                storage: old(self)@.storage.written(
                    old(self)@.entry_at(stream_id as int) + offset_within_dir_entry,
                    u32_le(link),
                ),
                ..old(self)@
            }),
            final(self).dir_entries == old(self).dir_entries,
            final(self).file() == old(self).file(),
    {
        let mut sector: Sector = self.seek_within_dir_entry(stream_id, offset_within_dir_entry);
        let mut bytes: Vec<u8> = Vec::new();
        write_u32_le(&mut bytes, link);
        assert(bytes@ =~= u32_le(link));
        let _ = self.allocator.write(&mut sector, bytes.as_slice());
        assert(bytes@.take(4) =~= bytes@);
    }

    /// Sets a link of an entry, in memory and then in the file.
    fn set_link(&mut self, slot: Slot, link: u32)
        requires
            old(self)@.stored(),
            slot.holder() < old(self)@.entries.len(),
        ensures
            final(self)@ == old(self)@.link_written(slot, link),
            final(self)@.stored(),
            final(self).file() == old(self).file(),
    {
        match slot {
            Slot::Left(id) => {
                self.dir_entry_mut(id).left_sibling = link;
                assert(self@.entries =~= linked(old(self)@.entries, slot, link));
                self.write_link(id, 68, link);
            },
            Slot::Right(id) => {
                self.dir_entry_mut(id).right_sibling = link;
                assert(self@.entries =~= linked(old(self)@.entries, slot, link));
                self.write_link(id, 72, link);
            },
            Slot::Child(id) => {
                self.dir_entry_mut(id).child = link;
                assert(self@.entries =~= linked(old(self)@.entries, slot, link));
                self.write_link(id, 76, link);
            },
        }
    }

    /// Returns the link that is to lead to a new child of an entry.
    fn insertion_place(&self, parent_id: u32, name: &str) -> (slot: Slot)
        requires
            self@.wf(),
            reachable(self@.entries).contains(parent_id),
            find(self@.entries, children(self@.entries, parent_id), name@) is None,
        ensures
            slot == insertion_slot(self@.entries, parent_id, name@),
    {
        let ghost es = self@.entries;
        let ghost mut t = children(es, parent_id);
        proof {
            lemma_children_reachable(es, parent_id);
        }
        let mut slot: Slot = Slot::Child(parent_id);
        let mut sibling_id: u32 = self.dir_entry(parent_id).child;
        while sibling_id != NO_STREAM
            invariant
                es == self@.entries,
                repr(es, sibling_id, t),
                find(es, t, name@) is None,
                free_slot(es, children(es, parent_id), name@, Slot::Child(parent_id)) == free_slot(
                    es,
                    t,
                    name@,
                    slot,
                ),
            decreases t,
        {
            let sibling = self.dir_entry(sibling_id);
            match compare_names(name, sibling.name.as_str()) {
                NameOrder::Less => {
                    slot = Slot::Left(sibling_id);
                    sibling_id = sibling.left_sibling;
                    proof {
                        t = t.left();
                    }
                },
                NameOrder::Greater => {
                    slot = Slot::Right(sibling_id);
                    sibling_id = sibling.right_sibling;
                    proof {
                        t = t.right();
                    }
                },
                NameOrder::Equal => {
                    sibling_id = vstd::pervasive::unreached();
                },
            }
        }
        slot
    }

    /// Writes an entry to its place in the chain of the directory.
    fn write_dir_entry(&mut self, stream_id: u32)
        requires
            old(self)@.stored(),
            stream_id < old(self)@.entries.len(),
            old(self)@.entries[stream_id as int].fits(),
        ensures
            final(self)@ == old(self)@.entry_written(
                stream_id,
                old(self)@.entries[stream_id as int],
            ),
            final(self).file() == old(self).file(),
    {
        let chain: Chain = self.allocator.open_chain(self.dir_start_sector, SectorInit::Dir);
        let offset: u64 = consts::DIR_ENTRY_LEN as u64 * stream_id as u64;
        let bytes: Vec<u8> = self.dir_entries[stream_id as usize].to_bytes();
        proof {
            lemma_entry_in_chain(self@.storage.version, self@.sectors(), stream_id as int);
        }
        if let Some(position) = chain.locate(offset) {
            self.allocator.write_at(position, bytes);
        }
        assert(self@.entries =~= old(self)@.entries.update(
            stream_id as int,
            old(self)@.entries[stream_id as int],
        ));
    }

    /// Replaces an entry, in the file and then in memory.
    fn replace_dir_entry(&mut self, stream_id: u32, entry: DirEntry)
        requires
            old(self)@.stored(),
            stream_id < old(self)@.entries.len(),
            entry@.fits(),
        ensures
            final(self)@ == old(self)@.entry_written(stream_id, entry@),
            final(self).file() == old(self).file(),
    {
        let mut sector: Sector = self.seek_to_dir_entry(stream_id);
        let bytes: Vec<u8> = entry.to_bytes();
        let _ = self.allocator.write(&mut sector, bytes.as_slice());
        assert(bytes@.take(128) =~= bytes@);
        let ghost view = entry@;
        *self.dir_entry_mut(stream_id) = entry;
        assert(self@.entries =~= old(self)@.entries.update(stream_id as int, view));
    }

    /// Clears an entry.
    fn free_dir_entry(&mut self, stream_id: u32)
        requires
            old(self)@.stored(),
            stream_id < old(self)@.entries.len(),
            stream_id != ROOT_STREAM_ID,
        ensures
            final(self)@ == old(self)@.entry_written(stream_id, EntryView::unallocated()),
            final(self).file() == old(self).file(),
    {
        self.replace_dir_entry(stream_id, DirEntry::unallocated());
    }

    /// Finds a place for a new object and returns its stream ID: the first entry
    /// that is not in use, or a new one behind all others, for which the chain of
    /// the directory is extended as necessary.
    fn allocate_dir_entry(&mut self) -> (id: u32)
        requires
            old(self)@.stored(),
            old(self)@.has_place(),
        ensures
            id == free_entry(old(self)@.entries),
            final(self)@ == (DirectoryView {
                entries: if id < old(self)@.entries.len() {
                    old(self)@.entries
                } else {
                    old(self)@.entries.push(EntryView::unallocated())
                },
                ..old(self)@.with_place()
            }),
            final(self)@.stored(),
            final(self).file() == old(self).file(),
    {
        let ghost es = self@.entries;
        proof {
            lemma_with_place(old(self)@);
            crate::model::lemma_free_entry(es, 0);
        }
        let free: usize = self.first_free_entry();
        if free < self.dir_entries.len() {
            return free as u32;
        }
        let dir_entries_per_sector: usize = self.version().dir_entries_per_sector();
        if self.dir_entries.len() % dir_entries_per_sector == 0 {
            let start_sector: u32 = self.dir_start_sector;
            let _ = self.allocator.extend_chain(start_sector, SectorInit::Dir);
        }
        let stream_id: u32 = self.dir_entries.len() as u32;
        let ghost before = self.dir_entries@;
        self.dir_entries.push(DirEntry::unallocated());
        assert(entry_views(self.dir_entries@) =~= entry_views(before).push(
            EntryView::unallocated(),
        ));
        stream_id
    }

    /// Finds a place for a new object, puts its entry there in memory, and returns
    /// its stream ID.
    fn place_dir_entry(&mut self, entry: DirEntry) -> (id: u32)
        requires
            old(self)@.stored(),
            old(self)@.has_place(),
        ensures
            id == free_entry(old(self)@.entries),
            final(self)@ == (DirectoryView {
                entries: put(old(self)@.entries, id as int, entry@),
                ..old(self)@.with_place()
            }),
            final(self)@.stored(),
            final(self).file() == old(self).file(),
    {
        proof {
            lemma_with_place(old(self)@);
        }
        let stream_id: u32 = self.allocate_dir_entry();
        let ghost before = self@;
        let ghost view = entry@;
        *self.dir_entry_mut(stream_id) = entry;
        assert(self@.entries =~= before.entries.update(stream_id as int, view));
        assert(self@.entries =~= put(old(self)@.entries, stream_id as int, view));
        stream_id
    }

    /// Adds an object below an entry of the tree, at the time `now`, and returns
    /// its stream ID.
    pub fn insert_dir_entry_at(
        &mut self,
        parent_id: u32,
        name: &str,
        obj_type: u8,
        now: u64,
    ) -> (id: u32)
        requires
            old(self)@.wf(),
            old(self)@.stored(),
            old(self)@.has_place(),
            reachable(old(self)@.entries).contains(parent_id),
            find(old(self)@.entries, children(old(self)@.entries, parent_id), name@) is None,
            obj_type != OBJ_TYPE_UNALLOCATED,
            utf16_units(name@).len() <= consts::MAX_NAME_UNITS,
        ensures
            id == free_entry(old(self)@.entries),
            final(self)@ == old(self)@.inserted(parent_id, name@, obj_type, now),
            final(self)@.entries == with_object(
                old(self)@.entries,
                parent_id,
                name@,
                obj_type,
                now,
            ),
            ({
                let entry = final(self)@.entries[id as int];
                &&& id < final(self)@.entries.len()
                &&& entry.name == name@
                &&& entry.obj_type == obj_type
                &&& entry.color == 1
                &&& entry.left_sibling == 0xffff_ffff
                &&& entry.right_sibling == 0xffff_ffff
                &&& entry.child == 0xffff_ffff
                &&& entry.clsid == Seq::new(16, |i: int| 0u8)
                &&& entry.state_bits == 0
                &&& entry.creation_time == now
                &&& entry.modified_time == now
                &&& entry.start_sector == if obj_type == 2 {
                    0xffff_fffeu32
                } else {
                    0
                }
                &&& entry.stream_len == 0
            }),
            final(self)@.wf(),
            final(self)@.stored(),
            final(self).file() == old(self).file(),
    {
        let ghost es = self@.entries;
        proof {
            lemma_with_place(old(self)@);
            crate::model::lemma_the_tree(es);
            crate::model::lemma_with_object_tree(es, parent_id, name@, obj_type, now);
        }
        let slot: Slot = self.insertion_place(parent_id, name);

        // Create a new directory entry.
        let ghost fresh = EntryView::created(name@, obj_type, now);
        let stream_id: u32 = self.place_dir_entry(DirEntry::created(name, obj_type, now));
        assert(slot.holder() != stream_id);

        // Insert the new entry into the tree, and write it to the file.
        self.set_link(slot, stream_id);
        assert(self@.entries[stream_id as int] == fresh);
        self.write_dir_entry(stream_id);
        proof {
            assert(self@ == old(self)@.inserted(parent_id, name@, obj_type, now));
            assert(self@.entries =~= with_object(es, parent_id, name@, obj_type, now));
            crate::direntry::lemma_created_entry(name@, obj_type, now);
            assert(self@.entries[stream_id as int] == fresh);
        }
        stream_id
    }

    /// Inserts a new directory entry into the tree under the specified parent
    /// entry, at the present moment, and returns its stream ID.
    pub fn insert_dir_entry(&mut self, parent_id: u32, name: &str, obj_type: u8) -> (id: u32)
        requires
            old(self)@.wf(),
            old(self)@.stored(),
            old(self)@.has_place(),
            reachable(old(self)@.entries).contains(parent_id),
            find(old(self)@.entries, children(old(self)@.entries, parent_id), name@) is None,
            obj_type != OBJ_TYPE_UNALLOCATED,
            utf16_units(name@).len() <= consts::MAX_NAME_UNITS,
        ensures
            id == free_entry(old(self)@.entries),
            exists|now: u64|
                is_timestamp(now) && final(self)@ == #[trigger] old(self)@.inserted(
                    parent_id,
                    name@,
                    obj_type,
                    now,
                ) && final(self)@.entries == with_object(
                    old(self)@.entries,
                    parent_id,
                    name@,
                    obj_type,
                    now,
                ),
            ({
                let entry = final(self)@.entries[id as int];
                &&& id < final(self)@.entries.len()
                &&& entry.name == name@
                &&& entry.obj_type == obj_type
                &&& entry.color == 1
                &&& entry.left_sibling == 0xffff_ffff
                &&& entry.right_sibling == 0xffff_ffff
                &&& entry.child == 0xffff_ffff
                &&& entry.clsid == Seq::new(16, |i: int| 0u8)
                &&& entry.state_bits == 0
                &&& is_timestamp(entry.creation_time)
                &&& entry.modified_time == entry.creation_time
                &&& entry.start_sector == if obj_type == 2 {
                    0xffff_fffeu32
                } else {
                    0
                }
                &&& entry.stream_len == 0
            }),
            final(self)@.wf(),
            final(self)@.stored(),
            final(self).file() == old(self).file(),
    {
        let now: u64 = current_timestamp();
        self.insert_dir_entry_at(parent_id, name, obj_type, now)
    }

    /// Returns the child of an entry with the given name, and the link that leads
    /// to it.
    fn removal_place(&self, parent_id: u32, name: &str) -> (place: (Slot, u32))
        requires
            self@.wf(),
            reachable(self@.entries).contains(parent_id),
            find(self@.entries, children(self@.entries, parent_id), name@) is Some,
        ensures
            place.0 == removal(self@.entries, parent_id, name@).0,
            place.1 == removal(self@.entries, parent_id, name@).1.top(),
    {
        let ghost es = self@.entries;
        let ghost all = children(es, parent_id);
        let ghost mut t = all;
        proof {
            lemma_children_reachable(es, parent_id);
            crate::tree::lemma_target(
                es,
                es[parent_id as int].child,
                all,
                name@,
                Slot::Child(parent_id),
            );
        }
        let mut slot: Slot = Slot::Child(parent_id);
        let mut stream_id: u32 = self.dir_entry(parent_id).child;
        while stream_id != NO_STREAM
            invariant
                es == self@.entries,
                all == children(es, parent_id),
                repr(es, stream_id, t),
                target(es, all, name@, Slot::Child(parent_id)) is Some,
                target(es, all, name@, Slot::Child(parent_id)) == target(es, t, name@, slot),
            decreases t,
        {
            let dir_entry = self.dir_entry(stream_id);
            match compare_names(name, dir_entry.name.as_str()) {
                NameOrder::Equal => {
                    return (slot, stream_id);
                },
                NameOrder::Less => {
                    slot = Slot::Left(stream_id);
                    stream_id = dir_entry.left_sibling;
                    proof {
                        t = t.left();
                    }
                },
                NameOrder::Greater => {
                    slot = Slot::Right(stream_id);
                    stream_id = dir_entry.right_sibling;
                    proof {
                        t = t.right();
                    }
                },
            }
        }
        vstd::pervasive::unreached()
    }

    /// Returns the entry with the greatest name among those on the left of an
    /// entry, and the link that leads to it.
    fn predecessor_place(&self, stream_id: u32) -> (place: (Slot, u32))
        requires
            self@.wf(),
            reachable(self@.entries).contains(stream_id),
            self@.entries[stream_id as int].left_sibling != NO_STREAM,
        ensures
            ({
                let t = tree_at(self@.entries, stream_id);
                let (from, last) = rightmost(t.left(), Slot::Left(stream_id));
                place.0 == from && place.1 == last.top() && place.1 < self@.entries.len()
            }),
    {
        let ghost es = self@.entries;
        let ghost first = tree_at(es, stream_id).left();
        let ghost mut t = first;
        proof {
            crate::model::lemma_the_tree(es);
            crate::tree::lemma_node(es, ROOT_STREAM_ID, tree_at(es, ROOT_STREAM_ID), stream_id);
            crate::tree::lemma_repr_top(es, es[stream_id as int].left_sibling, first);
        }
        let mut slot: Slot = Slot::Left(stream_id);
        let mut predecessor_id: u32 = self.dir_entry(stream_id).left_sibling;
        let mut next_id: u32 = self.dir_entry(predecessor_id).right_sibling;
        while next_id != NO_STREAM
            invariant
                es == self@.entries,
                repr(es, predecessor_id, t),
                t is Node,
                predecessor_id < es.len(),
                next_id == es[predecessor_id as int].right_sibling,
                rightmost(first, Slot::Left(stream_id)) == rightmost(t, slot),
            decreases t,
        {
            proof {
                crate::tree::lemma_repr_top(es, next_id, t.right());
                t = t.right();
            }
            slot = Slot::Right(predecessor_id);
            predecessor_id = next_id;
            next_id = self.dir_entry(predecessor_id).right_sibling;
        }
        proof {
            crate::tree::lemma_repr_top(es, next_id, t.right());
        }
        (slot, predecessor_id)
    }

    /// Removes an object without children from the tree, and clears the entry that
    /// falls out of use.
    pub fn remove_dir_entry(&mut self, parent_id: u32, name: &str)
        requires
            old(self)@.wf(),
            old(self)@.stored(),
            reachable(old(self)@.entries).contains(parent_id),
            old(self)@.can_erase(parent_id, name@),
        ensures
            final(self)@ == old(self)@.erased(parent_id, name@),
            final(self)@.entries == without_object(old(self)@.entries, parent_id, name@),
            final(self)@.wf(),
            final(self)@.stored(),
            final(self).file() == old(self).file(),
    {
        let ghost es = self@.entries;
        let ghost (from, found) = removal(es, parent_id, name@);
        proof {
            lemma_removal(old(self)@, parent_id, name@);
        }
        // Find the directory entry with the given name below the parent.
        let (slot, stream_id) = self.removal_place(parent_id, name);

        // Restructure the tree.
        let left_sibling: u32 = self.dir_entry(stream_id).left_sibling;
        let right_sibling: u32 = self.dir_entry(stream_id).right_sibling;
        if left_sibling == NO_STREAM || right_sibling == NO_STREAM {
            let replacement_id: u32 = if left_sibling == NO_STREAM {
                right_sibling
            } else {
                left_sibling
            };
            self.set_link(slot, replacement_id);
            self.free_dir_entry(stream_id);
        } else {
            let (pred_slot, predecessor_id) = self.predecessor_place(stream_id);
            let mut pred_entry: DirEntry = self.dir_entry(predecessor_id).clone();
            let replacement_id: u32 = pred_entry.left_sibling;
            pred_entry.left_sibling = left_sibling;
            pred_entry.right_sibling = right_sibling;
            self.replace_dir_entry(stream_id, pred_entry);
            self.set_link(pred_slot, replacement_id);
            self.free_dir_entry(predecessor_id);
        }
        proof {
            assert(self@ =~= old(self)@.erased(parent_id, name@));
        }
    }

    /// Inserts a new directory entry as [`Directory::insert_dir_entry`] does, unless
    /// the parent has a child with this name already.
    pub fn try_insert_dir_entry(&mut self, parent_id: u32, name: &str, obj_type: u8) -> (id: Option<
        u32,
    >)
        requires
            old(self)@.wf(),
            old(self)@.stored(),
            old(self)@.has_place(),
            reachable(old(self)@.entries).contains(parent_id),
            obj_type != OBJ_TYPE_UNALLOCATED,
            utf16_units(name@).len() <= consts::MAX_NAME_UNITS,
        ensures
            match id {
                Some(id) => {
                    &&& find(old(self)@.entries, children(old(self)@.entries, parent_id), name@) is None
                    &&& id == free_entry(old(self)@.entries)
                    &&& exists|now: u64|
                        is_timestamp(now) && final(self)@ == #[trigger] old(self)@.inserted(
                            parent_id,
                            name@,
                            obj_type,
                            now,
                        )
                },
                None => {
                    &&& find(old(self)@.entries, children(old(self)@.entries, parent_id), name@) is Some
                    &&& final(self)@ == old(self)@
                },
            },
            id matches Some(id) ==> {
                let entry = final(self)@.entries[id as int];
                &&& id < final(self)@.entries.len()
                &&& entry.name == name@
                &&& entry.obj_type == obj_type
                &&& entry.color == 1
                &&& entry.left_sibling == 0xffff_ffff
                &&& entry.right_sibling == 0xffff_ffff
                &&& entry.child == 0xffff_ffff
                &&& entry.clsid == Seq::new(16, |i: int| 0u8)
                &&& entry.state_bits == 0
                &&& is_timestamp(entry.creation_time)
                &&& entry.modified_time == entry.creation_time
                &&& entry.start_sector == if obj_type == 2 {
                    0xffff_fffeu32
                } else {
                    0
                }
                &&& entry.stream_len == 0
            },
            final(self)@.wf(),
            final(self)@.stored(),
            final(self).file() == old(self).file(),
    {
        match self.find_child(parent_id, name) {
            Some(_) => None,
            None => Some(self.insert_dir_entry(parent_id, name, obj_type)),
        }
    }

    /// Removes an object as [`Directory::remove_dir_entry`] does, if the parent has
    /// a child with this name that can be removed. Tells whether it has.
    pub fn try_remove_dir_entry(&mut self, parent_id: u32, name: &str) -> (done: bool)
        requires
            old(self)@.wf(),
            old(self)@.stored(),
            reachable(old(self)@.entries).contains(parent_id),
        ensures
            done == old(self)@.can_erase(parent_id, name@),
            final(self)@ == if done {
                old(self)@.erased(parent_id, name@)
            } else {
                old(self)@
            },
            final(self)@.wf(),
            final(self)@.stored(),
            final(self).file() == old(self).file(),
    {
        let ghost es = self@.entries;
        let stream_id: u32 = match self.find_child(parent_id, name) {
            Some(stream_id) => stream_id,
            None => {
                return false;
            },
        };
        let dir_entry = self.dir_entry(stream_id);
        if dir_entry.child != NO_STREAM {
            return false;
        }
        proof {
            lemma_children_reachable(es, parent_id);
            let all = children(es, parent_id);
            let found = removal(es, parent_id, name@).1;
            crate::tree::lemma_target(
                es,
                es[parent_id as int].child,
                all,
                name@,
                Slot::Child(parent_id),
            );
            crate::tree::lemma_tree_at(es, stream_id, found);
        }
        if dir_entry.left_sibling != NO_STREAM && dir_entry.right_sibling != NO_STREAM {
            let (_, predecessor_id) = self.predecessor_place(stream_id);
            if !self.dir_entry(predecessor_id).fits() {
                return false;
            }
        }
        self.remove_dir_entry(parent_id, name);
        true
    }

    /// Calls a function with mutable access to an entry in memory, then writes the
    /// entry to the file.
    pub fn with_dir_entry_mut<W>(&mut self, stream_id: u32, func: W) where W: FnOnce(&mut DirEntry)
        requires
            old(self)@.stored(),
            stream_id < old(self)@.entries.len(),
            forall|e: &mut DirEntry|
                (*e)@ == old(self)@.entries[stream_id as int] ==> call_requires(func, (e,)),
            forall|e: &mut DirEntry|
                (*e)@ == old(self)@.entries[stream_id as int] && #[trigger] call_ensures(
                    func,
                    (e,),
                    (),
                ) ==> (*final(e))@.fits(),
        ensures
            exists|e: &mut DirEntry|
                (*e)@ == old(self)@.entries[stream_id as int] && #[trigger] call_ensures(
                    func,
                    (e,),
                    (),
                ) && final(self)@ == old(self)@.entry_written(stream_id, (*final(e))@),
            final(self)@.stored(),
            final(self).file() == old(self).file(),
    {
        assert(self@.entries[stream_id as int] == self.dir_entries@[stream_id as int]@);
        func(&mut self.dir_entries[stream_id as usize]);
        let ghost entry = self.dir_entries@[stream_id as int]@;
        assert(self@.entries =~= old(self)@.entries.update(stream_id as int, entry));
        self.write_dir_entry(stream_id);
        assert(self@ =~= old(self)@.entry_written(stream_id, entry));
    }

    /// Replaces an entry, in memory and in the file, if it fits into its place in the
    /// file and the links from the root still form a tree of entries in use. Tells
    /// whether they do.
    pub fn try_replace_dir_entry(&mut self, stream_id: u32, entry: DirEntry) -> (done: bool)
        requires
            old(self)@.wf(),
            old(self)@.stored(),
            stream_id < old(self)@.entries.len(),
        ensures
            done == (entry@.fits() && has_tree(
                old(self)@.entries.update(stream_id as int, entry@),
            )),
            final(self)@ == if done {
                old(self)@.entry_written(stream_id, entry@)
            } else {
                old(self)@
            },
            final(self)@.wf(),
            final(self)@.stored(),
            final(self).file() == old(self).file(),
    {
        if !entry.fits() {
            return false;
        }
        let before: DirEntry = self.dir_entry(stream_id).clone();
        let ghost view = entry@;
        *self.dir_entry_mut(stream_id) = entry;
        assert(self@.entries =~= old(self)@.entries.update(stream_id as int, view));
        if self.is_tree() {
            self.write_dir_entry(stream_id);
            assert(self@ =~= old(self)@.entry_written(stream_id, view));
            true
        } else {
            *self.dir_entry_mut(stream_id) = before;
            assert(self@.entries =~= old(self)@.entries);
            false
        }
    }

    /// Calls a function with mutable access to the root entry in memory, then
    /// writes the entry to the file.
    pub fn with_root_dir_entry_mut<W>(&mut self, func: W) where W: FnOnce(&mut DirEntry)
        requires
            old(self)@.stored(),
            old(self)@.entries.len() > 0,
            forall|e: &mut DirEntry|
                (*e)@ == old(self)@.entries[ROOT_STREAM_ID as int] ==> call_requires(func, (e,)),
            forall|e: &mut DirEntry|
                (*e)@ == old(self)@.entries[ROOT_STREAM_ID as int] && #[trigger] call_ensures(
                    func,
                    (e,),
                    (),
                ) ==> (*final(e))@.fits(),
        ensures
            exists|e: &mut DirEntry|
                (*e)@ == old(self)@.entries[ROOT_STREAM_ID as int] && #[trigger] call_ensures(
                    func,
                    (e,),
                    (),
                ) && final(self)@ == old(self)@.entry_written(ROOT_STREAM_ID, (*final(e))@),
            final(self)@.stored(),
            final(self).file() == old(self).file(),
    {
        self.with_dir_entry_mut(ROOT_STREAM_ID, func)
    }

    /// Hands out the writes that the file has yet to receive, in order.
    pub fn flush(&mut self) -> (writes: Vec<Write>)
        ensures
            write_views(writes@) == old(self)@.storage.pending,
            final(self)@ == (DirectoryView {
                storage: StorageView { pending: Seq::empty(), ..old(self)@.storage },
                ..old(self)@
            }),
            final(self).file() == old(self).file(),
    {
        self.allocator.flush()
    }
}

/// The children of an entry in the tree form a tree of their own, which lies
/// within the tree.
proof fn lemma_children_reachable(es: Seq<EntryView>, id: u32)
    requires
        has_tree(es),
        reachable(es).contains(id),
    ensures
        id < es.len(),
        id != NO_STREAM,
        repr(es, es[id as int].child, children(es, id)),
        crate::tree::distinct(children(es, id)),
        !ids(children(es, id)).contains(id),
        forall|x: u32| #[trigger]
            ids(children(es, id)).contains(x) ==> reachable(es).contains(x) && x < es.len(),
        es[id as int].child != NO_STREAM ==> reachable(es).contains(es[id as int].child),
{
    crate::model::lemma_the_tree(es);
    let whole = tree_at(es, ROOT_STREAM_ID);
    crate::tree::lemma_children(es, ROOT_STREAM_ID, whole, id);
    crate::tree::lemma_repr_top(es, es[id as int].child, children(es, id));
}

/// The place of an entry is where the chain of the directory has its bytes.
pub proof fn lemma_entry_in_chain(v: Version, sectors: Seq<u32>, i: int)
    requires
        0 <= i,
    ensures
        Chain::position(v, sectors, 128 * i) == entry_position(v, sectors, i),
        128 * i < Chain::size(v, sectors) <==> i < entry_capacity(v, sectors.len() as int),
{
    match v {
        Version::V3 => {
            assert((128 * i) / 512 == i / 4);
            assert((128 * i) % 512 == 128 * (i % 4));
        },
        Version::V4 => {
            assert((128 * i) / 4096 == i / 32);
            assert((128 * i) % 4096 == 128 * (i % 32));
        },
    }
}

/// Finding a place for the next new object leaves the places of all entries where
/// they are, and keeps the directory stored.
pub proof fn lemma_with_place(d: DirectoryView)
    requires
        d.stored(),
        d.has_place(),
    ensures
        ({
            let p = d.with_place();
            &&& p.stored()
            &&& p.storage.version == d.storage.version
            &&& d.sectors().len() <= p.sectors().len()
            &&& forall|i: int| 0 <= i < d.sectors().len() ==> p.sectors()[i] == d.sectors()[i]
            &&& forall|i: int| 0 <= i < d.entries.len() ==> #[trigger] p.entry_at(i) == d.entry_at(i)
            &&& free_entry(d.entries) < entry_capacity(
                p.storage.version,
                p.sectors().len() as int,
            )
            &&& 0 <= free_entry(d.entries) <= d.entries.len()
        }),
{
    let p = d.with_place();
    let v = d.storage.version;
    let n = d.sectors().len() as int;
    crate::model::lemma_free_entry(d.entries, 0);
    lemma_next_entry(v, d.entries.len() as int, n);
    if d.is_full() {
        crate::storage::lemma_chain_extended(d.storage, d.start, SectorInit::Dir);
        assert(p.sectors() == d.sectors().push(d.storage.next_sector()));
        assert(p.sectors().len() == n + 1);
        assert(p.storage.version == v);
        assert(is_chain(p.storage.fat, p.start, p.sectors()));
        assert(p.stored());
        assert forall|i: int| 0 <= i < d.entries.len() implies #[trigger] p.entry_at(i)
            == d.entry_at(i) by {
            lemma_same_place(v, d.sectors(), p.sectors(), i);
        }
    } else {
        assert(p == d);
    }
}

/// Sectors that hold some entries hold one more, unless these fill the last sector;
/// one sector more always does.
proof fn lemma_next_entry(v: Version, len: int, n: int)
    requires
        0 <= len <= entry_capacity(v, n),
    ensures
        len < entry_capacity(v, n + 1),
        len < entry_capacity(v, n) || match v {
            Version::V3 => len % 4 == 0,
            Version::V4 => len % 32 == 0,
        },
{
}

/// The place of an entry depends on the first sectors of the directory alone.
pub proof fn lemma_same_place(v: Version, a: Seq<u32>, b: Seq<u32>, i: int)
    requires
        0 <= i < entry_capacity(v, a.len() as int),
        a.len() <= b.len(),
        forall|k: int| 0 <= k < a.len() ==> b[k] == a[k],
    ensures
        entry_position(v, a, i) == entry_position(v, b, i),
{
}

/// What removing an object comes across: the entry that is found, the one that
/// falls out of use, and the entries whose links change, none of them the root's
/// own place; and what is left of the directory is well-formed.
pub proof fn lemma_removal(d: DirectoryView, parent: u32, name: Seq<char>)
    requires
        d.wf(),
        d.stored(),
        reachable(d.entries).contains(parent),
        d.can_erase(parent, name),
    ensures
        ({
            let es = d.entries;
            let (slot, found) = removal(es, parent, name);
            let (from, last) = rightmost(found.left(), Slot::Left(found.top()));
            &&& found.top() < es.len()
            &&& found.top() != ROOT_STREAM_ID
            &&& reachable(es).contains(found.top())
            &&& tree_at(es, found.top()) == found
            &&& slot.holder() < es.len()
            &&& es[found.top() as int].left_sibling != NO_STREAM && es[found.top() as int].right_sibling
                != NO_STREAM ==> {
                &&& last.top() < es.len()
                &&& last.top() != ROOT_STREAM_ID
                &&& from.holder() < es.len()
            }
            &&& d.erased(parent, name).entries == without_object(es, parent, name)
            &&& d.erased(parent, name).wf()
            &&& d.erased(parent, name).stored()
        }),
{
    let es = d.entries;
    let all = children(es, parent);
    let (slot, found) = removal(es, parent, name);
    let top = found.top();
    lemma_children_reachable(es, parent);
    crate::model::lemma_the_tree(es);
    crate::tree::lemma_target(es, es[parent as int].child, all, name, Slot::Child(parent));
    crate::tree::lemma_tree_at(es, top, found);
    crate::tree::lemma_branch_ids(found);
    crate::tree::lemma_children(es, ROOT_STREAM_ID, tree_at(es, ROOT_STREAM_ID), parent);
    crate::model::lemma_without_object_tree(es, parent, name);
    crate::tree::lemma_repr_top(es, es[top as int].left_sibling, found.left());
    crate::tree::lemma_repr_top(es, es[top as int].right_sibling, found.right());
    if found.left() is Node {
        crate::tree::lemma_rightmost(es, es[top as int].left_sibling, found.left(), Slot::Left(top));
    }
    assert(d.erased(parent, name).entries == without_object(es, parent, name));
}

/// Returns owned copies of a list of names.
fn owned_names(names: &Vec<&str>) -> (owned: Vec<String>)
    ensures
        texts(owned@) == strs(names@),
{
    let mut owned: Vec<String> = Vec::new();
    let mut i: usize = 0;
    while i < names.len()
        invariant
            i <= names@.len(),
            texts(owned@) == strs(names@).take(i as int),
        decreases names@.len() - i,
    {
        let ghost before = texts(owned@);
        owned.push(names[i].to_owned());
        assert(texts(owned@) =~= before.push(names@[i as int]@));
        assert(texts(owned@) =~= strs(names@).take(i + 1));
        i += 1;
    }
    assert(strs(names@).take(i as int) =~= strs(names@));
    owned
}

/// Tells whether two texts are the same.
fn same_text(a: &str, b: &str) -> (same: bool)
    ensures
        same == (a@ == b@),
{
    a.to_owned() == b.to_owned()
}

} // verus!

//! When something can be done, in numbers: which tables are consistent, which sectors form
//! a chain, when there is room, and which objects can be removed.
use crate::directory::DirectoryView;
use crate::direntry::EntryView;
use crate::effects::is_right_way;
use crate::model::{free_entry, removal};
use crate::names::utf16_units;
use crate::storage::{chain_of, free_sector, has_chain, is_chain, StorageView, WriteView};
use crate::tree::{children, find, reachable, rightmost, tree_at, Slot};
use crate::version::Version;
use vstd::prelude::*;

verus! {

/// The tables of a file are consistent exactly if its sectors are not too many, the FAT
/// sectors have a place for the value of every sector, the header and the sectors that
/// list FAT sectors have a place for each of these, every one of them is marked as what it
/// is, and none is listed twice.
pub proof fn lemma_consistent_tables(s: StorageView)
    ensures
        s.wf() <==> {
            let (n, k, m) = (s.fat.len(), s.difat.len(), s.difat_sectors.len());
            &&& n <= 0xffff_fffb
            &&& k <= n
            &&& m <= n
            &&& s.version == Version::V3 ==> n <= 128 * k && k <= 109 + 127 * m
            &&& s.version == Version::V4 ==> n <= 1024 * k && k <= 109 + 1023 * m
            &&& forall|i: int|
                0 <= i < k ==> (#[trigger] s.difat[i]) < n && s.fat[s.difat[i] as int]
                    == 0xffff_fffd
            &&& forall|i: int|
                0 <= i < m ==> (#[trigger] s.difat_sectors[i]) < n
                    && s.fat[s.difat_sectors[i] as int] == 0xffff_fffc
            &&& forall|i: int, j: int| 0 <= i < j < k ==> s.difat[i] != s.difat[j]
            &&& forall|i: int, j: int| 0 <= i < j < m ==> s.difat_sectors[i] != s.difat_sectors[j]
        },
{
    if forall|i: int, j: int| 0 <= i < j < s.difat.len() ==> s.difat[i] != s.difat[j] {
        assert(s.difat.no_duplicates());
    }
    if forall|i: int, j: int|
        0 <= i < j < s.difat_sectors.len() ==> s.difat_sectors[i] != s.difat_sectors[j] {
        assert(s.difat_sectors.no_duplicates());
    }
}

/// Sectors that lead from one to the next, and from the last to the end mark, are the
/// chain that begins with the first of them. The end mark itself begins a chain without
/// sectors.
pub proof fn lemma_sectors_are_chain(s: StorageView, sectors: Seq<u32>)
    requires
        s.wf(),
        forall|i: int| 0 <= i < sectors.len() ==> (#[trigger] sectors[i]) < s.fat.len(),
        forall|i: int|
            0 <= i < sectors.len() - 1 ==> s.fat[(#[trigger] sectors[i]) as int] == sectors[i + 1],
        sectors.len() > 0 ==> s.fat[sectors.last() as int] == 0xffff_fffe,
    ensures
        ({
            let start = if sectors.len() == 0 {
                0xffff_fffe
            } else {
                sectors[0]
            };
            has_chain(s.fat, start) && chain_of(s.fat, start) == sectors
        }),
{
    let start = if sectors.len() == 0 {
        0xffff_fffe
    } else {
        sectors[0]
    };
    assert(is_chain(s.fat, start, sectors));
    crate::storage::lemma_chain_of(s.fat, start, sectors);
}

/// A file has room exactly if a sector is free, or three more sectors would not be too
/// many.
pub proof fn lemma_room_meaning(s: StorageView)
    ensures
        s.has_room() <==> {
            ||| exists|i: int| 0 <= i < s.fat.len() && #[trigger] s.fat[i] == 0xffff_ffff
            ||| s.fat.len() + 3 <= 0xffff_fffb
        },
{
    crate::storage::lemma_free_sector(s.fat, 0);
    let id = free_sector(s.fat);
    if id < s.fat.len() {
        assert(s.fat[id] == 0xffff_ffff);
    }
}

/// A directory has a place for one more object if an entry with a possible number is not
/// in use. Where all are in use, it has one exactly if the next number is possible, and
/// the file has room if the entries fill their sectors.
pub proof fn lemma_place_meaning(d: DirectoryView)
    ensures
        ({
            let n = d.entries.len();
            let unused = exists|i: int|
                0 <= i < n && i < 0xffff_ffff && (#[trigger] d.entries[i]).obj_type == 0;
            let full = match d.storage.version {
                Version::V3 => n % 4 == 0,
                Version::V4 => n % 32 == 0,
            };
            &&& unused ==> d.has_place()
            &&& !unused ==> (d.has_place() <==> n < 0xffff_ffff && (full ==> d.storage.has_room()))
        }),
{
    crate::model::lemma_free_entry(d.entries, 0);
    let id = free_entry(d.entries);
    if id < d.entries.len() {
        assert(d.entries[id].obj_type == 0);
    }
}

/// A directory is stored exactly if the tables are consistent, and its first sector begins
/// a chain that is not empty and has 128 bytes for every entry.
pub proof fn lemma_stored_meaning(d: DirectoryView)
    ensures
        d.stored() <==> {
            &&& d.storage.wf()
            &&& has_chain(d.storage.fat, d.start)
            &&& d.start != 0xffff_fffe
            &&& d.entries.len() * 128 <= chain_of(d.storage.fat, d.start).len()
                * d.storage.version.sector_size()
        },
{
    let n = chain_of(d.storage.fat, d.start).len() as int;
    match d.storage.version {
        Version::V3 => {
            assert(n * d.storage.version.sector_size() == n * 512);
        },
        Version::V4 => {
            assert(n * d.storage.version.sector_size() == n * 4096);
        },
    }
}

/// An entry fits into its place exactly if its name has at most 31 UTF-16 code units and
/// its class identifier 16 bytes.
pub proof fn lemma_fits_meaning(entry: EntryView)
    ensures
        entry.fits() <==> utf16_units(entry.name).len() <= 31 && entry.clsid.len() == 16,
{
}

/// A write is kept behind those before it, and changes nothing else.
pub proof fn lemma_written_meaning(s: StorageView, offset: int, bytes: Seq<u8>)
    ensures
        ({
            let t = s.written(offset, bytes);
            &&& t.version == s.version
            &&& t.fat == s.fat
            &&& t.difat == s.difat
            &&& t.difat_sectors == s.difat_sectors
            &&& t.pending == s.pending.push(WriteView { offset, bytes })
        }),
{
}

/// An object can be removed only if it is there and has no children. It can then be
/// removed if it links to at most one sibling, or the object that is to move into its
/// entry fits there: the one that right links lead to from its left sibling.
pub proof fn lemma_removable(d: DirectoryView, parent: u32, name: Seq<char>)
    requires
        d.wf(),
        reachable(d.entries).contains(parent),
    ensures
        match find(d.entries, children(d.entries, parent), name) {
            None => !d.can_erase(parent, name),
            Some(id) => {
                let entry = d.entries[id as int];
                let (left, right) = (entry.left_sibling, entry.right_sibling);
                &&& entry.child != 0xffff_ffff ==> !d.can_erase(parent, name)
                &&& entry.child == 0xffff_ffff && (left == 0xffff_ffff || right == 0xffff_ffff)
                    ==> d.can_erase(parent, name)
                &&& entry.child == 0xffff_ffff && left != 0xffff_ffff && right != 0xffff_ffff
                    ==> exists|way: Seq<u32>| #[trigger]
                    is_right_way(d.entries, left, way) && (d.can_erase(parent, name)
                        <==> d.entries[way.last() as int].fits())
            },
        },
{
    let es = d.entries;
    let all = children(es, parent);
    let at = Slot::Child(parent);
    crate::model::lemma_the_tree(es);
    crate::tree::lemma_children(es, 0, tree_at(es, 0), parent);
    let way = crate::effects::lemma_search_way(es, es[parent as int].child, all, name, at);
    crate::tree::lemma_target(es, es[parent as int].child, all, name, at);
    if let Some(id) = find(es, all, name) {
        let (slot, found) = removal(es, parent, name);
        let left = es[id as int].left_sibling;
        assert(found.top() == id);
        crate::tree::lemma_repr_top(es, left, found.left());
        if left != 0xffff_ffff {
            let right_way = crate::effects::lemma_right_way(es, left, found.left(), Slot::Left(id));
            assert(right_way.last() == rightmost(found.left(), Slot::Left(id)).1.top());
            assert(is_right_way(es, left, right_way));
        }
    }
}

} // verus!

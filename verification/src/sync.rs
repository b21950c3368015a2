//! The file stays in step with the directory in memory.
//!
//! The writes that a directory hands out, made in order, leave in the file at the
//! place of every entry the bytes of this entry, whatever is done to the directory.
use crate::bytes::u32_le;
use crate::consts;
use crate::consts::{DIFAT_SECTOR, END_OF_CHAIN, FAT_SECTOR, NO_STREAM};
use crate::directory::{entry_capacity, entry_position, DirectoryView};
use crate::direntry::{patched, EntryView};
use crate::model::{free_entry, put, removal};
use crate::storage::{
    cell_sector, chain_of, difat_capacity, fat_capacity, free_sector, has_chain, init_bytes,
    is_chain, listing_sector, sector_start, SectorInit, StorageView, WriteView,
};
use crate::tree::{children, find, reachable, rightmost, Slot};
use crate::version::Version;
use vstd::prelude::*;

verus! {

/// The byte of the file at an offset, after some writes.
pub open spec fn byte_after(file: spec_fn(int) -> u8, writes: Seq<WriteView>, pos: int) -> u8
    decreases writes.len(),
{
    if writes.len() == 0 {
        file(pos)
    } else {
        let w = writes.last();
        if w.offset <= pos < w.offset + w.bytes.len() {
            w.bytes[pos - w.offset]
        } else {
            byte_after(file, writes.drop_last(), pos)
        }
    }
}

/// A part of the file, after some writes.
pub open spec fn region_after(
    file: spec_fn(int) -> u8,
    writes: Seq<WriteView>,
    at: int,
    len: nat,
) -> Seq<u8> {
    Seq::new(len, |i: int| byte_after(file, writes, at + i))
}

/// The file after some writes.
pub open spec fn file_after(file: spec_fn(int) -> u8, writes: Seq<WriteView>) -> spec_fn(
    int,
) -> u8 {
    |pos: int| byte_after(file, writes, pos)
}

/// The entry that belongs at a place of the directory: behind the last entry, one
/// that is not in use.
pub open spec fn entry_for(entries: Seq<EntryView>, i: int) -> EntryView {
    if i < entries.len() {
        entries[i]
    } else {
        EntryView::unallocated()
    }
}

/// The file, once it has received all writes, holds at the place `i` of the directory
/// the entry that belongs there.
pub open spec fn place_in_step(d: DirectoryView, file: spec_fn(int) -> u8, i: int) -> bool {
    region_after(file, d.storage.pending, d.entry_at(i), 128) == entry_for(d.entries, i).bytes()
}

/// The file, once it has received all writes, holds at the place of every entry this
/// entry.
pub open spec fn entries_in_step(d: DirectoryView, file: spec_fn(int) -> u8) -> bool {
    forall|i: int| 0 <= i < d.entries.len() ==> #[trigger] place_in_step(d, file, i)
}

/// The file, once it has received all writes, holds at every place of the directory
/// the entry that belongs there, also at the spare places behind the last entry.
pub open spec fn in_step(d: DirectoryView, file: spec_fn(int) -> u8) -> bool {
    forall|i: int|
        0 <= i < entry_capacity(d.storage.version, d.sectors().len() as int)
            ==> #[trigger] place_in_step(d, file, i)
}

/// What is done to a directory keeps the file in step.
pub open spec fn stays_in_step(
    before: DirectoryView,
    after: DirectoryView,
    file: spec_fn(int) -> u8,
) -> bool {
    &&& entries_in_step(before, file) ==> entries_in_step(after, file)
    &&& in_step(before, file) ==> in_step(after, file)
}

/// A write beside a part of the file leaves it as it is.
pub proof fn lemma_region_beside(
    file: spec_fn(int) -> u8,
    writes: Seq<WriteView>,
    w: WriteView,
    at: int,
    len: nat,
)
    requires
        w.offset + w.bytes.len() <= at || at + len <= w.offset,
    ensures
        region_after(file, writes.push(w), at, len) == region_after(file, writes, at, len),
{
    assert(writes.push(w).drop_last() =~= writes);
    assert(region_after(file, writes.push(w), at, len) =~= region_after(file, writes, at, len));
}

/// A write within a part of the file replaces the bytes there.
pub proof fn lemma_region_within(
    file: spec_fn(int) -> u8,
    writes: Seq<WriteView>,
    w: WriteView,
    at: int,
    len: nat,
)
    requires
        at <= w.offset,
        w.offset + w.bytes.len() <= at + len,
    ensures
        region_after(file, writes.push(w), at, len) == patched(
            region_after(file, writes, at, len),
            w.offset - at,
            w.bytes,
        ),
{
    assert(writes.push(w).drop_last() =~= writes);
    assert(region_after(file, writes.push(w), at, len) =~= patched(
        region_after(file, writes, at, len),
        w.offset - at,
        w.bytes,
    ));
}

/// The places of two entries do not overlap.
pub proof fn lemma_places_apart(v: Version, sectors: Seq<u32>, i: int, j: int)
    requires
        sectors.no_duplicates(),
        0 <= i < entry_capacity(v, sectors.len() as int),
        0 <= j < entry_capacity(v, sectors.len() as int),
        i != j,
    ensures
        entry_position(v, sectors, i) + 128 <= entry_position(v, sectors, j) || entry_position(
            v,
            sectors,
            j,
        ) + 128 <= entry_position(v, sectors, i),
{
    match v {
        Version::V3 => {
            let (a, b) = (i / 4, j / 4);
            assert(0 <= a < sectors.len() && 0 <= b < sectors.len());
            if a != b {
                assert(sectors[a] != sectors[b]);
            }
        },
        Version::V4 => {
            let (a, b) = (i / 32, j / 32);
            assert(0 <= a < sectors.len() && 0 <= b < sectors.len());
            if a != b {
                assert(sectors[a] != sectors[b]);
            }
        },
    }
}

/// Replacing an entry puts it in step, and keeps all other places in step.
proof fn lemma_place_after_entry(
    d: DirectoryView,
    file: spec_fn(int) -> u8,
    id: u32,
    entry: EntryView,
    i: int,
)
    requires
        d.stored(),
        id < d.entries.len(),
        0 <= i < entry_capacity(d.storage.version, d.sectors().len() as int),
        i == id || place_in_step(d, file, i),
    ensures
        place_in_step(d.entry_written(id, entry), file, i),
{
    let e = d.entry_written(id, entry);
    let w = WriteView { offset: d.entry_at(id as int), bytes: entry.bytes() };
    crate::storage::lemma_chain_distinct(d.storage.fat, d.start, d.sectors());
    crate::direntry::lemma_entry_bytes(entry, 0);
    assert(e.entry_at(i) == d.entry_at(i));
    if i == id {
        lemma_region_within(file, d.storage.pending, w, d.entry_at(i), 128);
        assert(patched(
            region_after(file, d.storage.pending, d.entry_at(i), 128),
            0,
            entry.bytes(),
        ) =~= entry.bytes());
    } else {
        lemma_places_apart(d.storage.version, d.sectors(), i, id as int);
        lemma_region_beside(file, d.storage.pending, w, d.entry_at(i), 128);
    }
}

/// Setting a link keeps every place in step.
proof fn lemma_place_after_link(
    d: DirectoryView,
    file: spec_fn(int) -> u8,
    slot: Slot,
    id: u32,
    i: int,
)
    requires
        d.stored(),
        slot.holder() < d.entries.len(),
        0 <= i < entry_capacity(d.storage.version, d.sectors().len() as int),
        place_in_step(d, file, i),
    ensures
        place_in_step(d.link_written(slot, id), file, i),
{
    let e = d.link_written(slot, id);
    let h = slot.holder() as int;
    let w = WriteView { offset: d.entry_at(h) + slot.offset(), bytes: u32_le(id) };
    crate::storage::lemma_chain_distinct(d.storage.fat, d.start, d.sectors());
    crate::direntry::lemma_entry_bytes(d.entries[h], id);
    assert(u32_le(id).len() == 4);
    assert(e.entry_at(i) == d.entry_at(i));
    if i == h {
        lemma_region_within(file, d.storage.pending, w, d.entry_at(i), 128);
    } else {
        lemma_places_apart(d.storage.version, d.sectors(), i, h);
        lemma_region_beside(file, d.storage.pending, w, d.entry_at(i), 128);
    }
}

/// Replacing an entry keeps the file in step.
pub proof fn lemma_entry_written_in_step(
    d: DirectoryView,
    file: spec_fn(int) -> u8,
    id: u32,
    entry: EntryView,
)
    requires
        d.stored(),
        id < d.entries.len(),
    ensures
        stays_in_step(d, d.entry_written(id, entry), file),
        d.entry_written(id, entry).stored(),
{
    let e = d.entry_written(id, entry);
    assert forall|i: int|
        0 <= i < entry_capacity(d.storage.version, d.sectors().len() as int) && place_in_step(
            d,
            file,
            i,
        ) implies #[trigger] place_in_step(e, file, i) by {
        lemma_place_after_entry(d, file, id, entry, i);
    }
    if entries_in_step(d, file) {
        assert forall|i: int| 0 <= i < e.entries.len() implies #[trigger] place_in_step(e, file, i) by {
            assert(place_in_step(d, file, i));
        }
    }
    if in_step(d, file) {
        assert forall|i: int|
            0 <= i < entry_capacity(
                e.storage.version,
                e.sectors().len() as int,
            ) implies #[trigger] place_in_step(e, file, i) by {
            assert(place_in_step(d, file, i));
        }
    }
}

/// Setting a link of an entry keeps the file in step.
pub proof fn lemma_link_written_in_step(
    d: DirectoryView,
    file: spec_fn(int) -> u8,
    slot: Slot,
    id: u32,
)
    requires
        d.stored(),
        slot.holder() < d.entries.len(),
    ensures
        stays_in_step(d, d.link_written(slot, id), file),
        d.link_written(slot, id).stored(),
{
    let e = d.link_written(slot, id);
    assert forall|i: int|
        0 <= i < entry_capacity(d.storage.version, d.sectors().len() as int) && place_in_step(
            d,
            file,
            i,
        ) implies #[trigger] place_in_step(e, file, i) by {
        lemma_place_after_link(d, file, slot, id, i);
    }
    if entries_in_step(d, file) {
        assert forall|i: int| 0 <= i < e.entries.len() implies #[trigger] place_in_step(e, file, i) by {
            assert(place_in_step(d, file, i));
        }
    }
    if in_step(d, file) {
        assert forall|i: int|
            0 <= i < entry_capacity(
                e.storage.version,
                e.sectors().len() as int,
            ) implies #[trigger] place_in_step(e, file, i) by {
            assert(place_in_step(d, file, i));
        }
    }
}

/// Once the file has received all writes, it is in step without any.
pub proof fn lemma_flush_in_step(d: DirectoryView, file: spec_fn(int) -> u8)
    ensures
        ({
            let e = DirectoryView {
                storage: StorageView { pending: Seq::empty(), ..d.storage },
                ..d
            };
            let file2 = file_after(file, d.storage.pending);
            &&& entries_in_step(d, file) ==> entries_in_step(e, file2)
            &&& in_step(d, file) ==> in_step(e, file2)
        }),
{
    let e = DirectoryView { storage: StorageView { pending: Seq::empty(), ..d.storage }, ..d };
    let file2 = file_after(file, d.storage.pending);
    assert forall|i: int| place_in_step(d, file, i) implies #[trigger] place_in_step(e, file2, i) by {
        assert(e.entry_at(i) == d.entry_at(i));
        assert(region_after(file2, e.storage.pending, e.entry_at(i), 128) =~= region_after(
            file,
            d.storage.pending,
            d.entry_at(i),
            128,
        ));
    }
    if entries_in_step(d, file) {
        assert forall|i: int| 0 <= i < e.entries.len() implies #[trigger] place_in_step(
            e,
            file2,
            i,
        ) by {
            assert(place_in_step(d, file, i));
        }
    }
    if in_step(d, file) {
        assert forall|i: int|
            0 <= i < entry_capacity(
                e.storage.version,
                e.sectors().len() as int,
            ) implies #[trigger] place_in_step(e, file2, i) by {
            assert(place_in_step(d, file, i));
        }
    }
}

/// Removing an object keeps the file in step.
pub proof fn lemma_erased_in_step(
    d: DirectoryView,
    file: spec_fn(int) -> u8,
    parent: u32,
    name: Seq<char>,
)
    requires
        d.wf(),
        d.stored(),
        reachable(d.entries).contains(parent),
        d.can_erase(parent, name),
    ensures
        stays_in_step(d, d.erased(parent, name), file),
{
    crate::directory::lemma_removal(d, parent, name);
    let (slot, found) = removal(d.entries, parent, name);
    let top = found.top();
    let left = d.entries[top as int].left_sibling;
    let right = d.entries[top as int].right_sibling;
    let cleared = EntryView::unallocated();
    if left == NO_STREAM || right == NO_STREAM {
        let link = if left == NO_STREAM { right } else { left };
        lemma_link_written_in_step(d, file, slot, link);
        lemma_entry_written_in_step(d.link_written(slot, link), file, top, cleared);
    } else {
        let (from, last) = rightmost(found.left(), Slot::Left(top));
        let moved = d.entries[last.top() as int];
        let entry = moved.with_left(left).with_right(right);
        let one = d.entry_written(top, entry);
        let two = one.link_written(from, moved.left_sibling);
        lemma_entry_written_in_step(d, file, top, entry);
        lemma_link_written_in_step(one, file, from, moved.left_sibling);
        lemma_entry_written_in_step(two, file, last.top(), cleared);
    }
}

/// A write touches none of the given sectors: it lies in the header, or in another
/// sector.
pub open spec fn beside(v: Version, w: WriteView, sectors: Seq<u32>) -> bool {
    ||| 0 <= w.offset && w.offset + w.bytes.len() <= consts::HEADER_LEN
    ||| exists|s: u32|
        !sectors.contains(s) && #[trigger] sector_start(v, s as int) <= w.offset && w.offset
            + w.bytes.len() <= sector_start(v, s as int) + v.sector_size()
}

/// Some writes are followed by others that touch none of the given sectors.
pub open spec fn followed_beside(
    v: Version,
    before: Seq<WriteView>,
    after: Seq<WriteView>,
    sectors: Seq<u32>,
) -> bool {
    &&& before.len() <= after.len()
    &&& after.take(before.len() as int) == before
    &&& forall|k: int| before.len() <= k < after.len() ==> beside(v, #[trigger] after[k], sectors)
}

/// None of the given sectors holds or lists a part of the FAT.
pub open spec fn apart(s: StorageView, sectors: Seq<u32>) -> bool {
    forall|k: int|
        0 <= k < sectors.len() ==> {
            &&& (#[trigger] sectors[k]) < s.fat.len()
            &&& !s.difat.contains(sectors[k])
            &&& !s.difat_sectors.contains(sectors[k])
        }
}

/// One more write that touches none of the given sectors.
pub proof fn lemma_followed_push(
    v: Version,
    before: Seq<WriteView>,
    after: Seq<WriteView>,
    w: WriteView,
    sectors: Seq<u32>,
)
    requires
        followed_beside(v, before, after, sectors),
        beside(v, w, sectors),
    ensures
        followed_beside(v, before, after.push(w), sectors),
{
    assert(after.push(w).take(before.len() as int) =~= before);
}

/// The sectors of a chain are apart from the FAT.
pub proof fn lemma_chain_apart(s: StorageView, start: u32, chain: Seq<u32>)
    requires
        s.wf(),
        is_chain(s.fat, start, chain),
    ensures
        apart(s, chain),
{
    crate::storage::lemma_chain_values(s.fat, start, chain);
    assert forall|k: int| 0 <= k < chain.len() implies {
        &&& (#[trigger] chain[k]) < s.fat.len()
        &&& !s.difat.contains(chain[k])
        &&& !s.difat_sectors.contains(chain[k])
    } by {
        if s.difat.contains(chain[k]) {
            let i = choose|i: int| 0 <= i < s.difat.len() && s.difat[i] == chain[k];
            assert(s.fat[s.difat[i] as int] == FAT_SECTOR);
        }
        if s.difat_sectors.contains(chain[k]) {
            let i = choose|i: int|
                0 <= i < s.difat_sectors.len() && s.difat_sectors[i] == chain[k];
            assert(s.fat[s.difat_sectors[i] as int] == DIFAT_SECTOR);
        }
    }
}

/// A place in a sector is untouched by a write beside this sector.
proof fn lemma_place_untouched(
    v: Version,
    w: WriteView,
    sectors: Seq<u32>,
    k: int,
    at: int,
    len: nat,
)
    requires
        beside(v, w, sectors),
        0 <= k < sectors.len(),
        sector_start(v, sectors[k] as int) <= at,
        at + len <= sector_start(v, sectors[k] as int) + v.sector_size(),
    ensures
        w.offset + w.bytes.len() <= at || at + len <= w.offset,
{
    if !(0 <= w.offset && w.offset + w.bytes.len() <= consts::HEADER_LEN) {
        let s = choose|s: u32|
            !sectors.contains(s) && #[trigger] sector_start(v, s as int) <= w.offset && w.offset
                + w.bytes.len() <= sector_start(v, s as int) + v.sector_size();
        assert(sectors.contains(sectors[k]));
        assert(s != sectors[k]);
    }
}

/// A place in a sector is untouched by writes beside this sector.
pub proof fn lemma_region_followed(
    v: Version,
    file: spec_fn(int) -> u8,
    before: Seq<WriteView>,
    after: Seq<WriteView>,
    sectors: Seq<u32>,
    k: int,
    at: int,
    len: nat,
)
    requires
        followed_beside(v, before, after, sectors),
        0 <= k < sectors.len(),
        sector_start(v, sectors[k] as int) <= at,
        at + len <= sector_start(v, sectors[k] as int) + v.sector_size(),
    ensures
        region_after(file, after, at, len) == region_after(file, before, at, len),
    decreases after.len(),
{
    if after.len() == before.len() {
        assert(after.take(before.len() as int) =~= after);
    } else {
        let rest = after.drop_last();
        let w = after.last();
        assert(w == after[after.len() - 1]);
        assert(rest.push(w) =~= after);
        assert(rest.take(before.len() as int) =~= before);
        assert forall|j: int| before.len() <= j < rest.len() implies beside(
            v,
            #[trigger] rest[j],
            sectors,
        ) by {
            assert(rest[j] == after[j]);
        }
        lemma_region_followed(v, file, before, rest, sectors, k, at, len);
        lemma_place_untouched(v, w, sectors, k, at, len);
        lemma_region_beside(file, rest, w, at, len);
    }
}

/// Setting a FAT value touches no sector that is apart from the FAT.
pub proof fn lemma_fat_set_beside(s: StorageView, i: int, value: u32, sectors: Seq<u32>)
    requires
        apart(s, sectors),
        0 <= i < fat_capacity(s.version, s.difat.len() as int),
    ensures
        beside(
            s.version,
            (WriteView { offset: s.fat_cell(i), bytes: u32_le(value) }),
            sectors,
        ),
{
    let k = cell_sector(s.version, i);
    let f = s.difat[k];
    assert(0 <= k < s.difat.len());
    assert(s.difat.contains(f));
    assert(!sectors.contains(f)) by {
        if sectors.contains(f) {
            let j = choose|j: int| 0 <= j < sectors.len() && sectors[j] == f;
            assert(!s.difat.contains(sectors[j]));
        }
    }
    assert(sector_start(s.version, f as int) <= s.fat_cell(i));
}

/// What a new sector is filled with is as long as the sector.
pub proof fn lemma_init_len(v: Version, init: SectorInit)
    ensures
        init_bytes(v, init).len() == v.sector_size(),
{
}

/// Filling a sector touches no other.
proof fn lemma_fill_beside(v: Version, id: u32, init: SectorInit, sectors: Seq<u32>)
    requires
        !sectors.contains(id),
    ensures
        beside(
            v,
            (WriteView { offset: sector_start(v, id as int), bytes: init_bytes(v, init) }),
            sectors,
        ),
{
    lemma_init_len(v, init);
    assert(sector_start(v, id as int) <= sector_start(v, id as int));
}

/// Growing the DIFAT touches no sector that is apart from it.
proof fn lemma_difat_grown_beside(s: StorageView, before: Seq<WriteView>, sectors: Seq<u32>)
    requires
        apart(s, sectors),
        s.fat.len() < fat_capacity(s.version, s.difat.len() as int),
        s.fat.len() <= consts::MAX_REGULAR_SECTOR,
        followed_beside(s.version, before, s.pending, sectors),
    ensures
        followed_beside(s.version, before, s.difat_grown().pending, sectors),
        apart(s.difat_grown(), sectors),
{
    let v = s.version;
    let id = s.fat.len() as u32;
    let n = s.difat_sectors.len() as int;
    assert(!sectors.contains(id)) by {
        if sectors.contains(id) {
            let j = choose|j: int| 0 <= j < sectors.len() && sectors[j] == id;
            assert(sectors[j] < s.fat.len());
        }
    }
    lemma_fill_beside(v, id, SectorInit::Difat, sectors);
    lemma_followed_push(
        v,
        before,
        s.pending,
        WriteView { offset: sector_start(v, id as int), bytes: init_bytes(v, SectorInit::Difat) },
        sectors,
    );
    let one = s.sector_filled(id as int, SectorInit::Difat);
    lemma_fat_set_beside(one, id as int, DIFAT_SECTOR, sectors);
    lemma_followed_push(
        v,
        before,
        one.pending,
        WriteView { offset: one.fat_cell(id as int), bytes: u32_le(DIFAT_SECTOR) },
        sectors,
    );
    let two = one.fat_set(id as int, DIFAT_SECTOR);
    let link = if n == 0 {
        68
    } else {
        sector_start(v, s.difat_sectors[n - 1] as int) + v.sector_size() - 4
    };
    let w = WriteView { offset: link, bytes: u32_le(id) };
    assert(u32_le(id).len() == 4);
    assert(beside(v, w, sectors)) by {
        if n > 0 {
            let f = s.difat_sectors[n - 1];
            assert(s.difat_sectors.contains(f));
            if sectors.contains(f) {
                let j = choose|j: int| 0 <= j < sectors.len() && sectors[j] == f;
                assert(!s.difat_sectors.contains(sectors[j]));
            }
            assert(sector_start(v, f as int) <= w.offset);
        }
    }
    lemma_followed_push(v, before, two.pending, w, sectors);
    let count = WriteView { offset: 72, bytes: u32_le((n + 1) as u32) };
    assert(count.bytes.len() == 4);
    lemma_followed_push(v, before, two.pending.push(w), count, sectors);
    let t = s.difat_grown();
    assert(t.pending =~= two.pending.push(w).push(count));
    assert forall|k: int| 0 <= k < sectors.len() implies {
        &&& (#[trigger] sectors[k]) < t.fat.len()
        &&& !t.difat.contains(sectors[k])
        &&& !t.difat_sectors.contains(sectors[k])
    } by {
        assert(sectors.contains(sectors[k]));
        if t.difat_sectors.contains(sectors[k]) {
            let j = choose|j: int| 0 <= j < t.difat_sectors.len() && t.difat_sectors[j]
                == sectors[k];
            if j < n {
                assert(s.difat_sectors[j] == sectors[k]);
            }
        }
    }
}

/// Growing the FAT touches no sector that is apart from it.
proof fn lemma_fat_grown_beside(s: StorageView, sectors: Seq<u32>)
    requires
        s.wf(),
        apart(s, sectors),
        s.fat.len() == fat_capacity(s.version, s.difat.len() as int),
        s.fat.len() + 2 <= consts::MAX_REGULAR_SECTOR + 1,
    ensures
        followed_beside(s.version, s.pending, s.fat_grown().pending, sectors),
        apart(s.fat_grown(), sectors),
{
    let v = s.version;
    let id = s.fat.len() as u32;
    let k = s.difat.len() as int;
    let before = s.pending;
    crate::storage::lemma_fat_sector_added(s);
    assert(!sectors.contains(id)) by {
        if sectors.contains(id) {
            let j = choose|j: int| 0 <= j < sectors.len() && sectors[j] == id;
            assert(sectors[j] < s.fat.len());
        }
    }
    assert(before.take(before.len() as int) =~= before);
    lemma_fill_beside(v, id, SectorInit::Fat, sectors);
    lemma_followed_push(
        v,
        before,
        before,
        WriteView { offset: sector_start(v, id as int), bytes: init_bytes(v, SectorInit::Fat) },
        sectors,
    );
    let one = StorageView {
        difat: s.difat.push(id),
        ..s.sector_filled(id as int, SectorInit::Fat)
    };
    assert forall|j: int| 0 <= j < sectors.len() implies {
        &&& (#[trigger] sectors[j]) < one.fat.len()
        &&& !one.difat.contains(sectors[j])
        &&& !one.difat_sectors.contains(sectors[j])
    } by {
        assert(sectors.contains(sectors[j]));
        if one.difat.contains(sectors[j]) {
            let i = choose|i: int| 0 <= i < one.difat.len() && one.difat[i] == sectors[j];
            if i < k {
                assert(s.difat[i] == sectors[j]);
            }
        }
    }
    lemma_fat_set_beside(one, id as int, FAT_SECTOR, sectors);
    lemma_followed_push(
        v,
        before,
        one.pending,
        WriteView { offset: one.fat_cell(id as int), bytes: u32_le(FAT_SECTOR) },
        sectors,
    );
    let added = s.fat_sector_added();
    assert(apart(added, sectors));
    let listed = if k < difat_capacity(v, s.difat_sectors.len() as int) {
        added
    } else {
        lemma_difat_grown_beside(added, before, sectors);
        added.difat_grown()
    };
    assert(followed_beside(v, before, listed.pending, sectors));
    let w = WriteView { offset: listed.difat_cell(k), bytes: u32_le(id) };
    assert(u32_le(id).len() == 4);
    assert(beside(v, w, sectors)) by {
        if k >= consts::NUM_DIFAT_ENTRIES_IN_HEADER {
            let j = listing_sector(v, k);
            assert(0 <= j < listed.difat_sectors.len());
            let f = listed.difat_sectors[j];
            assert(listed.difat_sectors.contains(f));
            if sectors.contains(f) {
                let i = choose|i: int| 0 <= i < sectors.len() && sectors[i] == f;
                assert(!listed.difat_sectors.contains(sectors[i]));
            }
            assert(sector_start(v, f as int) <= w.offset);
        }
    }
    lemma_followed_push(v, before, listed.pending, w, sectors);
    let count = WriteView { offset: 44, bytes: u32_le((k + 1) as u32) };
    assert(count.bytes.len() == 4);
    lemma_followed_push(v, before, listed.pending.push(w), count, sectors);
    assert(s.fat_grown().pending =~= listed.pending.push(w).push(count));
    assert(apart(s.fat_grown(), sectors));
}

/// Taking a sector touches no other sector that is apart from the FAT, and leaves in
/// the sector what it is filled with.
pub proof fn lemma_chain_begun_beside(s: StorageView, init: SectorInit, sectors: Seq<u32>)
    requires
        s.wf(),
        s.has_room(),
        apart(s, sectors),
        !sectors.contains(s.next_sector()),
    ensures
        ({
            let t = s.chain_begun(init);
            &&& followed_beside(s.version, s.pending, t.pending, sectors)
            &&& apart(t, sectors)
            &&& t.pending.len() > 0
            &&& t.pending.last() == (WriteView {
                offset: sector_start(s.version, s.next_sector() as int),
                bytes: init_bytes(s.version, init),
            })
        }),
{
    let v = s.version;
    let id = s.next_sector();
    crate::storage::lemma_free_sector(s.fat, 0);
    assert(s.pending.take(s.pending.len() as int) =~= s.pending);
    let u = if free_sector(s.fat) < s.fat.len() {
        s
    } else {
        if s.fat.len() == fat_capacity(v, s.difat.len() as int) {
            crate::storage::lemma_fat_grown(s);
            lemma_fat_grown_beside(s, sectors);
        }
        s.with_spare_cell()
    };
    assert(followed_beside(v, s.pending, u.pending, sectors));
    assert(apart(u, sectors));
    assert(id < fat_capacity(v, u.difat.len() as int));
    lemma_fat_set_beside(u, id as int, END_OF_CHAIN, sectors);
    lemma_followed_push(
        v,
        s.pending,
        u.pending,
        WriteView { offset: u.fat_cell(id as int), bytes: u32_le(END_OF_CHAIN) },
        sectors,
    );
    let one = u.fat_set(id as int, END_OF_CHAIN);
    lemma_fill_beside(v, id, init, sectors);
    lemma_followed_push(
        v,
        s.pending,
        one.pending,
        WriteView { offset: sector_start(v, id as int), bytes: init_bytes(v, init) },
        sectors,
    );
    assert(apart(s.chain_begun(init), sectors));
}

/// Extending a chain touches none of its sectors, and leaves in the new sector what
/// it is filled with.
pub proof fn lemma_chain_extended_beside(
    s: StorageView,
    file: spec_fn(int) -> u8,
    start: u32,
    init: SectorInit,
)
    requires
        s.wf(),
        s.has_room(),
        has_chain(s.fat, start),
        start != END_OF_CHAIN,
    ensures
        ({
            let t = s.chain_extended(start, init);
            let v = s.version;
            &&& followed_beside(v, s.pending, t.pending, chain_of(s.fat, start))
            &&& region_after(
                file,
                t.pending,
                sector_start(v, s.next_sector() as int),
                v.sector_size() as nat,
            ) == init_bytes(v, init)
        }),
{
    let v = s.version;
    let chain = chain_of(s.fat, start);
    let id = s.next_sector();
    let u = s.chain_begun(init);
    let last = chain.last();
    lemma_chain_apart(s, start, chain);
    crate::storage::lemma_chain_extended(s, start, init);
    crate::storage::lemma_chain_begun(s, init);
    lemma_chain_begun_beside(s, init, chain);
    assert(last == chain[chain.len() - 1] && last < s.fat.len());
    lemma_fat_set_beside(u, last as int, id, chain);
    let w = WriteView { offset: u.fat_cell(last as int), bytes: u32_le(id) };
    lemma_followed_push(v, s.pending, u.pending, w, chain);
    // The new sector is no FAT sector, so that the last write does not touch it.
    let own = seq![id];
    assert(apart(u, own)) by {
        assert forall|k: int| 0 <= k < own.len() implies {
            &&& (#[trigger] own[k]) < u.fat.len()
            &&& !u.difat.contains(own[k])
            &&& !u.difat_sectors.contains(own[k])
        } by {
            if u.difat.contains(id) {
                let i = choose|i: int| 0 <= i < u.difat.len() && u.difat[i] == id;
                assert(u.fat[u.difat[i] as int] == FAT_SECTOR);
            }
            if u.difat_sectors.contains(id) {
                let i = choose|i: int| 0 <= i < u.difat_sectors.len() && u.difat_sectors[i] == id;
                assert(u.fat[u.difat_sectors[i] as int] == DIFAT_SECTOR);
            }
        }
    }
    lemma_fat_set_beside(u, last as int, id, own);
    let at = sector_start(v, id as int);
    let len = v.sector_size() as nat;
    assert(own[0] == id);
    lemma_place_untouched(v, w, own, 0, at, len);
    lemma_region_beside(file, u.pending, w, at, len);
    lemma_init_len(v, init);
    assert(region_after(file, u.pending, at, len) =~= init_bytes(v, init));
}

/// The place of an entry lies in a sector of the directory.
pub proof fn lemma_place_in_sector(v: Version, sectors: Seq<u32>, i: int) -> (k: int)
    requires
        0 <= i < entry_capacity(v, sectors.len() as int),
    ensures
        0 <= k < sectors.len(),
        sector_start(v, sectors[k] as int) <= entry_position(v, sectors, i),
        entry_position(v, sectors, i) + 128 <= sector_start(v, sectors[k] as int) + v.sector_size(),
{
    match v {
        Version::V3 => i / 4,
        Version::V4 => i / 32,
    }
}

/// A new sector of the directory holds entries that are not in use.
proof fn lemma_fresh_entry(
    v: Version,
    file: spec_fn(int) -> u8,
    writes: Seq<WriteView>,
    id: u32,
    j: int,
)
    requires
        region_after(file, writes, sector_start(v, id as int), v.sector_size() as nat)
            == init_bytes(v, SectorInit::Dir),
        0 <= j < v.entries_per_sector(),
    ensures
        region_after(file, writes, sector_start(v, id as int) + 128 * j, 128)
            == EntryView::unallocated().bytes(),
{
    let at = sector_start(v, id as int);
    let whole = region_after(file, writes, at, v.sector_size() as nat);
    let empty = EntryView::unallocated().bytes();
    crate::direntry::lemma_entry_bytes(EntryView::unallocated(), 0);
    assert forall|n: int| 0 <= n < 128 implies byte_after(file, writes, at + 128 * j + n)
        == empty[n] by {
        assert(whole[128 * j + n] == byte_after(file, writes, at + (128 * j + n)));
        assert((128 * j + n) % 128 == n);
        assert(init_bytes(v, SectorInit::Dir)[128 * j + n] == empty[n]);
    }
    assert(region_after(file, writes, at + 128 * j, 128) =~= empty);
}

/// Finding a place for the next new object keeps the places that there were in step.
proof fn lemma_place_after_growth(d: DirectoryView, file: spec_fn(int) -> u8, i: int)
    requires
        d.stored(),
        d.has_place(),
        0 <= i < entry_capacity(d.storage.version, d.sectors().len() as int),
        place_in_step(d, file, i),
    ensures
        place_in_step(d.with_place(), file, i),
{
    let p = d.with_place();
    let v = d.storage.version;
    if d.is_full() {
        let chain = d.sectors();
        crate::storage::lemma_chain_extended(d.storage, d.start, SectorInit::Dir);
        lemma_chain_extended_beside(d.storage, file, d.start, SectorInit::Dir);
        let k = lemma_place_in_sector(v, chain, i);
        assert(p.entry_at(i) == d.entry_at(i)) by {
            crate::directory::lemma_same_place(v, chain, p.sectors(), i);
        }
        lemma_region_followed(
            v,
            file,
            d.storage.pending,
            p.storage.pending,
            chain,
            k,
            d.entry_at(i),
            128,
        );
    }
}

/// Finding a place for the next new object keeps the file in step: if the directory
/// grows by a sector, this holds entries that are not in use.
pub proof fn lemma_with_place_in_step(d: DirectoryView, file: spec_fn(int) -> u8)
    requires
        d.stored(),
        d.has_place(),
    ensures
        stays_in_step(d, d.with_place(), file),
{
    let p = d.with_place();
    let v = d.storage.version;
    let old_capacity = entry_capacity(v, d.sectors().len() as int);
    crate::directory::lemma_with_place(d);
    if entries_in_step(d, file) {
        assert forall|i: int| 0 <= i < p.entries.len() implies #[trigger] place_in_step(p, file, i) by {
            assert(place_in_step(d, file, i));
            lemma_place_after_growth(d, file, i);
        }
    }
    if in_step(d, file) && d.is_full() {
        let id = d.storage.next_sector();
        crate::storage::lemma_chain_extended(d.storage, d.start, SectorInit::Dir);
        lemma_chain_extended_beside(d.storage, file, d.start, SectorInit::Dir);
        assert forall|i: int|
            0 <= i < entry_capacity(v, p.sectors().len() as int) implies #[trigger] place_in_step(
            p,
            file,
            i,
        ) by {
            if i < old_capacity {
                assert(place_in_step(d, file, i));
                lemma_place_after_growth(d, file, i);
            } else {
                lemma_fresh_entry(v, file, p.storage.pending, id, i - old_capacity);
                assert(p.entry_at(i) == sector_start(v, id as int) + 128 * (i - old_capacity));
            }
        }
    }
}

/// Adding an object keeps the file in step.
pub proof fn lemma_inserted_in_step(
    d: DirectoryView,
    file: spec_fn(int) -> u8,
    parent: u32,
    name: Seq<char>,
    obj_type: u8,
    now: u64,
)
    requires
        d.wf(),
        d.stored(),
        d.has_place(),
        reachable(d.entries).contains(parent),
        find(d.entries, children(d.entries, parent), name) is None,
        obj_type != consts::OBJ_TYPE_UNALLOCATED,
    ensures
        stays_in_step(d, d.inserted(parent, name, obj_type, now), file),
{
    let e = d.inserted(parent, name, obj_type, now);
    let p = d.with_place();
    crate::directory::lemma_with_place(d);
    lemma_with_place_in_step(d, file);
    crate::model::lemma_free_entry(d.entries, 0);
    lemma_place_after_adding(d, file, parent, name, obj_type, now);
    if entries_in_step(d, file) {
        assert forall|i: int| 0 <= i < e.entries.len() implies #[trigger] place_in_step(e, file, i) by {
            if i < d.entries.len() {
                assert(place_in_step(p, file, i));
            }
        }
    }
    if in_step(d, file) {
        assert forall|i: int|
            0 <= i < entry_capacity(
                e.storage.version,
                e.sectors().len() as int,
            ) implies #[trigger] place_in_step(e, file, i) by {
            assert(place_in_step(p, file, i));
        }
    }
}

/// Adding an object puts its place in step, and keeps all other places in step that
/// were so once it had found its place.
proof fn lemma_place_after_adding(
    d: DirectoryView,
    file: spec_fn(int) -> u8,
    parent: u32,
    name: Seq<char>,
    obj_type: u8,
    now: u64,
)
    requires
        d.wf(),
        d.stored(),
        d.has_place(),
        reachable(d.entries).contains(parent),
        find(d.entries, children(d.entries, parent), name) is None,
        obj_type != consts::OBJ_TYPE_UNALLOCATED,
    ensures
        ({
            let e = d.inserted(parent, name, obj_type, now);
            let p = d.with_place();
            let id = free_entry(d.entries);
            &&& e.sectors() == p.sectors()
            &&& e.storage.version == p.storage.version
            &&& e.entries.len() == if id < d.entries.len() {
                d.entries.len()
            } else {
                d.entries.len() + 1
            }
            &&& forall|i: int|
                0 <= i < entry_capacity(p.storage.version, p.sectors().len() as int) && (i == id
                    || place_in_step(p, file, i)) ==> #[trigger] place_in_step(e, file, i)
        }),
{
    let es = d.entries;
    let id = free_entry(es) as u32;
    let entry = EntryView::created(name, obj_type, now);
    let slot = crate::model::insertion_slot(es, parent, name);
    let p = d.with_place();
    crate::directory::lemma_with_place(d);
    crate::model::lemma_free_entry(es, 0);
    crate::model::lemma_with_object_tree(es, parent, name, obj_type, now);
    crate::model::lemma_the_tree(es);
    let placed = DirectoryView { entries: put(es, id as int, entry), ..p };
    assert(placed.stored());
    let linked = placed.link_written(slot, id);
    assert(linked.stored());
    let e = linked.entry_written(id, entry);
    assert(e == d.inserted(parent, name, obj_type, now));
    assert forall|i: int|
        0 <= i < entry_capacity(p.storage.version, p.sectors().len() as int) && (i == id
            || place_in_step(p, file, i)) implies #[trigger] place_in_step(e, file, i) by {
        if i != id {
            assert(placed.entry_at(i) == p.entry_at(i));
            assert(entry_for(placed.entries, i) == entry_for(p.entries, i));
            lemma_place_after_link(placed, file, slot, id, i);
        }
        lemma_place_after_entry(linked, file, id, entry, i);
    }
}

} // verus!

//! What an operation leaves in the file as it is: the sectors of all other chains, and all
//! of the header but the numbers that belong to the file allocation table (FAT).
use crate::bytes::u32_le;
use crate::consts::{DIFAT_SECTOR, END_OF_CHAIN, FAT_SECTOR, FREE_SECTOR, NO_STREAM};
use crate::direntry::EntryView;
use crate::directory::DirectoryView;
use crate::model::{free_entry, insertion_slot, put, removal};
use crate::storage::{
    chain_of, difat_capacity, free_sector, has_chain, init_bytes, is_chain, sector_start,
    SectorInit, StorageView, WriteView,
};
use crate::sync::{apart, beside, followed_beside, region_after};
use crate::tree::{children, find, reachable, rightmost, Slot};
use vstd::prelude::*;

verus! {

/// A part of the file holds after some writes what it holds after others.
pub open spec fn kept(
    file: spec_fn(int) -> u8,
    before: Seq<WriteView>,
    after: Seq<WriteView>,
    at: int,
    len: nat,
) -> bool {
    region_after(file, after, at, len) == region_after(file, before, at, len)
}

/// The sector `x` is in a chain, if the tables are right.
pub open spec fn is_taken(s: StorageView, x: u32) -> bool {
    &&& x < s.fat.len()
    &&& s.fat[x as int] != 0xffff_ffff
    &&& s.fat[x as int] != 0xffff_fffd
    &&& s.fat[x as int] != 0xffff_fffc
}

/// The sector `x` holds what it did.
pub open spec fn sector_kept(
    s: StorageView,
    t: StorageView,
    file: spec_fn(int) -> u8,
    x: u32,
) -> bool {
    kept(
        file,
        s.pending,
        t.pending,
        sector_start(s.version, x as int),
        s.version.sector_size() as nat,
    )
}

/// The header holds what it did, but for the number of FAT sectors at offset 44, and the
/// list of these and what belongs to it from offset 68 on.
pub open spec fn header_kept(s: StorageView, t: StorageView, file: spec_fn(int) -> u8) -> bool {
    &&& kept(file, s.pending, t.pending, 0, 44)
    &&& kept(file, s.pending, t.pending, 48, 20)
}

proof fn lemma_followed_keeps(s: StorageView, t: StorageView, file: spec_fn(int) -> u8, x: u32)
    requires
        followed_beside(s.version, s.pending, t.pending, seq![x]),
    ensures
        sector_kept(s, t, file, x),
{
    assert(seq![x][0] == x);
    crate::sync::lemma_region_followed(
        s.version,
        file,
        s.pending,
        t.pending,
        seq![x],
        0,
        sector_start(s.version, x as int),
        s.version.sector_size() as nat,
    );
}

proof fn lemma_taken_apart(s: StorageView, x: u32)
    requires
        s.wf(),
        is_taken(s, x),
    ensures
        apart(s, seq![x]),
{
    if s.difat.contains(x) {
        let i = choose|i: int| 0 <= i < s.difat.len() && s.difat[i] == x;
        assert(s.fat[s.difat[i] as int] == FAT_SECTOR);
    }
    if s.difat_sectors.contains(x) {
        let i = choose|i: int| 0 <= i < s.difat_sectors.len() && s.difat_sectors[i] == x;
        assert(s.fat[s.difat_sectors[i] as int] == DIFAT_SECTOR);
    }
}

proof fn lemma_begun_followed(s: StorageView, init: SectorInit, x: u32)
    requires
        s.wf(),
        s.has_room(),
        is_taken(s, x),
    ensures
        followed_beside(s.version, s.pending, s.chain_begun(init).pending, seq![x]),
        apart(s.chain_begun(init), seq![x]),
{
    lemma_taken_apart(s, x);
    crate::storage::lemma_chain_begun(s, init);
    assert(!seq![x].contains(s.next_sector())) by {
        if seq![x].contains(s.next_sector()) {
            assert(x == s.next_sector());
        }
    }
    crate::sync::lemma_chain_begun_beside(s, init, seq![x]);
}

/// Beginning a chain leaves all other chains in the file as they are.
pub proof fn lemma_begun_keeps(s: StorageView, file: spec_fn(int) -> u8, init: SectorInit, x: u32)
    requires
        s.wf(),
        s.has_room(),
        is_taken(s, x),
    ensures
        sector_kept(s, s.chain_begun(init), file, x),
{
    lemma_begun_followed(s, init, x);
    lemma_followed_keeps(s, s.chain_begun(init), file, x);
}

proof fn lemma_extended_followed(s: StorageView, start: u32, init: SectorInit, x: u32)
    requires
        s.wf(),
        s.has_room(),
        has_chain(s.fat, start),
        start != END_OF_CHAIN,
        is_taken(s, x),
    ensures
        followed_beside(s.version, s.pending, s.chain_extended(start, init).pending, seq![x]),
{
    let u = s.chain_begun(init);
    let last = chain_of(s.fat, start).last();
    lemma_begun_followed(s, init, x);
    crate::storage::lemma_chain_begun(s, init);
    assert(last == chain_of(s.fat, start)[chain_of(s.fat, start).len() - 1]);
    crate::sync::lemma_fat_set_beside(u, last as int, s.next_sector(), seq![x]);
    crate::sync::lemma_followed_push(
        s.version,
        s.pending,
        u.pending,
        WriteView { offset: u.fat_cell(last as int), bytes: u32_le(s.next_sector()) },
        seq![x],
    );
}

/// Extending a chain leaves what it held, and all other chains, in the file as they are.
pub proof fn lemma_extended_keeps(
    s: StorageView,
    file: spec_fn(int) -> u8,
    start: u32,
    init: SectorInit,
    x: u32,
)
    requires
        s.wf(),
        s.has_room(),
        has_chain(s.fat, start),
        start != END_OF_CHAIN,
        is_taken(s, x),
    ensures
        sector_kept(s, s.chain_extended(start, init), file, x),
{
    lemma_extended_followed(s, start, init, x);
    lemma_followed_keeps(s, s.chain_extended(start, init), file, x);
}

/// Giving up a chain leaves all sectors but those of the FAT in the file as they are.
pub proof fn lemma_freed_keeps(s: StorageView, file: spec_fn(int) -> u8, start: u32, x: u32)
    requires
        s.wf(),
        has_chain(s.fat, start),
        is_taken(s, x),
    ensures
        sector_kept(s, s.chain_freed(start), file, x),
{
    let chain = chain_of(s.fat, start);
    lemma_taken_apart(s, x);
    lemma_sectors_freed_followed(s, start, chain, chain.len() as int, x);
    assert(chain.take(chain.len() as int) =~= chain);
    lemma_followed_keeps(s, s.chain_freed(start), file, x);
}

proof fn lemma_sectors_freed_followed(
    s: StorageView,
    start: u32,
    chain: Seq<u32>,
    n: int,
    x: u32,
)
    requires
        s.wf(),
        is_chain(s.fat, start, chain),
        0 <= n <= chain.len(),
        apart(s, seq![x]),
    ensures
        followed_beside(s.version, s.pending, s.sectors_freed(chain.take(n)).pending, seq![x]),
    decreases n,
{
    if n == 0 {
        assert(chain.take(0) =~= Seq::<u32>::empty());
        assert(s.pending.take(s.pending.len() as int) =~= s.pending);
    } else {
        lemma_sectors_freed_followed(s, start, chain, n - 1, x);
        crate::storage::lemma_sectors_freed(s, start, chain, n - 1);
        let u = s.sectors_freed(chain.take(n - 1));
        let c = chain[n - 1];
        assert(chain.take(n).drop_last() =~= chain.take(n - 1));
        assert(c < s.fat.len());
        assert(apart(u, seq![x])) by {
            assert(seq![x][0] == x);
        }
        crate::sync::lemma_fat_set_beside(u, c as int, FREE_SECTOR, seq![x]);
        crate::sync::lemma_followed_push(
            s.version,
            s.pending,
            u.pending,
            WriteView { offset: u.fat_cell(c as int), bytes: u32_le(FREE_SECTOR) },
            seq![x],
        );
    }
}

proof fn lemma_entry_beside(d: DirectoryView, i: int, w: WriteView, x: u32)
    requires
        d.stored(),
        0 <= i < d.entries.len(),
        d.entry_at(i) <= w.offset,
        w.offset + w.bytes.len() <= d.entry_at(i) + 128,
        !d.sectors().contains(x),
    ensures
        beside(d.storage.version, w, seq![x]),
{
    let v = d.storage.version;
    let k = crate::sync::lemma_place_in_sector(v, d.sectors(), i);
    let y = d.sectors()[k];
    assert(d.sectors().contains(y));
    assert(!seq![x].contains(y)) by {
        if seq![x].contains(y) {
            assert(x == y);
        }
    }
    assert(sector_start(v, y as int) <= w.offset);
}

proof fn lemma_entry_written_followed(
    d: DirectoryView,
    before: Seq<WriteView>,
    id: u32,
    entry: EntryView,
    x: u32,
)
    requires
        d.stored(),
        id < d.entries.len(),
        !d.sectors().contains(x),
        followed_beside(d.storage.version, before, d.storage.pending, seq![x]),
    ensures
        followed_beside(
            d.storage.version,
            before,
            d.entry_written(id, entry).storage.pending,
            seq![x],
        ),
{
    let w = WriteView { offset: d.entry_at(id as int), bytes: entry.bytes() };
    crate::direntry::lemma_entry_bytes(entry, 0);
    lemma_entry_beside(d, id as int, w, x);
    crate::sync::lemma_followed_push(d.storage.version, before, d.storage.pending, w, seq![x]);
}

proof fn lemma_link_written_followed(
    d: DirectoryView,
    before: Seq<WriteView>,
    slot: Slot,
    id: u32,
    x: u32,
)
    requires
        d.stored(),
        slot.holder() < d.entries.len(),
        !d.sectors().contains(x),
        followed_beside(d.storage.version, before, d.storage.pending, seq![x]),
    ensures
        followed_beside(
            d.storage.version,
            before,
            d.link_written(slot, id).storage.pending,
            seq![x],
        ),
{
    let h = slot.holder() as int;
    let w = WriteView { offset: d.entry_at(h) + slot.offset(), bytes: u32_le(id) };
    assert(u32_le(id).len() == 4);
    lemma_entry_beside(d, h, w, x);
    crate::sync::lemma_followed_push(d.storage.version, before, d.storage.pending, w, seq![x]);
}

/// Replacing an entry leaves all sectors but those of the directory in the file as they
/// are.
pub proof fn lemma_replacing_keeps(
    d: DirectoryView,
    file: spec_fn(int) -> u8,
    id: u32,
    entry: EntryView,
    x: u32,
)
    requires
        d.stored(),
        id < d.entries.len(),
        !d.sectors().contains(x),
    ensures
        sector_kept(d.storage, d.entry_written(id, entry).storage, file, x),
{
    let before = d.storage.pending;
    assert(before.take(before.len() as int) =~= before);
    lemma_entry_written_followed(d, before, id, entry, x);
    lemma_followed_keeps(d.storage, d.entry_written(id, entry).storage, file, x);
}

/// Adding an object leaves all other chains in the file as they are.
pub proof fn lemma_adding_keeps(
    d: DirectoryView,
    file: spec_fn(int) -> u8,
    parent: u32,
    name: Seq<char>,
    obj_type: u8,
    now: u64,
    x: u32,
)
    requires
        d.wf(),
        d.stored(),
        d.has_place(),
        reachable(d.entries).contains(parent),
        find(d.entries, children(d.entries, parent), name) is None,
        obj_type != 0,
        is_taken(d.storage, x),
        !d.sectors().contains(x),
    ensures
        sector_kept(d.storage, d.inserted(parent, name, obj_type, now).storage, file, x),
{
    let es = d.entries;
    let id = free_entry(es);
    let entry = EntryView::created(name, obj_type, now);
    let slot = insertion_slot(es, parent, name);
    let before = d.storage.pending;
    let p = d.with_place();
    assert(before.take(before.len() as int) =~= before);
    crate::directory::lemma_with_place(d);
    crate::model::lemma_free_entry(es, 0);
    crate::model::lemma_with_object_tree(es, parent, name, obj_type, now);
    crate::model::lemma_the_tree(es);
    if d.is_full() {
        lemma_extended_followed(d.storage, d.start, SectorInit::Dir, x);
        crate::storage::lemma_chain_begun(d.storage, SectorInit::Dir);
        crate::storage::lemma_chain_extended(d.storage, d.start, SectorInit::Dir);
    }
    assert(!p.sectors().contains(x));
    let placed = DirectoryView { entries: put(es, id, entry), ..p };
    assert(placed.stored());
    lemma_link_written_followed(placed, before, slot, id as u32, x);
    let linked = placed.link_written(slot, id as u32);
    lemma_entry_written_followed(linked, before, id as u32, entry, x);
    lemma_followed_keeps(
        d.storage,
        d.inserted(parent, name, obj_type, now).storage,
        file,
        x,
    );
}

/// Removing an object leaves all sectors but those of the directory in the file as they
/// are.
pub proof fn lemma_removing_keeps(
    d: DirectoryView,
    file: spec_fn(int) -> u8,
    parent: u32,
    name: Seq<char>,
    x: u32,
)
    requires
        d.wf(),
        d.stored(),
        reachable(d.entries).contains(parent),
        d.can_erase(parent, name),
        !d.sectors().contains(x),
    ensures
        sector_kept(d.storage, d.erased(parent, name).storage, file, x),
{
    crate::directory::lemma_removal(d, parent, name);
    let before = d.storage.pending;
    assert(before.take(before.len() as int) =~= before);
    let (slot, found) = removal(d.entries, parent, name);
    let top = found.top();
    let left = d.entries[top as int].left_sibling;
    let right = d.entries[top as int].right_sibling;
    let cleared = EntryView::unallocated();
    if left == NO_STREAM || right == NO_STREAM {
        let link = if left == NO_STREAM {
            right
        } else {
            left
        };
        lemma_link_written_followed(d, before, slot, link, x);
        lemma_entry_written_followed(d.link_written(slot, link), before, top, cleared, x);
    } else {
        let (from, last) = rightmost(found.left(), Slot::Left(top));
        let moved = d.entries[last.top() as int];
        let entry = moved.with_left(left).with_right(right);
        let one = d.entry_written(top, entry);
        let two = one.link_written(from, moved.left_sibling);
        lemma_entry_written_followed(d, before, top, entry, x);
        lemma_link_written_followed(one, before, from, moved.left_sibling, x);
        lemma_entry_written_followed(two, before, last.top(), cleared, x);
    }
    lemma_followed_keeps(d.storage, d.erased(parent, name).storage, file, x);
}

/// A write in a sector, in the list of FAT sectors, or over the number of these, leaves
/// the rest of the header as it is.
proof fn lemma_header_write(
    s: StorageView,
    t: StorageView,
    u: StorageView,
    file: spec_fn(int) -> u8,
    w: WriteView,
)
    requires
        header_kept(s, t, file),
        u.pending == t.pending.push(w),
        w.offset >= 68 || (w.offset == 44 && w.bytes.len() == 4),
    ensures
        header_kept(s, u, file),
{
    crate::sync::lemma_region_beside(file, t.pending, w, 0, 44);
    crate::sync::lemma_region_beside(file, t.pending, w, 48, 20);
}

proof fn lemma_header_fat_set(
    s: StorageView,
    t: StorageView,
    file: spec_fn(int) -> u8,
    i: int,
    value: u32,
)
    requires
        header_kept(s, t, file),
        i >= 0,
    ensures
        header_kept(s, t.fat_set(i, value), file),
{
    let w = WriteView { offset: t.fat_cell(i), bytes: u32_le(value) };
    lemma_header_write(s, t, t.fat_set(i, value), file, w);
}

proof fn lemma_header_filled(
    s: StorageView,
    t: StorageView,
    file: spec_fn(int) -> u8,
    id: int,
    init: SectorInit,
)
    requires
        header_kept(s, t, file),
        id >= 0,
    ensures
        header_kept(s, t.sector_filled(id, init), file),
{
    let w = WriteView { offset: sector_start(t.version, id), bytes: init_bytes(t.version, init) };
    lemma_header_write(s, t, t.sector_filled(id, init), file, w);
}

proof fn lemma_header_difat_grown(s: StorageView, t: StorageView, file: spec_fn(int) -> u8)
    requires
        header_kept(s, t, file),
    ensures
        header_kept(s, t.difat_grown(), file),
{
    let id = t.fat.len() as int;
    let n = t.difat_sectors.len() as int;
    let link = if n == 0 {
        68
    } else {
        sector_start(t.version, t.difat_sectors[n - 1] as int) + t.version.sector_size() - 4
    };
    let one = t.sector_filled(id, SectorInit::Difat);
    let two = one.fat_set(id, DIFAT_SECTOR);
    lemma_header_filled(s, t, file, id, SectorInit::Difat);
    lemma_header_fat_set(s, one, file, id, DIFAT_SECTOR);
    let three = StorageView { difat_sectors: t.difat_sectors.push(id as u32), ..two }.written(
        link,
        u32_le(id as u32),
    );
    lemma_header_write(s, two, three, file, WriteView { offset: link, bytes: u32_le(id as u32) });
    lemma_header_write(
        s,
        three,
        t.difat_grown(),
        file,
        WriteView { offset: 72, bytes: u32_le((n + 1) as u32) },
    );
}

proof fn lemma_header_fat_grown(s: StorageView, file: spec_fn(int) -> u8)
    ensures
        header_kept(s, s.fat_grown(), file),
{
    let id = s.fat.len() as int;
    let k = s.difat.len() as int;
    let one = s.sector_filled(id, SectorInit::Fat);
    let two = StorageView { difat: s.difat.push(id as u32), ..one };
    lemma_header_filled(s, s, file, id, SectorInit::Fat);
    assert(header_kept(s, two, file));
    lemma_header_fat_set(s, two, file, id, FAT_SECTOR);
    let added = s.fat_sector_added();
    let listed = if k < difat_capacity(s.version, s.difat_sectors.len() as int) {
        added
    } else {
        lemma_header_difat_grown(s, added, file);
        added.difat_grown()
    };
    let cell = WriteView { offset: listed.difat_cell(k), bytes: u32_le(id as u32) };
    let count = WriteView { offset: 44, bytes: u32_le((k + 1) as u32) };
    assert(count.bytes.len() == 4);
    assert(k >= 109 ==> crate::storage::listing_offset(s.version, k) >= 0);
    let four = listed.written(cell.offset, cell.bytes);
    lemma_header_write(s, listed, four, file, cell);
    lemma_header_write(s, four, s.fat_grown(), file, count);
}

/// Beginning a chain leaves all of the header as it is but what belongs to the FAT.
pub proof fn lemma_begun_keeps_header(s: StorageView, file: spec_fn(int) -> u8, init: SectorInit)
    requires
        s.wf(),
        s.has_room(),
    ensures
        header_kept(s, s.chain_begun(init), file),
{
    crate::storage::lemma_free_sector(s.fat, 0);
    let u = if free_sector(s.fat) < s.fat.len() {
        s
    } else {
        lemma_header_fat_grown(s, file);
        s.with_spare_cell()
    };
    let id = s.next_sector() as int;
    assert(header_kept(s, u, file));
    lemma_header_fat_set(s, u, file, id, END_OF_CHAIN);
    lemma_header_filled(s, u.fat_set(id, END_OF_CHAIN), file, id, init);
}

/// Extending a chain leaves all of the header as it is but what belongs to the FAT.
pub proof fn lemma_extended_keeps_header(
    s: StorageView,
    file: spec_fn(int) -> u8,
    start: u32,
    init: SectorInit,
)
    requires
        s.wf(),
        s.has_room(),
    ensures
        header_kept(s, s.chain_extended(start, init), file),
{
    lemma_begun_keeps_header(s, file, init);
    lemma_header_fat_set(
        s,
        s.chain_begun(init),
        file,
        chain_of(s.fat, start).last() as int,
        s.next_sector(),
    );
}

/// Giving up a chain leaves the whole header as it is.
pub proof fn lemma_freed_keeps_header(s: StorageView, file: spec_fn(int) -> u8, start: u32)
    ensures
        kept(file, s.pending, s.chain_freed(start).pending, 0, 512),
{
    lemma_sectors_freed_header(s, file, chain_of(s.fat, start));
}

proof fn lemma_sectors_freed_header(s: StorageView, file: spec_fn(int) -> u8, chain: Seq<u32>)
    ensures
        kept(file, s.pending, s.sectors_freed(chain).pending, 0, 512),
    decreases chain.len(),
{
    if chain.len() > 0 {
        let u = s.sectors_freed(chain.drop_last());
        let c = chain.last() as int;
        lemma_sectors_freed_header(s, file, chain.drop_last());
        let w = WriteView { offset: u.fat_cell(c), bytes: u32_le(FREE_SECTOR) };
        crate::sync::lemma_region_beside(file, u.pending, w, 0, 512);
    }
}

/// Adding an object leaves all of the header as it is but what belongs to the FAT.
pub proof fn lemma_adding_keeps_header(
    d: DirectoryView,
    file: spec_fn(int) -> u8,
    parent: u32,
    name: Seq<char>,
    obj_type: u8,
    now: u64,
)
    requires
        d.wf(),
        d.stored(),
        d.has_place(),
        reachable(d.entries).contains(parent),
        find(d.entries, children(d.entries, parent), name) is None,
        obj_type != 0,
    ensures
        header_kept(d.storage, d.inserted(parent, name, obj_type, now).storage, file),
{
    let es = d.entries;
    let id = free_entry(es);
    let entry = EntryView::created(name, obj_type, now);
    let slot = insertion_slot(es, parent, name);
    let p = d.with_place();
    crate::directory::lemma_with_place(d);
    crate::model::lemma_free_entry(es, 0);
    if d.is_full() {
        lemma_extended_keeps_header(d.storage, file, d.start, SectorInit::Dir);
    }
    let placed = DirectoryView { entries: put(es, id, entry), ..p };
    let linked = placed.link_written(slot, id as u32);
    lemma_header_write(
        d.storage,
        placed.storage,
        linked.storage,
        file,
        WriteView {
            offset: placed.entry_at(slot.holder() as int) + slot.offset(),
            bytes: u32_le(id as u32),
        },
    );
    lemma_header_write(
        d.storage,
        linked.storage,
        d.inserted(parent, name, obj_type, now).storage,
        file,
        WriteView { offset: linked.entry_at(id), bytes: entry.bytes() },
    );
}

/// A write in the place of an entry leaves the header as it is.
proof fn lemma_header_entry(
    d: DirectoryView,
    before: Seq<WriteView>,
    file: spec_fn(int) -> u8,
    i: int,
    w: WriteView,
)
    requires
        kept(file, before, d.storage.pending, 0, 512),
        i >= 0,
        w.offset >= d.entry_at(i),
    ensures
        kept(file, before, d.storage.pending.push(w), 0, 512),
{
    crate::sync::lemma_region_beside(file, d.storage.pending, w, 0, 512);
}

/// Replacing an entry leaves the header as it is.
pub proof fn lemma_replacing_keeps_header(
    d: DirectoryView,
    file: spec_fn(int) -> u8,
    id: u32,
    entry: EntryView,
)
    ensures
        kept(file, d.storage.pending, d.entry_written(id, entry).storage.pending, 0, 512),
{
    let w = WriteView { offset: d.entry_at(id as int), bytes: entry.bytes() };
    lemma_header_entry(d, d.storage.pending, file, id as int, w);
}

/// Removing an object leaves the header as it is.
pub proof fn lemma_removing_keeps_header(
    d: DirectoryView,
    file: spec_fn(int) -> u8,
    parent: u32,
    name: Seq<char>,
)
    ensures
        kept(file, d.storage.pending, d.erased(parent, name).storage.pending, 0, 512),
{
    let before = d.storage.pending;
    let (slot, found) = removal(d.entries, parent, name);
    let top = found.top();
    let left = d.entries[top as int].left_sibling;
    let right = d.entries[top as int].right_sibling;
    let cleared = EntryView::unallocated();
    if left == NO_STREAM || right == NO_STREAM {
        let link = if left == NO_STREAM {
            right
        } else {
            left
        };
        let one = d.link_written(slot, link);
        lemma_header_entry(
            d,
            before,
            file,
            slot.holder() as int,
            WriteView {
                offset: d.entry_at(slot.holder() as int) + slot.offset(),
                bytes: u32_le(link),
            },
        );
        lemma_header_entry(
            one,
            before,
            file,
            top as int,
            WriteView { offset: one.entry_at(top as int), bytes: cleared.bytes() },
        );
    } else {
        let (from, last) = rightmost(found.left(), Slot::Left(top));
        let moved = d.entries[last.top() as int];
        let entry = moved.with_left(left).with_right(right);
        let one = d.entry_written(top, entry);
        let two = one.link_written(from, moved.left_sibling);
        lemma_header_entry(
            d,
            before,
            file,
            top as int,
            WriteView { offset: d.entry_at(top as int), bytes: entry.bytes() },
        );
        lemma_header_entry(
            one,
            before,
            file,
            from.holder() as int,
            WriteView {
                offset: one.entry_at(from.holder() as int) + from.offset(),
                bytes: u32_le(moved.left_sibling),
            },
        );
        lemma_header_entry(
            two,
            before,
            file,
            last.top() as int,
            WriteView { offset: two.entry_at(last.top() as int), bytes: cleared.bytes() },
        );
    }
}

} // verus!

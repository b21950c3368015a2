//! The file stays in step with how many sectors hold and list the file allocation table
//! (FAT), and where the list goes on.
use crate::bytes::u32_le;
use crate::consts;
use crate::consts::{DIFAT_SECTOR, END_OF_CHAIN, FAT_SECTOR, FREE_SECTOR, NO_STREAM};
use crate::direntry::{patched, EntryView};
use crate::directory::DirectoryView;
use crate::fat_sync::roles_apart;
use crate::model::{free_entry, insertion_slot, put, removal};
use crate::storage::{
    cell_sector, chain_of, difat_capacity, fat_capacity, free_sector, has_chain, init_bytes,
    is_chain, listing_sector, sector_start, SectorInit, StorageView, WriteView,
};
use crate::sync::region_after;
use crate::tree::{children, find, reachable, rightmost, Slot};
use vstd::prelude::*;

verus! {

/// The number at an offset of the file, once it has received all writes, is `n`.
pub open spec fn holds_number(s: StorageView, file: spec_fn(int) -> u8, at: int, n: int) -> bool {
    region_after(file, s.pending, at, 4) == u32_le(n as u32)
}

/// Where a sector that lists FAT sectors tells which one comes next.
pub open spec fn next_list_at(s: StorageView, j: int) -> int {
    sector_start(s.version, s.difat_sectors[j] as int) + s.version.sector_size() - 4
}

/// The sector that comes next in the list, or the end mark.
pub open spec fn next_list(s: StorageView, j: int) -> int {
    if j + 1 < s.difat_sectors.len() {
        s.difat_sectors[j + 1] as int
    } else {
        0xffff_fffe
    }
}

/// Each of the first `n` sectors that list FAT sectors tells which one comes next.
pub open spec fn lists_linked(s: StorageView, file: spec_fn(int) -> u8, n: int) -> bool {
    forall|j: int| 0 <= j < n ==> #[trigger] holds_number(s, file, next_list_at(s, j), next_list(s, j))
}

/// The file, once it has received all writes, has in its header at offset 44 the number of
/// FAT sectors, and at offset 72 that of the sectors that list more of them than the
/// header does. If there are any, offset 68 tells the first of them, and each tells the
/// next.
pub open spec fn header_in_step(s: StorageView, file: spec_fn(int) -> u8) -> bool {
    header_holds(s, file, s.difat.len() as int)
}

/// The header is in step, with `count` as the number of FAT sectors.
pub open spec fn header_holds(s: StorageView, file: spec_fn(int) -> u8, count: int) -> bool {
    &&& holds_number(s, file, 44, count)
    &&& holds_number(s, file, 72, s.difat_sectors.len() as int)
    &&& s.difat_sectors.len() > 0 ==> holds_number(s, file, 68, s.difat_sectors[0] as int)
    &&& lists_linked(s, file, s.difat_sectors.len() as int)
}

/// A write leaves the numbers of the header alone, and the ends of the sectors that list
/// FAT sectors.
spec fn spares(s: StorageView, w: WriteView) -> bool {
    &&& w.offset >= 76 || w.offset + w.bytes.len() <= 44
    &&& forall|j: int|
        0 <= j < s.difat_sectors.len() ==> w.offset + w.bytes.len() <= #[trigger] next_list_at(s, j)
            || next_list_at(s, j) + 4 <= w.offset
}

proof fn lemma_number_beside(
    s: StorageView,
    t: StorageView,
    file: spec_fn(int) -> u8,
    w: WriteView,
    at: int,
    n: int,
)
    requires
        t.pending == s.pending.push(w),
        holds_number(s, file, at, n),
        w.offset + w.bytes.len() <= at || at + 4 <= w.offset,
    ensures
        holds_number(t, file, at, n),
{
    crate::sync::lemma_region_beside(file, s.pending, w, at, 4);
}

proof fn lemma_number_written(
    s: StorageView,
    t: StorageView,
    file: spec_fn(int) -> u8,
    at: int,
    n: u32,
)
    requires
        t.pending == s.pending.push(WriteView { offset: at, bytes: u32_le(n) }),
    ensures
        holds_number(t, file, at, n as int),
{
    let w = WriteView { offset: at, bytes: u32_le(n) };
    assert(u32_le(n).len() == 4);
    crate::sync::lemma_region_within(file, s.pending, w, at, 4);
    assert(patched(region_after(file, s.pending, at, 4), 0, u32_le(n)) =~= u32_le(n));
}

/// A write that spares them keeps the header in step, whatever becomes of the FAT values.
proof fn lemma_spared(
    s: StorageView,
    t: StorageView,
    file: spec_fn(int) -> u8,
    w: WriteView,
    count: int,
)
    requires
        header_holds(s, file, count),
        spares(s, w),
        t.pending == s.pending.push(w),
        t.version == s.version,
        t.difat_sectors == s.difat_sectors,
    ensures
        header_holds(t, file, count),
{
    lemma_number_beside(s, t, file, w, 44, count);
    lemma_number_beside(s, t, file, w, 72, s.difat_sectors.len() as int);
    if s.difat_sectors.len() > 0 {
        lemma_number_beside(s, t, file, w, 68, s.difat_sectors[0] as int);
    }
    assert forall|j: int| 0 <= j < t.difat_sectors.len() implies #[trigger] holds_number(
        t,
        file,
        next_list_at(t, j),
        next_list(t, j),
    ) by {
        assert(next_list_at(t, j) == next_list_at(s, j) && next_list(t, j) == next_list(s, j));
        assert(holds_number(s, file, next_list_at(s, j), next_list(s, j)));
        lemma_number_beside(s, t, file, w, next_list_at(s, j), next_list(s, j));
    }
}

/// A write within a sector that does not list FAT sectors spares them.
proof fn lemma_spares_sector(s: StorageView, w: WriteView, id: u32)
    requires
        !s.difat_sectors.contains(id),
        sector_start(s.version, id as int) <= w.offset,
        w.offset + w.bytes.len() <= sector_start(s.version, id as int) + s.version.sector_size(),
    ensures
        spares(s, w),
{
    assert forall|j: int| 0 <= j < s.difat_sectors.len() implies w.offset + w.bytes.len()
        <= #[trigger] next_list_at(s, j) || next_list_at(s, j) + 4 <= w.offset by {
        assert(s.difat_sectors.contains(s.difat_sectors[j]));
    }
}

/// Setting a FAT value keeps the header in step.
proof fn lemma_header_value_set(
    s: StorageView,
    file: spec_fn(int) -> u8,
    i: int,
    value: u32,
    count: int,
)
    requires
        roles_apart(s),
        0 <= i < fat_capacity(s.version, s.difat.len() as int),
        header_holds(s, file, count),
    ensures
        header_holds(s.fat_set(i, value), file, count),
{
    let w = WriteView { offset: s.fat_cell(i), bytes: u32_le(value) };
    let k = cell_sector(s.version, i);
    assert(u32_le(value).len() == 4);
    assert(0 <= k < s.difat.len());
    assert(!s.difat_sectors.contains(s.difat[k])) by {
        if s.difat_sectors.contains(s.difat[k]) {
            let j = choose|j: int|
                0 <= j < s.difat_sectors.len() && s.difat_sectors[j] == s.difat[k];
            assert(s.difat[k] != s.difat_sectors[j]);
        }
    }
    lemma_spares_sector(s, w, s.difat[k]);
    lemma_spared(s, s.fat_set(i, value), file, w, count);
}

/// Filling a sector that does not list FAT sectors keeps the header in step.
proof fn lemma_header_filled(
    s: StorageView,
    file: spec_fn(int) -> u8,
    id: u32,
    init: SectorInit,
    count: int,
)
    requires
        !s.difat_sectors.contains(id),
        header_holds(s, file, count),
    ensures
        header_holds(s.sector_filled(id as int, init), file, count),
{
    let w = WriteView {
        offset: sector_start(s.version, id as int),
        bytes: init_bytes(s.version, init),
    };
    crate::sync::lemma_init_len(s.version, init);
    lemma_spares_sector(s, w, id);
    lemma_spared(s, s.sector_filled(id as int, init), file, w, count);
}

/// Growing the list of FAT sectors keeps the header in step.
proof fn lemma_header_difat_grown(s: StorageView, file: spec_fn(int) -> u8, count: int)
    requires
        roles_apart(s),
        s.fat.len() < fat_capacity(s.version, s.difat.len() as int),
        s.fat.len() <= consts::MAX_REGULAR_SECTOR,
        s.difat_sectors.len() <= s.fat.len(),
        forall|k: int| 0 <= k < s.difat.len() ==> #[trigger] s.difat[k] < s.fat.len(),
        forall|k: int|
            0 <= k < s.difat_sectors.len() ==> #[trigger] s.difat_sectors[k] < s.fat.len(),
        header_holds(s, file, count),
    ensures
        header_holds(s.difat_grown(), file, count),
{
    let v = s.version;
    let id = s.fat.len() as u32;
    let n = s.difat_sectors.len() as int;
    assert(!s.difat_sectors.contains(id)) by {
        if s.difat_sectors.contains(id) {
            let i = choose|i: int| 0 <= i < s.difat_sectors.len() && s.difat_sectors[i] == id;
            assert(s.difat_sectors[i] < s.fat.len());
        }
    }
    lemma_header_filled(s, file, id, SectorInit::Difat, count);
    let one = s.sector_filled(id as int, SectorInit::Difat);
    // The new sector ends with the mark that no other follows.
    let own = sector_start(v, id as int) + v.sector_size() - 4;
    assert(holds_number(one, file, own, 0xffff_fffe)) by {
        crate::sync::lemma_init_len(v, SectorInit::Difat);
        let fill = init_bytes(v, SectorInit::Difat);
        assert(one.pending.last() == (WriteView {
            offset: sector_start(v, id as int),
            bytes: fill,
        }));
        assert(region_after(file, one.pending, own, 4) =~= u32_le(END_OF_CHAIN));
    }
    lemma_header_value_set(one, file, id as int, DIFAT_SECTOR, count);
    let two = one.fat_set(id as int, DIFAT_SECTOR);
    let k = cell_sector(v, id as int);
    assert(0 <= k < s.difat.len() && s.difat[k] < s.fat.len());
    assert(u32_le(DIFAT_SECTOR).len() == 4);
    lemma_number_beside(
        one,
        two,
        file,
        WriteView { offset: one.fat_cell(id as int), bytes: u32_le(DIFAT_SECTOR) },
        own,
        0xffff_fffe,
    );
    let link = if n == 0 {
        68
    } else {
        next_list_at(s, n - 1)
    };
    let w = WriteView { offset: link, bytes: u32_le(id) };
    let total = WriteView { offset: 72, bytes: u32_le((n + 1) as u32) };
    assert(u32_le(id).len() == 4 && total.bytes.len() == 4);
    let three = StorageView { difat_sectors: s.difat_sectors.push(id), ..two }.written(
        link,
        u32_le(id),
    );
    let t = three.written(72, u32_le((n + 1) as u32));
    assert(t == s.difat_grown());
    lemma_number_written(two, three, file, link, id);
    lemma_number_written(three, t, file, 72, (n + 1) as u32);
    lemma_number_beside(two, three, file, w, 44, count);
    lemma_number_beside(three, t, file, total, 44, count);
    if n > 0 {
        assert(s.difat_sectors[n - 1] < s.fat.len());
        lemma_number_beside(two, three, file, w, 68, s.difat_sectors[0] as int);
    }
    lemma_number_beside(three, t, file, total, 68, t.difat_sectors[0] as int);
    lemma_number_beside(two, three, file, w, own, 0xffff_fffe);
    assert forall|j: int| 0 <= j < n + 1 implies #[trigger] holds_number(
        t,
        file,
        next_list_at(t, j),
        next_list(t, j),
    ) by {
        let at = next_list_at(t, j);
        if j == n {
            assert(at == own);
        } else if j == n - 1 {
            assert(t.difat_sectors[j + 1] == id);
            assert(at == link);
        } else {
            assert(at == next_list_at(two, j) && next_list(t, j) == next_list(two, j));
            assert(holds_number(two, file, next_list_at(two, j), next_list(two, j)));
            assert(s.difat_sectors[j] != s.difat_sectors[n - 1]);
            lemma_number_beside(two, three, file, w, at, next_list(t, j));
        }
        lemma_number_beside(three, t, file, total, at, next_list(t, j));
    }
}

/// Growing the FAT keeps the header in step.
proof fn lemma_header_fat_grown(s: StorageView, file: spec_fn(int) -> u8)
    requires
        s.wf(),
        s.fat.len() == fat_capacity(s.version, s.difat.len() as int),
        s.fat.len() + 2 <= consts::MAX_REGULAR_SECTOR + 1,
        header_in_step(s, file),
    ensures
        header_in_step(s.fat_grown(), file),
{
    let v = s.version;
    let id = s.fat.len() as u32;
    let k = s.difat.len() as int;
    let m = s.difat_sectors.len() as int;
    crate::fat_sync::lemma_roles_apart(s);
    crate::storage::lemma_fat_sector_added(s);
    assert(!s.difat_sectors.contains(id)) by {
        if s.difat_sectors.contains(id) {
            let i = choose|i: int| 0 <= i < s.difat_sectors.len() && s.difat_sectors[i] == id;
            assert(s.difat_sectors[i] < s.fat.len());
        }
    }
    lemma_header_filled(s, file, id, SectorInit::Fat, k);
    let one = s.sector_filled(id as int, SectorInit::Fat);
    let two = StorageView { difat: s.difat.push(id), ..one };
    assert(header_holds(two, file, k)) by {
        assert forall|j: int| 0 <= j < m implies #[trigger] holds_number(
            two,
            file,
            next_list_at(two, j),
            next_list(two, j),
        ) by {
            assert(holds_number(one, file, next_list_at(one, j), next_list(one, j)));
        }
    }
    assert(roles_apart(two)) by {
        assert forall|i: int, j: int|
            0 <= i < two.difat.len() && 0 <= j < two.difat_sectors.len() implies #[trigger] two.difat[i]
            != #[trigger] two.difat_sectors[j] by {
            assert(s.difat_sectors.contains(s.difat_sectors[j]));
            if i < k {
                assert(s.difat[i] != s.difat_sectors[j]);
            }
        }
        assert forall|i: int, j: int|
            0 <= i < j < two.difat.len() implies two.difat[i] != two.difat[j] by {
            assert(s.difat[i] < s.fat.len());
        }
    }
    lemma_header_value_set(two, file, id as int, FAT_SECTOR, k);
    let added = s.fat_sector_added();
    assert(roles_apart(added));
    let grows = k >= difat_capacity(v, m);
    let listed = if grows { added.difat_grown() } else { added };
    if grows {
        lemma_header_difat_grown(added, file, k);
    }
    assert(listed.difat_sectors.no_duplicates()) by {
        assert forall|i: int, j: int|
            0 <= i < j < listed.difat_sectors.len() implies listed.difat_sectors[i]
            != listed.difat_sectors[j] by {
            assert(s.difat_sectors[i] < s.fat.len());
        }
    }
    lemma_header_listed(listed, file, k, id);
}

/// The place that lists a FAT sector is neither in the numbers of the header nor at the
/// end of a sector that lists.
proof fn lemma_cell_spares(s: StorageView, k: int, id: u32)
    requires
        0 <= k < difat_capacity(s.version, s.difat_sectors.len() as int),
        s.difat_sectors.no_duplicates(),
    ensures
        spares(s, WriteView { offset: s.difat_cell(k), bytes: u32_le(id) }),
{
    let v = s.version;
    let at = s.difat_cell(k);
    assert(u32_le(id).len() == 4);
    if k >= 109 {
        let l = listing_sector(v, k);
        assert(0 <= l < s.difat_sectors.len());
        assert forall|j: int| 0 <= j < s.difat_sectors.len() implies at + 4
            <= #[trigger] next_list_at(s, j) || next_list_at(s, j) + 4 <= at by {
            if j != l {
                assert(s.difat_sectors[j] != s.difat_sectors[l]);
            }
        }
    }
}

/// Counting the FAT sectors anew puts the header in step.
proof fn lemma_header_counted(s: StorageView, file: spec_fn(int) -> u8, k: int)
    requires
        header_holds(s, file, k),
    ensures
        header_holds(s.written(44, u32_le((k + 1) as u32)), file, k + 1),
{
    let total = WriteView { offset: 44, bytes: u32_le((k + 1) as u32) };
    assert(total.bytes.len() == 4);
    let u = s.written(44, u32_le((k + 1) as u32));
    lemma_number_written(s, u, file, 44, (k + 1) as u32);
    lemma_number_beside(s, u, file, total, 72, s.difat_sectors.len() as int);
    if s.difat_sectors.len() > 0 {
        lemma_number_beside(s, u, file, total, 68, s.difat_sectors[0] as int);
    }
    assert forall|j: int| 0 <= j < u.difat_sectors.len() implies #[trigger] holds_number(
        u,
        file,
        next_list_at(u, j),
        next_list(u, j),
    ) by {
        assert(holds_number(s, file, next_list_at(s, j), next_list(s, j)));
        lemma_number_beside(s, u, file, total, next_list_at(s, j), next_list(s, j));
    }
}

/// Listing one more FAT sector, and counting it, keeps the header in step.
proof fn lemma_header_listed(s: StorageView, file: spec_fn(int) -> u8, k: int, id: u32)
    requires
        0 <= k < difat_capacity(s.version, s.difat_sectors.len() as int),
        s.difat.len() == k + 1,
        s.difat_sectors.no_duplicates(),
        header_holds(s, file, k),
    ensures
        header_in_step(
            s.written(s.difat_cell(k), u32_le(id)).written(44, u32_le((k + 1) as u32)),
            file,
        ),
{
    let cell = WriteView { offset: s.difat_cell(k), bytes: u32_le(id) };
    let t = s.written(s.difat_cell(k), u32_le(id));
    lemma_cell_spares(s, k, id);
    lemma_spared(s, t, file, cell, k);
    lemma_header_counted(t, file, k);
}

/// Beginning a chain keeps the header in step.
pub proof fn lemma_chain_begun_header(s: StorageView, file: spec_fn(int) -> u8, init: SectorInit)
    requires
        s.wf(),
        s.has_room(),
        header_in_step(s, file),
    ensures
        header_in_step(s.chain_begun(init), file),
{
    let v = s.version;
    let id = s.next_sector();
    crate::storage::lemma_free_sector(s.fat, 0);
    crate::storage::lemma_chain_begun(s, init);
    let u = if free_sector(s.fat) < s.fat.len() {
        s
    } else {
        if s.fat.len() == fat_capacity(v, s.difat.len() as int) {
            crate::storage::lemma_fat_grown(s);
            lemma_header_fat_grown(s, file);
        }
        s.with_spare_cell()
    };
    assert(u.wf() && header_in_step(u, file));
    crate::fat_sync::lemma_roles_apart(u);
    lemma_header_value_set(u, file, id as int, END_OF_CHAIN, u.difat.len() as int);
    let one = u.fat_set(id as int, END_OF_CHAIN);
    let t = s.chain_begun(init);
    assert(!one.difat_sectors.contains(id)) by {
        if one.difat_sectors.contains(id) {
            let i = choose|i: int| 0 <= i < t.difat_sectors.len() && t.difat_sectors[i] == id;
            assert(t.fat[t.difat_sectors[i] as int] == DIFAT_SECTOR);
        }
    }
    lemma_header_filled(one, file, id, init, one.difat.len() as int);
}

/// Extending a chain keeps the header in step.
pub proof fn lemma_chain_extended_header(
    s: StorageView,
    file: spec_fn(int) -> u8,
    start: u32,
    init: SectorInit,
)
    requires
        s.wf(),
        s.has_room(),
        has_chain(s.fat, start),
        start != END_OF_CHAIN,
        header_in_step(s, file),
    ensures
        header_in_step(s.chain_extended(start, init), file),
{
    let chain = chain_of(s.fat, start);
    let u = s.chain_begun(init);
    crate::storage::lemma_chain_begun(s, init);
    lemma_chain_begun_header(s, file, init);
    crate::fat_sync::lemma_roles_apart(u);
    assert(chain.last() == chain[chain.len() - 1] && chain.last() < s.fat.len());
    lemma_header_value_set(u, file, chain.last() as int, s.next_sector(), u.difat.len() as int);
}

/// Giving up a chain keeps the header in step.
pub proof fn lemma_chain_freed_header(s: StorageView, file: spec_fn(int) -> u8, start: u32)
    requires
        s.wf(),
        has_chain(s.fat, start),
        header_in_step(s, file),
    ensures
        header_in_step(s.chain_freed(start), file),
{
    let chain = chain_of(s.fat, start);
    lemma_sectors_freed_header(s, file, start, chain, chain.len() as int);
    assert(chain.take(chain.len() as int) =~= chain);
}

proof fn lemma_sectors_freed_header(
    s: StorageView,
    file: spec_fn(int) -> u8,
    start: u32,
    chain: Seq<u32>,
    n: int,
)
    requires
        s.wf(),
        is_chain(s.fat, start, chain),
        0 <= n <= chain.len(),
        header_in_step(s, file),
    ensures
        header_in_step(s.sectors_freed(chain.take(n)), file),
    decreases n,
{
    if n == 0 {
        assert(chain.take(0) =~= Seq::<u32>::empty());
    } else {
        lemma_sectors_freed_header(s, file, start, chain, n - 1);
        crate::storage::lemma_sectors_freed(s, start, chain, n - 1);
        let u = s.sectors_freed(chain.take(n - 1));
        crate::fat_sync::lemma_roles_apart(u);
        assert(chain.take(n).drop_last() =~= chain.take(n - 1));
        assert(chain[n - 1] < s.fat.len());
        lemma_header_value_set(u, file, chain[n - 1] as int, FREE_SECTOR, u.difat.len() as int);
    }
}

/// A write within an entry of the directory keeps the header in step.
proof fn lemma_entry_header(
    d: DirectoryView,
    file: spec_fn(int) -> u8,
    i: int,
    offset: int,
    bytes: Seq<u8>,
)
    requires
        d.stored(),
        header_in_step(d.storage, file),
        0 <= i < d.entries.len(),
        d.entry_at(i) <= offset,
        offset + bytes.len() <= d.entry_at(i) + 128,
    ensures
        header_in_step(d.storage.written(offset, bytes), file),
{
    let w = WriteView { offset, bytes };
    let k = crate::sync::lemma_place_in_sector(d.storage.version, d.sectors(), i);
    crate::sync::lemma_chain_apart(d.storage, d.start, d.sectors());
    lemma_spares_sector(d.storage, w, d.sectors()[k]);
    lemma_spared(
        d.storage,
        d.storage.written(offset, bytes),
        file,
        w,
        d.storage.difat.len() as int,
    );
}

/// Replacing an entry keeps the header in step.
pub proof fn lemma_entry_written_header(
    d: DirectoryView,
    file: spec_fn(int) -> u8,
    id: u32,
    entry: EntryView,
)
    requires
        d.stored(),
        header_in_step(d.storage, file),
        id < d.entries.len(),
    ensures
        header_in_step(d.entry_written(id, entry).storage, file),
{
    crate::direntry::lemma_entry_bytes(entry, 0);
    lemma_entry_header(d, file, id as int, d.entry_at(id as int), entry.bytes());
}

/// Setting a link of an entry keeps the header in step.
pub proof fn lemma_link_written_header(
    d: DirectoryView,
    file: spec_fn(int) -> u8,
    slot: Slot,
    id: u32,
)
    requires
        d.stored(),
        header_in_step(d.storage, file),
        slot.holder() < d.entries.len(),
    ensures
        header_in_step(d.link_written(slot, id).storage, file),
{
    let h = slot.holder() as int;
    assert(u32_le(id).len() == 4);
    lemma_entry_header(d, file, h, d.entry_at(h) + slot.offset(), u32_le(id));
}

/// Adding an object keeps the header in step.
pub proof fn lemma_inserted_header(
    d: DirectoryView,
    file: spec_fn(int) -> u8,
    parent: u32,
    name: Seq<char>,
    obj_type: u8,
    now: u64,
)
    requires
        d.wf(),
        d.stored(),
        d.has_place(),
        header_in_step(d.storage, file),
        reachable(d.entries).contains(parent),
        find(d.entries, children(d.entries, parent), name) is None,
        obj_type != consts::OBJ_TYPE_UNALLOCATED,
    ensures
        header_in_step(d.inserted(parent, name, obj_type, now).storage, file),
{
    let es = d.entries;
    let id = free_entry(es);
    let entry = EntryView::created(name, obj_type, now);
    let slot = insertion_slot(es, parent, name);
    let p = d.with_place();
    crate::directory::lemma_with_place(d);
    crate::model::lemma_free_entry(es, 0);
    crate::model::lemma_with_object_tree(es, parent, name, obj_type, now);
    crate::model::lemma_the_tree(es);
    if d.is_full() {
        lemma_chain_extended_header(d.storage, file, d.start, SectorInit::Dir);
    }
    let placed = DirectoryView { entries: put(es, id, entry), ..p };
    assert(placed.stored());
    lemma_link_written_header(placed, file, slot, id as u32);
    let linked = placed.link_written(slot, id as u32);
    assert(linked.stored());
    lemma_entry_written_header(linked, file, id as u32, entry);
}

/// Removing an object keeps the header in step.
pub proof fn lemma_erased_header(
    d: DirectoryView,
    file: spec_fn(int) -> u8,
    parent: u32,
    name: Seq<char>,
)
    requires
        d.wf(),
        d.stored(),
        header_in_step(d.storage, file),
        reachable(d.entries).contains(parent),
        d.can_erase(parent, name),
    ensures
        header_in_step(d.erased(parent, name).storage, file),
{
    crate::directory::lemma_removal(d, parent, name);
    let (slot, found) = removal(d.entries, parent, name);
    let top = found.top();
    let left = d.entries[top as int].left_sibling;
    let right = d.entries[top as int].right_sibling;
    let cleared = EntryView::unallocated();
    if left == NO_STREAM || right == NO_STREAM {
        let link = if left == NO_STREAM { right } else { left };
        lemma_link_written_header(d, file, slot, link);
        lemma_entry_written_header(d.link_written(slot, link), file, top, cleared);
    } else {
        let (from, last) = rightmost(found.left(), Slot::Left(top));
        let moved = d.entries[last.top() as int];
        let entry = moved.with_left(left).with_right(right);
        let one = d.entry_written(top, entry);
        let two = one.link_written(from, moved.left_sibling);
        lemma_entry_written_header(d, file, top, entry);
        lemma_link_written_header(one, file, from, moved.left_sibling);
        lemma_entry_written_header(two, file, last.top(), cleared);
    }
}

} // verus!

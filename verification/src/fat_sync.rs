//! The file stays in step with the file allocation table (FAT) in memory.
use crate::bytes::u32_le;
use crate::consts;
use crate::consts::{DIFAT_SECTOR, END_OF_CHAIN, FAT_SECTOR, FREE_SECTOR, NO_STREAM};
use crate::directory::DirectoryView;
use crate::direntry::{patched, EntryView};
use crate::model::{free_entry, insertion_slot, put, removal};
use crate::storage::{
    cell_sector, chain_of, difat_capacity, fat_capacity, free_sector, has_chain, init_bytes,
    is_chain, listing_sector, sector_start, SectorInit, StorageView, WriteView,
};
use crate::sync::region_after;
use crate::tree::{children, find, reachable, rightmost, Slot};
use vstd::prelude::*;

verus! {

/// The FAT value that belongs to a sector: behind the end of the file, that of a
/// free one.
pub open spec fn value_for(fat: Seq<u32>, i: int) -> u32 {
    if i < fat.len() {
        fat[i]
    } else {
        FREE_SECTOR
    }
}

/// The file, once it has received all writes, holds the first `m` FAT values in their
/// places.
pub open spec fn values_in_step(s: StorageView, file: spec_fn(int) -> u8, m: int) -> bool {
    forall|i: int|
        0 <= i < m ==> region_after(file, s.pending, #[trigger] s.fat_cell(i), 4) == u32_le(
            value_for(s.fat, i),
        )
}

/// The file, once it has received all writes, lists the first `n` FAT sectors.
pub open spec fn lists_in_step(s: StorageView, file: spec_fn(int) -> u8, n: int) -> bool {
    forall|k: int|
        0 <= k < n ==> region_after(file, s.pending, #[trigger] s.difat_cell(k), 4) == u32_le(
            s.difat[k],
        )
}

/// How many FAT values count: one for each sector, or, with `spare`, as many as the
/// sectors of the FAT hold.
pub open spec fn value_count(s: StorageView, spare: bool) -> int {
    if spare {
        fat_capacity(s.version, s.difat.len() as int)
    } else {
        s.fat.len() as int
    }
}

/// The file, once it has received all writes, holds the FAT and lists its sectors; with
/// `spare`, it also holds the mark of a free sector in the places behind the last value.
pub open spec fn fat_in_step(s: StorageView, file: spec_fn(int) -> u8, spare: bool) -> bool {
    &&& values_in_step(s, file, value_count(s, spare))
    &&& lists_in_step(s, file, s.difat.len() as int)
}

/// No sector holds two parts of the FAT, or holds and lists one.
pub open spec fn roles_apart(s: StorageView) -> bool {
    &&& s.difat.no_duplicates()
    &&& s.difat_sectors.no_duplicates()
    &&& forall|i: int, j: int|
        0 <= i < s.difat.len() && 0 <= j < s.difat_sectors.len() ==> #[trigger] s.difat[i]
            != #[trigger] s.difat_sectors[j]
}

/// In a storage that is well-formed, no sector has two roles.
pub proof fn lemma_roles_apart(s: StorageView)
    requires
        s.wf(),
    ensures
        roles_apart(s),
{
    assert forall|i: int, j: int|
        0 <= i < s.difat.len() && 0 <= j < s.difat_sectors.len() implies #[trigger] s.difat[i]
        != #[trigger] s.difat_sectors[j] by {
        assert(s.fat[s.difat[i] as int] == FAT_SECTOR);
        assert(s.fat[s.difat_sectors[j] as int] == DIFAT_SECTOR);
    }
}

/// Where the place of a FAT value lies.
proof fn lemma_fat_cell(s: StorageView, i: int)
    requires
        0 <= i < fat_capacity(s.version, s.difat.len() as int),
    ensures
        0 <= cell_sector(s.version, i) < s.difat.len(),
        s.fat_cell(i) >= 512,
        ({
            let at = sector_start(s.version, s.difat[cell_sector(s.version, i)] as int);
            at <= s.fat_cell(i) && s.fat_cell(i) + 4 <= at + s.version.sector_size()
        }),
{
}

/// Where a FAT sector is listed.
proof fn lemma_difat_cell(s: StorageView, k: int)
    requires
        0 <= k < difat_capacity(s.version, s.difat_sectors.len() as int),
    ensures
        k < 109 ==> s.difat_cell(k) == 76 + 4 * k,
        k >= 109 ==> {
            let j = listing_sector(s.version, k);
            let at = sector_start(s.version, s.difat_sectors[j] as int);
            &&& 0 <= j < s.difat_sectors.len()
            &&& at <= s.difat_cell(k)
            &&& s.difat_cell(k) + 8 <= at + s.version.sector_size()
            &&& s.difat_cell(k) >= 512
        },
{
}

/// Setting a FAT value keeps the file in step.
proof fn lemma_value_set(
    s: StorageView,
    file: spec_fn(int) -> u8,
    i: int,
    value: u32,
    m: int,
    n: int,
)
    requires
        roles_apart(s),
        0 <= i < fat_capacity(s.version, s.difat.len() as int),
        i <= s.fat.len(),
        i <= m <= fat_capacity(s.version, s.difat.len() as int),
        n <= difat_capacity(s.version, s.difat_sectors.len() as int),
        values_in_step(s, file, m),
        lists_in_step(s, file, n),
    ensures
        values_in_step(
            s.fat_set(i, value),
            file,
            if i < m {
                m
            } else {
                m + 1
            },
        ),
        lists_in_step(s.fat_set(i, value), file, n),
{
    let v = s.version;
    let t = s.fat_set(i, value);
    let w = WriteView { offset: s.fat_cell(i), bytes: u32_le(value) };
    assert(u32_le(value).len() == 4);
    lemma_fat_cell(s, i);
    let m2 = if i < m { m } else { m + 1 };
    assert forall|j: int| 0 <= j < m2 implies region_after(
        file,
        t.pending,
        #[trigger] t.fat_cell(j),
        4,
    ) == u32_le(value_for(t.fat, j)) by {
        assert(t.fat_cell(j) == s.fat_cell(j));
        lemma_fat_cell(s, j);
        if j == i {
            crate::sync::lemma_region_within(file, s.pending, w, s.fat_cell(i), 4);
            assert(patched(region_after(file, s.pending, s.fat_cell(i), 4), 0, u32_le(value))
                =~= u32_le(value));
        } else {
            let (a, b) = (cell_sector(v, i), cell_sector(v, j));
            if a != b {
                assert(s.difat[a] != s.difat[b]);
            }
            crate::sync::lemma_region_beside(file, s.pending, w, s.fat_cell(j), 4);
        }
    }
    assert forall|k: int| 0 <= k < n implies region_after(
        file,
        t.pending,
        #[trigger] t.difat_cell(k),
        4,
    ) == u32_le(t.difat[k]) by {
        assert(t.difat_cell(k) == s.difat_cell(k));
        lemma_difat_cell(s, k);
        if k >= 109 {
            assert(s.difat[cell_sector(v, i)] != s.difat_sectors[listing_sector(v, k)]);
        }
        crate::sync::lemma_region_beside(file, s.pending, w, s.difat_cell(k), 4);
    }
}

/// A write that lies in another sector, or in the header before the list of FAT
/// sectors, keeps the file in step.
proof fn lemma_other_written(
    s: StorageView,
    file: spec_fn(int) -> u8,
    offset: int,
    bytes: Seq<u8>,
    id: u32,
    m: int,
    n: int,
)
    requires
        m <= fat_capacity(s.version, s.difat.len() as int),
        n <= difat_capacity(s.version, s.difat_sectors.len() as int),
        values_in_step(s, file, m),
        lists_in_step(s, file, n),
        0 <= offset && offset + bytes.len() <= 76 || (sector_start(s.version, id as int) <= offset
            && offset + bytes.len() <= sector_start(s.version, id as int) + s.version.sector_size()
            && !s.difat.contains(id) && !s.difat_sectors.contains(id)),
    ensures
        values_in_step(s.written(offset, bytes), file, m),
        lists_in_step(s.written(offset, bytes), file, n),
{
    let v = s.version;
    let t = s.written(offset, bytes);
    let w = WriteView { offset, bytes };
    assert forall|j: int| 0 <= j < m implies region_after(
        file,
        t.pending,
        #[trigger] t.fat_cell(j),
        4,
    ) == u32_le(value_for(t.fat, j)) by {
        assert(t.fat_cell(j) == s.fat_cell(j));
        lemma_fat_cell(s, j);
        assert(s.difat.contains(s.difat[cell_sector(v, j)]));
        crate::sync::lemma_region_beside(file, s.pending, w, s.fat_cell(j), 4);
    }
    assert forall|k: int| 0 <= k < n implies region_after(
        file,
        t.pending,
        #[trigger] t.difat_cell(k),
        4,
    ) == u32_le(t.difat[k]) by {
        assert(t.difat_cell(k) == s.difat_cell(k));
        lemma_difat_cell(s, k);
        if k >= 109 {
            assert(s.difat_sectors.contains(s.difat_sectors[listing_sector(v, k)]));
        }
        crate::sync::lemma_region_beside(file, s.pending, w, s.difat_cell(k), 4);
    }
}

/// The link from one sector that lists FAT sectors to the next does not lie where
/// any is listed.
proof fn lemma_list_linked(
    s: StorageView,
    file: spec_fn(int) -> u8,
    j: int,
    next: u32,
    m: int,
    n: int,
)
    requires
        roles_apart(s),
        0 <= j < s.difat_sectors.len(),
        m <= fat_capacity(s.version, s.difat.len() as int),
        n <= difat_capacity(s.version, s.difat_sectors.len() as int),
        values_in_step(s, file, m),
        lists_in_step(s, file, n),
    ensures
        ({
            let at = sector_start(s.version, s.difat_sectors[j] as int) + s.version.sector_size()
                - 4;
            &&& values_in_step(s.written(at, u32_le(next)), file, m)
            &&& lists_in_step(s.written(at, u32_le(next)), file, n)
        }),
{
    let v = s.version;
    let at = sector_start(v, s.difat_sectors[j] as int) + v.sector_size() - 4;
    let w = WriteView { offset: at, bytes: u32_le(next) };
    let t = s.written(at, u32_le(next));
    assert(u32_le(next).len() == 4);
    assert forall|i: int| 0 <= i < m implies region_after(
        file,
        t.pending,
        #[trigger] t.fat_cell(i),
        4,
    ) == u32_le(value_for(t.fat, i)) by {
        assert(t.fat_cell(i) == s.fat_cell(i));
        lemma_fat_cell(s, i);
        assert(s.difat[cell_sector(v, i)] != s.difat_sectors[j]);
        crate::sync::lemma_region_beside(file, s.pending, w, s.fat_cell(i), 4);
    }
    assert forall|k: int| 0 <= k < n implies region_after(
        file,
        t.pending,
        #[trigger] t.difat_cell(k),
        4,
    ) == u32_le(t.difat[k]) by {
        assert(t.difat_cell(k) == s.difat_cell(k));
        lemma_difat_cell(s, k);
        if k >= 109 {
            let a = listing_sector(v, k);
            if a != j {
                assert(s.difat_sectors[a] != s.difat_sectors[j]);
            }
        }
        crate::sync::lemma_region_beside(file, s.pending, w, s.difat_cell(k), 4);
    }
}

/// Adding a sector that lists FAT sectors keeps the file in step.
proof fn lemma_difat_grown_in_step(s: StorageView, file: spec_fn(int) -> u8, n: int)
    requires
        roles_apart(s),
        s.fat.len() < fat_capacity(s.version, s.difat.len() as int),
        s.fat.len() <= consts::MAX_REGULAR_SECTOR,
        s.difat_sectors.len() <= s.fat.len(),
        forall|k: int| 0 <= k < s.difat.len() ==> #[trigger] s.difat[k] < s.fat.len(),
        forall|k: int|
            0 <= k < s.difat_sectors.len() ==> #[trigger] s.difat_sectors[k] < s.fat.len(),
        n <= difat_capacity(s.version, s.difat_sectors.len() as int),
        values_in_step(s, file, fat_capacity(s.version, s.difat.len() as int)),
        lists_in_step(s, file, n),
    ensures
        values_in_step(
            s.difat_grown(),
            file,
            fat_capacity(s.version, s.difat.len() as int),
        ),
        lists_in_step(s.difat_grown(), file, n),
        roles_apart(s.difat_grown()),
{
    let v = s.version;
    let id = s.fat.len() as u32;
    let m = s.difat_sectors.len() as int;
    let cap = fat_capacity(v, s.difat.len() as int);
    let fill = init_bytes(v, SectorInit::Difat);
    crate::sync::lemma_init_len(v, SectorInit::Difat);
    lemma_other_written(s, file, sector_start(v, id as int), fill, id, cap, n);
    let one = s.sector_filled(id as int, SectorInit::Difat);
    lemma_value_set(one, file, id as int, DIFAT_SECTOR, cap, n);
    let two = one.fat_set(id as int, DIFAT_SECTOR);
    let three = StorageView { difat_sectors: s.difat_sectors.push(id), ..two };
    assert(roles_apart(three)) by {
        assert forall|i: int, j: int|
            0 <= i < three.difat.len() && 0 <= j
                < three.difat_sectors.len() implies #[trigger] three.difat[i]
            != #[trigger] three.difat_sectors[j] by {
            assert(s.difat[i] < s.fat.len());
            if j < m {
                assert(three.difat_sectors[j] == s.difat_sectors[j]);
            }
        }
        assert forall|i: int, j: int|
            0 <= i < j < three.difat_sectors.len() implies three.difat_sectors[i]
            != three.difat_sectors[j] by {
            assert(s.difat_sectors[i] < s.fat.len());
        }
    }
    assert(values_in_step(three, file, cap)) by {
        assert forall|i: int| 0 <= i < cap implies region_after(
            file,
            three.pending,
            #[trigger] three.fat_cell(i),
            4,
        ) == u32_le(value_for(three.fat, i)) by {
            assert(three.fat_cell(i) == two.fat_cell(i));
        }
    }
    assert(lists_in_step(three, file, n)) by {
        assert forall|k: int| 0 <= k < n implies region_after(
            file,
            three.pending,
            #[trigger] three.difat_cell(k),
            4,
        ) == u32_le(three.difat[k]) by {
            lemma_difat_cell(two, k);
            assert(three.difat_cell(k) == two.difat_cell(k));
        }
    }
    let count = u32_le((m + 1) as u32);
    assert(u32_le(id).len() == 4 && count.len() == 4);
    if m == 0 {
        lemma_other_written(three, file, 68, u32_le(id), id, cap, n);
        lemma_other_written(three.written(68, u32_le(id)), file, 72, count, id, cap, n);
    } else {
        let at = sector_start(v, s.difat_sectors[m - 1] as int) + v.sector_size() - 4;
        assert(three.difat_sectors[m - 1] == s.difat_sectors[m - 1]);
        lemma_list_linked(three, file, m - 1, id, cap, n);
        lemma_other_written(three.written(at, u32_le(id)), file, 72, count, id, cap, n);
    }
}

/// Listing the last FAT sector, and counting it, puts the file in step with the list.
proof fn lemma_listed_in_step(listed: StorageView, file: spec_fn(int) -> u8, k: int, id: u32)
    requires
        roles_apart(listed),
        listed.difat.len() == k + 1,
        listed.difat[k] == id,
        0 <= k < difat_capacity(listed.version, listed.difat_sectors.len() as int),
        values_in_step(listed, file, fat_capacity(listed.version, k + 1)),
        lists_in_step(listed, file, k),
    ensures
        fat_in_step(
            listed.written(listed.difat_cell(k), u32_le(id)).written(44, u32_le((k + 1) as u32)),
            file,
            true,
        ),
{
    let v = listed.version;
    let cap = fat_capacity(v, k + 1);
    let t = listed.written(listed.difat_cell(k), u32_le(id));
    let w = WriteView { offset: listed.difat_cell(k), bytes: u32_le(id) };
    assert(u32_le(id).len() == 4);
    lemma_difat_cell(listed, k);
    assert(values_in_step(t, file, cap)) by {
        assert forall|i: int| 0 <= i < cap implies region_after(
            file,
            t.pending,
            #[trigger] t.fat_cell(i),
            4,
        ) == u32_le(value_for(t.fat, i)) by {
            assert(t.fat_cell(i) == listed.fat_cell(i));
            lemma_fat_cell(listed, i);
            if k >= 109 {
                assert(listed.difat[cell_sector(v, i)] != listed.difat_sectors[listing_sector(v, k)]);
            }
            crate::sync::lemma_region_beside(file, listed.pending, w, listed.fat_cell(i), 4);
        }
    }
    assert(lists_in_step(t, file, k + 1)) by {
        assert forall|j: int| 0 <= j < k + 1 implies region_after(
            file,
            t.pending,
            #[trigger] t.difat_cell(j),
            4,
        ) == u32_le(t.difat[j]) by {
            assert(t.difat_cell(j) == listed.difat_cell(j));
            lemma_difat_cell(listed, j);
            if j == k {
                crate::sync::lemma_region_within(file, listed.pending, w, listed.difat_cell(k), 4);
                assert(patched(
                    region_after(file, listed.pending, listed.difat_cell(k), 4),
                    0,
                    u32_le(id),
                ) =~= u32_le(id));
            } else {
                if k >= 109 && j >= 109 {
                    let (a, b) = (listing_sector(v, j), listing_sector(v, k));
                    if a != b {
                        assert(listed.difat_sectors[a] != listed.difat_sectors[b]);
                    }
                }
                crate::sync::lemma_region_beside(file, listed.pending, w, listed.difat_cell(j), 4);
            }
        }
    }
    let count = u32_le((k + 1) as u32);
    assert(count.len() == 4);
    lemma_other_written(t, file, 44, count, id, cap, k + 1);
}

/// Adding a sector for the FAT keeps the file in step.
proof fn lemma_fat_grown_in_step(s: StorageView, file: spec_fn(int) -> u8)
    requires
        s.wf(),
        s.fat.len() == fat_capacity(s.version, s.difat.len() as int),
        s.fat.len() + 2 <= consts::MAX_REGULAR_SECTOR + 1,
        fat_in_step(s, file, true),
    ensures
        fat_in_step(s.fat_grown(), file, true),
{
    let v = s.version;
    let id = s.fat.len() as u32;
    let k = s.difat.len() as int;
    let m = s.difat_sectors.len() as int;
    let cap = fat_capacity(v, k + 1);
    let fill = init_bytes(v, SectorInit::Fat);
    lemma_roles_apart(s);
    crate::storage::lemma_fat_sector_added(s);
    crate::sync::lemma_init_len(v, SectorInit::Fat);
    assert(!s.difat.contains(id)) by {
        if s.difat.contains(id) {
            let i = choose|i: int| 0 <= i < s.difat.len() && s.difat[i] == id;
            assert(s.difat[i] < s.fat.len());
        }
    }
    assert(!s.difat_sectors.contains(id)) by {
        if s.difat_sectors.contains(id) {
            let i = choose|i: int| 0 <= i < s.difat_sectors.len() && s.difat_sectors[i] == id;
            assert(s.difat_sectors[i] < s.fat.len());
        }
    }
    lemma_other_written(s, file, sector_start(v, id as int), fill, id, fat_capacity(v, k), k);
    let one = s.sector_filled(id as int, SectorInit::Fat);
    let two = StorageView { difat: s.difat.push(id), ..one };
    assert(values_in_step(two, file, cap)) by {
        assert forall|i: int| 0 <= i < cap implies region_after(
            file,
            two.pending,
            #[trigger] two.fat_cell(i),
            4,
        ) == u32_le(value_for(two.fat, i)) by {
            lemma_fat_cell(two, i);
            if i < fat_capacity(v, k) {
                lemma_fat_cell(one, i);
                assert(two.fat_cell(i) == one.fat_cell(i));
            } else {
                assert(cell_sector(v, i) == k);
                assert(two.difat[k] == id);
                assert(two.pending.last() == (WriteView {
                    offset: sector_start(v, id as int),
                    bytes: fill,
                }));
                assert(region_after(file, two.pending, two.fat_cell(i), 4) =~= u32_le(FREE_SECTOR));
            }
        }
    }
    assert(lists_in_step(two, file, k)) by {
        assert forall|j: int| 0 <= j < k implies region_after(
            file,
            two.pending,
            #[trigger] two.difat_cell(j),
            4,
        ) == u32_le(two.difat[j]) by {
            assert(two.difat_cell(j) == one.difat_cell(j));
        }
    }
    assert(roles_apart(two)) by {
        assert forall|i: int, j: int|
            0 <= i < two.difat.len() && 0 <= j
                < two.difat_sectors.len() implies #[trigger] two.difat[i]
            != #[trigger] two.difat_sectors[j] by {
            assert(s.difat_sectors.contains(s.difat_sectors[j]));
            if i < k {
                assert(s.difat[i] != s.difat_sectors[j]);
            }
        }
        assert forall|i: int, j: int|
            0 <= i < j < two.difat.len() implies two.difat[i] != two.difat[j] by {
            assert(s.difat.contains(s.difat[i]));
        }
    }
    lemma_value_set(two, file, id as int, FAT_SECTOR, cap, k);
    let added = s.fat_sector_added();
    assert(roles_apart(added));
    let listed = if k < difat_capacity(v, m) {
        added
    } else {
        lemma_difat_grown_in_step(added, file, k);
        added.difat_grown()
    };
    assert(listed.difat == s.difat.push(id));
    lemma_listed_in_step(listed, file, k, id);
}

/// Beginning a chain keeps the file in step with the FAT.
pub proof fn lemma_chain_begun_in_step(
    s: StorageView,
    file: spec_fn(int) -> u8,
    init: SectorInit,
    spare: bool,
)
    requires
        s.wf(),
        s.has_room(),
        fat_in_step(s, file, spare),
    ensures
        fat_in_step(s.chain_begun(init), file, spare),
{
    let v = s.version;
    let id = s.next_sector();
    crate::storage::lemma_free_sector(s.fat, 0);
    crate::storage::lemma_chain_begun(s, init);
    let u = if free_sector(s.fat) < s.fat.len() {
        s
    } else {
        if s.fat.len() == fat_capacity(v, s.difat.len() as int) {
            crate::storage::lemma_fat_grown(s);
            lemma_fat_grown_in_step(s, file);
        }
        s.with_spare_cell()
    };
    assert(u.wf() && fat_in_step(u, file, spare));
    lemma_roles_apart(u);
    lemma_value_set(
        u,
        file,
        id as int,
        END_OF_CHAIN,
        value_count(u, spare),
        u.difat.len() as int,
    );
    let one = u.fat_set(id as int, END_OF_CHAIN);
    let t = s.chain_begun(init);
    crate::sync::lemma_init_len(v, init);
    assert(!one.difat.contains(id)) by {
        if one.difat.contains(id) {
            let i = choose|i: int| 0 <= i < t.difat.len() && t.difat[i] == id;
            assert(t.fat[t.difat[i] as int] == FAT_SECTOR);
        }
    }
    assert(!one.difat_sectors.contains(id)) by {
        if one.difat_sectors.contains(id) {
            let i = choose|i: int| 0 <= i < t.difat_sectors.len() && t.difat_sectors[i] == id;
            assert(t.fat[t.difat_sectors[i] as int] == DIFAT_SECTOR);
        }
    }
    lemma_other_written(
        one,
        file,
        sector_start(v, id as int),
        init_bytes(v, init),
        id,
        value_count(one, spare),
        one.difat.len() as int,
    );
}

/// Extending a chain keeps the file in step with the FAT.
pub proof fn lemma_chain_extended_in_step(
    s: StorageView,
    file: spec_fn(int) -> u8,
    start: u32,
    init: SectorInit,
    spare: bool,
)
    requires
        s.wf(),
        s.has_room(),
        has_chain(s.fat, start),
        start != END_OF_CHAIN,
        fat_in_step(s, file, spare),
    ensures
        fat_in_step(s.chain_extended(start, init), file, spare),
{
    let chain = chain_of(s.fat, start);
    let u = s.chain_begun(init);
    crate::storage::lemma_chain_begun(s, init);
    lemma_chain_begun_in_step(s, file, init, spare);
    lemma_roles_apart(u);
    assert(chain.last() == chain[chain.len() - 1] && chain.last() < s.fat.len());
    lemma_value_set(
        u,
        file,
        chain.last() as int,
        s.next_sector(),
        value_count(u, spare),
        u.difat.len() as int,
    );
}

/// Giving up a chain keeps the file in step with the FAT.
pub proof fn lemma_chain_freed_in_step(
    s: StorageView,
    file: spec_fn(int) -> u8,
    start: u32,
    spare: bool,
)
    requires
        s.wf(),
        has_chain(s.fat, start),
        fat_in_step(s, file, spare),
    ensures
        fat_in_step(s.chain_freed(start), file, spare),
{
    let chain = chain_of(s.fat, start);
    lemma_sectors_freed_in_step(s, file, start, chain, chain.len() as int, spare);
    assert(chain.take(chain.len() as int) =~= chain);
}

proof fn lemma_sectors_freed_in_step(
    s: StorageView,
    file: spec_fn(int) -> u8,
    start: u32,
    chain: Seq<u32>,
    n: int,
    spare: bool,
)
    requires
        s.wf(),
        is_chain(s.fat, start, chain),
        0 <= n <= chain.len(),
        fat_in_step(s, file, spare),
    ensures
        fat_in_step(s.sectors_freed(chain.take(n)), file, spare),
    decreases n,
{
    if n == 0 {
        assert(chain.take(0) =~= Seq::<u32>::empty());
    } else {
        lemma_sectors_freed_in_step(s, file, start, chain, n - 1, spare);
        crate::storage::lemma_sectors_freed(s, start, chain, n - 1);
        let u = s.sectors_freed(chain.take(n - 1));
        lemma_roles_apart(u);
        assert(chain.take(n).drop_last() =~= chain.take(n - 1));
        assert(chain[n - 1] < s.fat.len());
        lemma_value_set(
            u,
            file,
            chain[n - 1] as int,
            FREE_SECTOR,
            value_count(u, spare),
            u.difat.len() as int,
        );
    }
}

/// A write within a sector that neither holds nor lists a part of the FAT, such as
/// every sector of a chain, keeps the file in step with the FAT.
pub proof fn lemma_write_in_step(
    s: StorageView,
    file: spec_fn(int) -> u8,
    offset: int,
    bytes: Seq<u8>,
    id: u32,
    spare: bool,
)
    requires
        s.wf(),
        fat_in_step(s, file, spare),
        sector_start(s.version, id as int) <= offset,
        offset + bytes.len() <= sector_start(s.version, id as int) + s.version.sector_size(),
        !s.difat.contains(id),
        !s.difat_sectors.contains(id),
    ensures
        fat_in_step(s.written(offset, bytes), file, spare),
{
    lemma_other_written(
        s,
        file,
        offset,
        bytes,
        id,
        value_count(s, spare),
        s.difat.len() as int,
    );
}

/// Once the file has received all writes, it is in step with the FAT without any.
pub proof fn lemma_flush_fat_in_step(s: StorageView, file: spec_fn(int) -> u8, spare: bool)
    requires
        fat_in_step(s, file, spare),
    ensures
        fat_in_step(
            (StorageView { pending: Seq::empty(), ..s }),
            crate::sync::file_after(file, s.pending),
            spare,
        ),
{
    let t = StorageView { pending: Seq::empty(), ..s };
    let file2 = crate::sync::file_after(file, s.pending);
    assert forall|i: int|
        0 <= i < value_count(t, spare) implies region_after(
        file2,
        t.pending,
        #[trigger] t.fat_cell(i),
        4,
    ) == u32_le(value_for(t.fat, i)) by {
        let at = s.fat_cell(i);
        assert(t.fat_cell(i) == at);
        assert(region_after(file2, t.pending, at, 4) =~= region_after(file, s.pending, at, 4));
    }
    assert forall|k: int| 0 <= k < t.difat.len() implies region_after(
        file2,
        t.pending,
        #[trigger] t.difat_cell(k),
        4,
    ) == u32_le(t.difat[k]) by {
        let at = s.difat_cell(k);
        assert(t.difat_cell(k) == at);
        assert(region_after(file2, t.pending, at, 4) =~= region_after(file, s.pending, at, 4));
    }
}

/// A write within an entry of the directory keeps the file in step with the FAT.
proof fn lemma_entry_fat_in_step(
    d: DirectoryView,
    file: spec_fn(int) -> u8,
    i: int,
    offset: int,
    bytes: Seq<u8>,
    spare: bool,
)
    requires
        d.stored(),
        fat_in_step(d.storage, file, spare),
        0 <= i < d.entries.len(),
        d.entry_at(i) <= offset,
        offset + bytes.len() <= d.entry_at(i) + 128,
    ensures
        fat_in_step(d.storage.written(offset, bytes), file, spare),
{
    let k = crate::sync::lemma_place_in_sector(d.storage.version, d.sectors(), i);
    crate::sync::lemma_chain_apart(d.storage, d.start, d.sectors());
    lemma_write_in_step(d.storage, file, offset, bytes, d.sectors()[k], spare);
}

/// Replacing an entry keeps the file in step with the FAT.
pub proof fn lemma_entry_written_fat_in_step(
    d: DirectoryView,
    file: spec_fn(int) -> u8,
    id: u32,
    entry: EntryView,
    spare: bool,
)
    requires
        d.stored(),
        fat_in_step(d.storage, file, spare),
        id < d.entries.len(),
    ensures
        fat_in_step(d.entry_written(id, entry).storage, file, spare),
{
    crate::direntry::lemma_entry_bytes(entry, 0);
    lemma_entry_fat_in_step(d, file, id as int, d.entry_at(id as int), entry.bytes(), spare);
}

/// Setting a link of an entry keeps the file in step with the FAT.
pub proof fn lemma_link_written_fat_in_step(
    d: DirectoryView,
    file: spec_fn(int) -> u8,
    slot: Slot,
    id: u32,
    spare: bool,
)
    requires
        d.stored(),
        fat_in_step(d.storage, file, spare),
        slot.holder() < d.entries.len(),
    ensures
        fat_in_step(d.link_written(slot, id).storage, file, spare),
{
    let h = slot.holder() as int;
    assert(u32_le(id).len() == 4);
    lemma_entry_fat_in_step(d, file, h, d.entry_at(h) + slot.offset(), u32_le(id), spare);
}

/// Adding an object keeps the file in step with the FAT.
pub proof fn lemma_inserted_fat_in_step(
    d: DirectoryView,
    file: spec_fn(int) -> u8,
    parent: u32,
    name: Seq<char>,
    obj_type: u8,
    now: u64,
    spare: bool,
)
    requires
        d.wf(),
        d.stored(),
        d.has_place(),
        fat_in_step(d.storage, file, spare),
        reachable(d.entries).contains(parent),
        find(d.entries, children(d.entries, parent), name) is None,
        obj_type != consts::OBJ_TYPE_UNALLOCATED,
    ensures
        fat_in_step(d.inserted(parent, name, obj_type, now).storage, file, spare),
{
    let es = d.entries;
    let id = free_entry(es);
    let entry = EntryView::created(name, obj_type, now);
    let slot = insertion_slot(es, parent, name);
    let p = d.with_place();
    crate::directory::lemma_with_place(d);
    crate::model::lemma_free_entry(es, 0);
    crate::model::lemma_with_object_tree(es, parent, name, obj_type, now);
    crate::model::lemma_the_tree(es);
    if d.is_full() {
        lemma_chain_extended_in_step(d.storage, file, d.start, SectorInit::Dir, spare);
    }
    let placed = DirectoryView { entries: put(es, id, entry), ..p };
    assert(placed.stored());
    lemma_link_written_fat_in_step(placed, file, slot, id as u32, spare);
    let linked = placed.link_written(slot, id as u32);
    assert(linked.stored());
    lemma_entry_written_fat_in_step(linked, file, id as u32, entry, spare);
}

/// Removing an object keeps the file in step with the FAT.
pub proof fn lemma_erased_fat_in_step(
    d: DirectoryView,
    file: spec_fn(int) -> u8,
    parent: u32,
    name: Seq<char>,
    spare: bool,
)
    requires
        d.wf(),
        d.stored(),
        fat_in_step(d.storage, file, spare),
        reachable(d.entries).contains(parent),
        d.can_erase(parent, name),
    ensures
        fat_in_step(d.erased(parent, name).storage, file, spare),
{
    crate::directory::lemma_removal(d, parent, name);
    let (slot, found) = removal(d.entries, parent, name);
    let top = found.top();
    let left = d.entries[top as int].left_sibling;
    let right = d.entries[top as int].right_sibling;
    let cleared = EntryView::unallocated();
    if left == NO_STREAM || right == NO_STREAM {
        let link = if left == NO_STREAM { right } else { left };
        lemma_link_written_fat_in_step(d, file, slot, link, spare);
        lemma_entry_written_fat_in_step(d.link_written(slot, link), file, top, cleared, spare);
    } else {
        let (from, last) = rightmost(found.left(), Slot::Left(top));
        let moved = d.entries[last.top() as int];
        let entry = moved.with_left(left).with_right(right);
        let one = d.entry_written(top, entry);
        let two = one.link_written(from, moved.left_sibling);
        lemma_entry_written_fat_in_step(d, file, top, entry, spare);
        lemma_link_written_fat_in_step(one, file, from, moved.left_sibling, spare);
        lemma_entry_written_fat_in_step(two, file, last.top(), cleared, spare);
    }
}

} // verus!

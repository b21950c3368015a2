//! Where things are in the file, and what taking and giving up sectors does to the file
//! allocation table (FAT), in numbers.
use crate::allocator::Chain;
use crate::consts;
use crate::direntry::{read_u32, EntryView};
use crate::directory::{entry_capacity, entry_position};
use crate::storage::{
    chain_of, difat_capacity, fat_capacity, free_sector, has_chain, init_bytes,
    sector_start, SectorInit, StorageView,
};
use crate::sync::region_after;
use crate::version::Version;
use vstd::prelude::*;

verus! {

/// A sector has 512 bytes in one version and 4096 in the other, and lies behind the
/// header and the sectors with lesser numbers.
pub proof fn lemma_sector_place(id: int)
    ensures
        Version::V3.sector_size() == 512,
        Version::V4.sector_size() == 4096,
        sector_start(Version::V3, id) == 512 * id + 512,
        sector_start(Version::V4, id) == 4096 * id + 4096,
{
}

/// A directory entry takes 128 bytes, so that a sector of 512 bytes holds 4 of them and
/// one of 4096 bytes 32, in order.
pub proof fn lemma_entry_place(sectors: Seq<u32>, i: int)
    ensures
        Version::V3.entries_per_sector() == 4,
        Version::V4.entries_per_sector() == 32,
        entry_capacity(Version::V3, sectors.len() as int) == 4 * sectors.len(),
        entry_capacity(Version::V4, sectors.len() as int) == 32 * sectors.len(),
        entry_position(Version::V3, sectors, i) == 512 * sectors[i / 4] + 512 + 128 * (i % 4),
        entry_position(Version::V4, sectors, i) == 4096 * sectors[i / 32] + 4096 + 128 * (i % 32),
{
}

/// A byte of a chain lies in the sector whose turn it is.
pub proof fn lemma_chain_place(sectors: Seq<u32>, offset: int)
    ensures
        Chain::size(Version::V3, sectors) == 512 * sectors.len(),
        Chain::size(Version::V4, sectors) == 4096 * sectors.len(),
        Chain::position(Version::V3, sectors, offset) == 512 * sectors[offset / 512] + 512 + offset
            % 512,
        Chain::position(Version::V4, sectors, offset) == 4096 * sectors[offset / 4096] + 4096
            + offset % 4096,
{
}

/// A FAT value takes 4 bytes, so that a FAT sector of 512 bytes holds 128 of them and one
/// of 4096 bytes 1024, in order. The first 109 FAT sectors are listed in the header from
/// offset 76 on. All others are listed in sectors of their own, each of which keeps its
/// last 4 bytes for the number of the next.
pub proof fn lemma_fat_places(s: StorageView, i: int, k: int)
    ensures
        s.version == Version::V3 ==> {
            &&& fat_capacity(s.version, k) == 128 * k
            &&& difat_capacity(s.version, k) == 109 + 127 * k
            &&& s.fat_cell(i) == 512 * s.difat[i / 128] + 512 + 4 * (i % 128)
            &&& k >= 109 ==> s.difat_cell(k) == 512 * s.difat_sectors[(k - 109) / 127] + 512 + 4 * ((
            k - 109) % 127)
        },
        s.version == Version::V4 ==> {
            &&& fat_capacity(s.version, k) == 1024 * k
            &&& difat_capacity(s.version, k) == 109 + 1023 * k
            &&& s.fat_cell(i) == 4096 * s.difat[i / 1024] + 4096 + 4 * (i % 1024)
            &&& k >= 109 ==> s.difat_cell(k) == 4096 * s.difat_sectors[(k - 109) / 1023] + 4096 + 4
                * ((k - 109) % 1023)
        },
        k < 109 ==> s.difat_cell(k) == 76 + 4 * k,
{
}

/// What a new sector holds: zeros; the marks of free sectors; an empty list that no other
/// follows; or directory entries that are not in use.
pub proof fn lemma_new_sector(v: Version)
    ensures
        ({
            let n = v.sector_size();
            let (zero, fat) = (init_bytes(v, SectorInit::Zero), init_bytes(v, SectorInit::Fat));
            let (difat, dir) = (init_bytes(v, SectorInit::Difat), init_bytes(v, SectorInit::Dir));
            &&& zero.len() == n
            &&& fat.len() == n
            &&& difat.len() == n
            &&& dir.len() == n
            &&& forall|i: int| 0 <= i < n ==> #[trigger] zero[i] == 0
            &&& forall|i: int| 0 <= i < n ==> #[trigger] fat[i] == 0xff
            &&& forall|i: int| 0 <= i < n - 4 ==> #[trigger] difat[i] == 0xff
            &&& read_u32(difat, n - 4) == 0xffff_fffe
            &&& forall|i: int|
                0 <= i < n ==> #[trigger] dir[i] == EntryView::unallocated().bytes()[i % 128]
        }),
{
    let n = v.sector_size();
    let difat = init_bytes(v, SectorInit::Difat);
    crate::direntry::lemma_read_u32(0xffff_fffe);
    let tail = crate::bytes::u32_le(0xffff_fffe);
    assert forall|i: int| 0 <= i < 4 implies difat[n - 4 + i] == #[trigger] tail[i] by {}
    assert(difat[n - 4] == tail[0] && difat[n - 3] == tail[1] && difat[n - 2] == tail[2] && difat[n
        - 1] == tail[3]);
}

/// A chain is what following the FAT from its first sector to the end mark comes to, each
/// sector once.
pub proof fn lemma_chain_meaning(s: StorageView, start: u32)
    requires
        s.wf(),
        has_chain(s.fat, start),
    ensures
        ({
            let chain = chain_of(s.fat, start);
            &&& start == 0xffff_fffe ==> chain.len() == 0
            &&& start != 0xffff_fffe ==> chain.len() > 0 && chain[0] == start && s.fat[chain.last() as int]
                == 0xffff_fffe
            &&& forall|i: int| 0 <= i < chain.len() ==> (#[trigger] chain[i]) < s.fat.len()
            &&& forall|i: int|
                0 <= i < chain.len() - 1 ==> s.fat[(#[trigger] chain[i]) as int] == chain[i + 1]
            &&& chain.no_duplicates()
        }),
{
    crate::storage::lemma_chain_distinct(s.fat, start, chain_of(s.fat, start));
}

/// The values that beginning a chain leaves in the FAT: the first free sector is marked as
/// the end of a chain. Where there is none, one more sector is, behind those that the FAT
/// itself takes if it has to grow: one for its values if it is full, and one more to list
/// that one if there is no room for that.
pub proof fn lemma_begun_values(s: StorageView, init: SectorInit)
    requires
        s.wf(),
        s.has_room(),
    ensures
        ({
            let t = s.chain_begun(init);
            let id = s.next_sector() as int;
            let n = s.fat.len() as int;
            let full = n == fat_capacity(s.version, s.difat.len() as int);
            let unlisted = s.difat.len() == difat_capacity(s.version, s.difat_sectors.len() as int);
            &&& t.version == s.version
            &&& 0 <= id < t.fat.len()
            &&& t.fat[id] == 0xffff_fffe
            &&& forall|i: int| 0 <= i < n && i != id ==> #[trigger] t.fat[i] == s.fat[i]
            &&& id < n ==> {
                &&& s.fat[id] == 0xffff_ffff
                &&& forall|i: int| 0 <= i < id ==> #[trigger] s.fat[i] != 0xffff_ffff
                &&& t.fat.len() == n
                &&& t.difat == s.difat
                &&& t.difat_sectors == s.difat_sectors
            }
            &&& id >= n ==> {
                &&& forall|i: int| 0 <= i < n ==> #[trigger] s.fat[i] != 0xffff_ffff
                &&& t.fat.len() == id + 1
                &&& !full ==> id == n && t.difat == s.difat && t.difat_sectors == s.difat_sectors
                &&& full && !unlisted ==> {
                    &&& id == n + 1
                    &&& t.fat[n] == 0xffff_fffd
                    &&& t.difat == s.difat.push(n as u32)
                    &&& t.difat_sectors == s.difat_sectors
                }
                &&& full && unlisted ==> {
                    &&& id == n + 2
                    &&& t.fat[n] == 0xffff_fffd
                    &&& t.fat[n + 1] == 0xffff_fffc
                    &&& t.difat == s.difat.push(n as u32)
                    &&& t.difat_sectors == s.difat_sectors.push((n + 1) as u32)
                }
            }
        }),
{
    crate::storage::lemma_free_sector(s.fat, 0);
    crate::storage::lemma_chain_begun(s, init);
    if free_sector(s.fat) >= s.fat.len() && s.fat.len() == fat_capacity(
        s.version,
        s.difat.len() as int,
    ) {
        crate::storage::lemma_fat_grown(s);
        crate::storage::lemma_fat_sector_added(s);
    }
}

/// The values that extending a chain leaves in the FAT: those of beginning one, but that
/// the last sector of the chain leads to the new one.
pub proof fn lemma_extended_values(s: StorageView, start: u32, init: SectorInit)
    requires
        s.wf(),
        s.has_room(),
        has_chain(s.fat, start),
        start != consts::END_OF_CHAIN,
    ensures
        ({
            let begun = s.chain_begun(init);
            let t = s.chain_extended(start, init);
            let last = chain_of(s.fat, start).last() as int;
            &&& t.version == s.version
            &&& t.difat == begun.difat
            &&& t.difat_sectors == begun.difat_sectors
            &&& t.fat.len() == begun.fat.len()
            &&& 0 <= last < s.fat.len()
            &&& s.fat[last] == 0xffff_fffe
            &&& t.fat[last] == s.next_sector()
            &&& forall|i: int| 0 <= i < t.fat.len() && i != last ==> #[trigger] t.fat[i]
                == begun.fat[i]
        }),
{
    let chain = chain_of(s.fat, start);
    crate::storage::lemma_chain_begun(s, init);
    crate::storage::lemma_chain_extended(s, start, init);
    assert(chain.last() == chain[chain.len() - 1]);
}

/// The values that giving up a chain leaves in the FAT: all sectors of the chain are free,
/// and nothing else changes.
pub proof fn lemma_freed_values(s: StorageView, start: u32)
    requires
        s.wf(),
        has_chain(s.fat, start),
    ensures
        ({
            let t = s.chain_freed(start);
            let chain = chain_of(s.fat, start);
            &&& t.version == s.version
            &&& t.difat == s.difat
            &&& t.difat_sectors == s.difat_sectors
            &&& t.fat.len() == s.fat.len()
            &&& forall|x: u32|
                x < s.fat.len() ==> #[trigger] t.fat[x as int] == if chain.contains(x) {
                    0xffff_ffff
                } else {
                    s.fat[x as int]
                }
        }),
{
    let t = s.chain_freed(start);
    let chain = chain_of(s.fat, start);
    crate::storage::lemma_sectors_freed(s, start, chain, chain.len() as int);
    assert(chain.take(chain.len() as int) =~= chain);
    assert forall|x: u32| x < s.fat.len() implies #[trigger] t.fat[x as int] == if chain.contains(
        x,
    ) {
        0xffff_ffff
    } else {
        s.fat[x as int]
    } by {
        if chain.contains(x) {
            let i = choose|i: int| 0 <= i < chain.len() && chain[i] == x;
            assert(t.fat[chain[i] as int] == consts::FREE_SECTOR);
        }
    }
}

/// The file, once it has received all writes, holds in the sector of a chain that is begun
/// what a new sector is filled with.
pub proof fn lemma_begun_contents(s: StorageView, file: spec_fn(int) -> u8, init: SectorInit)
    requires
        s.wf(),
        s.has_room(),
    ensures
        region_after(
            file,
            s.chain_begun(init).pending,
            sector_start(s.version, s.next_sector() as int),
            s.version.sector_size() as nat,
        ) == init_bytes(s.version, init),
{
    let t = s.chain_begun(init);
    let at = sector_start(s.version, s.next_sector() as int);
    crate::sync::lemma_chain_begun_beside(s, init, Seq::empty());
    crate::sync::lemma_init_len(s.version, init);
    assert(region_after(file, t.pending, at, s.version.sector_size() as nat) =~= init_bytes(
        s.version,
        init,
    ));
}

/// The file, once it has received all writes, holds in the sector that a chain is extended
/// by what a new sector is filled with.
pub proof fn lemma_extended_contents(
    s: StorageView,
    file: spec_fn(int) -> u8,
    start: u32,
    init: SectorInit,
)
    requires
        s.wf(),
        s.has_room(),
        has_chain(s.fat, start),
        start != consts::END_OF_CHAIN,
    ensures
        region_after(
            file,
            s.chain_extended(start, init).pending,
            sector_start(s.version, s.next_sector() as int),
            s.version.sector_size() as nat,
        ) == init_bytes(s.version, init),
{
    crate::sync::lemma_chain_extended_beside(s, file, start, init);
}

} // verus!

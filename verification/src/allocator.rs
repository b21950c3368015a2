//! The sector allocator: it takes sectors, links them into chains and gives them
//! up, and keeps the writes that the file has yet to receive.
use crate::bytes::{u32_le, write_u32_le};
use crate::consts;
use crate::consts::{DIFAT_SECTOR, END_OF_CHAIN, FAT_SECTOR, FREE_SECTOR};
use crate::direntry::DirEntry;
use crate::error::Error;
use crate::storage::{
    chain_of, fat_capacity, free_sector, free_sector_from, has_chain, init_bytes, is_chain,
    sector_start, write_views, SectorInit, StorageView, Write, WriteView,
};
use crate::version::Version;
use std::collections::HashSet;
use vstd::prelude::*;

verus! {

/// A part of the file, and a place in it.
#[derive(Clone, Copy, Debug, PartialEq, Eq)]
pub struct Sector {
    /// Where in the file the part begins.
    pub start: u64,
    /// The length of the part.
    pub len: usize,
    /// The place in the part.
    pub offset: usize,
}

impl Sector {
    /// The place lies in the part, and the part in a file.
    pub open spec fn wf(self) -> bool {
        &&& self.offset <= self.len
        &&& self.start + self.len <= u64::MAX
    }

    /// How many bytes the part has from the place on.
    pub open spec fn rest(self) -> int {
        self.len - self.offset
    }
}

/// A chain of sectors.
#[derive(Debug)]
pub struct Chain {
    /// The sectors of the chain, in order.
    pub sector_ids: Vec<u32>,
    /// What a sector that is added to the chain is filled with.
    pub init: SectorInit,
    /// The version of the file.
    pub version: Version,
}

impl Chain {
    /// Where in the file the byte at `offset` in a chain of sectors is.
    pub open spec fn position(version: Version, sectors: Seq<u32>, offset: int) -> int {
        match version {
            Version::V3 => sector_start(version, sectors[offset / 512] as int) + offset % 512,
            Version::V4 => sector_start(version, sectors[offset / 4096] as int) + offset % 4096,
        }
    }

    /// How many bytes a chain of sectors has.
    pub open spec fn size(version: Version, sectors: Seq<u32>) -> int {
        match version {
            Version::V3 => sectors.len() as int * 512,
            Version::V4 => sectors.len() as int * 4096,
        }
    }

    /// Returns where in the file the byte at `offset` in the chain is, or nothing
    /// if the chain ends before it.
    pub fn locate(&self, offset: u64) -> (position: Option<u64>)
        ensures
            match position {
                Some(position) => {
                    &&& offset < Self::size(self.version, self.sector_ids@)
                    &&& position == Self::position(self.version, self.sector_ids@, offset as int)
                },
                None => offset >= Self::size(self.version, self.sector_ids@),
            },
    {
        let (index, rest): (u64, u64) = match self.version {
            Version::V3 => (offset / 512, offset % 512),
            Version::V4 => (offset / 4096, offset % 4096),
        };
        if index < self.sector_ids.len() as u64 {
            Some(sector_offset(self.version, self.sector_ids[index as usize]) + rest)
        } else {
            None
        }
    }
}

/// Returns the offset of a sector in the file.
fn sector_offset(version: Version, id: u32) -> (offset: u64)
    ensures
        offset == sector_start(version, id as int),
        offset <= 0x1000_0000_0000,
{
    match version {
        Version::V3 => (id as u64 + 1) * 512,
        Version::V4 => (id as u64 + 1) * 4096,
    }
}

/// The sector allocator of a compound file. `F` is whatever stands for the file;
/// the allocator only keeps it.
pub struct Allocator<F> {
    inner: F,
    version: Version,
    difat_sectors: Vec<u32>,
    difat: Vec<u32>,
    fat: Vec<u32>,
    pending: Vec<Write>,
}

impl<F> View for Allocator<F> {
    type V = StorageView;

    closed spec fn view(&self) -> StorageView {
        StorageView {
            version: self.version,
            difat_sectors: self.difat_sectors@,
            difat: self.difat@,
            fat: self.fat@,
            pending: write_views(self.pending@),
        }
    }
}

impl<F> Allocator<F> {
    /// What stands for the file.
    pub closed spec fn file(self) -> F {
        self.inner
    }

    /// Returns the version of the file.
    pub fn version(&self) -> (version: Version)
        ensures
            version == self@.version,
    {
        self.version
    }

    /// Returns the length of a sector, in bytes.
    pub fn sector_len(&self) -> (len: usize)
        ensures
            len == self@.version.sector_size(),
    {
        self.version.sector_len()
    }

    /// Hands back what stands for the file.
    pub fn into_inner(self) -> (inner: F)
        ensures
            inner == self.file(),
    {
        self.inner
    }

    /// Gives access to what stands for the file.
    pub fn inner_mut(&mut self) -> (inner: &mut F)
        ensures
            *inner == old(self).file(),
            final(self).file() == *final(inner),
            final(self)@ == old(self)@,
    {
        &mut self.inner
    }

    /// Returns the next sector of a chain, or the end-of-chain mark.
    pub fn next(&self, id: u32) -> (next: u32)
        requires
            id < self@.fat.len(),
        ensures
            next == self@.fat[id as int],
    {
        self.fat[id as usize]
    }

    /// Returns the sectors of the chain that begins with `start`, or nothing if
    /// following the FAT from there does not come to an end.
    pub fn chain_sectors(&self, start: u32) -> (sectors: Option<Vec<u32>>)
        requires
            self@.wf(),
        ensures
            match sectors {
                Some(sectors) => {
                    &&& is_chain(self@.fat, start, sectors@)
                    &&& sectors@ == chain_of(self@.fat, start)
                },
                None => !has_chain(self@.fat, start),
            },
    {
        let mut sectors: Vec<u32> = Vec::new();
        let mut current: u32 = start;
        let ghost fat = self@.fat;
        while current != END_OF_CHAIN
            invariant
                fat == self.fat@,
                self@.wf(),
                self@.fat == fat,
                sectors@.len() <= fat.len(),
                sectors@.len() == 0 ==> current == start,
                sectors@.len() > 0 ==> sectors@[0] == start && fat[sectors@.last() as int] == current,
                start == END_OF_CHAIN ==> sectors@.len() == 0,
                forall|i: int| 0 <= i < sectors@.len() ==> (#[trigger] sectors@[i]) < fat.len(),
                forall|i: int|
                    0 <= i < sectors@.len() - 1 ==> fat[(#[trigger] sectors@[i]) as int]
                        == sectors@[i + 1],
                forall|s: Seq<u32>| #[trigger]
                    is_chain(fat, start, s) ==> {
                        &&& sectors@.len() <= s.len()
                        &&& forall|i: int| 0 <= i < sectors@.len() ==> s[i] == sectors@[i]
                        &&& sectors@.len() < s.len() ==> s[sectors@.len() as int] == current
                        &&& sectors@.len() == s.len() ==> current == END_OF_CHAIN
                    },
            decreases fat.len() - sectors@.len(),
        {
            if current as usize >= self.fat.len() || sectors.len() >= self.fat.len() {
                proof {
                    assert forall|s: Seq<u32>| !is_chain(fat, start, s) by {
                        if is_chain(fat, start, s) {
                            crate::storage::lemma_chain_distinct(fat, start, s);
                            assert(s[sectors@.len() as int] < fat.len());
                        }
                    }
                }
                return None;
            }
            let ghost before = sectors@;
            sectors.push(current);
            let next: u32 = self.fat[current as usize];
            proof {
                assert forall|s: Seq<u32>| #[trigger] is_chain(fat, start, s) implies {
                    &&& sectors@.len() <= s.len()
                    &&& forall|i: int| 0 <= i < sectors@.len() ==> s[i] == sectors@[i]
                    &&& sectors@.len() < s.len() ==> s[sectors@.len() as int] == next
                    &&& sectors@.len() == s.len() ==> next == END_OF_CHAIN
                } by {
                    assert(s[before.len() as int] == current);
                    if sectors@.len() < s.len() {
                        assert(fat[s[before.len() as int] as int] == s[before.len() as int + 1]);
                    } else {
                        assert(s.last() == s[before.len() as int]);
                    }
                }
            }
            current = next;
        }
        proof {
            crate::storage::lemma_chain_of(fat, start, sectors@);
        }
        Some(sectors)
    }

    /// Opens the chain that begins with `start`.
    pub fn open_chain(&self, start: u32, init: SectorInit) -> (chain: Chain)
        requires
            self@.wf(),
            has_chain(self@.fat, start),
        ensures
            chain.sector_ids@ == chain_of(self@.fat, start),
            is_chain(self@.fat, start, chain.sector_ids@),
            chain.init == init,
            chain.version == self@.version,
    {
        match self.chain_sectors(start) {
            Some(sector_ids) => Chain { sector_ids, init, version: self.version },
            None => Chain { sector_ids: Vec::new(), init, version: self.version },
        }
    }

    /// Makes an allocator for a file that has been read: `fat` is its FAT, which
    /// the sectors in `difat` hold, of which the header and the sectors in
    /// `difat_sectors` tell. Fails if these do not account for each other.
    pub fn new(
        inner: F,
        version: Version,
        difat_sectors: Vec<u32>,
        difat: Vec<u32>,
        fat: Vec<u32>,
    ) -> (allocator: Result<Allocator<F>, Error>)
        ensures
            ({
                let storage = StorageView {
                    version,
                    difat_sectors: difat_sectors@,
                    difat: difat@,
                    fat: fat@,
                    pending: Seq::empty(),
                };
                match allocator {
                    Ok(allocator) => storage.wf() && allocator@ == storage && allocator.file()
                        == inner,
                    Err(error) => !storage.wf() && error@
                        == crate::error::ErrorView::AllocationTable,
                }
            }),
    {
        let allocator = Allocator {
            inner,
            version,
            difat_sectors,
            difat,
            fat,
            pending: Vec::new(),
        };
        assert(allocator@.pending =~= Seq::<WriteView>::empty());
        if allocator.is_consistent() {
            Ok(allocator)
        } else {
            Err(Error::AllocationTable)
        }
    }

    /// Tells whether the FAT, the sectors that hold it and those that list them
    /// account for each other.
    pub fn is_consistent(&self) -> (consistent: bool)
        ensures
            consistent == self@.wf(),
    {
        let sectors: u64 = self.fat.len() as u64;
        if sectors > consts::MAX_REGULAR_SECTOR as u64 + 1 || self.difat.len() > self.fat.len()
            || self.difat_sectors.len() > self.fat.len() {
            return false;
        }
        let lists: u64 = self.difat_sectors.len() as u64;
        let (cells, listings): (u64, u64) = match self.version {
            Version::V3 => (self.difat.len() as u64 * 128, 109 + lists * 127),
            Version::V4 => (self.difat.len() as u64 * 1024, 109 + lists * 1023),
        };
        if sectors > cells || self.difat.len() as u64 > listings {
            return false;
        }
        all_marked(&self.difat, &self.fat, FAT_SECTOR) && all_marked(
            &self.difat_sectors,
            &self.fat,
            DIFAT_SECTOR,
        )
    }

    /// Notes bytes that the file has yet to receive.
    pub(crate) fn write_at(&mut self, offset: u64, bytes: Vec<u8>)
        ensures
            final(self)@ == old(self)@.written(offset as int, bytes@),
            final(self).file() == old(self).file(),
    {
        let ghost write = Write { offset, bytes };
        self.pending.push(Write { offset, bytes });
        proof {
            assert(write_views(self.pending@) =~= write_views(old(self).pending@).push(write@));
        }
    }

    /// Notes a number that the file has yet to receive.
    fn write_number_at(&mut self, offset: u64, n: u32)
        ensures
            final(self)@ == old(self)@.written(offset as int, u32_le(n)),
            final(self).file() == old(self).file(),
    {
        let mut bytes: Vec<u8> = Vec::new();
        write_u32_le(&mut bytes, n);
        assert(bytes@ =~= u32_le(n));
        self.write_at(offset, bytes);
    }

    /// Writes as much of `bytes` as fits into the rest of a part of the file, and
    /// moves the place in it behind them. Returns how many bytes these were.
    pub fn write(&mut self, sector: &mut Sector, bytes: &[u8]) -> (count: usize)
        requires
            old(sector).wf(),
        ensures
            final(sector).wf(),
            count <= bytes@.len(),
            count <= old(sector).len - old(sector).offset,
            count == bytes@.len() || count == old(sector).len - old(sector).offset,
            count == if bytes@.len() < old(sector).rest() { bytes@.len() as int } else { old(sector).rest() },
            *final(sector) == (Sector { offset: (old(sector).offset + count) as usize, ..*old(sector) }),
            final(self)@ == if count == 0 {
                old(self)@
            } else {
                old(self)@.written(old(sector).start + old(sector).offset, bytes@.take(count as int))
            },
            final(self).file() == old(self).file(),
    {
        let rest: usize = sector.len - sector.offset;
        let count: usize = if bytes.len() < rest {
            bytes.len()
        } else {
            rest
        };
        if count > 0 {
            let mut out: Vec<u8> = Vec::new();
            let mut i: usize = 0;
            while i < count
                invariant
                    i <= count <= bytes@.len(),
                    out@ == bytes@.take(i as int),
                decreases count - i,
            {
                out.push(bytes[i]);
                assert(out@ =~= bytes@.take(i + 1));
                i += 1;
            }
            self.write_at(sector.start + sector.offset as u64, out);
            sector.offset = sector.offset + count;
        }
        count
    }

    /// Returns a place in the header of the file.
    pub fn seek_within_header(&self, offset: u64) -> (sector: Sector)
        requires
            offset < consts::HEADER_LEN,
        ensures
            sector == (Sector { start: 0, len: consts::HEADER_LEN, offset: offset as usize }),
            sector.len == 512,
            sector.wf(),
    {
        Sector { start: 0, len: consts::HEADER_LEN, offset: offset as usize }
    }

    /// Returns a place in one of the equal parts of a sector.
    pub fn seek_within_subsector(
        &self,
        sector_id: u32,
        index: u32,
        subsector_len: usize,
        offset: u64,
    ) -> (sector: Sector)
        requires
            sector_id < self@.fat.len(),
            (index + 1) * subsector_len <= self@.version.sector_size(),
            offset <= subsector_len,
        ensures
            sector.start == sector_start(self@.version, sector_id as int) + index * subsector_len,
            sector.len == subsector_len,
            sector.offset == offset,
            sector.wf(),
    {
        proof {
            vstd::arithmetic::mul::lemma_mul_is_distributive_add_other_way(
                subsector_len as int,
                index as int,
                1,
            );
            vstd::arithmetic::mul::lemma_mul_nonnegative(index as int, subsector_len as int);
        }
        let before: usize = index as usize * subsector_len;
        Sector {
            start: sector_offset(self.version, sector_id) + before as u64,
            len: subsector_len,
            offset: offset as usize,
        }
    }

    /// Sets the FAT value of a sector, or of the one behind all others.
    fn set_fat(&mut self, id: u32, value: u32)
        requires
            id <= old(self)@.fat.len(),
            id < fat_capacity(old(self)@.version, old(self)@.difat.len() as int),
        ensures
            final(self)@ == old(self)@.fat_set(id as int, value),
            final(self).file() == old(self).file(),
    {
        let index: usize = id as usize;
        let (which, within): (usize, u64) = match self.version {
            Version::V3 => (index / 128, 4 * (id as u64 % 128)),
            Version::V4 => (index / 1024, 4 * (id as u64 % 1024)),
        };
        let offset: u64 = sector_offset(self.version, self.difat[which]) + within;
        self.write_number_at(offset, value);
        if index < self.fat.len() {
            self.fat.set(index, value);
        } else {
            self.fat.push(value);
        }
        assert(self@ =~= old(self)@.fat_set(id as int, value));
    }

    /// Fills a sector.
    fn init_sector(&mut self, id: u32, init: SectorInit)
        ensures
            final(self)@ == old(self)@.sector_filled(id as int, init),
            final(self).file() == old(self).file(),
    {
        let bytes: Vec<u8> = filling(self.version, init);
        self.write_at(sector_offset(self.version, id), bytes);
    }

    /// Adds a sector that lists FAT sectors.
    fn append_difat_sector(&mut self)
        requires
            old(self)@.fat.len() < fat_capacity(old(self)@.version, old(self)@.difat.len() as int),
            old(self)@.fat.len() <= consts::MAX_REGULAR_SECTOR,
            old(self)@.difat_sectors.len() <= old(self)@.fat.len(),
        ensures
            final(self)@ == old(self)@.difat_grown(),
            final(self).file() == old(self).file(),
    {
        let id: u32 = self.fat.len() as u32;
        let count: usize = self.difat_sectors.len();
        let link: u64 = if count == 0 {
            68
        } else {
            sector_offset(self.version, self.difat_sectors[count - 1])
                + self.version.sector_len() as u64 - 4
        };
        self.init_sector(id, SectorInit::Difat);
        self.set_fat(id, DIFAT_SECTOR);
        let ghost before = *self;
        self.difat_sectors.push(id);
        assert(self@ =~= (StorageView {
            difat_sectors: before@.difat_sectors.push(id),
            ..before@
        }));
        self.write_number_at(link, id);
        self.write_number_at(72, count as u32 + 1);
        assert(self@ =~= old(self)@.difat_grown());
    }

    /// Adds a sector that holds more of the FAT.
    fn append_fat_sector(&mut self)
        requires
            old(self)@.wf(),
            old(self)@.fat.len() == fat_capacity(
                old(self)@.version,
                old(self)@.difat.len() as int,
            ),
            old(self)@.fat.len() + 2 <= consts::MAX_REGULAR_SECTOR + 1,
        ensures
            final(self)@ == old(self)@.fat_grown(),
            final(self).file() == old(self).file(),
    {
        let id: u32 = self.fat.len() as u32;
        let index: usize = self.difat.len();
        let lists: usize = self.difat_sectors.len();
        proof {
            crate::storage::lemma_fat_sector_added(old(self)@);
        }
        self.init_sector(id, SectorInit::Fat);
        let ghost before = *self;
        self.difat.push(id);
        assert(self@ =~= (StorageView { difat: before@.difat.push(id), ..before@ }));
        self.set_fat(id, FAT_SECTOR);
        assert(self@ == old(self)@.fat_sector_added());
        let listings: u64 = match self.version {
            Version::V3 => 109 + lists as u64 * 127,
            Version::V4 => 109 + lists as u64 * 1023,
        };
        if index as u64 >= listings {
            self.append_difat_sector();
        }
        let cell: u64 = if index < consts::NUM_DIFAT_ENTRIES_IN_HEADER {
            76 + 4 * index as u64
        } else {
            let (which, within): (usize, u64) = match self.version {
                Version::V3 => ((index - 109) / 127, 4 * ((index as u64 - 109) % 127)),
                Version::V4 => ((index - 109) / 1023, 4 * ((index as u64 - 109) % 1023)),
            };
            sector_offset(self.version, self.difat_sectors[which]) + within
        };
        self.write_number_at(cell, id);
        self.write_number_at(44, index as u32 + 1);
    }

    /// Tells whether a sector can still be taken.
    pub fn has_room(&self) -> (room: bool)
        ensures
            room == self@.has_room(),
    {
        self.fat.len() as u64 <= consts::MAX_REGULAR_SECTOR as u64 - 2
            || self.first_free_sector() < self.fat.len()
    }

    /// Returns the first free sector, or the number of sectors.
    fn first_free_sector(&self) -> (id: usize)
        ensures
            id == free_sector(self@.fat),
    {
        let mut i: usize = 0;
        while i < self.fat.len() && self.fat[i] != FREE_SECTOR
            invariant
                i <= self.fat@.len(),
                free_sector(self.fat@) == free_sector_from(self.fat@, i as int),
            decreases self.fat@.len() - i,
        {
            i += 1;
        }
        i
    }

    /// Takes a sector, as a chain of its own, and returns it: the first free one,
    /// or one at the end of the file, for which the FAT grows as necessary.
    pub fn begin_chain(&mut self, init: SectorInit) -> (id: u32)
        requires
            old(self)@.wf(),
            old(self)@.has_room(),
        ensures
            id == old(self)@.next_sector(),
            final(self)@ == old(self)@.chain_begun(init),
            final(self).file() == old(self).file(),
            final(self)@.wf(),
    {
        proof {
            crate::storage::lemma_chain_begun(old(self)@, init);
            crate::storage::lemma_free_sector(old(self)@.fat, 0);
        }
        let free: usize = self.first_free_sector();
        if free < self.fat.len() {
            let id: u32 = free as u32;
            self.set_fat(id, END_OF_CHAIN);
            self.init_sector(id, init);
            return id;
        }
        let cells: u64 = match self.version {
            Version::V3 => self.difat.len() as u64 * 128,
            Version::V4 => self.difat.len() as u64 * 1024,
        };
        if self.fat.len() as u64 >= cells {
            proof {
                crate::storage::lemma_fat_grown(old(self)@);
            }
            self.append_fat_sector();
        }
        let id: u32 = self.fat.len() as u32;
        self.set_fat(id, END_OF_CHAIN);
        self.init_sector(id, init);
        id
    }

    /// Takes a sector and puts it at the end of the chain that `start` is in.
    pub fn extend_chain(&mut self, start: u32, init: SectorInit) -> (id: u32)
        requires
            old(self)@.wf(),
            old(self)@.has_room(),
            has_chain(old(self)@.fat, start),
            start != END_OF_CHAIN,
        ensures
            id == old(self)@.next_sector(),
            final(self)@ == old(self)@.chain_extended(start, init),
            final(self).file() == old(self).file(),
            final(self)@.wf(),
    {
        let ghost chain = chain_of(self@.fat, start);
        let ghost mut at: int = 0;
        let mut last: u32 = start;
        let mut next: u32 = self.next(last);
        while next != END_OF_CHAIN
            invariant
                is_chain(self@.fat, start, chain),
                self@.wf(),
                0 <= at < chain.len(),
                last == chain[at],
                next == self@.fat[last as int],
                *self == *old(self),
            decreases chain.len() - at,
        {
            proof {
                assert(at < chain.len() - 1) by {
                    assert(chain.last() == chain[chain.len() - 1]);
                }
                at = at + 1;
                assert(chain[at] < self@.fat.len());
            }
            last = next;
            next = self.next(last);
        }
        proof {
            if at < chain.len() - 1 {
                assert(self@.fat[chain[at] as int] == chain[at + 1]);
                assert(chain[at + 1] < self@.fat.len());
            }
            crate::storage::lemma_chain_begun(old(self)@, init);
            crate::storage::lemma_chain_values(self@.fat, start, chain);
        }
        let id: u32 = self.begin_chain(init);
        proof {
            let begun = old(self)@.chain_begun(init);
            assert(begun.fat[last as int] == old(self)@.fat[last as int]);
            crate::storage::lemma_fat_set(begun, last as int, id);
        }
        self.set_fat(last, id);
        id
    }

    /// Gives up all sectors of the chain that begins with `start`.
    pub fn free_chain(&mut self, start: u32)
        requires
            old(self)@.wf(),
            has_chain(old(self)@.fat, start),
        ensures
            final(self)@ == old(self)@.chain_freed(start),
            final(self).file() == old(self).file(),
            final(self)@.wf(),
    {
        let ghost chain = chain_of(self@.fat, start);
        let ghost mut at: int = 0;
        let mut current: u32 = start;
        proof {
            crate::storage::lemma_chain_distinct(self@.fat, start, chain);
            assert(chain.take(0) =~= Seq::<u32>::empty());
        }
        while current != END_OF_CHAIN
            invariant
                is_chain(old(self)@.fat, start, chain),
                chain.no_duplicates(),
                old(self)@.wf(),
                0 <= at <= chain.len(),
                at < chain.len() ==> current == chain[at],
                at == chain.len() ==> current == END_OF_CHAIN,
                self@ == old(self)@.sectors_freed(chain.take(at)),
                self.file() == old(self).file(),
            decreases chain.len() - at,
        {
            proof {
                crate::storage::lemma_sectors_freed(old(self)@, start, chain, at);
                assert(chain[at] < old(self)@.fat.len());
                assert(chain.take(at + 1).drop_last() =~= chain.take(at));
                if at < chain.len() - 1 {
                    assert(old(self)@.fat[chain[at] as int] == chain[at + 1]);
                } else {
                    assert(chain.last() == chain[at]);
                }
            }
            let next: u32 = self.next(current);
            self.set_fat(current, FREE_SECTOR);
            current = next;
            proof {
                at = at + 1;
            }
        }
        proof {
            if at < chain.len() {
                assert(chain[at] < old(self)@.fat.len());
            }
            assert(chain.take(at) =~= chain);
            crate::storage::lemma_sectors_freed(old(self)@, start, chain, at);
        }
    }

    /// Hands out the writes that the file has yet to receive, in order.
    pub fn flush(&mut self) -> (writes: Vec<Write>)
        ensures
            write_views(writes@) == old(self)@.pending,
            final(self)@ == (StorageView { pending: Seq::empty(), ..old(self)@ }),
            final(self).file() == old(self).file(),
    {
        let mut writes: Vec<Write> = Vec::new();
        std::mem::swap(&mut writes, &mut self.pending);
        assert(self@ =~= (StorageView { pending: Seq::empty(), ..old(self)@ }));
        writes
    }
}

/// Returns `len` bytes that repeat `pattern`.
fn repeated(pattern: &Vec<u8>, len: usize) -> (bytes: Vec<u8>)
    requires
        pattern@.len() > 0,
    ensures
        bytes@ == Seq::new(len as nat, |i: int| pattern@[i % pattern@.len() as int]),
{
    let mut bytes: Vec<u8> = Vec::new();
    let mut i: usize = 0;
    while i < len
        invariant
            i <= len,
            pattern@.len() > 0,
            bytes@ == Seq::new(i as nat, |j: int| pattern@[j % pattern@.len() as int]),
        decreases len - i,
    {
        bytes.push(pattern[i % pattern.len()]);
        assert(bytes@ =~= Seq::new((i + 1) as nat, |j: int| pattern@[j % pattern@.len() as int]));
        i += 1;
    }
    bytes
}

/// Returns what a new sector is filled with.
fn filling(version: Version, init: SectorInit) -> (bytes: Vec<u8>)
    ensures
        bytes@ == init_bytes(version, init),
{
    let len: usize = version.sector_len();
    match init {
        SectorInit::Zero => {
            let bytes: Vec<u8> = repeated(&vec![0u8], len);
            assert(bytes@ =~= init_bytes(version, init));
            bytes
        },
        SectorInit::Fat => {
            let bytes: Vec<u8> = repeated(&vec![0xffu8], len);
            assert(bytes@ =~= init_bytes(version, init));
            bytes
        },
        SectorInit::Difat => {
            let mut bytes: Vec<u8> = repeated(&vec![0xffu8], len - 4);
            assert(bytes@ =~= Seq::new((len - 4) as nat, |i: int| 0xffu8));
            write_u32_le(&mut bytes, END_OF_CHAIN);
            bytes
        },
        SectorInit::Dir => {
            let entry: Vec<u8> = DirEntry::unallocated().to_bytes();
            let bytes: Vec<u8> = repeated(&entry, len);
            assert(bytes@ =~= init_bytes(version, init));
            bytes
        },
    }
}

/// Tells whether the FAT has the value `mark` for all of `ids`, and none of them
/// occurs twice.
fn all_marked(ids: &Vec<u32>, fat: &Vec<u32>, mark: u32) -> (marked: bool)
    ensures
        marked <==> ids@.no_duplicates() && forall|k: int|
            0 <= k < ids@.len() ==> (#[trigger] ids@[k]) < fat@.len() && fat@[ids@[k] as int]
                == mark,
{
    let mut seen: HashSet<u32> = HashSet::new();
    let mut k: usize = 0;
    while k < ids.len()
        invariant
            k <= ids@.len(),
            forall|x: u32| #[trigger]
                seen@.contains(x) <==> exists|i: int| 0 <= i < k && ids@[i] == x,
            forall|i: int, j: int| 0 <= i < j < k ==> ids@[i] != ids@[j],
            forall|i: int|
                0 <= i < k ==> (#[trigger] ids@[i]) < fat@.len() && fat@[ids@[i] as int] == mark,
        decreases ids@.len() - k,
    {
        let id: u32 = ids[k];
        if id as usize >= fat.len() || fat[id as usize] != mark {
            assert(ids@[k as int] == id);
            return false;
        }
        if seen.contains(&id) {
            proof {
                let i = choose|i: int| 0 <= i < k && ids@[i] == id;
                assert(ids@[i] == ids@[k as int]);
            }
            return false;
        }
        let ghost before = seen@;
        seen.insert(id);
        proof {
            assert forall|x: u32| #[trigger] seen@.contains(x) <==> exists|i: int|
                0 <= i < k + 1 && ids@[i] == x by {
                if x == id {
                    assert(ids@[k as int] == x);
                }
                if before.contains(x) {
                    let i = choose|i: int| 0 <= i < k && ids@[i] == x;
                    assert(0 <= i < k + 1 && ids@[i] == x);
                }
            }
            assert forall|i: int, j: int| 0 <= i < j < k + 1 implies ids@[i] != ids@[j] by {
                if j == k && ids@[i] == id {
                    assert(before.contains(id));
                }
            }
        }
        k += 1;
    }
    true
}

} // verus!

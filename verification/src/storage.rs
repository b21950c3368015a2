//! The layout of sectors in the file, the file allocation table (FAT), and the
//! writes that keep the file in step with it.
//!
//! The FAT has one value for each sector: the next sector of its chain, or one of
//! a few values that say what else the sector is for. It is kept in sectors of
//! its own, which the DIFAT lists: the first of them in the header, the rest in
//! sectors that form a chain of their own.
use crate::bytes::u32_le;
use crate::consts;
use crate::consts::{DIFAT_SECTOR, END_OF_CHAIN, FAT_SECTOR, FREE_SECTOR};
use crate::direntry::EntryView;
use crate::version::Version;
use vstd::prelude::*;

verus! {

/// What a new sector is filled with.
#[derive(Clone, Copy, Debug, PartialEq, Eq, Structural)]
pub enum SectorInit {
    /// Zeros.
    Zero,
    /// FAT values of free sectors.
    Fat,
    /// An empty list of FAT sectors.
    Difat,
    /// Directory entries that are not in use.
    Dir,
}

/// Bytes to be written at an offset in the file.
#[derive(Debug)]
pub struct Write {
    pub offset: u64,
    pub bytes: Vec<u8>,
}

/// The model of [`Write`].
#[verifier::ext_equal]
pub struct WriteView {
    pub offset: int,
    pub bytes: Seq<u8>,
}

impl View for Write {
    type V = WriteView;

    open spec fn view(&self) -> WriteView {
        WriteView { offset: self.offset as int, bytes: self.bytes@ }
    }
}

/// The models of a list of writes.
pub open spec fn write_views(writes: Seq<Write>) -> Seq<WriteView> {
    writes.map_values(|w: Write| w@)
}

/// The offset of a sector in the file: the header takes up the room of one.
pub open spec fn sector_start(v: Version, id: int) -> int {
    match v {
        Version::V3 => (id + 1) * 512,
        Version::V4 => (id + 1) * 4096,
    }
}

/// Which FAT sector holds the value for sector `i`.
pub open spec fn cell_sector(v: Version, i: int) -> int {
    match v {
        Version::V3 => i / 128,
        Version::V4 => i / 1024,
    }
}

/// Where in its FAT sector the value for sector `i` is.
pub open spec fn cell_offset(v: Version, i: int) -> int {
    match v {
        Version::V3 => 4 * (i % 128),
        Version::V4 => 4 * (i % 1024),
    }
}

/// How many values `n` FAT sectors hold.
pub open spec fn fat_capacity(v: Version, n: int) -> int {
    match v {
        Version::V3 => n * 128,
        Version::V4 => n * 1024,
    }
}

/// How many FAT sectors the header and `n` DIFAT sectors can list.
pub open spec fn difat_capacity(v: Version, n: int) -> int {
    match v {
        Version::V3 => 109 + n * 127,
        Version::V4 => 109 + n * 1023,
    }
}

/// Which DIFAT sector lists the FAT sector `k`, for one that the header does not.
pub open spec fn listing_sector(v: Version, k: int) -> int {
    match v {
        Version::V3 => (k - 109) / 127,
        Version::V4 => (k - 109) / 1023,
    }
}

/// Where in its DIFAT sector the FAT sector `k` is listed.
pub open spec fn listing_offset(v: Version, k: int) -> int {
    match v {
        Version::V3 => 4 * ((k - 109) % 127),
        Version::V4 => 4 * ((k - 109) % 1023),
    }
}

/// What a new sector is filled with, byte for byte.
pub open spec fn init_bytes(v: Version, init: SectorInit) -> Seq<u8> {
    match init {
        SectorInit::Zero => Seq::new(v.sector_size() as nat, |i: int| 0u8),
        SectorInit::Fat => Seq::new(v.sector_size() as nat, |i: int| 0xffu8),
        SectorInit::Difat => Seq::new((v.sector_size() - 4) as nat, |i: int| 0xffu8) + u32_le(
            END_OF_CHAIN,
        ),
        SectorInit::Dir => Seq::new(
            v.sector_size() as nat,
            |i: int| EntryView::unallocated().bytes()[i % 128],
        ),
    }
}

/// The sectors `s` are a chain that begins with `start`.
pub open spec fn is_chain(fat: Seq<u32>, start: u32, s: Seq<u32>) -> bool {
    &&& s.len() == 0 <==> start == END_OF_CHAIN
    &&& s.len() > 0 ==> s[0] == start && fat[s.last() as int] == END_OF_CHAIN
    &&& forall|i: int| 0 <= i < s.len() ==> (#[trigger] s[i]) < fat.len()
    &&& forall|i: int| 0 <= i < s.len() - 1 ==> fat[(#[trigger] s[i]) as int] == s[i + 1]
}

/// A chain begins with `start`: following the FAT from it comes to an end.
pub open spec fn has_chain(fat: Seq<u32>, start: u32) -> bool {
    exists|s: Seq<u32>| is_chain(fat, start, s)
}

/// The sectors of the chain that begins with `start`.
pub open spec fn chain_of(fat: Seq<u32>, start: u32) -> Seq<u32> {
    choose|s: Seq<u32>| is_chain(fat, start, s)
}

/// The first free sector from `i` on, or the number of sectors.
pub open spec fn free_sector_from(fat: Seq<u32>, i: int) -> int
    decreases fat.len() - i,
{
    if i >= fat.len() {
        fat.len() as int
    } else if fat[i] == FREE_SECTOR {
        i
    } else {
        free_sector_from(fat, i + 1)
    }
}

/// The first free sector, or the number of sectors.
pub open spec fn free_sector(fat: Seq<u32>) -> int {
    free_sector_from(fat, 0)
}

/// The model of the sector allocator: the FAT, the sectors that hold it, the
/// sectors that list those, and the writes that the file has yet to receive.
#[verifier::ext_equal]
pub struct StorageView {
    pub version: Version,
    pub difat_sectors: Seq<u32>,
    pub difat: Seq<u32>,
    pub fat: Seq<u32>,
    pub pending: Seq<WriteView>,
}

impl StorageView {
    /// The FAT has room in its sectors, and these in the DIFAT; all of them are
    /// sectors of the file that the FAT itself marks as such, and none is listed
    /// twice.
    pub open spec fn wf(self) -> bool {
        &&& self.fat.len() <= consts::MAX_REGULAR_SECTOR + 1
        &&& self.difat.len() <= self.fat.len()
        &&& self.difat_sectors.len() <= self.fat.len()
        &&& self.fat.len() <= fat_capacity(self.version, self.difat.len() as int)
        &&& self.difat.len() <= difat_capacity(self.version, self.difat_sectors.len() as int)
        &&& forall|k: int|
            0 <= k < self.difat.len() ==> (#[trigger] self.difat[k]) < self.fat.len()
                && self.fat[self.difat[k] as int] == FAT_SECTOR
        &&& forall|k: int|
            0 <= k < self.difat_sectors.len() ==> (#[trigger] self.difat_sectors[k])
                < self.fat.len() && self.fat[self.difat_sectors[k] as int] == DIFAT_SECTOR
        &&& self.difat.no_duplicates()
        &&& self.difat_sectors.no_duplicates()
    }

    /// There is a free sector, or the file can still grow by one and by what
    /// listing it may take.
    pub open spec fn has_room(self) -> bool {
        free_sector(self.fat) < self.fat.len() || self.fat.len() + 3 <= consts::MAX_REGULAR_SECTOR
            + 1
    }

    /// Where in the file the FAT value for sector `i` is.
    pub open spec fn fat_cell(self, i: int) -> int {
        sector_start(self.version, self.difat[cell_sector(self.version, i)] as int) + cell_offset(
            self.version,
            i,
        )
    }

    /// Where in the file the FAT sector `k` is listed.
    pub open spec fn difat_cell(self, k: int) -> int {
        if k < consts::NUM_DIFAT_ENTRIES_IN_HEADER {
            76 + 4 * k
        } else {
            sector_start(
                self.version,
                self.difat_sectors[listing_sector(self.version, k)] as int,
            ) + listing_offset(self.version, k)
        }
    }

    /// One more write for the file.
    pub open spec fn written(self, offset: int, bytes: Seq<u8>) -> StorageView {
        StorageView { pending: self.pending.push(WriteView { offset, bytes }), ..self }
    }

    /// The FAT value for a sector, or for the one behind all others, is set.
    pub open spec fn fat_set(self, i: int, value: u32) -> StorageView {
        StorageView {
            fat: if i < self.fat.len() {
                self.fat.update(i, value)
            } else {
                self.fat.push(value)
            },
            ..self.written(self.fat_cell(i), u32_le(value))
        }
    }

    /// A sector is filled.
    pub open spec fn sector_filled(self, id: int, init: SectorInit) -> StorageView {
        self.written(sector_start(self.version, id), init_bytes(self.version, init))
    }

    /// A sector is added at the end of the file to list FAT sectors. The header
    /// leads to the first of these sectors, and each to the next.
    pub open spec fn difat_grown(self) -> StorageView {
        let id = self.fat.len() as int;
        let n = self.difat_sectors.len() as int;
        let link = if n == 0 {
            68
        } else {
            sector_start(self.version, self.difat_sectors[n - 1] as int)
                + self.version.sector_size() - 4
        };
        let s = self.sector_filled(id, SectorInit::Difat).fat_set(id, DIFAT_SECTOR);
        StorageView { difat_sectors: self.difat_sectors.push(id as u32), ..s }.written(
            link,
            u32_le(id as u32),
        ).written(72, u32_le((n + 1) as u32))
    }

    /// A sector is added at the end of the file to hold more of the FAT; it is
    /// not listed in the file yet.
    pub open spec fn fat_sector_added(self) -> StorageView {
        let id = self.fat.len() as int;
        StorageView {
            difat: self.difat.push(id as u32),
            ..self.sector_filled(id, SectorInit::Fat)
        }.fat_set(id, FAT_SECTOR)
    }

    /// The FAT grows by a sector, which the DIFAT comes to list.
    pub open spec fn fat_grown(self) -> StorageView {
        let id = self.fat.len() as int;
        let k = self.difat.len() as int;
        let s = self.fat_sector_added();
        let listed = if k < difat_capacity(self.version, self.difat_sectors.len() as int) {
            s
        } else {
            s.difat_grown()
        };
        listed.written(listed.difat_cell(k), u32_le(id as u32)).written(44, u32_le((k + 1) as u32))
    }

    /// The FAT has room for one more value: it grows if it has none.
    pub open spec fn with_spare_cell(self) -> StorageView {
        if self.fat.len() < fat_capacity(self.version, self.difat.len() as int) {
            self
        } else {
            self.fat_grown()
        }
    }

    /// The sector that is taken next: the first free one, or one at the end.
    pub open spec fn next_sector(self) -> u32 {
        if free_sector(self.fat) < self.fat.len() {
            free_sector(self.fat) as u32
        } else {
            self.with_spare_cell().fat.len() as u32
        }
    }

    /// The next sector is taken, as a chain of its own, and filled.
    pub open spec fn chain_begun(self, init: SectorInit) -> StorageView {
        let s = if free_sector(self.fat) < self.fat.len() {
            self
        } else {
            self.with_spare_cell()
        };
        let id = self.next_sector() as int;
        s.fat_set(id, END_OF_CHAIN).sector_filled(id, init)
    }

    /// The next sector is taken, filled, and put at the end of the chain that
    /// `start` is in.
    pub open spec fn chain_extended(self, start: u32, init: SectorInit) -> StorageView {
        self.chain_begun(init).fat_set(
            chain_of(self.fat, start).last() as int,
            self.next_sector(),
        )
    }

    /// The sectors in `chain` are given up one by one.
    pub open spec fn sectors_freed(self, chain: Seq<u32>) -> StorageView
        decreases chain.len(),
    {
        if chain.len() == 0 {
            self
        } else {
            self.sectors_freed(chain.drop_last()).fat_set(chain.last() as int, FREE_SECTOR)
        }
    }

    /// All sectors of the chain that begins with `start` are given up.
    pub open spec fn chain_freed(self, start: u32) -> StorageView {
        self.sectors_freed(chain_of(self.fat, start))
    }
}

/// In a chain that comes to the same sector twice, the way on from there is the
/// same both times.
proof fn lemma_chain_repeats(fat: Seq<u32>, start: u32, s: Seq<u32>, i: int, j: int, n: int)
    requires
        is_chain(fat, start, s),
        0 <= i < j,
        0 <= n,
        j + n < s.len(),
        s[i] == s[j],
    ensures
        s[i + n] == s[j + n],
    decreases n,
{
    if n > 0 {
        lemma_chain_repeats(fat, start, s, i, j, n - 1);
        assert(fat[s[i + n - 1] as int] == s[i + n]);
        assert(fat[s[j + n - 1] as int] == s[j + n]);
    }
}

/// No sector occurs twice in a chain, so that a chain is no longer than the FAT.
pub proof fn lemma_chain_distinct(fat: Seq<u32>, start: u32, s: Seq<u32>)
    requires
        is_chain(fat, start, s),
        fat.len() <= consts::MAX_REGULAR_SECTOR + 1,
    ensures
        s.no_duplicates(),
        s.len() <= fat.len(),
{
    assert forall|i: int, j: int| 0 <= i < j < s.len() implies s[i] != s[j] by {
        if s[i] == s[j] {
            let n = s.len() - 1 - j;
            lemma_chain_repeats(fat, start, s, i, j, n);
            assert(fat[s[i + n] as int] == s[i + n + 1]);
            assert(s[i + n + 1] < fat.len());
        }
    }
    s.unique_seq_to_set();
    assert forall|x: u32| #[trigger] s.to_set().contains(x) implies x < fat.len() by {
        let i = choose|i: int| 0 <= i < s.len() && s[i] == x;
        assert(s[i] < fat.len());
    }
    crate::validity::lemma_visited_bound(fat.len(), s.to_set());
}

/// At most one chain begins with a given sector.
pub proof fn lemma_chain_unique(fat: Seq<u32>, start: u32, a: Seq<u32>, b: Seq<u32>)
    requires
        is_chain(fat, start, a),
        is_chain(fat, start, b),
        fat.len() <= consts::MAX_REGULAR_SECTOR + 1,
    ensures
        a == b,
{
    lemma_chain_prefix(fat, start, a, b, a.len() as int);
    lemma_chain_prefix(fat, start, b, a, b.len() as int);
    assert(a =~= b);
}

proof fn lemma_chain_prefix(fat: Seq<u32>, start: u32, a: Seq<u32>, b: Seq<u32>, n: int)
    requires
        is_chain(fat, start, a),
        is_chain(fat, start, b),
        fat.len() <= consts::MAX_REGULAR_SECTOR + 1,
        0 <= n <= a.len(),
    ensures
        n <= b.len(),
        forall|i: int| 0 <= i < n ==> a[i] == b[i],
    decreases n,
{
    if n > 0 {
        lemma_chain_prefix(fat, start, a, b, n - 1);
        if n > 1 {
            assert(fat[a[n - 2] as int] == a[n - 1]);
            assert(a[n - 1] < fat.len());
            if n - 1 == b.len() {
                assert(b.last() == a[n - 2]);
            }
            assert(fat[b[n - 2] as int] == b[n - 1]);
        } else {
            assert(a[0] < fat.len());
        }
    }
}

/// A chain that begins with a sector is the chain of this sector.
pub proof fn lemma_chain_of(fat: Seq<u32>, start: u32, s: Seq<u32>)
    requires
        is_chain(fat, start, s),
        fat.len() <= consts::MAX_REGULAR_SECTOR + 1,
    ensures
        chain_of(fat, start) == s,
{
    lemma_chain_unique(fat, start, chain_of(fat, start), s);
}

/// All sectors before the first free one are in use.
pub proof fn lemma_free_sector(fat: Seq<u32>, i: int)
    requires
        0 <= i <= fat.len(),
    ensures
        i <= free_sector_from(fat, i) <= fat.len(),
        free_sector_from(fat, i) < fat.len() ==> fat[free_sector_from(fat, i)] == FREE_SECTOR,
        forall|j: int| i <= j < free_sector_from(fat, i) ==> fat[j] != FREE_SECTOR,
    decreases fat.len() - i,
{
    if i < fat.len() && fat[i] != FREE_SECTOR {
        lemma_free_sector(fat, i + 1);
    }
}

/// Adding a FAT sector keeps all of the storage well-formed but, perhaps, the room
/// in the DIFAT.
pub proof fn lemma_fat_sector_added(s: StorageView)
    requires
        s.wf(),
        s.fat.len() == fat_capacity(s.version, s.difat.len() as int),
        s.fat.len() < consts::MAX_REGULAR_SECTOR + 1,
    ensures
        ({
            let t = s.fat_sector_added();
            &&& t.version == s.version
            &&& t.fat == s.fat.push(FAT_SECTOR)
            &&& t.difat == s.difat.push(s.fat.len() as u32)
            &&& t.difat_sectors == s.difat_sectors
            &&& t.fat.len() < fat_capacity(t.version, t.difat.len() as int)
            &&& s.difat.len() < difat_capacity(s.version, s.difat_sectors.len() as int) ==> t.wf()
            &&& forall|k: int|
                0 <= k < t.difat.len() ==> (#[trigger] t.difat[k]) < t.fat.len()
                    && t.fat[t.difat[k] as int] == FAT_SECTOR
            &&& forall|k: int|
                0 <= k < t.difat_sectors.len() ==> (#[trigger] t.difat_sectors[k]) < t.fat.len()
                    && t.fat[t.difat_sectors[k] as int] == DIFAT_SECTOR
            &&& t.difat.no_duplicates()
        }),
{
    let t = s.fat_sector_added();
    assert forall|k: int| 0 <= k < t.difat.len() implies (#[trigger] t.difat[k]) < t.fat.len()
        && t.fat[t.difat[k] as int] == FAT_SECTOR by {
        if k < s.difat.len() {
            assert(s.difat[k] < s.fat.len());
        }
    }
    assert forall|k: int| 0 <= k < t.difat_sectors.len() implies (#[trigger] t.difat_sectors[k])
        < t.fat.len() && t.fat[t.difat_sectors[k] as int] == DIFAT_SECTOR by {
        assert(s.difat_sectors[k] < s.fat.len());
    }
    assert(t.difat.no_duplicates()) by {
        assert forall|i: int, j: int| 0 <= i < j < t.difat.len() implies t.difat[i] != t.difat[j] by {
            assert(s.difat[i] < s.fat.len());
        }
    }
}

/// Growing the FAT keeps the storage well-formed; it adds one or two sectors,
/// which the FAT marks for what they are, and makes room for more values.
pub proof fn lemma_fat_grown(s: StorageView)
    requires
        s.wf(),
        s.fat.len() == fat_capacity(s.version, s.difat.len() as int),
        s.fat.len() + 2 <= consts::MAX_REGULAR_SECTOR + 1,
    ensures
        s.fat_grown().wf(),
        s.fat_grown().version == s.version,
        s.fat_grown().fat == s.fat.push(FAT_SECTOR) || s.fat_grown().fat == s.fat.push(
            FAT_SECTOR,
        ).push(DIFAT_SECTOR),
        s.fat_grown().fat.len() < fat_capacity(s.version, s.fat_grown().difat.len() as int),
{
    let t = s.fat_sector_added();
    lemma_fat_sector_added(s);
    if s.difat.len() >= difat_capacity(s.version, s.difat_sectors.len() as int) {
        let u = t.difat_grown();
        assert(u.fat =~= t.fat.push(DIFAT_SECTOR));
        assert forall|k: int| 0 <= k < u.difat_sectors.len() implies (#[trigger] u.difat_sectors[k])
            < u.fat.len() && u.fat[u.difat_sectors[k] as int] == DIFAT_SECTOR by {
            if k < t.difat_sectors.len() {
                assert(t.difat_sectors[k] < t.fat.len());
            }
        }
        assert forall|k: int| 0 <= k < u.difat.len() implies (#[trigger] u.difat[k]) < u.fat.len()
            && u.fat[u.difat[k] as int] == FAT_SECTOR by {
            assert(t.difat[k] < t.fat.len());
        }
        assert(u.difat_sectors.no_duplicates()) by {
            assert forall|i: int, j: int|
                0 <= i < j < u.difat_sectors.len() implies u.difat_sectors[i]
                != u.difat_sectors[j] by {
                assert(t.difat_sectors[i] < t.fat.len());
            }
        }
        assert(u.wf());
    }
}

/// Setting the FAT value of a sector that neither holds nor lists a part of the
/// FAT keeps the storage well-formed.
pub proof fn lemma_fat_set(s: StorageView, i: int, value: u32)
    requires
        s.wf(),
        0 <= i < s.fat.len() || i == s.fat.len() < fat_capacity(s.version, s.difat.len() as int),
        i < s.fat.len() ==> s.fat[i] != FAT_SECTOR && s.fat[i] != DIFAT_SECTOR,
        i <= consts::MAX_REGULAR_SECTOR,
    ensures
        s.fat_set(i, value).wf(),
{
    let t = s.fat_set(i, value);
    assert forall|k: int| 0 <= k < t.difat.len() implies (#[trigger] t.difat[k]) < t.fat.len()
        && t.fat[t.difat[k] as int] == FAT_SECTOR by {
        assert(s.difat[k] < s.fat.len());
    }
    assert forall|k: int| 0 <= k < t.difat_sectors.len() implies (#[trigger] t.difat_sectors[k])
        < t.fat.len() && t.fat[t.difat_sectors[k] as int] == DIFAT_SECTOR by {
        assert(s.difat_sectors[k] < s.fat.len());
    }
}

/// Beginning a chain keeps the storage well-formed. The sector that it takes was
/// free or beyond the end of the file, and no other sector changes.
pub proof fn lemma_chain_begun(s: StorageView, init: SectorInit)
    requires
        s.wf(),
        s.has_room(),
    ensures
        ({
            let t = s.chain_begun(init);
            let id = s.next_sector();
            &&& t.wf()
            &&& t.version == s.version
            &&& id < t.fat.len()
            &&& s.fat.len() <= t.fat.len()
            &&& t.fat[id as int] == END_OF_CHAIN
            &&& id < s.fat.len() ==> s.fat[id as int] == FREE_SECTOR
            &&& forall|i: int| 0 <= i < s.fat.len() && i != id ==> (#[trigger] t.fat[i]) == s.fat[i]
        }),
{
    lemma_free_sector(s.fat, 0);
    let free = free_sector(s.fat);
    if free < s.fat.len() {
        lemma_fat_set(s, free, END_OF_CHAIN);
    } else {
        if s.fat.len() == fat_capacity(s.version, s.difat.len() as int) {
            lemma_fat_grown(s);
        }
        let u = s.with_spare_cell();
        assert(u.wf());
        lemma_fat_set(u, u.fat.len() as int, END_OF_CHAIN);
    }
}

/// A chain stays as it is where the FAT changes at no sector of it.
pub proof fn lemma_chain_frame(fat: Seq<u32>, fat2: Seq<u32>, start: u32, s: Seq<u32>)
    requires
        is_chain(fat, start, s),
        fat.len() <= fat2.len(),
        forall|i: int| 0 <= i < s.len() ==> fat2[(#[trigger] s[i]) as int] == fat[s[i] as int],
    ensures
        is_chain(fat2, start, s),
{
    assert forall|i: int| 0 <= i < s.len() implies (#[trigger] s[i]) < fat2.len() by {}
    assert forall|i: int| 0 <= i < s.len() - 1 implies fat2[(#[trigger] s[i]) as int] == s[i + 1] by {}
    if s.len() > 0 {
        assert(s.last() == s[s.len() - 1]);
    }
}

/// The sectors of a chain are in use as such.
pub proof fn lemma_chain_values(fat: Seq<u32>, start: u32, s: Seq<u32>)
    requires
        is_chain(fat, start, s),
        fat.len() <= consts::MAX_REGULAR_SECTOR + 1,
    ensures
        forall|i: int|
            0 <= i < s.len() ==> {
                let value = fat[(#[trigger] s[i]) as int];
                value == END_OF_CHAIN || value < fat.len()
            },
{
    assert forall|i: int| 0 <= i < s.len() implies {
        let value = fat[(#[trigger] s[i]) as int];
        value == END_OF_CHAIN || value < fat.len()
    } by {
        if i < s.len() - 1 {
            assert(fat[s[i] as int] == s[i + 1]);
            assert(s[i + 1] < fat.len());
        } else {
            assert(s[i] == s.last());
        }
    }
}

/// Giving up the first `n` sectors of a chain frees these and changes no others,
/// and keeps the storage well-formed.
pub proof fn lemma_sectors_freed(s: StorageView, start: u32, chain: Seq<u32>, n: int)
    requires
        s.wf(),
        is_chain(s.fat, start, chain),
        0 <= n <= chain.len(),
    ensures
        ({
            let t = s.sectors_freed(chain.take(n));
            &&& t.wf()
            &&& t.version == s.version
            &&& t.difat == s.difat
            &&& t.difat_sectors == s.difat_sectors
            &&& t.fat.len() == s.fat.len()
            &&& forall|i: int| 0 <= i < n ==> t.fat[(#[trigger] chain[i]) as int] == FREE_SECTOR
            &&& forall|i: int|
                n <= i < chain.len() ==> t.fat[(#[trigger] chain[i]) as int]
                    == s.fat[chain[i] as int]
            &&& forall|x: u32|
                x < s.fat.len() && !chain.contains(x) ==> (#[trigger] t.fat[x as int])
                    == s.fat[x as int]
        }),
    decreases n,
{
    if n == 0 {
        assert(chain.take(0) =~= Seq::<u32>::empty());
    } else {
        lemma_sectors_freed(s, start, chain, n - 1);
        lemma_chain_distinct(s.fat, start, chain);
        lemma_chain_values(s.fat, start, chain);
        let u = s.sectors_freed(chain.take(n - 1));
        assert(chain.take(n).drop_last() =~= chain.take(n - 1));
        assert(chain[n - 1] < s.fat.len());
        assert(chain.contains(chain[n - 1]));
        lemma_fat_set(u, chain[n - 1] as int, FREE_SECTOR);
        assert forall|i: int| 0 <= i < n implies u.fat_set(chain[n - 1] as int, FREE_SECTOR).fat[(
        #[trigger] chain[i]) as int] == FREE_SECTOR by {
            assert(chain[i] < s.fat.len());
        }
    }
}

/// Extending a chain puts one sector at its end that was in no chain, and keeps
/// the storage well-formed. No sector changes but these two.
pub proof fn lemma_chain_extended(s: StorageView, start: u32, init: SectorInit)
    requires
        s.wf(),
        s.has_room(),
        has_chain(s.fat, start),
        start != END_OF_CHAIN,
    ensures
        ({
            let t = s.chain_extended(start, init);
            let chain = chain_of(s.fat, start);
            let id = s.next_sector();
            &&& t.wf()
            &&& t.version == s.version
            &&& !chain.contains(id)
            &&& is_chain(t.fat, start, chain.push(id))
            &&& chain_of(t.fat, start) == chain.push(id)
            &&& s.fat.len() <= t.fat.len()
            &&& forall|i: int|
                0 <= i < s.fat.len() && i != id && i != chain.last() ==> (#[trigger] t.fat[i])
                    == s.fat[i]
        }),
{
    let chain = chain_of(s.fat, start);
    let id = s.next_sector();
    let u = s.chain_begun(init);
    let t = s.chain_extended(start, init);
    lemma_chain_begun(s, init);
    lemma_chain_values(s.fat, start, chain);
    lemma_chain_distinct(s.fat, start, chain);
    assert(chain.last() == chain[chain.len() - 1]);
    assert(chain.last() < s.fat.len());
    if chain.contains(id) {
        let i = choose|i: int| 0 <= i < chain.len() && chain[i] == id;
        assert(s.fat[chain[i] as int] != FREE_SECTOR);
    }
    assert(u.fat[chain.last() as int] == s.fat[chain.last() as int]) by {
        assert(chain.contains(chain.last()));
    }
    lemma_fat_set(u, chain.last() as int, id);
    let longer = chain.push(id);
    assert forall|i: int| 0 <= i < longer.len() implies (#[trigger] longer[i]) < t.fat.len() by {
        if i < chain.len() {
            assert(chain[i] < s.fat.len());
        }
    }
    assert forall|i: int| 0 <= i < longer.len() - 1 implies t.fat[(#[trigger] longer[i]) as int]
        == longer[i + 1] by {
        assert(chain.contains(chain[i]));
        if i < chain.len() - 1 {
            assert(s.fat[chain[i] as int] == chain[i + 1]);
            assert(chain[i] != chain.last());
            assert(chain[i] < s.fat.len());
            assert(u.fat[chain[i] as int] == s.fat[chain[i] as int]);
        }
    }
    lemma_chain_of(t.fat, start, longer);
}

} // verus!

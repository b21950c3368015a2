//! Chains that are begun, extended and given up leave each other, and the directory,
//! as they are.
use crate::consts::{END_OF_CHAIN, FREE_SECTOR};
use crate::directory::{entry_capacity, DirectoryView};
use crate::storage::{chain_of, has_chain, is_chain, SectorInit, StorageView, WriteView};
use crate::sync::{
    beside, entries_in_step, followed_beside, in_step, place_in_step, stays_in_step,
};
use vstd::prelude::*;

verus! {

/// Beginning a chain makes one that holds the sector that is taken, and leaves every
/// other chain as it is.
pub proof fn lemma_begun_chains(s: StorageView, init: SectorInit, other: u32)
    requires
        s.wf(),
        s.has_room(),
        has_chain(s.fat, other),
    ensures
        ({
            let t = s.chain_begun(init);
            &&& chain_of(t.fat, s.next_sector()) == seq![s.next_sector()]
            &&& has_chain(t.fat, other)
            &&& chain_of(t.fat, other) == chain_of(s.fat, other)
            &&& !chain_of(s.fat, other).contains(s.next_sector())
        }),
{
    let t = s.chain_begun(init);
    let id = s.next_sector();
    let chain = chain_of(s.fat, other);
    crate::storage::lemma_chain_begun(s, init);
    crate::storage::lemma_chain_values(s.fat, other, chain);
    assert forall|i: int| 0 <= i < chain.len() implies t.fat[(#[trigger] chain[i]) as int]
        == s.fat[chain[i] as int] && chain[i] != id by {
        assert(chain[i] < s.fat.len());
    }
    crate::storage::lemma_chain_frame(s.fat, t.fat, other, chain);
    crate::storage::lemma_chain_of(t.fat, other, chain);
    let own = seq![id];
    assert(own.last() == id);
    assert(is_chain(t.fat, id, own));
    crate::storage::lemma_chain_of(t.fat, id, own);
}

/// Extending a chain puts the sector that is taken at its end, and leaves every chain
/// with another end as it is.
pub proof fn lemma_extended_chains(s: StorageView, start: u32, init: SectorInit, other: u32)
    requires
        s.wf(),
        s.has_room(),
        has_chain(s.fat, start),
        start != END_OF_CHAIN,
        has_chain(s.fat, other),
        !chain_of(s.fat, other).contains(chain_of(s.fat, start).last()),
    ensures
        ({
            let t = s.chain_extended(start, init);
            &&& chain_of(t.fat, start) == chain_of(s.fat, start).push(s.next_sector())
            &&& has_chain(t.fat, other)
            &&& chain_of(t.fat, other) == chain_of(s.fat, other)
        }),
{
    let t = s.chain_extended(start, init);
    let chain = chain_of(s.fat, other);
    crate::storage::lemma_chain_extended(s, start, init);
    lemma_begun_chains(s, init, other);
    assert forall|i: int| 0 <= i < chain.len() implies t.fat[(#[trigger] chain[i]) as int]
        == s.fat[chain[i] as int] by {
        assert(chain.contains(chain[i]));
        assert(chain[i] < s.fat.len());
    }
    crate::storage::lemma_chain_frame(s.fat, t.fat, other, chain);
    crate::storage::lemma_chain_of(t.fat, other, chain);
}

/// Giving up a chain frees all of its sectors, and leaves every chain without any of
/// them as it is.
pub proof fn lemma_freed_chains(s: StorageView, start: u32, other: u32)
    requires
        s.wf(),
        has_chain(s.fat, start),
        has_chain(s.fat, other),
        forall|x: u32| #[trigger]
            chain_of(s.fat, start).contains(x) ==> !chain_of(s.fat, other).contains(x),
    ensures
        ({
            let t = s.chain_freed(start);
            &&& t.wf()
            &&& forall|x: u32| #[trigger]
                chain_of(s.fat, start).contains(x) ==> t.fat[x as int] == FREE_SECTOR
            &&& has_chain(t.fat, other)
            &&& chain_of(t.fat, other) == chain_of(s.fat, other)
        }),
{
    let t = s.chain_freed(start);
    let freed = chain_of(s.fat, start);
    let chain = chain_of(s.fat, other);
    crate::storage::lemma_sectors_freed(s, start, freed, freed.len() as int);
    assert(freed.take(freed.len() as int) =~= freed);
    assert forall|i: int| 0 <= i < chain.len() implies t.fat[(#[trigger] chain[i]) as int]
        == s.fat[chain[i] as int] by {
        assert(chain.contains(chain[i]));
        assert(chain[i] < s.fat.len());
    }
    crate::storage::lemma_chain_frame(s.fat, t.fat, other, chain);
    crate::storage::lemma_chain_of(t.fat, other, chain);
}

/// A directory whose chain stays as it is, while the file receives writes beside it,
/// stays stored and in step.
proof fn lemma_directory_untouched(
    d: DirectoryView,
    storage: StorageView,
    file: spec_fn(int) -> u8,
)
    requires
        d.stored(),
        storage.wf(),
        storage.version == d.storage.version,
        has_chain(storage.fat, d.start),
        chain_of(storage.fat, d.start) == d.sectors(),
        followed_beside(storage.version, d.storage.pending, storage.pending, d.sectors()),
    ensures
        (DirectoryView { storage, ..d }).stored(),
        stays_in_step(d, (DirectoryView { storage, ..d }), file),
{
    let e = DirectoryView { storage, ..d };
    let v = storage.version;
    assert forall|i: int|
        0 <= i < entry_capacity(v, d.sectors().len() as int) && place_in_step(
            d,
            file,
            i,
        ) implies #[trigger] place_in_step(e, file, i) by {
        assert(e.entry_at(i) == d.entry_at(i));
        let k = crate::sync::lemma_place_in_sector(v, d.sectors(), i);
        crate::sync::lemma_region_followed(
            v,
            file,
            d.storage.pending,
            storage.pending,
            d.sectors(),
            k,
            d.entry_at(i),
            128,
        );
    }
    if entries_in_step(d, file) {
        assert forall|i: int| 0 <= i < e.entries.len() implies #[trigger] place_in_step(e, file, i) by {
            assert(place_in_step(d, file, i));
        }
    }
    if in_step(d, file) {
        assert forall|i: int|
            0 <= i < entry_capacity(v, e.sectors().len() as int) implies #[trigger] place_in_step(
            e,
            file,
            i,
        ) by {
            assert(place_in_step(d, file, i));
        }
    }
}

/// Beginning a chain leaves the directory stored where it is, and the file in step.
pub proof fn lemma_begun_beside_directory(
    d: DirectoryView,
    file: spec_fn(int) -> u8,
    init: SectorInit,
)
    requires
        d.stored(),
        d.storage.has_room(),
    ensures
        ({
            let e = DirectoryView { storage: d.storage.chain_begun(init), ..d };
            e.stored() && e.sectors() == d.sectors() && stays_in_step(d, e, file)
        }),
{
    crate::storage::lemma_chain_begun(d.storage, init);
    lemma_begun_chains(d.storage, init, d.start);
    crate::sync::lemma_chain_apart(d.storage, d.start, d.sectors());
    crate::sync::lemma_chain_begun_beside(d.storage, init, d.sectors());
    lemma_directory_untouched(d, d.storage.chain_begun(init), file);
}

/// Extending a chain that does not end in the directory leaves the directory stored
/// where it is, and the file in step.
pub proof fn lemma_extended_beside_directory(
    d: DirectoryView,
    file: spec_fn(int) -> u8,
    start: u32,
    init: SectorInit,
)
    requires
        d.stored(),
        d.storage.has_room(),
        has_chain(d.storage.fat, start),
        start != END_OF_CHAIN,
        !d.sectors().contains(chain_of(d.storage.fat, start).last()),
    ensures
        ({
            let e = DirectoryView { storage: d.storage.chain_extended(start, init), ..d };
            e.stored() && e.sectors() == d.sectors() && stays_in_step(d, e, file)
        }),
{
    let s = d.storage;
    let u = s.chain_begun(init);
    let chain = chain_of(s.fat, start);
    crate::storage::lemma_chain_begun(s, init);
    crate::storage::lemma_chain_extended(s, start, init);
    lemma_begun_chains(s, init, d.start);
    lemma_extended_chains(s, start, init, d.start);
    crate::sync::lemma_chain_apart(s, d.start, d.sectors());
    crate::sync::lemma_chain_begun_beside(s, init, d.sectors());
    assert(chain.last() == chain[chain.len() - 1] && chain.last() < s.fat.len());
    crate::sync::lemma_fat_set_beside(u, chain.last() as int, s.next_sector(), d.sectors());
    crate::sync::lemma_followed_push(
        s.version,
        s.pending,
        u.pending,
        WriteView {
            offset: u.fat_cell(chain.last() as int),
            bytes: crate::bytes::u32_le(s.next_sector()),
        },
        d.sectors(),
    );
    lemma_directory_untouched(d, s.chain_extended(start, init), file);
}

/// Giving up sectors of a chain touches no sector that is apart from the FAT.
proof fn lemma_freed_beside(s: StorageView, start: u32, chain: Seq<u32>, n: int, sectors: Seq<u32>)
    requires
        s.wf(),
        is_chain(s.fat, start, chain),
        0 <= n <= chain.len(),
        crate::sync::apart(s, sectors),
    ensures
        followed_beside(s.version, s.pending, s.sectors_freed(chain.take(n)).pending, sectors),
        crate::sync::apart(s.sectors_freed(chain.take(n)), sectors),
    decreases n,
{
    if n == 0 {
        assert(chain.take(0) =~= Seq::<u32>::empty());
        assert(s.pending.take(s.pending.len() as int) =~= s.pending);
    } else {
        lemma_freed_beside(s, start, chain, n - 1, sectors);
        crate::storage::lemma_sectors_freed(s, start, chain, n - 1);
        let u = s.sectors_freed(chain.take(n - 1));
        assert(chain.take(n).drop_last() =~= chain.take(n - 1));
        assert(chain[n - 1] < s.fat.len());
        crate::sync::lemma_fat_set_beside(u, chain[n - 1] as int, FREE_SECTOR, sectors);
        crate::sync::lemma_followed_push(
            s.version,
            s.pending,
            u.pending,
            WriteView {
                offset: u.fat_cell(chain[n - 1] as int),
                bytes: crate::bytes::u32_le(FREE_SECTOR),
            },
            sectors,
        );
    }
}

/// Giving up a chain that has no sector of the directory leaves the directory stored
/// where it is, and the file in step.
pub proof fn lemma_freed_beside_directory(d: DirectoryView, file: spec_fn(int) -> u8, start: u32)
    requires
        d.stored(),
        has_chain(d.storage.fat, start),
        forall|x: u32| #[trigger]
            chain_of(d.storage.fat, start).contains(x) ==> !d.sectors().contains(x),
    ensures
        ({
            let e = DirectoryView { storage: d.storage.chain_freed(start), ..d };
            e.stored() && e.sectors() == d.sectors() && stays_in_step(d, e, file)
        }),
{
    let s = d.storage;
    let chain = chain_of(s.fat, start);
    lemma_freed_chains(s, start, d.start);
    crate::storage::lemma_sectors_freed(s, start, chain, chain.len() as int);
    crate::sync::lemma_chain_apart(s, d.start, d.sectors());
    lemma_freed_beside(s, start, chain, chain.len() as int, d.sectors());
    assert(chain.take(chain.len() as int) =~= chain);
    lemma_directory_untouched(d, s.chain_freed(start), file);
}

/// A write that touches no sector of the directory leaves the file in step.
pub proof fn lemma_write_beside_directory(
    d: DirectoryView,
    file: spec_fn(int) -> u8,
    offset: int,
    bytes: Seq<u8>,
)
    requires
        d.stored(),
        beside(d.storage.version, (WriteView { offset, bytes }), d.sectors()),
    ensures
        ({
            let e = DirectoryView { storage: d.storage.written(offset, bytes), ..d };
            e.stored() && stays_in_step(d, e, file)
        }),
{
    let before = d.storage.pending;
    assert(before.take(before.len() as int) =~= before);
    crate::sync::lemma_followed_push(
        d.storage.version,
        before,
        before,
        WriteView { offset, bytes },
        d.sectors(),
    );
    lemma_directory_untouched(d, d.storage.written(offset, bytes), file);
}

} // verus!

//! Chains of sectors and the file allocation table.
use cfb_directory::allocator::{Allocator, Sector};
use cfb_directory::consts;
use cfb_directory::consts::{DIFAT_SECTOR, END_OF_CHAIN, FAT_SECTOR, FREE_SECTOR};
use cfb_directory::direntry::DirEntry;
use cfb_directory::directory::Directory;
use cfb_directory::storage::{SectorInit, Write};
use cfb_directory::version::Version;

fn directory_on(version: Version, difat: Vec<u32>, fat: Vec<u32>, start: u32) -> Directory<&'static str> {
    let allocator = Allocator::new("file", version, vec![], difat, fat).unwrap();
    let root = DirEntry::created("Root Entry", consts::OBJ_TYPE_ROOT, 0);
    Directory::new(allocator, vec![root], start).unwrap()
}

fn small(version: Version) -> Directory<&'static str> {
    directory_on(version, vec![0], vec![FAT_SECTOR, END_OF_CHAIN], 1)
}

fn number(n: u32) -> Vec<u8> {
    n.to_le_bytes().to_vec()
}

fn assert_writes(writes: Vec<Write>, expected: Vec<(u64, Vec<u8>)>) {
    let got: Vec<(u64, Vec<u8>)> =
        writes.into_iter().map(|write| (write.offset, write.bytes)).collect();
    assert_eq!(got, expected);
}

#[test]
fn new_chain_has_one_sector() {
    let mut directory = small(Version::V3);
    assert!(directory.has_room());
    assert_eq!(directory.begin_chain(SectorInit::Zero), 2);
    assert_eq!(directory.open_chain(2, SectorInit::Zero).sector_ids, vec![2]);
    assert_eq!(directory.open_chain(1, SectorInit::Dir).sector_ids, vec![1]);
    assert_writes(
        directory.flush(),
        vec![(512 + 8, number(END_OF_CHAIN)), (1536, vec![0; 512])],
    );
    assert_eq!(directory.into_inner(), "file");
}

#[test]
fn sectors_are_filled_as_asked() {
    let mut directory = small(Version::V4);
    let unused = DirEntry::unallocated().to_bytes();
    let mut list = vec![0xff; 4092];
    list.extend(number(END_OF_CHAIN));
    for (init, filling) in [
        (SectorInit::Zero, vec![0; 4096]),
        (SectorInit::Fat, vec![0xff; 4096]),
        (SectorInit::Difat, list),
        (SectorInit::Dir, unused.repeat(32)),
    ] {
        let id = directory.begin_chain(init);
        let writes = directory.flush();
        assert_eq!(writes.len(), 2);
        assert_eq!(writes[0].offset, 4096 + 4 * id as u64);
        assert_eq!(writes[1].offset, (id as u64 + 1) * 4096);
        assert_eq!(writes[1].bytes, filling);
    }
}

#[test]
fn chain_grows_at_its_end() {
    let mut directory = small(Version::V3);
    let start = directory.begin_chain(SectorInit::Zero);
    let other = directory.begin_chain(SectorInit::Zero);
    assert_eq!((start, other), (2, 3));
    assert_eq!(directory.extend_chain(start, SectorInit::Zero), 4);
    let _ = directory.flush();
    // Any sector of the chain will do.
    assert_eq!(directory.extend_chain(4, SectorInit::Fat), 5);
    assert_writes(
        directory.flush(),
        vec![
            (512 + 20, number(END_OF_CHAIN)),
            (6 * 512, vec![0xff; 512]),
            (512 + 16, number(5)),
        ],
    );
    assert_eq!(directory.open_chain(start, SectorInit::Zero).sector_ids, vec![2, 4, 5]);
    assert_eq!(directory.open_chain(4, SectorInit::Zero).sector_ids, vec![4, 5]);
    assert_eq!(directory.open_chain(other, SectorInit::Zero).sector_ids, vec![3]);
    assert!(directory.is_stored());
    let chain = directory.open_chain(start, SectorInit::Zero);
    assert_eq!(chain.locate(0), Some(1536));
    assert_eq!(chain.locate(513), Some(5 * 512 + 1));
    assert_eq!(chain.locate(1535), Some(7 * 512 - 1));
    assert_eq!(chain.locate(1536), None);
}

#[test]
fn freed_sectors_are_taken_again() {
    let mut directory = small(Version::V3);
    let start = directory.begin_chain(SectorInit::Zero);
    directory.extend_chain(start, SectorInit::Zero);
    let other = directory.begin_chain(SectorInit::Zero);
    directory.extend_chain(start, SectorInit::Zero);
    assert_eq!(directory.open_chain(start, SectorInit::Zero).sector_ids, vec![2, 3, 5]);
    let _ = directory.flush();
    directory.free_chain(start);
    assert_writes(
        directory.flush(),
        vec![
            (512 + 8, number(FREE_SECTOR)),
            (512 + 12, number(FREE_SECTOR)),
            (512 + 20, number(FREE_SECTOR)),
        ],
    );
    assert!(!directory.is_chain_start(2));
    assert!(directory.is_chain_start(other));
    assert!(directory.is_chain_start(END_OF_CHAIN));
    assert_eq!(directory.open_chain(other, SectorInit::Zero).sector_ids, vec![4]);
    assert_eq!(directory.open_chain(1, SectorInit::Dir).sector_ids, vec![1]);
    for id in [2, 3, 5, 6] {
        assert_eq!(directory.begin_chain(SectorInit::Zero), id);
    }
    directory.free_chain(END_OF_CHAIN);
}

#[test]
fn chain_that_does_not_end() {
    let directory = directory_on(Version::V3, vec![0], vec![FAT_SECTOR, END_OF_CHAIN, 3, 2, 9], 1);
    assert!(!directory.is_chain_start(2));
    assert!(!directory.is_chain_start(4));
    assert!(!directory.is_chain_start(5));
    assert!(!directory.is_chain_start(0));
    assert!(directory.is_stored());
}

#[test]
fn full_table_grows_by_a_sector() {
    let mut fat = vec![END_OF_CHAIN; 128];
    fat[0] = FAT_SECTOR;
    let mut directory = directory_on(Version::V3, vec![0], fat, 1);
    assert_eq!(directory.begin_chain(SectorInit::Zero), 129);
    let table = 129 * 512;
    assert_writes(
        directory.flush(),
        vec![
            (table, vec![0xff; 512]),
            (table, number(FAT_SECTOR)),
            (76 + 4, number(128)),
            (44, number(2)),
            (table + 4, number(END_OF_CHAIN)),
            (130 * 512, vec![0; 512]),
        ],
    );
    assert_eq!(directory.begin_chain(SectorInit::Zero), 130);
}

#[test]
fn header_lists_only_so_many_table_sectors() {
    let count = 109 * 128;
    let mut fat = vec![END_OF_CHAIN; count];
    for id in 0..109 {
        fat[id] = FAT_SECTOR;
    }
    let difat: Vec<u32> = (0..109).collect();
    let mut directory = directory_on(Version::V3, difat, fat, 109);
    assert_eq!(directory.begin_chain(SectorInit::Zero), count as u32 + 2);
    let table = (count as u64 + 1) * 512;
    let list = (count as u64 + 2) * 512;
    let mut empty_list = vec![0xff; 508];
    empty_list.extend(number(END_OF_CHAIN));
    assert_writes(
        directory.flush(),
        vec![
            (table, vec![0xff; 512]),
            (table, number(FAT_SECTOR)),
            (list, empty_list),
            (table + 4, number(DIFAT_SECTOR)),
            (68, number(count as u32 + 1)),
            (72, number(1)),
            (list, number(count as u32)),
            (44, number(110)),
            (table + 8, number(END_OF_CHAIN)),
            (list + 512, vec![0; 512]),
        ],
    );
}

#[test]
fn place_in_the_header() {
    let mut directory = small(Version::V3);
    let mut place = directory.seek_within_header(508);
    assert_eq!(place, Sector { start: 0, len: 512, offset: 508 });
    assert_eq!(directory.write(&mut place, &[1, 2, 3]), 3);
    assert_eq!(place.offset, 511);
    assert_eq!(directory.write(&mut place, &[4, 5, 6]), 1);
    assert_eq!(directory.write(&mut place, &[7]), 0);
    assert_eq!(place.offset, 512);
    assert_writes(directory.flush(), vec![(508, vec![1, 2, 3]), (511, vec![4])]);
}

#[test]
fn what_stands_for_the_file_can_be_reached() {
    let mut directory = small(Version::V4);
    assert_eq!(directory.sector_len(), 4096);
    *directory.inner_mut() = "other file";
    assert_eq!(directory.into_inner(), "other file");
}

/// Reads the FAT that the first sector behind the header holds.
fn table_in(file: &[u8], len: usize) -> Vec<u32> {
    (0..len)
        .map(|i| {
            let at = 512 + 4 * i;
            u32::from_le_bytes([file[at], file[at + 1], file[at + 2], file[at + 3]])
        })
        .collect()
}

#[test]
fn file_follows_the_table_and_the_directory() {
    let mut directory = small(Version::V3);
    directory.with_root_dir_entry_mut(|_| {});
    let mut file = vec![0xffu8; 20 * 512];
    file[512..516].copy_from_slice(&number(FAT_SECTOR));
    file[516..520].copy_from_slice(&number(END_OF_CHAIN));
    let first = directory.begin_chain(SectorInit::Zero);
    for i in 0..5u32 {
        directory.extend_chain(first, SectorInit::Zero);
        directory.insert_dir_entry_at(0, &format!("n{}", i), consts::OBJ_TYPE_STREAM, 0);
    }
    let second = directory.begin_chain(SectorInit::Zero);
    directory.extend_chain(second, SectorInit::Zero);
    directory.remove_dir_entry(0, "n1");
    directory.free_chain(first);
    for write in directory.flush() {
        let start = write.offset as usize;
        file[start..start + write.bytes.len()].copy_from_slice(&write.bytes);
    }

    let table = table_in(&file, 11);
    let allocator = Allocator::new((), Version::V3, vec![], vec![0], table).unwrap();
    let reread = Directory::new(
        allocator,
        (0..6).map(|id| directory.dir_entry(id).clone()).collect(),
        1,
    )
    .unwrap();
    assert!(reread.is_stored());
    assert!(!reread.is_chain_start(first));
    let sectors = directory.open_chain(1, SectorInit::Dir).sector_ids;
    assert_eq!(sectors.len(), 2);
    for start in [1, second] {
        assert_eq!(
            reread.open_chain(start, SectorInit::Zero).sector_ids,
            directory.open_chain(start, SectorInit::Zero).sector_ids
        );
    }
    for id in 0..6usize {
        let start = (sectors[id / 4] as usize + 1) * 512 + 128 * (id % 4);
        assert_eq!(file[start..start + 128].to_vec(), directory.dir_entry(id as u32).to_bytes());
    }
}

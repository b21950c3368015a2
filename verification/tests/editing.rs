//! Adding, removing and changing objects.
use cfb_directory::allocator::Allocator;
use cfb_directory::consts;
use cfb_directory::consts::NO_STREAM;
use cfb_directory::direntry::DirEntry;
use cfb_directory::directory::Directory;
use cfb_directory::error::Error;
use cfb_directory::storage::SectorInit;
use cfb_directory::version::Version;

const STORAGE: u8 = consts::OBJ_TYPE_STORAGE;
const STREAM: u8 = consts::OBJ_TYPE_STREAM;

fn root() -> DirEntry {
    let mut entry = DirEntry::created("Root Entry", consts::OBJ_TYPE_ROOT, 0);
    entry.start_sector = consts::END_OF_CHAIN;
    entry
}

/// A directory in sector 1, with the FAT in sector 0.
fn directory_of(version: Version, entries: Vec<DirEntry>) -> Directory<Vec<u8>> {
    let fat = vec![consts::FAT_SECTOR, consts::END_OF_CHAIN];
    let allocator = Allocator::new(Vec::new(), version, vec![], vec![0], fat).unwrap();
    Directory::new(allocator, entries, 1).unwrap()
}

fn entries_of(directory: &Directory<Vec<u8>>, count: u32) -> Vec<DirEntry> {
    (0..count).map(|id| directory.dir_entry(id).clone()).collect()
}

fn links(entry: &DirEntry) -> (u32, u32, u32) {
    (entry.left_sibling, entry.right_sibling, entry.child)
}

/// Lets the file receive the writes.
fn sync(directory: &mut Directory<Vec<u8>>) {
    for write in directory.flush() {
        let file = directory.inner_mut();
        let start = write.offset as usize;
        let end = start + write.bytes.len();
        if file.len() < end {
            file.resize(end, 0);
        }
        file[start..end].copy_from_slice(&write.bytes);
    }
}

/// Holds every entry against its place in the file.
fn assert_in_step(directory: &mut Directory<Vec<u8>>, count: u32) {
    let sectors = directory.open_chain(1, SectorInit::Dir).sector_ids;
    let len = directory.sector_len();
    let per_sector = directory.version().dir_entries_per_sector();
    for id in 0..count {
        let expected = directory.dir_entry(id).to_bytes();
        let sector = sectors[id as usize / per_sector] as usize;
        let start = (sector + 1) * len + 128 * (id as usize % per_sector);
        let file = directory.inner_mut();
        assert_eq!(file[start..start + 128].to_vec(), expected);
    }
}

/// A directory whose file holds what it should, with "foo", "bar" and "zed" below
/// the root, in this order.
fn sample() -> Directory<Vec<u8>> {
    let mut directory = directory_of(Version::V3, vec![root()]);
    directory.with_root_dir_entry_mut(|_| {});
    assert_eq!(directory.insert_dir_entry_at(0, "foo", STORAGE, 10), 1);
    assert_eq!(directory.insert_dir_entry_at(0, "bar", STREAM, 11), 2);
    assert_eq!(directory.insert_dir_entry_at(0, "zed", STREAM, 12), 3);
    sync(&mut directory);
    directory
}

#[test]
fn first_child_hangs_from_its_parent() {
    let mut directory = directory_of(Version::V3, vec![root()]);
    assert!(directory.has_place());
    assert_eq!(directory.insert_dir_entry_at(0, "foo", STORAGE, 42), 1);
    assert_eq!(directory.root_dir_entry().child, 1);
    let entry = directory.dir_entry(1).clone();
    assert_eq!(entry.to_bytes(), DirEntry::created("foo", STORAGE, 42).to_bytes());

    let writes = directory.flush();
    assert_eq!(writes.len(), 2);
    assert_eq!(writes[0].offset, 1024 + 76);
    assert_eq!(writes[0].bytes, vec![1, 0, 0, 0]);
    assert_eq!(writes[1].offset, 1024 + 128);
    assert_eq!(writes[1].bytes, entry.to_bytes());
    assert!(directory.flush().is_empty());
}

#[test]
fn siblings_are_linked_in_order() {
    let mut directory = sample();
    assert_eq!(links(directory.dir_entry(0)), (NO_STREAM, NO_STREAM, 1));
    assert_eq!(links(directory.dir_entry(1)), (2, 3, NO_STREAM));
    assert_eq!(links(directory.dir_entry(2)), (NO_STREAM, NO_STREAM, NO_STREAM));
    assert_eq!(links(directory.dir_entry(3)), (NO_STREAM, NO_STREAM, NO_STREAM));
    assert_in_step(&mut directory, 4);
    assert!(Directory::new(
        Allocator::new(
            (),
            Version::V3,
            vec![],
            vec![0],
            vec![consts::FAT_SECTOR, consts::END_OF_CHAIN]
        )
        .unwrap(),
        entries_of(&directory, 4),
        1
    )
    .is_ok());
}

#[test]
fn full_directory_takes_one_more_sector() {
    let mut directory = sample();
    assert_eq!(directory.insert_dir_entry_at(0, "fooo", STREAM, 13), 4);
    assert_eq!(directory.dir_entry(3).right_sibling, 4);
    assert_eq!(directory.open_chain(1, SectorInit::Dir).sector_ids, vec![1, 2]);
    let writes = directory.flush();
    let unused = DirEntry::unallocated().to_bytes();
    let expected: Vec<(u64, Vec<u8>)> = vec![
        (512 + 8, vec![0xfe, 0xff, 0xff, 0xff]),
        (1536, unused.repeat(4)),
        (512 + 4, vec![2, 0, 0, 0]),
        (1024 + 384 + 72, vec![4, 0, 0, 0]),
        (1536, DirEntry::created("fooo", STREAM, 13).to_bytes()),
    ];
    assert_eq!(writes.len(), expected.len());
    for (write, (offset, bytes)) in writes.iter().zip(expected) {
        assert_eq!(write.offset, offset);
        assert_eq!(write.bytes, bytes);
    }
}

#[test]
fn large_sectors_hold_more_entries() {
    let mut directory = directory_of(Version::V4, vec![root()]);
    directory.with_root_dir_entry_mut(|_| {});
    for i in 1..40u32 {
        let name = format!("s{:02}", i);
        assert_eq!(directory.insert_dir_entry_at(0, &name, STREAM, 0), i);
    }
    assert_eq!(directory.open_chain(1, SectorInit::Dir).sector_ids, vec![1, 2]);
    sync(&mut directory);
    assert_in_step(&mut directory, 40);
}

#[test]
fn object_is_found_after_it_is_added() {
    let mut directory = sample();
    let id = directory.insert_dir_entry(1, "inner", STREAM);
    assert_eq!(id, 4);
    assert_eq!(directory.stream_id_for_name_chain(&[]), Some(0));
    assert_eq!(directory.stream_id_for_name_chain(&["foo"]), Some(1));
    assert_eq!(directory.stream_id_for_name_chain(&["FOO", "Inner"]), Some(4));
    assert_eq!(directory.stream_id_for_name_chain(&["bar"]), Some(2));
    assert_eq!(directory.stream_id_for_name_chain(&["inner"]), None);
    assert_eq!(directory.stream_id_for_name_chain(&["zed", "inner"]), None);
    assert_eq!(directory.find_child(0, "ZED"), Some(3));
    assert_eq!(directory.find_child(1, "zed"), None);
    let entry = directory.dir_entry(4);
    assert_eq!(entry.creation_time, entry.modified_time);
    assert!(entry.creation_time > 116_444_736_000_000_000);
}

#[test]
fn object_that_exists_is_not_added() {
    let mut directory = sample();
    assert_eq!(directory.try_insert_dir_entry(0, "Foo", STREAM), None);
    assert!(directory.flush().is_empty());
    assert_eq!(directory.try_insert_dir_entry(0, "four", STREAM), Some(4));
    assert_eq!(directory.stream_id_for_name_chain(&["four"]), Some(4));
}

#[test]
fn object_without_siblings_below_it_is_removed() {
    let mut directory = sample();
    directory.remove_dir_entry(0, "ZED");
    assert_eq!(links(directory.dir_entry(1)), (2, NO_STREAM, NO_STREAM));
    assert_eq!(directory.dir_entry(3).obj_type, consts::OBJ_TYPE_UNALLOCATED);
    assert_eq!(directory.stream_id_for_name_chain(&["zed"]), None);
    assert_eq!(directory.stream_id_for_name_chain(&["foo"]), Some(1));
    assert_eq!(directory.stream_id_for_name_chain(&["bar"]), Some(2));
    let writes = directory.flush();
    assert_eq!(writes.len(), 2);
    assert_eq!(writes[0].offset, 1024 + 128 + 72);
    assert_eq!(writes[0].bytes, vec![0xff; 4]);
    assert_eq!(writes[1].offset, 1024 + 384);
    assert_eq!(writes[1].bytes, DirEntry::unallocated().to_bytes());
}

#[test]
fn object_with_one_sibling_below_it_is_removed() {
    let mut directory = sample();
    directory.remove_dir_entry(0, "bar");
    directory.remove_dir_entry(0, "foo");
    assert_eq!(directory.root_dir_entry().child, 3);
    assert_eq!(directory.stream_id_for_name_chain(&["zed"]), Some(3));
    assert_eq!(directory.stream_id_for_name_chain(&["foo"]), None);
    sync(&mut directory);
    assert_in_step(&mut directory, 4);

    let mut directory = sample();
    directory.remove_dir_entry(0, "zed");
    directory.remove_dir_entry(0, "foo");
    assert_eq!(directory.root_dir_entry().child, 2);
    assert_eq!(directory.stream_id_for_name_chain(&["bar"]), Some(2));
}

#[test]
fn object_with_two_siblings_below_it_is_removed() {
    let mut directory = sample();
    directory.remove_dir_entry(0, "foo");
    // The predecessor has moved into the entry.
    let moved = directory.dir_entry(1);
    assert_eq!(moved.name, "bar");
    assert_eq!(moved.obj_type, STREAM);
    assert_eq!(moved.creation_time, 11);
    assert_eq!(links(moved), (NO_STREAM, 3, NO_STREAM));
    assert_eq!(directory.dir_entry(2).obj_type, consts::OBJ_TYPE_UNALLOCATED);
    assert_eq!(directory.stream_id_for_name_chain(&["foo"]), None);
    assert_eq!(directory.stream_id_for_name_chain(&["bar"]), Some(1));
    assert_eq!(directory.stream_id_for_name_chain(&["zed"]), Some(3));
    let writes = directory.flush();
    let offsets: Vec<u64> = writes.iter().map(|write| write.offset).collect();
    assert_eq!(offsets, vec![1024 + 128, 1024 + 128 + 68, 1024 + 256]);
}

#[test]
fn predecessor_deeper_in_the_tree_takes_its_children_along() {
    let mut directory = sample();
    assert_eq!(directory.insert_dir_entry_at(0, "dog", STORAGE, 20), 4);
    assert_eq!(directory.insert_dir_entry_at(0, "cat", STREAM, 21), 5);
    assert_eq!(directory.insert_dir_entry_at(4, "kennel", STREAM, 22), 6);
    // Below "foo": "bar" on the left with "dog" on its right, "cat" left of that.
    assert_eq!(links(directory.dir_entry(2)), (NO_STREAM, 4, NO_STREAM));
    assert_eq!(links(directory.dir_entry(4)), (5, NO_STREAM, 6));
    sync(&mut directory);
    directory.remove_dir_entry(0, "foo");
    assert_eq!(directory.dir_entry(1).name, "dog");
    assert_eq!(links(directory.dir_entry(1)), (2, 3, 6));
    assert_eq!(links(directory.dir_entry(2)), (NO_STREAM, 5, NO_STREAM));
    assert_eq!(directory.dir_entry(4).obj_type, consts::OBJ_TYPE_UNALLOCATED);
    for (names, id) in [
        (vec!["bar"], Some(2)),
        (vec!["cat"], Some(5)),
        (vec!["dog"], Some(1)),
        (vec!["dog", "kennel"], Some(6)),
        (vec!["zed"], Some(3)),
        (vec!["foo"], None),
    ] {
        assert_eq!(directory.stream_id_for_name_chain(&names), id);
    }
    sync(&mut directory);
    assert_in_step(&mut directory, 7);
}

#[test]
fn object_that_cannot_be_removed_stays() {
    let mut directory = sample();
    assert_eq!(directory.insert_dir_entry_at(1, "inner", STREAM, 0), 4);
    let _ = directory.flush();
    assert!(!directory.try_remove_dir_entry(0, "nothing"));
    assert!(!directory.try_remove_dir_entry(0, "foo"));
    assert!(!directory.try_remove_dir_entry(2, "foo"));
    assert!(directory.flush().is_empty());
    assert!(directory.try_remove_dir_entry(1, "inner"));
    assert!(directory.try_remove_dir_entry(0, "foo"));
    assert_eq!(directory.stream_id_for_name_chain(&["foo"]), None);
}

#[test]
fn removing_undoes_adding() {
    let mut directory = sample();
    let before: Vec<Vec<u8>> = entries_of(&directory, 4).iter().map(DirEntry::to_bytes).collect();
    let id = directory.insert_dir_entry_at(0, "eve", STREAM, 5);
    assert_eq!(id, 4);
    directory.remove_dir_entry(0, "eve");
    let after: Vec<Vec<u8>> = entries_of(&directory, 4).iter().map(DirEntry::to_bytes).collect();
    assert_eq!(after, before);
    assert_eq!(directory.dir_entry(4).to_bytes(), DirEntry::unallocated().to_bytes());
    // The entry is taken again, and the directory does not grow further.
    assert_eq!(directory.insert_dir_entry_at(0, "ada", STREAM, 6), 4);
    assert_eq!(directory.open_chain(1, SectorInit::Dir).sector_ids, vec![1, 2]);
}

#[test]
fn removing_can_leave_two_red_nodes() {
    let mut entries = vec![
        root(),
        DirEntry::created("b", STREAM, 0),
        DirEntry::created("a", STREAM, 0),
        DirEntry::created("c", STREAM, 0),
    ];
    entries[0].child = 1;
    entries[1].left_sibling = 2;
    entries[1].right_sibling = 3;
    entries[2].color = consts::COLOR_RED;
    entries[3].color = consts::COLOR_RED;
    let mut directory = directory_of(Version::V3, entries);
    directory.remove_dir_entry(0, "b");
    let left = entries_of(&directory, 4);
    let fat = vec![consts::FAT_SECTOR, consts::END_OF_CHAIN];
    let allocator = Allocator::new((), Version::V3, vec![], vec![0], fat).unwrap();
    assert!(matches!(Directory::new(allocator, left, 1), Err(Error::TwoRedNodes)));
}

#[test]
fn entry_is_changed_in_memory_and_in_the_file() {
    let mut directory = sample();
    directory.with_dir_entry_mut(3, |entry| {
        entry.stream_len = 4096;
        entry.state_bits = 7;
        entry.clsid[0] = 0xab;
    });
    assert_eq!(directory.dir_entry(3).stream_len, 4096);
    assert_eq!(directory.stream_id_for_name_chain(&["zed"]), Some(3));
    directory.with_root_dir_entry_mut(|entry| entry.modified_time = 99);
    assert_eq!(directory.root_dir_entry().modified_time, 99);
    let writes = directory.flush();
    assert_eq!(writes.len(), 2);
    assert_eq!(writes[0].offset, 1024 + 384);
    assert_eq!(writes[0].bytes, directory.dir_entry(3).to_bytes());
    assert_eq!(writes[0].bytes[83], 0xab);
    assert_eq!(writes[1].offset, 1024);
    assert_eq!(writes[1].bytes, directory.root_dir_entry().to_bytes());
}

#[test]
fn file_follows_a_long_sequence_of_edits() {
    let mut directory = directory_of(Version::V3, vec![root()]);
    directory.with_root_dir_entry_mut(|_| {});
    let mut names: Vec<String> = Vec::new();
    for i in 0..60u32 {
        let name = format!("n{}", (i * 37) % 101);
        directory.insert_dir_entry_at(0, &name, STREAM, i as u64);
        names.push(name);
        if i % 3 == 2 {
            let gone = names.remove((i as usize * 7) % names.len());
            directory.remove_dir_entry(0, &gone);
            assert_eq!(directory.stream_id_for_name_chain(&[gone.as_str()]), None);
        }
    }
    for name in &names {
        let id = directory.stream_id_for_name_chain(&[name.as_str()]).unwrap();
        assert_eq!(&directory.dir_entry(id).name, name);
    }
    sync(&mut directory);
    let count = names.len() as u32 + 1;
    assert_in_step(&mut directory, count);
}

#[test]
fn removing_keeps_valid_where_only_others_are_red() {
    let mut entries = vec![
        root(),
        DirEntry::created("b", STORAGE, 0),
        DirEntry::created("a", STREAM, 0),
        DirEntry::created("c", STREAM, 0),
        DirEntry::created("y", STREAM, 0),
        DirEntry::created("x", STREAM, 0),
        DirEntry::created("z", STREAM, 0),
    ];
    entries[0].child = 1;
    entries[1].left_sibling = 2;
    entries[1].right_sibling = 3;
    entries[1].child = 4;
    entries[4].left_sibling = 5;
    entries[4].right_sibling = 6;
    // Red above, black among the siblings of the object that is removed.
    entries[0].color = consts::COLOR_RED;
    entries[2].color = consts::COLOR_RED;
    entries[3].color = consts::COLOR_RED;
    let mut directory = directory_of(Version::V4, entries);
    directory.remove_dir_entry(1, "y");
    assert_eq!(directory.stream_id_for_name_chain(&["b", "x"]), Some(4));
    let left = entries_of(&directory, 7);
    let allocator = Allocator::new((), Version::V4, vec![], vec![], vec![]).unwrap();
    assert!(Directory::new(allocator, left, consts::END_OF_CHAIN).is_ok());
}

#[test]
fn root_keeps_all_but_its_child() {
    let mut directory = directory_of(Version::V3, vec![root()]);
    directory.with_root_dir_entry_mut(|entry| {
        entry.state_bits = 5;
        entry.clsid[3] = 9;
        entry.stream_len = 640;
    });
    let before = directory.root_dir_entry().clone();
    for name in ["m", "c", "x", "a", "d"] {
        directory.insert_dir_entry_at(0, name, STREAM, 1);
    }
    for name in ["m", "a", "x"] {
        directory.remove_dir_entry(0, name);
    }
    let mut after = directory.root_dir_entry().clone();
    assert_ne!(after.child, before.child);
    after.child = before.child;
    assert_eq!(after.to_bytes(), before.to_bytes());
}

#[test]
fn entries_follow_whatever_the_spare_places_hold() {
    let mut directory = directory_of(Version::V3, vec![root()]);
    directory.inner_mut().resize(2048, 0xaa);
    directory.with_root_dir_entry_mut(|_| {});
    directory.insert_dir_entry_at(0, "foo", STREAM, 1);
    directory.insert_dir_entry_at(0, "bar", STREAM, 2);
    directory.remove_dir_entry(0, "foo");
    sync(&mut directory);
    assert_in_step(&mut directory, 3);
    assert_eq!(directory.inner_mut()[1024 + 384..1536].to_vec(), vec![0xaa; 128]);
}

#[test]
fn entry_is_replaced_where_the_tree_stays() {
    let mut directory = sample();
    let mut entry = directory.dir_entry(2).clone();
    entry.stream_len = 77;
    entry.color = consts::COLOR_RED;
    assert!(directory.try_replace_dir_entry(2, entry));
    assert_eq!(directory.dir_entry(2).stream_len, 77);
    let writes = directory.flush();
    assert_eq!(writes.len(), 1);
    assert_eq!(writes[0].offset, 1024 + 256);
    assert_eq!(writes[0].bytes, directory.dir_entry(2).to_bytes());

    // The links may change, as long as they still form a tree.
    let mut entry = directory.dir_entry(1).clone();
    entry.left_sibling = NO_STREAM;
    assert!(directory.try_replace_dir_entry(1, entry));
    assert!(!directory.is_in_tree(2));
    assert!(directory.is_tree());
    assert_eq!(directory.stream_id_for_name_chain(&["bar"]), None);

    // What is out of the tree may become anything.
    assert!(directory.try_replace_dir_entry(2, DirEntry::unallocated()));
    assert_eq!(directory.insert_dir_entry_at(0, "new", STREAM, 0), 2);
}

#[test]
fn entry_that_breaks_the_tree_is_refused() {
    let mut directory = sample();
    let before: Vec<Vec<u8>> = entries_of(&directory, 4).iter().map(DirEntry::to_bytes).collect();
    let stored = directory.dir_entry(2).clone();
    let mut up = stored.clone();
    up.child = 1;
    let mut twice = stored.clone();
    twice.right_sibling = 3;
    let mut nowhere = stored.clone();
    nowhere.left_sibling = 9;
    let mut unused = stored.clone();
    unused.obj_type = consts::OBJ_TYPE_UNALLOCATED;
    let mut long = stored.clone();
    long.name = "n".repeat(32);
    for entry in [up, twice, nowhere, unused, long] {
        assert!(!directory.try_replace_dir_entry(2, entry));
        assert!(directory.is_tree());
    }
    let after: Vec<Vec<u8>> = entries_of(&directory, 4).iter().map(DirEntry::to_bytes).collect();
    assert_eq!(after, before);
    assert!(directory.flush().is_empty());
}

#[test]
fn links_that_are_changed_freely_may_form_no_tree() {
    let mut directory = sample();
    assert!(directory.is_tree());
    assert!(directory.validate().is_ok());
    directory.with_dir_entry_mut(3, |entry| entry.child = 0);
    assert!(!directory.is_tree());
    assert!(matches!(directory.validate(), Err(Error::TreeLoop)));
}

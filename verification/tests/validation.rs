//! What is held against the entries of a directory.
use cfb_directory::allocator::Allocator;
use cfb_directory::consts;
use cfb_directory::direntry::DirEntry;
use cfb_directory::directory::Directory;
use cfb_directory::error::{Error, ErrorKind};
use cfb_directory::version::Version;

fn root() -> DirEntry {
    let mut entry = DirEntry::created("Root Entry", consts::OBJ_TYPE_ROOT, 0);
    entry.start_sector = consts::END_OF_CHAIN;
    entry
}

fn object(name: &str, obj_type: u8) -> DirEntry {
    DirEntry::created(name, obj_type, 0)
}

fn validated(entries: Vec<DirEntry>) -> Result<Directory<()>, Error> {
    let fat = vec![consts::FAT_SECTOR, 2, consts::END_OF_CHAIN];
    let allocator = Allocator::new((), Version::V3, vec![], vec![0], fat).unwrap();
    Directory::new(allocator, entries, 1)
}

fn fault(entries: Vec<DirEntry>) -> Error {
    match validated(entries) {
        Ok(_) => panic!("the entries are taken to be valid"),
        Err(error) => {
            assert_eq!(error.kind(), ErrorKind::InvalidData);
            error
        }
    }
}

/// The root with the storages "b", "a" and "c", the first of them on top.
fn family() -> Vec<DirEntry> {
    let mut entries = vec![
        root(),
        object("b", consts::OBJ_TYPE_STORAGE),
        object("a", consts::OBJ_TYPE_STREAM),
        object("c", consts::OBJ_TYPE_STORAGE),
    ];
    entries[0].child = 1;
    entries[1].left_sibling = 2;
    entries[1].right_sibling = 3;
    entries
}

#[test]
fn valid_entries() {
    assert!(validated(vec![root()]).is_ok());
    let directory = validated(family()).unwrap();
    assert_eq!(directory.version(), Version::V3);
    assert_eq!(directory.sector_len(), 512);
    assert_eq!(directory.root_dir_entry().name, "Root Entry");
    assert_eq!(directory.dir_entry(3).name, "c");
    assert!(directory.is_stored());
    for id in 0..4 {
        assert!(directory.is_in_tree(id));
    }
    assert!(!directory.is_in_tree(4));
}

#[test]
fn red_root_is_accepted() {
    let mut entries = family();
    entries[0].color = consts::COLOR_RED;
    entries[1].color = consts::COLOR_RED;
    assert!(validated(entries).is_ok());
}

#[test]
fn name_of_the_root() {
    let mut entries = family();
    entries[0].name = "root\n\"entry\"".to_string();
    let error = fault(entries);
    assert!(matches!(&error, Error::RootName { name } if name == "root\n\"entry\""));
    assert_eq!(
        error.message(),
        "Malformed directory (root entry name is \"root\\n\\\"entry\\\"\", but should be \
         \"Root Entry\")"
    );
}

#[test]
fn length_of_the_root_stream() {
    let mut entries = family();
    entries[0].stream_len = 128;
    assert!(validated(entries).is_ok());
    let mut entries = family();
    entries[0].stream_len = 1063;
    let error = fault(entries);
    assert!(matches!(error, Error::RootStreamLen { stream_len: 1063 }));
    assert_eq!(
        error.message(),
        "Malformed directory (root stream len is 1063, but should be multiple of 64)"
    );
}

#[test]
fn loops() {
    let mut entries = family();
    entries[3].child = 1;
    let error = fault(entries);
    assert!(matches!(error, Error::TreeLoop));
    assert_eq!(error.message(), "Malformed directory (loop in tree)");
    let mut entries = family();
    entries[3].child = 2;
    assert!(matches!(fault(entries), Error::TreeLoop));
    let mut entries = family();
    entries[2].child = 0;
    assert!(matches!(fault(entries), Error::TreeLoop));
}

#[test]
fn object_types() {
    let mut entries = family();
    entries[0].obj_type = consts::OBJ_TYPE_STORAGE;
    let error = fault(entries);
    assert!(matches!(error, Error::RootType { obj_type: 1 }));
    assert_eq!(
        error.message(),
        "Malformed directory (wrong object type for root entry: 1)"
    );
    let mut entries = family();
    entries[3].obj_type = consts::OBJ_TYPE_UNALLOCATED;
    let error = fault(entries);
    assert!(matches!(error, Error::NonRootType { obj_type: 0 }));
    assert_eq!(
        error.message(),
        "Malformed directory (wrong object type for non-root entry: 0)"
    );
    let mut entries = family();
    entries[2].obj_type = consts::OBJ_TYPE_ROOT;
    assert!(matches!(fault(entries), Error::NonRootType { obj_type: 5 }));
}

#[test]
fn colors() {
    let mut entries = family();
    entries[1].color = consts::COLOR_RED;
    assert!(validated(entries).is_ok());
    let mut entries = family();
    entries[1].color = consts::COLOR_RED;
    entries[2].color = consts::COLOR_RED;
    let error = fault(entries);
    assert!(matches!(error, Error::TwoRedNodes));
    assert_eq!(error.message(), "Malformed directory (two red nodes in a row)");
}

#[test]
fn links_that_lead_to_no_entry() {
    let mut entries = family();
    entries[2].left_sibling = 4;
    let error = fault(entries);
    assert!(matches!(error, Error::LeftSiblingIndex { index: 4, count: 4 }));
    assert_eq!(
        error.message(),
        "Malformed directory (left sibling index is 4, but directory entry count is 4)"
    );
    let mut entries = family();
    entries[2].right_sibling = 1000;
    let error = fault(entries);
    assert!(matches!(error, Error::RightSiblingIndex { index: 1000, count: 4 }));
    assert_eq!(
        error.message(),
        "Malformed directory (right sibling index is 1000, but directory entry count is 4)"
    );
    let mut entries = family();
    entries[3].child = 4_294_967_294;
    let error = fault(entries);
    assert!(matches!(error, Error::ChildIndex { index: 4_294_967_294, count: 4 }));
    assert_eq!(
        error.message(),
        "Malformed directory (child index is 4294967294, but directory entry count is 4)"
    );
}

#[test]
fn order_of_names() {
    let mut entries = family();
    entries[2].name = "B".to_string();
    let error = fault(entries);
    assert!(matches!(
        &error,
        Error::NamesOutOfOrder { name, sibling } if name == "b" && sibling == "B"
    ));
    assert_eq!(error.message(), "Malformed directory (name ordering, \"b\" vs \"B\")");
    let mut entries = family();
    entries[3].name = "".to_string();
    assert!(matches!(
        fault(entries),
        Error::NamesOutOfOrder { name, sibling } if name == "b" && sibling == ""
    ));
}

#[test]
fn children_are_seen_before_right_siblings_before_left() {
    let mut entries = family();
    entries[0].obj_type = consts::OBJ_TYPE_ROOT;
    entries[2].obj_type = 7;
    entries[3].obj_type = 8;
    assert!(matches!(fault(entries), Error::NonRootType { obj_type: 8 }));
    let mut entries = family();
    entries.push(object("x", 9));
    entries[1].child = 4;
    entries[3].obj_type = 8;
    assert!(matches!(fault(entries), Error::NonRootType { obj_type: 9 }));
}

#[test]
fn only_neighbours_are_compared() {
    // "d" on the left of "b" on the left of "c": each is on its side of the one
    // that links to it, but "d" is greater than "c".
    let mut entries = vec![
        root(),
        object("c", consts::OBJ_TYPE_STREAM),
        object("b", consts::OBJ_TYPE_STREAM),
        object("d", consts::OBJ_TYPE_STREAM),
    ];
    entries[0].child = 1;
    entries[1].left_sibling = 2;
    entries[2].right_sibling = 3;
    assert!(validated(entries).is_ok());
}

#[test]
fn allocation_table_that_does_not_account_for_itself() {
    let good = vec![consts::FAT_SECTOR, consts::END_OF_CHAIN];
    assert!(Allocator::new((), Version::V3, vec![], vec![0], good.clone()).is_ok());
    for difat in [vec![], vec![1], vec![2], vec![0, 0]] {
        match Allocator::new((), Version::V3, vec![], difat, good.clone()) {
            Ok(_) => panic!("the table is taken to be consistent"),
            Err(error) => {
                assert!(matches!(error, Error::AllocationTable));
                assert_eq!(error.kind(), ErrorKind::InvalidData);
                assert_eq!(error.message(), "Malformed FAT (it does not account for itself)");
            }
        }
    }
    assert!(Allocator::new((), Version::V3, vec![1], vec![0], good).is_err());
}

#[test]
fn directory_without_places_for_its_entries() {
    let allocator = Allocator::new(
        (),
        Version::V3,
        vec![],
        vec![0],
        vec![consts::FAT_SECTOR, consts::END_OF_CHAIN],
    )
    .unwrap();
    let mut entries = family();
    entries.push(DirEntry::unallocated());
    let directory = Directory::new(allocator, entries, 1).unwrap();
    assert!(!directory.is_stored());
}

#[test]
fn entries_out_of_reach_play_no_part() {
    let mut good = family();
    good.push(DirEntry::unallocated());
    let mut garbage = family();
    garbage.push(object("\u{0}garbage", 77));
    garbage[4].left_sibling = 4;
    garbage[4].child = 1;
    garbage[4].right_sibling = 12345;
    assert!(validated(good.clone()).is_ok());
    assert!(validated(garbage.clone()).is_ok());

    // The links of the first list make a loop; the second agrees on the entries in it.
    good[3].child = 3;
    garbage[3].child = 3;
    assert!(matches!(fault(good.clone()), Error::TreeLoop));
    assert!(matches!(fault(garbage.clone()), Error::TreeLoop));

    // Nor does the chain of the directory.
    let allocator = Allocator::new((), Version::V4, vec![], vec![], vec![]).unwrap();
    assert!(Directory::new(allocator, family(), consts::END_OF_CHAIN).is_ok());
}

#[test]
fn number_of_entries() {
    let mut entries = family();
    entries.push(DirEntry::unallocated());
    let directory = validated(entries).unwrap();
    assert_eq!(directory.num_dir_entries(), 5);
    assert_eq!(directory.dir_entry(4).obj_type, consts::OBJ_TYPE_UNALLOCATED);
    assert!(!directory.is_in_tree(4));
}

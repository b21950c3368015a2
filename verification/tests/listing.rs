//! Listing objects.
use cfb_directory::allocator::Allocator;
use cfb_directory::consts;
use cfb_directory::direntry::DirEntry;
use cfb_directory::directory::Directory;
use cfb_directory::entries::Entries;
use cfb_directory::error::{Error, ErrorKind};
use cfb_directory::names::PathComponent;
use cfb_directory::version::Version;
use std::path::PathBuf;

const STORAGE: u8 = consts::OBJ_TYPE_STORAGE;
const STREAM: u8 = consts::OBJ_TYPE_STREAM;

/// The storages "m" with the streams "x" and "w" in it, "c" with "k" and "k" with
/// "deep" in it, and the stream "z".
fn sample() -> Directory<()> {
    let fat = vec![consts::FAT_SECTOR, consts::END_OF_CHAIN];
    let allocator = Allocator::new((), Version::V4, vec![], vec![0], fat).unwrap();
    let root = DirEntry::created("Root Entry", consts::OBJ_TYPE_ROOT, 0);
    let mut directory = Directory::new(allocator, vec![root], 1).unwrap();
    assert_eq!(directory.insert_dir_entry_at(0, "m", STORAGE, 0), 1);
    assert_eq!(directory.insert_dir_entry_at(0, "c", STORAGE, 0), 2);
    assert_eq!(directory.insert_dir_entry_at(0, "z", STREAM, 0), 3);
    assert_eq!(directory.insert_dir_entry_at(1, "x", STREAM, 0), 4);
    assert_eq!(directory.insert_dir_entry_at(1, "w", STREAM, 0), 5);
    assert_eq!(directory.insert_dir_entry_at(2, "k", STORAGE, 0), 6);
    assert_eq!(directory.insert_dir_entry_at(6, "deep", STREAM, 0), 7);
    directory
}

fn shown(entries: Entries<'_>) -> Vec<(String, u32)> {
    entries
        .collect()
        .iter()
        .map(|entry| (format!("/{}", entry.path.join("/")), entry.stream_id))
        .collect()
}

fn expected(list: &[(&str, u32)]) -> Vec<(String, u32)> {
    list.iter().map(|(path, id)| (path.to_string(), *id)).collect()
}

fn refused(outcome: Result<Entries<'_>, Error>) -> Error {
    match outcome {
        Ok(_) => panic!("the path is taken"),
        Err(error) => error,
    }
}

#[test]
fn storage_lists_its_own_objects_in_order() {
    let directory = sample();
    let root = directory.storage_entries(&PathBuf::from("/")).unwrap();
    assert_eq!(shown(root), expected(&[("/c", 2), ("/m", 1), ("/z", 3)]));
    let empty_path = directory.storage_entries(&PathBuf::from("")).unwrap();
    assert_eq!(shown(empty_path), expected(&[("/c", 2), ("/m", 1), ("/z", 3)]));
    let inner = directory.storage_entries(&PathBuf::from("/M")).unwrap();
    assert_eq!(shown(inner), expected(&[("/M/w", 5), ("/M/x", 4)]));
    let by_parts = directory
        .storage_entries_at(&[PathComponent::RootDir, PathComponent::Normal("m".to_string())])
        .unwrap();
    assert_eq!(shown(by_parts), expected(&[("/m/w", 5), ("/m/x", 4)]));
}

#[test]
fn empty_storage_lists_nothing() {
    let mut directory = sample();
    let id = directory.insert_dir_entry_at(0, "void", STORAGE, 0);
    assert_eq!(id, 8);
    let mut entries = directory.storage_entries(&PathBuf::from("void")).unwrap();
    assert!(entries.next().is_none());
    assert!(entries.next().is_none());
}

#[test]
fn next_hands_out_one_object_at_a_time() {
    let directory = sample();
    let mut entries = directory.storage_entries(&PathBuf::from("/m")).unwrap();
    let first = entries.next().unwrap();
    assert_eq!(first.path, vec!["m".to_string(), "w".to_string()]);
    assert_eq!(first.stream_id, 5);
    assert_eq!(first.dir_entry.name, "w");
    let second = entries.next().unwrap();
    assert_eq!(second.stream_id, 4);
    assert!(entries.next().is_none());
}

#[test]
fn walk_lists_each_object_before_what_lies_below() {
    let directory = sample();
    let all = directory.walk_storage(&PathBuf::from("/")).unwrap();
    assert_eq!(
        shown(all),
        expected(&[
            ("/", 0),
            ("/c", 2),
            ("/c/k", 6),
            ("/c/k/deep", 7),
            ("/m", 1),
            ("/m/w", 5),
            ("/m/x", 4),
            ("/z", 3),
        ])
    );
    let part = directory.walk_storage(&PathBuf::from("/c/K")).unwrap();
    assert_eq!(shown(part), expected(&[("/c/k", 6), ("/c/k/deep", 7)]));
    let stream = directory.walk_storage(&PathBuf::from("z")).unwrap();
    assert_eq!(shown(stream), expected(&[("/z", 3)]));
    let by_parts = directory
        .walk_storage_at(&[
            PathComponent::Normal("c".to_string()),
            PathComponent::CurDir,
            PathComponent::Normal("k".to_string()),
            PathComponent::ParentDir,
        ])
        .unwrap();
    assert_eq!(shown(by_parts), expected(&[("/c", 2), ("/c/k", 6), ("/c/k/deep", 7)]));
}

#[test]
fn listed_paths_lead_to_their_objects() {
    let directory = sample();
    let all = directory.walk_storage(&PathBuf::from("/")).unwrap().collect();
    assert_eq!(all.len(), 8);
    for entry in &all {
        let names: Vec<&str> = entry.path.iter().map(|name| name.as_str()).collect();
        assert_eq!(directory.stream_id_for_name_chain(&names), Some(entry.stream_id));
    }
}

#[test]
fn parts_of_a_path() {
    let directory = sample();
    let there_and_back = PathBuf::from("/c/k/.././k/deep");
    assert_eq!(
        shown(directory.walk_storage(&there_and_back).unwrap()),
        expected(&[("/c/k/deep", 7)])
    );
}

#[test]
fn paths_that_are_refused() {
    let directory = sample();
    let error = refused(directory.storage_entries(&PathBuf::from("/c/../..")));
    assert!(matches!(error, Error::PathAboveRoot));
    assert_eq!(error.kind(), ErrorKind::InvalidInput);
    assert_eq!(error.message(), "Invalid path (must be within root)");
    let error = refused(directory.walk_storage_at(&[PathComponent::Prefix]));
    assert!(matches!(error, Error::PathPrefix));
    assert_eq!(error.kind(), ErrorKind::InvalidInput);
    assert_eq!(error.message(), "Invalid path (must not have prefix)");
    let error = refused(directory.storage_entries_at(&[PathComponent::NotUnicode]));
    assert!(matches!(error, Error::PathNotUnicode));
    assert_eq!(error.kind(), ErrorKind::InvalidInput);
    assert_eq!(error.message(), "Invalid path (must be valid Unicode)");
}

#[test]
fn paths_that_lead_nowhere() {
    let directory = sample();
    let error = refused(directory.storage_entries(&PathBuf::from("m/none")));
    assert!(matches!(&error, Error::NoSuchStorage { names } if names == &["m", "none"]));
    assert_eq!(error.kind(), ErrorKind::NotFound);
    assert_eq!(error.message(), "No such storage: \"/m/none\"");
    let error = refused(directory.walk_storage(&PathBuf::from("no\"ne")));
    assert!(matches!(&error, Error::NoSuchObject { names } if names == &["no\"ne"]));
    assert_eq!(error.kind(), ErrorKind::NotFound);
    assert_eq!(error.message(), "No such object: \"/no\\\"ne\"");
}

#[test]
fn stream_is_not_a_storage() {
    let directory = sample();
    let error = refused(directory.storage_entries(&PathBuf::from("/c/k/deep")));
    assert!(matches!(&error, Error::NotAStorage { names } if names == &["c", "k", "deep"]));
    assert_eq!(error.kind(), ErrorKind::InvalidInput);
    assert_eq!(error.message(), "Not a storage: \"/c/k/deep\"");
}

#[test]
fn walk_is_the_object_and_the_walks_of_its_children() {
    let directory = sample();
    let mut expected = vec![("/".to_string(), 0)];
    for child in directory.storage_entries(&PathBuf::from("/")).unwrap().collect() {
        let path = PathBuf::from(child.path.join("/"));
        expected.extend(shown(directory.walk_storage(&path).unwrap()));
    }
    assert_eq!(shown(directory.walk_storage(&PathBuf::from("/")).unwrap()), expected);
}

#[test]
fn chain_of_names_in_two_steps() {
    let directory = sample();
    let first = directory.stream_id_for_name_chain(&["c"]).unwrap();
    let second = directory.find_child(first, "k").unwrap();
    assert_eq!(directory.stream_id_for_name_chain(&["c", "k"]), Some(second));
    assert_eq!(directory.stream_id_for_name_chain(&["c", "q"]), directory.find_child(first, "q"));
}

#[test]
fn walk_does_not_look_below_streams() {
    let mut entries = vec![
        DirEntry::created("Root Entry", consts::OBJ_TYPE_ROOT, 0),
        DirEntry::created("s", STREAM, 0),
        DirEntry::created("t", STREAM, 0),
        DirEntry::created("below", STREAM, 0),
    ];
    entries[0].child = 1;
    entries[1].right_sibling = 2;
    entries[1].child = 3;
    let allocator = Allocator::new((), Version::V4, vec![], vec![], vec![]).unwrap();
    let directory = Directory::new(allocator, entries, consts::END_OF_CHAIN).unwrap();
    let all = directory.walk_storage(&PathBuf::from("/")).unwrap();
    assert_eq!(shown(all), expected(&[("/", 0), ("/s", 1), ("/t", 2)]));
    assert_eq!(directory.stream_id_for_name_chain(&["s", "below"]), Some(3));
    let listed = directory.storage_entries(&PathBuf::from("/")).unwrap();
    assert_eq!(shown(listed), expected(&[("/s", 1), ("/t", 2)]));
}

#[test]
fn paths_in_messages_are_quoted_as_paths() {
    let directory = sample();
    for name in ["it's", "tab\there", "\u{e9}t\u{e9}", "\u{200b}"] {
        let path = PathBuf::from("/").join("m").join(name);
        let error = refused(directory.storage_entries(&path));
        assert_eq!(error.message(), format!("No such storage: {:?}", path));
        let error = refused(directory.walk_storage(&path));
        assert_eq!(error.message(), format!("No such object: {:?}", path));
    }
    let root = PathBuf::from("/");
    assert_eq!(format!("{:?}", root), "\"/\"");
}

#[test]
fn stream_with_a_quote_in_its_name_is_not_a_storage() {
    let mut directory = sample();
    directory.insert_dir_entry_at(0, "it's", STREAM, 0);
    let path = PathBuf::from("/it's");
    let error = refused(directory.storage_entries(&path));
    assert_eq!(error.message(), format!("Not a storage: {:?}", path));
}

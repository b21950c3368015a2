//! Bytes, names and timestamps.
use cfb_directory::consts;
use cfb_directory::direntry::DirEntry;
use cfb_directory::names::{
    compare_names, encode_utf16, name_chain_from_components, NameOrder, PathComponent,
};
use cfb_directory::time::{
    current_timestamp, timestamp_from_system_time, timestamp_from_unix_time, UNIX_EPOCH_TIMESTAMP,
};
use cfb_directory::version::Version;
use std::time::{Duration, SystemTime, UNIX_EPOCH};

#[test]
fn utf16_units_of_basic_and_other_characters() {
    assert_eq!(encode_utf16(""), Vec::<u16>::new());
    assert_eq!(encode_utf16("aé"), vec![0x61, 0xe9]);
    assert_eq!(encode_utf16("a\u{1f600}b"), vec![0x61, 0xd83d, 0xde00, 0x62]);
    assert_eq!(encode_utf16("\u{10000}\u{10ffff}"), vec![0xd800, 0xdc00, 0xdbff, 0xdfff]);
}

#[test]
fn shorter_names_come_first() {
    assert_eq!(compare_names("zzz", "aaaa"), NameOrder::Less);
    assert_eq!(compare_names("aaaa", "zzz"), NameOrder::Greater);
    // One character outside the basic plane is two code units.
    assert_eq!(compare_names("\u{1f600}", "a"), NameOrder::Greater);
    assert_eq!(compare_names("", "a"), NameOrder::Less);
}

#[test]
fn names_of_one_length_compare_without_regard_to_case() {
    assert_eq!(compare_names("foo", "FOO"), NameOrder::Equal);
    assert_eq!(compare_names("foo", "bar"), NameOrder::Greater);
    assert_eq!(compare_names("Bar", "foo"), NameOrder::Less);
    // Without regard to case, the underscore comes behind all letters.
    assert_eq!(compare_names("a_", "ab"), NameOrder::Greater);
    assert_eq!(compare_names("é", "É"), NameOrder::Equal);
}

#[test]
fn name_order_reverses_and_is_transitive() {
    let names = ["", "a", "B", "b", "aa", "AB", "zz", "aaa", "\u{1f600}"];
    for a in names {
        assert_eq!(compare_names(a, a), NameOrder::Equal);
        for b in names {
            let reversed = match compare_names(a, b) {
                NameOrder::Less => NameOrder::Greater,
                NameOrder::Equal => NameOrder::Equal,
                NameOrder::Greater => NameOrder::Less,
            };
            assert_eq!(compare_names(b, a), reversed);
            for c in names {
                if compare_names(a, b) == NameOrder::Less && compare_names(b, c) == NameOrder::Less {
                    assert_eq!(compare_names(a, c), NameOrder::Less);
                }
            }
        }
    }
}

#[test]
fn path_parts_spell_a_chain_of_names() {
    let parts = vec![
        PathComponent::Normal("lost".to_string()),
        PathComponent::RootDir,
        PathComponent::Normal("foo".to_string()),
        PathComponent::CurDir,
        PathComponent::Normal("bar".to_string()),
        PathComponent::ParentDir,
        PathComponent::Normal("baz".to_string()),
    ];
    assert_eq!(name_chain_from_components(&parts).unwrap(), vec!["foo", "baz"]);
    assert!(name_chain_from_components(&[]).unwrap().is_empty());
}

#[test]
fn unused_entry_in_the_file() {
    let bytes = DirEntry::unallocated().to_bytes();
    let mut expected = vec![0u8; 128];
    expected[67] = consts::COLOR_BLACK;
    for byte in expected[68..80].iter_mut() {
        *byte = 0xff;
    }
    assert_eq!(bytes, expected);
}

#[test]
fn entry_in_the_file() {
    let mut clsid = [0u8; 16];
    for i in 0..16 {
        clsid[i] = i as u8 + 1;
    }
    let entry = DirEntry {
        name: "Hi".to_string(),
        obj_type: consts::OBJ_TYPE_STREAM,
        color: consts::COLOR_RED,
        left_sibling: 0x0403_0201,
        right_sibling: 0x1413_1211,
        child: consts::NO_STREAM,
        clsid,
        state_bits: 0xa4a3_a2a1,
        creation_time: 0x0807_0605_0403_0201,
        modified_time: 0x1817_1615_1413_1211,
        start_sector: 0x2423_2221,
        stream_len: 0x3837_3635_3433_3231,
    };
    let bytes = entry.to_bytes();
    assert_eq!(bytes.len(), consts::DIR_ENTRY_LEN);
    assert_eq!(bytes[0..6].to_vec(), vec![b'H', 0, b'i', 0, 0, 0]);
    assert_eq!(bytes[6..64].to_vec(), vec![0u8; 58]);
    assert_eq!(bytes[64..68].to_vec(), vec![6, 0, 2, 0]);
    assert_eq!(bytes[68..72].to_vec(), vec![1, 2, 3, 4]);
    assert_eq!(bytes[72..76].to_vec(), vec![0x11, 0x12, 0x13, 0x14]);
    assert_eq!(bytes[76..80].to_vec(), vec![0xff; 4]);
    assert_eq!(
        bytes[80..96].to_vec(),
        vec![4, 3, 2, 1, 6, 5, 8, 7, 9, 10, 11, 12, 13, 14, 15, 16]
    );
    assert_eq!(bytes[96..100].to_vec(), vec![0xa1, 0xa2, 0xa3, 0xa4]);
    assert_eq!(bytes[100..108].to_vec(), vec![1, 2, 3, 4, 5, 6, 7, 8]);
    assert_eq!(bytes[108..116].to_vec(), vec![0x11, 0x12, 0x13, 0x14, 0x15, 0x16, 0x17, 0x18]);
    assert_eq!(bytes[116..120].to_vec(), vec![0x21, 0x22, 0x23, 0x24]);
    assert_eq!(bytes[120..128].to_vec(), vec![0x31, 0x32, 0x33, 0x34, 0x35, 0x36, 0x37, 0x38]);

    let copy = entry.clone();
    assert_eq!(copy.to_bytes(), bytes);
}

#[test]
fn changing_a_link_changes_four_bytes() {
    let mut entry = DirEntry::created("stream", consts::OBJ_TYPE_STREAM, 99);
    let before = entry.to_bytes();
    entry.right_sibling = 0x0102_0304;
    let after = entry.to_bytes();
    assert_eq!(after[..72].to_vec(), before[..72].to_vec());
    assert_eq!(after[72..76].to_vec(), vec![4, 3, 2, 1]);
    assert_eq!(after[76..].to_vec(), before[76..].to_vec());
}

#[test]
fn new_objects() {
    let stream = DirEntry::created("s", consts::OBJ_TYPE_STREAM, 77);
    assert_eq!(stream.name, "s");
    assert_eq!(stream.color, consts::COLOR_BLACK);
    assert_eq!(stream.start_sector, consts::END_OF_CHAIN);
    assert_eq!(stream.creation_time, 77);
    assert_eq!(stream.modified_time, 77);
    assert_eq!(stream.clsid, [0u8; 16]);
    assert_eq!(stream.child, consts::NO_STREAM);
    let storage = DirEntry::created("t", consts::OBJ_TYPE_STORAGE, 78);
    assert_eq!(storage.start_sector, 0);
    assert_eq!(storage.stream_len, 0);
}

#[test]
fn names_that_fit() {
    let mut entry = DirEntry::created(&"x".repeat(31), consts::OBJ_TYPE_STREAM, 0);
    assert!(entry.fits());
    assert_eq!(entry.to_bytes()[64..66].to_vec(), vec![64, 0]);
    entry.name = "x".repeat(32);
    assert!(!entry.fits());
    entry.name = "\u{1f600}".repeat(16);
    assert!(!entry.fits());
}

#[test]
fn timestamps_of_unix_times() {
    assert_eq!(timestamp_from_unix_time(false, 0, 0), UNIX_EPOCH_TIMESTAMP);
    assert_eq!(timestamp_from_unix_time(false, 1, 250), 116_444_736_010_000_002);
    assert_eq!(timestamp_from_unix_time(true, 1, 250), 116_444_735_989_999_998);
    assert_eq!(timestamp_from_unix_time(true, 11_644_473_600, 0), 0);
    assert_eq!(timestamp_from_unix_time(true, 11_644_473_600, 100), 0);
    assert_eq!(timestamp_from_unix_time(true, u64::MAX, 0), 0);
    assert_eq!(timestamp_from_unix_time(false, u64::MAX, 0), u64::MAX);
}

#[test]
fn timestamps_of_moments() {
    let moment = UNIX_EPOCH + Duration::new(1_500_000_000, 999_999_999);
    assert_eq!(timestamp_from_system_time(&moment), 131_444_736_009_999_999);
    assert_eq!(timestamp_from_system_time(&UNIX_EPOCH), UNIX_EPOCH_TIMESTAMP);
    let earlier = UNIX_EPOCH - Duration::new(2, 0);
    assert_eq!(timestamp_from_system_time(&earlier), UNIX_EPOCH_TIMESTAMP - 20_000_000);
}

#[test]
fn the_present_lies_between_two_readings_of_the_clock() {
    let before = timestamp_from_system_time(&SystemTime::now());
    let now = current_timestamp();
    let after = timestamp_from_system_time(&SystemTime::now());
    assert!(before <= now && now <= after);
    assert!(now > UNIX_EPOCH_TIMESTAMP);
}

#[test]
fn sector_lengths() {
    assert_eq!(Version::V3.sector_len(), 512);
    assert_eq!(Version::V4.sector_len(), 4096);
    assert_eq!(Version::V3.dir_entries_per_sector(), 4);
    assert_eq!(Version::V4.dir_entries_per_sector(), 32);
}

//! The numbers that the compound file format fixes.
use vstd::prelude::*;

verus! {

/// Length of the file header, in bytes.
pub const HEADER_LEN: usize = 512;

/// Length of a directory entry in the file, in bytes.
pub const DIR_ENTRY_LEN: usize = 128;

/// How many file allocation table (FAT) sectors the header itself can list.
pub const NUM_DIFAT_ENTRIES_IN_HEADER: usize = 109;

/// Length of a mini sector, in bytes.
pub const MINI_SECTOR_LEN: usize = 64;

/// The most UTF-16 code units that the name of an entry can have.
pub const MAX_NAME_UNITS: usize = 31;

/// The largest number that a sector can have.
pub const MAX_REGULAR_SECTOR: u32 = 0xffff_fffa;

/// FAT value of a sector that lists FAT sectors.
pub const DIFAT_SECTOR: u32 = 0xffff_fffc;

/// FAT value of a sector that holds a part of the FAT.
pub const FAT_SECTOR: u32 = 0xffff_fffd;

/// FAT value of the last sector of a chain.
pub const END_OF_CHAIN: u32 = 0xffff_fffe;

/// FAT value of a sector that is in no chain.
pub const FREE_SECTOR: u32 = 0xffff_ffff;

/// The name of the root entry.
pub const ROOT_DIR_NAME: &'static str = "Root Entry";

/// Object type of an entry that is not in use.
pub const OBJ_TYPE_UNALLOCATED: u8 = 0;

/// Object type of a storage.
pub const OBJ_TYPE_STORAGE: u8 = 1;

/// Object type of a stream.
pub const OBJ_TYPE_STREAM: u8 = 2;

/// Object type of the root entry.
pub const OBJ_TYPE_ROOT: u8 = 5;

/// Color of a red tree node.
pub const COLOR_RED: u8 = 0;

/// Color of a black tree node.
pub const COLOR_BLACK: u8 = 1;

/// Stream ID of the root entry.
pub const ROOT_STREAM_ID: u32 = 0;

/// The link of an entry that leads nowhere.
pub const NO_STREAM: u32 = 0xffff_ffff;

} // verus!

//! The directory of a compound file: a tree of named storages and streams, kept
//! in the sectors of one chain.
pub mod accepted;
pub mod allocator;
pub mod bytes;
pub mod chains;
pub mod consts;
pub mod contents;
pub mod directory;
pub mod direntry;
pub mod effects;
pub mod entries;
pub mod error;
pub mod fat_sync;
pub mod header_sync;
pub mod history;
pub mod layout;
pub mod limits;
pub mod links;
pub mod listings;
pub mod messages;
pub mod model;
pub mod names;
pub mod search;
pub mod shape;
pub mod storage;
pub mod sync;
pub mod time;
pub mod tree;
pub mod upkeep;
pub mod validity;
pub mod version;
pub mod writes;

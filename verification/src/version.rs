//! The two versions of the format, which differ in the length of a sector.
use vstd::prelude::*;

verus! {

/// A version of the compound file format.
#[derive(Clone, Copy, Debug, PartialEq, Eq, Structural)]
pub enum Version {
    /// Sectors of 512 bytes.
    V3,
    /// Sectors of 4096 bytes.
    V4,
}

impl Version {
    /// The length of a sector, in bytes.
    pub open spec fn sector_size(self) -> int {
        match self {
            Version::V3 => 512,
            Version::V4 => 4096,
        }
    }

    /// How many directory entries a sector holds.
    pub open spec fn entries_per_sector(self) -> int {
        match self {
            Version::V3 => 4,
            Version::V4 => 32,
        }
    }

    /// Returns the length of a sector in this version, in bytes.
    pub fn sector_len(self) -> (len: usize)
        ensures
            len == self.sector_size(),
    {
        match self {
            Version::V3 => 512,
            Version::V4 => 4096,
        }
    }

    /// Returns how many directory entries a sector of this version holds.
    pub fn dir_entries_per_sector(self) -> (count: usize)
        ensures
            count == self.entries_per_sector(),
            count * crate::consts::DIR_ENTRY_LEN == self.sector_size(),
    {
        match self {
            Version::V3 => 4,
            Version::V4 => 32,
        }
    }
}

} // verus!

//! The versions of the file format.

use vstd::prelude::*;

verus! {

/// The CFB format version to use.
#[derive(Clone, Copy, Debug, PartialEq, Eq, Structural)]
pub enum Version {
    /// Version 3, which uses 512-byte sectors.
    V3,
    /// Version 4, which uses 4096-byte sectors.
    V4,
}

/// The version that a number stands for, if there is one.
pub open spec fn version_of_number(number: u16) -> Option<Version> {
    if number == 3 {
        Some(Version::V3)
    } else if number == 4 {
        Some(Version::V4)
    } else {
        None
    }
}

/// The number that a file names the version by.
pub open spec fn version_number(version: Version) -> u16 {
    match version {
        Version::V3 => 3,
        Version::V4 => 4,
    }
}

/// The binary logarithm of the sector length.
pub open spec fn sector_shift(version: Version) -> u16 {
    match version {
        Version::V3 => 9,
        Version::V4 => 12,
    }
}

/// The length of a sector, in bytes.
pub open spec fn sector_len(version: Version) -> nat {
    match version {
        Version::V3 => 512,
        Version::V4 => 4096,
    }
}

/// What a stream length field means: version 3 uses its low four bytes only.
pub open spec fn stream_len(version: Version, field: u64) -> u64 {
    match version {
        Version::V3 => field % 0x1_0000_0000,
        Version::V4 => field,
    }
}

/// Where a byte of a sector lies in the file.  The header comes first and is
/// as long as a sector.
pub open spec fn sector_position(version: Version, sector: u32, offset: nat) -> nat {
    offset + sector_len(version) * (1 + sector as nat)
}

/// Every version has a number of its own, and is found by it.
pub proof fn law_version_round_trip(version: Version, number: u16)
    ensures
        version_of_number(version_number(version)) == Some(version),
        version_of_number(number) matches Some(v) ==> version_number(v) == number,
{
}

impl Version {
    /// The version that has the given number.
    pub fn from_number(number: u16) -> (r: Option<Version>)
        ensures
            r == version_of_number(number),
    {
        match number {
            3 => Some(Version::V3),
            4 => Some(Version::V4),
            _ => None,
        }
    }

    /// The number of this version.
    pub fn number(self) -> (r: u16)
        ensures
            r == version_number(self),
    {
        match self {
            Version::V3 => 3,
            Version::V4 => 4,
        }
    }

    /// The binary logarithm of the sector length.
    pub fn sector_shift(self) -> (r: u16)
        ensures
            r == sector_shift(self),
    {
        match self {
            Version::V3 => 9,  // 512-byte sectors
            Version::V4 => 12,  // 4096-byte sectors
        }
    }

    /// The length of a sector, in bytes.
    pub fn sector_len(self) -> (r: usize)
        ensures
            r == sector_len(self),
            r == vstd::arithmetic::power2::pow2(sector_shift(self) as nat),
    {
        proof {
            vstd::arithmetic::power2::lemma2_to64();
            assert(1usize << 9usize == 512 && 1usize << 12usize == 4096) by (bit_vector);
        }
        1usize << (self.sector_shift() as usize)
    }

    /// The bits of a stream length field that count.
    pub fn stream_len_mask(self) -> (r: u64)
        ensures
            forall|field: u64| #[trigger] (field & r) == stream_len(self, field),
    {
        proof {
            assert(forall|field: u64| #[trigger]
                (field & 0xffffffffu64) == field % 0x1_0000_0000u64) by (bit_vector);
            assert(forall|field: u64| #[trigger] (field & 0xffffffffffffffffu64) == field)
                by (bit_vector);
        }
        match self {
            Version::V3 => 0xffffffff,
            Version::V4 => 0xffffffffffffffff,
        }
    }

    /// Where a sector lies in the file.
    pub fn sector_position(self, sector_index: u32) -> (r: u64)
        ensures
            r == sector_position(self, sector_index, 0),
    {
        let sector_len: u64 = self.sector_len() as u64;
        assert(sector_len * (1 + sector_index) <= 4096 * 0x1_0000_0000) by (nonlinear_arith)
            requires
                sector_len <= 4096,
                sector_index <= 0xffff_ffff,
        ;
        sector_len * (1 + sector_index as u64)
    }
}

} // verus!

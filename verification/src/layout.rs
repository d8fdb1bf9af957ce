//! What the bytes of a compound file say: the header, the tables of sectors
//! and the directory.

use vstd::prelude::*;

use crate::bytes::{u16_at, u32_at, window};
use crate::constants::{
    BYTE_ORDER_MARK, DIR_ENTRY_LEN, END_OF_CHAIN, FREE_SECTOR, HEADER_DIFAT_LEN, HEADER_LEN,
    MAGIC_NUMBER, MAX_REGULAR_SECTOR,
};
use crate::dir_entry::{parse_entry, DirEntryView};
use crate::error::Error;
use crate::version::{
    sector_len, sector_position, sector_shift, version_number, version_of_number, Version,
};

verus! {

/// What is known of an open compound file.
#[verifier::ext_equal]
pub struct CompoundView {
    /// The version of the format.
    pub version: Version,
    /// The sectors that hold the FAT.
    pub difat: Seq<u32>,
    /// For every sector the next one of its chain.
    pub fat: Seq<u32>,
    /// The directory entries.
    pub directory: Seq<DirEntryView>,
}

/// How something that follows a chain of sectors ends.
pub enum Walk<T> {
    /// With a result.
    Done(T),
    /// With an error.
    Failed(Error),
    /// Not at all: the chain leads out of its table or back to where it has
    /// been.
    Stuck,
}

/// What the header says.
#[verifier::ext_equal]
pub struct HeaderView {
    /// The version of the format.
    pub version: Version,
    /// The first sector of the directory.
    pub first_dir_sector: u32,
    /// The first sector of the rest of the DIFAT.
    pub first_difat_sector: u32,
    /// How many sectors the rest of the DIFAT has.
    pub num_difat_sectors: u32,
    /// The first DIFAT entries.
    pub difat: Seq<u32>,
}

/// The DIFAT entries of the header, from one on to the first that is free.
pub open spec fn header_difat(s: Seq<u8>, i: nat) -> Result<Seq<u32>, Error>
    decreases HEADER_DIFAT_LEN - i,
{
    let next = u32_at(s, 76 + 4 * i as int);
    if i >= HEADER_DIFAT_LEN {
        Ok(Seq::empty())
    } else if s.len() < 76 + 4 * i + 4 {
        Err(Error::UnexpectedEof)
    } else if next == FREE_SECTOR {
        Ok(Seq::empty())
    } else if next > MAX_REGULAR_SECTOR {
        Err(Error::InvalidDifatSector(next))
    } else {
        match header_difat(s, i + 1) {
            Ok(rest) => Ok(seq![next] + rest),
            Err(e) => Err(e),
        }
    }
}

/// The header at the start of `s`, or what is first found to be wrong with it.
pub open spec fn parse_header(s: Seq<u8>) -> Result<HeaderView, Error> {
    if s.len() < 8 {
        Err(Error::UnexpectedEof)
    } else if s.take(8) != MAGIC_NUMBER@ {
        Err(Error::WrongMagicNumber)
    } else if s.len() < 28 {
        Err(Error::UnexpectedEof)
    } else {
        match version_of_number(u16_at(s, 26)) {
            None => Err(Error::UnsupportedVersion(u16_at(s, 26))),
            Some(version) => if s.len() < 30 {
                Err(Error::UnexpectedEof)
            } else if u16_at(s, 28) != BYTE_ORDER_MARK {
                Err(Error::WrongByteOrderMark)
            } else if s.len() < 32 {
                Err(Error::UnexpectedEof)
            } else if u16_at(s, 30) != sector_shift(version) {
                Err(
                    Error::WrongSectorShift {
                        shift: u16_at(s, 30),
                        version: version_number(version),
                    },
                )
            } else if s.len() < 76 {
                Err(Error::UnexpectedEof)
            } else {
                match header_difat(s, 0) {
                    Err(e) => Err(e),
                    Ok(difat) => Ok(
                        HeaderView {
                            version,
                            first_dir_sector: u32_at(s, 48),
                            first_difat_sector: u32_at(s, 68),
                            num_difat_sectors: u32_at(s, 72),
                            difat,
                        },
                    ),
                }
            },
        }
    }
}

/// The first `n` numbers of a sector.
pub open spec fn sector_numbers(s: Seq<u8>, n: nat) -> Seq<u32> {
    Seq::new(n, |i: int| u32_at(s, 4 * i))
}

/// How many numbers a sector holds.
pub open spec fn numbers_per_sector(version: Version) -> nat {
    sector_len(version) / 4
}

/// How many directory entries a sector holds.
pub open spec fn entries_per_sector(version: Version) -> nat {
    sector_len(version) / DIR_ENTRY_LEN as nat
}

/// The bytes of a sector, as many as the file has.
pub open spec fn sector_window(file: Seq<u8>, version: Version, sector: u32) -> Seq<u8> {
    window(file, sector_position(version, sector, 0), sector_len(version))
}

/// The DIFAT entries in a chain of sectors, and how many sectors it has.  The
/// last number of each sector names the next one.
pub open spec fn difat_chain(file: Seq<u8>, version: Version, sector: u32, fuel: nat) -> Walk<
    (Seq<u32>, nat),
>
    decreases fuel,
{
    let s = sector_window(file, version, sector);
    let n = (numbers_per_sector(version) - 1) as nat;
    if sector == END_OF_CHAIN {
        Walk::Done((Seq::empty(), 0))
    } else if s.len() < sector_len(version) {
        Walk::Failed(Error::UnexpectedEof)
    } else if fuel == 0 {
        Walk::Stuck
    } else {
        match difat_chain(file, version, u32_at(s, 4 * n as int), (fuel - 1) as nat) {
            Walk::Done((rest, sectors)) => Walk::Done((sector_numbers(s, n) + rest, sectors + 1)),
            end => end,
        }
    }
}

/// The FAT in the sectors that the DIFAT names, from one of them on.
pub open spec fn fat_sectors(file: Seq<u8>, version: Version, difat: Seq<u32>, i: nat) -> Result<
    Seq<u32>,
    Error,
>
    decreases difat.len() - i,
{
    let s = sector_window(file, version, difat[i as int]);
    if i >= difat.len() {
        Ok(Seq::empty())
    } else if s.len() < sector_len(version) {
        Err(Error::UnexpectedEof)
    } else {
        match fat_sectors(file, version, difat, i + 1) {
            Ok(rest) => Ok(sector_numbers(s, numbers_per_sector(version)) + rest),
            Err(e) => Err(e),
        }
    }
}

/// A table without the free entries at its end.
pub open spec fn trimmed(fat: Seq<u32>) -> Seq<u32>
    decreases fat.len(),
{
    if fat.len() > 0 && fat.last() == FREE_SECTOR {
        trimmed(fat.drop_last())
    } else {
        fat
    }
}

/// The directory entries of a sector, from one of them on.
pub open spec fn sector_entries(s: Seq<u8>, sector: u32, version: Version, i: nat) -> Result<
    Seq<DirEntryView>,
    Error,
>
    decreases entries_per_sector(version) - i,
{
    if i >= entries_per_sector(version) {
        Ok(Seq::empty())
    } else {
        let slot = window(s, DIR_ENTRY_LEN as nat * i, DIR_ENTRY_LEN as nat);
        match parse_entry(slot, sector, version) {
            Err(e) => Err(e),
            Ok(entry) => match sector_entries(s, sector, version, i + 1) {
                Ok(rest) => Ok(seq![entry] + rest),
                Err(e) => Err(e),
            },
        }
    }
}

/// The directory entries in a chain of sectors.
pub open spec fn dir_chain(
    file: Seq<u8>,
    version: Version,
    fat: Seq<u32>,
    sector: u32,
    fuel: nat,
) -> Walk<Seq<DirEntryView>>
    decreases fuel,
{
    if sector == END_OF_CHAIN {
        Walk::Done(Seq::empty())
    } else {
        match sector_entries(sector_window(file, version, sector), sector, version, 0) {
            Err(e) => Walk::Failed(e),
            Ok(entries) => if sector >= fat.len() || fuel == 0 {
                Walk::Stuck
            } else {
                match dir_chain(file, version, fat, fat[sector as int], (fuel - 1) as nat) {
                    Walk::Done(rest) => Walk::Done(entries + rest),
                    end => end,
                }
            },
        }
    }
}

/// What a file is opened to, given its tables.
pub open spec fn open_directory(
    file: Seq<u8>,
    version: Version,
    first_dir_sector: u32,
    difat: Seq<u32>,
    fat: Seq<u32>,
) -> Walk<CompoundView> {
    match dir_chain(file, version, fat, first_dir_sector, fat.len()) {
        Walk::Done(directory) => Walk::Done(CompoundView { version, difat, fat, directory }),
        Walk::Failed(e) => Walk::Failed(e),
        Walk::Stuck => Walk::Stuck,
    }
}

/// What a file is opened to, given its DIFAT, and how many sectors that was
/// read from.
pub open spec fn open_tables(
    file: Seq<u8>,
    header: HeaderView,
    difat: Seq<u32>,
    sectors: nat,
) -> Walk<CompoundView> {
    if header.num_difat_sectors != sectors {
        Walk::Failed(
            Error::WrongDifatLength {
                expected: header.num_difat_sectors,
                actual: sectors as usize,
            },
        )
    } else {
        match fat_sectors(file, header.version, difat, 0) {
            Err(e) => Walk::Failed(e),
            Ok(fat) => open_directory(
                file,
                header.version,
                header.first_dir_sector,
                difat,
                trimmed(fat),
            ),
        }
    }
}

/// What a file is opened to.
pub open spec fn open_file(file: Seq<u8>) -> Walk<CompoundView> {
    match parse_header(window(file, 0, HEADER_LEN as nat)) {
        Err(e) => Walk::Failed(e),
        Ok(header) => match difat_chain(
            file,
            header.version,
            header.first_difat_sector,
            file.len(),
        ) {
            Walk::Done((rest, sectors)) => open_tables(file, header, header.difat + rest, sectors),
            Walk::Failed(e) => Walk::Failed(e),
            Walk::Stuck => Walk::Stuck,
        },
    }
}

} // verus!

//! Opening of compound files, a piece of the file at a time.

use vstd::prelude::*;

use crate::bytes::{get_u16, get_u32, read_window, u32_at, window};
use crate::compound::CompoundFile;
use crate::constants::{
    BYTE_ORDER_MARK, DIR_ENTRY_LEN, END_OF_CHAIN, FREE_SECTOR, HEADER_DIFAT_LEN, HEADER_LEN,
    MAGIC_NUMBER, MAX_REGULAR_SECTOR,
};
use crate::dir_entry::{entry_views, DirEntry, DirEntryView};
use crate::error::Error;
use crate::layout::{
    difat_chain, dir_chain, entries_per_sector, fat_sectors, header_difat, numbers_per_sector,
    open_directory, open_file, open_tables, parse_header, sector_entries, sector_numbers,
    sector_window, trimmed, CompoundView, HeaderView, Walk,
};
use crate::version::{sector_len, sector_position, Version};

verus! {

/// What is read next while a file is opened.
#[derive(Clone, Copy, Debug, PartialEq, Eq, Structural)]
pub enum Phase {
    /// The header.
    Header,
    /// A sector of the DIFAT.
    Difat,
    /// A sector of the FAT.
    Fat,
    /// A sector of the directory.
    Directory,
    /// Nothing, the file is open.
    Done,
    /// Nothing, a sector of the directory has no entry in the FAT.
    Stuck,
}

/// How far a file has been opened.
#[verifier::ext_equal]
pub struct OpeningView {
    /// What is read next.
    pub phase: Phase,
    /// The version of the format.
    pub version: Version,
    /// The first sector of the directory.
    pub first_dir_sector: u32,
    /// How many sectors the DIFAT is said to have.
    pub num_difat_sectors: u32,
    /// The DIFAT, as far as it is known.
    pub difat: Seq<u32>,
    /// How many sectors of the DIFAT were read.
    pub difat_sectors: nat,
    /// The sector of the DIFAT or the directory that is read next.
    pub current: u32,
    /// The FAT, as far as it is known.
    pub fat: Seq<u32>,
    /// How many sectors of the FAT were read.
    pub fat_sectors: nat,
    /// The directory, as far as it is known.
    pub directory: Seq<DirEntryView>,
}

/// Before anything is read.
pub open spec fn opening_start() -> OpeningView {
    OpeningView {
        phase: Phase::Header,
        version: Version::V3,
        first_dir_sector: END_OF_CHAIN,
        num_difat_sectors: 0,
        difat: Seq::empty(),
        difat_sectors: 0,
        current: END_OF_CHAIN,
        fat: Seq::empty(),
        fat_sectors: 0,
        directory: Seq::empty(),
    }
}

/// Whether the phase fits what was read.
pub open spec fn is_opening(v: OpeningView) -> bool {
    &&& v.difat_sectors <= v.difat.len()
    &&& v.phase is Difat ==> v.current != END_OF_CHAIN
    &&& v.phase is Fat ==> v.fat_sectors < v.difat.len()
    &&& v.phase is Directory ==> v.current != END_OF_CHAIN
}

/// Where the next piece starts and how long it is.
pub open spec fn wanted(v: OpeningView) -> Option<(nat, nat)> {
    match v.phase {
        Phase::Header => Some((0, HEADER_LEN as nat)),
        Phase::Difat => Some(
            (sector_position(v.version, v.current, 0), sector_len(v.version)),
        ),
        Phase::Fat => Some(
            (
                sector_position(v.version, v.difat[v.fat_sectors as int], 0),
                sector_len(v.version),
            ),
        ),
        Phase::Directory => Some(
            (sector_position(v.version, v.current, 0), sector_len(v.version)),
        ),
        Phase::Done => None,
        Phase::Stuck => None,
    }
}

/// Goes on to the end where there is no further sector of the directory.
pub open spec fn settle_directory(v: OpeningView) -> OpeningView {
    if v.current == END_OF_CHAIN {
        OpeningView { phase: Phase::Done, ..v }
    } else {
        OpeningView { phase: Phase::Directory, ..v }
    }
}

/// Goes on to the directory where there is no further sector of the FAT.
pub open spec fn settle_fat(v: OpeningView) -> OpeningView {
    if v.fat_sectors >= v.difat.len() {
        settle_directory(OpeningView { fat: trimmed(v.fat), current: v.first_dir_sector, ..v })
    } else {
        OpeningView { phase: Phase::Fat, ..v }
    }
}

/// Goes on to the FAT where there is no further sector of the DIFAT.
pub open spec fn settle_difat(v: OpeningView) -> Result<OpeningView, Error> {
    if v.current != END_OF_CHAIN {
        Ok(OpeningView { phase: Phase::Difat, ..v })
    } else if v.num_difat_sectors != v.difat_sectors {
        Err(
            Error::WrongDifatLength {
                expected: v.num_difat_sectors,
                actual: v.difat_sectors as usize,
            },
        )
    } else {
        Ok(settle_fat(v))
    }
}

/// What the next piece brings.
pub open spec fn opening_step(v: OpeningView, s: Seq<u8>) -> Result<OpeningView, Error> {
    let n = numbers_per_sector(v.version);
    match v.phase {
        Phase::Header => match parse_header(s) {
            Err(e) => Err(e),
            Ok(header) => settle_difat(
                OpeningView {
                    version: header.version,
                    first_dir_sector: header.first_dir_sector,
                    num_difat_sectors: header.num_difat_sectors,
                    difat: header.difat,
                    current: header.first_difat_sector,
                    ..v
                },
            ),
        },
        Phase::Difat => if s.len() < sector_len(v.version) {
            Err(Error::UnexpectedEof)
        } else {
            settle_difat(
                OpeningView {
                    difat: v.difat + sector_numbers(s, (n - 1) as nat),
                    difat_sectors: v.difat_sectors + 1,
                    current: u32_at(s, 4 * (n - 1)),
                    ..v
                },
            )
        },
        Phase::Fat => if s.len() < sector_len(v.version) {
            Err(Error::UnexpectedEof)
        } else {
            Ok(
                settle_fat(
                    OpeningView {
                        fat: v.fat + sector_numbers(s, n),
                        fat_sectors: v.fat_sectors + 1,
                        ..v
                    },
                ),
            )
        },
        Phase::Directory => match sector_entries(s, v.current, v.version, 0) {
            Err(e) => Err(e),
            Ok(entries) => {
                let next = OpeningView { directory: v.directory + entries, ..v };
                if v.current >= v.fat.len() {
                    Ok(OpeningView { phase: Phase::Stuck, ..next })
                } else {
                    Ok(settle_directory(OpeningView { current: v.fat[v.current as int], ..next }))
                }
            },
        },
        Phase::Done => Ok(v),
        Phase::Stuck => Ok(v),
    }
}

/// A compound file that is being opened.  It says which piece of the file it
/// wants to see next, and goes on when it is given that piece.
pub struct Opening {
    phase: Phase,
    version: Version,
    first_dir_sector: u32,
    num_difat_sectors: u32,
    difat: Vec<u32>,
    difat_sectors: usize,
    current: u32,
    fat: Vec<u32>,
    fat_sectors: usize,
    directory: Vec<DirEntry>,
}

impl View for Opening {
    type V = OpeningView;

    closed spec fn view(&self) -> OpeningView {
        OpeningView {
            phase: self.phase,
            version: self.version,
            first_dir_sector: self.first_dir_sector,
            num_difat_sectors: self.num_difat_sectors,
            difat: self.difat@,
            difat_sectors: self.difat_sectors as nat,
            current: self.current,
            fat: self.fat@,
            fat_sectors: self.fat_sectors as nat,
            directory: entry_views(self.directory@),
        }
    }
}

/// Whether a file starts with the magic number.
fn has_magic_number(s: &[u8]) -> (r: bool)
    requires
        s@.len() >= 8,
    ensures
        r == (s@.take(8) == MAGIC_NUMBER@),
{
    let mut i: usize = 0;
    while i < 8
        invariant
            i <= 8,
            s@.len() >= 8,
            forall|j: int| 0 <= j < i ==> s@[j] == MAGIC_NUMBER@[j],
        decreases 8 - i,
    {
        if s[i] != MAGIC_NUMBER[i] {
            assert(s@.take(8)[i as int] != MAGIC_NUMBER@[i as int]);
            return false;
        }
        i += 1;
    }
    assert(s@.take(8) =~= MAGIC_NUMBER@);
    true
}

/// Reads the DIFAT entries of the header.
fn read_header_difat(s: &[u8]) -> (r: Result<Vec<u32>, Error>)
    ensures
        match (r, header_difat(s@, 0)) {
            (Ok(difat), Ok(expected)) => difat@ == expected,
            (Err(e), Err(expected)) => e == expected,
            _ => false,
        },
{
    let mut difat: Vec<u32> = Vec::new();
    let mut i: usize = 0;
    proof {
        assert(header_difat(s@, 0) matches Ok(rest) ==> difat@ + rest =~= rest);
    }
    while i < HEADER_DIFAT_LEN
        invariant
            i <= HEADER_DIFAT_LEN,
            match (header_difat(s@, 0), header_difat(s@, i as nat)) {
                (Ok(all), Ok(rest)) => all == difat@ + rest,
                (Err(e), Err(f)) => e == f,
                _ => false,
            },
        decreases HEADER_DIFAT_LEN - i,
    {
        let next = get_u32(s, 76 + 4 * i)?;
        if next == FREE_SECTOR {
            assert(difat@ + Seq::<u32>::empty() =~= difat@);
            return Ok(difat);
        } else if next > MAX_REGULAR_SECTOR {
            return Err(Error::InvalidDifatSector(next));
        }
        proof {
            if let Ok(rest) = header_difat(s@, i as nat + 1) {
                assert(difat@ + (seq![next] + rest) =~= difat@.push(next) + rest);
            }
        }
        difat.push(next);
        i += 1;
    }
    assert(difat@ + Seq::<u32>::empty() =~= difat@);
    Ok(difat)
}

/// Appends the first `n` numbers of a sector.
fn read_numbers(s: &[u8], n: usize, out: &mut Vec<u32>) -> (r: Result<(), Error>)
    requires
        n <= 1024,
    ensures
        4 * n <= s@.len() ==> r is Ok && final(out)@ == old(out)@ + sector_numbers(s@, n as nat),
        4 * n > s@.len() ==> r == Err::<(), Error>(Error::UnexpectedEof),
{
    let mut i: usize = 0;
    assert(out@ =~= old(out)@ + sector_numbers(s@, 0));
    while i < n
        invariant
            i <= n <= 1024,
            4 * i <= s@.len(),
            out@ == old(out)@ + sector_numbers(s@, i as nat),
        decreases n - i,
    {
        out.push(get_u32(s, 4 * i)?);
        i += 1;
        assert(out@ =~= old(out)@ + sector_numbers(s@, i as nat));
    }
    Ok(())
}

/// Takes the free entries at the end of a table off.
fn trim_free(fat: &mut Vec<u32>)
    ensures
        final(fat)@ == trimmed(old(fat)@),
{
    while fat.len() > 0 && fat[fat.len() - 1] == FREE_SECTOR
        invariant
            trimmed(fat@) == trimmed(old(fat)@),
        decreases fat@.len(),
    {
        fat.pop();
    }
}

/// Appends the directory entries of a sector.
fn read_entries(s: &[u8], sector: u32, version: Version, out: &mut Vec<DirEntry>) -> (r: Result<
    (),
    Error,
>)
    ensures
        match (r, sector_entries(s@, sector, version, 0)) {
            (Ok(_), Ok(entries)) => entry_views(final(out)@) == entry_views(old(out)@) + entries,
            (Err(e), Err(expected)) => e == expected,
            _ => false,
        },
{
    let n: usize = version.sector_len() / DIR_ENTRY_LEN;
    let ghost before = entry_views(out@);
    let mut i: usize = 0;
    while i < n
        invariant
            i <= n,
            n == entries_per_sector(version),
            n <= 32,
            match (
                sector_entries(s@, sector, version, 0),
                sector_entries(s@, sector, version, i as nat),
            ) {
                (Ok(all), Ok(rest)) => before + all == entry_views(out@) + rest,
                (Err(e), Err(f)) => e == f,
                _ => false,
            },
        decreases n - i,
    {
        let ghost views = entry_views(out@);
        let piece = read_window(s, (DIR_ENTRY_LEN * i) as u64, DIR_ENTRY_LEN);
        let entry = DirEntry::read(piece, sector, version)?;
        proof {
            if let Ok(rest) = sector_entries(s@, sector, version, i as nat + 1) {
                assert(views + (seq![entry@] + rest) =~= views.push(entry@) + rest);
            }
        }
        out.push(entry);
        assert(entry_views(out@) =~= views.push(entry@));
        i += 1;
    }
    assert(entry_views(out@) + Seq::<DirEntryView>::empty() =~= entry_views(out@));
    Ok(())
}

impl Opening {
    /// Starts to open a file.
    pub fn new() -> (r: Opening)
        ensures
            r@ == opening_start(),
            is_opening(r@),
    {
        let r = Opening {
            phase: Phase::Header,
            version: Version::V3,
            first_dir_sector: END_OF_CHAIN,
            num_difat_sectors: 0,
            difat: Vec::new(),
            difat_sectors: 0,
            current: END_OF_CHAIN,
            fat: Vec::new(),
            fat_sectors: 0,
            directory: Vec::new(),
        };
        assert(r@.directory =~= Seq::empty());
        r
    }

    /// What is read next.
    pub fn phase(&self) -> (r: Phase)
        ensures
            r == self@.phase,
    {
        self.phase
    }

    /// The piece of the file that is wanted next: where it starts and how long
    /// it is.
    pub fn next_read(&self) -> (r: Option<(u64, usize)>)
        requires
            is_opening(self@),
        ensures
            match (r, wanted(self@)) {
                (Some((at, len)), Some((expected_at, expected_len))) => at == expected_at && len
                    == expected_len,
                (None, None) => true,
                _ => false,
            },
    {
        match self.phase {
            Phase::Header => Some((0, HEADER_LEN)),
            Phase::Difat | Phase::Directory => Some(
                (self.version.sector_position(self.current), self.version.sector_len()),
            ),
            Phase::Fat => Some(
                (
                    self.version.sector_position(self.difat[self.fat_sectors]),
                    self.version.sector_len(),
                ),
            ),
            Phase::Done | Phase::Stuck => None,
        }
    }

    /// Goes on to the end where there is no further sector of the directory.
    fn settle_directory(&mut self)
        requires
            old(self)@.difat_sectors <= old(self)@.difat.len(),
        ensures
            final(self)@ == settle_directory(old(self)@),
            is_opening(final(self)@),
    {
        if self.current == END_OF_CHAIN {
            self.phase = Phase::Done;
        } else {
            self.phase = Phase::Directory;
        }
    }

    /// Goes on to the directory where there is no further sector of the FAT.
    fn settle_fat(&mut self)
        requires
            old(self)@.difat_sectors <= old(self)@.difat.len(),
        ensures
            final(self)@ == settle_fat(old(self)@),
            is_opening(final(self)@),
    {
        if self.fat_sectors >= self.difat.len() {
            trim_free(&mut self.fat);
            self.current = self.first_dir_sector;
            self.settle_directory();
        } else {
            self.phase = Phase::Fat;
        }
    }

    /// Goes on to the FAT where there is no further sector of the DIFAT.
    fn settle_difat(&mut self) -> (r: Result<(), Error>)
        requires
            old(self)@.difat_sectors <= old(self)@.difat.len(),
        ensures
            match (r, settle_difat(old(self)@)) {
                (Ok(_), Ok(v)) => final(self)@ == v && is_opening(v),
                (Err(e), Err(expected)) => e == expected,
                _ => false,
            },
    {
        if self.current != END_OF_CHAIN {
            self.phase = Phase::Difat;
            Ok(())
        } else if self.num_difat_sectors as u64 != self.difat_sectors as u64 {
            Err(
                Error::WrongDifatLength {
                    expected: self.num_difat_sectors,
                    actual: self.difat_sectors,
                },
            )
        } else {
            self.settle_fat();
            Ok(())
        }
    }

    /// Reads the header.
    fn feed_header(&mut self, s: &[u8]) -> (r: Result<(), Error>)
        requires
            is_opening(old(self)@),
            old(self)@.phase is Header,
            old(self)@.difat_sectors == 0,
        ensures
            match (r, opening_step(old(self)@, s@)) {
                (Ok(_), Ok(v)) => final(self)@ == v && is_opening(v),
                (Err(e), Err(expected)) => e == expected,
                _ => false,
            },
    {
        if s.len() < 8 {
            return Err(Error::UnexpectedEof);
        }
        if !has_magic_number(s) {
            return Err(Error::WrongMagicNumber);
        }
        let version_number = get_u16(s, 26)?;
        let version = match Version::from_number(version_number) {
            Some(version) => version,
            None => {
                return Err(Error::UnsupportedVersion(version_number));
            },
        };
        if get_u16(s, 28)? != BYTE_ORDER_MARK {
            return Err(Error::WrongByteOrderMark);
        }
        let shift = get_u16(s, 30)?;
        if shift != version.sector_shift() {
            return Err(Error::WrongSectorShift { shift, version: version.number() });
        }
        let first_dir_sector = get_u32(s, 48)?;
        let first_difat_sector = get_u32(s, 68)?;
        let num_difat_sectors = get_u32(s, 72)?;
        self.difat = read_header_difat(s)?;
        self.version = version;
        self.first_dir_sector = first_dir_sector;
        self.num_difat_sectors = num_difat_sectors;
        self.current = first_difat_sector;
        self.settle_difat()
    }

    /// Reads a sector of the DIFAT.
    fn feed_difat(&mut self, s: &[u8]) -> (r: Result<(), Error>)
        requires
            is_opening(old(self)@),
            old(self)@.phase is Difat,
        ensures
            match (r, opening_step(old(self)@, s@)) {
                (Ok(_), Ok(v)) => final(self)@ == v && is_opening(v),
                (Err(e), Err(expected)) => e == expected,
                _ => false,
            },
    {
        let n: usize = self.version.sector_len() / 4 - 1;
        read_numbers(s, n, &mut self.difat)?;
        self.current = get_u32(s, 4 * n)?;
        assert(self.difat_sectors + 1 <= self.difat.len());
        self.difat_sectors += 1;
        self.settle_difat()
    }

    /// Reads a sector of the FAT.
    fn feed_fat(&mut self, s: &[u8]) -> (r: Result<(), Error>)
        requires
            is_opening(old(self)@),
            old(self)@.phase is Fat,
        ensures
            match (r, opening_step(old(self)@, s@)) {
                (Ok(_), Ok(v)) => final(self)@ == v && is_opening(v),
                (Err(e), Err(expected)) => e == expected,
                _ => false,
            },
    {
        read_numbers(s, self.version.sector_len() / 4, &mut self.fat)?;
        assert(self.fat_sectors < self.difat.len());
        self.fat_sectors += 1;
        self.settle_fat();
        Ok(())
    }

    /// Reads a sector of the directory.
    fn feed_directory(&mut self, s: &[u8]) -> (r: Result<(), Error>)
        requires
            is_opening(old(self)@),
            old(self)@.phase is Directory,
        ensures
            match (r, opening_step(old(self)@, s@)) {
                (Ok(_), Ok(v)) => final(self)@ == v && is_opening(v),
                (Err(e), Err(expected)) => e == expected,
                _ => false,
            },
    {
        read_entries(s, self.current, self.version, &mut self.directory)?;
        if self.current as u64 >= self.fat.len() as u64 {
            self.phase = Phase::Stuck;
        } else {
            self.current = self.fat[self.current as usize];
            self.settle_directory();
        }
        Ok(())
    }

    /// Goes on with the piece of the file that is wanted next.  The piece is
    /// shorter than wanted only where the file ends.
    pub fn feed(&mut self, s: &[u8]) -> (r: Result<(), Error>)
        requires
            is_opening(old(self)@),
            old(self)@.phase is Header ==> old(self)@ == opening_start(),
        ensures
            match (r, opening_step(old(self)@, s@)) {
                (Ok(_), Ok(v)) => final(self)@ == v && is_opening(v) && !(v.phase is Header),
                (Err(e), Err(expected)) => e == expected,
                _ => false,
            },
    {
        match self.phase {
            Phase::Header => self.feed_header(s),
            Phase::Difat => self.feed_difat(s),
            Phase::Fat => self.feed_fat(s),
            Phase::Directory => self.feed_directory(s),
            Phase::Done | Phase::Stuck => Ok(()),
        }
    }

    /// How many more sectors the chain can have that is followed now, after a
    /// piece that was read in the given phase.
    fn fuel_after(&self, phase: Phase, file_len: usize, fuel: usize) -> (r: usize)
        requires
            is_in_chain(phase) ==> fuel > 0,
        ensures
            r == fuel_after(phase, self@, file_len as nat, fuel as nat),
    {
        match self.phase {
            Phase::Difat => if phase == Phase::Difat {
                fuel - 1
            } else {
                file_len
            },
            Phase::Directory => if phase == Phase::Directory {
                fuel - 1
            } else {
                self.fat.len()
            },
            _ => 0,
        }
    }

    /// The compound file that was opened, backed by the given file.
    pub fn finish<F>(self, inner: F) -> (r: CompoundFile<F>)
        requires
            self@.phase is Done,
        ensures
            r@ == (CompoundView {
                version: self@.version,
                difat: self@.difat,
                fat: self@.fat,
                directory: self@.directory,
            }),
            r.underlying() == inner,
    {
        CompoundFile::from_parts(inner, self.version, self.difat, self.fat, self.directory)
    }
}

/// What a file is opened to, from where the opening has come.
pub open spec fn open_rest(v: OpeningView, file: Seq<u8>, fuel: nat) -> Walk<CompoundView> {
    match v.phase {
        Phase::Header => open_file(file),
        Phase::Difat => match difat_chain(file, v.version, v.current, fuel) {
            Walk::Done((rest, sectors)) => open_tables(
                file,
                header_of(v),
                v.difat + rest,
                v.difat_sectors + sectors,
            ),
            Walk::Failed(e) => Walk::Failed(e),
            Walk::Stuck => Walk::Stuck,
        },
        Phase::Fat => match fat_sectors(file, v.version, v.difat, v.fat_sectors) {
            Err(e) => Walk::Failed(e),
            Ok(rest) => open_directory(
                file,
                v.version,
                v.first_dir_sector,
                v.difat,
                trimmed(v.fat + rest),
            ),
        },
        Phase::Directory => match dir_chain(file, v.version, v.fat, v.current, fuel) {
            Walk::Done(rest) => Walk::Done(
                CompoundView {
                    version: v.version,
                    difat: v.difat,
                    fat: v.fat,
                    directory: v.directory + rest,
                },
            ),
            Walk::Failed(e) => Walk::Failed(e),
            Walk::Stuck => Walk::Stuck,
        },
        Phase::Done => Walk::Done(
            CompoundView {
                version: v.version,
                difat: v.difat,
                fat: v.fat,
                directory: v.directory,
            },
        ),
        Phase::Stuck => Walk::Stuck,
    }
}

/// What an opening has kept of the header.
pub open spec fn header_of(v: OpeningView) -> HeaderView {
    HeaderView {
        version: v.version,
        first_dir_sector: v.first_dir_sector,
        first_difat_sector: v.current,
        num_difat_sectors: v.num_difat_sectors,
        difat: v.difat,
    }
}

/// How many phases are left.
pub open spec fn phases_left(phase: Phase) -> nat {
    match phase {
        Phase::Header => 4,
        Phase::Difat => 3,
        Phase::Fat => 2,
        Phase::Directory => 1,
        Phase::Done => 0,
        Phase::Stuck => 0,
    }
}

/// How many pieces are left of the phase, at most.
pub open spec fn pieces_left(v: OpeningView, fuel: nat) -> nat {
    match v.phase {
        Phase::Difat => fuel,
        Phase::Fat => (v.difat.len() - v.fat_sectors) as nat,
        Phase::Directory => fuel,
        _ => 0,
    }
}

/// Whether the FAT and the directory are read only once the DIFAT is known.
pub open spec fn is_staged(v: OpeningView) -> bool {
    &&& v.phase is Header ==> v == opening_start()
    &&& v.phase is Difat ==> v.fat.len() == 0 && v.fat_sectors == 0
    &&& v.phase is Difat || v.phase is Fat ==> v.directory.len() == 0
}

/// Going on to the directory changes nothing of what a file is opened to.
proof fn lemma_settle_directory(v: OpeningView, file: Seq<u8>)
    requires
        v.directory.len() == 0,
        v.current == v.first_dir_sector,
    ensures
        open_rest(settle_directory(v), file, v.fat.len()) == open_directory(
            file,
            v.version,
            v.first_dir_sector,
            v.difat,
            v.fat,
        ),
{
    if let Walk::Done(rest) = dir_chain(file, v.version, v.fat, v.current, v.fat.len()) {
        assert(v.directory + rest =~= rest);
        if v.current == END_OF_CHAIN {
            assert(rest =~= v.directory);
        }
    }
}

/// The fuel for what follows the FAT.
spec fn fuel_after_fat(v: OpeningView) -> nat {
    trimmed(v.fat).len()
}

/// Going on to the directory changes nothing of what a file is opened to.
proof fn lemma_settle_fat(v: OpeningView, file: Seq<u8>)
    requires
        v.directory.len() == 0,
        v.fat_sectors <= v.difat.len(),
    ensures
        ({
            let next = settle_fat(v);
            let fuel = fuel_after_fat(v);
            &&& is_staged(next)
            &&& phases_left(next.phase) <= 2
            &&& next.phase is Fat ==> pieces_left(next, fuel) == v.difat.len() - v.fat_sectors
            &&& open_rest(next, file, fuel) == match fat_sectors(
                file,
                v.version,
                v.difat,
                v.fat_sectors,
            ) {
                Err(e) => Walk::Failed(e),
                Ok(rest) => open_directory(
                    file,
                    v.version,
                    v.first_dir_sector,
                    v.difat,
                    trimmed(v.fat + rest),
                ),
            }
        }),
{
    if v.fat_sectors >= v.difat.len() {
        assert(v.fat + Seq::<u32>::empty() =~= v.fat);
        lemma_settle_directory(
            OpeningView { fat: trimmed(v.fat), current: v.first_dir_sector, ..v },
            file,
        );
    }
}

/// Going on to the FAT changes nothing of what a file is opened to.
proof fn lemma_settle_difat(v: OpeningView, file: Seq<u8>, fuel: nat) -> (next_fuel: nat)
    requires
        v.directory.len() == 0,
        v.fat.len() == 0,
        v.fat_sectors == 0,
    ensures
        ({
            let rest = match difat_chain(file, v.version, v.current, fuel) {
                Walk::Done((rest, sectors)) => open_tables(
                    file,
                    header_of(v),
                    v.difat + rest,
                    v.difat_sectors + sectors,
                ),
                Walk::Failed(e) => Walk::Failed(e),
                Walk::Stuck => Walk::Stuck,
            };
            match settle_difat(v) {
                Err(e) => rest == Walk::<CompoundView>::Failed(e),
                Ok(next) => {
                    &&& is_staged(next)
                    &&& phases_left(next.phase) <= 3
                    &&& next.phase is Difat ==> next_fuel == fuel
                    &&& open_rest(next, file, next_fuel) == rest
                },
            }
        }),
{
    if v.current != END_OF_CHAIN {
        fuel
    } else {
        assert(v.difat + Seq::<u32>::empty() =~= v.difat);
        if v.num_difat_sectors == v.difat_sectors {
            lemma_settle_fat(v, file);
            if let Ok(rest) = fat_sectors(file, v.version, v.difat, 0) {
                assert(v.fat + rest =~= rest);
            }
        }
        fuel_after_fat(v)
    }
}

/// How many more sectors the chain can have that is followed after a piece that
/// was read in the given phase.
pub open spec fn fuel_after(phase: Phase, next: OpeningView, file_len: nat, fuel: nat) -> nat {
    match next.phase {
        Phase::Difat => if phase is Difat {
            (fuel - 1) as nat
        } else {
            file_len
        },
        Phase::Directory => if phase is Directory {
            (fuel - 1) as nat
        } else {
            next.fat.len()
        },
        _ => 0,
    }
}

/// Whether a chain of sectors is followed.
pub open spec fn is_in_chain(phase: Phase) -> bool {
    phase is Difat || phase is Directory
}

/// Whether the next piece changes nothing of what a file is opened to.  Where
/// the piece fails the file cannot be opened for that reason, and otherwise it
/// leaves less to do.
pub open spec fn is_faithful(v: OpeningView, file: Seq<u8>, fuel: nat) -> bool {
    let (at, len) = wanted(v)->0;
    match opening_step(v, window(file, at, len)) {
        Err(e) => open_rest(v, file, fuel) == Walk::<CompoundView>::Failed(e),
        Ok(next) => {
            let next_fuel = fuel_after(v.phase, next, file.len(), fuel);
            &&& is_staged(next)
            &&& open_rest(next, file, next_fuel) == open_rest(v, file, fuel)
            &&& phases_left(next.phase) < phases_left(v.phase) || (phases_left(next.phase)
                == phases_left(v.phase) && pieces_left(next, next_fuel) < pieces_left(v, fuel))
        },
    }
}

/// The header changes nothing of what the file is opened to.
proof fn lemma_header_step(v: OpeningView, file: Seq<u8>, fuel: nat)
    requires
        is_staged(v),
        v.phase is Header,
    ensures
        is_faithful(v, file, fuel),
{
    if let Ok(header) = parse_header(window(file, 0, HEADER_LEN as nat)) {
        let w = OpeningView {
            version: header.version,
            first_dir_sector: header.first_dir_sector,
            num_difat_sectors: header.num_difat_sectors,
            difat: header.difat,
            current: header.first_difat_sector,
            ..v
        };
        assert(header_of(w) =~= header);
        lemma_settle_difat(w, file, file.len());
    }
}

/// What is known once a sector of the DIFAT has been read.
spec fn with_difat_sector(v: OpeningView, s: Seq<u8>) -> OpeningView {
    let n = numbers_per_sector(v.version);
    OpeningView {
        difat: v.difat + sector_numbers(s, (n - 1) as nat),
        difat_sectors: v.difat_sectors + 1,
        current: u32_at(s, 4 * (n - 1)),
        ..v
    }
}

/// What the rest of the DIFAT leads to, when some of it is known.
spec fn open_difat(v: OpeningView, file: Seq<u8>, fuel: nat) -> Walk<CompoundView> {
    match difat_chain(file, v.version, v.current, fuel) {
        Walk::Done((rest, sectors)) => open_tables(
            file,
            header_of(v),
            v.difat + rest,
            v.difat_sectors + sectors,
        ),
        Walk::Failed(e) => Walk::Failed(e),
        Walk::Stuck => Walk::Stuck,
    }
}

/// The tables do not depend on what of the DIFAT was in the header.
proof fn lemma_tables_alike(
    file: Seq<u8>,
    a: HeaderView,
    b: HeaderView,
    difat: Seq<u32>,
    sectors: nat,
)
    requires
        a.version == b.version,
        a.first_dir_sector == b.first_dir_sector,
        a.num_difat_sectors == b.num_difat_sectors,
    ensures
        open_tables(file, a, difat, sectors) == open_tables(file, b, difat, sectors),
{
}

/// A sector of the DIFAT that has been read leads to the same end.
#[verifier::spinoff_prover]
proof fn lemma_difat_sector_read(v: OpeningView, file: Seq<u8>, fuel: nat)
    requires
        v.current != END_OF_CHAIN,
        fuel > 0,
        sector_window(file, v.version, v.current).len() >= sector_len(v.version),
    ensures
        open_difat(
            with_difat_sector(v, sector_window(file, v.version, v.current)),
            file,
            (fuel - 1) as nat,
        ) == open_difat(v, file, fuel),
{
    let s = sector_window(file, v.version, v.current);
    let w = with_difat_sector(v, s);
    let numbers = sector_numbers(s, (numbers_per_sector(v.version) - 1) as nat);
    if let Walk::Done((rest, sectors)) = difat_chain(
        file,
        v.version,
        w.current,
        (fuel - 1) as nat,
    ) {
        assert(v.difat + (numbers + rest) =~= w.difat + rest);
        lemma_tables_alike(
            file,
            header_of(v),
            header_of(w),
            w.difat + rest,
            w.difat_sectors + sectors,
        );
    }
}

/// A sector of the DIFAT changes nothing of what the file is opened to.
#[verifier::spinoff_prover]
proof fn lemma_difat_step(v: OpeningView, file: Seq<u8>, fuel: nat)
    requires
        is_opening(v),
        is_staged(v),
        v.phase is Difat,
        fuel > 0,
    ensures
        is_faithful(v, file, fuel),
{
    let s = sector_window(file, v.version, v.current);
    assert(open_rest(v, file, fuel) == open_difat(v, file, fuel));
    if s.len() >= sector_len(v.version) {
        lemma_difat_sector_read(v, file, fuel);
        lemma_settle_difat(with_difat_sector(v, s), file, (fuel - 1) as nat);
    }
}

/// A sector of the FAT changes nothing of what the file is opened to.
proof fn lemma_fat_step(v: OpeningView, file: Seq<u8>, fuel: nat)
    requires
        is_opening(v),
        is_staged(v),
        v.phase is Fat,
    ensures
        is_faithful(v, file, fuel),
{
    let s = sector_window(file, v.version, v.difat[v.fat_sectors as int]);
    let numbers = sector_numbers(s, numbers_per_sector(v.version));
    let w = OpeningView { fat: v.fat + numbers, fat_sectors: v.fat_sectors + 1, ..v };
    if let Ok(rest) = fat_sectors(file, v.version, v.difat, w.fat_sectors) {
        assert(v.fat + (numbers + rest) =~= w.fat + rest);
    }
    lemma_settle_fat(w, file);
}

/// A sector of the directory changes nothing of what the file is opened to.
proof fn lemma_directory_step(v: OpeningView, file: Seq<u8>, fuel: nat)
    requires
        is_opening(v),
        is_staged(v),
        v.phase is Directory,
        fuel > 0,
    ensures
        is_faithful(v, file, fuel),
{
    let s = sector_window(file, v.version, v.current);
    if let Ok(entries) = sector_entries(s, v.current, v.version, 0) {
        let next = v.fat[v.current as int];
        if let Walk::Done(rest) = dir_chain(file, v.version, v.fat, next, (fuel - 1) as nat) {
            assert(v.directory + (entries + rest) =~= v.directory + entries + rest);
            if next == END_OF_CHAIN {
                assert(v.directory + entries + rest =~= v.directory + entries);
            }
        }
    }
}

/// Whoever gives an opening the pieces that it wants opens the file: each piece
/// changes nothing of what the file is opened to, where it fails the file
/// cannot be opened for that reason, and otherwise it leaves less to do.
pub proof fn law_opening_step(v: OpeningView, file: Seq<u8>, fuel: nat)
    requires
        is_opening(v),
        is_staged(v),
        wanted(v) is Some,
        is_in_chain(v.phase) ==> fuel > 0,
    ensures
        is_faithful(v, file, fuel),
{
    match v.phase {
        Phase::Header => lemma_header_step(v, file, fuel),
        Phase::Difat => lemma_difat_step(v, file, fuel),
        Phase::Fat => lemma_fat_step(v, file, fuel),
        Phase::Directory => lemma_directory_step(v, file, fuel),
        _ => {},
    }
}

/// Where a chain of sectors has gone on for longer than it can, the file cannot
/// be opened for what is wrong with the next sector, or the chain never ends.
proof fn lemma_chain_too_long(v: OpeningView, file: Seq<u8>)
    requires
        is_opening(v),
        is_in_chain(v.phase),
    ensures
        ({
            let s = window(file, sector_position(v.version, v.current, 0), sector_len(v.version));
            open_rest(v, file, 0) == if v.phase is Difat && s.len() >= sector_len(v.version) {
                Walk::<CompoundView>::Stuck
            } else {
                match opening_step(v, s) {
                    Err(e) => Walk::Failed(e),
                    Ok(_) => Walk::Stuck,
                }
            }
        }),
{
}

impl CompoundFile<Vec<u8>> {
    /// Opens a existing compound file that lies in memory.
    pub fn open(inner: Vec<u8>) -> (r: Result<CompoundFile<Vec<u8>>, Error>)
        requires
            !(open_file(inner@) is Stuck),
        ensures
            match (r, open_file(inner@)) {
                (Ok(comp), Walk::Done(v)) => comp@ == v && comp.underlying() == inner,
                (Err(e), Walk::Failed(expected)) => e == expected,
                _ => false,
            },
    {
        match CompoundFile::try_open(inner) {
            Some(r) => r,
            None => {
                // Not reached: the chains of the file end.
                assert(false);
                Err(Error::UnexpectedEof)
            },
        }
    }

    /// Like [`open`](Self::open), but takes any file: returns `None` where a
    /// chain of sectors never ends or leads out of the FAT.
    pub fn try_open(inner: Vec<u8>) -> (r: Option<Result<CompoundFile<Vec<u8>>, Error>>)
        ensures
            match (r, open_file(inner@)) {
                (Some(Ok(comp)), Walk::Done(v)) => comp@ == v && comp.underlying() == inner,
                (Some(Err(e)), Walk::Failed(expected)) => e == expected,
                (None, Walk::Stuck) => true,
                _ => false,
            },
    {
        let mut opening = Opening::new();
        let mut fuel: usize = 0;
        loop
            invariant
                is_opening(opening@),
                is_staged(opening@),
                open_rest(opening@, inner@, fuel as nat) == open_file(inner@),
            ensures
                wanted(opening@) is None,
                open_rest(opening@, inner@, fuel as nat) == open_file(inner@),
            decreases phases_left(opening@.phase), pieces_left(opening@, fuel as nat),
        {
            let (at, len) = match opening.next_read() {
                None => {
                    break;
                },
                Some(piece) => piece,
            };
            let piece = read_window(inner.as_slice(), at, len);
            let phase = opening.phase();
            let ghost before = opening@;
            if (phase == Phase::Difat || phase == Phase::Directory) && fuel == 0 {
                proof {
                    lemma_chain_too_long(before, inner@);
                }
                if phase == Phase::Difat && piece.len() >= len {
                    return None;
                }
                return match opening.feed(piece) {
                    Ok(_) => None,
                    Err(e) => Some(Err(e)),
                };
            }
            proof {
                law_opening_step(before, inner@, fuel as nat);
            }
            match opening.feed(piece) {
                Ok(_) => {},
                Err(e) => {
                    return Some(Err(e));
                },
            }
            fuel = opening.fuel_after(phase, inner.len(), fuel);
        }
        if opening.phase() == Phase::Done {
            Some(Ok(opening.finish(inner)))
        } else {
            None
        }
    }
}

} // verus!

//! Streams.

use vstd::prelude::*;
use vstd::string::StringExecFns;

use crate::compound::{can_look_up, stream_id, CompoundFile};
use crate::constants::{END_OF_CHAIN, OBJ_TYPE_STREAM};
use crate::error::Error;
use crate::layout::CompoundView;
use crate::path::{
    component_views, has_components, path_components, PathComponent, PathComponentView,
};
use crate::version::{sector_len, sector_position, Version};

verus! {

/// A place in a stream.
#[derive(Clone, Copy, Debug, PartialEq, Eq, Structural)]
pub enum SeekFrom {
    /// So many bytes after the start.
    Start(u64),
    /// So many bytes after the end, or before it.
    End(i64),
    /// So many bytes after the place that the stream is at, or before it.
    Current(i64),
}

/// The sector that `n` links of the FAT lead to, if they do not lead out of it.
pub open spec fn chain_sector(fat: Seq<u32>, start: u32, n: nat) -> Option<u32>
    decreases n,
{
    if n == 0 {
        Some(start)
    } else {
        match chain_sector(fat, start, (n - 1) as nat) {
            Some(sector) => if sector < fat.len() {
                Some(fat[sector as int])
            } else {
                None
            },
            None => None,
        }
    }
}

/// Where a byte of a stream lies in the file.
pub open spec fn byte_position(v: CompoundView, start: u32, offset: nat) -> nat {
    sector_position(
        v.version,
        chain_sector(v.fat, start, offset / sector_len(v.version))->0,
        offset % sector_len(v.version),
    )
}

/// Some bytes of a stream.
pub open spec fn stream_bytes(
    file: Seq<u8>,
    v: CompoundView,
    start: u32,
    offset: nat,
    len: nat,
) -> Seq<u8> {
    Seq::new(len, |i: int| file[byte_position(v, start, (offset + i) as nat) as int])
}

/// A length or a place as a signed number.  It turns negative from 2^63 on.
pub open spec fn as_signed(n: u64) -> int {
    if n < 0x8000_0000_0000_0000 {
        n as int
    } else {
        n - 0x1_0000_0000_0000_0000
    }
}

/// Where to seek, counted from the start.
pub open spec fn seek_target(pos: SeekFrom, total_len: u64, offset: u64) -> int {
    match pos {
        SeekFrom::Start(delta) => as_signed(delta),
        SeekFrom::End(delta) => delta + as_signed(total_len),
        SeekFrom::Current(delta) => delta + as_signed(offset),
    }
}

/// Whether an offset lies in a stream, or at its end.
pub open spec fn is_in_stream(offset: int, total_len: u64) -> bool {
    0 <= offset <= total_len
}

/// How many bytes can be read at once at an offset, of those that are wanted: as
/// many as the stream has and the sector has.
pub open spec fn span_len(version: Version, total_len: u64, offset: u64, want: nat) -> nat {
    let in_file = total_len - offset;
    let in_sector = sector_len(version) - offset as nat % sector_len(version);
    vstd::math::min(want as int, vstd::math::min(in_file, in_sector)) as nat
}

/// How many bytes a read at an offset gives, of those that are wanted: as many as
/// can be read at once and the underlying file has.
pub open spec fn read_len_at(
    file: Seq<u8>,
    v: CompoundView,
    start: u32,
    total_len: u64,
    offset: u64,
    want: nat,
) -> nat {
    let left = file.len() - byte_position(v, start, offset as nat);
    if left <= 0 {
        0
    } else {
        vstd::math::min(left, span_len(v.version, total_len, offset, want) as int) as nat
    }
}

/// A stream entry in a compound file, much like a filesystem file.
pub struct Stream<'a, F> {
    /// The compound file.
    pub comp: &'a mut CompoundFile<F>,
    /// The length of the stream.
    pub total_len: u64,
    /// Where the stream is at, counted from its start.
    pub offset_from_start: u64,
    /// Where it is at, counted from the start of the sector.
    pub offset_within_sector: usize,
    /// The sector that the stream starts in.
    pub start_sector: u32,
    /// The sector that it is at.
    pub current_sector: u32,
}

impl<'a, F> Stream<'a, F> {
    /// Whether the stream is at a place that it has, and in the right sector.
    pub open spec fn is_valid(&self) -> bool {
        let len = sector_len(self.comp@.version);
        &&& self.offset_from_start <= self.total_len
        &&& self.offset_within_sector == self.offset_from_start as nat % len
        &&& chain_sector(self.comp@.fat, self.start_sector, self.offset_from_start as nat / len)
            == Some(self.current_sector)
    }

    /// Whether the place to seek can be reckoned without overflow, and the
    /// sectors up to it are in the FAT.
    pub open spec fn can_seek_to(&self, pos: SeekFrom) -> bool {
        let target = seek_target(pos, self.total_len, self.offset_from_start);
        &&& i64::MIN <= target <= i64::MAX
        &&& is_in_stream(target, self.total_len) ==> chain_sector(
            self.comp@.fat,
            self.start_sector,
            target as nat / sector_len(self.comp@.version),
        ) is Some
    }

    /// How many bytes can be read at once, of those that are wanted.
    pub open spec fn span(&self, want: nat) -> nat {
        span_len(self.comp@.version, self.total_len, self.offset_from_start, want)
    }

    /// Whether there is a sector to go on in after so many bytes, or none is
    /// needed.
    pub open spec fn can_advance_by(&self, n: nat) -> bool {
        self.offset_within_sector + n == sector_len(self.comp@.version) ==> {
            &&& self.current_sector < self.comp@.fat.len()
            &&& self.comp@.fat[self.current_sector as int] == END_OF_CHAIN
                ==> self.offset_from_start + n == self.total_len
        }
    }
}

/// Whether a result is the stream that a path leads to, at its start, or why there
/// is none.
pub open spec fn is_stream_for_path<'a, F>(
    v: CompoundView,
    components: Seq<PathComponentView>,
    path: Seq<char>,
    r: Result<Stream<'a, F>, Error>,
) -> bool {
    match (r, stream_id(v, components)) {
        (Ok(s), Ok(id)) => {
            &&& v.directory[id as int].obj_type == OBJ_TYPE_STREAM
            &&& s.is_valid()
            &&& s.total_len == v.directory[id as int].stream_len
            &&& s.start_sector == v.directory[id as int].start_sector
            &&& s.offset_from_start == 0
            &&& s.comp@ == v
        },
        (Err(Error::NotAStream(p)), Ok(id)) => {
            &&& v.directory[id as int].obj_type != OBJ_TYPE_STREAM
            &&& p@ == path
        },
        (Err(e), Err(expected)) => e == expected,
        _ => false,
    }
}

/// Whether a seek gives a result, and moves from one offset to another.
pub open spec fn is_sought(
    pos: SeekFrom,
    total_len: u64,
    before: u64,
    after: u64,
    r: Result<u64, Error>,
) -> bool {
    let target = seek_target(pos, total_len, before);
    if is_in_stream(target, total_len) {
        r == Ok::<u64, Error>(target as u64) && after == target
    } else {
        r == Err::<u64, Error>(Error::InvalidSeek { position: target as i64, len: total_len })
            && after == before
    }
}

/// Whether a read at an offset gives a result, and leaves this in a buffer.
pub open spec fn is_read(
    file: Seq<u8>,
    v: CompoundView,
    start: u32,
    total_len: u64,
    offset: u64,
    before: Seq<u8>,
    after: Seq<u8>,
    r: Result<usize, Error>,
) -> bool {
    &&& r matches Ok(n) && n == read_len_at(file, v, start, total_len, offset, before.len())
    &&& after == stream_bytes(file, v, start, offset as nat, r->Ok_0 as nat) + before.skip(
        r->Ok_0 as int,
    )
}

/// What leads to a sector of a chain stays in the FAT.
proof fn lemma_chain_prefix(fat: Seq<u32>, start: u32, m: nat, n: nat)
    requires
        m <= n,
        chain_sector(fat, start, n) is Some,
    ensures
        chain_sector(fat, start, m) is Some,
        m < n ==> chain_sector(fat, start, m)->0 < fat.len(),
    decreases n,
{
    if m < n {
        lemma_chain_prefix(fat, start, m, (n - 1) as nat);
    }
}

/// Follows links of the FAT.
fn follow_chain(fat: &Vec<u32>, start: u32, n: u64) -> (r: Option<u32>)
    ensures
        r == chain_sector(fat@, start, n as nat),
{
    let mut sector: u32 = start;
    let mut i: u64 = 0;
    while i < n
        invariant
            i <= n,
            chain_sector(fat@, start, i as nat) == Some(sector),
        decreases n - i,
    {
        if sector as u64 >= fat.len() as u64 {
            proof {
                if chain_sector(fat@, start, n as nat) is Some {
                    lemma_chain_prefix(fat@, start, i as nat, n as nat);
                }
            }
            return None;
        }
        sector = fat[sector as usize];
        i += 1;
    }
    Some(sector)
}

/// A number as a signed one.
fn to_signed(n: u64) -> (r: i64)
    ensures
        r == as_signed(n),
{
    proof {
        assert(n < 0x8000_0000_0000_0000u64 ==> n as i64 == n) by (bit_vector);
        assert(n >= 0x8000_0000_0000_0000u64 ==> n as i64 == n - 0x1_0000_0000_0000_0000)
            by (bit_vector);
    }
    n as i64
}

impl<'a, F> Stream<'a, F> {
    /// Returns the current length of the stream, in bytes.
    pub fn len(&self) -> (r: u64)
        ensures
            r == self.total_len,
    {
        self.total_len
    }

    /// Whether a place can be sought.  In a damaged file it need not.
    pub fn can_seek(&self, pos: SeekFrom) -> (r: bool)
        ensures
            r == self.can_seek_to(pos),
    {
        let target: Option<i64> = match pos {
            SeekFrom::Start(delta) => Some(to_signed(delta)),
            SeekFrom::End(delta) => delta.checked_add(to_signed(self.total_len)),
            SeekFrom::Current(delta) => delta.checked_add(to_signed(self.offset_from_start)),
        };
        match target {
            None => false,
            Some(target) => if target < 0 || target as u64 > self.total_len {
                true
            } else {
                let sector_len: u64 = self.comp.version().sector_len() as u64;
                follow_chain(
                    self.comp.fat(),
                    self.start_sector,
                    target as u64 / sector_len,
                ).is_some()
            },
        }
    }

    /// Moves to a place in the stream.  Returns that place, counted from the
    /// start.
    pub fn seek(&mut self, pos: SeekFrom) -> (r: Result<u64, Error>)
        requires
            old(self).is_valid(),
            old(self).can_seek_to(pos),
        ensures
            final(self).is_valid(),
            final(self).total_len == old(self).total_len,
            final(self).start_sector == old(self).start_sector,
            *final(self).comp == *old(self).comp,
            *final(final(self).comp) == *final(old(self).comp),
            is_sought(
                pos,
                old(self).total_len,
                old(self).offset_from_start,
                final(self).offset_from_start,
                r,
            ),
            ({
                let target = seek_target(
                    pos,
                    old(self).total_len,
                    old(self).offset_from_start,
                );
                if is_in_stream(target, old(self).total_len) {
                    &&& r == Ok::<u64, Error>(target as u64)
                    &&& final(self).offset_from_start == target
                } else {
                    &&& r == Err::<u64, Error>(
                        Error::InvalidSeek { position: target as i64, len: old(self).total_len },
                    )
                    &&& *final(self) == *old(self)
                }
            }),
    {
        let new_pos: i64 = match pos {
            SeekFrom::Start(delta) => to_signed(delta),
            SeekFrom::End(delta) => delta + to_signed(self.total_len),
            SeekFrom::Current(delta) => delta + to_signed(self.offset_from_start),
        };
        if new_pos < 0 || (new_pos as u64) > self.total_len {
            return Err(Error::InvalidSeek { position: new_pos, len: self.total_len });
        }
        let new_pos: u64 = new_pos as u64;
        if new_pos != self.offset_from_start {
            let sector_len: u64 = self.comp.version().sector_len() as u64;
            let mut offset: u64 = new_pos;
            let mut sector: u32 = self.start_sector;
            let ghost last = new_pos as nat / sector_len as nat;
            let ghost mut done: nat = 0;
            while offset >= sector_len
                invariant
                    sector_len == 512 || sector_len == 4096,
                    offset as int == new_pos - done * sector_len,
                    last == new_pos as nat / sector_len as nat,
                    chain_sector(self.comp@.fat, self.start_sector, last) is Some,
                    chain_sector(self.comp@.fat, self.start_sector, done) == Some(sector),
                decreases offset,
            {
                proof {
                    assert(done < last) by (nonlinear_arith)
                        requires
                            sector_len == 512 || sector_len == 4096,
                            offset >= sector_len,
                            offset as int == new_pos - done * sector_len,
                            last == new_pos as nat / sector_len as nat,
                    ;
                    lemma_chain_prefix(self.comp@.fat, self.start_sector, done, last);
                    assert((done + 1) * sector_len == done * sector_len + sector_len)
                        by (nonlinear_arith);
                    done = done + 1;
                }
                sector = self.comp.fat()[sector as usize];
                offset -= sector_len;
            }
            proof {
                vstd::arithmetic::div_mod::lemma_fundamental_div_mod_converse(
                    new_pos as int,
                    sector_len as int,
                    done as int,
                    offset as int,
                );
            }
            self.current_sector = sector;
            self.offset_within_sector = offset as usize;
            self.offset_from_start = new_pos;
        }
        Ok(new_pos)
    }

    /// Says how many bytes can be read at once, and where they lie in the
    /// underlying file.
    pub fn next_span(&self, want: usize) -> (r: (u64, usize))
        requires
            self.is_valid(),
        ensures
            r.0 == byte_position(
                old(self.comp)@,
                self.start_sector,
                self.offset_from_start as nat,
            ),
            r.1 == self.span(want as nat),
    {
        let remaining_in_file: u64 = self.total_len - self.offset_from_start;
        let sector_len: usize = self.comp.version().sector_len();
        let remaining_in_sector: usize = sector_len - self.offset_within_sector;
        let mut max_len: usize = want;
        if remaining_in_sector < max_len {
            max_len = remaining_in_sector;
        }
        if remaining_in_file < max_len as u64 {
            max_len = remaining_in_file as usize;
        }
        let at: u64 = self.comp.seek_within_sector(self.current_sector, self.offset_within_sector);
        (at, max_len)
    }

    /// Whether the stream can go on after so many bytes.  In a damaged file it
    /// need not.
    pub fn can_advance(&self, n: usize) -> (r: bool)
        requires
            self.is_valid(),
            n <= self.span(n as nat),
        ensures
            r == self.can_advance_by(n as nat),
    {
        if self.offset_within_sector + n == self.comp.version().sector_len() {
            let fat = self.comp.fat();
            (self.current_sector as u64) < fat.len() as u64 && (fat[self.current_sector as usize]
                != END_OF_CHAIN || self.offset_from_start + n as u64 == self.total_len)
        } else {
            true
        }
    }

    /// Moves behind bytes that were read.
    pub fn advance(&mut self, n: usize)
        requires
            old(self).is_valid(),
            n <= old(self).span(n as nat),
            old(self).can_advance_by(n as nat),
        ensures
            final(self).is_valid(),
            final(self).offset_from_start == old(self).offset_from_start + n,
            final(self).total_len == old(self).total_len,
            final(self).start_sector == old(self).start_sector,
            *final(self).comp == *old(self).comp,
            *final(final(self).comp) == *final(old(self).comp),
    {
        let sector_len: usize = self.comp.version().sector_len();
        proof {
            lemma_step(self.offset_from_start as nat, n as nat, sector_len as nat);
        }
        self.offset_from_start += n as u64;
        self.offset_within_sector += n;
        if self.offset_within_sector == sector_len {
            self.offset_within_sector = 0;
            self.current_sector = self.comp.fat()[self.current_sector as usize];
        }
    }
}

/// How the sector and the place in it change when an offset grows by no more
/// than the sector has left.
pub(crate) proof fn lemma_step(offset: nat, n: nat, len: nat)
    requires
        len > 0,
        offset % len + n <= len,
    ensures
        offset % len + n < len ==> (offset + n) / len == offset / len && (offset + n) % len
            == offset % len + n,
        offset % len + n == len ==> (offset + n) / len == offset / len + 1 && (offset + n) % len
            == 0,
{
    vstd::arithmetic::div_mod::lemma_fundamental_div_mod(offset as int, len as int);
    let q = offset / len;
    if offset % len + n < len {
        assert(q * len == len * q) by (nonlinear_arith);
        vstd::arithmetic::div_mod::lemma_fundamental_div_mod_converse(
            (offset + n) as int,
            len as int,
            q as int,
            (offset % len + n) as int,
        );
    } else {
        assert((q + 1) * len == len * q + len) by (nonlinear_arith);
        vstd::arithmetic::div_mod::lemma_fundamental_div_mod_converse(
            (offset + n) as int,
            len as int,
            (q + 1) as int,
            0,
        );
    }
}

impl<F> CompoundFile<F> {
    /// Opens an existing stream in the compound file for reading and/or writing
    /// (depending on what the underlying file supports).
    pub fn open_stream(&mut self, path: &str) -> (r: Result<Stream<'_, F>, Error>)
        requires
            forall|components: Seq<PathComponentView>| #[trigger]
                has_components(path@, components) ==> can_look_up(old(self)@, components),
        ensures
            exists|components: Seq<PathComponentView>| #[trigger]
                has_components(path@, components) && is_stream_for_path(
                    old(self)@,
                    components,
                    path@,
                    r,
                ) && match (r, stream_id(old(self)@, components)) {
                    (Ok(s), Ok(id)) => {
                        &&& old(self)@.directory[id as int].obj_type == OBJ_TYPE_STREAM
                        &&& s.is_valid()
                        &&& s.total_len == old(self)@.directory[id as int].stream_len
                        &&& s.start_sector == old(self)@.directory[id as int].start_sector
                        &&& s.offset_from_start == 0
                        &&& *s.comp == *old(self)
                        &&& *final(s.comp) == *final(self)
                    },
                    (Err(Error::NotAStream(p)), Ok(id)) => {
                        &&& old(self)@.directory[id as int].obj_type != OBJ_TYPE_STREAM
                        &&& p@ == path@
                        &&& *final(self) == *old(self)
                    },
                    (Err(e), Err(expected)) => e == expected && *final(self) == *old(self),
                    _ => false,
                },
    {
        let components = path_components(path);
        self.open_stream_for_path(&components, path)
    }

    /// Like [`open_stream`](Self::open_stream), but takes any directory: returns
    /// `None` where the search for the path does not end.
    pub fn try_open_stream(&mut self, path: &str) -> (r: Option<Result<Stream<'_, F>, Error>>)
        ensures
            exists|components: Seq<PathComponentView>| #[trigger]
                has_components(path@, components) && (r matches Some(r) ==> is_stream_for_path(
                    old(self)@,
                    components,
                    path@,
                    r,
                )) && match (r, stream_id(old(self)@, components)) {
                    (None, _) => {
                        &&& !can_look_up(old(self)@, components)
                        &&& *final(self) == *old(self)
                    },
                    (Some(Ok(s)), Ok(id)) => {
                        &&& can_look_up(old(self)@, components)
                        &&& old(self)@.directory[id as int].obj_type == OBJ_TYPE_STREAM
                        &&& s.is_valid()
                        &&& s.total_len == old(self)@.directory[id as int].stream_len
                        &&& s.start_sector == old(self)@.directory[id as int].start_sector
                        &&& s.offset_from_start == 0
                        &&& *s.comp == *old(self)
                        &&& *final(s.comp) == *final(self)
                    },
                    (Some(Err(Error::NotAStream(p))), Ok(id)) => {
                        &&& can_look_up(old(self)@, components)
                        &&& old(self)@.directory[id as int].obj_type != OBJ_TYPE_STREAM
                        &&& p@ == path@
                        &&& *final(self) == *old(self)
                    },
                    (Some(Err(e)), Err(expected)) => {
                        &&& can_look_up(old(self)@, components)
                        &&& e == expected
                        &&& *final(self) == *old(self)
                    },
                    _ => false,
                },
    {
        let components = path_components(path);
        if self.can_look_up(&components) {
            Some(self.open_stream_for_path(&components, path))
        } else {
            None
        }
    }

    /// Opens the stream that a path leads to, given its components.
    pub fn open_stream_for_path(&mut self, components: &Vec<PathComponent>, path: &str) -> (r:
        Result<Stream<'_, F>, Error>)
        requires
            can_look_up(old(self)@, component_views(components@)),
        ensures
            is_stream_for_path(old(self)@, component_views(components@), path@, r),
            match (r, stream_id(old(self)@, component_views(components@))) {
                (Ok(s), Ok(id)) => {
                    &&& old(self)@.directory[id as int].obj_type == OBJ_TYPE_STREAM
                    &&& s.is_valid()
                    &&& s.total_len == old(self)@.directory[id as int].stream_len
                    &&& s.start_sector == old(self)@.directory[id as int].start_sector
                    &&& s.offset_from_start == 0
                    &&& *s.comp == *old(self)
                    &&& *final(s.comp) == *final(self)
                },
                (Err(Error::NotAStream(p)), Ok(id)) => {
                    &&& old(self)@.directory[id as int].obj_type != OBJ_TYPE_STREAM
                    &&& p@ == path@
                    &&& *final(self) == *old(self)
                },
                (Err(e), Err(expected)) => e == expected && *final(self) == *old(self),
                _ => false,
            },
    {
        let stream_id = self.stream_id_for_path(components)?;
        let dir_entry = &self.directory()[stream_id as usize];
        if dir_entry.obj_type != OBJ_TYPE_STREAM {
            return Err(Error::NotAStream(String::from_str(path)));
        }
        let total_len: u64 = dir_entry.stream_len;
        let start_sector: u32 = dir_entry.start_sector;
        Ok(
            Stream {
                comp: self,
                total_len,
                offset_from_start: 0,
                offset_within_sector: 0,
                start_sector,
                current_sector: start_sector,
            },
        )
    }
}

impl<'a> Stream<'a, Vec<u8>> {
    /// How many bytes a read gives, of those that are wanted.
    pub open spec fn read_len(&self, want: nat) -> nat {
        read_len_at(
            self.comp.underlying()@,
            self.comp@,
            self.start_sector,
            self.total_len,
            self.offset_from_start,
            want,
        )
    }

    /// Reads bytes of the stream into the front of a buffer, and moves behind
    /// them.  Returns how many there are.
    pub fn read(&mut self, buf: &mut [u8]) -> (r: Result<usize, Error>)
        requires
            old(self).is_valid(),
            old(self).can_advance_by(old(self).read_len(old(buf)@.len())),
        ensures
            is_read(
                old(self).comp.underlying()@,
                old(self).comp@,
                old(self).start_sector,
                old(self).total_len,
                old(self).offset_from_start,
                old(buf)@,
                final(buf)@,
                r,
            ),
            r matches Ok(n) && n == old(self).read_len(old(buf)@.len()),
            final(buf)@ == stream_bytes(
                old(self).comp.underlying()@,
                old(self).comp@,
                old(self).start_sector,
                old(self).offset_from_start as nat,
                r->Ok_0 as nat,
            ) + old(buf)@.skip(r->Ok_0 as int),
            final(self).is_valid(),
            final(self).offset_from_start == old(self).offset_from_start + r->Ok_0,
            final(self).total_len == old(self).total_len,
            final(self).start_sector == old(self).start_sector,
            *final(self).comp == *old(self).comp,
            *final(final(self).comp) == *final(old(self).comp),
    {
        let (at, max_len) = self.next_span(buf.len());
        let file_len: usize = self.comp.bytes().len();
        let mut n: usize = max_len;
        if at >= file_len as u64 {
            n = 0;
        } else if file_len as u64 - at < n as u64 {
            n = (file_len as u64 - at) as usize;
        }
        let ghost before = buf@;
        let ghost bytes = stream_bytes(
            self.comp.underlying()@,
            self.comp@,
            self.start_sector,
            self.offset_from_start as nat,
            n as nat,
        );
        assert forall|k: int| 0 <= k < n implies #[trigger] bytes[k]
            == self.comp.underlying()@[at + k] by {
            lemma_step(
                self.offset_from_start as nat,
                k as nat,
                sector_len(self.comp@.version),
            );
        }
        let mut i: usize = 0;
        assert(buf@ =~= bytes.take(0) + before.skip(0));
        while i < n
            invariant
                i <= n <= before.len(),
                buf@ == bytes.take(i as int) + before.skip(i as int),
                bytes.len() == n,
                file_len == self.comp.underlying()@.len(),
                n > 0 ==> at + n <= file_len,
                forall|k: int|
                    0 <= k < n ==> #[trigger] bytes[k] == self.comp.underlying()@[at + k],
            decreases n - i,
        {
            buf[i] = self.comp.bytes()[at as usize + i];
            i += 1;
            assert(buf@ =~= bytes.take(i as int) + before.skip(i as int));
        }
        assert(bytes.take(n as int) =~= bytes);
        self.advance(n);
        Ok(n)
    }
}

} // verus!

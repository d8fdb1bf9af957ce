//! Entries of the directory, and their form in the file.

use vstd::prelude::*;

use crate::bytes::{
    get_u16, get_u32, get_u64, get_u8, u16_at, u16_bytes, u32_at, u32_bytes, u64_at,
    write_u16, write_u32, write_u8, write_zeros, zeros,
};
use crate::constants::{
    DIR_ENTRY_LEN, DIR_NAME_MAX_LEN, MAX_REGULAR_STREAM_ID, NO_STREAM, OBJ_TYPE_UNALLOCATED,
};
use crate::error::Error;
use crate::text::{encode_utf16, from_utf16_lossy, utf16, utf16_lossy};
use crate::version::{stream_len, Version};

verus! {

/// A directory entry, with its name as a sequence of characters.
#[verifier::ext_equal]
pub struct DirEntryView {
    /// The sector that the entry lies in.
    pub sector: u32,
    /// The name of the object.
    pub name: Seq<char>,
    /// What kind of object it is.
    pub obj_type: u8,
    /// The entry at the top of the siblings that come before this one.
    pub left_sibling: u32,
    /// The entry at the top of the siblings that come after this one.
    pub right_sibling: u32,
    /// The entry at the top of the objects within this one.
    pub child: u32,
    /// The first sector of the stream.
    pub start_sector: u32,
    /// The length of the stream.
    pub stream_len: u64,
}

/// A directory entry.
pub struct DirEntry {
    /// The sector that the entry lies in.
    pub sector: u32,
    /// The name of the object.
    pub name: String,
    /// What kind of object it is.
    pub obj_type: u8,
    /// The entry at the top of the siblings that come before this one.
    pub left_sibling: u32,
    /// The entry at the top of the siblings that come after this one.
    pub right_sibling: u32,
    /// The entry at the top of the objects within this one.
    pub child: u32,
    /// The first sector of the stream.
    pub start_sector: u32,
    /// The length of the stream.
    pub stream_len: u64,
}

impl View for DirEntry {
    type V = DirEntryView;

    open spec fn view(&self) -> DirEntryView {
        DirEntryView {
            sector: self.sector,
            name: self.name@,
            obj_type: self.obj_type,
            left_sibling: self.left_sibling,
            right_sibling: self.right_sibling,
            child: self.child,
            start_sector: self.start_sector,
            stream_len: self.stream_len,
        }
    }
}

/// The views of the entries of a directory.
pub open spec fn entry_views(entries: Seq<DirEntry>) -> Seq<DirEntryView> {
    Seq::new(entries.len(), |i: int| entries[i]@)
}

/// The first `n` code units of the name field.
pub open spec fn field_units(s: Seq<u8>, n: nat) -> Seq<u16> {
    Seq::new(n, |i: int| u16_at(s, 2 * i))
}

/// How many code units a name has whose length field holds `len`, which
/// counts bytes and a zero at the end.
pub open spec fn name_unit_count(len: u16) -> nat {
    if len > 0 {
        (len / 2 - 1) as nat
    } else {
        0
    }
}

/// The name that the bytes of an entry give, or what is wrong with it.
pub open spec fn parse_name(s: Seq<u8>) -> Result<Seq<char>, Error> {
    let len = u16_at(s, 64);
    let count = name_unit_count(len);
    if s.len() < 66 {
        Err(Error::UnexpectedEof)
    } else if len > 64 || len % 2 != 0 {
        Err(Error::InvalidNameLength(len))
    } else if u16_at(s, 2 * count as int) != 0 {
        Err(Error::NameNotTerminated)
    } else {
        Ok(utf16_lossy(field_units(s, count)))
    }
}

/// Whether a link of an entry can hold this number.
pub open spec fn is_link(id: u32) -> bool {
    id == NO_STREAM || id <= MAX_REGULAR_STREAM_ID
}

/// The entry that lies at the start of `s`, or what is first found to be wrong
/// with it.
pub open spec fn parse_entry(s: Seq<u8>, sector: u32, version: Version) -> Result<
    DirEntryView,
    Error,
> {
    match parse_name(s) {
        Err(e) => Err(e),
        Ok(name) => if s.len() < 72 {
            Err(Error::UnexpectedEof)
        } else if !is_link(u32_at(s, 68)) {
            Err(Error::InvalidLeftSibling(u32_at(s, 68)))
        } else if s.len() < 76 {
            Err(Error::UnexpectedEof)
        } else if !is_link(u32_at(s, 72)) {
            Err(Error::InvalidRightSibling(u32_at(s, 72)))
        } else if s.len() < 80 {
            Err(Error::UnexpectedEof)
        } else if !is_link(u32_at(s, 76)) {
            Err(Error::InvalidChild(u32_at(s, 76)))
        } else if s.len() < DIR_ENTRY_LEN {
            Err(Error::UnexpectedEof)
        } else {
            Ok(
                DirEntryView {
                    sector,
                    name,
                    obj_type: s[66],
                    left_sibling: u32_at(s, 68),
                    right_sibling: u32_at(s, 72),
                    child: u32_at(s, 76),
                    start_sector: u32_at(s, 116),
                    stream_len: stream_len(version, u64_at(s, 120)),
                },
            )
        },
    }
}

/// A byte of the name field that code units fill up to their number, with
/// zeros behind.
pub open spec fn name_field_byte(units: Seq<u16>, i: int) -> u8 {
    if i / 2 < units.len() {
        u16_bytes(units[i / 2])[i % 2]
    } else {
        0
    }
}

/// The name field.
pub open spec fn name_field(units: Seq<u16>) -> Seq<u8> {
    Seq::new(64, |i: int| name_field_byte(units, i))
}

/// The bytes that are written for a name: the name field, and its length in
/// bytes with the zero at the end.
pub open spec fn name_bytes(name: Seq<char>) -> Seq<u8> {
    name_field(utf16(name)) + u16_bytes((2 * (utf16(name).len() + 1)) as u16)
}

/// The bytes that are written for an entry: its name, its type and its links,
/// with zeros in all other fields.
pub open spec fn entry_bytes(entry: DirEntryView) -> Seq<u8> {
    name_bytes(entry.name) + seq![entry.obj_type] + zeros(1) + u32_bytes(entry.left_sibling)
        + u32_bytes(entry.right_sibling) + u32_bytes(entry.child) + zeros(48)
}

/// The bytes that are written for an entry that is not in use.
pub open spec fn unallocated_bytes() -> Seq<u8> {
    zeros(64) + u16_bytes(0) + seq![OBJ_TYPE_UNALLOCATED] + zeros(61)
}

/// Appends the name field that holds the given code units.
fn write_name_field(units: &Vec<u16>, out: &mut Vec<u8>)
    requires
        units@.len() <= 32,
    ensures
        final(out)@ == old(out)@ + name_field(units@),
{
    let ghost before = out@;
    let ghost field = name_field(units@);
    let mut i: usize = 0;
    assert(out@ =~= before + field.take(0));
    while i < units.len()
        invariant
            i <= units@.len() <= 32,
            field == name_field(units@),
            out@ == before + field.take(2 * i),
        decreases units@.len() - i,
    {
        write_u16(out, units[i]);
        assert(field[2 * i] == u16_bytes(units@[i as int])[0]);
        assert(field[2 * i + 1] == u16_bytes(units@[i as int])[1]);
        i += 1;
        assert(out@ =~= before + field.take(2 * i));
    }
    while i < 32
        invariant
            units@.len() <= i <= 32,
            field == name_field(units@),
            out@ == before + field.take(2 * i),
        decreases 32 - i,
    {
        write_u16(out, 0);
        assert(field[2 * i] == 0);
        assert(field[2 * i + 1] == 0);
        i += 1;
        assert(out@ =~= before + field.take(2 * i));
    }
    assert(field.take(64) =~= field);
}

/// Appends the name field and the length of a name, given its code units.
pub(crate) fn write_name(name: &str, units: &Vec<u16>, out: &mut Vec<u8>)
    requires
        units@ == utf16(name@),
        units@.len() <= DIR_NAME_MAX_LEN,
    ensures
        final(out)@ == old(out)@ + name_bytes(name@),
{
    write_name_field(units, out);
    write_u16(out, (units.len() as u16 + 1) * 2);
    assert(out@ =~= old(out)@ + name_bytes(name@));
}

impl DirEntry {
    /// Reads the name of the entry at the start of `s`.
    fn read_name(s: &[u8]) -> (r: Result<String, Error>)
        ensures
            match (r, parse_name(s@)) {
                (Ok(name), Ok(expected)) => name@ == expected,
                (Err(e), Err(expected)) => e == expected,
                _ => false,
            },
    {
        let mut name_chars: Vec<u16> = Vec::with_capacity(32);
        let mut i: usize = 0;
        while i < 32
            invariant
                i <= 32,
                i > 0 ==> 2 * i <= s@.len(),
                name_chars@ == field_units(s@, i as nat),
            decreases 32 - i,
        {
            name_chars.push(get_u16(s, 2 * i)?);
            i += 1;
            assert(name_chars@ =~= field_units(s@, i as nat));
        }
        let name_len_bytes = get_u16(s, 64)?;
        if name_len_bytes > 64 || name_len_bytes % 2 != 0 {
            return Err(Error::InvalidNameLength(name_len_bytes));
        }
        let name_len_chars: usize = if name_len_bytes > 0 {
            (name_len_bytes / 2 - 1) as usize
        } else {
            0
        };
        if name_chars[name_len_chars] != 0 {
            return Err(Error::NameNotTerminated);
        }
        let units = vstd::slice::slice_subrange(name_chars.as_slice(), 0, name_len_chars);
        assert(units@ =~= field_units(s@, name_len_chars as nat));
        Ok(from_utf16_lossy(units))
    }

    /// Reads the entry at the start of `s`, which lies in the given sector.
    pub fn read(s: &[u8], sector: u32, version: Version) -> (r: Result<DirEntry, Error>)
        ensures
            match (r, parse_entry(s@, sector, version)) {
                (Ok(entry), Ok(expected)) => entry@ == expected,
                (Err(e), Err(expected)) => e == expected,
                _ => false,
            },
    {
        let name = DirEntry::read_name(s)?;
        let obj_type = get_u8(s, 66)?;
        let _color = get_u8(s, 67)?;
        let left_sibling = get_u32(s, 68)?;
        if left_sibling != NO_STREAM && left_sibling > MAX_REGULAR_STREAM_ID {
            return Err(Error::InvalidLeftSibling(left_sibling));
        }
        let right_sibling = get_u32(s, 72)?;
        if right_sibling != NO_STREAM && right_sibling > MAX_REGULAR_STREAM_ID {
            return Err(Error::InvalidRightSibling(right_sibling));
        }
        let child = get_u32(s, 76)?;
        if child != NO_STREAM && child > MAX_REGULAR_STREAM_ID {
            return Err(Error::InvalidChild(child));
        }
        // The class identifier, the state bits and the two times lie between.
        let start_sector = get_u32(s, 116)?;
        let stream_len = get_u64(s, 120)? & version.stream_len_mask();
        Ok(
            DirEntry {
                sector,
                name,
                obj_type,
                left_sibling,
                right_sibling,
                child,
                start_sector,
                stream_len,
            },
        )
    }

    /// Appends the form that this entry has in the file.  Its start sector and
    /// its stream length are written as zeros.
    pub fn write(&self, out: &mut Vec<u8>)
        requires
            utf16(self@.name).len() <= DIR_NAME_MAX_LEN,
        ensures
            final(out)@ == old(out)@ + entry_bytes(self@),
    {
        let name_utf16 = encode_utf16(self.name.as_str());
        write_name(self.name.as_str(), &name_utf16, out);
        write_u8(out, self.obj_type);
        write_zeros(out, 1);  // color
        write_u32(out, self.left_sibling);
        write_u32(out, self.right_sibling);
        write_u32(out, self.child);
        write_zeros(out, 48);  // other fields
        assert(out@ =~= old(out)@ + entry_bytes(self@));
    }

    /// Appends the form of an entry that is not in use.
    pub fn write_unallacated(out: &mut Vec<u8>)
        ensures
            final(out)@ == old(out)@ + unallocated_bytes(),
    {
        write_zeros(out, 64);
        write_u16(out, 0);
        write_u8(out, OBJ_TYPE_UNALLOCATED);
        write_zeros(out, 61);
        assert(out@ =~= old(out)@ + unallocated_bytes());
    }
}

} // verus!

//! Which bytes are written, place by place, and what they change.

use vstd::prelude::*;

use crate::bytes::{u16_bytes, u32_bytes, zeros};
use crate::compound::written;
use crate::constants::ROOT_DIR_NAME;
use crate::create::{
    free_entries, new_dir_sector, new_fat_sector, new_file, new_header, new_header_fields,
    new_root, new_view,
};
use crate::dir_entry::{
    entry_bytes, name_bytes, name_field, name_field_byte, unallocated_bytes, DirEntryView,
};
use crate::directory::has_sibling_named;
use crate::error::Error;
use crate::layout::{entries_per_sector, CompoundView};
use crate::open_laws::{is_magic, le16, le32, place, sector_size};
use crate::storage::{has_invalid_char, is_renamed, name_position, rename_check, renamed};
use crate::text::utf16;
use crate::text_laws::{law_utf16_of_char, law_utf16_together};
use crate::version::{
    sector_len, sector_position, sector_shift, stream_len, version_number, version_of_number,
    Version,
};

verus! {

/// The two bytes of a number.
proof fn lemma_le16(s: Seq<u8>, at: int, n: u16)
    requires
        0 <= at,
        at + 2 <= s.len(),
        s.subrange(at, at + 2) == u16_bytes(n),
    ensures
        le16(s, at) == n,
{
    assert(s[at] == s.subrange(at, at + 2)[0]);
    assert(s[at + 1] == s.subrange(at, at + 2)[1]);
}

/// The four bytes of a number.
proof fn lemma_le32(s: Seq<u8>, at: int, n: u32)
    requires
        0 <= at,
        at + 4 <= s.len(),
        s.subrange(at, at + 4) == u32_bytes(n),
    ensures
        le32(s, at) == n,
{
    assert(s[at] == s.subrange(at, at + 4)[0]);
    assert(s[at + 1] == s.subrange(at, at + 4)[1]);
    assert(s[at + 2] == s.subrange(at, at + 4)[2]);
    assert(s[at + 3] == s.subrange(at, at + 4)[3]);
}

/// Whether a name lies at a place: its code units, zeros up to 32 of them, and
/// its length in bytes with one zero counted.
pub open spec fn is_name_at(s: Seq<u8>, at: int, name: Seq<char>) -> bool {
    let units = utf16(name);
    &&& at + 66 <= s.len()
    &&& forall|i: int| 0 <= i < units.len() ==> le16(s, at + 2 * i) == #[trigger] units[i]
    &&& forall|k: int| at + 2 * units.len() <= k < at + 64 ==> #[trigger] s[k] == 0
    &&& le16(s, at + 64) == 2 * units.len() + 2
}

/// The bytes that are written for a name are the name.
pub proof fn law_name_bytes(name: Seq<char>)
    requires
        utf16(name).len() <= 31,
    ensures
        name_bytes(name).len() == 66,
        is_name_at(name_bytes(name), 0, name),
{
    let units = utf16(name);
    let s = name_bytes(name);
    let len = (2 * (units.len() + 1)) as u16;
    assert forall|k: int| 0 <= k < 64 implies #[trigger] s[k] == name_field_byte(units, k) by {
        assert(s[k] == name_field(units)[k]);
    }
    assert forall|i: int| 0 <= i < units.len() implies le16(s, 0 + 2 * i)
        == #[trigger] units[i] by {
        assert(s[2 * i] == name_field_byte(units, 2 * i));
        assert(s[2 * i + 1] == name_field_byte(units, 2 * i + 1));
        assert(u16_bytes(units[i])[0] == (units[i] % 0x100) as u8);
        assert(u16_bytes(units[i])[1] == (units[i] / 0x100) as u8);
    }
    assert(s.subrange(64, 66) =~= u16_bytes(len));
    lemma_le16(s, 64, len);
}

/// The bytes that are written for an entry are its name, its type and its links,
/// each at its place, and zeros.
pub proof fn law_entry_bytes(entry: DirEntryView)
    requires
        utf16(entry.name).len() <= 31,
    ensures
        ({
            let s = entry_bytes(entry);
            &&& s.len() == 128
            &&& is_name_at(s, 0, entry.name)
            &&& s[66] == entry.obj_type
            &&& s[67] == 0
            &&& le32(s, 68) == entry.left_sibling
            &&& le32(s, 72) == entry.right_sibling
            &&& le32(s, 76) == entry.child
            &&& forall|k: int| 80 <= k < 128 ==> #[trigger] s[k] == 0
        }),
{
    let s = entry_bytes(entry);
    let name = name_bytes(entry.name);
    law_name_bytes(entry.name);
    assert forall|k: int| 0 <= k < 66 implies #[trigger] s[k] == name[k] by {}
    let units = utf16(entry.name);
    assert forall|i: int| 0 <= i < units.len() implies le16(s, 0 + 2 * i)
        == #[trigger] units[i] by {
        assert(le16(name, 0 + 2 * i) == units[i]);
        assert(s[2 * i] == name[2 * i] && s[2 * i + 1] == name[2 * i + 1]);
    }
    assert(s[64] == name[64] && s[65] == name[65]);
    assert(s.subrange(68, 72) =~= u32_bytes(entry.left_sibling));
    lemma_le32(s, 68, entry.left_sibling);
    assert(s.subrange(72, 76) =~= u32_bytes(entry.right_sibling));
    lemma_le32(s, 72, entry.right_sibling);
    assert(s.subrange(76, 80) =~= u32_bytes(entry.child));
    lemma_le32(s, 76, entry.child);
}

/// An entry that is not in use is 128 zeros.
pub proof fn law_unallocated_bytes(k: int)
    ensures
        unallocated_bytes().len() == 128,
        0 <= k < 128 ==> unallocated_bytes()[k] == 0,
{
    assert(unallocated_bytes() =~= zeros(128));
}

/// The code units of the name of a new root.
proof fn lemma_root_units()
    ensures
        utf16(ROOT_DIR_NAME@).len() == 10,
        utf16(ROOT_DIR_NAME@) == seq![82u16, 111, 111, 116, 32, 69, 110, 116, 114, 121],
{
    reveal_strlit("Root Entry");
    let s = ROOT_DIR_NAME@;
    let units = seq![82u16, 111, 111, 116, 32, 69, 110, 116, 114, 121];
    assert(s.len() == 10);
    lemma_units_prefix(s, units, 10);
    assert(s.take(10) =~= s);
    assert(units.take(10) =~= units);
}

/// The code units of characters that are one each.
proof fn lemma_units_prefix(s: Seq<char>, units: Seq<u16>, n: nat)
    requires
        n <= s.len(),
        s.len() == units.len(),
        forall|i: int| 0 <= i < s.len() ==> #[trigger] s[i] as int == units[i],
    ensures
        utf16(s.take(n as int)) == units.take(n as int),
    decreases n,
{
    if n == 0 {
        assert(utf16(s.take(0)) =~= units.take(0));
    } else {
        let k = n - 1;
        lemma_units_prefix(s, units, k as nat);
        assert(s.take(n as int) =~= s.take(k) + seq![s[k]]);
        law_utf16_together(s.take(k), seq![s[k]]);
        law_utf16_of_char(s[k]);
        assert(s[k] as int == units[k]);
        assert(utf16(seq![s[k]]) =~= seq![units[k]]);
        assert(units.take(n as int) =~= units.take(k) + seq![units[k]]);
    }
}

/// The fields of a new header.
#[verifier::spinoff_prover]
#[verifier::rlimit(40)]
proof fn lemma_new_fields(version: Version)
    ensures
        ({
            let s = new_header_fields(version);
            &&& s.len() == 76
            &&& is_magic(s)
            &&& forall|k: int| 8 <= k < 24 ==> #[trigger] s[k] == 0
            &&& le16(s, 24) == 0x3e
            &&& le16(s, 26) == version_number(version)
            &&& le16(s, 28) == 0xfffe
            &&& le16(s, 30) == sector_shift(version)
            &&& le16(s, 32) == 6
            &&& forall|k: int| 34 <= k < 40 ==> #[trigger] s[k] == 0
        }),
{
    let s = new_header_fields(version);
    assert(s.subrange(24, 26) =~= u16_bytes(0x3e));
    lemma_le16(s, 24, 0x3e);
    assert(s.subrange(26, 28) =~= u16_bytes(version_number(version)));
    lemma_le16(s, 26, version_number(version));
    assert(s.subrange(28, 30) =~= u16_bytes(0xfffe));
    lemma_le16(s, 28, 0xfffe);
    assert(s.subrange(30, 32) =~= u16_bytes(sector_shift(version)));
    lemma_le16(s, 30, sector_shift(version));
    assert(s.subrange(32, 34) =~= u16_bytes(6));
    lemma_le16(s, 32, 6);
}

/// The other fields of a new header.
#[verifier::spinoff_prover]
#[verifier::rlimit(40)]
proof fn lemma_new_tables(version: Version)
    ensures
        ({
            let s = new_header_fields(version);
            &&& s.len() == 76
            &&& le32(s, 40) == 1
            &&& le32(s, 44) == 1
            &&& le32(s, 48) == 1
            &&& le32(s, 52) == 0
            &&& le32(s, 56) == 4096
            &&& le32(s, 60) == 0xfffffffe
            &&& le32(s, 64) == 0
            &&& le32(s, 68) == 0xfffffffe
            &&& le32(s, 72) == 0
        }),
{
    let s = new_header_fields(version);
    assert(s.subrange(40, 44) =~= u32_bytes(1));
    lemma_le32(s, 40, 1);
    assert(s.subrange(44, 48) =~= u32_bytes(1));
    lemma_le32(s, 44, 1);
    assert(s.subrange(48, 52) =~= u32_bytes(1));
    lemma_le32(s, 48, 1);
    assert(s.subrange(52, 56) =~= u32_bytes(0));
    lemma_le32(s, 52, 0);
    assert(s.subrange(56, 60) =~= u32_bytes(4096));
    lemma_le32(s, 56, 4096);
    assert(s.subrange(60, 64) =~= u32_bytes(0xfffffffe));
    lemma_le32(s, 60, 0xfffffffe);
    assert(s.subrange(64, 68) =~= u32_bytes(0));
    lemma_le32(s, 64, 0);
    assert(s.subrange(68, 72) =~= u32_bytes(0xfffffffe));
    lemma_le32(s, 68, 0xfffffffe);
    assert(s.subrange(72, 76) =~= u32_bytes(0));
    lemma_le32(s, 72, 0);
}

/// What a version is by its numbers: its number in a file, the logarithm of its
/// sector length, the sector length, and which of the stream length fields it
/// reads.
pub proof fn law_version_values(number: u16, field: u64, sector: u32, offset: nat)
    ensures
        version_of_number(number) == if number == 3 {
            Some(Version::V3)
        } else if number == 4 {
            Some(Version::V4)
        } else {
            None
        },
        version_number(Version::V3) == 3,
        version_number(Version::V4) == 4,
        sector_shift(Version::V3) == 9,
        sector_shift(Version::V4) == 12,
        sector_len(Version::V3) == 512,
        sector_len(Version::V4) == 4096,
        stream_len(Version::V3, field) == field % 0x1_0000_0000,
        stream_len(Version::V4, field) == field,
        sector_position(Version::V3, sector, offset) == 512 + 512 * sector + offset,
        sector_position(Version::V4, sector, offset) == 4096 + 4096 * sector + offset,
{
}

/// What the header of a new file is, place by place.
pub open spec fn is_new_header(file: Seq<u8>, version: Version) -> bool {
    &&& is_magic(file)
    &&& forall|k: int| 8 <= k < 24 ==> #[trigger] file[k] == 0
    &&& le16(file, 24) == 0x3e
    &&& match version {
        Version::V3 => le16(file, 26) == 3 && le16(file, 30) == 9,
        Version::V4 => le16(file, 26) == 4 && le16(file, 30) == 12,
    }
    &&& le16(file, 28) == 0xfffe
    &&& le16(file, 32) == 6
    &&& forall|k: int| 34 <= k < 40 ==> #[trigger] file[k] == 0
    &&& le32(file, 40) == 1
    &&& le32(file, 44) == 1
    &&& le32(file, 48) == 1
    &&& le32(file, 52) == 0
    &&& le32(file, 56) == 4096
    &&& le32(file, 60) == 0xfffffffe
    &&& le32(file, 64) == 0
    &&& le32(file, 68) == 0xfffffffe
    &&& le32(file, 72) == 0
    &&& le32(file, 76) == 0
    &&& forall|k: int| 80 <= k < 512 ==> #[trigger] file[k] == 0xff
    &&& forall|k: int| 512 <= k < sector_size(version) ==> #[trigger] file[k] == 0
}

/// The header of a new file, place by place.
#[verifier::spinoff_prover]
#[verifier::rlimit(30)]
proof fn lemma_new_header_places(version: Version)
    ensures
        new_header(version).len() == sector_size(version),
        is_new_header(new_header(version), version),
{
    let fields = new_header_fields(version);
    let s = new_header(version);
    lemma_new_fields(version);
    lemma_new_tables(version);
    assert(forall|k: int| 0 <= k < 76 ==> #[trigger] s[k] == fields[k]);
    assert(s.subrange(76, 80) =~= u32_bytes(0));
    lemma_le32(s, 76, 0);
    assert(forall|k: int| 80 <= k < 512 ==> #[trigger] s[k] == free_entries(108)[k - 80]);
}

/// Whether the entry at a place is a root that holds nothing and has no siblings.
pub open spec fn is_new_root_at(s: Seq<u8>, at: int) -> bool {
    &&& le16(s, at) == 'R' as int
    &&& le16(s, at + 2) == 'o' as int
    &&& le16(s, at + 4) == 'o' as int
    &&& le16(s, at + 6) == 't' as int
    &&& le16(s, at + 8) == ' ' as int
    &&& le16(s, at + 10) == 'E' as int
    &&& le16(s, at + 12) == 'n' as int
    &&& le16(s, at + 14) == 't' as int
    &&& le16(s, at + 16) == 'r' as int
    &&& le16(s, at + 18) == 'y' as int
    &&& forall|k: int| at + 20 <= k < at + 64 ==> #[trigger] s[k] == 0
    &&& le16(s, at + 64) == 22
    &&& s[at + 66] == 5
    &&& s[at + 67] == 0
    &&& le32(s, at + 68) == 0xffffffff
    &&& le32(s, at + 72) == 0xffffffff
    &&& le32(s, at + 76) == 0xffffffff
    &&& forall|k: int| at + 80 <= k < at + 128 ==> #[trigger] s[k] == 0
}

/// An entry is the same at another place.
proof fn lemma_root_moved(s: Seq<u8>, t: Seq<u8>, at: int)
    requires
        is_new_root_at(t, 0),
        forall|k: int| 0 <= k < 128 ==> s[at + k] == #[trigger] t[k],
    ensures
        is_new_root_at(s, at),
{
    assert forall|k: int| 0 <= k < 127 implies #[trigger] le16(t, k) == le16(s, at + k) by {
        assert(s[at + k] == t[k] && s[at + (k + 1)] == t[k + 1]);
    }
    assert forall|k: int| 0 <= k < 125 implies #[trigger] le32(t, k) == le32(s, at + k) by {
        assert(s[at + k] == t[k] && s[at + (k + 1)] == t[k + 1]);
        assert(s[at + (k + 2)] == t[k + 2] && s[at + (k + 3)] == t[k + 3]);
    }
    assert(le16(t, 0) == le16(s, at + 0));
    assert(le16(t, 2) == le16(s, at + 2));
    assert(le16(t, 4) == le16(s, at + 4));
    assert(le16(t, 6) == le16(s, at + 6));
    assert(le16(t, 8) == le16(s, at + 8));
    assert(le16(t, 10) == le16(s, at + 10));
    assert(le16(t, 12) == le16(s, at + 12));
    assert(le16(t, 14) == le16(s, at + 14));
    assert(le16(t, 16) == le16(s, at + 16));
    assert(le16(t, 18) == le16(s, at + 18));
    assert(le16(t, 64) == le16(s, at + 64));
    assert(le32(t, 68) == le32(s, at + 68));
    assert(le32(t, 72) == le32(s, at + 72));
    assert(le32(t, 76) == le32(s, at + 76));
    assert(s[at + 66] == t[66]);
    assert(s[at + 67] == t[67]);
    assert forall|k: int| at + 20 <= k < at + 64 implies #[trigger] s[k] == 0 by {
        assert(s[at + (k - at)] == t[k - at]);
    }
    assert forall|k: int| at + 80 <= k < at + 128 implies #[trigger] s[k] == 0 by {
        assert(s[at + (k - at)] == t[k - at]);
    }
}

/// A header is the same in front of other bytes.
proof fn lemma_header_kept(s: Seq<u8>, t: Seq<u8>, version: Version)
    requires
        is_new_header(t, version),
        t.len() == sector_size(version),
        s.len() >= t.len(),
        forall|k: int| 0 <= k < t.len() ==> s[k] == #[trigger] t[k],
    ensures
        is_new_header(s, version),
{
    assert forall|k: int| 0 <= k < 511 implies #[trigger] le16(t, k) == le16(s, k) by {
        assert(s[k] == t[k] && s[k + 1] == t[k + 1]);
    }
    assert forall|k: int| 0 <= k < 509 implies #[trigger] le32(t, k) == le32(s, k) by {
        assert(s[k] == t[k] && s[k + 1] == t[k + 1] && s[k + 2] == t[k + 2] && s[k + 3] == t[k
            + 3]);
    }
    assert(s[0] == t[0] && s[1] == t[1] && s[2] == t[2] && s[3] == t[3]);
    assert(s[4] == t[4] && s[5] == t[5] && s[6] == t[6] && s[7] == t[7]);
    assert(le16(t, 24) == le16(s, 24) && le16(t, 26) == le16(s, 26));
    assert(le16(t, 28) == le16(s, 28) && le16(t, 30) == le16(s, 30));
    assert(le16(t, 32) == le16(s, 32));
    assert(le32(t, 40) == le32(s, 40) && le32(t, 44) == le32(s, 44));
    assert(le32(t, 48) == le32(s, 48) && le32(t, 52) == le32(s, 52));
    assert(le32(t, 56) == le32(s, 56) && le32(t, 60) == le32(s, 60));
    assert(le32(t, 64) == le32(s, 64) && le32(t, 68) == le32(s, 68));
    assert(le32(t, 72) == le32(s, 72) && le32(t, 76) == le32(s, 76));
    assert forall|k: int| 0 <= k < t.len() implies #[trigger] s[k] == t[k] by {}
}

/// The bytes of a new file: its header; a sector of the FAT in which sector 0 is
/// one of the FAT, sector 1 is the end of a chain and all others are free; and a
/// sector of the directory with a root that holds nothing and has no siblings,
/// and with zeros behind it.
pub proof fn law_new_file_bytes(version: Version)
    ensures
        ({
            let file = new_file(version);
            let size = sector_size(version);
            &&& file.len() == 3 * size
            &&& is_new_header(file, version)
            &&& le32(file, size) == 0xfffffffd
            &&& le32(file, size + 4) == 0xfffffffe
            &&& forall|k: int| size + 8 <= k < 2 * size ==> #[trigger] file[k] == 0xff
            &&& is_new_root_at(file, 2 * size)
            &&& forall|k: int| 2 * size + 128 <= k < file.len() ==> #[trigger] file[k] == 0
        }),
{
    let size = sector_size(version);
    let header = new_header(version);
    let fat = new_fat_sector(version);
    let dir = new_dir_sector(version);
    let file = new_file(version);
    assert(file == header + fat + dir) by {
        reveal(new_file);
    }
    lemma_new_header_places(version);
    lemma_new_file_fat(version);
    lemma_new_file_root(version);
    lemma_new_file_parts(header, fat, dir, version);
}

/// The parts of a new file, put together.
proof fn lemma_new_file_parts(
    header: Seq<u8>,
    fat: Seq<u8>,
    dir: Seq<u8>,
    version: Version,
)
    requires
        header.len() == sector_size(version),
        fat.len() == sector_size(version),
        dir.len() == sector_size(version),
        is_new_header(header, version),
        le32(fat, 0) == 0xfffffffd,
        le32(fat, 4) == 0xfffffffe,
        forall|k: int| 8 <= k < sector_size(version) ==> #[trigger] fat[k] == 0xff,
        is_new_root_at(dir, 0),
        forall|k: int| 128 <= k < sector_size(version) ==> #[trigger] dir[k] == 0,
    ensures
        ({
            let file = header + fat + dir;
            let size = sector_size(version);
            &&& file.len() == 3 * size
            &&& is_new_header(file, version)
            &&& le32(file, size) == 0xfffffffd
            &&& le32(file, size + 4) == 0xfffffffe
            &&& forall|k: int| size + 8 <= k < 2 * size ==> #[trigger] file[k] == 0xff
            &&& is_new_root_at(file, 2 * size)
            &&& forall|k: int| 2 * size + 128 <= k < file.len() ==> #[trigger] file[k] == 0
        }),
{
    let size = sector_size(version);
    let file = header + fat + dir;
    lemma_header_kept(file, header, version);
    assert forall|k: int| 0 <= k < size implies file[size + k] == #[trigger] fat[k] by {}
    assert(file[size + 0] == fat[0] && file[size + 1] == fat[1]);
    assert(file[size + 2] == fat[2] && file[size + 3] == fat[3]);
    assert(file[size + 4] == fat[4] && file[size + 5] == fat[5]);
    assert(file[size + 6] == fat[6] && file[size + 7] == fat[7]);
    assert forall|k: int| size + 8 <= k < 2 * size implies #[trigger] file[k] == 0xff by {
        assert(file[k] == fat[k - size]);
    }
    assert forall|k: int| 0 <= k < 128 implies file[2 * size + k] == #[trigger] dir[k] by {}
    lemma_root_moved(file, dir, 2 * size);
    assert forall|k: int| 2 * size + 128 <= k < file.len() implies #[trigger] file[k] == 0 by {
        assert(file[k] == dir[k - 2 * size]);
    }
}

/// The FAT sector of a new file, place by place.
proof fn lemma_new_file_fat(version: Version)
    ensures
        new_fat_sector(version).len() == sector_size(version),
        le32(new_fat_sector(version), 0) == 0xfffffffd,
        le32(new_fat_sector(version), 4) == 0xfffffffe,
        forall|k: int|
            8 <= k < sector_size(version) ==> #[trigger] new_fat_sector(version)[k] == 0xff,
{
    let s = new_fat_sector(version);
    assert(s.subrange(0, 4) =~= u32_bytes(0xfffffffd));
    lemma_le32(s, 0, 0xfffffffd);
    assert(s.subrange(4, 8) =~= u32_bytes(0xfffffffe));
    lemma_le32(s, 4, 0xfffffffe);
}

/// The entry of a new root, place by place.
proof fn lemma_new_root_entry(entry: Seq<u8>, units: Seq<u16>)
    requires
        entry.len() == 128,
        units == seq![82u16, 111, 111, 116, 32, 69, 110, 116, 114, 121],
        forall|i: int| 0 <= i < 10 ==> le16(entry, 0 + 2 * i) == #[trigger] units[i],
        forall|k: int| 20 <= k < 64 ==> #[trigger] entry[k] == 0,
        le16(entry, 64) == 22,
        entry[66] == 5,
        entry[67] == 0,
        le32(entry, 68) == 0xffffffff,
        le32(entry, 72) == 0xffffffff,
        le32(entry, 76) == 0xffffffff,
        forall|k: int| 80 <= k < 128 ==> #[trigger] entry[k] == 0,
    ensures
        is_new_root_at(entry, 0),
{
    assert(units[0] == 82 && units[1] == 111 && units[2] == 111 && units[3] == 116);
    assert(units[4] == 32 && units[5] == 69 && units[6] == 110 && units[7] == 116);
    assert(units[8] == 114 && units[9] == 121);
}

/// The directory sector of a new file, place by place.
proof fn lemma_new_file_root(version: Version)
    ensures
        new_dir_sector(version).len() == sector_size(version),
        is_new_root_at(new_dir_sector(version), 0),
        forall|k: int|
            128 <= k < sector_size(version) ==> #[trigger] new_dir_sector(version)[k] == 0,
{
    let s = new_dir_sector(version);
    let entry = entry_bytes(new_root());
    lemma_root_units();
    law_entry_bytes(new_root());
    lemma_new_root_entry(entry, utf16(ROOT_DIR_NAME@));
    assert forall|k: int| 0 <= k < 128 implies s[0 + k] == #[trigger] entry[k] by {}
    lemma_root_moved(s, entry, 0);
    assert forall|k: int| 128 <= k < s.len() implies #[trigger] s[k] == 0 by {}
}

/// What is known of a compound file that was just created: two numbers of the
/// FAT, and a root that holds nothing.
pub proof fn law_new_compound_file(version: Version)
    ensures
        ({
            let v = new_view(version);
            let root = v.directory[0];
            &&& v.version == version
            &&& v.difat.len() == 0
            &&& v.fat.len() == 2
            &&& v.fat[0] == 0xfffffffd
            &&& v.fat[1] == 0xfffffffe
            &&& v.directory.len() == 1
            &&& root.sector == 1
            &&& root.name == "Root Entry"@
            &&& root.obj_type == 5
            &&& root.left_sibling == 0xffffffff
            &&& root.right_sibling == 0xffffffff
            &&& root.child == 0xffffffff
            &&& root.start_sector == 0xfffffffe
            &&& root.stream_len == 0
        }),
{
}

/// Writing changes the bytes at its place and no others; a file that ends before
/// the place is filled up with zeros.
pub proof fn law_written(file: Seq<u8>, at: nat, bytes: Seq<u8>, k: int)
    ensures
        written(file, at, bytes).len() >= file.len(),
        written(file, at, bytes).len() >= at + bytes.len(),
        written(file, at, bytes).len() == file.len() || written(file, at, bytes).len() == at
            + bytes.len(),
        0 <= k < bytes.len() ==> written(file, at, bytes)[at + k] == bytes[k],
        0 <= k < file.len() && (k < at || k >= at + bytes.len()) ==> written(file, at, bytes)[k]
            == file[k],
        file.len() <= k < at ==> written(file, at, bytes)[k] == 0,
{
}

/// The name of an entry lies at the start of its 128 bytes, which come in its
/// sector after those of the entries before it.
pub proof fn law_name_place(v: CompoundView, id: u32)
    ensures
        name_position(v, id) == place(
            v.version,
            v.directory[id as int].sector,
            128 * (id as int % (sector_size(v.version) / 128)),
        ),
{
    let n = entries_per_sector(v.version);
    assert(n == sector_size(v.version) / 128);
    assert(id as nat % n == id as int % (sector_size(v.version) / 128));
}

/// What refuses a new name, in this order: that the entry is the root, that the
/// name has more than 31 code units, that it has a slash, a backslash, a colon or
/// an exclamation mark, and that it is taken.  Nothing else does.
pub proof fn law_rename_refusals(v: CompoundView, id: u32, name: Seq<char>)
    ensures
        ({
            let units = utf16(name).len();
            let wrong = exists|i: int|
                0 <= i < name.len() && (#[trigger] name[i] == '/' || name[i] == '\\' || name[i]
                    == ':' || name[i] == '!');
            let r = rename_check(v, id, name);
            if v.directory[id as int].obj_type == 5 {
                r == Err::<(), Error>(Error::RenameRoot)
            } else if units > 31 {
                r == Err::<(), Error>(Error::NameTooLong(units as usize))
            } else if wrong {
                r == Err::<(), Error>(Error::InvalidName)
            } else if has_sibling_named(v.directory, id, name) {
                r == Err::<(), Error>(Error::NameTaken)
            } else {
                r == Ok::<(), Error>(())
            }
        }),
{
    let wrong = exists|i: int|
        0 <= i < name.len() && (#[trigger] name[i] == '/' || name[i] == '\\' || name[i] == ':'
            || name[i] == '!');
    if wrong {
        let i = choose|i: int|
            0 <= i < name.len() && (#[trigger] name[i] == '/' || name[i] == '\\' || name[i] == ':'
                || name[i] == '!');
        assert(name.contains(name[i]));
    }
    if has_invalid_char(name) {
        let c = if name.contains('/') {
            '/'
        } else if name.contains('\\') {
            '\\'
        } else if name.contains(':') {
            ':'
        } else {
            '!'
        };
        let i = choose|i: int| 0 <= i < name.len() && name[i] == c;
        assert(name[i] == c);
        assert(wrong);
    }
}

/// A name is the same at another place.
proof fn lemma_name_moved(s: Seq<u8>, t: Seq<u8>, at: int, name: Seq<char>)
    requires
        utf16(name).len() <= 31,
        t.len() == 66,
        is_name_at(t, 0, name),
        at + 66 <= s.len(),
        forall|k: int| 0 <= k < 66 ==> s[at + k] == #[trigger] t[k],
    ensures
        is_name_at(s, at, name),
{
    let units = utf16(name);
    assert forall|i: int| 0 <= i < units.len() implies le16(s, at + 2 * i)
        == #[trigger] units[i] by {
        assert(le16(t, 0 + 2 * i) == units[i]);
        assert(s[at + (2 * i)] == t[2 * i] && s[at + (2 * i + 1)] == t[2 * i + 1]);
    }
    assert forall|k: int| at + 2 * units.len() <= k < at + 64 implies #[trigger] s[k] == 0 by {
        assert(s[at + (k - at)] == t[k - at]);
    }
    assert(s[at + 64] == t[64] && s[at + 65] == t[65]);
    assert(le16(s, at + 64) == le16(t, 64));
}

/// Where an entry is given a new name, the file has it at the place of that entry
/// and is the same everywhere else, and it is the name that is known.  Where it is
/// refused nothing changes.
pub proof fn law_rename_result(
    v: CompoundView,
    file: Seq<u8>,
    id: u32,
    name: Seq<char>,
    r: Result<(), Error>,
    after: CompoundView,
    file_after: Seq<u8>,
    k: int,
)
    requires
        id < v.directory.len(),
        is_renamed(v, file, id, name, r, after, file_after),
    ensures
        ({
            let at = place(
                v.version,
                v.directory[id as int].sector,
                128 * (id as int % (sector_size(v.version) / 128)),
            );
            match r {
                Ok(_) => {
                    &&& is_name_at(file_after, at, name)
                    &&& 0 <= k < file.len() && (k < at || k >= at + 66) ==> file_after[k]
                        == file[k]
                    &&& file_after.len() == file.len() || file_after.len() == at + 66
                    &&& after.directory[id as int].name == name
                    &&& after.directory.len() == v.directory.len()
                    &&& 0 <= k < v.directory.len() && k != id ==> after.directory[k]
                        == v.directory[k]
                },
                Err(_) => after == v && file_after == file,
            }
        }),
{
    if r is Ok {
        law_name_place(v, id);
        law_name_bytes(name);
        let at = name_position(v, id);
        let bytes = name_bytes(name);
        assert forall|j: int| 0 <= j < 66 implies file_after[at as int + j]
            == #[trigger] bytes[j] by {
            law_written(file, at, bytes, j);
        }
        law_written(file, at, bytes, k);
        lemma_name_moved(file_after, bytes, at as int, name);
    }
}

/// A new name changes the name of its entry, and nothing else that is known.
pub proof fn law_renamed(v: CompoundView, id: u32, name: Seq<char>, k: int)
    requires
        id < v.directory.len(),
        0 <= k < v.directory.len(),
    ensures
        ({
            let after = renamed(v, id, name);
            let entry = after.directory[k];
            let before = v.directory[k];
            &&& after.version == v.version
            &&& after.difat == v.difat
            &&& after.fat == v.fat
            &&& after.directory.len() == v.directory.len()
            &&& entry.name == if k == id {
                name
            } else {
                before.name
            }
            &&& entry.sector == before.sector
            &&& entry.obj_type == before.obj_type
            &&& entry.left_sibling == before.left_sibling
            &&& entry.right_sibling == before.right_sibling
            &&& entry.child == before.child
            &&& entry.start_sector == before.start_sector
            &&& entry.stream_len == before.stream_len
        }),
{
}

} // verus!

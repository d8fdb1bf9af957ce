//! What holds of files: what is read back of what was written, and how far a
//! chain of sectors can go.

use vstd::prelude::*;

use crate::bytes::{u16_at, u16_bytes, u32_at, u32_bytes, u64_at, window, zeros};
use crate::chain::{ends_within, lemma_ends_within_bound};
use crate::constants::{
    BYTE_ORDER_MARK, DIR_ENTRY_LEN, DIR_NAME_MAX_LEN, END_OF_CHAIN, FAT_SECTOR, FREE_SECTOR,
    HEADER_LEN, MAGIC_NUMBER, OBJ_TYPE_UNALLOCATED, ROOT_DIR_NAME,
};
use crate::create::{
    free_entries, new_dir_sector, new_fat_sector, new_file, new_header, new_header_fields,
    new_root,
};
use crate::dir_entry::{
    entry_bytes, field_units, is_link, name_bytes, name_field, name_field_byte, parse_entry,
    parse_name,
    unallocated_bytes, DirEntryView,
};
use crate::error::Error;
use crate::layout::{
    difat_chain, dir_chain, entries_per_sector, fat_sectors, header_difat, numbers_per_sector,
    open_file, parse_header, sector_entries, sector_numbers, sector_window, trimmed, CompoundView,
    HeaderView, Walk,
};
use crate::text::{law_utf16_round_trip, lemma_utf16_len, utf16};
use crate::version::{sector_len, sector_position, sector_shift, version_number, Version};

verus! {

/// What is read of an entry that is not in use.
pub open spec fn unused_entry(sector: u32) -> DirEntryView {
    DirEntryView {
        sector,
        name: Seq::empty(),
        obj_type: OBJ_TYPE_UNALLOCATED,
        left_sibling: 0,
        right_sibling: 0,
        child: 0,
        start_sector: 0,
        stream_len: 0,
    }
}

/// The code units in a name field are those that it was made of.
proof fn lemma_name_field(units: Seq<u16>, s: Seq<u8>)
    requires
        units.len() < 32,
        s.len() >= 64,
        s.take(64) == name_field(units),
    ensures
        field_units(s, units.len()) == units,
        u16_at(s, 2 * units.len() as int) == 0,
{
    assert forall|i: int| 0 <= i < 64 implies s[i] == #[trigger] name_field_byte(units, i) by {
        assert(s.take(64)[i] == s[i]);
    }
    assert forall|i: int| 0 <= i < units.len() implies u16_at(s, 2 * i) == units[i] by {
        assert(s[2 * i] == name_field_byte(units, 2 * i));
        assert(s[2 * i + 1] == name_field_byte(units, 2 * i + 1));
        assert(u16_bytes(units[i])[0] == (units[i] % 0x100) as u8);
        assert(u16_bytes(units[i])[1] == (units[i] / 0x100) as u8);
    }
    assert(field_units(s, units.len()) =~= units);
    let n = units.len() as int;
    assert(s[2 * n] == name_field_byte(units, 2 * n));
    assert(s[2 * n + 1] == name_field_byte(units, 2 * n + 1));
}

/// Where the parts of an entry lie.
proof fn lemma_entry_parts(
    name: Seq<u8>,
    obj_type: u8,
    left: Seq<u8>,
    right: Seq<u8>,
    child: Seq<u8>,
    s: Seq<u8>,
)
    requires
        name.len() == 66,
        left.len() == 4,
        right.len() == 4,
        child.len() == 4,
        s.len() >= 128,
        s.take(128) == name + seq![obj_type] + zeros(1) + left + right + child + zeros(48),
    ensures
        s.take(66) == name,
        s[66] == obj_type,
        s.subrange(68, 72) == left,
        s.subrange(72, 76) == right,
        s.subrange(76, 80) == child,
        forall|i: int| 80 <= i < 128 ==> #[trigger] s[i] == 0,
{
    let t = s.take(128);
    assert(s[66] == t[66]);
    assert(s.take(66) =~= t.take(66));
    assert(t.take(66) =~= name);
    assert(s.subrange(68, 72) =~= t.subrange(68, 72));
    assert(t.subrange(68, 72) =~= left);
    assert(s.subrange(72, 76) =~= t.subrange(72, 76));
    assert(t.subrange(72, 76) =~= right);
    assert(s.subrange(76, 80) =~= t.subrange(76, 80));
    assert(t.subrange(76, 80) =~= child);
    assert forall|i: int| 80 <= i < 128 implies #[trigger] s[i] == 0 by {
        assert(s[i] == t[i]);
    }
}

/// The name whose bytes lie at the start.
pub(crate) proof fn lemma_name_at(s: Seq<u8>, name: Seq<char>)
    requires
        utf16(name).len() <= DIR_NAME_MAX_LEN,
        s.len() >= 66,
        s.take(66) == name_bytes(name),
    ensures
        parse_name(s) == Ok::<_, Error>(name),
{
    let units = utf16(name);
    let len = (2 * (units.len() + 1)) as u16;
    assert(s.take(64) =~= s.take(66).take(64));
    assert(name_bytes(name).take(64) =~= name_field(units));
    lemma_name_field(units, s);
    assert(s.subrange(64, 66) =~= s.take(66).subrange(64, 66));
    assert(name_bytes(name).subrange(64, 66) =~= u16_bytes(len));
    lemma_u16_at(s, 64, len);
    law_utf16_round_trip(name);
}

/// An entry that was written is read back with its name, its type and its links.
/// Its start sector and its stream length are read as zeros, which is how they
/// are written.
pub proof fn law_entry_round_trip(entry: DirEntryView, version: Version, after: Seq<u8>)
    requires
        utf16(entry.name).len() <= DIR_NAME_MAX_LEN,
        is_link(entry.left_sibling),
        is_link(entry.right_sibling),
        is_link(entry.child),
    ensures
        entry_bytes(entry).len() == DIR_ENTRY_LEN,
        parse_entry(entry_bytes(entry) + after, entry.sector, version) == Ok::<_, Error>(
            DirEntryView { start_sector: 0, stream_len: 0, ..entry },
        ),
{
    let s = entry_bytes(entry) + after;
    assert(s.take(128) =~= entry_bytes(entry));
    lemma_entry_parts(
        name_bytes(entry.name),
        entry.obj_type,
        u32_bytes(entry.left_sibling),
        u32_bytes(entry.right_sibling),
        u32_bytes(entry.child),
        s,
    );
    lemma_name_at(s, entry.name);
    lemma_u32_at(s, 68, entry.left_sibling);
    lemma_u32_at(s, 72, entry.right_sibling);
    lemma_u32_at(s, 76, entry.child);
    assert(u32_at(s, 116) == 0);
    assert(u64_at(s, 120) == 0);
}

/// An entry that was written as not in use is read back without a name.
pub proof fn law_unallocated_round_trip(sector: u32, version: Version, after: Seq<u8>)
    ensures
        unallocated_bytes().len() == DIR_ENTRY_LEN,
        parse_entry(unallocated_bytes() + after, sector, version) == Ok::<_, Error>(
            unused_entry(sector),
        ),
{
    let s = unallocated_bytes() + after;
    assert(unallocated_bytes() =~= zeros(128));
    assert forall|i: int| 0 <= i < 128 implies s[i] == 0 by {
        assert(s[i] == zeros(128)[i]);
    }
    assert(field_units(s, 0) =~= Seq::empty());
    assert(u32_at(s, 68) == 0 && u32_at(s, 72) == 0 && u32_at(s, 76) == 0);
    assert(u32_at(s, 116) == 0 && u64_at(s, 120) == 0);
}

/// The number whose bytes lie at a place.
proof fn lemma_u16_at(s: Seq<u8>, at: int, n: u16)
    requires
        0 <= at,
        at + 2 <= s.len(),
        s.subrange(at, at + 2) == u16_bytes(n),
    ensures
        u16_at(s, at) == n,
{
    assert(s[at] == s.subrange(at, at + 2)[0]);
    assert(s[at + 1] == s.subrange(at, at + 2)[1]);
}

/// The number whose bytes lie at a place.
proof fn lemma_u32_at(s: Seq<u8>, at: int, n: u32)
    requires
        0 <= at,
        at + 4 <= s.len(),
        s.subrange(at, at + 4) == u32_bytes(n),
    ensures
        u32_at(s, at) == n,
{
    assert(s[at] == s.subrange(at, at + 4)[0]);
    assert(s[at + 1] == s.subrange(at, at + 4)[1]);
    assert(s[at + 2] == s.subrange(at, at + 4)[2]);
    assert(s[at + 3] == s.subrange(at, at + 4)[3]);
}

/// The parts of a new file are a sector long each.
proof fn lemma_new_parts_len(version: Version)
    ensures
        new_header_fields(version).len() == 76,
        new_header(version).len() == sector_len(version),
        new_fat_sector(version).len() == sector_len(version),
        new_dir_sector(version).len() == sector_len(version),
{
}

/// A new file is three sectors long: header, FAT and directory.
pub proof fn law_new_file_len(version: Version)
    ensures
        new_file(version).len() == 3 * sector_len(version),
{
    reveal(new_file);
    lemma_new_parts_len(version);
}

/// The DIFAT entries in the header of a new file.
proof fn lemma_new_header_difat(version: Version, s: Seq<u8>)
    requires
        s.len() == HEADER_LEN,
        forall|i: int| 76 <= i < 84 ==> #[trigger] s[i] == new_header(version)[i],
    ensures
        header_difat(s, 0) == Ok::<_, Error>(seq![0u32]),
{
    lemma_new_parts_len(version);
    assert(s.subrange(76, 80) =~= u32_bytes(0));
    lemma_u32_at(s, 76, 0);
    assert(s.subrange(80, 84) =~= u32_bytes(FREE_SECTOR));
    lemma_u32_at(s, 80, FREE_SECTOR);
    assert(header_difat(s, 1) == Ok::<_, Error>(Seq::<u32>::empty()));
    assert(header_difat(s, 0) == Ok::<_, Error>(seq![0u32] + Seq::<u32>::empty()));
    assert(seq![0u32] + Seq::<u32>::empty() =~= seq![0u32]);
}

/// The fields in the header of a new file.
#[verifier::spinoff_prover]
#[verifier::rlimit(30)]
proof fn lemma_new_header_fields(version: Version, s: Seq<u8>)
    requires
        s.len() == HEADER_LEN,
        s.take(76) == new_header_fields(version),
    ensures
        s.take(8) == MAGIC_NUMBER@,
        u16_at(s, 26) == version_number(version),
        u16_at(s, 28) == BYTE_ORDER_MARK,
        u16_at(s, 30) == sector_shift(version),
        u32_at(s, 48) == 1,
        u32_at(s, 68) == END_OF_CHAIN,
        u32_at(s, 72) == 0,
{
    let fields = new_header_fields(version);
    lemma_new_parts_len(version);
    assert forall|i: int| 0 <= i < 76 implies #[trigger] s[i] == fields[i] by {
        assert(s.take(76)[i] == s[i]);
    }
    assert(s.take(8) =~= MAGIC_NUMBER@);
    assert(s.subrange(26, 28) =~= u16_bytes(version_number(version)));
    lemma_u16_at(s, 26, version_number(version));
    assert(s.subrange(28, 30) =~= u16_bytes(BYTE_ORDER_MARK));
    lemma_u16_at(s, 28, BYTE_ORDER_MARK);
    assert(s.subrange(30, 32) =~= u16_bytes(sector_shift(version)));
    lemma_u16_at(s, 30, sector_shift(version));
    assert(s.subrange(48, 52) =~= u32_bytes(1));
    lemma_u32_at(s, 48, 1);
    assert(s.subrange(68, 72) =~= u32_bytes(END_OF_CHAIN));
    lemma_u32_at(s, 68, END_OF_CHAIN);
    assert(s.subrange(72, 76) =~= u32_bytes(0));
    lemma_u32_at(s, 72, 0);
}

/// What the header of a new file says.
proof fn lemma_new_header(version: Version)
    ensures
        parse_header(window(new_file(version), 0, HEADER_LEN as nat)) == Ok::<_, Error>(
            HeaderView {
                version,
                first_dir_sector: 1,
                first_difat_sector: END_OF_CHAIN,
                num_difat_sectors: 0,
                difat: seq![0u32],
            },
        ),
{
    reveal(new_file);
    lemma_new_parts_len(version);
    let s = window(new_file(version), 0, HEADER_LEN as nat);
    assert(s =~= new_header(version).take(HEADER_LEN as int));
    assert(s.take(76) =~= new_header_fields(version));
    lemma_new_header_fields(version, s);
    lemma_new_header_difat(version, s);
}

/// Free entries behind one that is not free are taken off.
proof fn lemma_trimmed(fat: Seq<u32>, n: nat)
    requires
        fat.len() > 0,
        fat.last() != FREE_SECTOR,
    ensures
        trimmed(fat + Seq::new(n, |i: int| FREE_SECTOR)) == fat,
    decreases n,
{
    let free = Seq::new(n, |i: int| FREE_SECTOR);
    if n == 0 {
        assert(fat + free =~= fat);
    } else {
        lemma_trimmed(fat, (n - 1) as nat);
        assert((fat + free).drop_last() =~= fat + Seq::new((n - 1) as nat, |i: int| FREE_SECTOR));
    }
}

/// What the FAT of a new file is.
proof fn lemma_new_fat(version: Version)
    ensures
        fat_sectors(new_file(version), version, seq![0u32], 0) is Ok,
        trimmed(fat_sectors(new_file(version), version, seq![0u32], 0)->Ok_0) == seq![
            FAT_SECTOR,
            END_OF_CHAIN,
        ],
{
    reveal(new_file);
    lemma_new_parts_len(version);
    let file = new_file(version);
    let s = sector_window(file, version, 0);
    let n = numbers_per_sector(version);
    assert(sector_position(version, 0, 0) == sector_len(version));
    assert(s =~= new_fat_sector(version));
    assert(s.subrange(0, 4) =~= u32_bytes(FAT_SECTOR));
    lemma_u32_at(s, 0, FAT_SECTOR);
    assert(s.subrange(4, 8) =~= u32_bytes(END_OF_CHAIN));
    lemma_u32_at(s, 4, END_OF_CHAIN);
    assert forall|i: int| 2 <= i < n implies #[trigger] sector_numbers(s, n)[i] == FREE_SECTOR by {
        assert(forall|k: int|
            8 <= k < 4 * n ==> #[trigger] s[k] == free_entries((n - 2) as nat)[k - 8]);
    }
    let used = seq![FAT_SECTOR, END_OF_CHAIN];
    let free = Seq::new((n - 2) as nat, |i: int| FREE_SECTOR);
    assert(sector_numbers(s, n) =~= used + free);
    assert(fat_sectors(file, version, seq![0u32], 1) == Ok::<_, Error>(
        Seq::<u32>::empty(),
    ));
    assert(sector_numbers(s, n) + Seq::<u32>::empty() =~= used + free);
    lemma_trimmed(used, (n - 2) as nat);
}

/// The entries of a sector from one on behind which it holds zeros only.
proof fn lemma_unused_entries(s: Seq<u8>, sector: u32, version: Version, i: nat)
    requires
        s.len() == sector_len(version),
        i <= entries_per_sector(version),
        forall|k: int| DIR_ENTRY_LEN * i <= k < s.len() ==> #[trigger] s[k] == 0,
    ensures
        sector_entries(s, sector, version, i) == Ok::<_, Error>(
            Seq::new(
                (entries_per_sector(version) - i) as nat,
                |k: int| unused_entry(sector),
            ),
        ),
    decreases entries_per_sector(version) - i,
{
    let unused = unused_entry(sector);
    if i < entries_per_sector(version) {
        let rest = Seq::new((entries_per_sector(version) - i - 1) as nat, |k: int| unused);
        lemma_unused_entries(s, sector, version, i + 1);
        let piece = window(s, DIR_ENTRY_LEN as nat * i, DIR_ENTRY_LEN as nat);
        law_unallocated_round_trip(sector, version, Seq::empty());
        assert(unallocated_bytes() =~= zeros(128));
        assert(piece =~= unallocated_bytes() + Seq::empty());
        assert(seq![unused] + rest =~= Seq::new(
            (entries_per_sector(version) - i) as nat,
            |k: int| unused,
        ));
    } else {
        assert(Seq::new(0, |k: int| unused) =~= Seq::empty());
    }
}

/// The root that a new file is opened to.  Its start sector is read as zero.
pub open spec fn reopened_root() -> DirEntryView {
    DirEntryView { start_sector: 0, ..new_root() }
}

/// What a new file is opened to: the root, and the entries of its sector that
/// are not in use.
pub open spec fn reopened_view(version: Version) -> CompoundView {
    CompoundView {
        version,
        difat: seq![0u32],
        fat: seq![FAT_SECTOR, END_OF_CHAIN],
        directory: seq![reopened_root()] + Seq::new(
            (entries_per_sector(version) - 1) as nat,
            |k: int| unused_entry(1),
        ),
    }
}

/// The entries in the directory sector of a new file.
proof fn lemma_new_entries(version: Version)
    ensures
        sector_entries(new_dir_sector(version), 1, version, 0) == Ok::<_, Error>(
            reopened_view(version).directory,
        ),
{
    let s = new_dir_sector(version);
    let root = entry_bytes(new_root());
    reveal_strlit("Root Entry");
    lemma_utf16_len(ROOT_DIR_NAME@);
    law_entry_round_trip(new_root(), version, Seq::empty());
    assert(window(s, 0, DIR_ENTRY_LEN as nat) =~= root + Seq::empty());
    assert forall|k: int| 128 <= k < s.len() implies #[trigger] s[k] == 0 by {}
    lemma_unused_entries(s, 1, version, 1);
}

/// The directory of a new file.
proof fn lemma_new_directory(version: Version)
    ensures
        dir_chain(new_file(version), version, seq![FAT_SECTOR, END_OF_CHAIN], 1, 2) == Walk::Done(
            reopened_view(version).directory,
        ),
{
    reveal(new_file);
    let file = new_file(version);
    let fat = seq![FAT_SECTOR, END_OF_CHAIN];
    let entries = reopened_view(version).directory;
    lemma_new_parts_len(version);
    lemma_new_entries(version);
    assert(sector_position(version, 1, 0) == 2 * sector_len(version));
    assert(sector_window(file, version, 1) =~= new_dir_sector(version));
    assert(dir_chain(file, version, fat, END_OF_CHAIN, 1) == Walk::Done(
        Seq::<DirEntryView>::empty(),
    ));
    assert(entries + Seq::<DirEntryView>::empty() =~= entries);
}

/// What a file is opened to whose DIFAT lies in the header.
proof fn lemma_open_file(
    file: Seq<u8>,
    header: HeaderView,
    fat: Seq<u32>,
    directory: Seq<DirEntryView>,
)
    requires
        parse_header(window(file, 0, HEADER_LEN as nat)) == Ok::<_, Error>(header),
        header.first_difat_sector == END_OF_CHAIN,
        header.num_difat_sectors == 0,
        fat_sectors(file, header.version, header.difat, 0) is Ok,
        trimmed(fat_sectors(file, header.version, header.difat, 0)->Ok_0) == fat,
        dir_chain(file, header.version, fat, header.first_dir_sector, fat.len()) == Walk::Done(
            directory,
        ),
    ensures
        open_file(file) == Walk::Done(
            CompoundView { version: header.version, difat: header.difat, fat, directory },
        ),
{
    assert(header.difat + Seq::<u32>::empty() =~= header.difat);
}

/// A new file can be opened: with its version, its FAT, and the root that it was
/// made with, but for the start sector.
pub proof fn law_new_file_opens(version: Version)
    ensures
        open_file(new_file(version)) == Walk::Done(reopened_view(version)),
{
    lemma_new_header(version);
    lemma_new_fat(version);
    lemma_new_directory(version);
    let header = HeaderView {
        version,
        first_dir_sector: 1,
        first_difat_sector: END_OF_CHAIN,
        num_difat_sectors: 0,
        difat: seq![0u32],
    };
    let fat = seq![FAT_SECTOR, END_OF_CHAIN];
    assert(fat.len() == 2);
    lemma_open_file(new_file(version), header, fat, reopened_view(version).directory);
}

/// Where the chain of the DIFAT goes from a sector.
spec fn difat_step(file: Seq<u8>, version: Version) -> spec_fn(u32) -> Option<u32> {
    |sector: u32|
        {
            let s = sector_window(file, version, sector);
            if sector == END_OF_CHAIN || s.len() < sector_len(version) {
                None
            } else {
                Some(u32_at(s, 4 * (numbers_per_sector(version) - 1)))
            }
        }
}

/// A chain of the DIFAT that ends follows a chain that ends.
proof fn lemma_difat_ends(file: Seq<u8>, version: Version, sector: u32, n: nat)
    requires
        !(difat_chain(file, version, sector, n) is Stuck),
    ensures
        ends_within(difat_step(file, version), sector, n),
    decreases n,
{
    if let Some(next) = difat_step(file, version)(sector) {
        lemma_difat_ends(file, version, next, (n - 1) as nat);
    }
}

/// A chain of the DIFAT that ends with some fuel ends with any fuel that the
/// chain it follows ends within.
proof fn lemma_ends_difat(file: Seq<u8>, version: Version, sector: u32, n: nat, m: nat)
    requires
        !(difat_chain(file, version, sector, n) is Stuck),
        ends_within(difat_step(file, version), sector, m),
    ensures
        difat_chain(file, version, sector, m) == difat_chain(file, version, sector, n),
    decreases n,
{
    if let Some(next) = difat_step(file, version)(sector) {
        lemma_ends_difat(file, version, next, (n - 1) as nat, (m - 1) as nat);
    }
}

/// A chain of the DIFAT that ends at all ends after no more sectors than the
/// file has bytes, and in the same way.
pub proof fn law_difat_fuel(file: Seq<u8>, version: Version, sector: u32, n: nat)
    requires
        !(difat_chain(file, version, sector, n) is Stuck),
    ensures
        difat_chain(file, version, sector, file.len()) == difat_chain(file, version, sector, n),
{
    lemma_difat_ends(file, version, sector, n);
    let step = difat_step(file, version);
    assert forall|x: u32| #[trigger] step(x) is Some implies x < file.len() by {
        assert(sector_position(version, x, 0) >= x as nat) by (nonlinear_arith)
            requires
                sector_position(version, x, 0) == sector_len(version) * (1 + x as nat),
                sector_len(version) >= 1,
        ;
    }
    lemma_ends_within_bound(step, sector, n, file.len());
    lemma_ends_difat(file, version, sector, n, file.len());
}

/// Where the chain of the directory goes from a sector.
spec fn dir_step(file: Seq<u8>, version: Version, fat: Seq<u32>) -> spec_fn(u32) -> Option<u32> {
    |sector: u32|
        {
            let s = sector_window(file, version, sector);
            if sector == END_OF_CHAIN || sector_entries(s, sector, version, 0) is Err || sector
                >= fat.len() {
                None
            } else {
                Some(fat[sector as int])
            }
        }
}

/// A chain of the directory that ends follows a chain that ends.
proof fn lemma_dir_ends(file: Seq<u8>, version: Version, fat: Seq<u32>, sector: u32, n: nat)
    requires
        !(dir_chain(file, version, fat, sector, n) is Stuck),
    ensures
        ends_within(dir_step(file, version, fat), sector, n),
    decreases n,
{
    if let Some(next) = dir_step(file, version, fat)(sector) {
        lemma_dir_ends(file, version, fat, next, (n - 1) as nat);
    }
}

/// A chain of the directory that ends with some fuel ends with any fuel that
/// the chain it follows ends within.
proof fn lemma_ends_dir(
    file: Seq<u8>,
    version: Version,
    fat: Seq<u32>,
    sector: u32,
    n: nat,
    m: nat,
)
    requires
        !(dir_chain(file, version, fat, sector, n) is Stuck),
        ends_within(dir_step(file, version, fat), sector, m),
    ensures
        dir_chain(file, version, fat, sector, m) == dir_chain(file, version, fat, sector, n),
    decreases n,
{
    if let Some(next) = dir_step(file, version, fat)(sector) {
        lemma_ends_dir(file, version, fat, next, (n - 1) as nat, (m - 1) as nat);
    }
}

/// A chain of the directory that ends at all ends after no more sectors than
/// the FAT has entries, and in the same way.
pub proof fn law_directory_fuel(
    file: Seq<u8>,
    version: Version,
    fat: Seq<u32>,
    sector: u32,
    n: nat,
)
    requires
        !(dir_chain(file, version, fat, sector, n) is Stuck),
    ensures
        dir_chain(file, version, fat, sector, fat.len()) == dir_chain(
            file,
            version,
            fat,
            sector,
            n,
        ),
{
    lemma_dir_ends(file, version, fat, sector, n);
    lemma_ends_within_bound(dir_step(file, version, fat), sector, n, fat.len());
    lemma_ends_dir(file, version, fat, sector, n, fat.len());
}

} // verus!

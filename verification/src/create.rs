//! New compound files.

use vstd::prelude::*;
use vstd::string::StringExecFns;

use crate::bytes::{u16_bytes, u32_bytes, write_u16, write_u32, write_zeros, zeros};
use crate::compound::CompoundFile;
use crate::constants::{
    BYTE_ORDER_MARK, DIR_ENTRY_LEN, END_OF_CHAIN, FAT_SECTOR, FREE_SECTOR, HEADER_DIFAT_LEN,
    HEADER_LEN, MAGIC_NUMBER, MINI_SECTOR_SHIFT, MINI_STREAM_MAX_LEN, MINOR_VERSION, NO_STREAM,
    OBJ_TYPE_ROOT, ROOT_DIR_NAME,
};
use crate::dir_entry::{entry_bytes, entry_views, unallocated_bytes, DirEntry, DirEntryView};
use crate::error::Error;
use crate::layout::CompoundView;
use crate::text::lemma_utf16_len;
use crate::version::{sector_len, sector_shift, version_number, Version};

verus! {

/// So many entries of a table that are free: all their bytes are `0xff`.
pub open spec fn free_entries(n: nat) -> Seq<u8> {
    Seq::new(4 * n, |i: int| 0xffu8)
}

/// The header of a new file, up to the DIFAT.
pub open spec fn new_header_fields(version: Version) -> Seq<u8> {
    MAGIC_NUMBER@ + zeros(16) + u16_bytes(MINOR_VERSION) + u16_bytes(version_number(version))
        + u16_bytes(BYTE_ORDER_MARK) + u16_bytes(sector_shift(version)) + u16_bytes(
        MINI_SECTOR_SHIFT,
    ) + zeros(6)
    // One sector of the directory, one of the FAT; the directory is in sector 1.
     + u32_bytes(1) + u32_bytes(1) + u32_bytes(1)
    // No transaction; no mini FAT; no DIFAT but what the header holds.
     + u32_bytes(0) + u32_bytes(MINI_STREAM_MAX_LEN) + u32_bytes(END_OF_CHAIN) + u32_bytes(0)
        + u32_bytes(END_OF_CHAIN) + u32_bytes(0)
}

/// The header of a new file, filled up to the length of a sector.  The FAT is
/// in sector 0.
pub open spec fn new_header(version: Version) -> Seq<u8> {
    new_header_fields(version) + u32_bytes(0) + free_entries((HEADER_DIFAT_LEN - 1) as nat) + zeros(
        (sector_len(version) - HEADER_LEN) as nat,
    )
}

/// The FAT sector of a new file: the FAT is in sector 0, and the chain of the
/// directory has no sector but 1.
pub open spec fn new_fat_sector(version: Version) -> Seq<u8> {
    u32_bytes(FAT_SECTOR) + u32_bytes(END_OF_CHAIN) + free_entries(
        (sector_len(version) / 4 - 2) as nat,
    )
}

/// The directory sector of a new file: the root, and entries that are not in
/// use, which are all zeros.
pub open spec fn new_dir_sector(version: Version) -> Seq<u8> {
    entry_bytes(new_root()) + zeros((sector_len(version) - DIR_ENTRY_LEN) as nat)
}

/// A new file.
#[verifier::opaque]
pub open spec fn new_file(version: Version) -> Seq<u8> {
    new_header(version) + new_fat_sector(version) + new_dir_sector(version)
}

/// The root entry of a new file.
pub open spec fn new_root() -> DirEntryView {
    DirEntryView {
        sector: 1,
        name: ROOT_DIR_NAME@,
        obj_type: OBJ_TYPE_ROOT,
        left_sibling: NO_STREAM,
        right_sibling: NO_STREAM,
        child: NO_STREAM,
        start_sector: END_OF_CHAIN,
        stream_len: 0,
    }
}

/// What is known of a new file.
pub open spec fn new_view(version: Version) -> CompoundView {
    CompoundView {
        version,
        difat: Seq::empty(),
        fat: seq![FAT_SECTOR, END_OF_CHAIN],
        directory: seq![new_root()],
    }
}

/// Appends so many free entries of a table.
fn write_free(out: &mut Vec<u8>, n: usize)
    ensures
        final(out)@ == old(out)@ + free_entries(n as nat),
{
    let mut i: usize = 0;
    while i < n
        invariant
            i <= n,
            out@ == old(out)@ + free_entries(i as nat),
        decreases n - i,
    {
        write_u32(out, FREE_SECTOR);
        i += 1;
        assert(out@ =~= old(out)@ + free_entries(i as nat));
    }
}

/// The root entry of a new file.
fn root_dir_entry() -> (r: DirEntry)
    ensures
        r@ == new_root(),
{
    DirEntry {
        sector: 1,
        name: String::from_str(ROOT_DIR_NAME),
        obj_type: OBJ_TYPE_ROOT,
        left_sibling: NO_STREAM,
        right_sibling: NO_STREAM,
        child: NO_STREAM,
        start_sector: END_OF_CHAIN,
        stream_len: 0,
    }
}

/// Appends the header of a new file.
fn write_header(out: &mut Vec<u8>, version: Version)
    ensures
        final(out)@ == old(out)@ + new_header(version),
{
    let ghost before = out@;
    let mut i: usize = 0;
    while i < 8
        invariant
            i <= 8,
            out@ == before + MAGIC_NUMBER@.take(i as int),
        decreases 8 - i,
    {
        out.push(MAGIC_NUMBER[i]);
        i += 1;
        assert(out@ =~= before + MAGIC_NUMBER@.take(i as int));
    }
    assert(MAGIC_NUMBER@.take(8) =~= MAGIC_NUMBER@);
    write_zeros(out, 16);  // reserved field
    write_u16(out, MINOR_VERSION);
    write_u16(out, version.number());
    write_u16(out, BYTE_ORDER_MARK);
    write_u16(out, version.sector_shift());
    write_u16(out, MINI_SECTOR_SHIFT);
    write_zeros(out, 6);  // reserved field
    write_u32(out, 1);  // num dir sectors
    write_u32(out, 1);  // num FAT sectors
    write_u32(out, 1);  // first dir sector
    write_u32(out, 0);  // transaction signature (unused)
    write_u32(out, MINI_STREAM_MAX_LEN);
    write_u32(out, END_OF_CHAIN);  // first MiniFAT sector
    write_u32(out, 0);  // num MiniFAT sectors
    write_u32(out, END_OF_CHAIN);  // first DIFAT sector
    write_u32(out, 0);  // num DIFAT sectors
    assert(out@ =~= before + new_header_fields(version));
    // First DIFAT entries:
    write_u32(out, 0);
    write_free(out, HEADER_DIFAT_LEN - 1);
    // Pad the header with zeroes so it's the length of a sector.
    write_zeros(out, version.sector_len() - HEADER_LEN);
    assert(out@ =~= before + new_header(version));
}

/// Appends the directory sector of a new file.
fn write_directory(out: &mut Vec<u8>, version: Version)
    ensures
        final(out)@ == old(out)@ + new_dir_sector(version),
{
    let ghost before = out@;
    let ghost root = entry_bytes(new_root());
    proof {
        reveal_strlit("Root Entry");
        lemma_utf16_len(ROOT_DIR_NAME@);
    }
    root_dir_entry().write(out);
    let n: usize = version.sector_len() / DIR_ENTRY_LEN;
    let mut i: usize = 1;
    assert(out@ =~= before + root + zeros(0));
    while i < n
        invariant
            1 <= i <= n,
            out@ == before + root + zeros((DIR_ENTRY_LEN * (i - 1)) as nat),
        decreases n - i,
    {
        DirEntry::write_unallacated(out);
        assert(unallocated_bytes() =~= zeros(128));
        i += 1;
        assert(out@ =~= before + root + zeros((DIR_ENTRY_LEN * (i - 1)) as nat));
    }
    assert(out@ =~= before + new_dir_sector(version));
}

/// Appends a new file.
pub fn write_new_file(out: &mut Vec<u8>, version: Version)
    ensures
        final(out)@ == old(out)@ + new_file(version),
{
    let ghost before = out@;
    write_header(out, version);
    // Write FAT sector:
    write_u32(out, FAT_SECTOR);
    write_u32(out, END_OF_CHAIN);
    write_free(out, version.sector_len() / 4 - 2);
    assert(out@ =~= before + new_header(version) + new_fat_sector(version));
    write_directory(out, version);
    proof {
        reveal(new_file);
    }
    assert(out@ =~= before + new_file(version));
}

impl<F> CompoundFile<F> {
    /// The compound file that a new file is opened to, backed by the given file.
    pub fn created(inner: F, version: Version) -> (r: CompoundFile<F>)
        ensures
            r@ == new_view(version),
            r.underlying() == inner,
    {
        let mut fat: Vec<u32> = Vec::new();
        fat.push(FAT_SECTOR);
        fat.push(END_OF_CHAIN);
        let mut directory: Vec<DirEntry> = Vec::new();
        directory.push(root_dir_entry());
        assert(fat@ =~= seq![FAT_SECTOR, END_OF_CHAIN]);
        assert(entry_views(directory@) =~= seq![new_root()]);
        let difat: Vec<u32> = Vec::new();
        CompoundFile::from_parts(inner, version, difat, fat, directory)
    }
}

impl CompoundFile<Vec<u8>> {
    /// Creates a new compound file with no contents, using the underlying
    /// writer.  The writer should be initially empty.
    pub fn create(inner: Vec<u8>) -> (r: Result<CompoundFile<Vec<u8>>, Error>)
        ensures
            r matches Ok(comp) && comp@ == new_view(Version::V4) && comp.underlying()@ == inner@
                + new_file(Version::V4),
    {
        CompoundFile::create_with_version(inner, Version::V4)
    }

    /// Creates a new compound file of the given version with no contents,
    /// using the underlying writer.  The writer should be initially empty.
    pub fn create_with_version(inner: Vec<u8>, version: Version) -> (r: Result<
        CompoundFile<Vec<u8>>,
        Error,
    >)
        ensures
            r matches Ok(comp) && comp@ == new_view(version) && comp.underlying()@ == inner@
                + new_file(version),
    {
        let mut inner = inner;
        write_new_file(&mut inner, version);
        Ok(CompoundFile::created(inner, version))
    }
}

} // verus!

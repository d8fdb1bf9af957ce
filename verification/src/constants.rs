//! Fixed values of the file format.

use vstd::prelude::*;

verus! {

/// Length of the file header, in bytes.
pub const HEADER_LEN: usize = 512;

/// Length of a directory entry, in bytes.
pub const DIR_ENTRY_LEN: usize = 128;

/// The bytes that every file starts with.
pub const MAGIC_NUMBER: [u8; 8] = [0xd0, 0xcf, 0x11, 0xe0, 0xa1, 0xb1, 0x1a, 0xe1];

/// Minor version, as written to new files.
pub const MINOR_VERSION: u16 = 0x3e;

/// Marks the byte order of the file as little endian.
pub const BYTE_ORDER_MARK: u16 = 0xfffe;

/// Mini sectors are 64 bytes long.
pub const MINI_SECTOR_SHIFT: u16 = 6;

/// Streams shorter than this may be kept in the mini stream.
pub const MINI_STREAM_MAX_LEN: u32 = 4096;

/// Number of DIFAT entries that the header holds.
pub const HEADER_DIFAT_LEN: usize = 109;

/// The largest number that a sector can have.
pub const MAX_REGULAR_SECTOR: u32 = 0xfffffffa;

/// FAT entry of a sector that holds a part of the FAT.
pub const FAT_SECTOR: u32 = 0xfffffffd;

/// FAT entry of the last sector of a chain.
pub const END_OF_CHAIN: u32 = 0xfffffffe;

/// FAT entry of a sector that is not in use.
pub const FREE_SECTOR: u32 = 0xffffffff;

/// Name of the root entry of a new file.
pub const ROOT_DIR_NAME: &'static str = "Root Entry";

/// The most UTF-16 code units that the name of an entry can have.
pub const DIR_NAME_MAX_LEN: usize = 31;

/// Object type of an entry that is not in use.
pub const OBJ_TYPE_UNALLOCATED: u8 = 0;

/// Object type of a storage other than the root.
pub const OBJ_TYPE_STORAGE: u8 = 1;

/// Object type of a stream.
pub const OBJ_TYPE_STREAM: u8 = 2;

/// Object type of the root storage.
pub const OBJ_TYPE_ROOT: u8 = 5;

/// Number of the root entry in the directory.
pub const ROOT_STREAM_ID: u32 = 0;

/// The largest number that a directory entry can have.
pub const MAX_REGULAR_STREAM_ID: u32 = 0xfffffffa;

/// Stands in a link of a directory entry that leads nowhere.
pub const NO_STREAM: u32 = 0xffffffff;

} // verus!

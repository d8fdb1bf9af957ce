//! Reading and writing of Compound File Binary (structured storage) files:
//! small file systems, of storages and streams, inside one file.
//!
//! A [`CompoundFile`] is generic over the file that backs it.  What the
//! library computes from bytes, and which bytes it wants next, is decided
//! here; a file that lies in memory, a `Vec<u8>`, is also read and written
//! here.  For any other file the caller does the reading and the writing.

use vstd::prelude::*;

pub mod bytes;
pub mod chain;
pub mod compound;
pub mod constants;
pub mod create;
pub mod dir_entry;
pub mod directory;
pub mod directory_laws;
pub mod error;
pub mod file_laws;
pub mod layout;
pub mod open;
pub mod open_laws;
pub mod path;
pub mod path_laws;
pub mod rename_laws;
pub mod storage;
pub mod storage_laws;
pub mod stream;
pub mod stream_laws;
pub mod text;
pub mod text_laws;
pub mod tree_laws;
pub mod version;
pub mod write_laws;

pub use crate::compound::CompoundFile;
pub use crate::constants::ROOT_DIR_NAME;
pub use crate::error::{Error, ErrorKind};
pub use crate::open::{Opening, Phase};
pub use crate::path::PathComponent;
pub use crate::storage::{ReadStorage, Storage, StorageEntry};
pub use crate::stream::{SeekFrom, Stream};
pub use crate::version::Version;

verus! {

} // verus!

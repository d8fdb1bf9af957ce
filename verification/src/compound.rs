//! Compound files.

use vstd::prelude::*;

use crate::constants::ROOT_STREAM_ID;
use crate::dir_entry::{entry_views, DirEntry, DirEntryView};
use crate::directory::{resolve, resolve_names, Lookup};
use crate::error::Error;
use crate::layout::CompoundView;
use crate::path::{
    component_views, names_for_path, path_names, PathComponent, PathComponentView,
};
use crate::version::{sector_position, Version};

verus! {

/// A compound file, backed by an underlying file.
pub struct CompoundFile<F> {
    inner: F,
    version: Version,
    difat: Vec<u32>,
    fat: Vec<u32>,
    directory: Vec<DirEntry>,
}

impl<F> View for CompoundFile<F> {
    type V = CompoundView;

    closed spec fn view(&self) -> CompoundView {
        CompoundView {
            version: self.version,
            difat: self.difat@,
            fat: self.fat@,
            directory: entry_views(self.directory@),
        }
    }
}

/// How the search for the entry with a path ends, or what is wrong with the
/// path.
pub open spec fn look_up(v: CompoundView, components: Seq<PathComponentView>) -> Result<
    Lookup,
    Error,
> {
    match path_names(components) {
        Err(e) => Err(e),
        Ok(names) => Ok(resolve(v.directory, ROOT_STREAM_ID, names)),
    }
}

/// Whether the search for the entry with a path ends, and with an entry that
/// there is where it ends with one.
pub open spec fn can_look_up(v: CompoundView, components: Seq<PathComponentView>) -> bool {
    match look_up(v, components) {
        Ok(Lookup::Found(id)) => id < v.directory.len(),
        Ok(Lookup::Stuck) => false,
        _ => true,
    }
}

/// The number of the entry with a path, or why there is none.
pub open spec fn stream_id(v: CompoundView, components: Seq<PathComponentView>) -> Result<
    u32,
    Error,
> {
    match look_up(v, components) {
        Ok(Lookup::Found(id)) => Ok(id),
        Ok(_) => Err(Error::NotFound),
        Err(e) => Err(e),
    }
}

impl<F> CompoundFile<F> {
    /// The underlying file.
    pub closed spec fn underlying(&self) -> F {
        self.inner
    }

    /// Puts a compound file together.
    pub(crate) fn from_parts(
        inner: F,
        version: Version,
        difat: Vec<u32>,
        fat: Vec<u32>,
        directory: Vec<DirEntry>,
    ) -> (r: CompoundFile<F>)
        ensures
            r@ == (CompoundView {
                version,
                difat: difat@,
                fat: fat@,
                directory: entry_views(directory@),
            }),
            r.underlying() == inner,
    {
        CompoundFile { inner, version, difat, fat, directory }
    }

    /// Returns the CFB format version used for this compound file.
    pub fn version(&self) -> (r: Version)
        ensures
            r == self@.version,
    {
        self.version
    }

    /// Consumes the `CompoundFile`, returning the underlying reader/writer.
    pub fn into_inner(self) -> (r: F)
        ensures
            r == self.underlying(),
    {
        self.inner
    }

    /// The directory.
    pub(crate) fn directory(&self) -> (r: &Vec<DirEntry>)
        ensures
            entry_views(r@) == self@.directory,
    {
        &self.directory
    }

    /// The FAT.
    pub(crate) fn fat(&self) -> (r: &Vec<u32>)
        ensures
            r@ == self@.fat,
    {
        &self.fat
    }

    /// Gives an entry another name.
    pub(crate) fn rename_entry(&mut self, id: u32, name: String)
        requires
            id < old(self)@.directory.len(),
        ensures
            final(self)@ == (CompoundView {
                directory: old(self)@.directory.update(
                    id as int,
                    DirEntryView { name: name@, ..old(self)@.directory[id as int] },
                ),
                ..old(self)@
            }),
            final(self).underlying() == old(self).underlying(),
    {
        let ghost before = self@.directory;
        self.directory[id as usize].name = name;
        assert(self@.directory =~= before.update(
            id as int,
            DirEntryView { name: name@, ..before[id as int] },
        ));
    }

    /// Where a sector lies in the underlying file.
    pub fn seek_to_sector(&self, sector_index: u32) -> (r: u64)
        ensures
            r == sector_position(self@.version, sector_index, 0),
    {
        self.seek_within_sector(sector_index, 0)
    }

    /// Where a byte of a sector lies in the underlying file.
    pub fn seek_within_sector(&self, sector_index: u32, offset_within_sector: usize) -> (r: u64)
        requires
            sector_position(self@.version, sector_index, offset_within_sector as nat) <= u64::MAX,
        ensures
            r == sector_position(self@.version, sector_index, offset_within_sector as nat),
    {
        offset_within_sector as u64 + self.version.sector_position(sector_index)
    }

    /// Searches for the entry with a path.
    fn look_up(&self, components: &Vec<PathComponent>) -> (r: Result<Lookup, Error>)
        ensures
            r == look_up(self@, component_views(components@)),
    {
        match names_for_path(components) {
            Err(e) => Err(e),
            Ok(names) => Ok(resolve_names(&self.directory, ROOT_STREAM_ID, &names)),
        }
    }

    /// Whether the search for the entry with a path ends, and with an entry
    /// that there is where it ends with one.  In a damaged file it need not.
    pub fn can_look_up(&self, components: &Vec<PathComponent>) -> (r: bool)
        ensures
            r == can_look_up(self@, component_views(components@)),
    {
        match self.look_up(components) {
            Ok(Lookup::Found(id)) => (id as u64) < self.directory.len() as u64,
            Ok(Lookup::Stuck) => false,
            _ => true,
        }
    }

    /// Finds the number of the entry with a path.
    pub fn stream_id_for_path(&self, components: &Vec<PathComponent>) -> (r: Result<u32, Error>)
        requires
            look_up(self@, component_views(components@)) != Ok::<Lookup, Error>(Lookup::Stuck),
        ensures
            r == stream_id(self@, component_views(components@)),
    {
        match self.look_up(components) {
            Ok(Lookup::Found(id)) => Ok(id),
            Ok(_) => Err(Error::NotFound),
            Err(e) => Err(e),
        }
    }
}

/// The contents of a file after bytes are written at a place.  Where the place
/// lies behind the end there are zeros between.
pub open spec fn written(file: Seq<u8>, at: nat, bytes: Seq<u8>) -> Seq<u8> {
    Seq::new(
        if file.len() >= at + bytes.len() {
            file.len()
        } else {
            at + bytes.len()
        },
        |i: int|
            if at <= i < at + bytes.len() {
                bytes[i - at]
            } else if i < file.len() {
                file[i]
            } else {
                0
            },
    )
}

impl CompoundFile<Vec<u8>> {
    /// The bytes of the underlying file.
    pub(crate) fn bytes(&self) -> (r: &Vec<u8>)
        ensures
            *r == self.underlying(),
    {
        &self.inner
    }

    /// Writes bytes to the underlying file.
    pub(crate) fn write_bytes(&mut self, at: usize, bytes: &Vec<u8>)
        requires
            at + bytes@.len() <= usize::MAX,
        ensures
            final(self).underlying()@ == written(old(self).underlying()@, at as nat, bytes@),
            final(self)@ == old(self)@,
    {
        let ghost file = self.inner@;
        while self.inner.len() < at
            invariant
                self@ == old(self)@,
                self.inner@.len() >= file.len(),
                self.inner@.len() > file.len() ==> self.inner@.len() <= at,
                forall|k: int|
                    0 <= k < self.inner@.len() ==> #[trigger] self.inner@[k] == if k < file.len() {
                        file[k]
                    } else {
                        0
                    },
            decreases at - self.inner@.len(),
        {
            self.inner.push(0);
        }
        let mut i: usize = 0;
        while i < bytes.len()
            invariant
                self@ == old(self)@,
                i <= bytes@.len(),
                at + bytes@.len() <= usize::MAX,
                at + i <= self.inner@.len(),
                self.inner@.len() >= file.len(),
                self.inner@.len() > file.len() ==> self.inner@.len() <= at + bytes@.len(),
                forall|k: int|
                    0 <= k < self.inner@.len() ==> #[trigger] self.inner@[k] == if at <= k < at
                        + i {
                        bytes@[k - at]
                    } else if k < file.len() {
                        file[k]
                    } else {
                        0
                    },
            decreases bytes@.len() - i,
        {
            if at + i < self.inner.len() {
                self.inner.set(at + i, bytes[i]);
            } else {
                self.inner.push(bytes[i]);
            }
            i += 1;
        }
        assert(self.inner@ =~= written(file, at as nat, bytes@));
    }
}

} // verus!

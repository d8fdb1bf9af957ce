//! Storages, and the entries within them.

use vstd::prelude::*;
use vstd::string::{StrSliceExecFns, StringExecFns};

use crate::compound::{can_look_up, stream_id, written, CompoundFile};
use crate::constants::{
    DIR_ENTRY_LEN, DIR_NAME_MAX_LEN, NO_STREAM, OBJ_TYPE_ROOT, OBJ_TYPE_STORAGE, OBJ_TYPE_STREAM,
};
use crate::dir_entry::{entry_views, name_bytes, write_name, DirEntry, DirEntryView};
use crate::directory::{
    find_parent, has_sibling_named, is_name_taken, left_spine, parent_of, walk_rest,
};
use crate::directory_laws::law_walk_in_order;
use crate::error::Error;
use crate::layout::{entries_per_sector, CompoundView};
use crate::path::{
    child_path, component_views, full_path, full_path_for, has_components, parent_path,
    path_components, path_names, path_of_child, path_of_parent, PathComponent, PathComponentView,
};
use crate::text::{encode_utf16, utf16};
use crate::version::sector_position;

verus! {

/// What is known of an object, with its name and its path as sequences of
/// characters.
#[verifier::ext_equal]
pub struct StorageEntryView {
    /// The name of the object.
    pub name: Seq<char>,
    /// The full path to the object.
    pub path: Seq<char>,
    /// What kind of object it is.
    pub obj_type: u8,
    /// The length of the stream.
    pub stream_len: u64,
}

/// What is known of the object that has a directory entry and a path.
pub open spec fn entry_info(entry: DirEntryView, path: Seq<char>) -> StorageEntryView {
    StorageEntryView {
        name: entry.name,
        path,
        obj_type: entry.obj_type,
        stream_len: entry.stream_len,
    }
}

/// Metadata about a single object (storage or stream) in a compound file.
pub struct StorageEntry {
    name: String,
    path: String,
    obj_type: u8,
    stream_len: u64,
}

impl View for StorageEntry {
    type V = StorageEntryView;

    closed spec fn view(&self) -> StorageEntryView {
        StorageEntryView {
            name: self.name@,
            path: self.path@,
            obj_type: self.obj_type,
            stream_len: self.stream_len,
        }
    }
}

impl Clone for StorageEntry {
    fn clone(&self) -> (r: Self)
        ensures
            r@ == self@,
    {
        StorageEntry {
            name: self.name.clone(),
            path: self.path.clone(),
            obj_type: self.obj_type,
            stream_len: self.stream_len,
        }
    }
}

impl StorageEntry {
    /// The metadata of the object that has a directory entry and a path.
    fn new(entry: &DirEntry, path: String) -> (r: StorageEntry)
        ensures
            r@ == entry_info(entry@, path@),
    {
        StorageEntry {
            name: entry.name.clone(),
            path,
            obj_type: entry.obj_type,
            stream_len: entry.stream_len,
        }
    }

    /// Returns the name of the object that this entry represents.
    pub fn name(&self) -> (r: &str)
        ensures
            r@ == self@.name,
    {
        self.name.as_str()
    }

    /// Returns the full path to the object that this entry represents.
    pub fn path(&self) -> (r: &str)
        ensures
            r@ == self@.path,
    {
        self.path.as_str()
    }

    /// Returns whether this entry is for a stream object (i.e. a "file" within
    /// the compound file).
    pub fn is_stream(&self) -> (r: bool)
        ensures
            r == (self@.obj_type == OBJ_TYPE_STREAM),
    {
        self.obj_type == OBJ_TYPE_STREAM
    }

    /// Returns whether this entry is for a storage object (i.e. a "directory"
    /// within the compound file), either the root or a nested storage.
    pub fn is_storage(&self) -> (r: bool)
        ensures
            r == (self@.obj_type == OBJ_TYPE_STORAGE || self@.obj_type == OBJ_TYPE_ROOT),
    {
        self.obj_type == OBJ_TYPE_STORAGE || self.obj_type == OBJ_TYPE_ROOT
    }

    /// Returns whether this entry is specifically for the root storage object
    /// of the compound file).
    pub fn is_root(&self) -> (r: bool)
        ensures
            r == (self@.obj_type == OBJ_TYPE_ROOT),
    {
        self.obj_type == OBJ_TYPE_ROOT
    }

    /// Returns the size, in bytes, of the stream that this metadata is for.
    pub fn len(&self) -> (r: u64)
        ensures
            r == self@.stream_len,
    {
        self.stream_len
    }
}

/// Whether a result is what is known of the object with a path.
pub open spec fn is_entry_for_path(
    v: CompoundView,
    components: Seq<PathComponentView>,
    r: Result<StorageEntry, Error>,
) -> bool {
    match (r, stream_id(v, components)) {
        (Ok(entry), Ok(id)) => entry@ == entry_info(
            v.directory[id as int],
            full_path(path_names(components)->Ok_0),
        ),
        (Err(e), Err(expected)) => e == expected,
        _ => false,
    }
}

/// Where a walk through the entries within a storage object has come.
#[verifier::ext_equal]
pub struct ReadStorageView {
    /// The directory.
    pub directory: Seq<DirEntryView>,
    /// The full path of the storage object.
    pub path: Seq<char>,
    /// The entries whose left side is done.
    pub stack: Seq<u32>,
    /// The entry whose left side is next.
    pub current: u32,
}

/// Iterator over the entries in a storage object.
pub struct ReadStorage<'a> {
    directory: &'a Vec<DirEntry>,
    path: String,
    stack: Vec<u32>,
    current: u32,
}

impl<'a> View for ReadStorage<'a> {
    type V = ReadStorageView;

    closed spec fn view(&self) -> ReadStorageView {
        ReadStorageView {
            directory: entry_views(self.directory@),
            path: self.path@,
            stack: self.stack@,
            current: self.current,
        }
    }
}

/// Whether the entries that a walk has come by are in the directory.
pub open spec fn is_walk(v: ReadStorageView) -> bool {
    forall|i: int| 0 <= i < v.stack.len() ==> (#[trigger] v.stack[i]) < v.directory.len()
}

/// Whether the next step of a walk ends.
pub open spec fn can_go_on(v: ReadStorageView) -> bool {
    left_spine(v.directory, v.current, v.directory.len()) is Some
}

/// The entries on the way to the next one, which is the last of them.
pub open spec fn way_to_next(v: ReadStorageView) -> Seq<u32> {
    v.stack + left_spine(v.directory, v.current, v.directory.len())->0
}

/// The entry that the next step of a walk gives.
pub open spec fn next_entry(v: ReadStorageView) -> Option<StorageEntryView> {
    let way = way_to_next(v);
    if way.len() == 0 {
        None
    } else {
        let entry = v.directory[way.last() as int];
        Some(entry_info(entry, child_path(v.path, entry.name)))
    }
}

/// Where a walk is after a step.
pub open spec fn walk_step(v: ReadStorageView) -> ReadStorageView {
    let way = way_to_next(v);
    if way.len() == 0 {
        v
    } else {
        ReadStorageView {
            stack: way.drop_last(),
            current: v.directory[way.last() as int].right_sibling,
            ..v
        }
    }
}

/// Whether a result is a walk at the start of the entries within the object
/// with a path.
pub open spec fn is_walk_for_path(
    v: CompoundView,
    components: Seq<PathComponentView>,
    r: Result<ReadStorage<'_>, Error>,
) -> bool {
    match (r, stream_id(v, components)) {
        (Ok(walk), Ok(id)) => walk@ == (ReadStorageView {
            directory: v.directory,
            path: full_path(path_names(components)->Ok_0),
            stack: Seq::empty(),
            current: v.directory[id as int].child,
        }),
        (Err(e), Err(expected)) => e == expected,
        _ => false,
    }
}

impl<'a> ReadStorage<'a> {
    /// Whether the next step ends.  In a damaged file it need not.
    pub fn can_go_on(&self) -> (r: bool)
        ensures
            r == can_go_on(self@),
    {
        let ghost dir = self@.directory;
        let mut current: u32 = self.current;
        let mut left: usize = self.directory.len();
        while current != NO_STREAM && (current as u64) < self.directory.len() as u64 && left > 0
            invariant
                dir == entry_views(self.directory@),
                left_spine(dir, self.current, dir.len()) is Some <==> left_spine(
                    dir,
                    current,
                    left as nat,
                ) is Some,
            decreases left,
        {
            current = self.directory[current as usize].left_sibling;
            left -= 1;
        }
        current == NO_STREAM
    }

    /// Goes on to the next entry, from left to right.
    pub fn next(&mut self) -> (r: Option<StorageEntry>)
        requires
            is_walk(old(self)@),
            can_go_on(old(self)@),
        ensures
            is_walk(final(self)@),
            final(self)@ == walk_step(old(self)@),
            match r {
                None => way_to_next(old(self)@).len() == 0,
                Some(entry) => way_to_next(old(self)@).len() > 0 && entry@ == entry_info(
                    old(self)@.directory[way_to_next(old(self)@).last() as int],
                    child_path(
                        old(self)@.path,
                        old(self)@.directory[way_to_next(old(self)@).last() as int].name,
                    ),
                ),
            },
            match r {
                None => next_entry(old(self)@) is None,
                Some(entry) => next_entry(old(self)@) == Some(entry@),
            },
            walk_rest(old(self)@.directory, old(self)@.stack, old(self)@.current) matches Some(rest)
                ==> {
                &&& r is None <==> rest.len() == 0
                &&& r is Some ==> way_to_next(old(self)@).last() == rest[0] && walk_rest(
                    final(self)@.directory,
                    final(self)@.stack,
                    final(self)@.current,
                ) == Some(rest.drop_first())
            },
    {
        let ghost v = self@;
        let ghost dir = self@.directory;
        let ghost spine = left_spine(dir, self.current, dir.len())->0;
        let ghost mut done: int = 0;
        assert(spine.skip(0) =~= spine);
        assert(v.stack + spine.take(0) =~= v.stack);
        while self.current != NO_STREAM
            invariant
                dir == entry_views(self.directory@),
                dir == v.directory,
                self.path@ == v.path,
                0 <= done <= dir.len(),
                done <= spine.len(),
                left_spine(dir, self.current, (dir.len() - done) as nat) == Some(
                    spine.skip(done),
                ),
                self.stack@ == v.stack + spine.take(done),
                is_walk(self@),
            decreases dir.len() - done,
        {
            let ghost rest = spine.skip(done);
            let ghost before = self@.stack;
            let id = self.current;
            self.stack.push(id);
            self.current = self.directory[id as usize].left_sibling;
            proof {
                assert(rest[0] == id);
                assert(rest.drop_first() =~= spine.skip(done + 1));
                assert(left_spine(dir, self.current, (dir.len() - done - 1) as nat)->0
                    =~= rest.drop_first());
                assert(v.stack + spine.take(done + 1) =~= self.stack@);
                assert forall|i: int| 0 <= i < self@.stack.len() implies (
                #[trigger] self@.stack[i]) < dir.len() by {
                    if i < before.len() {
                        assert(before[i] < dir.len());
                    }
                }
                done = done + 1;
            }
        }
        assert(spine.skip(done).len() == 0);
        assert(spine.take(done) =~= spine);
        let ghost way = self@.stack;
        assert(way == way_to_next(v));
        assert(forall|i: int| 0 <= i < way.len() ==> (#[trigger] way[i]) < dir.len());
        proof {
            if walk_rest(dir, v.stack, v.current) is Some {
                law_walk_in_order(dir, v.stack, v.current);
            }
        }
        match self.stack.pop() {
            Some(parent) => {
                let dir_entry = &self.directory[parent as usize];
                self.current = dir_entry.right_sibling;
                assert(way.last() == parent);
                assert(self.stack@ =~= way.drop_last());
                Some(
                    StorageEntry::new(
                        dir_entry,
                        path_of_child(self.path.as_str(), dir_entry.name.as_str()),
                    ),
                )
            },
            None => {
                assert(self@ =~= v);
                None
            },
        }
    }
}

impl<F> CompoundFile<F> {
    /// Given a path within the compound file, get information about that
    /// stream or storage object.
    pub fn entry(&self, path: &str) -> (r: Result<StorageEntry, Error>)
        requires
            forall|components: Seq<PathComponentView>| #[trigger]
                has_components(path@, components) ==> can_look_up(self@, components),
        ensures
            exists|components: Seq<PathComponentView>| #[trigger]
                has_components(path@, components) && is_entry_for_path(
                    self@,
                    components,
                    r,
                ),
    {
        let components = path_components(path);
        self.entry_for_path(&components)
    }

    /// Like [`entry`](Self::entry), but takes any directory: returns `None`
    /// where the search for the path does not end.
    pub fn try_entry(&self, path: &str) -> (r: Option<Result<StorageEntry, Error>>)
        ensures
            exists|components: Seq<PathComponentView>| #[trigger]
                has_components(path@, components) && match r {
                    Some(r) => can_look_up(self@, components) && is_entry_for_path(
                        self@,
                        components,
                        r,
                    ),
                    None => !can_look_up(self@, components),
                },
    {
        let components = path_components(path);
        if self.can_look_up(&components) {
            Some(self.entry_for_path(&components))
        } else {
            None
        }
    }

    /// Gets information about the object that a path leads to, given its
    /// components.
    pub fn entry_for_path(&self, components: &Vec<PathComponent>) -> (r: Result<
        StorageEntry,
        Error,
    >)
        requires
            can_look_up(self@, component_views(components@)),
        ensures
            is_entry_for_path(self@, component_views(components@), r),
    {
        let stream_id = self.stream_id_for_path(components)?;
        let dir_entry = &self.directory()[stream_id as usize];
        let path = full_path_for(components)?;
        Ok(StorageEntry::new(dir_entry, path))
    }

    /// Returns an iterator over the entries within a storage object.
    pub fn read_storage(&self, path: &str) -> (r: Result<ReadStorage<'_>, Error>)
        requires
            forall|components: Seq<PathComponentView>| #[trigger]
                has_components(path@, components) ==> can_look_up(self@, components),
        ensures
            exists|components: Seq<PathComponentView>| #[trigger]
                has_components(path@, components) && is_walk_for_path(
                    self@,
                    components,
                    r,
                ),
    {
        let components = path_components(path);
        self.read_storage_for_path(&components)
    }

    /// Like [`read_storage`](Self::read_storage), but takes any directory:
    /// returns `None` where the search for the path does not end.
    pub fn try_read_storage(&self, path: &str) -> (r: Option<Result<ReadStorage<'_>, Error>>)
        ensures
            exists|components: Seq<PathComponentView>| #[trigger]
                has_components(path@, components) && match r {
                    Some(r) => can_look_up(self@, components) && is_walk_for_path(
                        self@,
                        components,
                        r,
                    ),
                    None => !can_look_up(self@, components),
                },
    {
        let components = path_components(path);
        if self.can_look_up(&components) {
            Some(self.read_storage_for_path(&components))
        } else {
            None
        }
    }

    /// Returns an iterator over the entries within the object that a path leads
    /// to, given its components.
    pub fn read_storage_for_path(&self, components: &Vec<PathComponent>) -> (r: Result<
        ReadStorage<'_>,
        Error,
    >)
        requires
            can_look_up(self@, component_views(components@)),
        ensures
            is_walk_for_path(self@, component_views(components@), r),
    {
        let stream_id = self.stream_id_for_path(components)?;
        let path = full_path_for(components)?;
        let walk = ReadStorage {
            directory: self.directory(),
            path,
            stack: Vec::new(),
            current: self.directory()[stream_id as usize].child,
        };
        assert(walk@.stack =~= Seq::empty());
        Ok(walk)
    }

    /// Returns the root storage (i.e. directory) within this compound file.
    pub fn root_storage(&mut self) -> (r: Storage<'_, F>)
        ensures
            *r.comp == *old(self),
            *final(r.comp) == *final(self),
            r.path@ == "/"@,
            r.stream_id == 0,
    {
        Storage { comp: self, path: String::from_str("/"), stream_id: 0 }
    }
}

/// A storage entry in a compound file, much like a filesystem directory.
pub struct Storage<'a, F> {
    /// The compound file.
    pub comp: &'a mut CompoundFile<F>,
    /// The path of the storage.
    pub path: String,
    /// The number of its directory entry.
    pub stream_id: u32,
}

/// Whether a storage with such a number and such a path is what holds the object
/// `id`, which has no parent where it is the root.
pub open spec fn is_parent_storage(
    v: CompoundView,
    id: u32,
    path: Seq<char>,
    r: Option<(u32, Seq<char>)>,
) -> bool {
    if v.directory[id as int].obj_type == OBJ_TYPE_ROOT {
        r is None
    } else {
        r == Some(
            match parent_of(v.directory, id) {
                Some(parent) => (parent, parent_path(path)),
                None => (0u32, "/"@),
            },
        )
    }
}

/// Whether giving an entry a new name gives a result, and leaves this of what was
/// known and of the file.
pub open spec fn is_renamed(
    v: CompoundView,
    file: Seq<u8>,
    id: u32,
    name: Seq<char>,
    r: Result<(), Error>,
    after: CompoundView,
    file_after: Seq<u8>,
) -> bool {
    match (r, rename_check(v, id, name)) {
        (Ok(_), Ok(_)) => {
            &&& after == renamed(v, id, name)
            &&& file_after == written(file, name_position(v, id), name_bytes(name))
        },
        (Err(e), Err(expected)) => e == expected && after == v && file_after == file,
        _ => false,
    }
}

/// Whether a name has a character that names cannot have.
pub open spec fn has_invalid_char(name: Seq<char>) -> bool {
    name.contains('/') || name.contains('\\') || name.contains(':') || name.contains('!')
}

/// Whether an entry can be given a new name, and if not, why.
pub open spec fn rename_check(v: CompoundView, id: u32, name: Seq<char>) -> Result<(), Error> {
    if v.directory[id as int].obj_type == OBJ_TYPE_ROOT {
        Err(Error::RenameRoot)
    } else if utf16(name).len() > DIR_NAME_MAX_LEN {
        Err(Error::NameTooLong(utf16(name).len() as usize))
    } else if has_invalid_char(name) {
        Err(Error::InvalidName)
    } else if has_sibling_named(v.directory, id, name) {
        Err(Error::NameTaken)
    } else {
        Ok(())
    }
}

/// Where the name of an entry lies in the file, with its length behind.
pub open spec fn name_position(v: CompoundView, id: u32) -> nat {
    sector_position(
        v.version,
        v.directory[id as int].sector,
        (id as nat % entries_per_sector(v.version)) * DIR_ENTRY_LEN as nat,
    )
}

/// What is known of a compound file once an entry has a new name.
pub open spec fn renamed(v: CompoundView, id: u32, name: Seq<char>) -> CompoundView {
    CompoundView {
        directory: v.directory.update(
            id as int,
            DirEntryView { name, ..v.directory[id as int] },
        ),
        ..v
    }
}

/// Whether a name has a character that names cannot have.
fn contains_invalid_char(name: &str) -> (r: bool)
    ensures
        r == has_invalid_char(name@),
{
    let n: usize = name.unicode_len();
    let mut i: usize = 0;
    while i < n
        invariant
            i <= n,
            n == name@.len(),
            forall|k: int|
                0 <= k < i ==> #[trigger] name@[k] != '/' && name@[k] != '\\' && name@[k] != ':'
                    && name@[k] != '!',
        decreases n - i,
    {
        let c = name.get_char(i);
        if c == '/' || c == '\\' || c == ':' || c == '!' {
            assert(name@[i as int] == c);
            return true;
        }
        i += 1;
    }
    false
}

impl<'a, F> Storage<'a, F> {
    /// Whether the storage has an entry in the directory.
    pub open spec fn is_valid(&self) -> bool {
        self.stream_id < self.comp@.directory.len()
    }

    /// Its entry in the directory.
    pub open spec fn entry(&self) -> DirEntryView {
        self.comp@.directory[self.stream_id as int]
    }

    /// Whether the storage has an entry in the directory.  In a damaged file it
    /// need not.
    pub fn has_entry(&self) -> (r: bool)
        ensures
            r == self.is_valid(),
    {
        (self.stream_id as u64) < self.comp.directory().len() as u64
    }

    /// Its entry in the directory.
    fn dir_entry(&self) -> (r: &DirEntry)
        requires
            self.is_valid(),
        ensures
            r@ == self.entry(),
    {
        &self.comp.directory()[self.stream_id as usize]
    }

    /// Returns the name of this storage entry.
    pub fn name(&self) -> (r: &str)
        requires
            self.is_valid(),
        ensures
            r@ == self.entry().name,
    {
        self.dir_entry().name.as_str()
    }

    /// Returns true if this is the root storage entry, false otherwise.
    pub fn is_root(&self) -> (r: bool)
        requires
            self.is_valid(),
        ensures
            r == (self.entry().obj_type == OBJ_TYPE_ROOT),
    {
        self.dir_entry().obj_type == OBJ_TYPE_ROOT
    }

    /// Returns this storage entry's path within the compound file.  The root
    /// storage entry has a path of `/`.
    pub fn path(&self) -> (r: &str)
        ensures
            r@ == self.path@,
    {
        self.path.as_str()
    }

    /// Consumes this `Storage` object and returns its parent storage entry, or
    /// `None` if this was the root storage entry.  The root also stands in for
    /// the parent of an entry that no storage holds.
    pub fn parent(self) -> (r: Option<Storage<'a, F>>)
        requires
            self.is_valid(),
        ensures
            is_parent_storage(
                old(self.comp)@,
                self.stream_id,
                self.path@,
                match r {
                    Some(parent) => Some((parent.stream_id, parent.path@)),
                    None => None,
                },
            ),
            r is None <==> self.entry().obj_type == OBJ_TYPE_ROOT,
            r is None ==> *final(self.comp) == *old(self.comp),
            r matches Some(parent) ==> {
                &&& *parent.comp == *old(self.comp)
                &&& *final(parent.comp) == *final(self.comp)
                &&& match parent_of(old(self.comp)@.directory, self.stream_id) {
                    Some(id) => parent.stream_id == id && parent.path@ == parent_path(self.path@),
                    None => parent.stream_id == 0 && parent.path@ == "/"@,
                }
            },
    {
        if self.is_root() {
            return None;
        }
        match find_parent(self.comp.directory(), self.stream_id) {
            Some(id) => Some(
                Storage {
                    comp: self.comp,
                    path: path_of_parent(self.path.as_str()),
                    stream_id: id,
                },
            ),
            None => Some(self.comp.root_storage()),
        }
    }

    /// Decides whether this storage entry can be given a new name.  If so, says
    /// which bytes have to be written to the underlying file, and where.
    pub fn plan_rename(&self, name: &str) -> (r: Result<(u64, Vec<u8>), Error>)
        requires
            self.is_valid(),
        ensures
            match (r, rename_check(old(self.comp)@, self.stream_id, name@)) {
                (Ok((at, bytes)), Ok(_)) => at == name_position(old(self.comp)@, self.stream_id)
                    && bytes@ == name_bytes(name@),
                (Err(e), Err(expected)) => e == expected,
                _ => false,
            },
    {
        if self.is_root() {
            return Err(Error::RenameRoot);
        }
        // Validate new name:
        let name_utf16 = encode_utf16(name);
        if name_utf16.len() > DIR_NAME_MAX_LEN {
            return Err(Error::NameTooLong(name_utf16.len()));
        }
        if contains_invalid_char(name) {
            return Err(Error::InvalidName);
        }
        if is_name_taken(self.comp.directory(), self.stream_id, name) {
            return Err(Error::NameTaken);
        }
        let version = self.comp.version();
        let sector = self.dir_entry().sector;
        let per_sector: u32 = (version.sector_len() / DIR_ENTRY_LEN) as u32;
        let index: u32 = self.stream_id % per_sector;
        let offset: u64 = index as u64 * DIR_ENTRY_LEN as u64;
        let mut bytes: Vec<u8> = Vec::new();
        write_name(name, &name_utf16, &mut bytes);
        assert(bytes@ =~= name_bytes(name@));
        assert(sector_position(version, sector, offset as nat) == offset + sector_position(
            version,
            sector,
            0,
        ));
        let at: u64 = version.sector_position(sector);
        Ok((at + offset, bytes))
    }

    /// Gives this storage entry a new name, once the bytes were written to the
    /// underlying file.
    pub fn finish_rename(&mut self, name: &str)
        requires
            old(self).is_valid(),
        ensures
            final(self).comp@ == renamed(old(self).comp@, old(self).stream_id, name@),
            final(self).comp.underlying() == old(self).comp.underlying(),
            final(self).path@ == old(self).path@,
            final(self).stream_id == old(self).stream_id,
            *final(final(self).comp) == *final(old(self).comp),
    {
        self.comp.rename_entry(self.stream_id, String::from_str(name));
    }
}

impl<'a> Storage<'a, Vec<u8>> {
    /// Sets the name of this storage entry.  The name must encode to no more
    /// than 31 code units in UTF-16.  Fails if the new name is invalid, or if
    /// the new name is the same as one of this entry's siblings, or if this is
    /// the root entry (which cannot be renamed).
    pub fn set_name(&mut self, name: &str) -> (r: Result<(), Error>)
        requires
            old(self).is_valid(),
            name_position(old(self).comp@, old(self).stream_id) + 66 <= usize::MAX,
        ensures
            final(self).path@ == old(self).path@,
            final(self).stream_id == old(self).stream_id,
            *final(final(self).comp) == *final(old(self).comp),
            is_renamed(
                old(self).comp@,
                old(self).comp.underlying()@,
                old(self).stream_id,
                name@,
                r,
                final(self).comp@,
                final(self).comp.underlying()@,
            ),
            match (r, rename_check(old(self).comp@, old(self).stream_id, name@)) {
                (Ok(_), Ok(_)) => {
                    &&& final(self).comp@ == renamed(old(self).comp@, old(self).stream_id, name@)
                    &&& final(self).comp.underlying()@ == written(
                        old(self).comp.underlying()@,
                        name_position(old(self).comp@, old(self).stream_id),
                        name_bytes(name@),
                    )
                },
                (Err(e), Err(expected)) => {
                    &&& e == expected
                    &&& *final(self).comp == *old(self).comp
                },
                _ => false,
            },
    {
        let (at, bytes) = self.plan_rename(name)?;
        // Write new name to underlying file:
        self.comp.write_bytes(at as usize, &bytes);
        self.finish_rename(name);
        Ok(())
    }
}

} // verus!

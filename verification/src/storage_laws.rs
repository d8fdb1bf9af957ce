//! What holds of the entries that are looked up and of those that are listed.

use vstd::prelude::*;

use crate::compound::{can_look_up, stream_id};
use crate::constants::ROOT_STREAM_ID;
use crate::directory::{in_order, resolve, walk_rest, Lookup};
use crate::directory_laws::{law_walk_in_order, law_walk_start};
use crate::error::Error;
use crate::layout::CompoundView;
use crate::path::{
    full_path, is_portable, path_names, portable_components, PathComponentView,
};
use crate::path_laws::{
    are_plain, is_plain_name, law_child_path, law_full_path_components, law_full_path_names,
    law_full_path_text, law_last_component, law_listed_path_leads_to_entry, law_parent_text,
    lemma_full_path_long,
};
use crate::storage::{
    can_go_on, is_entry_for_path, is_parent_storage, is_walk_for_path, next_entry, walk_step,
    ReadStorage, ReadStorageView, StorageEntry, StorageEntryView,
};
use crate::tree_laws::{
    holds, is_search_tree, law_parent_is_first_holder, lemma_search_tree_ordered,
};

verus! {

/// What a look-up gives: the name, the type and the length of the entry that the
/// names of the path lead to, or what is wrong with the path, or that there is no
/// such entry.
pub proof fn law_entry_result(
    v: CompoundView,
    components: Seq<PathComponentView>,
    r: Result<StorageEntry, Error>,
)
    requires
        is_entry_for_path(v, components, r),
        can_look_up(v, components),
    ensures
        match path_names(components) {
            Err(e) => r == Err::<StorageEntry, Error>(e),
            Ok(names) => match resolve(v.directory, 0, names) {
                Lookup::Found(id) => {
                    &&& r is Ok
                    &&& id < v.directory.len()
                    &&& r->Ok_0@.name == v.directory[id as int].name
                    &&& r->Ok_0@.obj_type == v.directory[id as int].obj_type
                    &&& r->Ok_0@.stream_len == v.directory[id as int].stream_len
                },
                Lookup::Missing => r == Err::<StorageEntry, Error>(Error::NotFound),
                Lookup::Stuck => false,
            },
        },
{
}

/// A path can be listed just where it can be looked up, and fails for the same
/// reason.
pub proof fn law_listing_result<'a>(
    v: CompoundView,
    components: Seq<PathComponentView>,
    listed: Result<ReadStorage<'a>, Error>,
    looked_up: Result<StorageEntry, Error>,
)
    requires
        is_walk_for_path(v, components, listed),
        is_entry_for_path(v, components, looked_up),
    ensures
        listed is Ok <==> looked_up is Ok,
        listed is Err ==> listed->Err_0 == looked_up->Err_0,
{
}

/// An entry is known by one path: looking it up by that path gives the same entry
/// with the same path, whatever it was looked up by, where the names are plain.
pub proof fn law_entry_known_by_path(
    v: CompoundView,
    components: Seq<PathComponentView>,
    entry: StorageEntry,
)
    requires
        is_entry_for_path(v, components, Ok(entry)),
        path_names(components) matches Ok(names) && are_plain(names),
    ensures
        is_portable(entry@.path),
        is_entry_for_path(v, portable_components(entry@.path), Ok(entry)),
        path_names(portable_components(entry@.path)) == path_names(components),
{
    let names = path_names(components)->Ok_0;
    law_full_path_components(names);
    law_full_path_names(names);
}

/// A path with a name behind it: there is a slash between, unless the path ends
/// with the slash of the root.
pub open spec fn extended(path: Seq<char>, name: Seq<char>) -> Seq<char> {
    if path.len() == 1 && path[0] == '/' {
        seq!['/'] + name
    } else {
        path + seq!['/'] + name
    }
}

/// The root is known by a slash.  What a name leads to is known by the path of
/// what it was looked for in, and the name.
pub proof fn law_entry_paths(
    v: CompoundView,
    components: Seq<PathComponentView>,
    entry: StorageEntry,
    name: Seq<char>,
    inner: StorageEntry,
)
    requires
        is_entry_for_path(v, components, Ok(entry)),
        path_names(components) matches Ok(names) && are_plain(names),
        is_entry_for_path(
            v,
            components.push(PathComponentView::Normal(Some(name))),
            Ok(inner),
        ),
    ensures
        path_names(components)->Ok_0.len() == 0 ==> entry@.path == seq!['/'],
        inner@.path == extended(entry@.path, name),
{
    let names = path_names(components)->Ok_0;
    law_last_component(components, PathComponentView::Normal(Some(name)));
    assert(names.push(name) =~= names + seq![name]);
    law_full_path_text(names, name);
    law_child_path(names, name);
    if names.len() == 0 {
        assert(names =~= Seq::empty());
        assert(names.push(name) =~= seq![name]);
    } else {
        lemma_full_path_long(names);
    }
}

/// The entries that a walk gives in so many steps.
pub open spec fn listing(v: ReadStorageView, steps: nat) -> Seq<StorageEntryView>
    decreases steps,
{
    if steps == 0 {
        Seq::empty()
    } else {
        match next_entry(v) {
            None => Seq::empty(),
            Some(entry) => seq![entry] + listing(walk_step(v), (steps - 1) as nat),
        }
    }
}

/// A walk goes on for as long as it has entries to come to, each step to one that
/// there is, and ends where it has none.
pub proof fn law_walk_goes_on(v: ReadStorageView)
    requires
        walk_rest(v.directory, v.stack, v.current) is Some,
    ensures
        can_go_on(v),
        can_go_on(walk_step(v)),
        next_entry(v) is None <==> walk_rest(v.directory, v.stack, v.current)->0.len() == 0,
{
    law_walk_in_order(v.directory, v.stack, v.current);
    let next = walk_step(v);
    if next_entry(v) is Some {
        law_walk_in_order(next.directory, next.stack, next.current);
    }
}

/// A walk gives the entries that it has still to come to.
proof fn lemma_listing(v: ReadStorageView, steps: nat, i: int)
    requires
        walk_rest(v.directory, v.stack, v.current) is Some,
        walk_rest(v.directory, v.stack, v.current)->0.len() <= steps,
    ensures
        ({
            let rest = walk_rest(v.directory, v.stack, v.current)->0;
            let entries = listing(v, steps);
            &&& entries.len() == rest.len()
            &&& 0 <= i < rest.len() ==> {
                &&& entries[i].name == v.directory[rest[i] as int].name
                &&& entries[i].obj_type == v.directory[rest[i] as int].obj_type
                &&& entries[i].stream_len == v.directory[rest[i] as int].stream_len
                &&& entries[i].path == extended(v.path, v.directory[rest[i] as int].name)
            }
        }),
    decreases steps,
{
    law_walk_in_order(v.directory, v.stack, v.current);
    let rest = walk_rest(v.directory, v.stack, v.current)->0;
    if rest.len() > 0 {
        let next = walk_step(v);
        let name = v.directory[rest[0] as int].name;
        assert(v.path == seq!['/'] <==> v.path.len() == 1 && v.path[0] == '/') by {
            if v.path.len() == 1 && v.path[0] == '/' {
                assert(v.path =~= seq!['/']);
            }
        }
        assert(v.path.push('/') + name =~= v.path + seq!['/'] + name);
        assert(next_entry(v) is Some);
        lemma_listing(next, (steps - 1) as nat, i - 1);
        let entries = listing(v, steps);
        let later = listing(next, (steps - 1) as nat);
        assert(entries[0] == next_entry(v)->0);
        if 0 < i < rest.len() {
            assert(entries[i] == later[i - 1]);
            assert(rest.drop_first()[i - 1] == rest[i]);
        }
    }
}

/// Listing a path gives what the object with that path holds, each once and then
/// no more, from left to right: with its name, its type and its length, and with
/// the path that the object itself is known by, a slash and the name.
pub proof fn law_listing<'a>(
    v: CompoundView,
    components: Seq<PathComponentView>,
    walk: ReadStorage<'a>,
    entry: StorageEntry,
    steps: nat,
    i: int,
)
    requires
        is_walk_for_path(v, components, Ok(walk)),
        is_entry_for_path(v, components, Ok(entry)),
        in_order(
            v.directory,
            v.directory[stream_id(v, components)->Ok_0 as int].child,
            v.directory.len(),
        ) is Some,
        steps >= in_order(
            v.directory,
            v.directory[stream_id(v, components)->Ok_0 as int].child,
            v.directory.len(),
        )->0.len(),
    ensures
        ({
            let held = in_order(
                v.directory,
                v.directory[stream_id(v, components)->Ok_0 as int].child,
                v.directory.len(),
            )->0;
            let entries = listing(walk@, steps);
            &&& entries.len() == held.len()
            &&& 0 <= i < held.len() ==> {
                &&& entries[i].name == v.directory[held[i] as int].name
                &&& entries[i].obj_type == v.directory[held[i] as int].obj_type
                &&& entries[i].stream_len == v.directory[held[i] as int].stream_len
                &&& entries[i].path == extended(entry@.path, entries[i].name)
            }
        }),
{
    law_walk_start(v.directory, v.directory[stream_id(v, components)->Ok_0 as int].child);
    lemma_listing(walk@, steps, i);
}

/// Looking up the path of an entry that was listed finds that same entry, and
/// gives the same of it as the listing did, for listed paths of any depth: where
/// the names are plain and what was listed is a search tree.
pub proof fn law_listed_entry_is_found<'a>(
    v: CompoundView,
    components: Seq<PathComponentView>,
    walk: ReadStorage<'a>,
    steps: nat,
    i: int,
    found: StorageEntry,
)
    requires
        is_walk_for_path(v, components, Ok(walk)),
        path_names(components) matches Ok(names) && are_plain(names),
        stream_id(v, components) matches Ok(id) && id < v.directory.len(),
        is_search_tree(v.directory, v.directory[stream_id(v, components)->Ok_0 as int].child),
        in_order(
            v.directory,
            v.directory[stream_id(v, components)->Ok_0 as int].child,
            v.directory.len(),
        ) is Some,
        in_order(
            v.directory,
            v.directory[stream_id(v, components)->Ok_0 as int].child,
            v.directory.len(),
        )->0.len() <= steps,
        0 <= i < listing(walk@, steps).len(),
        is_plain_name(listing(walk@, steps)[i].name),
    ensures
        ({
            let held = in_order(
                v.directory,
                v.directory[stream_id(v, components)->Ok_0 as int].child,
                v.directory.len(),
            )->0;
            let listed = listing(walk@, steps)[i];
            &&& is_portable(listed.path)
            &&& stream_id(v, portable_components(listed.path)) == Ok::<u32, Error>(held[i])
            &&& is_entry_for_path(v, portable_components(listed.path), Ok(found)) ==> found@
                == listed
        }),
{
    let names = path_names(components)->Ok_0;
    let id = stream_id(v, components)->Ok_0;
    let child = v.directory[id as int].child;
    let held = in_order(v.directory, child, v.directory.len())->0;
    law_walk_start(v.directory, child);
    lemma_listing(walk@, steps, i);
    let listed = listing(walk@, steps)[i];
    let name = v.directory[held[i] as int].name;
    lemma_search_tree_ordered(v.directory, child, v.directory.len());
    assert(resolve(v.directory, ROOT_STREAM_ID, names) == Lookup::Found(id));
    law_listed_path_leads_to_entry(v, names, id, i);
    law_child_path(names, name);
    let all = names.push(name);
    assert(are_plain(all)) by {
        assert forall|k: int| 0 <= k < all.len() implies is_plain_name(#[trigger] all[k]) by {
            if k < names.len() {
                assert(all[k] == names[k]);
            }
        }
    }
    law_full_path_names(all);
    law_full_path_text(names, name);
    if names.len() == 0 {
        assert(names =~= Seq::empty());
        assert(all =~= seq![name]);
    } else {
        lemma_full_path_long(names);
    }
    assert(listed.path == full_path(all));
    if is_entry_for_path(v, portable_components(listed.path), Ok(found)) {
        assert(found@ =~= listed);
    }
}

/// The parent of an object is the first storage that holds it, and its path is
/// what stands before the last slash, or the root's where nothing does.  Of an
/// object that no storage holds it is the root.  The root has none, and nothing
/// else has none.
pub proof fn law_parent_storage(
    v: CompoundView,
    id: u32,
    base: Seq<char>,
    name: Seq<char>,
    r: Option<(u32, Seq<char>)>,
)
    requires
        !name.contains('/'),
        is_parent_storage(v, id, base + seq!['/'] + name, r),
    ensures
        r is None <==> v.directory[id as int].obj_type == 5,
        r matches Some((parent, path)) ==> {
            ||| {
                &&& holds(v.directory, parent, id)
                &&& forall|other: u32|
                    other < parent ==> !#[trigger] holds(v.directory, other, id)
                &&& path == if base.len() == 0 {
                    seq!['/']
                } else {
                    base
                }
            }
            ||| {
                &&& forall|other: u32| !#[trigger] holds(v.directory, other, id)
                &&& parent == 0
                &&& path == seq!['/']
            }
        },
{
    law_parent_is_first_holder(v.directory, id);
    law_parent_text(base, name);
    reveal_strlit("/");
    assert("/"@ =~= seq!['/']);
}

} // verus!

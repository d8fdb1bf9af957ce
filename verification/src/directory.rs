//! The directory: a binary tree of siblings under every storage.

use std::cmp::Ordering;

use vstd::prelude::*;

use crate::constants::{NO_STREAM, OBJ_TYPE_ROOT, OBJ_TYPE_STORAGE};
use crate::dir_entry::{entry_views, DirEntry, DirEntryView};
use crate::text::{compare_names, name_order, NameOrder};

verus! {

/// How the search for an entry ends.
#[derive(Clone, Copy, Debug, PartialEq, Eq, Structural)]
pub enum Lookup {
    /// With the number of the entry.
    Found(u32),
    /// Without an entry.
    Missing,
    /// Not at all: a link leads out of the directory or back to where the
    /// search has been.
    Stuck,
}

/// The search for a name among the siblings below `id`, over at most `fuel`
/// entries.
pub open spec fn find(dir: Seq<DirEntryView>, id: u32, name: Seq<char>, fuel: nat) -> Lookup
    decreases fuel,
{
    if id == NO_STREAM {
        Lookup::Missing
    } else if id >= dir.len() || fuel == 0 {
        Lookup::Stuck
    } else {
        match name_order(name, dir[id as int].name) {
            NameOrder::Same => Lookup::Found(id),
            NameOrder::Before => find(dir, dir[id as int].left_sibling, name, (fuel - 1) as nat),
            NameOrder::After => find(dir, dir[id as int].right_sibling, name, (fuel - 1) as nat),
        }
    }
}

/// The search for the first name within the object `id`, for the second name
/// within what was found, and so on.
pub open spec fn resolve(dir: Seq<DirEntryView>, id: u32, names: Seq<Seq<char>>) -> Lookup
    decreases names.len(),
{
    if names.len() == 0 {
        Lookup::Found(id)
    } else if id >= dir.len() {
        Lookup::Stuck
    } else {
        match find(dir, dir[id as int].child, names[0], dir.len()) {
            Lookup::Found(next) => resolve(dir, next, names.drop_first()),
            end => end,
        }
    }
}

/// The way from `id` to the left, over at most `fuel` entries, if it ends.
pub open spec fn left_spine(dir: Seq<DirEntryView>, id: u32, fuel: nat) -> Option<Seq<u32>>
    decreases fuel,
{
    if id == NO_STREAM {
        Some(Seq::empty())
    } else if id >= dir.len() || fuel == 0 {
        None
    } else {
        match left_spine(dir, dir[id as int].left_sibling, (fuel - 1) as nat) {
            Some(spine) => Some(seq![id] + spine),
            None => None,
        }
    }
}

/// The entries of the sibling tree below `id`, from left to right, if the tree
/// has at most `fuel` levels.
pub open spec fn in_order(dir: Seq<DirEntryView>, id: u32, fuel: nat) -> Option<Seq<u32>>
    decreases fuel,
{
    if id == NO_STREAM {
        Some(Seq::empty())
    } else if id >= dir.len() || fuel == 0 {
        None
    } else {
        match (
            in_order(dir, dir[id as int].left_sibling, (fuel - 1) as nat),
            in_order(dir, dir[id as int].right_sibling, (fuel - 1) as nat),
        ) {
            (Some(left), Some(right)) => Some(left + seq![id] + right),
            _ => None,
        }
    }
}

/// The entries that a walk has still to come to, given those whose left side
/// is done.
pub open spec fn pending(dir: Seq<DirEntryView>, stack: Seq<u32>) -> Option<Seq<u32>>
    decreases stack.len(),
{
    if stack.len() == 0 {
        Some(Seq::empty())
    } else if stack.last() >= dir.len() {
        None
    } else {
        match (
            in_order(dir, dir[stack.last() as int].right_sibling, dir.len()),
            pending(dir, stack.drop_last()),
        ) {
            (Some(right), Some(rest)) => Some(seq![stack.last()] + right + rest),
            _ => None,
        }
    }
}

/// The entries that a walk has still to come to, from left to right.
pub open spec fn walk_rest(dir: Seq<DirEntryView>, stack: Seq<u32>, current: u32) -> Option<
    Seq<u32>,
> {
    match (in_order(dir, current, dir.len()), pending(dir, stack)) {
        (Some(below), Some(rest)) => Some(below + rest),
        _ => None,
    }
}

/// Whether all names to the left of an entry come before its own, and all to
/// the right after it, in the whole sibling tree below `id`.
pub open spec fn is_ordered(dir: Seq<DirEntryView>, id: u32, fuel: nat) -> bool
    decreases fuel,
{
    if id == NO_STREAM {
        true
    } else if id >= dir.len() || fuel == 0 {
        false
    } else {
        let left = in_order(dir, dir[id as int].left_sibling, (fuel - 1) as nat);
        let right = in_order(dir, dir[id as int].right_sibling, (fuel - 1) as nat);
        &&& is_ordered(dir, dir[id as int].left_sibling, (fuel - 1) as nat)
        &&& is_ordered(dir, dir[id as int].right_sibling, (fuel - 1) as nat)
        &&& left is Some && right is Some
        &&& forall|i: int|
            0 <= i < left->0.len() ==> name_order(
                dir[#[trigger] left->0[i] as int].name,
                dir[id as int].name,
            ) is Before
        &&& forall|i: int|
            0 <= i < right->0.len() ==> name_order(
                dir[id as int].name,
                dir[#[trigger] right->0[i] as int].name,
            ) is Before
    }
}

/// Whether `n` sibling links, or fewer, lead from one entry to another.
pub open spec fn is_linked(dir: Seq<DirEntryView>, from: u32, to: u32, n: nat) -> bool
    decreases n,
{
    ||| from == to
    ||| {
        &&& n > 0
        &&& from != NO_STREAM
        &&& from < dir.len()
        &&& {
            ||| is_linked(dir, dir[from as int].left_sibling, to, (n - 1) as nat)
            ||| is_linked(dir, dir[from as int].right_sibling, to, (n - 1) as nat)
        }
    }
}

/// Whether sibling links lead from one entry to another.
pub open spec fn can_reach(dir: Seq<DirEntryView>, from: u32, to: u32) -> bool {
    exists|n: nat| is_linked(dir, from, to, n)
}

/// Whether an entry is in the sibling tree below another.
pub open spec fn is_below(dir: Seq<DirEntryView>, top: u32, id: u32) -> bool {
    &&& id != NO_STREAM
    &&& id < dir.len()
    &&& can_reach(dir, top, id)
}

/// Whether an object is a storage that holds the object `id`.
pub open spec fn is_parent(dir: Seq<DirEntryView>, parent: u32, id: u32) -> bool {
    let entry = dir[parent as int];
    &&& entry.obj_type == OBJ_TYPE_STORAGE || entry.obj_type == OBJ_TYPE_ROOT
    &&& is_below(dir, entry.child, id)
}

/// The first storage from the entry `from` on that holds the object `id`.
pub open spec fn parent_from(dir: Seq<DirEntryView>, id: u32, from: u32) -> Option<u32>
    decreases NO_STREAM - from,
{
    if from == NO_STREAM || from >= dir.len() {
        None
    } else if is_parent(dir, from, id) {
        Some(from)
    } else {
        parent_from(dir, id, (from + 1) as u32)
    }
}

/// The storage that holds the object `id`.
pub open spec fn parent_of(dir: Seq<DirEntryView>, id: u32) -> Option<u32> {
    parent_from(dir, id, 0)
}

/// Where the sibling tree starts that the object `id` is in.
pub open spec fn family_top(dir: Seq<DirEntryView>, id: u32) -> u32 {
    match parent_of(dir, id) {
        Some(parent) => dir[parent as int].child,
        None => id,
    }
}

/// Whether a sibling of the object `id` has the given name.
pub open spec fn has_sibling_named(dir: Seq<DirEntryView>, id: u32, name: Seq<char>) -> bool {
    exists|other: u32|
        other != id && #[trigger] is_below(dir, family_top(dir, id), other) && name_order(
            name,
            dir[other as int].name,
        ) is Same
}

/// The entry with the given number.
fn entry_at(dir: &Vec<DirEntry>, id: u32) -> (r: &DirEntry)
    requires
        id < dir@.len(),
    ensures
        *r == dir@[id as int],
        r@ == entry_views(dir@)[id as int],
{
    &dir[id as usize]
}

/// Whether there is an entry with the given number.
fn has_entry(dir: &Vec<DirEntry>, id: u32) -> (r: bool)
    ensures
        r == (id < dir@.len()),
{
    (id as u64) < dir.len() as u64
}

/// Unfolds the search by one entry.
proof fn lemma_find_step(dir: Seq<DirEntryView>, id: u32, name: Seq<char>, fuel: nat)
    requires
        id != NO_STREAM,
        id < dir.len(),
        fuel > 0,
    ensures
        find(dir, id, name, fuel) == match name_order(name, dir[id as int].name) {
            NameOrder::Same => Lookup::Found(id),
            NameOrder::Before => find(dir, dir[id as int].left_sibling, name, (fuel - 1) as nat),
            NameOrder::After => find(dir, dir[id as int].right_sibling, name, (fuel - 1) as nat),
        },
{
}

/// Searches for a name among the siblings below `id`.
pub fn find_entry(dir: &Vec<DirEntry>, id: u32, name: &str) -> (r: Lookup)
    ensures
        r == find(entry_views(dir@), id, name@, dir@.len()),
{
    let ghost views = entry_views(dir@);
    let mut stream_id: u32 = id;
    let mut left: usize = dir.len();
    while stream_id != NO_STREAM && has_entry(dir, stream_id) && left > 0
        invariant
            views == entry_views(dir@),
            find(views, id, name@, dir@.len()) == find(views, stream_id, name@, fuel_of(left)),
        decreases left,
    {
        let dir_entry = entry_at(dir, stream_id);
        proof {
            lemma_find_step(views, stream_id, name@, fuel_of(left));
        }
        match compare_names(name, dir_entry.name.as_str()) {
            Ordering::Equal => {
                return Lookup::Found(stream_id);
            },
            Ordering::Less => {
                stream_id = dir_entry.left_sibling;
            },
            Ordering::Greater => {
                stream_id = dir_entry.right_sibling;
            },
        }
        left -= 1;
    }
    if stream_id == NO_STREAM {
        Lookup::Missing
    } else {
        Lookup::Stuck
    }
}

/// The number of entries that a search may still look at.
spec fn fuel_of(left: usize) -> nat {
    left as nat
}

/// Searches for a chain of names, each within what was found before, from
/// the object `id` on.
pub fn resolve_names(dir: &Vec<DirEntry>, id: u32, names: &Vec<String>) -> (r: Lookup)
    ensures
        r == resolve(entry_views(dir@), id, name_views(names@)),
{
    let ghost views = entry_views(dir@);
    let ghost all = name_views(names@);
    let mut stream_id: u32 = id;
    let mut i: usize = 0;
    assert(all.skip(0) =~= all);
    while i < names.len()
        invariant
            views == entry_views(dir@),
            all == name_views(names@),
            i <= names@.len(),
            resolve(views, id, all) == resolve(views, stream_id, all.skip(i as int)),
        decreases names@.len() - i,
    {
        assert(all.skip(i as int).drop_first() =~= all.skip(i + 1));
        if !has_entry(dir, stream_id) {
            return Lookup::Stuck;
        }
        match find_entry(dir, entry_at(dir, stream_id).child, names[i].as_str()) {
            Lookup::Found(next) => {
                stream_id = next;
            },
            end => {
                return end;
            },
        }
        i += 1;
    }
    Lookup::Found(stream_id)
}

/// The names as sequences of characters.
pub open spec fn name_views(names: Seq<String>) -> Seq<Seq<char>> {
    Seq::new(names.len(), |i: int| names[i]@)
}

/// A link more can be followed at the end of a way.
proof fn lemma_link_after(dir: Seq<DirEntryView>, from: u32, mid: u32, to: u32, n: nat)
    requires
        is_linked(dir, from, mid, n),
        mid != NO_STREAM,
        mid < dir.len(),
        to == dir[mid as int].left_sibling || to == dir[mid as int].right_sibling,
    ensures
        is_linked(dir, from, to, n + 1),
    decreases n,
{
    if from == mid {
        assert(is_linked(dir, to, to, n));
    } else if is_linked(dir, dir[from as int].left_sibling, mid, (n - 1) as nat) {
        lemma_link_after(dir, dir[from as int].left_sibling, mid, to, (n - 1) as nat);
    } else {
        lemma_link_after(dir, dir[from as int].right_sibling, mid, to, (n - 1) as nat);
    }
}

/// A set that no link leads out of holds all that is linked to a member.
proof fn lemma_closed_set(dir: Seq<DirEntryView>, seen: Seq<u32>, from: u32, to: u32, n: nat)
    requires
        is_linked(dir, from, to, n),
        to != NO_STREAM,
        to < dir.len(),
        seen.contains(from) || from == NO_STREAM || from >= dir.len(),
        forall|i: int|
            #![trigger seen[i]]
            0 <= i < seen.len() ==> is_known(dir, seen, dir[seen[i] as int].left_sibling)
                && is_known(dir, seen, dir[seen[i] as int].right_sibling),
    ensures
        seen.contains(to),
    decreases n,
{
    if from != to {
        let i = choose|i: int| 0 <= i < seen.len() && seen[i] == from;
        assert(is_known(dir, seen, dir[seen[i] as int].left_sibling));
        if is_linked(dir, dir[from as int].left_sibling, to, (n - 1) as nat) {
            lemma_closed_set(dir, seen, dir[from as int].left_sibling, to, (n - 1) as nat);
        } else {
            lemma_closed_set(dir, seen, dir[from as int].right_sibling, to, (n - 1) as nat);
        }
    }
}

/// Whether a link leads to an entry that has been seen, or to none.
spec fn is_known(dir: Seq<DirEntryView>, seen: Seq<u32>, id: u32) -> bool {
    seen.contains(id) || id == NO_STREAM || id >= dir.len()
}

/// Whether a link leads to an entry that has been seen or will be, or to none.
spec fn is_noted(dir: Seq<DirEntryView>, seen: Seq<u32>, todo: Seq<u32>, id: u32) -> bool {
    is_known(dir, seen, id) || todo.contains(id)
}

/// Collects the entries of the sibling tree below `top`.
fn ids_below(dir: &Vec<DirEntry>, top: u32) -> (r: Vec<u32>)
    ensures
        forall|id: u32| #[trigger] r@.contains(id) <==> is_below(entry_views(dir@), top, id),
{
    let ghost views = entry_views(dir@);
    let mut is_seen: Vec<bool> = Vec::new();
    while is_seen.len() < dir.len()
        invariant
            is_seen@.len() <= dir@.len(),
            forall|i: int| 0 <= i < is_seen@.len() ==> !(#[trigger] is_seen@[i]),
        decreases dir@.len() - is_seen@.len(),
    {
        is_seen.push(false);
    }
    let mut seen: Vec<u32> = Vec::new();
    let mut todo: Vec<u32> = Vec::new();
    todo.push(top);
    let ghost mut unseen: Set<int> = vstd::set_lib::set_int_range(0, dir@.len() as int);
    proof {
        vstd::set_lib::lemma_int_range(0, dir@.len() as int);
        assert(is_linked(views, top, top, 0));
        assert(todo@[0] == top);
    }
    while todo.len() > 0
        invariant
            views == entry_views(dir@),
            is_seen@.len() == dir@.len(),
            unseen.finite(),
            forall|i: int|
                0 <= i < dir@.len() ==> (#[trigger] is_seen@[i] <==> !unseen.contains(i)),
            forall|id: u32| #[trigger]
                seen@.contains(id) <==> (id != NO_STREAM && id < dir@.len() && is_seen@[id as int]),
            forall|i: int| 0 <= i < todo@.len() ==> can_reach(views, top, #[trigger] todo@[i]),
            forall|i: int| 0 <= i < seen@.len() ==> is_below(views, top, #[trigger] seen@[i]),
            is_noted(views, seen@, todo@, top),
            forall|i: int|
                #![trigger seen@[i]]
                0 <= i < seen@.len() ==> is_noted(
                    views,
                    seen@,
                    todo@,
                    views[seen@[i] as int].left_sibling,
                ) && is_noted(views, seen@, todo@, views[seen@[i] as int].right_sibling),
        decreases unseen.len(), todo@.len(),
    {
        let ghost todo0 = todo@;
        let ghost seen0 = seen@;
        let id = todo.pop().unwrap();
        assert(forall|x: u32| #[trigger] todo0.contains(x) ==> x == id || todo@.contains(x)) by {
            assert forall|x: u32| #[trigger] todo0.contains(x) implies x == id || todo@.contains(
                x,
            ) by {
                let i = choose|i: int| 0 <= i < todo0.len() && todo0[i] == x;
                if i < todo@.len() {
                    assert(todo@[i] == x);
                }
            }
        }
        assert(todo0[todo0.len() - 1] == id);
        if id != NO_STREAM && has_entry(dir, id) && !is_seen[id as usize] {
            is_seen.set(id as usize, true);
            proof {
                assert(unseen.contains(id as int));
                unseen = unseen.remove(id as int);
            }
            seen.push(id);
            let dir_entry = entry_at(dir, id);
            todo.push(dir_entry.left_sibling);
            todo.push(dir_entry.right_sibling);
            proof {
                let n = choose|n: nat| is_linked(views, top, id, n);
                lemma_link_after(views, top, id, dir_entry.left_sibling, n);
                lemma_link_after(views, top, id, dir_entry.right_sibling, n);
                assert(can_reach(views, top, dir_entry.left_sibling));
                assert(can_reach(views, top, dir_entry.right_sibling));
                assert(forall|i: int| 0 <= i < todo0.len() - 1 ==> todo@[i] == todo0[i]);
                lemma_noted_grows(views, seen0, todo0, seen@, todo@, id, dir_entry@);
            }
        } else {
            proof {
                assert forall|x: u32| is_noted(views, seen@, todo0, x) implies is_noted(
                    views,
                    seen@,
                    todo@,
                    x,
                ) by {
                    if id != NO_STREAM && id < dir@.len() {
                        assert(seen@.contains(id));
                    }
                }
            }
        }
    }
    proof {
        assert forall|id: u32| is_below(views, top, id) implies #[trigger] seen@.contains(id) by {
            let n = choose|n: nat| is_linked(views, top, id, n);
            assert forall|i: int| 0 <= i < seen@.len() implies is_known(
                views,
                seen@,
                views[#[trigger] seen@[i] as int].left_sibling,
            ) && is_known(views, seen@, views[seen@[i] as int].right_sibling) by {
                assert(is_noted(views, seen@, todo@, views[seen@[i] as int].left_sibling));
            }
            lemma_closed_set(views, seen@, top, id, n);
        }
    }
    seen
}

/// Whether a list of entries has the given one.
fn is_among(ids: &Vec<u32>, id: u32) -> (r: bool)
    ensures
        r == ids@.contains(id),
{
    let mut i: usize = 0;
    while i < ids.len()
        invariant
            i <= ids@.len(),
            forall|j: int| 0 <= j < i ==> #[trigger] ids@[j] != id,
        decreases ids@.len() - i,
    {
        if ids[i] == id {
            return true;
        }
        i += 1;
    }
    false
}

/// Finds the storage that holds the object `id`.
pub fn find_parent(dir: &Vec<DirEntry>, id: u32) -> (r: Option<u32>)
    ensures
        r == parent_of(entry_views(dir@), id),
        r matches Some(parent) ==> parent < dir@.len(),
{
    let ghost views = entry_views(dir@);
    let mut at: u32 = 0;
    while at != NO_STREAM && has_entry(dir, at)
        invariant
            views == entry_views(dir@),
            parent_of(views, id) == parent_from(views, id, at),
        decreases NO_STREAM - at,
    {
        let dir_entry = entry_at(dir, at);
        if dir_entry.obj_type == OBJ_TYPE_STORAGE || dir_entry.obj_type == OBJ_TYPE_ROOT {
            let ids = ids_below(dir, dir_entry.child);
            if is_among(&ids, id) {
                return Some(at);
            }
        }
        at += 1;
    }
    None
}

/// Whether one of the given entries, other than `id`, has the given name.
fn any_named(dir: &Vec<DirEntry>, ids: &Vec<u32>, id: u32, name: &str) -> (r: bool)
    requires
        forall|i: int| 0 <= i < ids@.len() ==> is_entry(dir@, #[trigger] ids@[i]),
    ensures
        r == exists|i: int|
            0 <= i < ids@.len() && #[trigger] ids@[i] != id && is_named(
                entry_views(dir@),
                ids@[i],
                name@,
            ),
{
    let mut i: usize = 0;
    while i < ids.len()
        invariant
            i <= ids@.len(),
            forall|j: int| 0 <= j < ids@.len() ==> is_entry(dir@, #[trigger] ids@[j]),
            forall|j: int|
                0 <= j < i ==> #[trigger] ids@[j] == id || !is_named(
                    entry_views(dir@),
                    ids@[j],
                    name@,
                ),
        decreases ids@.len() - i,
    {
        let other = ids[i];
        if other != id {
            match compare_names(name, entry_at(dir, other).name.as_str()) {
                Ordering::Equal => {
                    return true;
                },
                _ => {},
            }
        }
        i += 1;
    }
    false
}

/// Whether there is an entry with the given number.
spec fn is_entry(dir: Seq<DirEntry>, id: u32) -> bool {
    id < dir.len()
}

/// Whether an entry has the given name.
spec fn is_named(dir: Seq<DirEntryView>, id: u32, name: Seq<char>) -> bool {
    name_order(name, dir[id as int].name) is Same
}

/// Whether a sibling of the object `id` has the given name.
pub fn is_name_taken(dir: &Vec<DirEntry>, id: u32, name: &str) -> (r: bool)
    ensures
        r == has_sibling_named(entry_views(dir@), id, name@),
{
    let ghost views = entry_views(dir@);
    let top: u32 = match find_parent(dir, id) {
        Some(parent) => entry_at(dir, parent).child,
        None => id,
    };
    assert(top == family_top(views, id));
    let ids = ids_below(dir, top);
    assert forall|i: int| 0 <= i < ids@.len() implies is_entry(dir@, #[trigger] ids@[i]) by {
        assert(ids@.contains(ids@[i]));
    }
    let r = any_named(dir, &ids, id, name);
    proof {
        if r {
            let i = choose|i: int|
                0 <= i < ids@.len() && #[trigger] ids@[i] != id && is_named(views, ids@[i], name@);
            assert(ids@.contains(ids@[i]));
            assert(is_below(views, top, ids@[i]));
        }
        if has_sibling_named(views, id, name@) {
            let other = choose|other: u32|
                other != id && #[trigger] is_below(views, top, other) && name_order(
                    name@,
                    views[other as int].name,
                ) is Same;
            assert(ids@.contains(other));
            let i = choose|i: int| 0 <= i < ids@.len() && ids@[i] == other;
            assert(is_named(views, ids@[i], name@));
        }
    }
    r
}

/// What is noted stays noted when an entry moves from the list of those to see
/// to the list of those seen, and its links take its place.
proof fn lemma_noted_grows(
    dir: Seq<DirEntryView>,
    seen0: Seq<u32>,
    todo0: Seq<u32>,
    seen: Seq<u32>,
    todo: Seq<u32>,
    id: u32,
    entry: DirEntryView,
)
    requires
        todo0.len() > 0,
        todo0.last() == id,
        seen == seen0.push(id),
        todo == todo0.drop_last().push(entry.left_sibling).push(entry.right_sibling),
    ensures
        forall|x: u32| is_noted(dir, seen0, todo0, x) ==> #[trigger] is_noted(dir, seen, todo, x),
        is_noted(dir, seen, todo, entry.left_sibling),
        is_noted(dir, seen, todo, entry.right_sibling),
        forall|x: u32| #[trigger] seen.contains(x) <==> seen0.contains(x) || x == id,
{
    assert(todo[todo.len() - 1] == entry.right_sibling);
    assert(todo[todo.len() - 2] == entry.left_sibling);
    assert(seen[seen.len() - 1] == id);
    assert forall|x: u32| #[trigger] seen.contains(x) <==> seen0.contains(x) || x == id by {
        if seen0.contains(x) {
            let i = choose|i: int| 0 <= i < seen0.len() && seen0[i] == x;
            assert(seen[i] == x);
        }
        if seen.contains(x) && x != id {
            let i = choose|i: int| 0 <= i < seen.len() && seen[i] == x;
            assert(seen0[i] == x);
        }
    }
    assert forall|x: u32| is_noted(dir, seen0, todo0, x) implies #[trigger] is_noted(
        dir,
        seen,
        todo,
        x,
    ) by {
        if todo0.contains(x) && x != id {
            let i = choose|i: int| 0 <= i < todo0.len() && todo0[i] == x;
            assert(todo[i] == x);
        }
        assert(seen.contains(id));
    }
}

} // verus!

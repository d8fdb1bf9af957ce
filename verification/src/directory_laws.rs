//! What holds of searches in the directory and of walks through it.

use vstd::prelude::*;

use crate::chain::{ends_within, lemma_ends_within_bound};
use crate::constants::{NO_STREAM, OBJ_TYPE_ROOT, OBJ_TYPE_STORAGE};
use crate::dir_entry::DirEntryView;
use crate::directory::{
    can_reach, find, in_order, is_linked, is_ordered, is_parent, left_spine, parent_from,
    parent_of, pending, resolve, walk_rest, Lookup,
};
use crate::text::{
    law_names_swap, law_names_transitive, law_same_names_alike, name_order,
    NameOrder,
};

verus! {

/// Where a search goes from an entry.  It ends where there is none.
spec fn search_step(dir: Seq<DirEntryView>, name: Seq<char>) -> spec_fn(u32) -> Option<u32> {
    |id: u32|
        if id == NO_STREAM || id >= dir.len() {
            None
        } else {
            match name_order(name, dir[id as int].name) {
                NameOrder::Same => Some(NO_STREAM),
                NameOrder::Before => Some(dir[id as int].left_sibling),
                NameOrder::After => Some(dir[id as int].right_sibling),
            }
        }
}

/// A search that ends follows a chain that ends.
proof fn lemma_search_chain(dir: Seq<DirEntryView>, id: u32, name: Seq<char>, n: nat)
    requires
        !(find(dir, id, name, n) is Stuck),
    ensures
        ends_within(search_step(dir, name), id, n),
    decreases n,
{
    if id != NO_STREAM {
        match name_order(name, dir[id as int].name) {
            NameOrder::Same => {
                assert(ends_within(search_step(dir, name), NO_STREAM, (n - 1) as nat));
            },
            NameOrder::Before => {
                lemma_search_chain(dir, dir[id as int].left_sibling, name, (n - 1) as nat);
            },
            NameOrder::After => {
                lemma_search_chain(dir, dir[id as int].right_sibling, name, (n - 1) as nat);
            },
        }
    }
}

/// A search that ends with some fuel ends with any fuel that the chain it
/// follows ends within.
proof fn lemma_chain_search(dir: Seq<DirEntryView>, id: u32, name: Seq<char>, n: nat, m: nat)
    requires
        !(find(dir, id, name, n) is Stuck),
        ends_within(search_step(dir, name), id, m),
    ensures
        find(dir, id, name, m) == find(dir, id, name, n),
    decreases n,
{
    if id != NO_STREAM {
        match name_order(name, dir[id as int].name) {
            NameOrder::Same => {},
            NameOrder::Before => {
                lemma_chain_search(
                    dir,
                    dir[id as int].left_sibling,
                    name,
                    (n - 1) as nat,
                    (m - 1) as nat,
                );
            },
            NameOrder::After => {
                lemma_chain_search(
                    dir,
                    dir[id as int].right_sibling,
                    name,
                    (n - 1) as nat,
                    (m - 1) as nat,
                );
            },
        }
    }
}

/// A search that ends at all ends after no more entries than the directory
/// has, and in the same way.  So a search that is stuck with that much fuel
/// never ends, or leads out of the directory.
pub proof fn law_search_fuel(dir: Seq<DirEntryView>, id: u32, name: Seq<char>, n: nat)
    requires
        !(find(dir, id, name, n) is Stuck),
    ensures
        find(dir, id, name, dir.len()) == find(dir, id, name, n),
{
    lemma_search_chain(dir, id, name, n);
    lemma_ends_within_bound(search_step(dir, name), id, n, dir.len());
    lemma_chain_search(dir, id, name, n, dir.len());
}

/// Where a way to the left goes from an entry.
spec fn left_step(dir: Seq<DirEntryView>) -> spec_fn(u32) -> Option<u32> {
    |id: u32|
        if id == NO_STREAM || id >= dir.len() {
            None
        } else {
            Some(dir[id as int].left_sibling)
        }
}

/// A way to the left that ends follows a chain that ends.
proof fn lemma_left_chain(dir: Seq<DirEntryView>, id: u32, n: nat)
    requires
        left_spine(dir, id, n) is Some,
    ensures
        ends_within(left_step(dir), id, n),
    decreases n,
{
    if id != NO_STREAM {
        lemma_left_chain(dir, dir[id as int].left_sibling, (n - 1) as nat);
    }
}

/// A way to the left that ends with some fuel ends with any fuel that the
/// chain it follows ends within.
proof fn lemma_chain_left(dir: Seq<DirEntryView>, id: u32, n: nat, m: nat)
    requires
        left_spine(dir, id, n) is Some,
        ends_within(left_step(dir), id, m),
    ensures
        left_spine(dir, id, m) == left_spine(dir, id, n),
    decreases n,
{
    if id != NO_STREAM {
        lemma_chain_left(dir, dir[id as int].left_sibling, (n - 1) as nat, (m - 1) as nat);
    }
}

/// A way to the left that ends at all ends after no more entries than the
/// directory has.
pub proof fn law_left_spine_fuel(dir: Seq<DirEntryView>, id: u32, n: nat)
    requires
        left_spine(dir, id, n) is Some,
    ensures
        left_spine(dir, id, dir.len()) == left_spine(dir, id, n),
{
    lemma_left_chain(dir, id, n);
    lemma_ends_within_bound(left_step(dir), id, n, dir.len());
    lemma_chain_left(dir, id, n, dir.len());
}

/// A sibling tree that has few levels has them with more fuel, too.
proof fn lemma_in_order_more(dir: Seq<DirEntryView>, id: u32, n: nat, m: nat)
    requires
        in_order(dir, id, n) is Some,
        n <= m,
    ensures
        in_order(dir, id, m) == in_order(dir, id, n),
    decreases n,
{
    if id != NO_STREAM {
        lemma_in_order_more(dir, dir[id as int].left_sibling, (n - 1) as nat, (m - 1) as nat);
        lemma_in_order_more(dir, dir[id as int].right_sibling, (n - 1) as nat, (m - 1) as nat);
    }
}

/// How many levels a sibling tree has, of which at most `n` are counted.
spec fn height(dir: Seq<DirEntryView>, id: u32, n: nat) -> nat
    decreases n,
{
    if id == NO_STREAM || id >= dir.len() || n == 0 {
        0
    } else {
        let left = height(dir, dir[id as int].left_sibling, (n - 1) as nat);
        let right = height(dir, dir[id as int].right_sibling, (n - 1) as nat);
        1 + if left >= right {
            left
        } else {
            right
        }
    }
}

/// Where a way to the bottom of a sibling tree goes from an entry: to the side
/// that has more levels.
spec fn deeper_step(dir: Seq<DirEntryView>, n: nat) -> spec_fn(u32) -> Option<u32> {
    |id: u32|
        if id == NO_STREAM || id >= dir.len() {
            None
        } else {
            let left = dir[id as int].left_sibling;
            let right = dir[id as int].right_sibling;
            if height(dir, left, n) >= height(dir, right, n) {
                Some(left)
            } else {
                Some(right)
            }
        }
}

/// All levels of a tree are counted with more fuel, too.
proof fn lemma_height_more(dir: Seq<DirEntryView>, id: u32, n: nat, m: nat)
    requires
        in_order(dir, id, n) is Some,
        n <= m,
    ensures
        height(dir, id, m) == height(dir, id, n),
    decreases n,
{
    if id != NO_STREAM {
        lemma_height_more(dir, dir[id as int].left_sibling, (n - 1) as nat, (m - 1) as nat);
        lemma_height_more(dir, dir[id as int].right_sibling, (n - 1) as nat, (m - 1) as nat);
    }
}

/// The way to the bottom of a tree ends.
proof fn lemma_deeper_ends(dir: Seq<DirEntryView>, id: u32, n: nat, m: nat)
    requires
        in_order(dir, id, n) is Some,
    ensures
        ends_within(deeper_step(dir, m), id, n),
    decreases n,
{
    if let Some(next) = deeper_step(dir, m)(id) {
        lemma_deeper_ends(dir, next, (n - 1) as nat, m);
    }
}

/// A tree has no more levels than the way to its bottom has steps.
proof fn lemma_height_bound(dir: Seq<DirEntryView>, id: u32, n: nat, m: nat, bound: nat)
    requires
        in_order(dir, id, n) is Some,
        n <= m,
        ends_within(deeper_step(dir, m), id, bound),
    ensures
        height(dir, id, n) <= bound,
    decreases n,
{
    if let Some(next) = deeper_step(dir, m)(id) {
        let k = (n - 1) as nat;
        lemma_height_more(dir, dir[id as int].left_sibling, k, m);
        lemma_height_more(dir, dir[id as int].right_sibling, k, m);
        lemma_height_bound(dir, next, k, m, (bound - 1) as nat);
    }
}

/// A tree can be walked with as much fuel as it has levels.
proof fn lemma_in_order_height(dir: Seq<DirEntryView>, id: u32, n: nat)
    requires
        in_order(dir, id, n) is Some,
    ensures
        in_order(dir, id, height(dir, id, n)) == in_order(dir, id, n),
    decreases n,
{
    if id != NO_STREAM {
        let left = dir[id as int].left_sibling;
        let right = dir[id as int].right_sibling;
        let k = (n - 1) as nat;
        let below = (height(dir, id, n) - 1) as nat;
        lemma_in_order_height(dir, left, k);
        lemma_in_order_height(dir, right, k);
        lemma_in_order_more(dir, left, height(dir, left, k), below);
        lemma_in_order_more(dir, right, height(dir, right, k), below);
    }
}

/// A sibling tree that ends at all has no more levels than the directory has
/// entries.  So a tree that does not end with that much fuel never ends, or
/// leads out of the directory.
pub proof fn law_tree_fuel(dir: Seq<DirEntryView>, id: u32, n: nat)
    requires
        in_order(dir, id, n) is Some,
    ensures
        in_order(dir, id, dir.len()) == in_order(dir, id, n),
{
    lemma_deeper_ends(dir, id, n, n);
    lemma_ends_within_bound(deeper_step(dir, n), id, n, dir.len());
    lemma_height_bound(dir, id, n, n, dir.len());
    lemma_in_order_height(dir, id, n);
    lemma_in_order_more(dir, id, height(dir, id, n), dir.len());
}

/// What is below an entry and what is pending after it are what is pending
/// once the way to the left is on the stack.
proof fn lemma_descend(dir: Seq<DirEntryView>, stack: Seq<u32>, id: u32, n: nat)
    requires
        in_order(dir, id, n) is Some,
        pending(dir, stack) is Some,
        n <= dir.len(),
    ensures
        left_spine(dir, id, n) is Some,
        pending(dir, stack + left_spine(dir, id, n)->0) == Some(
            in_order(dir, id, n)->0 + pending(dir, stack)->0,
        ),
    decreases n,
{
    if id == NO_STREAM {
        assert(stack + left_spine(dir, id, n)->0 =~= stack);
        assert(in_order(dir, id, n)->0 + pending(dir, stack)->0 =~= pending(dir, stack)->0);
    } else {
        let left = dir[id as int].left_sibling;
        let right = dir[id as int].right_sibling;
        lemma_in_order_more(dir, right, (n - 1) as nat, dir.len());
        assert(stack.push(id).drop_last() =~= stack);
        lemma_descend(dir, stack.push(id), left, (n - 1) as nat);
        assert(stack + left_spine(dir, id, n)->0 =~= stack.push(id) + left_spine(
            dir,
            left,
            (n - 1) as nat,
        )->0);
        assert(in_order(dir, id, n)->0 + pending(dir, stack)->0 =~= in_order(
            dir,
            left,
            (n - 1) as nat,
        )->0 + pending(dir, stack.push(id))->0);
    }
}

/// A walk comes to the entries from left to right: where there is a rest, the
/// next step ends, comes to the first entry of the rest and leaves the others
/// for later; and it ends the walk just where there is none.
pub proof fn law_walk_in_order(dir: Seq<DirEntryView>, stack: Seq<u32>, current: u32)
    requires
        walk_rest(dir, stack, current) is Some,
    ensures
        left_spine(dir, current, dir.len()) is Some,
        ({
            let rest = walk_rest(dir, stack, current)->0;
            let path = stack + left_spine(dir, current, dir.len())->0;
            &&& rest.len() == 0 <==> path.len() == 0
            &&& path.len() > 0 ==> {
                &&& path.last() < dir.len()
                &&& rest[0] == path.last()
                &&& walk_rest(
                    dir,
                    path.drop_last(),
                    dir[path.last() as int].right_sibling,
                ) == Some(rest.drop_first())
            }
        }),
{
    lemma_descend(dir, stack, current, dir.len());
    let rest = walk_rest(dir, stack, current)->0;
    let path = stack + left_spine(dir, current, dir.len())->0;
    if path.len() > 0 {
        let right = in_order(dir, dir[path.last() as int].right_sibling, dir.len())->0;
        assert(rest.drop_first() =~= right + pending(dir, path.drop_last())->0);
    }
}

/// A walk that starts below an object has all of the sibling tree to come to,
/// from left to right.
pub proof fn law_walk_start(dir: Seq<DirEntryView>, current: u32)
    ensures
        walk_rest(dir, Seq::empty(), current) == in_order(dir, current, dir.len()),
{
    if let Some(below) = in_order(dir, current, dir.len()) {
        assert(below + Seq::<u32>::empty() =~= below);
    }
}

/// What a search finds has the name that was searched for, and is in the tree
/// that was searched.
pub proof fn law_found_is_listed(dir: Seq<DirEntryView>, id: u32, name: Seq<char>, n: nat)
    requires
        in_order(dir, id, n) is Some,
    ensures
        !(find(dir, id, name, n) is Stuck),
        find(dir, id, name, n) matches Lookup::Found(found) ==> {
            &&& found < dir.len()
            &&& name_order(name, dir[found as int].name) is Same
            &&& in_order(dir, id, n)->0.contains(found)
        },
    decreases n,
{
    if id != NO_STREAM {
        let left = in_order(dir, dir[id as int].left_sibling, (n - 1) as nat)->0;
        let right = in_order(dir, dir[id as int].right_sibling, (n - 1) as nat)->0;
        let all = in_order(dir, id, n)->0;
        law_found_is_listed(dir, dir[id as int].left_sibling, name, (n - 1) as nat);
        law_found_is_listed(dir, dir[id as int].right_sibling, name, (n - 1) as nat);
        assert(all[left.len() as int] == id);
        assert forall|x: u32| left.contains(x) || right.contains(x) implies all.contains(x) by {
            if left.contains(x) {
                let i = choose|i: int| 0 <= i < left.len() && left[i] == x;
                assert(all[i] == x);
            } else {
                let i = choose|i: int| 0 <= i < right.len() && right[i] == x;
                assert(all[left.len() + 1 + i] == x);
            }
        }
    }
}

/// In an ordered tree a search finds every entry by its name, and by every
/// name that is the same.
pub proof fn law_listed_is_found(
    dir: Seq<DirEntryView>,
    id: u32,
    name: Seq<char>,
    n: nat,
    i: int,
)
    requires
        is_ordered(dir, id, n),
        in_order(dir, id, n) is Some,
        0 <= i < in_order(dir, id, n)->0.len(),
        name_order(name, dir[in_order(dir, id, n)->0[i] as int].name) is Same,
    ensures
        find(dir, id, name, n) == Lookup::Found(in_order(dir, id, n)->0[i]),
    decreases n,
{
    let left_id = dir[id as int].left_sibling;
    let right_id = dir[id as int].right_sibling;
    let left = in_order(dir, left_id, (n - 1) as nat)->0;
    let right = in_order(dir, right_id, (n - 1) as nat)->0;
    let x = in_order(dir, id, n)->0[i];
    law_same_names_alike(name, dir[x as int].name, dir[id as int].name);
    if i < left.len() {
        assert(left[i] == x);
        law_listed_is_found(dir, left_id, name, (n - 1) as nat, i);
    } else if i > left.len() {
        let j = i - left.len() - 1;
        assert(right[j] == x);
        law_names_swap(dir[id as int].name, dir[x as int].name);
        law_listed_is_found(dir, right_id, name, (n - 1) as nat, j);
    }
}

/// The entries of an ordered tree come in the order of their names, so no two
/// of them have the same name.
pub proof fn law_listing_is_sorted(dir: Seq<DirEntryView>, id: u32, n: nat, i: int, j: int)
    requires
        is_ordered(dir, id, n),
        in_order(dir, id, n) is Some,
        0 <= i < j < in_order(dir, id, n)->0.len(),
    ensures
        name_order(
            dir[in_order(dir, id, n)->0[i] as int].name,
            dir[in_order(dir, id, n)->0[j] as int].name,
        ) is Before,
    decreases n,
{
    let left_id = dir[id as int].left_sibling;
    let right_id = dir[id as int].right_sibling;
    let left = in_order(dir, left_id, (n - 1) as nat)->0;
    let right = in_order(dir, right_id, (n - 1) as nat)->0;
    let k = left.len() as int;
    let x = in_order(dir, id, n)->0[i];
    let y = in_order(dir, id, n)->0[j];
    if i < k {
        assert(left[i] == x);
    }
    if j > k {
        assert(right[j - k - 1] == y);
    }
    if j < k {
        assert(left[j] == y);
        law_listing_is_sorted(dir, left_id, (n - 1) as nat, i, j);
    } else if i > k {
        assert(right[i - k - 1] == x);
        law_listing_is_sorted(dir, right_id, (n - 1) as nat, i - k - 1, j - k - 1);
    } else if i < k && j > k {
        law_names_transitive(dir[x as int].name, dir[id as int].name, dir[y as int].name);
    }
}

/// A path of several names leads to where its last name leads from where the
/// names before it lead.
pub proof fn law_resolve_last(
    dir: Seq<DirEntryView>,
    id: u32,
    names: Seq<Seq<char>>,
    last: Seq<char>,
)
    ensures
        resolve(dir, id, names.push(last)) == match resolve(dir, id, names) {
            Lookup::Found(parent) => resolve(dir, parent, seq![last]),
            end => end,
        },
    decreases names.len(),
{
    if names.len() == 0 {
        assert(names.push(last) =~= seq![last]);
    } else {
        assert(names.push(last).drop_first() =~= names.drop_first().push(last));
        if id < dir.len() {
            if let Lookup::Found(next) = find(dir, dir[id as int].child, names[0], dir.len()) {
                law_resolve_last(dir, next, names.drop_first(), last);
            }
        }
    }
}

/// Names that are the same are found in the same place.
proof fn lemma_same_name_found(
    dir: Seq<DirEntryView>,
    id: u32,
    a: Seq<char>,
    b: Seq<char>,
    n: nat,
)
    requires
        name_order(a, b) is Same,
    ensures
        find(dir, id, a, n) == find(dir, id, b, n),
    decreases n,
{
    if id != NO_STREAM && id < dir.len() && n > 0 {
        law_same_names_alike(a, b, dir[id as int].name);
        lemma_same_name_found(dir, dir[id as int].left_sibling, a, b, (n - 1) as nat);
        lemma_same_name_found(dir, dir[id as int].right_sibling, a, b, (n - 1) as nat);
    }
}

/// Paths whose names are the same, one by one, lead to the same end.
pub proof fn law_same_paths(
    dir: Seq<DirEntryView>,
    id: u32,
    a: Seq<Seq<char>>,
    b: Seq<Seq<char>>,
)
    requires
        a.len() == b.len(),
        forall|i: int| 0 <= i < a.len() ==> name_order(#[trigger] a[i], b[i]) is Same,
    ensures
        resolve(dir, id, a) == resolve(dir, id, b),
    decreases a.len(),
{
    if a.len() > 0 && id < dir.len() {
        let child = dir[id as int].child;
        lemma_same_name_found(dir, child, a[0], b[0], dir.len());
        if let Lookup::Found(next) = find(dir, child, a[0], dir.len()) {
            assert forall|i: int| 0 <= i < a.drop_first().len() implies name_order(
                #[trigger] a.drop_first()[i],
                b.drop_first()[i],
            ) is Same by {
                assert(name_order(a[i + 1], b[i + 1]) is Same);
            }
            law_same_paths(dir, next, a.drop_first(), b.drop_first());
        }
    }
}

/// What a search finds is an entry in the sibling tree that was searched.
proof fn lemma_found_is_below(dir: Seq<DirEntryView>, top: u32, name: Seq<char>, n: nat)
    requires
        find(dir, top, name, n) is Found,
    ensures
        find(dir, top, name, n)->Found_0 != NO_STREAM,
        find(dir, top, name, n)->Found_0 < dir.len(),
        is_linked(dir, top, find(dir, top, name, n)->Found_0, n),
    decreases n,
{
    match name_order(name, dir[top as int].name) {
        NameOrder::Same => {},
        NameOrder::Before => {
            lemma_found_is_below(dir, dir[top as int].left_sibling, name, (n - 1) as nat);
        },
        NameOrder::After => {
            lemma_found_is_below(dir, dir[top as int].right_sibling, name, (n - 1) as nat);
        },
    }
}

/// The first storage that holds an object, where only one does.
proof fn lemma_only_parent(dir: Seq<DirEntryView>, id: u32, parent: u32, from: u32)
    requires
        from <= parent,
        parent != NO_STREAM,
        parent < dir.len(),
        is_parent(dir, parent, id),
        forall|other: u32|
            other < dir.len() && #[trigger] is_parent(dir, other, id) ==> other == parent,
    ensures
        parent_from(dir, id, from) == Some(parent),
    decreases parent - from,
{
    if from < parent {
        lemma_only_parent(dir, id, parent, (from + 1) as u32);
    }
}

/// An object that a name leads to from a storage has that storage as its parent,
/// where no other storage holds it.
pub proof fn law_parent_holds(dir: Seq<DirEntryView>, storage: u32, name: Seq<char>)
    requires
        storage != NO_STREAM,
        storage < dir.len(),
        dir[storage as int].obj_type == OBJ_TYPE_STORAGE || dir[storage as int].obj_type
            == OBJ_TYPE_ROOT,
        find(dir, dir[storage as int].child, name, dir.len()) is Found,
        forall|other: u32|
            other < dir.len() && #[trigger] is_parent(
                dir,
                other,
                find(dir, dir[storage as int].child, name, dir.len())->Found_0,
            ) ==> other == storage,
    ensures
        parent_of(dir, find(dir, dir[storage as int].child, name, dir.len())->Found_0) == Some(
            storage,
        ),
{
    let child = dir[storage as int].child;
    let id = find(dir, child, name, dir.len())->Found_0;
    lemma_found_is_below(dir, child, name, dir.len());
    assert(can_reach(dir, child, id));
    assert(is_parent(dir, storage, id));
    lemma_only_parent(dir, id, storage, 0);
}

/// Names lead to entries of the directory.
pub proof fn law_resolved_is_entry(dir: Seq<DirEntryView>, id: u32, names: Seq<Seq<char>>)
    requires
        id != NO_STREAM,
        id < dir.len(),
    ensures
        resolve(dir, id, names) matches Lookup::Found(found) ==> found != NO_STREAM && found
            < dir.len(),
    decreases names.len(),
{
    if names.len() > 0 {
        let child = dir[id as int].child;
        if let Lookup::Found(next) = find(dir, child, names[0], dir.len()) {
            lemma_found_is_below(dir, child, names[0], dir.len());
            law_resolved_is_entry(dir, next, names.drop_first());
        }
    }
}

} // verus!

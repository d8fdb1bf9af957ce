//! What holds of searches and listings, stated over ways through a sibling tree.

use vstd::prelude::*;

use crate::constants::NO_STREAM;
use crate::dir_entry::DirEntryView;
use crate::directory::{
    can_reach, family_top, find, has_sibling_named, in_order, is_below, is_linked, is_ordered,
    is_parent, parent_from, parent_of, resolve, Lookup,
};
use crate::directory_laws::{
    law_found_is_listed, law_listing_is_sorted, law_resolve_last, law_search_fuel,
};
use crate::text::{law_names_swap, law_same_names_alike, name_order, NameOrder};

verus! {

/// Whether a way through a sibling tree goes over entries only.  It turns to the
/// left or, where the turn is `true`, to the right.
pub open spec fn is_way(dir: Seq<DirEntryView>, top: u32, turns: Seq<bool>) -> bool
    decreases turns.len(),
{
    &&& top != 0xffffffff
    &&& top < dir.len()
    &&& turns.len() > 0 ==> if turns[0] {
        is_way(dir, dir[top as int].right_sibling, turns.drop_first())
    } else {
        is_way(dir, dir[top as int].left_sibling, turns.drop_first())
    }
}

/// Where a way through a sibling tree leads.
pub open spec fn way_end(dir: Seq<DirEntryView>, top: u32, turns: Seq<bool>) -> u32
    decreases turns.len(),
{
    if turns.len() == 0 {
        top
    } else if turns[0] {
        way_end(dir, dir[top as int].right_sibling, turns.drop_first())
    } else {
        way_end(dir, dir[top as int].left_sibling, turns.drop_first())
    }
}

/// Whether a way goes on from another by a turn and more turns.
pub open spec fn goes_on(
    dir: Seq<DirEntryView>,
    top: u32,
    turns: Seq<bool>,
    turn: bool,
    more: Seq<bool>,
) -> bool {
    is_way(dir, top, turns.push(turn) + more)
}

/// Whether, in the whole tree, what lies to the left of an entry has a name that
/// comes before its own, and what lies to the right one that comes after.
pub open spec fn is_search_tree(dir: Seq<DirEntryView>, top: u32) -> bool {
    &&& forall|turns: Seq<bool>, more: Seq<bool>| #[trigger]
        goes_on(dir, top, turns, false, more) ==> name_order(
            dir[way_end(dir, top, turns.push(false) + more) as int].name,
            dir[way_end(dir, top, turns) as int].name,
        ) is Before
    &&& forall|turns: Seq<bool>, more: Seq<bool>| #[trigger]
        goes_on(dir, top, turns, true, more) ==> name_order(
            dir[way_end(dir, top, turns.push(true) + more) as int].name,
            dir[way_end(dir, top, turns) as int].name,
        ) is After
}

/// The entry on one side of another.
spec fn side(dir: Seq<DirEntryView>, id: u32, turn: bool) -> u32 {
    if turn {
        dir[id as int].right_sibling
    } else {
        dir[id as int].left_sibling
    }
}

/// A way that starts with a turn goes on below the entry on that side.
proof fn lemma_way_first(dir: Seq<DirEntryView>, top: u32, turn: bool, turns: Seq<bool>)
    requires
        top != 0xffffffff,
        top < dir.len(),
    ensures
        is_way(dir, top, seq![turn] + turns) == is_way(dir, side(dir, top, turn), turns),
        way_end(dir, top, seq![turn] + turns) == way_end(dir, side(dir, top, turn), turns),
{
    assert((seq![turn] + turns).drop_first() =~= turns);
    assert((seq![turn] + turns)[0] == turn);
}

/// A way leads to an entry.
proof fn lemma_way_end(dir: Seq<DirEntryView>, top: u32, turns: Seq<bool>)
    requires
        is_way(dir, top, turns),
    ensures
        way_end(dir, top, turns) < dir.len(),
        way_end(dir, top, turns) != 0xffffffff,
    decreases turns.len(),
{
    if turns.len() > 0 {
        lemma_way_end(dir, side(dir, top, turns[0]), turns.drop_first());
    }
}

/// A part of a search tree is a search tree.
proof fn lemma_search_part(dir: Seq<DirEntryView>, top: u32, turn: bool)
    requires
        is_search_tree(dir, top),
        top != 0xffffffff,
        top < dir.len(),
    ensures
        is_search_tree(dir, side(dir, top, turn)),
{
    let c = side(dir, top, turn);
    assert forall|turns: Seq<bool>, more: Seq<bool>| #[trigger]
        goes_on(dir, c, turns, false, more) implies name_order(
        dir[way_end(dir, c, turns.push(false) + more) as int].name,
        dir[way_end(dir, c, turns) as int].name,
    ) is Before by {
        let longer = seq![turn] + turns;
        assert(longer.push(false) + more =~= seq![turn] + (turns.push(false) + more));
        lemma_way_first(dir, top, turn, turns.push(false) + more);
        lemma_way_first(dir, top, turn, turns);
        assert(goes_on(dir, top, longer, false, more));
    }
    assert forall|turns: Seq<bool>, more: Seq<bool>| #[trigger]
        goes_on(dir, c, turns, true, more) implies name_order(
        dir[way_end(dir, c, turns.push(true) + more) as int].name,
        dir[way_end(dir, c, turns) as int].name,
    ) is After by {
        let longer = seq![turn] + turns;
        assert(longer.push(true) + more =~= seq![turn] + (turns.push(true) + more));
        lemma_way_first(dir, top, turn, turns.push(true) + more);
        lemma_way_first(dir, top, turn, turns);
        assert(goes_on(dir, top, longer, true, more));
    }
}

/// How the name at the end of a way lies to the name at its start.
proof fn lemma_side_order(dir: Seq<DirEntryView>, top: u32, turns: Seq<bool>)
    requires
        is_search_tree(dir, top),
        is_way(dir, top, turns),
        turns.len() > 0,
    ensures
        name_order(dir[way_end(dir, top, turns) as int].name, dir[top as int].name) == if turns[0] {
            NameOrder::After
        } else {
            NameOrder::Before
        },
{
    let none = Seq::<bool>::empty();
    let rest = turns.drop_first();
    assert(none.push(turns[0]) + rest =~= turns);
    assert(goes_on(dir, top, none, turns[0], rest));
    assert(way_end(dir, top, none) == top);
}

/// A search in a search tree finds the entry at the end of a way by its name, if
/// it goes on for long enough.
proof fn lemma_search_goes_there(
    dir: Seq<DirEntryView>,
    top: u32,
    turns: Seq<bool>,
    name: Seq<char>,
    n: nat,
)
    requires
        is_search_tree(dir, top),
        is_way(dir, top, turns),
        name_order(name, dir[way_end(dir, top, turns) as int].name) is Same,
        turns.len() < n,
    ensures
        find(dir, top, name, n) == Lookup::Found(way_end(dir, top, turns)),
    decreases turns.len(),
{
    if turns.len() > 0 {
        let end = way_end(dir, top, turns);
        lemma_side_order(dir, top, turns);
        law_same_names_alike(name, dir[end as int].name, dir[top as int].name);
        lemma_search_part(dir, top, turns[0]);
        lemma_search_goes_there(
            dir,
            side(dir, top, turns[0]),
            turns.drop_first(),
            name,
            (n - 1) as nat,
        );
    }
}

/// In a search tree, a search finds every entry that a way leads to, by its name
/// and by every name that is the same.
pub proof fn law_search_finds(
    dir: Seq<DirEntryView>,
    top: u32,
    turns: Seq<bool>,
    name: Seq<char>,
)
    requires
        is_search_tree(dir, top),
        is_way(dir, top, turns),
        name_order(name, dir[way_end(dir, top, turns) as int].name) is Same,
    ensures
        find(dir, top, name, dir.len()) == Lookup::Found(way_end(dir, top, turns)),
{
    lemma_search_goes_there(dir, top, turns, name, turns.len() + 1);
    law_search_fuel(dir, top, name, turns.len() + 1);
}

/// What a search finds has the name that was looked for, and a way leads to it.
pub proof fn law_search_is_right(dir: Seq<DirEntryView>, top: u32, name: Seq<char>, n: nat) -> (
    turns: Seq<bool>)
    requires
        find(dir, top, name, n) is Found,
    ensures
        is_way(dir, top, turns),
        way_end(dir, top, turns) == find(dir, top, name, n)->Found_0,
        name_order(name, dir[find(dir, top, name, n)->Found_0 as int].name) is Same,
    decreases n,
{
    match name_order(name, dir[top as int].name) {
        NameOrder::Same => Seq::empty(),
        NameOrder::Before => {
            let rest = law_search_is_right(
                dir,
                dir[top as int].left_sibling,
                name,
                (n - 1) as nat,
            );
            lemma_way_first(dir, top, false, rest);
            seq![false] + rest
        },
        NameOrder::After => {
            let rest = law_search_is_right(
                dir,
                dir[top as int].right_sibling,
                name,
                (n - 1) as nat,
            );
            lemma_way_first(dir, top, true, rest);
            seq![true] + rest
        },
    }
}

/// A search in a search tree misses a name only where no way leads to an entry
/// that has it.
pub proof fn law_search_misses(
    dir: Seq<DirEntryView>,
    top: u32,
    turns: Seq<bool>,
    name: Seq<char>,
)
    requires
        is_search_tree(dir, top),
        find(dir, top, name, dir.len()) is Missing,
        is_way(dir, top, turns),
    ensures
        !(name_order(name, dir[way_end(dir, top, turns) as int].name) is Same),
{
    if name_order(name, dir[way_end(dir, top, turns) as int].name) is Same {
        law_search_finds(dir, top, turns, name);
    }
}

/// In a tree that ends, a name is missed where no way leads to an entry that has
/// it.
pub proof fn law_name_is_missing(dir: Seq<DirEntryView>, top: u32, name: Seq<char>)
    requires
        in_order(dir, top, dir.len()) is Some,
        forall|turns: Seq<bool>| #[trigger]
            is_way(dir, top, turns) ==> !(name_order(
                name,
                dir[way_end(dir, top, turns) as int].name,
            ) is Same),
    ensures
        find(dir, top, name, dir.len()) is Missing,
{
    law_found_is_listed(dir, top, name, dir.len());
    if find(dir, top, name, dir.len()) is Found {
        let turns = law_search_is_right(dir, top, name, dir.len());
        assert(is_way(dir, top, turns));
    }
}

/// Whether a way leads from an entry to one within it, which has the given name,
/// in a search tree.
pub open spec fn is_step(
    dir: Seq<DirEntryView>,
    id: u32,
    name: Seq<char>,
    way: Seq<bool>,
    next: u32,
) -> bool {
    &&& id < dir.len()
    &&& is_search_tree(dir, dir[id as int].child)
    &&& is_way(dir, dir[id as int].child, way)
    &&& next == way_end(dir, dir[id as int].child, way)
    &&& name_order(name, dir[next as int].name) is Same
}

/// Whether names lead through entries, each of them within the one before.
pub open spec fn is_route(
    dir: Seq<DirEntryView>,
    names: Seq<Seq<char>>,
    ids: Seq<u32>,
    ways: Seq<Seq<bool>>,
) -> bool {
    &&& ids.len() == names.len() + 1
    &&& ways.len() == names.len()
    &&& forall|i: int|
        0 <= i < names.len() ==> is_step(dir, ids[i], #[trigger] names[i], ways[i], ids[i + 1])
}

/// A step that a way leads is found.
proof fn lemma_step_is_found(
    dir: Seq<DirEntryView>,
    id: u32,
    name: Seq<char>,
    way: Seq<bool>,
    next: u32,
)
    requires
        is_step(dir, id, name, way, next),
    ensures
        resolve(dir, id, seq![name]) == Lookup::Found(next),
{
    law_search_finds(dir, dir[id as int].child, way, name);
    let one = seq![name];
    assert(one.drop_first() =~= Seq::<Seq<char>>::empty());
    assert(one[0] == name);
    assert(resolve(dir, next, Seq::empty()) == Lookup::Found(next));
}

/// Names that lead through entries lead to the last of them.
pub proof fn law_names_lead(
    dir: Seq<DirEntryView>,
    names: Seq<Seq<char>>,
    ids: Seq<u32>,
    ways: Seq<Seq<bool>>,
)
    requires
        is_route(dir, names, ids, ways),
    ensures
        resolve(dir, ids[0], names) == Lookup::Found(ids[ids.len() - 1]),
    decreases names.len(),
{
    if names.len() > 0 {
        let k = names.len() - 1;
        let front = names.drop_last();
        assert(is_step(dir, ids[k], names[k], ways[k], ids[k + 1]));
        assert(is_route(dir, front, ids.drop_last(), ways.drop_last())) by {
            assert forall|i: int| 0 <= i < front.len() implies is_step(
                dir,
                ids.drop_last()[i],
                #[trigger] front[i],
                ways.drop_last()[i],
                ids.drop_last()[i + 1],
            ) by {
                assert(is_step(dir, ids[i], names[i], ways[i], ids[i + 1]));
            }
        }
        law_names_lead(dir, front, ids.drop_last(), ways.drop_last());
        assert(front.push(names[k]) =~= names);
        law_resolve_last(dir, ids[0], front, names[k]);
        lemma_step_is_found(dir, ids[k], names[k], ways[k], ids[k + 1]);
    }
}

/// Every entry that a way leads to is listed.
pub proof fn law_all_are_listed(dir: Seq<DirEntryView>, top: u32, turns: Seq<bool>, n: nat)
    requires
        in_order(dir, top, n) is Some,
        is_way(dir, top, turns),
    ensures
        in_order(dir, top, n)->0.contains(way_end(dir, top, turns)),
    decreases turns.len(),
{
    let left = in_order(dir, dir[top as int].left_sibling, (n - 1) as nat)->0;
    let right = in_order(dir, dir[top as int].right_sibling, (n - 1) as nat)->0;
    let all = in_order(dir, top, n)->0;
    let end = way_end(dir, top, turns);
    if turns.len() == 0 {
        assert(all[left.len() as int] == top);
    } else {
        law_all_are_listed(dir, side(dir, top, turns[0]), turns.drop_first(), (n - 1) as nat);
        if turns[0] {
            let i = choose|i: int| 0 <= i < right.len() && right[i] == end;
            assert(all[left.len() + 1 + i] == end);
        } else {
            let i = choose|i: int| 0 <= i < left.len() && left[i] == end;
            assert(all[i] == end);
        }
    }
}

/// A way leads to everything that is listed.
pub proof fn law_listed_has_way(dir: Seq<DirEntryView>, top: u32, n: nat, i: int) -> (turns: Seq<
    bool,
>)
    requires
        in_order(dir, top, n) is Some,
        0 <= i < in_order(dir, top, n)->0.len(),
    ensures
        is_way(dir, top, turns),
        way_end(dir, top, turns) == in_order(dir, top, n)->0[i],
    decreases n,
{
    let left = in_order(dir, dir[top as int].left_sibling, (n - 1) as nat)->0;
    let right = in_order(dir, dir[top as int].right_sibling, (n - 1) as nat)->0;
    let all = in_order(dir, top, n)->0;
    if i < left.len() {
        assert(all[i] == left[i]);
        let rest = law_listed_has_way(
            dir,
            dir[top as int].left_sibling,
            (n - 1) as nat,
            i,
        );
        lemma_way_first(dir, top, false, rest);
        seq![false] + rest
    } else if i > left.len() {
        let j = i - left.len() - 1;
        assert(all[i] == right[j]);
        let rest = law_listed_has_way(
            dir,
            dir[top as int].right_sibling,
            (n - 1) as nat,
            j,
        );
        lemma_way_first(dir, top, true, rest);
        seq![true] + rest
    } else {
        Seq::empty()
    }
}

/// A search tree is in order.
pub(crate) proof fn lemma_search_tree_ordered(dir: Seq<DirEntryView>, top: u32, n: nat)
    requires
        is_search_tree(dir, top),
        in_order(dir, top, n) is Some,
    ensures
        is_ordered(dir, top, n),
    decreases n,
{
    if top != NO_STREAM {
        let k = (n - 1) as nat;
        let l = dir[top as int].left_sibling;
        let r = dir[top as int].right_sibling;
        let left = in_order(dir, l, k)->0;
        let right = in_order(dir, r, k)->0;
        lemma_search_part(dir, top, false);
        lemma_search_part(dir, top, true);
        lemma_search_tree_ordered(dir, l, k);
        lemma_search_tree_ordered(dir, r, k);
        assert forall|i: int| 0 <= i < left.len() implies name_order(
            dir[#[trigger] left[i] as int].name,
            dir[top as int].name,
        ) is Before by {
            let turns = law_listed_has_way(dir, l, k, i);
            lemma_way_first(dir, top, false, turns);
            lemma_side_order(dir, top, seq![false] + turns);
        }
        assert forall|i: int| 0 <= i < right.len() implies name_order(
            dir[top as int].name,
            dir[#[trigger] right[i] as int].name,
        ) is Before by {
            let turns = law_listed_has_way(dir, r, k, i);
            lemma_way_first(dir, top, true, turns);
            lemma_side_order(dir, top, seq![true] + turns);
            law_names_swap(dir[right[i] as int].name, dir[top as int].name);
        }
    }
}

/// What a search tree holds is listed in the order of the names, so nothing is
/// listed twice.
pub proof fn law_listed_in_order(dir: Seq<DirEntryView>, top: u32, n: nat, i: int, j: int)
    requires
        is_search_tree(dir, top),
        in_order(dir, top, n) is Some,
        0 <= i < j < in_order(dir, top, n)->0.len(),
    ensures
        name_order(
            dir[in_order(dir, top, n)->0[i] as int].name,
            dir[in_order(dir, top, n)->0[j] as int].name,
        ) is Before,
        in_order(dir, top, n)->0[i] != in_order(dir, top, n)->0[j],
{
    lemma_search_tree_ordered(dir, top, n);
    law_listing_is_sorted(dir, top, n, i, j);
    let name = dir[in_order(dir, top, n)->0[i] as int].name;
    law_names_swap(name, name);
}

/// A way is made of links.
proof fn lemma_way_links(dir: Seq<DirEntryView>, top: u32, turns: Seq<bool>)
    requires
        is_way(dir, top, turns),
    ensures
        is_linked(dir, top, way_end(dir, top, turns), turns.len()),
    decreases turns.len(),
{
    if turns.len() > 0 {
        lemma_way_links(dir, side(dir, top, turns[0]), turns.drop_first());
    }
}

/// Links that lead to an entry are a way.
proof fn lemma_links_way(dir: Seq<DirEntryView>, top: u32, id: u32, n: nat) -> (turns: Seq<bool>)
    requires
        is_linked(dir, top, id, n),
        id != 0xffffffff,
        id < dir.len(),
    ensures
        is_way(dir, top, turns),
        way_end(dir, top, turns) == id,
    decreases n,
{
    if top == id {
        Seq::empty()
    } else if is_linked(dir, dir[top as int].left_sibling, id, (n - 1) as nat) {
        let rest = lemma_links_way(dir, dir[top as int].left_sibling, id, (n - 1) as nat);
        lemma_way_first(dir, top, false, rest);
        seq![false] + rest
    } else {
        let rest = lemma_links_way(dir, dir[top as int].right_sibling, id, (n - 1) as nat);
        lemma_way_first(dir, top, true, rest);
        seq![true] + rest
    }
}

/// An entry is below another just where a way leads to it.
proof fn lemma_below(dir: Seq<DirEntryView>, top: u32, turns: Seq<bool>)
    requires
        is_way(dir, top, turns),
    ensures
        is_below(dir, top, way_end(dir, top, turns)),
{
    lemma_way_end(dir, top, turns);
    lemma_way_links(dir, top, turns);
    assert(can_reach(dir, top, way_end(dir, top, turns)));
}

/// The way to an entry that is below another.
proof fn lemma_way_below(dir: Seq<DirEntryView>, top: u32, id: u32) -> (turns: Seq<bool>)
    requires
        is_below(dir, top, id),
    ensures
        is_way(dir, top, turns),
        way_end(dir, top, turns) == id,
{
    let n = choose|n: nat| is_linked(dir, top, id, n);
    lemma_links_way(dir, top, id, n)
}

/// Whether an entry is a storage, or the root, from whose child a way leads to
/// the object `id`.
pub open spec fn holds(dir: Seq<DirEntryView>, storage: u32, id: u32) -> bool {
    &&& storage != 0xffffffff
    &&& storage < dir.len()
    &&& dir[storage as int].obj_type == 1 || dir[storage as int].obj_type == 5
    &&& exists|turns: Seq<bool>| #[trigger]
        is_way(dir, dir[storage as int].child, turns) && way_end(
            dir,
            dir[storage as int].child,
            turns,
        ) == id
}

/// A storage is a parent just where it holds the object.
proof fn lemma_holds_is_parent(dir: Seq<DirEntryView>, storage: u32, id: u32)
    requires
        storage != 0xffffffff,
        storage < dir.len(),
    ensures
        holds(dir, storage, id) <==> is_parent(dir, storage, id),
{
    let child = dir[storage as int].child;
    if holds(dir, storage, id) {
        let turns = choose|turns: Seq<bool>| #[trigger]
            is_way(dir, child, turns) && way_end(dir, child, turns) == id;
        lemma_below(dir, child, turns);
    }
    if is_parent(dir, storage, id) {
        let turns = lemma_way_below(dir, child, id);
        assert(is_way(dir, child, turns));
    }
}

/// No parent is found before the first one.
proof fn lemma_first_parent(dir: Seq<DirEntryView>, id: u32, from: u32)
    ensures
        parent_from(dir, id, from) matches Some(parent) ==> {
            &&& holds(dir, parent, id)
            &&& from <= parent
            &&& forall|other: u32| from <= other < parent ==> !#[trigger] holds(dir, other, id)
        },
        parent_from(dir, id, from) is None ==> forall|other: u32|
            from <= other ==> !#[trigger] holds(dir, other, id),
    decreases 0xffffffff - from,
{
    if from != NO_STREAM && from < dir.len() {
        lemma_holds_is_parent(dir, from, id);
        if !is_parent(dir, from, id) {
            lemma_first_parent(dir, id, (from + 1) as u32);
        }
    }
}

/// The parent of an object is the first storage that holds it, and there is none
/// just where no storage does.
pub proof fn law_parent_is_first_holder(dir: Seq<DirEntryView>, id: u32)
    ensures
        match parent_of(dir, id) {
            Some(parent) => {
                &&& holds(dir, parent, id)
                &&& forall|other: u32| other < parent ==> !#[trigger] holds(dir, other, id)
            },
            None => forall|other: u32| !#[trigger] holds(dir, other, id),
        },
{
    lemma_first_parent(dir, id, 0);
}

/// A name is taken where another entry has it to which a way leads in the tree
/// that the object is in: below what its parent holds, or below itself where no
/// storage holds it.
pub proof fn law_name_is_taken(
    dir: Seq<DirEntryView>,
    id: u32,
    name: Seq<char>,
    turns: Seq<bool>,
)
    requires
        ({
            let top = match parent_of(dir, id) {
                Some(parent) => dir[parent as int].child,
                None => id,
            };
            &&& is_way(dir, top, turns)
            &&& way_end(dir, top, turns) != id
            &&& name_order(name, dir[way_end(dir, top, turns) as int].name) is Same
        }),
    ensures
        has_sibling_named(dir, id, name),
{
    lemma_below(dir, family_top(dir, id), turns);
    assert(is_below(dir, family_top(dir, id), way_end(dir, family_top(dir, id), turns)));
}

/// Where a name is taken, a way leads to another entry that has it.
pub proof fn law_taken_by_sibling(dir: Seq<DirEntryView>, id: u32, name: Seq<char>) -> (turns: Seq<
    bool,
>)
    requires
        has_sibling_named(dir, id, name),
    ensures
        ({
            let top = match parent_of(dir, id) {
                Some(parent) => dir[parent as int].child,
                None => id,
            };
            &&& is_way(dir, top, turns)
            &&& way_end(dir, top, turns) != id
            &&& name_order(name, dir[way_end(dir, top, turns) as int].name) is Same
        }),
{
    let top = family_top(dir, id);
    let other = choose|other: u32|
        other != id && #[trigger] is_below(dir, top, other) && name_order(
            name,
            dir[other as int].name,
        ) is Same;
    lemma_way_below(dir, top, other)
}

} // verus!

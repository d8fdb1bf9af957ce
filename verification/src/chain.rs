//! Chains of numbers, each of which leads to the next.

use vstd::prelude::*;

verus! {

/// Whether a chain ends after at most `n` steps.  A number that leads to none
/// is an end.
pub open spec fn ends_within(next: spec_fn(u32) -> Option<u32>, x: u32, n: nat) -> bool
    decreases n,
{
    match next(x) {
        None => true,
        Some(y) => n > 0 && ends_within(next, y, (n - 1) as nat),
    }
}

/// The numbers of a chain that lead to another, among the first `n`.
spec fn links(next: spec_fn(u32) -> Option<u32>, x: u32, n: nat) -> Seq<u32>
    decreases n,
{
    match next(x) {
        None => Seq::empty(),
        Some(y) => if n > 0 {
            seq![x] + links(next, y, (n - 1) as nat)
        } else {
            Seq::empty()
        },
    }
}

/// A chain that ends does so with more steps to spare, too, and is as long.
proof fn lemma_ends_with_more(next: spec_fn(u32) -> Option<u32>, x: u32, n: nat, m: nat)
    requires
        ends_within(next, x, n),
        n <= m,
    ensures
        ends_within(next, x, m),
        links(next, x, m) == links(next, x, n),
    decreases n,
{
    if let Some(y) = next(x) {
        lemma_ends_with_more(next, y, (n - 1) as nat, (m - 1) as nat);
    }
}

/// A chain that ends does so after as many steps as it has links.
proof fn lemma_ends_after_links(next: spec_fn(u32) -> Option<u32>, x: u32, n: nat)
    requires
        ends_within(next, x, n),
    ensures
        ends_within(next, x, links(next, x, n).len()),
    decreases n,
{
    if let Some(y) = next(x) {
        lemma_ends_after_links(next, y, (n - 1) as nat);
    }
}

/// The rest of a chain is the chain of the number that it starts with.
proof fn lemma_links_from(next: spec_fn(u32) -> Option<u32>, x: u32, n: nat, i: int)
    requires
        ends_within(next, x, n),
        0 <= i < links(next, x, n).len(),
    ensures
        i <= n,
        next(links(next, x, n)[i]) is Some,
        ends_within(next, links(next, x, n)[i], (n - i) as nat),
        links(next, links(next, x, n)[i], (n - i) as nat).len() == links(next, x, n).len() - i,
    decreases n,
{
    if i > 0 {
        let y = next(x)->0;
        lemma_links_from(next, y, (n - 1) as nat, i - 1);
        assert(links(next, x, n)[i] == links(next, y, (n - 1) as nat)[i - 1]);
    }
}

/// A chain that ends at all, and whose links are all below a bound, ends after
/// no more steps than the bound.
pub proof fn lemma_ends_within_bound(
    next: spec_fn(u32) -> Option<u32>,
    x: u32,
    n: nat,
    bound: nat,
)
    requires
        ends_within(next, x, n),
        forall|y: u32| #[trigger] next(y) is Some ==> y < bound,
    ensures
        ends_within(next, x, bound),
{
    let all = links(next, x, n);
    assert forall|i: int, j: int| 0 <= i < j < all.len() implies all[i] != all[j] by {
        lemma_links_from(next, x, n, i);
        lemma_links_from(next, x, n, j);
        if all[i] == all[j] {
            lemma_ends_with_more(next, all[i], (n - j) as nat, (n - i) as nat);
        }
    }
    let ints = all.map_values(|y: u32| y as int);
    assert(ints.no_duplicates());
    ints.unique_seq_to_set();
    let range = vstd::set_lib::set_int_range(0, bound as int);
    vstd::set_lib::lemma_int_range(0, bound as int);
    assert forall|y: int| ints.to_set().contains(y) implies range.contains(y) by {
        let i = choose|i: int| 0 <= i < ints.len() && ints[i] == y;
        lemma_links_from(next, x, n, i);
    }
    vstd::set_lib::lemma_len_subset(ints.to_set(), range);
    lemma_ends_after_links(next, x, n);
    lemma_ends_with_more(next, x, all.len(), bound);
}

} // verus!

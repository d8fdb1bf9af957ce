//! Names: their UTF-16 form and their order.

use std::cmp::Ordering;

use vstd::prelude::*;
use vstd::utf8::{encode_utf8, encode_utf8_decode_utf8};

verus! {

/// The UTF-16 code units of a character.
pub open spec fn char_units(c: char) -> Seq<u16> {
    let n = c as u32;
    if n < 0x1_0000 {
        seq![n as u16]
    } else {
        seq![(0xd800 + (n - 0x1_0000) / 0x400) as u16, (0xdc00 + (n - 0x1_0000) % 0x400) as u16]
    }
}

/// A text in UTF-16.
pub open spec fn utf16(s: Seq<char>) -> Seq<u16>
    decreases s.len(),
{
    if s.len() == 0 {
        Seq::empty()
    } else {
        char_units(s[0]) + utf16(s.drop_first())
    }
}

/// Whether a code unit is the first of a pair.
pub open spec fn is_high_surrogate(unit: u16) -> bool {
    0xd800 <= unit < 0xdc00
}

/// Whether a code unit is the second of a pair.
pub open spec fn is_low_surrogate(unit: u16) -> bool {
    0xdc00 <= unit < 0xe000
}

/// The text that code units stand for, with U+FFFD for each surrogate that is
/// not one of a pair.
pub open spec fn utf16_lossy(units: Seq<u16>) -> Seq<char>
    decreases units.len(),
{
    if units.len() == 0 {
        Seq::empty()
    } else if is_high_surrogate(units[0]) && units.len() >= 2 && is_low_surrogate(units[1]) {
        seq![(0x1_0000 + (units[0] - 0xd800) * 0x400 + (units[1] - 0xdc00)) as char]
            + utf16_lossy(units.skip(2))
    } else if is_high_surrogate(units[0]) || is_low_surrogate(units[0]) {
        seq!['\u{FFFD}'] + utf16_lossy(units.skip(1))
    } else {
        seq![units[0] as char] + utf16_lossy(units.skip(1))
    }
}

/// Calls `str::encode_utf16`, which gives the text in UTF-16.
#[verifier::external_body]
pub(crate) fn encode_utf16(s: &str) -> (r: Vec<u16>)
    ensures
        r@ == utf16(s@),
{
    s.encode_utf16().collect()
}

/// Calls `String::from_utf16_lossy`, which decodes UTF-16 and puts U+FFFD in
/// the place of every surrogate that is not one of a pair.
#[verifier::external_body]
pub(crate) fn from_utf16_lossy(units: &[u16]) -> (r: String)
    ensures
        r@ == utf16_lossy(units@),
{
    String::from_utf16_lossy(units)
}

/// The text in upper case, as Unicode defines it.
pub uninterp spec fn uppercase(s: Seq<char>) -> Seq<char>;

/// Calls `str::to_uppercase`, which gives the text in upper case.
#[verifier::external_body]
fn to_uppercase(s: &str) -> (r: String)
    ensures
        r@ == uppercase(s@),
{
    s.to_uppercase()
}

/// How one name lies to another.
pub enum NameOrder {
    /// It comes before the other.
    Before,
    /// They are the same name.
    Same,
    /// It comes after the other.
    After,
}

/// The order with the sides swapped.
pub open spec fn reversed(order: NameOrder) -> NameOrder {
    match order {
        NameOrder::Before => NameOrder::After,
        NameOrder::Same => NameOrder::Same,
        NameOrder::After => NameOrder::Before,
    }
}

/// The order of byte strings: that of the first bytes that differ, and where
/// none do the shorter one first.
pub open spec fn lex_order(a: Seq<u8>, b: Seq<u8>) -> NameOrder
    decreases a.len(),
{
    if a.len() == 0 && b.len() == 0 {
        NameOrder::Same
    } else if a.len() == 0 {
        NameOrder::Before
    } else if b.len() == 0 {
        NameOrder::After
    } else if a[0] < b[0] {
        NameOrder::Before
    } else if a[0] > b[0] {
        NameOrder::After
    } else {
        lex_order(a.drop_first(), b.drop_first())
    }
}

/// The order of two names, given how many UTF-16 code units each has and its
/// upper-case form: the shorter first, and among names of one length by the
/// bytes of the upper-case forms.
pub open spec fn folded_order(
    units1: nat,
    upper1: Seq<char>,
    units2: nat,
    upper2: Seq<char>,
) -> NameOrder {
    if units1 < units2 {
        NameOrder::Before
    } else if units1 > units2 {
        NameOrder::After
    } else {
        lex_order(encode_utf8(upper1), encode_utf8(upper2))
    }
}

/// The same, for numbers of code units that an executable function counted.
pub open spec fn counted_order(
    units1: usize,
    upper1: Seq<char>,
    units2: usize,
    upper2: Seq<char>,
) -> NameOrder {
    folded_order(units1 as nat, upper1, units2 as nat, upper2)
}

/// The order of two names in a directory.
pub open spec fn name_order(name1: Seq<char>, name2: Seq<char>) -> NameOrder {
    folded_order(utf16(name1).len(), uppercase(name1), utf16(name2).len(), uppercase(name2))
}

/// The value that an executable comparison returns for an order.
pub open spec fn ordering_of(order: NameOrder) -> Ordering {
    match order {
        NameOrder::Before => Ordering::Less,
        NameOrder::Same => Ordering::Equal,
        NameOrder::After => Ordering::Greater,
    }
}

/// Finds the order of byte strings.
fn order_bytes(a: &[u8], b: &[u8]) -> (r: NameOrder)
    ensures
        r == lex_order(a@, b@),
{
    let mut i: usize = 0;
    assert(a@.skip(0) =~= a@ && b@.skip(0) =~= b@);
    while i < a.len() && i < b.len()
        invariant
            i <= a@.len(),
            i <= b@.len(),
            lex_order(a@, b@) == lex_order(a@.skip(i as int), b@.skip(i as int)),
        decreases a@.len() - i,
    {
        if a[i] < b[i] {
            return NameOrder::Before;
        }
        if a[i] > b[i] {
            return NameOrder::After;
        }
        assert(a@.skip(i as int).drop_first() =~= a@.skip(i + 1));
        assert(b@.skip(i as int).drop_first() =~= b@.skip(i + 1));
        i += 1;
    }
    if i < b.len() {
        NameOrder::Before
    } else if i < a.len() {
        NameOrder::After
    } else {
        NameOrder::Same
    }
}

/// Compares two names of which the number of UTF-16 code units and the
/// upper-case form are known.
pub fn compare_folded(units1: usize, upper1: &str, units2: usize, upper2: &str) -> (r: Ordering)
    ensures
        r == ordering_of(counted_order(units1, upper1@, units2, upper2@)),
{
    if units1 < units2 {
        Ordering::Less
    } else if units1 > units2 {
        Ordering::Greater
    } else {
        match order_bytes(upper1.as_bytes(), upper2.as_bytes()) {
            NameOrder::Before => Ordering::Less,
            NameOrder::Same => Ordering::Equal,
            NameOrder::After => Ordering::Greater,
        }
    }
}

/// Compares two directory entry names according to CFB ordering, which is
/// case-insensitive, and which always puts shorter names before longer names,
/// as encoded in UTF-16 (i.e. shortlex order, rather than dictionary order).
pub fn compare_names(name1: &str, name2: &str) -> (r: Ordering)
    ensures
        r == ordering_of(name_order(name1@, name2@)),
{
    let units1 = encode_utf16(name1);
    let units2 = encode_utf16(name2);
    let upper1 = to_uppercase(name1);
    let upper2 = to_uppercase(name2);
    compare_folded(units1.len(), upper1.as_str(), units2.len(), upper2.as_str())
}

/// What a comparison returns for a name that comes before the other, for the same
/// name, and for one that comes after.
pub proof fn law_ordering_values()
    ensures
        ordering_of(NameOrder::Before) == Ordering::Less,
        ordering_of(NameOrder::Same) == Ordering::Equal,
        ordering_of(NameOrder::After) == Ordering::Greater,
{
}

/// Swapping the sides turns the order of byte strings around.
proof fn lemma_lex_swap(a: Seq<u8>, b: Seq<u8>)
    ensures
        lex_order(b, a) == reversed(lex_order(a, b)),
        lex_order(a, b) is Same <==> a == b,
    decreases a.len(),
{
    if a.len() > 0 && b.len() > 0 {
        lemma_lex_swap(a.drop_first(), b.drop_first());
        if a[0] == b[0] && a.drop_first() == b.drop_first() {
            assert(a =~= seq![a[0]] + a.drop_first());
            assert(b =~= seq![b[0]] + b.drop_first());
        }
    } else if a.len() == 0 && b.len() == 0 {
        assert(a =~= b);
    }
}

/// The order of byte strings goes from one to the next.
proof fn lemma_lex_transitive(a: Seq<u8>, b: Seq<u8>, c: Seq<u8>)
    requires
        lex_order(a, b) is Before,
        lex_order(b, c) is Before,
    ensures
        lex_order(a, c) is Before,
    decreases a.len(),
{
    if a.len() > 0 && b.len() > 0 && c.len() > 0 {
        if a[0] == b[0] && b[0] == c[0] {
            lemma_lex_transitive(a.drop_first(), b.drop_first(), c.drop_first());
        }
    }
}

/// A name comes before another just where that one comes after it.
pub proof fn law_names_swap(name1: Seq<char>, name2: Seq<char>)
    ensures
        name_order(name2, name1) == reversed(name_order(name1, name2)),
{
    lemma_lex_swap(encode_utf8(uppercase(name1)), encode_utf8(uppercase(name2)));
}

/// Two names are the same just where they have equally many UTF-16 code units
/// and are alike in upper case.  So every name is the same as itself.
pub proof fn law_same_names(name1: Seq<char>, name2: Seq<char>)
    ensures
        name_order(name1, name2) is Same <==> utf16(name1).len() == utf16(name2).len() && uppercase(
            name1,
        ) == uppercase(name2),
{
    lemma_lex_swap(encode_utf8(uppercase(name1)), encode_utf8(uppercase(name2)));
    encode_utf8_decode_utf8(uppercase(name1));
    encode_utf8_decode_utf8(uppercase(name2));
}

/// The order of names goes from one to the next.
pub proof fn law_names_transitive(name1: Seq<char>, name2: Seq<char>, name3: Seq<char>)
    requires
        name_order(name1, name2) is Before,
        name_order(name2, name3) is Before,
    ensures
        name_order(name1, name3) is Before,
{
    if utf16(name1).len() == utf16(name2).len() && utf16(name2).len() == utf16(name3).len() {
        lemma_lex_transitive(
            encode_utf8(uppercase(name1)),
            encode_utf8(uppercase(name2)),
            encode_utf8(uppercase(name3)),
        );
    }
}

/// A name can be replaced by a name that is the same.
pub proof fn law_same_names_alike(name1: Seq<char>, name2: Seq<char>, other: Seq<char>)
    requires
        name_order(name1, name2) is Same,
    ensures
        name_order(name1, other) == name_order(name2, other),
        name_order(other, name1) == name_order(other, name2),
{
    law_same_names(name1, name2);
}

/// A name with fewer UTF-16 code units comes first, whatever it is.
pub proof fn law_shorter_name_first(name1: Seq<char>, name2: Seq<char>)
    requires
        utf16(name1).len() < utf16(name2).len(),
    ensures
        name_order(name1, name2) is Before,
{
}

/// A character has two code units at most.
pub proof fn lemma_utf16_len(s: Seq<char>)
    ensures
        s.len() <= utf16(s).len() <= 2 * s.len(),
    decreases s.len(),
{
    if s.len() > 0 {
        lemma_utf16_len(s.drop_first());
    }
}

/// Decoding takes the code units of a first character off.
proof fn lemma_decode_first(c: char, rest: Seq<u16>)
    ensures
        utf16_lossy(char_units(c) + rest) == seq![c] + utf16_lossy(rest),
{
    let units = char_units(c) + rest;
    if (c as u32) < 0x1_0000 {
        assert(units.skip(1) =~= rest);
    } else {
        assert(units.skip(2) =~= rest);
    }
}

/// Decoding the UTF-16 form of a text gives the text back.
pub proof fn law_utf16_round_trip(s: Seq<char>)
    ensures
        utf16_lossy(utf16(s)) == s,
    decreases s.len(),
{
    if s.len() > 0 {
        let rest = s.drop_first();
        law_utf16_round_trip(rest);
        lemma_decode_first(s[0], utf16(rest));
        assert(seq![s[0]] + rest =~= s);
    }
}

/// A text of one character more has the code units of that character more.
proof fn lemma_utf16_first(c: char, rest: Seq<char>)
    ensures
        utf16(seq![c] + rest) == char_units(c) + utf16(rest),
{
    assert((seq![c] + rest).drop_first() =~= rest);
}

/// A decoded text has as many code units as it was decoded from.
pub proof fn law_decoded_len(units: Seq<u16>)
    ensures
        utf16(utf16_lossy(units)).len() == units.len(),
    decreases units.len(),
{
    if units.len() > 0 {
        let unit = units[0];
        if is_high_surrogate(unit) && units.len() >= 2 && is_low_surrogate(units[1]) {
            law_decoded_len(units.skip(2));
            let n: int = 0x1_0000 + (unit - 0xd800) * 0x400 + (units[1] - 0xdc00);
            assert(n as char as u32 == n);
            lemma_utf16_first(n as char, utf16_lossy(units.skip(2)));
        } else {
            law_decoded_len(units.skip(1));
            if is_high_surrogate(unit) || is_low_surrogate(unit) {
                lemma_utf16_first('\u{FFFD}', utf16_lossy(units.skip(1)));
            } else {
                lemma_utf16_first(unit as char, utf16_lossy(units.skip(1)));
            }
        }
    }
}

} // verus!

//! What holds of the order of names and of their UTF-16 form.

use vstd::prelude::*;
use vstd::utf8::encode_utf8;

use crate::text::{
    char_units, folded_order, lex_order, name_order, uppercase, utf16, utf16_lossy, NameOrder,
};

verus! {

/// The first bytes that differ decide.
proof fn lemma_lex_first(a: Seq<u8>, b: Seq<u8>, i: int)
    requires
        0 <= i < a.len(),
        i < b.len(),
        forall|j: int| 0 <= j < i ==> a[j] == b[j],
        a[i] != b[i],
    ensures
        lex_order(a, b) == if a[i] < b[i] {
            NameOrder::Before
        } else {
            NameOrder::After
        },
    decreases i,
{
    if i > 0 {
        assert(a[0] == b[0]);
        lemma_lex_first(a.drop_first(), b.drop_first(), i - 1);
    }
}

/// A part at the start comes before the whole, and the whole after the part.
proof fn lemma_lex_start(a: Seq<u8>, b: Seq<u8>)
    requires
        a.len() < b.len(),
        forall|j: int| 0 <= j < a.len() ==> a[j] == b[j],
    ensures
        lex_order(a, b) is Before,
        lex_order(b, a) is After,
    decreases a.len(),
{
    if a.len() > 0 {
        assert(a[0] == b[0]);
        lemma_lex_start(a.drop_first(), b.drop_first());
    }
}

/// Bytes that are all alike do not decide.
proof fn lemma_lex_alike(a: Seq<u8>)
    ensures
        lex_order(a, a) is Same,
    decreases a.len(),
{
    if a.len() > 0 {
        lemma_lex_alike(a.drop_first());
    }
}

/// How names lie to each other is decided by their numbers of code units, and
/// where these are alike by the first bytes in which their upper-case forms
/// differ, whatever follows; and where one form is the start of the other, the
/// shorter form comes first.
pub proof fn law_order_is_shortlex(
    units1: nat,
    upper1: Seq<char>,
    units2: nat,
    upper2: Seq<char>,
    i: int,
)
    ensures
        units1 < units2 ==> folded_order(units1, upper1, units2, upper2) is Before,
        units1 > units2 ==> folded_order(units1, upper1, units2, upper2) is After,
        units1 == units2 && upper1 == upper2 ==> folded_order(
            units1,
            upper1,
            units2,
            upper2,
        ) is Same,
        ({
            let a = encode_utf8(upper1);
            let b = encode_utf8(upper2);
            &&& units1 == units2 && 0 <= i < a.len() && i < b.len() && a[i] != b[i] && (forall|
                j: int,
            |
                0 <= j < i ==> a[j] == b[j]) ==> folded_order(units1, upper1, units2, upper2)
                == if a[i] < b[i] {
                NameOrder::Before
            } else {
                NameOrder::After
            }
            &&& units1 == units2 && a.len() < b.len() && (forall|j: int|
                0 <= j < a.len() ==> a[j] == b[j]) ==> folded_order(
                units1,
                upper1,
                units2,
                upper2,
            ) is Before && folded_order(units2, upper2, units1, upper1) is After
        }),
{
    let a = encode_utf8(upper1);
    let b = encode_utf8(upper2);
    if 0 <= i < a.len() && i < b.len() && a[i] != b[i] && (forall|j: int|
        0 <= j < i ==> a[j] == b[j]) {
        lemma_lex_first(a, b, i);
    }
    if a.len() < b.len() && (forall|j: int| 0 <= j < a.len() ==> a[j] == b[j]) {
        lemma_lex_start(a, b);
    }
    lemma_lex_alike(a);
}

/// Among names with equally many code units, the order is that of the first place
/// where the bytes of the upper-case forms differ, whatever follows.
pub proof fn law_first_difference(name1: Seq<char>, name2: Seq<char>, i: int)
    requires
        utf16(name1).len() == utf16(name2).len(),
        0 <= i < encode_utf8(uppercase(name1)).len(),
        i < encode_utf8(uppercase(name2)).len(),
        forall|j: int|
            0 <= j < i ==> encode_utf8(uppercase(name1))[j] == encode_utf8(uppercase(name2))[j],
        encode_utf8(uppercase(name1))[i] < encode_utf8(uppercase(name2))[i],
    ensures
        name_order(name1, name2) is Before,
        name_order(name2, name1) is After,
{
    lemma_lex_first(encode_utf8(uppercase(name1)), encode_utf8(uppercase(name2)), i);
    lemma_lex_first(encode_utf8(uppercase(name2)), encode_utf8(uppercase(name1)), i);
}

/// Among names with equally many code units, one whose upper-case form is the
/// start of that of the other comes first.
pub proof fn law_start_comes_first(name1: Seq<char>, name2: Seq<char>)
    requires
        utf16(name1).len() == utf16(name2).len(),
        encode_utf8(uppercase(name1)).len() < encode_utf8(uppercase(name2)).len(),
        forall|j: int|
            0 <= j < encode_utf8(uppercase(name1)).len() ==> encode_utf8(uppercase(name1))[j]
                == encode_utf8(uppercase(name2))[j],
    ensures
        name_order(name1, name2) is Before,
        name_order(name2, name1) is After,
{
    lemma_lex_start(encode_utf8(uppercase(name1)), encode_utf8(uppercase(name2)));
}

/// The UTF-16 form of two texts together is that of the one and that of the
/// other.
pub proof fn law_utf16_together(a: Seq<char>, b: Seq<char>)
    ensures
        utf16(a + b) == utf16(a) + utf16(b),
    decreases a.len(),
{
    if a.len() == 0 {
        assert(a + b =~= b);
        assert(utf16(a) + utf16(b) =~= utf16(b));
    } else {
        assert((a + b).drop_first() =~= a.drop_first() + b);
        law_utf16_together(a.drop_first(), b);
        assert(char_units(a[0]) + (utf16(a.drop_first()) + utf16(b)) =~= char_units(a[0]) + utf16(
            a.drop_first(),
        ) + utf16(b));
    }
}

/// A character below 0x10000 is one code unit, its own number; any other is a
/// pair of surrogates.
pub proof fn law_utf16_of_char(c: char)
    ensures
        (c as int) < 0x1_0000 ==> utf16(seq![c]).len() == 1 && utf16(seq![c])[0] == c as int,
        c as int >= 0x1_0000 ==> {
            let units = utf16(seq![c]);
            &&& units.len() == 2
            &&& 0xd800 <= units[0] < 0xdc00
            &&& 0xdc00 <= units[1] < 0xe000
            &&& c as int == 0x1_0000 + 0x400 * (units[0] - 0xd800) + (units[1] - 0xdc00)
        },
{
    let one = seq![c];
    assert(one.drop_first() =~= Seq::empty());
    assert(utf16(one.drop_first()) =~= Seq::empty());
    assert(utf16(one) =~= char_units(c));
}

/// Code units are decoded together as each part is on its own, unless a pair of
/// surrogates is cut in two.
pub proof fn law_decoded_together(a: Seq<u16>, b: Seq<u16>)
    requires
        !(a.len() > 0 && b.len() > 0 && 0xd800 <= a.last() < 0xdc00 && 0xdc00 <= b[0] < 0xe000),
    ensures
        utf16_lossy(a + b) == utf16_lossy(a) + utf16_lossy(b),
    decreases a.len(),
{
    if a.len() == 0 {
        assert(a + b =~= b);
        assert(utf16_lossy(a) + utf16_lossy(b) =~= utf16_lossy(b));
    } else {
        let whole = a + b;
        let n: int = if a.len() >= 2 && 0xd800 <= a[0] < 0xdc00 && 0xdc00 <= a[1] < 0xe000 {
            2
        } else {
            1
        };
        assert(whole.skip(n) =~= a.skip(n) + b);
        law_decoded_together(a.skip(n), b);
        assert(whole[0] == a[0]);
        if a.len() >= 2 {
            assert(whole[1] == a[1]);
        } else if b.len() > 0 {
            assert(whole[1] == b[0]);
        }
        let first = utf16_lossy(whole).take(1);
        assert(utf16_lossy(whole) =~= first + utf16_lossy(whole.skip(n)));
        assert(utf16_lossy(a) =~= first + utf16_lossy(a.skip(n)));
        assert(utf16_lossy(whole) =~= utf16_lossy(a) + utf16_lossy(b));
    }
}

/// A code unit that is no surrogate is decoded to the character with its number,
/// a surrogate on its own to U+FFFD, and a pair of them to the character whose
/// UTF-16 form it is.
pub proof fn law_decoded_units(unit: u16, second: u16)
    ensures
        utf16_lossy(seq![unit]).len() == 1,
        utf16_lossy(seq![unit])[0] as int == if 0xd800 <= unit < 0xe000 {
            0xfffd
        } else {
            unit as int
        },
        0xd800 <= unit < 0xdc00 && 0xdc00 <= second < 0xe000 ==> {
            let text = utf16_lossy(seq![unit, second]);
            text.len() == 1 && utf16(text) == seq![unit, second]
        },
{
    let one = seq![unit];
    assert(one.skip(1) =~= Seq::empty());
    assert(utf16_lossy(one.skip(1)) =~= Seq::empty());
    if 0xd800 <= unit < 0xdc00 && 0xdc00 <= second < 0xe000 {
        let two = seq![unit, second];
        assert(two.skip(2) =~= Seq::empty());
        assert(utf16_lossy(two.skip(2)) =~= Seq::empty());
        let text = utf16_lossy(two);
        let n: int = 0x1_0000 + (unit - 0xd800) * 0x400 + (second - 0xdc00);
        let c = n as char;
        assert(c as u32 == n);
        assert(text =~= seq![c]);
        law_utf16_of_char(c);
        assert(utf16(text) =~= two);
    }
}

} // verus!

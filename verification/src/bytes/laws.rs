//! What integers, fields, letters and digits are as bytes.

use super::{
    be16, be16_at, be32, be32_at, be64, decimal, ends, fits_field, le16, le16_at, le32, le32_at,
    lower, lowered, until_nul, with_prefix, zeros,
};
use vstd::prelude::*;

verus! {

/// The bytes of an integer have its value, with the high byte first in network byte
/// order and last in little-endian order.
pub proof fn law_integers_have_their_value(a: u16, b: u32, c: u64)
    ensures
        be16(a).len() == 2 && 0x100 * be16(a)[0] + be16(a)[1] == a,
        le16(a).len() == 2 && le16(a)[0] + 0x100 * le16(a)[1] == a,
        be32(b).len() == 4 && 0x100_0000 * be32(b)[0] + 0x1_0000 * be32(b)[1] + 0x100 * be32(b)[2]
            + be32(b)[3] == b,
        le32(b).len() == 4 && le32(b)[0] + 0x100 * le32(b)[1] + 0x1_0000 * le32(b)[2] + 0x100_0000
            * le32(b)[3] == b,
        be64(c).len() == 8,
        c == 0x1_0000_0000 * (0x100_0000 * be64(c)[0] + 0x1_0000 * be64(c)[1] + 0x100 * be64(c)[2]
            + be64(c)[3]) + 0x100_0000 * be64(c)[4] + 0x1_0000 * be64(c)[5] + 0x100 * be64(c)[6]
            + be64(c)[7],
{
    let high = (c / 0x1_0000_0000) as u32;
    let low = (c % 0x1_0000_0000) as u32;
    assert(c == 0x1_0000_0000 * high + low);
}

/// An integer is read from where it starts, with the high byte first in network byte
/// order and last in little-endian order.
pub proof fn law_integers_are_read_in_place(s: Seq<u8>, i: int)
    requires
        0 <= i,
    ensures
        i + 2 <= s.len() ==> be16_at(s, i) == 0x100 * s[i] + s[i + 1],
        i + 2 <= s.len() ==> le16_at(s, i) == s[i] + 0x100 * s[i + 1],
        i + 4 <= s.len() ==> be32_at(s, i) == 0x100_0000 * s[i] + 0x1_0000 * s[i + 1] + 0x100 * s[i
            + 2] + s[i + 3],
        i + 4 <= s.len() ==> le32_at(s, i) == s[i] + 0x100 * s[i + 1] + 0x1_0000 * s[i + 2]
            + 0x100_0000 * s[i + 3],
{
}

/// The text of a field is what stands before its first zero.
pub proof fn law_fields_end_at_the_first_zero(text: Seq<u8>, rest: Seq<u8>)
    requires
        forall|i: int| 0 <= i < text.len() ==> text[i] != 0,
    ensures
        until_nul(text) == text,
        until_nul(text.push(0) + rest) == text,
{
    super::lemma_until_unique(text, 0, text.len() as int);
    assert(text.take(text.len() as int) =~= text);
    let field = text.push(0) + rest;
    super::lemma_until_unique(field, 0, text.len() as int);
    assert(field.take(text.len() as int) =~= text);
}

/// Text that fits a field of zeros is read back from it. It fits where it holds no
/// zero and leaves room for one.
pub proof fn law_fields_keep_their_text(field: Seq<u8>, text: Seq<u8>)
    ensures
        fits_field(text, field.len()) <==> text.len() < field.len() && (forall|i: int|
            0 <= i < text.len() ==> text[i] != 0),
        text.len() <= field.len() ==> {
            let stored = with_prefix(field, text);
            &&& stored.len() == field.len()
            &&& forall|i: int| 0 <= i < text.len() ==> stored[i] == text[i]
            &&& forall|i: int| text.len() <= i < field.len() ==> stored[i] == field[i]
        },
        fits_field(text, field.len()) && field == zeros(field.len()) ==> until_nul(
            with_prefix(field, text),
        ) == text,
        zeros(field.len()).len() == field.len(),
        forall|i: int| 0 <= i < field.len() ==> #[trigger] zeros(field.len())[i] == 0,
{
    if forall|i: int| 0 <= i < text.len() ==> text[i] != 0 {
        assert(!text.contains(0u8));
    } else {
        let i = choose|i: int| 0 <= i < text.len() && text[i] == 0;
        assert(text.contains(text[i]));
    }
    if fits_field(text, field.len()) && field == zeros(field.len()) {
        let stored = with_prefix(field, text);
        super::lemma_until_unique(stored, 0, text.len() as int);
        assert(stored.take(text.len() as int) =~= text);
    }
}

/// The capital letters A to Z become the letters that stand 32 after them, and every
/// other byte stays as it is.
pub proof fn law_letters_are_folded(s: Seq<u8>)
    ensures
        lowered(s).len() == s.len(),
        forall|i: int|
            0 <= i < s.len() ==> #[trigger] lowered(s)[i] == if 65 <= s[i] <= 90 {
                s[i] + 32
            } else {
                s[i] as int
            },
        forall|i: int| 0 <= i < s.len() ==> lower(#[trigger] s[i]) == lowered(s)[i],
        lowered(lowered(s)) == lowered(s),
{
    assert(lowered(lowered(s)) =~= lowered(s));
}

/// Bytes end with a tail where they are something followed by it.
pub proof fn law_ends_are_suffixes(head: Seq<u8>, tail: Seq<u8>, s: Seq<u8>)
    ensures
        ends(head + tail, tail),
        ends(s, tail) ==> s == s.take(s.len() - tail.len()) + tail,
{
    assert((head + tail).skip(head.len() as int) =~= tail);
    if ends(s, tail) {
        assert(s =~= s.take(s.len() - tail.len()) + s.skip(s.len() - tail.len()));
    }
}

/// The number that ASCII digits write in decimal.
pub open spec fn written(s: Seq<u8>) -> int
    decreases s.len(),
{
    if s.len() == 0 {
        0
    } else {
        10 * written(s.drop_last()) + (s.last() - 48)
    }
}

/// A number in decimal is written in ASCII digits that have its value, and begins
/// with a zero only where it is zero.
pub proof fn law_numbers_are_written_in_decimal(n: nat)
    ensures
        written(decimal(n)) == n,
        decimal(n).len() > 0,
        forall|i: int| 0 <= i < decimal(n).len() ==> 48 <= #[trigger] decimal(n)[i] <= 57,
        decimal(n)[0] == 48 ==> n == 0 && decimal(n).len() == 1,
    decreases n,
{
    reveal_with_fuel(written, 2);
    if n >= 10 {
        law_numbers_are_written_in_decimal(n / 10);
        assert(decimal(n).drop_last() =~= decimal(n / 10));
    }
}

} // verus!

//! What numbers and lists are as text.

use super::{decimal, hex4, joined};
use crate::outside;
use vstd::prelude::*;

verus! {

/// The value of a digit, up to sixteen, with the small letters for those over nine.
pub open spec fn digit_value(c: char) -> int {
    if '0' <= c <= '9' {
        c as int - '0' as int
    } else if 'a' <= c <= 'f' {
        c as int - 'a' as int + 10
    } else {
        -1
    }
}

/// The number that digits write in some base.
pub open spec fn written(s: Seq<char>, base: int) -> int
    decreases s.len(),
{
    if s.len() == 0 {
        0
    } else {
        base * written(s.drop_last(), base) + digit_value(s.last())
    }
}

/// A number in decimal is written in digits that have its value, and begins with a
/// zero only where it is zero.
pub proof fn law_numbers_are_written_in_decimal(n: nat)
    ensures
        written(decimal(n), 10) == n,
        decimal(n).len() > 0,
        forall|i: int| 0 <= i < decimal(n).len() ==> '0' <= #[trigger] decimal(n)[i] <= '9',
        decimal(n)[0] == '0' ==> n == 0 && decimal(n).len() == 1,
    decreases n,
{
    reveal_with_fuel(written, 2);
    if n >= 10 {
        law_numbers_are_written_in_decimal(n / 10);
        assert(decimal(n).drop_last() =~= decimal(n / 10));
    } else {
        assert(decimal(n).drop_last() =~= Seq::empty());
    }
}

/// A 16-bit number in hexadecimal is written in four digits that have its value.
pub proof fn law_numbers_are_written_in_hexadecimal(n: u16)
    ensures
        hex4(n).len() == 4,
        0x1000 * digit_value(hex4(n)[0]) + 0x100 * digit_value(hex4(n)[1]) + 0x10 * digit_value(
            hex4(n)[2],
        ) + digit_value(hex4(n)[3]) == n,
        forall|i: int| 0 <= i < 4 ==> 0 <= digit_value(#[trigger] hex4(n)[i]) < 16,
{
    let (a, b, c, d) = (n as int / 4096, n as int / 256 % 16, n as int / 16 % 16, n as int % 16);
    assert(0 <= a < 16 && 0 <= b < 16 && 0 <= c < 16 && 0 <= d < 16);
    assert(n as int == 4096 * a + 256 * b + 16 * c + d);
    lemma_digit(a);
    lemma_digit(b);
    lemma_digit(c);
    lemma_digit(d);
}

proof fn lemma_digit(n: int)
    requires
        0 <= n < 16,
    ensures
        digit_value(outside::hex_digit(n)) == n,
{
}

/// Lists are joined with the separator between their parts and nowhere else.
pub proof fn law_lists_are_joined(
    parts: Seq<Seq<char>>,
    more: Seq<Seq<char>>,
    part: Seq<char>,
    separator: Seq<char>,
)
    ensures
        joined(Seq::empty(), separator) == Seq::<char>::empty(),
        joined(seq![part], separator) == part,
        parts.len() > 0 && more.len() > 0 ==> joined(parts + more, separator) == joined(
            parts,
            separator,
        ) + separator + joined(more, separator),
    decreases more.len(),
{
    if parts.len() > 0 && more.len() > 0 {
        let all = parts + more;
        assert(all.drop_last() =~= parts + more.drop_last());
        assert(all.last() == more.last());
        if more.len() == 1 {
            assert(parts + more.drop_last() =~= parts);
        } else {
            law_lists_are_joined(parts, more.drop_last(), part, separator);
            assert(joined(all, separator) =~= joined(parts, separator) + separator + joined(
                more,
                separator,
            ));
        }
    }
}

} // verus!

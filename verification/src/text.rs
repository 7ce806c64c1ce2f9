//! Text for events and diagnostics.

use crate::bytes;
use crate::outside;
use vstd::prelude::*;
use vstd::string::StringExecFns;

pub mod laws;

verus! {

/// The UTF-8 bytes of some text.
pub open spec fn utf8(text: Seq<char>) -> Seq<u8> {
    vstd::utf8::encode_utf8(text)
}

/// Whether bytes that are UTF-8 became the text that they encode.
pub open spec fn keeps(data: Seq<u8>, text: Seq<char>) -> bool {
    vstd::utf8::valid_utf8(data) ==> utf8(text) == data
}

/// Borrow the UTF-8 bytes of some text.
pub fn bytes_of(text: &String) -> (data: &[u8])
    ensures
        data@ == utf8(text@),
{
    text.as_str().as_bytes()
}

/// Compare text by its bytes.
pub fn is(text: &String, data: &[u8]) -> (same: bool)
    ensures
        same == (utf8(text@) == data@),
{
    bytes::same_bytes(bytes_of(text), data)
}

/// Decimal digits of a number, without leading zeros.
pub open spec fn decimal(n: nat) -> Seq<char>
    decreases n,
{
    if n < 10 {
        seq![outside::hex_digit(n as int)]
    } else {
        decimal(n / 10).push(outside::hex_digit(n as int % 10))
    }
}

/// Four hexadecimal digits of a 16-bit number.
pub open spec fn hex4(n: u16) -> Seq<char> {
    seq![
        outside::hex_digit(n as int / 4096),
        outside::hex_digit(n as int / 256 % 16),
        outside::hex_digit(n as int / 16 % 16),
        outside::hex_digit(n as int % 16),
    ]
}

/// One hexadecimal digit.
fn digit(n: u8) -> (text: &'static str)
    requires
        n < 16,
    ensures
        text@ == seq![outside::hex_digit(n as int)],
{
    let text = match n {
        0 => "0",
        1 => "1",
        2 => "2",
        3 => "3",
        4 => "4",
        5 => "5",
        6 => "6",
        7 => "7",
        8 => "8",
        9 => "9",
        10 => "a",
        11 => "b",
        12 => "c",
        13 => "d",
        14 => "e",
        _ => "f",
    };
    proof {
        reveal_strlit("0");
        reveal_strlit("1");
        reveal_strlit("2");
        reveal_strlit("3");
        reveal_strlit("4");
        reveal_strlit("5");
        reveal_strlit("6");
        reveal_strlit("7");
        reveal_strlit("8");
        reveal_strlit("9");
        reveal_strlit("a");
        reveal_strlit("b");
        reveal_strlit("c");
        reveal_strlit("d");
        reveal_strlit("e");
        reveal_strlit("f");
        assert(text@ =~= seq![outside::hex_digit(n as int)]);
    }
    text
}

/// Append a number in decimal.
pub fn push_decimal(out: &mut String, n: u64)
    ensures
        final(out)@ == old(out)@ + decimal(n as nat),
    decreases n,
{
    if n >= 10 {
        push_decimal(out, n / 10);
    }
    let ghost before = out@;
    out.append(digit((n % 10) as u8));
    assert(out@ =~= old(out)@ + decimal(n as nat));
}

/// Append a 16-bit number in hexadecimal.
pub fn push_hex4(out: &mut String, n: u16)
    ensures
        final(out)@ == old(out)@ + hex4(n),
{
    out.append(digit((n / 4096) as u8));
    out.append(digit((n / 256 % 16) as u8));
    out.append(digit((n / 16 % 16) as u8));
    out.append(digit((n % 16) as u8));
    assert(out@ =~= old(out)@ + hex4(n));
}

/// Texts, by what they hold.
pub open spec fn texts(s: Seq<String>) -> Seq<Seq<char>> {
    s.map_values(|t: String| t@)
}

/// Texts with a separator between them.
pub open spec fn joined(parts: Seq<Seq<char>>, separator: Seq<char>) -> Seq<char>
    decreases parts.len(),
{
    if parts.len() == 0 {
        Seq::empty()
    } else if parts.len() == 1 {
        parts[0]
    } else {
        joined(parts.drop_last(), separator) + separator + parts.last()
    }
}

/// Join texts with a separator.
pub fn join(parts: &Vec<String>, separator: &str) -> (out: String)
    ensures
        out@ == joined(texts(parts@), separator@),
{
    let ghost all = texts(parts@);
    let mut out = String::new();
    let mut i: usize = 0;
    assert(all.take(0) =~= Seq::empty());
    while i < parts.len()
        invariant
            i <= parts@.len(),
            all == texts(parts@),
            out@ == joined(all.take(i as int), separator@),
        decreases parts@.len() - i,
    {
        proof {
            assert(all.take(i + 1).drop_last() =~= all.take(i as int));
            assert(all.take(i + 1).last() == parts@[i as int]@);
        }
        if i > 0 {
            out.append(separator);
        } else {
            assert(out@ =~= Seq::empty());
        }
        out.append(parts[i].as_str());
        i = i + 1;
        assert(out@ =~= joined(all.take(i as int), separator@));
    }
    assert(all.take(i as int) =~= all);
    out
}

} // verus!

//! Fixed-width integers, NUL-terminated fields and ASCII comparison on bytes.

use vstd::prelude::*;
use vstd::string::StringSliceAdditionalSpecFns;

pub mod laws;

verus! {

/// Big-endian bytes of a 16-bit integer.
pub open spec fn be16(v: u16) -> Seq<u8> {
    seq![(v / 256) as u8, (v % 256) as u8]
}

/// Little-endian bytes of a 16-bit integer.
pub open spec fn le16(v: u16) -> Seq<u8> {
    seq![(v % 256) as u8, (v / 256) as u8]
}

/// Big-endian bytes of a 32-bit integer.
pub open spec fn be32(v: u32) -> Seq<u8> {
    seq![
        (v / 0x100_0000) as u8,
        ((v / 0x1_0000) % 256) as u8,
        ((v / 256) % 256) as u8,
        (v % 256) as u8,
    ]
}

/// Little-endian bytes of a 32-bit integer.
pub open spec fn le32(v: u32) -> Seq<u8> {
    seq![
        (v % 256) as u8,
        ((v / 256) % 256) as u8,
        ((v / 0x1_0000) % 256) as u8,
        (v / 0x100_0000) as u8,
    ]
}

/// Big-endian bytes of a 64-bit integer.
pub open spec fn be64(v: u64) -> Seq<u8> {
    be32((v / 0x1_0000_0000) as u32) + be32((v % 0x1_0000_0000) as u32)
}

/// The 16-bit integer whose big-endian bytes start at `i`.
pub open spec fn be16_at(s: Seq<u8>, i: int) -> u16 {
    (s[i] * 256 + s[i + 1]) as u16
}

/// The 16-bit integer whose little-endian bytes start at `i`.
pub open spec fn le16_at(s: Seq<u8>, i: int) -> u16 {
    (s[i] + s[i + 1] * 256) as u16
}

/// The 32-bit integer whose big-endian bytes start at `i`.
pub open spec fn be32_at(s: Seq<u8>, i: int) -> u32 {
    (s[i] * 0x100_0000 + s[i + 1] * 0x1_0000 + s[i + 2] * 256 + s[i + 3]) as u32
}

/// The 32-bit integer whose little-endian bytes start at `i`.
pub open spec fn le32_at(s: Seq<u8>, i: int) -> u32 {
    (s[i] + s[i + 1] * 256 + s[i + 2] * 0x1_0000 + s[i + 3] * 0x100_0000) as u32
}

/// Whether two strings of bytes are as long as each other and differ in exactly
/// one place.
pub open spec fn one_byte_apart(a: Seq<u8>, b: Seq<u8>) -> bool {
    exists|i: int|
        0 <= i < a.len() && #[trigger] a[i] != b[i] && b == a.update(i, b[i])
}

/// Reading back any fixed-width integer gives the value that was written.
pub proof fn lemma_integers_round_trip(a: u16, b: u32)
    ensures
        be16_at(be16(a), 0) == a,
        le16_at(le16(a), 0) == a,
        be32_at(be32(b), 0) == b,
        le32_at(le32(b), 0) == b,
{
}

/// Append a 16-bit integer in network byte order.
pub fn push_be16(out: &mut Vec<u8>, v: u16)
    ensures
        final(out)@ == old(out)@ + be16(v),
{
    out.push((v / 256) as u8);
    out.push((v % 256) as u8);
}

/// Append a 16-bit integer in little-endian order.
pub fn push_le16(out: &mut Vec<u8>, v: u16)
    ensures
        final(out)@ == old(out)@ + le16(v),
{
    out.push((v % 256) as u8);
    out.push((v / 256) as u8);
}

/// Append a 32-bit integer in network byte order.
pub fn push_be32(out: &mut Vec<u8>, v: u32)
    ensures
        final(out)@ == old(out)@ + be32(v),
{
    out.push((v / 0x100_0000) as u8);
    out.push(((v / 0x1_0000) % 256) as u8);
    out.push(((v / 256) % 256) as u8);
    out.push((v % 256) as u8);
}

/// Append a 32-bit integer in little-endian order.
pub fn push_le32(out: &mut Vec<u8>, v: u32)
    ensures
        final(out)@ == old(out)@ + le32(v),
{
    out.push((v % 256) as u8);
    out.push(((v / 256) % 256) as u8);
    out.push(((v / 0x1_0000) % 256) as u8);
    out.push((v / 0x100_0000) as u8);
}

/// Append a 64-bit integer in network byte order.
pub fn push_be64(out: &mut Vec<u8>, v: u64)
    ensures
        final(out)@ == old(out)@ + be64(v),
{
    push_be32(out, (v / 0x1_0000_0000) as u32);
    push_be32(out, (v % 0x1_0000_0000) as u32);
}

/// Read a 16-bit integer in network byte order.
pub fn read_be16(s: &[u8], i: usize) -> (v: u16)
    requires
        i + 2 <= s@.len(),
    ensures
        v == be16_at(s@, i as int),
{
    s[i] as u16 * 256 + s[i + 1] as u16
}

/// Read a 16-bit integer in little-endian order.
pub fn read_le16(s: &[u8], i: usize) -> (v: u16)
    requires
        i + 2 <= s@.len(),
    ensures
        v == le16_at(s@, i as int),
{
    s[i] as u16 + s[i + 1] as u16 * 256
}

/// Read a 32-bit integer in network byte order.
pub fn read_be32(s: &[u8], i: usize) -> (v: u32)
    requires
        i + 4 <= s@.len(),
    ensures
        v == be32_at(s@, i as int),
{
    s[i] as u32 * 0x100_0000 + s[i + 1] as u32 * 0x1_0000 + s[i + 2] as u32 * 256 + s[i
        + 3] as u32
}

/// Read a 32-bit integer in little-endian order.
pub fn read_le32(s: &[u8], i: usize) -> (v: u32)
    requires
        i + 4 <= s@.len(),
    ensures
        v == le32_at(s@, i as int),
{
    s[i] as u32 + s[i + 1] as u32 * 256 + s[i + 2] as u32 * 0x1_0000 + s[i + 3] as u32
        * 0x100_0000
}

/// The bytes before the first `stop`, or all of them where there is none.
pub open spec fn until(s: Seq<u8>, stop: u8) -> Seq<u8>
    decreases s.len(),
{
    if s.len() == 0 || s[0] == stop {
        Seq::empty()
    } else {
        seq![s[0]] + until(s.skip(1), stop)
    }
}

/// The text of a NUL-terminated field.
pub open spec fn until_nul(s: Seq<u8>) -> Seq<u8> {
    until(s, 0)
}

/// What makes `until` a prefix up to the first stop.
pub proof fn lemma_until(s: Seq<u8>, stop: u8)
    ensures
        until(s, stop).len() <= s.len(),
        until(s, stop) == s.take(until(s, stop).len() as int),
        forall|i: int| 0 <= i < until(s, stop).len() ==> s[i] != stop,
        until(s, stop).len() < s.len() ==> s[until(s, stop).len() as int] == stop,
    decreases s.len(),
{
    if s.len() > 0 && s[0] != stop {
        let t = s.skip(1);
        lemma_until(t, stop);
        assert forall|i: int| 0 <= i < until(s, stop).len() implies s[i] != stop by {
            if i > 0 {
                assert(t[i - 1] == s[i]);
            }
        }
        assert(until(s, stop) =~= s.take(until(s, stop).len() as int));
        if until(s, stop).len() < s.len() {
            assert(t[until(t, stop).len() as int] == s[until(s, stop).len() as int]);
        }
    }
}

/// The prefix is fixed by where the first stop stands.
pub proof fn lemma_until_unique(s: Seq<u8>, stop: u8, n: int)
    requires
        0 <= n <= s.len(),
        forall|i: int| 0 <= i < n ==> s[i] != stop,
        n < s.len() ==> s[n] == stop,
    ensures
        until(s, stop) == s.take(n),
{
    lemma_until(s, stop);
    let m = until(s, stop).len() as int;
    if m < n {
        assert(s[m] == stop);
    } else if n < m {
        assert(s[n] == stop);
    }
}

/// Borrow the bytes before the first `stop`.
pub fn prefix_until<'a>(s: &'a [u8], stop: u8) -> (prefix: &'a [u8])
    ensures
        prefix@ == until(s@, stop),
        prefix@.len() <= s@.len(),
{
    let mut n: usize = 0;
    while n < s.len() && s[n] != stop
        invariant
            n <= s@.len(),
            forall|i: int| 0 <= i < n ==> s@[i] != stop,
        decreases s@.len() - n,
    {
        n = n + 1;
    }
    proof {
        lemma_until_unique(s@, stop, n as int);
    }
    &s[0..n]
}

/// Borrow the text of a NUL-terminated field.
pub fn cstr<'a>(s: &'a [u8]) -> (text: &'a [u8])
    ensures
        text@ == until_nul(s@),
{
    prefix_until(s, 0)
}

/// A value does not fit its fixed-size, NUL-terminated field.
#[derive(Clone, Copy, Debug, PartialEq, Eq, Structural)]
pub struct FieldOverflow;

/// Whether text fits a field of `size` bytes and leaves room for its terminator.
pub open spec fn fits_field(text: Seq<u8>, size: nat) -> bool {
    text.len() < size && !text.contains(0u8)
}

/// A field whose first bytes are replaced by `text`.
pub open spec fn with_prefix(field: Seq<u8>, text: Seq<u8>) -> Seq<u8> {
    text + field.skip(text.len() as int)
}

/// Overwrite the start of `field` with `text`.
pub fn copy_prefix(field: &mut [u8], text: &[u8])
    requires
        text@.len() <= old(field)@.len(),
    ensures
        final(field)@ == with_prefix(old(field)@, text@),
{
    let mut i: usize = 0;
    while i < text.len()
        invariant
            i <= text@.len() <= old(field)@.len(),
            field@.len() == old(field)@.len(),
            forall|j: int| 0 <= j < i ==> field@[j] == text@[j],
            forall|j: int| i <= j < field@.len() ==> field@[j] == old(field)@[j],
        decreases text@.len() - i,
    {
        field[i] = text[i];
        i = i + 1;
    }
    assert(field@ =~= with_prefix(old(field)@, text@));
}

/// Store text in a fixed-size field that must keep a NUL terminator.
pub fn put_string(field: &mut [u8], value: &str) -> (r: Result<(), FieldOverflow>)
    ensures
        r is Ok <==> fits_field(value.spec_bytes(), old(field)@.len()),
        r is Ok ==> final(field)@ == with_prefix(old(field)@, value.spec_bytes()),
        r is Err ==> final(field)@ == old(field)@,
{
    let text = value.as_bytes();
    if text.len() >= field.len() || contains(text, 0) {
        return Err(FieldOverflow);
    }
    copy_prefix(field, text);
    Ok(())
}

/// One byte with ASCII capitals folded to small letters.
pub open spec fn lower(b: u8) -> u8 {
    if 0x41 <= b <= 0x5a {
        (b + 32) as u8
    } else {
        b
    }
}

/// Bytes with ASCII capitals folded to small letters.
pub open spec fn lowered(s: Seq<u8>) -> Seq<u8> {
    s.map_values(|b: u8| lower(b))
}

/// Fold one ASCII capital to its small letter.
pub fn ascii_lower(b: u8) -> (r: u8)
    ensures
        r == lower(b),
{
    if 0x41 <= b && b <= 0x5a {
        b + 32
    } else {
        b
    }
}

/// Compare bytes without regard to the case of ASCII letters.
pub fn eq_ignore_ascii_case(a: &[u8], b: &[u8]) -> (same: bool)
    ensures
        same == (lowered(a@) == lowered(b@)),
{
    if a.len() != b.len() {
        assert(lowered(a@).len() != lowered(b@).len());
        return false;
    }
    let mut i: usize = 0;
    while i < a.len()
        invariant
            i <= a@.len(),
            a@.len() == b@.len(),
            forall|j: int| 0 <= j < i ==> lower(#[trigger] a@[j]) == lower(b@[j]),
        decreases a@.len() - i,
    {
        if ascii_lower(a[i]) != ascii_lower(b[i]) {
            assert(lowered(a@)[i as int] != lowered(b@)[i as int]);
            return false;
        }
        i = i + 1;
    }
    assert(lowered(a@) =~= lowered(b@));
    true
}

/// Bytes with ASCII capitals folded.
pub fn ascii_lowercase(s: &[u8]) -> (r: Vec<u8>)
    ensures
        r@ == lowered(s@),
{
    let mut r: Vec<u8> = Vec::new();
    let mut i: usize = 0;
    while i < s.len()
        invariant
            i <= s@.len(),
            r@ == lowered(s@.take(i as int)),
        decreases s@.len() - i,
    {
        r.push(ascii_lower(s[i]));
        i = i + 1;
        assert(r@ =~= lowered(s@.take(i as int)));
    }
    assert(s@.take(i as int) =~= s@);
    r
}

/// Whether `s` ends with `tail`.
pub open spec fn ends(s: Seq<u8>, tail: Seq<u8>) -> bool {
    tail.len() <= s.len() && s.skip(s.len() - tail.len()) == tail
}

/// Whether `s` ends with `tail`.
pub fn ends_with(s: &[u8], tail: &[u8]) -> (r: bool)
    ensures
        r == ends(s@, tail@),
{
    if tail.len() > s.len() {
        return false;
    }
    let end = &s[s.len() - tail.len()..s.len()];
    assert(end@ =~= s@.skip(s@.len() - tail@.len()));
    same_bytes(end, tail)
}

/// Whether `b` occurs in `s`.
pub fn contains(s: &[u8], b: u8) -> (found: bool)
    ensures
        found == s@.contains(b),
{
    let mut i: usize = 0;
    while i < s.len()
        invariant
            i <= s@.len(),
            forall|j: int| 0 <= j < i ==> s@[j] != b,
        decreases s@.len() - i,
    {
        if s[i] == b {
            assert(s@[i as int] == b);
            return true;
        }
        i = i + 1;
    }
    false
}

/// Compare bytes.
pub fn same_bytes(a: &[u8], b: &[u8]) -> (same: bool)
    ensures
        same == (a@ == b@),
{
    if a.len() != b.len() {
        return false;
    }
    let mut i: usize = 0;
    while i < a.len()
        invariant
            i <= a@.len(),
            a@.len() == b@.len(),
            forall|j: int| 0 <= j < i ==> a@[j] == b@[j],
        decreases a@.len() - i,
    {
        if a[i] != b[i] {
            return false;
        }
        i = i + 1;
    }
    assert(a@ =~= b@);
    true
}

/// `n` zero bytes.
pub open spec fn zeros(n: nat) -> Seq<u8> {
    Seq::new(n, |i: int| 0u8)
}

/// Allocate `n` zero bytes.
pub fn zero_bytes(n: usize) -> (v: Vec<u8>)
    ensures
        v@ == zeros(n as nat),
{
    let v = vec![0u8; n];
    assert(v@ =~= zeros(n as nat));
    v
}

/// ASCII decimal digits of a number, without leading zeros.
pub open spec fn decimal(n: nat) -> Seq<u8>
    decreases n,
{
    if n < 10 {
        seq![(0x30 + n) as u8]
    } else {
        decimal(n / 10).push((0x30 + n % 10) as u8)
    }
}

/// Write a number in decimal.
pub fn decimal_bytes(n: u64) -> (v: Vec<u8>)
    ensures
        v@ == decimal(n as nat),
    decreases n,
{
    if n < 10 {
        let mut v: Vec<u8> = Vec::new();
        v.push(0x30 + n as u8);
        v
    } else {
        let mut v = decimal_bytes(n / 10);
        v.push(0x30 + (n % 10) as u8);
        v
    }
}

} // verus!

//! Functions of other crates and of std that the engine relies on.
//!
//! Nothing in this file is proved: each contract states what the named function
//! is documented to do. Where the result takes an algorithm to describe, it is
//! given a name, and the rest of the crate speaks of that name.

use vstd::prelude::*;

verus! {

/// The CRC-32 checksum (IEEE 802.3) of some bytes.
pub uninterp spec fn crc32_of(data: Seq<u8>) -> u32;

/// `crc32fast::hash`: the checksum of the whole buffer, here named `crc32_of`.
/// Data that differs in one byte has another checksum: no two entries of the
/// crate's table share their high byte, so that every step of the update is
/// one-to-one in the running value and in the byte that it takes in.
#[verifier::external_body]
pub(crate) fn crc32(data: &[u8]) -> (crc: u32)
    ensures
        crc == crc32_of(data@),
        forall|other: Seq<u8>|
            crate::bytes::one_byte_apart(data@, other) ==> #[trigger] crc32_of(other) != crc,
{
    crc32fast::hash(data)
}

/// The zlib stream that a buffer is compressed to at a given level.
pub uninterp spec fn deflated(data: Seq<u8>, level: u8) -> Seq<u8>;

/// What a zlib stream decompresses to with at most `limit` bytes of output.
pub uninterp spec fn inflated(stream: Seq<u8>, limit: usize) -> Option<Seq<u8>>;

/// Declares `miniz_oxide::inflate::DecompressError`, of which nothing is read.
#[verifier::external_type_specification]
#[verifier::external_body]
pub struct ExDecompressError(miniz_oxide::inflate::DecompressError);

/// `miniz_oxide::deflate::compress_to_vec_zlib`: the compressed stream, here
/// named `deflated`. Decompressing it under a limit above the length of the
/// data gives the data back.
#[verifier::external_body]
pub(crate) fn deflate(data: &[u8], level: u8) -> (stream: Vec<u8>)
    ensures
        stream@ == deflated(data@, level),
        forall|limit: usize|
            data@.len() < limit ==> #[trigger] inflated(stream@, limit) == Some(data@),
{
    miniz_oxide::deflate::compress_to_vec_zlib(data, level)
}

/// `miniz_oxide::inflate::decompress_to_vec_zlib_with_limit`: the decompressed
/// data, here named `inflated`, or an error where the stream is damaged or holds
/// more than `limit` bytes. Output never exceeds the limit.
#[verifier::external_body]
pub(crate) fn inflate(stream: &[u8], limit: usize) -> (r: Result<
    Vec<u8>,
    miniz_oxide::inflate::DecompressError,
>)
    ensures
        inflated(stream@, limit) == (match r {
            Ok(data) => Some(data@),
            Err(_) => None,
        }),
        r is Ok ==> r->Ok_0@.len() <= limit,
{
    miniz_oxide::inflate::decompress_to_vec_zlib_with_limit(stream, limit)
}

/// `rand::random` for a 32-bit integer: any value may come back.
#[verifier::external_body]
pub(crate) fn random_u32() -> u32 {
    rand::random::<u32>()
}

/// `rand::RngCore::next_u64` on the thread's generator: any value may come back.
#[verifier::external_body]
pub(crate) fn random_u64() -> u64 {
    rand::RngCore::next_u64(&mut rand::thread_rng())
}

/// The MD5 digest of some bytes.
pub uninterp spec fn md5_of(data: Seq<u8>) -> Seq<u8>;

/// `md5::compute`: the digest of the whole buffer, here named `md5_of`.
#[verifier::external_body]
pub(crate) fn md5(data: &[u8]) -> (digest: [u8; 16])
    ensures
        digest@ == md5_of(data@),
{
    md5::compute(data).0
}

/// The number whose little-endian bytes are given.
pub open spec fn le_value(digits: Seq<u8>) -> nat
    decreases digits.len(),
{
    if digits.len() == 0 {
        0
    } else {
        digits[0] as nat + 256 * le_value(digits.skip(1))
    }
}

/// The little-endian bytes of a number, without leading zeros; zero is one byte.
pub open spec fn le_digits(value: nat) -> Seq<u8>
    decreases value,
{
    if value < 256 {
        seq![value as u8]
    } else {
        seq![(value % 256) as u8] + le_digits(value / 256)
    }
}

/// How many bits a number takes; zero takes none.
pub open spec fn bits_of(value: nat) -> nat
    decreases value,
{
    if value == 0 {
        0
    } else {
        1 + bits_of(value / 2)
    }
}

/// `num_bigint::BigUint::bits`: the fewest bits that express the number with
/// these little-endian bytes.
#[verifier::external_body]
pub(crate) fn bit_length(digits: &[u8]) -> (bits: u64)
    ensures
        bits == bits_of(le_value(digits@)),
{
    num_bigint::BigUint::from_bytes_le(digits).bits()
}

/// `num_bigint::BigUint::modpow`: the power of `base` modulo `modulus`, by its
/// little-endian bytes. The modulus must not be zero.
#[verifier::external_body]
pub(crate) fn mod_pow(base: u64, exponent: &[u8], modulus: &[u8]) -> (digits: Vec<u8>)
    requires
        le_value(modulus@) > 0,
    ensures
        digits@ == le_digits(
            (vstd::arithmetic::power::pow(base as int, le_value(exponent@)) % (le_value(
                modulus@,
            ) as int)) as nat,
        ),
{
    let exponent = num_bigint::BigUint::from_bytes_le(exponent);
    let modulus = num_bigint::BigUint::from_bytes_le(modulus);
    num_bigint::BigUint::from(base).modpow(&exponent, &modulus).to_bytes_le()
}

/// One lowercase hexadecimal digit.
pub open spec fn hex_digit(n: int) -> char {
    if n < 10 {
        (48 + n) as char
    } else {
        (87 + n) as char
    }
}

/// Two hexadecimal digits for each byte, the high one first.
pub open spec fn hex_of(data: Seq<u8>) -> Seq<char> {
    Seq::new(
        2 * data.len(),
        |i: int|
            if i % 2 == 0 {
                hex_digit(data[i / 2] as int / 16)
            } else {
                hex_digit(data[i / 2] as int % 16)
            },
    )
}

/// `hex::encode`: two lowercase hexadecimal digits for each byte.
#[verifier::external_body]
pub(crate) fn hex(data: &[u8]) -> (text: String)
    ensures
        text@ == hex_of(data@),
{
    hex::encode(data)
}

/// What a hexadecimal digit stands for, in capitals or not.
pub open spec fn digit_value(c: u8) -> Option<u8> {
    if 0x30 <= c <= 0x39 {
        Some((c - 0x30) as u8)
    } else if 0x41 <= c <= 0x46 {
        Some((c - 0x41 + 10) as u8)
    } else if 0x61 <= c <= 0x66 {
        Some((c - 0x61 + 10) as u8)
    } else {
        None
    }
}

/// Why text is no hexadecimal string.
#[derive(Clone, Copy, Debug, PartialEq, Eq, Structural)]
pub enum HexError {
    /// The number of digits is odd.
    OddLength,
    /// This character is no digit, at this place.
    Character(char, usize),
    /// The number of digits is not the one asked for.
    Length,
}

/// Where the first byte from a place on stands that is no digit.
pub open spec fn no_digit(text: Seq<u8>, from: nat) -> Option<nat>
    decreases text.len() - from,
{
    if from >= text.len() {
        None
    } else if digit_value(text[from as int]) is None {
        Some(from)
    } else {
        no_digit(text, from + 1)
    }
}

/// The bytes that pairs of hexadecimal digits stand for, the high digit first.
pub open spec fn unhexed(text: Seq<u8>) -> Result<Seq<u8>, HexError> {
    if text.len() % 2 != 0 {
        Err(HexError::OddLength)
    } else {
        match no_digit(text, 0) {
            Some(i) => Err(HexError::Character(text[i as int] as char, i as usize)),
            None => Ok(
                Seq::new(
                    text.len() / 2,
                    |i: int|
                        (digit_value(text[2 * i])->0 * 16 + digit_value(text[2 * i + 1])->0) as u8,
                ),
            ),
        }
    }
}

/// `hex::decode`: one byte for every two hexadecimal digits. An odd number of
/// them is an error, and so is the first byte that is no digit, which is named
/// with its place.
#[verifier::external_body]
pub(crate) fn unhex(text: &str) -> (r: Result<Vec<u8>, HexError>)
    ensures
        unhexed(vstd::utf8::encode_utf8(text@)) == (match r {
            Ok(data) => Ok(data@),
            Err(e) => Err(e),
        }),
{
    match hex::decode(text) {
        Ok(data) => Ok(data),
        Err(hex::FromHexError::OddLength) => Err(HexError::OddLength),
        Err(hex::FromHexError::InvalidHexCharacter { c, index }) => Err(
            HexError::Character(c, index),
        ),
        Err(hex::FromHexError::InvalidStringLength) => Err(HexError::Length),
    }
}

/// `String::from_utf8`: the text with these bytes, where they are UTF-8.
#[verifier::external_body]
pub(crate) fn text_from_utf8(data: Vec<u8>) -> (text: Option<String>)
    ensures
        text is Some <==> vstd::utf8::valid_utf8(data@),
        text is Some ==> vstd::utf8::encode_utf8(text->0@) == data@,
{
    String::from_utf8(data).ok()
}

/// Bytes as text, with what is not UTF-8 replaced.
pub uninterp spec fn lossy(data: Seq<u8>) -> Seq<char>;

/// `String::from_utf8_lossy`: the text of these bytes, here named `lossy`, with
/// replacement characters for what is not UTF-8. UTF-8 is kept as it is.
#[verifier::external_body]
pub(crate) fn text_lossy(data: &[u8]) -> (text: String)
    ensures
        text@ == lossy(data@),
        vstd::utf8::valid_utf8(data@) ==> vstd::utf8::encode_utf8(text@) == data@,
{
    String::from_utf8_lossy(data).into_owned()
}

/// `str::to_ascii_lowercase`: the letters `A` to `Z` become `a` to `z`, and
/// nothing else changes.
#[verifier::external_body]
pub(crate) fn text_lowercase(text: &str) -> (lower: String)
    ensures
        vstd::utf8::encode_utf8(lower@) == crate::bytes::lowered(vstd::utf8::encode_utf8(text@)),
{
    text.to_ascii_lowercase()
}

/// Text in capitals, after Unicode.
pub uninterp spec fn uppercase_of(text: Seq<char>) -> Seq<char>;

/// `str::to_uppercase`: the text in capitals, here named `uppercase_of`.
#[verifier::external_body]
pub(crate) fn text_uppercase(text: &str) -> (upper: String)
    ensures
        upper@ == uppercase_of(text@),
{
    text.to_uppercase()
}

/// Text in quotation marks, with escapes where it needs them.
pub uninterp spec fn quoted_of(text: Seq<char>) -> Seq<char>;

/// `format!` with the debug form of a string: the text in quotation marks, here
/// named `quoted_of`.
#[verifier::external_body]
pub(crate) fn text_quoted(text: &str) -> (quoted: String)
    ensures
        quoted@ == quoted_of(text@),
{
    format!("{text:?}")
}

/// A character in single quotation marks, with an escape where it needs one.
pub uninterp spec fn char_quoted_of(c: char) -> Seq<char>;

/// `format!` with the debug form of a character: the character in single
/// quotation marks, here named `char_quoted_of`.
#[verifier::external_body]
pub(crate) fn char_quoted(c: char) -> (quoted: String)
    ensures
        quoted@ == char_quoted_of(c),
{
    format!("{c:?}")
}

} // verus!

//! The V62 application codec: packet digests, the rolling XOR cipher and the
//! keys that the world and zone servers negotiate with it.

use crate::bytes;
use crate::outside;
use vstd::prelude::*;

pub mod laws;

verus! {

/// One step of the cipher. Zero and the key byte are fixed points, so neither
/// C string terminators nor nonzero bytes vanish.
pub open spec fn mix(value: u8, key: u8) -> u8 {
    if value == 0 || value == key {
        value
    } else {
        value ^ key
    }
}

/// The cipher step undoes itself and moves no byte to or from zero.
pub proof fn lemma_mix(value: u8, key: u8)
    ensures
        mix(mix(value, key), key) == value,
        mix(value, key) == 0 <==> value == 0,
{
    assert(value != key ==> value ^ key != 0) by (bit_vector);
    assert(value != 0 ==> value ^ key != key) by (bit_vector);
    assert((value ^ key) ^ key == value) by (bit_vector);
}

/// Apply one step of the cipher.
fn xor_nonzero(value: u8, key: u8) -> (mixed: u8)
    ensures
        mixed == mix(value, key),
{
    if value == 0 || value == key {
        value
    } else {
        value ^ key
    }
}

/// What a lane remembers at byte `i`: the next nonzero plaintext byte of that
/// lane, sixteen bytes apart, or the seed at the end of the body.
pub open spec fn rolling(plain: Seq<u8>, seed: Seq<u8>, i: int) -> u8
    decreases plain.len() - i,
{
    if i + 16 >= plain.len() {
        seed[i % 16]
    } else if plain[i + 16] != 0 {
        plain[i + 16]
    } else {
        rolling(plain, seed, i + 16)
    }
}

/// An encoded body. The first byte and every zero are unchanged.
pub open spec fn encoded(plain: Seq<u8>, key: Seq<u8>, seed: Seq<u8>) -> Seq<u8> {
    Seq::new(
        plain.len(),
        |i: int|
            if i == 0 || plain[i] == 0 {
                plain[i]
            } else {
                mix(mix(plain[i], key[i % 16]), rolling(plain, seed, i))
            },
    )
}

/// What a lane remembers at byte `i`, by the encoded body.
pub open spec fn rolling_back(body: Seq<u8>, key: Seq<u8>, seed: Seq<u8>, i: int) -> u8
    decreases body.len() - i, 0nat,
{
    if i + 16 >= body.len() {
        seed[i % 16]
    } else if body[i + 16] != 0 {
        plain_at(body, key, seed, i + 16)
    } else {
        rolling_back(body, key, seed, i + 16)
    }
}

/// Byte `i` of the plaintext of an encoded body.
pub open spec fn plain_at(body: Seq<u8>, key: Seq<u8>, seed: Seq<u8>, i: int) -> u8
    decreases body.len() - i, 1nat,
{
    if i == 0 || body[i] == 0 {
        body[i]
    } else {
        mix(mix(body[i], rolling_back(body, key, seed, i)), key[i % 16])
    }
}

/// A decoded body.
pub open spec fn decoded(body: Seq<u8>, key: Seq<u8>, seed: Seq<u8>) -> Seq<u8> {
    Seq::new(body.len(), |i: int| plain_at(body, key, seed, i))
}

/// Encoding keeps the length, the first byte and the places of all zeros.
pub proof fn law_encoding_keeps_terminators(plain: Seq<u8>, key: Seq<u8>, seed: Seq<u8>)
    ensures
        encoded(plain, key, seed).len() == plain.len(),
        plain.len() > 0 ==> encoded(plain, key, seed)[0] == plain[0],
        forall|i: int|
            0 <= i < plain.len() ==> (#[trigger] encoded(plain, key, seed)[i] == 0 <==> plain[i]
                == 0),
{
    assert forall|i: int| 0 <= i < plain.len() implies (#[trigger] encoded(plain, key, seed)[i] == 0
        <==> plain[i] == 0) by {
        lemma_mix(plain[i], key[i % 16]);
        lemma_mix(mix(plain[i], key[i % 16]), rolling(plain, seed, i));
    }
}

proof fn lemma_decode_of_encode(plain: Seq<u8>, key: Seq<u8>, seed: Seq<u8>, i: int)
    requires
        0 <= i < plain.len(),
    ensures
        rolling_back(encoded(plain, key, seed), key, seed, i) == rolling(plain, seed, i),
        plain_at(encoded(plain, key, seed), key, seed, i) == plain[i],
    decreases plain.len() - i,
{
    let body = encoded(plain, key, seed);
    law_encoding_keeps_terminators(plain, key, seed);
    if i + 16 < plain.len() {
        lemma_decode_of_encode(plain, key, seed, i + 16);
        assert(body[i + 16] == 0 <==> plain[i + 16] == 0);
    }
    assert(body[i] == 0 <==> plain[i] == 0);
    lemma_mix(plain[i], key[i % 16]);
    lemma_mix(mix(plain[i], key[i % 16]), rolling(plain, seed, i));
}

/// Decoding gives back exactly what was encoded.
pub proof fn law_decode_inverts_encode(plain: Seq<u8>, key: Seq<u8>, seed: Seq<u8>)
    ensures
        decoded(encoded(plain, key, seed), key, seed) == plain,
{
    assert forall|i: int| 0 <= i < plain.len() implies #[trigger] decoded(
        encoded(plain, key, seed),
        key,
        seed,
    )[i] == plain[i] by {
        lemma_decode_of_encode(plain, key, seed, i);
    }
    assert(decoded(encoded(plain, key, seed), key, seed) =~= plain);
}

proof fn lemma_encode_of_decode(body: Seq<u8>, key: Seq<u8>, seed: Seq<u8>, i: int)
    requires
        0 <= i < body.len(),
    ensures
        rolling(decoded(body, key, seed), seed, i) == rolling_back(body, key, seed, i),
        encoded(decoded(body, key, seed), key, seed)[i] == body[i],
    decreases body.len() - i,
{
    let plain = decoded(body, key, seed);
    if i + 16 < body.len() {
        lemma_encode_of_decode(body, key, seed, i + 16);
        lemma_mix(body[i + 16], rolling_back(body, key, seed, i + 16));
        lemma_mix(mix(body[i + 16], rolling_back(body, key, seed, i + 16)), key[(i + 16) % 16]);
    }
    lemma_mix(body[i], rolling_back(body, key, seed, i));
    lemma_mix(mix(body[i], rolling_back(body, key, seed, i)), key[i % 16]);
}

/// Every body is the encoding of what it decodes to.
pub proof fn law_encode_inverts_decode(body: Seq<u8>, key: Seq<u8>, seed: Seq<u8>)
    ensures
        encoded(decoded(body, key, seed), key, seed) == body,
{
    assert forall|i: int| 0 <= i < body.len() implies #[trigger] encoded(
        decoded(body, key, seed),
        key,
        seed,
    )[i] == body[i] by {
        lemma_encode_of_decode(body, key, seed, i);
    }
    assert(encoded(decoded(body, key, seed), key, seed) =~= body);
}

/// Encode an application body with its session key and outgoing rolling state.
///
/// The first byte is unchanged. Each lane remembers the next nonzero plaintext
/// byte, starting at the end of the body with the supplied 16-byte state.
pub fn encode(body: &mut [u8], key: &[u8; 16], seed: &[u8; 16])
    ensures
        final(body)@ == encoded(old(body)@, key@, seed@),
{
    let ghost plain = body@;
    let ghost done = encoded(plain, key@, seed@);
    let mut lanes: [u8; 16] = *seed;
    let mut i: usize = body.len();
    while i > 1
        invariant
            plain == old(body)@,
            done == encoded(plain, key@, seed@),
            body@.len() == plain.len(),
            i <= plain.len(),
            forall|j: int| 0 <= j < i ==> body@[j] == plain[j],
            forall|j: int| i <= j < plain.len() ==> body@[j] == done[j],
            forall|j: int|
                i - 16 <= j < i && 0 <= j ==> lanes@[j % 16] == #[trigger] rolling(
                    plain,
                    seed@,
                    j,
                ),
        decreases i,
    {
        let ghost before = lanes@;
        i = i - 1;
        let value: u8 = body[i];
        let lane: usize = i % 16;
        assert(lanes@[lane as int] == rolling(plain, seed@, i as int));
        if value != 0 {
            body[i] = xor_nonzero(xor_nonzero(value, key[lane]), lanes[lane]);
            lanes[lane] = value;
        }
        assert forall|j: int| i - 16 <= j < i && 0 <= j implies lanes@[j % 16]
            == #[trigger] rolling(plain, seed@, j) by {
            if j == i - 16 {
                assert(j % 16 == lane);
            } else {
                assert(j % 16 != lane);
                assert(lanes@[j % 16] == before[j % 16]);
            }
        }
    }
    assert(body@ =~= done);
}

/// Reverse the application codec, retaining the exact original bytes.
pub fn decode(body: &mut [u8], key: &[u8; 16], seed: &[u8; 16])
    ensures
        final(body)@ == decoded(old(body)@, key@, seed@),
{
    let ghost start = body@;
    let ghost done = decoded(start, key@, seed@);
    let mut lanes: [u8; 16] = *seed;
    let mut i: usize = body.len();
    while i > 1
        invariant
            start == old(body)@,
            done == decoded(start, key@, seed@),
            body@.len() == start.len(),
            i <= start.len(),
            forall|j: int| 0 <= j < i ==> body@[j] == start[j],
            forall|j: int| i <= j < start.len() ==> body@[j] == done[j],
            forall|j: int|
                i - 16 <= j < i && 0 <= j ==> lanes@[j % 16] == #[trigger] rolling_back(
                    start,
                    key@,
                    seed@,
                    j,
                ),
        decreases i,
    {
        let ghost before = lanes@;
        i = i - 1;
        let value: u8 = body[i];
        let lane: usize = i % 16;
        assert(lanes@[lane as int] == rolling_back(start, key@, seed@, i as int));
        if value != 0 {
            let plain = xor_nonzero(xor_nonzero(value, lanes[lane]), key[lane]);
            body[i] = plain;
            lanes[lane] = plain;
        }
        assert forall|j: int| i - 16 <= j < i && 0 <= j implies lanes@[j % 16]
            == #[trigger] rolling_back(start, key@, seed@, j) by {
            if j == i - 16 {
                assert(j % 16 == lane);
                reveal_with_fuel(rolling_back, 2);
                reveal_with_fuel(plain_at, 2);
                assert(value != 0 ==> lanes@[lane as int] == plain_at(
                    start,
                    key@,
                    seed@,
                    i as int,
                ));
            } else {
                assert(j % 16 != lane);
                assert(lanes@[j % 16] == before[j % 16]);
            }
        }
    }
    assert(body@ =~= done);
}

/// Why the codec cannot process a packet.
#[derive(Clone, Copy, Debug, PartialEq, Eq, Structural)]
pub enum CodecError {
    DigestLength,
    LoginSize,
    ChallengeSize,
    ApprovalInteger,
    ApprovalKey,
    ResponseSize,
    ManifestEarly,
    FileResponseEarly,
    HandoffSize,
    EntrySize,
    SpawnSize,
    SessionKey,
}

impl CodecError {
    /// The wording of each error.
    pub open spec fn text(self) -> Seq<char> {
        match self {
            CodecError::DigestLength => "application digest length overflow"@,
            CodecError::LoginSize => "invalid Titanium world login size"@,
            CodecError::ChallengeSize => "unexpected world approval challenge size"@,
            CodecError::ApprovalInteger => "invalid world approval integer"@,
            CodecError::ApprovalKey => "invalid world approval public key"@,
            CodecError::ResponseSize => "invalid approval response size"@,
            CodecError::ManifestEarly => "manifest arrived before approval"@,
            CodecError::FileResponseEarly => "file response before manifest"@,
            CodecError::HandoffSize => "zone handoff has no file manifest"@,
            CodecError::EntrySize => "invalid Titanium zone entry size"@,
            CodecError::SpawnSize => "unexpected Titanium player spawn size"@,
            CodecError::SessionKey => "missing login session key"@,
        }
    }

    /// Describe the error to a user.
    pub fn message(&self) -> (text: &'static str)
        ensures
            text@ == self.text(),
    {
        match self {
            CodecError::DigestLength => "application digest length overflow",
            CodecError::LoginSize => "invalid Titanium world login size",
            CodecError::ChallengeSize => "unexpected world approval challenge size",
            CodecError::ApprovalInteger => "invalid world approval integer",
            CodecError::ApprovalKey => "invalid world approval public key",
            CodecError::ResponseSize => "invalid approval response size",
            CodecError::ManifestEarly => "manifest arrived before approval",
            CodecError::FileResponseEarly => "file response before manifest",
            CodecError::HandoffSize => "zone handoff has no file manifest",
            CodecError::EntrySize => "invalid Titanium zone entry size",
            CodecError::SpawnSize => "unexpected Titanium player spawn size",
            CodecError::SessionKey => "missing login session key",
        }
    }
}

/// A body under the login session key, byte by byte.
pub open spec fn session_mixed(body: Seq<u8>, session_key: Seq<u8>) -> Seq<u8> {
    Seq::new(body.len(), |i: int| mix(body[i], session_key[i % session_key.len() as int]))
}

/// The session permutation undoes itself.
pub proof fn law_session_xor_undoes_itself(body: Seq<u8>, session_key: Seq<u8>)
    ensures
        session_mixed(session_mixed(body, session_key), session_key) == body,
{
    assert forall|i: int| 0 <= i < body.len() implies #[trigger] session_mixed(
        session_mixed(body, session_key),
        session_key,
    )[i] == body[i] by {
        lemma_mix(body[i], session_key[i % session_key.len() as int]);
    }
    assert(session_mixed(session_mixed(body, session_key), session_key) =~= body);
}

/// CRC1 uses the login server's ten-byte session key, independently of the
/// world approval digests. The same permutation encodes and decodes it.
pub fn session_xor(body: &mut [u8], session_key: &[u8]) -> (r: Result<(), CodecError>)
    ensures
        r == (if session_key@.len() == 0 {
            Err::<(), CodecError>(CodecError::SessionKey)
        } else {
            Ok(())
        }),
        r is Ok ==> final(body)@ == session_mixed(old(body)@, session_key@),
        r is Err ==> final(body)@ == old(body)@,
{
    if session_key.len() == 0 {
        return Err(CodecError::SessionKey);
    }
    let ghost plain = body@;
    let mut i: usize = 0;
    while i < body.len()
        invariant
            plain == old(body)@,
            body@.len() == plain.len(),
            session_key@.len() > 0,
            i <= plain.len(),
            forall|j: int|
                0 <= j < i ==> body@[j] == #[trigger] session_mixed(plain, session_key@)[j],
            forall|j: int| i <= j < plain.len() ==> body@[j] == plain[j],
        decreases plain.len() - i,
    {
        body[i] = xor_nonzero(body[i], session_key[i % session_key.len()]);
        i = i + 1;
    }
    assert(body@ =~= session_mixed(plain, session_key@));
    Ok(())
}

/// The digest of an application packet. The legacy application header takes
/// part in it, with a length that includes its own four bytes.
pub open spec fn digest_of(opcode: u16, body: Seq<u8>) -> Seq<u8> {
    outside::md5_of(bytes::le16(opcode) + bytes::le16((body.len() + 4) as u16) + body)
}

/// Whether a packet is short enough to have a digest.
pub open spec fn has_digest(body: Seq<u8>) -> bool {
    body.len() + 4 <= 65535
}

/// The legacy application header participates in the V62 digest. Its length
/// includes the four-byte opcode/length header, unlike the UDP payload length.
pub fn packet_digest(opcode: u16, body: &[u8]) -> (r: Result<[u8; 16], CodecError>)
    ensures
        match r {
            Ok(digest) => has_digest(body@) && digest@ == digest_of(opcode, body@),
            Err(e) => !has_digest(body@) && e == CodecError::DigestLength,
        },
{
    if body.len() > 65531 {
        return Err(CodecError::DigestLength);
    }
    let mut data: Vec<u8> = Vec::new();
    bytes::push_le16(&mut data, opcode);
    bytes::push_le16(&mut data, body.len() as u16 + 4);
    data.extend_from_slice(body);
    assert(data@ =~= bytes::le16(opcode) + bytes::le16((body@.len() + 4) as u16) + body@);
    Ok(outside::md5(&data))
}

/// The meaning of a `WorldCodec`.
#[verifier::ext_equal]
pub struct CodecState {
    pub key: Seq<u8>,
    pub incoming: Option<Seq<u8>>,
    pub outgoing: Option<Seq<u8>>,
}

/// The codec between client and world or zone server, with the rolling states
/// for what is read and what is written.
#[derive(Clone, Copy, Debug)]
pub struct WorldCodec {
    key: [u8; 16],
    incoming: Option<[u8; 16]>,
    outgoing: Option<[u8; 16]>,
}

pub open spec fn state_of(state: Option<[u8; 16]>) -> Option<Seq<u8>> {
    match state {
        Some(s) => Some(s@),
        None => None,
    }
}

impl View for WorldCodec {
    type V = CodecState;

    closed spec fn view(&self) -> CodecState {
        CodecState {
            key: self.key@,
            incoming: state_of(self.incoming),
            outgoing: state_of(self.outgoing),
        }
    }
}

/// The digits of an integer in an approval challenge, whose length in words
/// stands behind the space for them.
pub open spec fn approval_words(field: Seq<u8>) -> u32 {
    bytes::le32_at(field, 268)
}

pub open spec fn approval_digits(field: Seq<u8>) -> Seq<u8> {
    field.subrange(8, 8 + 4 * approval_words(field))
}

/// What is wrong with an approval challenge. It holds a modulus of 64 bits or
/// more and an exponent other than zero, each of up to 64 words.
pub open spec fn challenge_error(challenge: Seq<u8>) -> Option<CodecError> {
    let modulus = challenge.take(272);
    let exponent = challenge.skip(272);
    if challenge.len() != 544 {
        Some(CodecError::ChallengeSize)
    } else if !(1 <= approval_words(modulus) <= 64) || !(1 <= approval_words(exponent) <= 64) {
        Some(CodecError::ApprovalInteger)
    } else if outside::bits_of(outside::le_value(approval_digits(modulus))) < 64
        || outside::le_value(approval_digits(exponent)) == 0 {
        Some(CodecError::ApprovalKey)
    } else {
        None
    }
}

/// The nonce under the public key of a challenge.
pub open spec fn encrypted_nonce(nonce: u64, challenge: Seq<u8>) -> Seq<u8> {
    let modulus = outside::le_value(approval_digits(challenge.take(272)));
    let exponent = outside::le_value(approval_digits(challenge.skip(272)));
    outside::le_digits((vstd::arithmetic::power::pow(nonce as int, exponent) % (modulus as int)) as nat)
}

/// The answer to a challenge before it is encoded: a number with its length in
/// words and the words that its multiplication allocates.
pub open spec fn approval_body(digits: Seq<u8>) -> Seq<u8> {
    let words = ((digits.len() + 3) / 4) as u32;
    bytes::zeros(8) + digits + bytes::zeros((256 - digits.len()) as nat) + bytes::le32(
        (words * 2 - 1) as u32,
    ) + bytes::le32(words)
}

/// An approval body with its nine-byte header encoded, and the state that it
/// leaves for reading the manifest.
pub open spec fn approval_encoded(state: CodecState, body: Seq<u8>) -> (CodecState, Seq<u8>) {
    let rest = body.skip(9);
    let seed = digest_of(0x3c25, bytes::zeros(9) + rest);
    let head = Seq::new(9, |i: int| if i < 8 { 0xffu8 } else { 1u8 });
    (
        CodecState { incoming: Some(digest_of(0x52a4, head + rest)), ..state },
        encoded(head, state.key, seed) + rest,
    )
}

/// What a codec reads from the world manifest: the next state and the plain
/// manifest, with the error if it has none.
pub open spec fn manifest_read(state: CodecState, body: Seq<u8>) -> (
    CodecState,
    Seq<u8>,
    Option<CodecError>,
) {
    match state.incoming {
        None => (state, body, Some(CodecError::ManifestEarly)),
        Some(seed) => {
            let plain = decoded(body, state.key, seed);
            if has_digest(body) {
                (CodecState { outgoing: Some(digest_of(0x1251, plain)), ..state }, plain, None)
            } else {
                (state, plain, Some(CodecError::DigestLength))
            }
        },
    }
}

/// A checksum response under the rolling state of a codec.
pub open spec fn response_encoded(state: CodecState, body: Seq<u8>) -> Result<
    Seq<u8>,
    CodecError,
> {
    match state.outgoing {
        Some(seed) => Ok(encoded(body, state.key, seed)),
        None => Err(CodecError::FileResponseEarly),
    }
}

/// The file manifest in a zone handoff, seeded by what stands before it.
pub open spec fn zone_manifest_read(state: CodecState, handoff: Seq<u8>) -> Result<
    Seq<u8>,
    CodecError,
> {
    if handoff.len() <= 130 {
        Err(CodecError::HandoffSize)
    } else if !has_digest(handoff) {
        Err(CodecError::DigestLength)
    } else {
        let header = handoff.take(130) + bytes::zeros((handoff.len() - 130) as nat);
        Ok(decoded(handoff.skip(130), state.key, digest_of(0x61b6, header)))
    }
}

/// A codec with the key of a zone entry.
pub open spec fn zone_keyed(state: CodecState, entry: Seq<u8>) -> Result<CodecState, CodecError> {
    if entry.len() != 68 {
        Err(CodecError::EntrySize)
    } else {
        Ok(CodecState { key: outside::md5_of(entry), outgoing: None, ..state })
    }
}

/// A codec seeded by the plain player spawn.
pub open spec fn spawn_seeded(state: CodecState, body: Seq<u8>) -> Result<CodecState, CodecError> {
    if body.len() != 385 {
        Err(CodecError::SpawnSize)
    } else {
        Ok(CodecState { outgoing: Some(digest_of(0x7213, body)), ..state })
    }
}

/// A number below `256^n` has at most `n` bytes.
proof fn lemma_digit_count(value: nat, n: nat)
    requires
        n >= 1,
        value < vstd::arithmetic::power::pow(256, n),
    ensures
        1 <= outside::le_digits(value).len() <= n,
    decreases n,
{
    reveal(vstd::arithmetic::power::pow);
    if value >= 256 {
        assert(n > 1) by {
            if n == 1 {
                reveal_with_fuel(vstd::arithmetic::power::pow, 2);
            }
        }
        assert(vstd::arithmetic::power::pow(256, n) == 256 * vstd::arithmetic::power::pow(256, (n - 1) as nat));
        lemma_digit_count(value / 256, (n - 1) as nat);
    }
}

/// The number of `n` bytes is below `256^n`.
proof fn lemma_value_bound(digits: Seq<u8>)
    ensures
        outside::le_value(digits) < vstd::arithmetic::power::pow(256, digits.len()),
    decreases digits.len(),
{
    reveal(vstd::arithmetic::power::pow);
    if digits.len() > 0 {
        lemma_value_bound(digits.skip(1));
    }
}

/// A number of 64 bits is not zero.
proof fn lemma_bits_positive(value: nat)
    requires
        outside::bits_of(value) > 0,
    ensures
        value > 0,
{
}

impl WorldCodec {
    /// Derive the initial world codec key from the exact login-info packet.
    pub fn new(login_info: &[u8]) -> (r: Result<Self, CodecError>)
        ensures
            match r {
                Ok(codec) => login_info@.len() == 464 && codec@ == (CodecState {
                    key: outside::md5_of(login_info@),
                    incoming: None,
                    outgoing: None,
                }),
                Err(e) => login_info@.len() != 464 && e == CodecError::LoginSize,
            },
    {
        if login_info.len() != 464 {
            return Err(CodecError::LoginSize);
        }
        Ok(WorldCodec { key: outside::md5(login_info), incoming: None, outgoing: None })
    }

    /// Answer the world's approval challenge with a fresh odd nonce.
    ///
    /// A zero nonce encodes to zero words, which the Titanium vlong header
    /// cannot represent. Setting the low bit guarantees a nonzero value.
    pub fn approve(&mut self, challenge: &[u8]) -> (r: Result<Vec<u8>, CodecError>)
        ensures
            match r {
                Ok(body) => {
                    &&& challenge_error(challenge@) is None
                    &&& exists|nonce: u64|
                        nonce % 2 == 1 && approval_encoded(
                            old(self)@,
                            approval_body(#[trigger] encrypted_nonce(nonce, challenge@)),
                        ) == (final(self)@, body@)
                },
                Err(e) => challenge_error(challenge@) == Some(e) && final(self)@ == old(self)@,
            },
    {
        let random = outside::random_u64();
        let nonce: u64 = random | 1;
        assert(nonce % 2 == 1) by (bit_vector)
            requires
                nonce == random | 1,
        ;
        let r = self.approve_with(nonce, challenge);
        assert(r is Ok ==> approval_encoded(
            old(self)@,
            approval_body(encrypted_nonce(nonce, challenge@)),
        ) == (self@, r->Ok_0@));
        r
    }

    /// Answer the world's approval challenge with a given nonce and initialize
    /// rolling state.
    pub fn approve_with(&mut self, nonce: u64, challenge: &[u8]) -> (r: Result<
        Vec<u8>,
        CodecError,
    >)
        ensures
            match r {
                Ok(body) => {
                    &&& challenge_error(challenge@) is None
                    &&& approval_encoded(
                        old(self)@,
                        approval_body(encrypted_nonce(nonce, challenge@)),
                    ) == (final(self)@, body@)
                },
                Err(e) => challenge_error(challenge@) == Some(e) && final(self)@ == old(self)@,
            },
    {
        if challenge.len() != 544 {
            return Err(CodecError::ChallengeSize);
        }
        let modulus = match approval_integer(&challenge[0..272]) {
            Ok(digits) => digits,
            Err(e) => {
                assert(challenge@.subrange(0, 272) =~= challenge@.take(272));
                return Err(e);
            },
        };
        let exponent = match approval_integer(&challenge[272..544]) {
            Ok(digits) => digits,
            Err(e) => {
                assert(challenge@.subrange(272, 544) =~= challenge@.skip(272));
                return Err(e);
            },
        };
        assert(challenge@.subrange(0, 272) =~= challenge@.take(272));
        assert(challenge@.subrange(272, 544) =~= challenge@.skip(272));
        let exponent_bits = outside::bit_length(&exponent);
        if outside::bit_length(&modulus) < 64 || exponent_bits == 0 {
            return Err(CodecError::ApprovalKey);
        }
        proof {
            lemma_bits_positive(outside::le_value(modulus@));
        }
        let digits = outside::mod_pow(nonce, &exponent, &modulus);
        proof {
            let m = outside::le_value(modulus@);
            let v = vstd::arithmetic::power::pow(nonce as int, outside::le_value(exponent@)) % (m as int);
            lemma_value_bound(modulus@);
            vstd::arithmetic::power::lemma_pow_increases(256, modulus@.len(), 256);
            lemma_digit_count(v as nat, 256);
        }
        let mut body = bytes::zero_bytes(8);
        body.extend_from_slice(&digits);
        body.extend_from_slice(&bytes::zero_bytes(256 - digits.len()));
        let words: u32 = ((digits.len() + 3) / 4) as u32;
        bytes::push_le32(&mut body, words * 2 - 1);
        bytes::push_le32(&mut body, words);
        assert(body@ =~= approval_body(digits@));
        let r = self.encode_approval(&mut body);
        assert(r is Ok);
        Ok(body)
    }

    /// Encode an approval body and seed the incoming manifest decoder.
    pub fn encode_approval(&mut self, body: &mut [u8]) -> (r: Result<(), CodecError>)
        ensures
            match r {
                Ok(_) => {
                    &&& old(body)@.len() == 272
                    &&& approval_encoded(old(self)@, old(body)@) == (final(self)@, final(body)@)
                },
                Err(e) => {
                    &&& old(body)@.len() != 272
                    &&& e == CodecError::ResponseSize
                    &&& final(self)@ == old(self)@
                    &&& final(body)@ == old(body)@
                },
            },
    {
        if body.len() != 272 {
            return Err(CodecError::ResponseSize);
        }
        let ghost rest = body@.skip(9);
        fill(body, 9, 0);
        assert(body@ =~= bytes::zeros(9) + rest);
        let seed = match packet_digest(0x3c25, body) {
            Ok(digest) => digest,
            Err(e) => {
                return Err(e);
            },
        };
        fill(body, 8, 0xff);
        body[8] = 1;
        let ghost head = Seq::new(9, |i: int| if i < 8 { 0xffu8 } else { 1u8 });
        assert(body@ =~= head + rest);
        let incoming = match packet_digest(0x52a4, body) {
            Ok(digest) => digest,
            Err(e) => {
                return Err(e);
            },
        };
        self.incoming = Some(incoming);
        let (first, _) = body.split_at_mut(9);
        assert(first@ =~= head);
        encode(first, &self.key, &seed);
        Ok(())
    }

    /// Decode the world manifest and seed its checksum response encoder.
    pub fn manifest(&mut self, body: &mut [u8]) -> (r: Result<(), CodecError>)
        ensures
            manifest_read(old(self)@, old(body)@) == (
                final(self)@,
                final(body)@,
                match r {
                    Ok(_) => None,
                    Err(e) => Some(e),
                },
            ),
    {
        let seed = match self.incoming {
            Some(seed) => seed,
            None => {
                return Err(CodecError::ManifestEarly);
            },
        };
        decode(body, &self.key, &seed);
        match packet_digest(0x1251, body) {
            Ok(digest) => {
                self.outgoing = Some(digest);
                Ok(())
            },
            Err(e) => Err(e),
        }
    }

    /// Encode a world or zone file-checksum response with rolling state.
    pub fn file_response(&self, body: &mut [u8]) -> (r: Result<(), CodecError>)
        ensures
            response_encoded(self@, old(body)@) == (match r {
                Ok(_) => Ok(final(body)@),
                Err(e) => Err(e),
            }),
            r is Err ==> final(body)@ == old(body)@,
    {
        match self.outgoing {
            Some(seed) => {
                encode(body, &self.key, &seed);
                Ok(())
            },
            None => Err(CodecError::FileResponseEarly),
        }
    }

    /// Decode the file manifest embedded in a world-to-zone handoff.
    pub fn zone_manifest(&self, handoff: &[u8]) -> (r: Result<Vec<u8>, CodecError>)
        ensures
            zone_manifest_read(self@, handoff@) == (match r {
                Ok(manifest) => Ok(manifest@),
                Err(e) => Err(e),
            }),
    {
        if handoff.len() <= 130 {
            return Err(CodecError::HandoffSize);
        }
        let mut header = vstd::slice::slice_to_vec(&handoff[0..130]);
        header.extend_from_slice(&bytes::zero_bytes(handoff.len() - 130));
        assert(header@ =~= handoff@.take(130) + bytes::zeros((handoff@.len() - 130) as nat));
        let seed = match packet_digest(0x61b6, &header) {
            Ok(digest) => digest,
            Err(e) => {
                return Err(e);
            },
        };
        let mut manifest = vstd::slice::slice_to_vec(&handoff[130..handoff.len()]);
        assert(manifest@ =~= handoff@.skip(130));
        decode(&mut manifest, &self.key, &seed);
        Ok(manifest)
    }

    /// Rekey the codec for a new zone from the zone-entry packet.
    pub fn zone_entry(&mut self, entry: &[u8]) -> (r: Result<(), CodecError>)
        ensures
            zone_keyed(old(self)@, entry@) == (match r {
                Ok(_) => Ok(final(self)@),
                Err(e) => Err(e),
            }),
            r is Err ==> final(self)@ == old(self)@,
    {
        if entry.len() != 68 {
            return Err(CodecError::EntrySize);
        }
        self.key = outside::md5(entry);
        self.outgoing = None;
        Ok(())
    }

    /// Seed the zone checksum encoder from the decoded player spawn.
    pub fn zone_spawn(&mut self, body: &[u8]) -> (r: Result<(), CodecError>)
        ensures
            spawn_seeded(old(self)@, body@) == (match r {
                Ok(_) => Ok(final(self)@),
                Err(e) => Err(e),
            }),
            r is Err ==> final(self)@ == old(self)@,
    {
        if body.len() != 385 {
            return Err(CodecError::SpawnSize);
        }
        match packet_digest(0x7213, body) {
            Ok(digest) => {
                self.outgoing = Some(digest);
                Ok(())
            },
            Err(e) => Err(e),
        }
    }
}

/// Set the first `n` bytes of a buffer.
fn fill(body: &mut [u8], n: usize, value: u8)
    requires
        n <= old(body)@.len(),
    ensures
        final(body)@ == Seq::new(n as nat, |i: int| value) + old(body)@.skip(n as int),
{
    let mut i: usize = 0;
    while i < n
        invariant
            i <= n <= body@.len(),
            body@.len() == old(body)@.len(),
            forall|j: int| 0 <= j < i ==> body@[j] == value,
            forall|j: int| i <= j < body@.len() ==> body@[j] == old(body)@[j],
        decreases n - i,
    {
        body[i] = value;
        i = i + 1;
    }
    assert(body@ =~= Seq::new(n as nat, |i: int| value) + old(body)@.skip(n as int));
}

/// The digits of an integer in an approval challenge.
fn approval_integer(field: &[u8]) -> (r: Result<Vec<u8>, CodecError>)
    requires
        field@.len() == 272,
    ensures
        match r {
            Ok(digits) => 1 <= approval_words(field@) <= 64 && digits@ == approval_digits(field@)
                && digits@.len() == 4 * approval_words(field@),
            Err(e) => !(1 <= approval_words(field@) <= 64) && e == CodecError::ApprovalInteger,
        },
{
    let words: u32 = bytes::read_le32(field, 268);
    if words < 1 || words > 64 {
        return Err(CodecError::ApprovalInteger);
    }
    Ok(vstd::slice::slice_to_vec(&field[8..8 + 4 * words as usize]))
}

} // verus!

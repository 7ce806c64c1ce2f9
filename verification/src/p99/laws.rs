//! What the application codec does with each byte, key and packet.

use super::{CodecError, CodecState};
use crate::bytes;
use crate::outside;
use vstd::prelude::*;

verus! {

/// Every byte of an encoded body but the first shows the key byte of its lane and
/// the next byte of the lane that is not zero, or the seed behind the last one.
/// A byte that equals what it would be mixed with stays as it is.
///
/// `next` is where the lane has its next byte other than zero, or any place of the
/// lane behind the end where it has none.
pub proof fn law_encoded_byte(plain: Seq<u8>, key: Seq<u8>, seed: Seq<u8>, i: int, next: int)
    requires
        0 < i < plain.len(),
        plain[i] != 0,
        i < next,
        (next - i) % 16 == 0,
        forall|j: int| i < j < next && j < plain.len() && (j - i) % 16 == 0 ==> plain[j] == 0,
        next < plain.len() ==> plain[next] != 0,
    ensures
        ({
            let byte = super::encoded(plain, key, seed)[i];
            let key_byte = key[i % 16];
            let lane = if next < plain.len() {
                plain[next]
            } else {
                seed[i % 16]
            };
            let keyed = if plain[i] == key_byte {
                plain[i]
            } else {
                plain[i] ^ key_byte
            };
            byte == if keyed == lane {
                keyed
            } else {
                keyed ^ lane
            }
        }),
{
    lemma_lane(plain, seed, i, next);
    super::lemma_mix(plain[i], key[i % 16]);
}

proof fn lemma_lane(plain: Seq<u8>, seed: Seq<u8>, i: int, next: int)
    requires
        0 <= i < plain.len(),
        i < next,
        (next - i) % 16 == 0,
        forall|j: int| i < j < next && j < plain.len() && (j - i) % 16 == 0 ==> plain[j] == 0,
        next < plain.len() ==> plain[next] != 0,
    ensures
        super::rolling(plain, seed, i) == (if next < plain.len() {
            plain[next]
        } else {
            seed[i % 16]
        }),
    decreases plain.len() - i,
{
    if i + 16 < plain.len() && i + 16 < next {
        assert((i + 16 - i) % 16 == 0);
        assert(plain[i + 16] == 0);
        assert forall|j: int|
            i + 16 < j < next && j < plain.len() && (j - (i + 16)) % 16 == 0 implies plain[j]
            == 0 by {
            assert((j - i) % 16 == 0);
        }
        assert((next - (i + 16)) % 16 == 0);
        lemma_lane(plain, seed, i + 16, next);
        assert((i + 16) % 16 == i % 16);
    } else if i + 16 < plain.len() {
        assert(next == i + 16);
    }
}

/// Another key byte gives another encoded byte, unless one of the two is the
/// plain byte itself.
pub proof fn law_key_shows_in_every_byte(
    plain: Seq<u8>,
    key: Seq<u8>,
    other: Seq<u8>,
    seed: Seq<u8>,
    i: int,
)
    requires
        0 < i < plain.len(),
        plain[i] != 0,
        key[i % 16] != other[i % 16],
        plain[i] != key[i % 16],
        plain[i] != other[i % 16],
    ensures
        super::encoded(plain, key, seed)[i] != super::encoded(plain, other, seed)[i],
{
    let p = plain[i];
    let a = key[i % 16];
    let b = other[i % 16];
    let lane = super::rolling(plain, seed, i);
    assert(a != b ==> p ^ a != p ^ b) by (bit_vector);
    super::lemma_mix(p ^ a, lane);
    super::lemma_mix(p ^ b, lane);
}

/// A body that was encoded with one key does not come back under a key that
/// differs in the lane of one of its bytes, unless that key byte is the byte itself.
pub proof fn law_wrong_key_does_not_decode(
    plain: Seq<u8>,
    key: Seq<u8>,
    other: Seq<u8>,
    seed: Seq<u8>,
    i: int,
)
    requires
        0 < i < plain.len(),
        plain[i] != 0,
        key[i % 16] != other[i % 16],
        plain[i] != key[i % 16],
        plain[i] != other[i % 16],
    ensures
        super::decoded(super::encoded(plain, key, seed), other, seed) != plain,
{
    law_key_shows_in_every_byte(plain, key, other, seed, i);
    super::law_encode_inverts_decode(super::encoded(plain, key, seed), other, seed);
}

/// The session permutation mixes every byte with the key byte at its place, the
/// key repeated as often as it takes. Zero and the key byte itself stay.
pub proof fn law_session_key_mixes_every_byte(body: Seq<u8>, session_key: Seq<u8>, i: int)
    requires
        session_key.len() > 0,
        0 <= i < body.len(),
    ensures
        super::session_mixed(body, session_key).len() == body.len(),
        ({
            let k = session_key[i % (session_key.len() as int)];
            let byte = super::session_mixed(body, session_key)[i];
            &&& body[i] == 0 || body[i] == k ==> byte == body[i]
            &&& body[i] != 0 && body[i] != k ==> byte == body[i] ^ k
        }),
{
}

/// A body under one session key does not come back under another that differs
/// anywhere the body has a byte, unless one of the key bytes is that byte.
pub proof fn law_wrong_session_key_does_not_read(
    body: Seq<u8>,
    session_key: Seq<u8>,
    other: Seq<u8>,
    i: int,
)
    requires
        session_key.len() > 0,
        other.len() == session_key.len(),
        0 <= i < body.len(),
        body[i] != 0,
        session_key[i % (session_key.len() as int)] != other[i % (session_key.len() as int)],
        body[i] != session_key[i % (session_key.len() as int)],
        body[i] != other[i % (session_key.len() as int)],
    ensures
        super::session_mixed(super::session_mixed(body, session_key), other) != body,
{
    let p = body[i];
    let a = session_key[i % (session_key.len() as int)];
    let b = other[i % (session_key.len() as int)];
    assert(a != b ==> p ^ a != p ^ b) by (bit_vector);
    super::lemma_mix(p, a);
    super::lemma_mix(super::mix(p, a), b);
    super::lemma_mix(p, b);
    assert(super::session_mixed(super::session_mixed(body, session_key), other)[i] == super::mix(
        super::mix(p, a),
        b,
    ));
}

/// A packet as the digest sees it: opcode and length in little-endian order, the
/// length with these four bytes, and the body.
pub open spec fn digested(opcode: u16, body: Seq<u8>) -> Seq<u8> {
    let length = body.len() + 4;
    seq![
        (opcode % 256) as u8,
        (opcode / 256) as u8,
        (length % 256) as u8,
        (length / 256) as u8,
    ] + body
}

/// The digest of a packet covers its opcode, its length and its body.
pub proof fn law_digest_covers_the_packet(opcode: u16, body: Seq<u8>)
    requires
        body.len() <= 65531,
    ensures
        super::has_digest(body),
        super::digest_of(opcode, body) == outside::md5_of(digested(opcode, body)),
{
    assert(bytes::le16(opcode) + bytes::le16((body.len() + 4) as u16) + body =~= digested(
        opcode,
        body,
    ));
}

/// A packet whose length does not fit 16 bits has no digest.
pub proof fn law_long_packets_have_no_digest(body: Seq<u8>)
    ensures
        super::has_digest(body) <==> body.len() <= 65531,
{
}

/// The number in four little-endian bytes.
pub open spec fn number_at(s: Seq<u8>, i: int) -> int {
    s[i] + 256 * s[i + 1] + 65536 * s[i + 2] + 16777216 * s[i + 3]
}

/// A challenge is accepted exactly where it holds two integers in 272 bytes each,
/// of 1 to 64 words by the count in their last four bytes: a modulus of at least
/// 64 bits and an exponent other than zero.
pub proof fn law_challenge_is_accepted(challenge: Seq<u8>)
    ensures
        super::challenge_error(challenge) is None <==> {
            let m = number_at(challenge, 268);
            let e = number_at(challenge, 540);
            &&& challenge.len() == 544
            &&& 1 <= m <= 64
            &&& 1 <= e <= 64
            &&& outside::bits_of(outside::le_value(challenge.subrange(8, 8 + 4 * m))) >= 64
            &&& outside::le_value(challenge.subrange(280, 280 + 4 * e)) != 0
        },
        challenge.len() != 544 ==> super::challenge_error(challenge) == Some(
            CodecError::ChallengeSize,
        ),
        challenge.len() == 544 && !(1 <= number_at(challenge, 268) <= 64 && 1 <= number_at(
            challenge,
            540,
        ) <= 64) ==> super::challenge_error(challenge) == Some(CodecError::ApprovalInteger),
{
    if challenge.len() == 544 {
        let modulus = challenge.take(272);
        let exponent = challenge.skip(272);
        assert(super::approval_words(modulus) == number_at(challenge, 268));
        assert(super::approval_words(exponent) == number_at(challenge, 540));
        let m = number_at(challenge, 268);
        let e = number_at(challenge, 540);
        if 1 <= m <= 64 && 1 <= e <= 64 {
            assert(super::approval_digits(modulus) =~= challenge.subrange(8, 8 + 4 * m));
            assert(super::approval_digits(exponent) =~= challenge.subrange(280, 280 + 4 * e));
        }
    }
}

/// The nonce is raised to the exponent of the challenge, modulo its modulus.
pub proof fn law_nonce_is_encrypted(nonce: u64, challenge: Seq<u8>)
    requires
        super::challenge_error(challenge) is None,
    ensures
        ({
            let m = outside::le_value(challenge.subrange(8, 8 + 4 * number_at(challenge, 268)));
            let e = outside::le_value(challenge.subrange(280, 280 + 4 * number_at(challenge, 540)));
            super::encrypted_nonce(nonce, challenge) == outside::le_digits(
                (vstd::arithmetic::power::pow(nonce as int, e) % (m as int)) as nat,
            )
        }),
{
    law_challenge_is_accepted(challenge);
    let m = number_at(challenge, 268);
    let e = number_at(challenge, 540);
    assert(super::approval_words(challenge.take(272)) == m);
    assert(super::approval_words(challenge.skip(272)) == e);
    assert(super::approval_digits(challenge.take(272)) =~= challenge.subrange(8, 8 + 4 * m));
    assert(super::approval_digits(challenge.skip(272)) =~= challenge.subrange(280, 280 + 4 * e));
}

/// An approval body has room for 256 digits after eight zeros; the word counts
/// stand at the end, first that of a product and then that of the number.
pub proof fn law_approval_body_layout(digits: Seq<u8>)
    requires
        1 <= digits.len() <= 256,
    ensures
        ({
            let body = super::approval_body(digits);
            let words = (digits.len() + 3) / 4;
            &&& body.len() == 272
            &&& forall|i: int| 0 <= i < 8 ==> #[trigger] body[i] == 0
            &&& forall|i: int| 8 <= i < 8 + digits.len() ==> #[trigger] body[i] == digits[i - 8]
            &&& forall|i: int| 8 + digits.len() <= i < 264 ==> #[trigger] body[i] == 0
            &&& number_at(body, 264) == 2 * words - 1
            &&& number_at(body, 268) == words
        }),
{
}

/// An approval keeps its body behind the header of nine bytes. Read with the key
/// and the digest of the packet with an empty header, the header is eight bytes of
/// all ones and a one. The digest of that packet under the manifest's opcode is
/// what the manifest is read with; nothing else of the codec changes.
pub proof fn law_approval_seeds_the_manifest(state: CodecState, body: Seq<u8>)
    requires
        body.len() == 272,
    ensures
        ({
            let (next, answer) = super::approval_encoded(state, body);
            let rest = body.skip(9);
            let empty = Seq::new(9, |i: int| 0u8);
            let header = seq![0xffu8, 0xffu8, 0xffu8, 0xffu8, 0xffu8, 0xffu8, 0xffu8, 0xffu8, 1u8];
            &&& answer.len() == 272
            &&& answer.skip(9) == rest
            &&& super::decoded(
                answer.take(9),
                state.key,
                outside::md5_of(digested(0x3c25, empty + rest)),
            ) == header
            &&& next.incoming == Some(outside::md5_of(digested(0x52a4, header + rest)))
            &&& next.outgoing == state.outgoing
            &&& next.key == state.key
        }),
{
    let (next, answer) = super::approval_encoded(state, body);
    let rest = body.skip(9);
    let empty = Seq::new(9, |i: int| 0u8);
    let header = seq![0xffu8, 0xffu8, 0xffu8, 0xffu8, 0xffu8, 0xffu8, 0xffu8, 0xffu8, 1u8];
    let head = Seq::new(9, |i: int| if i < 8 { 0xffu8 } else { 1u8 });
    assert(head =~= header);
    assert(bytes::zeros(9) =~= empty);
    law_digest_covers_the_packet(0x3c25, empty + rest);
    law_digest_covers_the_packet(0x52a4, header + rest);
    let seed = super::digest_of(0x3c25, empty + rest);
    assert(answer.take(9) =~= super::encoded(header, state.key, seed));
    assert(answer.skip(9) =~= rest);
    super::law_decode_inverts_encode(header, state.key, seed);
}

/// A manifest that the server encoded with the key and the state of the approval
/// comes out plain, and its digest is what the answer is written with.
pub proof fn law_manifest_comes_out_plain(state: CodecState, manifest: Seq<u8>, seed: Seq<u8>)
    requires
        state.incoming == Some(seed),
        manifest.len() <= 65531,
    ensures
        super::manifest_read(state, super::encoded(manifest, state.key, seed)) == (
            CodecState {
                key: state.key,
                incoming: state.incoming,
                outgoing: Some(outside::md5_of(digested(0x1251, manifest))),
            },
            manifest,
            None::<CodecError>,
        ),
{
    super::law_decode_inverts_encode(manifest, state.key, seed);
    law_digest_covers_the_packet(0x1251, manifest);
}

/// No manifest is read before the approval, and no response is written before a
/// manifest; neither changes anything.
pub proof fn law_codec_is_used_in_order(state: CodecState, body: Seq<u8>)
    ensures
        state.incoming is None ==> super::manifest_read(state, body) == (
            state,
            body,
            Some(CodecError::ManifestEarly),
        ),
        state.outgoing is None ==> super::response_encoded(state, body) == Err::<Seq<u8>, _>(
            CodecError::FileResponseEarly,
        ),
{
}

/// The server reads a response with the key and the state that the manifest left.
pub proof fn law_response_reads_back(state: CodecState, body: Seq<u8>, seed: Seq<u8>)
    requires
        state.outgoing == Some(seed),
    ensures
        super::response_encoded(state, body) matches Ok(wire) && super::decoded(
            wire,
            state.key,
            seed,
        ) == body,
{
    super::law_decode_inverts_encode(body, state.key, seed);
}

/// The manifest in a zone handoff is encoded with the key and the digest of the
/// handoff with zeros in its place; it comes out plain.
pub proof fn law_zone_manifest_comes_out_plain(
    state: CodecState,
    head: Seq<u8>,
    manifest: Seq<u8>,
)
    requires
        head.len() == 130,
        0 < manifest.len() <= 65401,
    ensures
        ({
            let blank = Seq::new(manifest.len(), |i: int| 0u8);
            let seed = outside::md5_of(digested(0x61b6, head + blank));
            super::zone_manifest_read(state, head + super::encoded(manifest, state.key, seed))
                == Ok::<_, CodecError>(manifest)
        }),
{
    let blank = Seq::new(manifest.len(), |i: int| 0u8);
    let seed = outside::md5_of(digested(0x61b6, head + blank));
    let wire = super::encoded(manifest, state.key, seed);
    let handoff = head + wire;
    assert(handoff.take(130) =~= head);
    assert(handoff.skip(130) =~= wire);
    assert(bytes::zeros((handoff.len() - 130) as nat) =~= blank);
    law_digest_covers_the_packet(0x61b6, head + blank);
    super::law_decode_inverts_encode(manifest, state.key, seed);
}

/// A handoff of 130 bytes or less has no manifest.
pub proof fn law_short_handoff_has_no_manifest(state: CodecState, handoff: Seq<u8>)
    requires
        handoff.len() <= 130,
    ensures
        super::zone_manifest_read(state, handoff) == Err::<Seq<u8>, _>(CodecError::HandoffSize),
{
}

/// A zone entry of 68 bytes gives the codec its key and takes away the state for
/// responses; a spawn of 385 bytes gives a new one. Other sizes are refused.
pub proof fn law_zone_rekeys_the_codec(state: CodecState, entry: Seq<u8>, spawn: Seq<u8>)
    ensures
        entry.len() == 68 ==> super::zone_keyed(state, entry) == Ok::<_, CodecError>(
            CodecState {
                key: outside::md5_of(entry),
                incoming: state.incoming,
                outgoing: None,
            },
        ),
        entry.len() != 68 ==> super::zone_keyed(state, entry) == Err::<CodecState, _>(
            CodecError::EntrySize,
        ),
        spawn.len() == 385 ==> super::spawn_seeded(state, spawn) == Ok::<_, CodecError>(
            CodecState {
                key: state.key,
                incoming: state.incoming,
                outgoing: Some(outside::md5_of(digested(0x7213, spawn))),
            },
        ),
        spawn.len() != 385 ==> super::spawn_seeded(state, spawn) == Err::<CodecState, _>(
            CodecError::SpawnSize,
        ),
{
    if spawn.len() == 385 {
        law_digest_covers_the_packet(0x7213, spawn);
    }
}

} // verus!

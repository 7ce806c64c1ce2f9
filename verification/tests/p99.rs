//! The V62 application codec.

use p99_logger_client::p99::{
    decode, encode, packet_digest, session_xor, CodecError, WorldCodec,
};

#[test]
fn zero_key_oracle_vector_skips_empty_lane_entries() {
    // Measured from the isolated current V62 encoder using zero keys and
    // synthetic bytes 0..357. The zero at offset 256 is skipped in its lane.
    let mut body: Vec<u8> = (0..=u8::MAX).cycle().take(358).collect();
    encode(&mut body, &[0; 16], &[0; 16]);
    assert_eq!(
        &body[..16],
        &[0, 16, 16, 16, 16, 16, 16, 16, 16, 16, 16, 16, 16, 16, 16, 16]
    );
    assert_eq!(body[240], 224);
    assert_eq!(body[256], 0);
    assert_eq!(&body[342..], &(86..102).collect::<Vec<u8>>());
}

#[test]
fn inverse_preserves_all_byte_values_and_terminators() {
    let key = std::array::from_fn(|i| u8::try_from(i * 17).unwrap());
    let seed = std::array::from_fn(|i| u8::try_from(i * 13 + 19).unwrap());
    for length in [0, 1, 15, 16, 17, 358, 996, 2056] {
        let plain: Vec<u8> = (0..=u8::MAX).cycle().take(length).collect();
        let mut body = plain.clone();
        encode(&mut body, &key, &seed);
        assert!(body.iter().zip(&plain).all(|(a, b)| (*a == 0) == (*b == 0)));
        decode(&mut body, &key, &seed);
        assert_eq!(body, plain);
    }
}

#[test]
fn the_session_permutation_undoes_itself() {
    let plain: Vec<u8> = (0..=u8::MAX).collect();
    let mut body = plain.clone();
    session_xor(&mut body, b"0123456789").unwrap();
    assert_ne!(body, plain);
    assert_eq!(body[0], 0);
    session_xor(&mut body, b"0123456789").unwrap();
    assert_eq!(body, plain);
    assert_eq!(
        session_xor(&mut body, b"").unwrap_err(),
        CodecError::SessionKey
    );
    assert_eq!(body, plain);
}

#[test]
fn packet_digests_cover_opcode_length_and_body() {
    let digest = packet_digest(0x52a4, b"body").unwrap();
    assert_ne!(digest, packet_digest(0x1251, b"body").unwrap());
    assert_ne!(digest, packet_digest(0x52a4, b"bodies").unwrap());
    assert_eq!(
        digest,
        md5::compute([0xa4, 0x52, 8, 0, b'b', b'o', b'd', b'y']).0
    );
    assert_eq!(
        packet_digest(0x52a4, &[0; 65532]).unwrap_err(),
        CodecError::DigestLength
    );
}

/// A challenge with a modulus of nine bytes and an exponent of one.
fn challenge() -> Vec<u8> {
    let mut data = vec![0; 544];
    data[8..20].copy_from_slice(&[0, 0, 0, 0, 0, 0, 0, 0, 1, 0, 0, 0]);
    data[268..272].copy_from_slice(&3u32.to_le_bytes());
    data[280] = 1;
    data[540..544].copy_from_slice(&1u32.to_le_bytes());
    data
}

#[test]
fn an_approval_carries_the_nonce_under_the_public_key() {
    let mut codec = WorldCodec::new(&[7; 464]).unwrap();
    // The modulus exceeds every nonce and the exponent is one.
    let nonce = 0x1122_3344_5566_7789;
    let answer = codec.approve_with(nonce, &challenge()).unwrap();
    assert_eq!(answer.len(), 272);
    assert_eq!(&answer[9..16], &nonce.to_le_bytes()[1..]);
    assert_eq!(&answer[264..268], &3u32.to_le_bytes());
    assert_eq!(&answer[268..272], &2u32.to_le_bytes());

    let mut again = WorldCodec::new(&[7; 464]).unwrap();
    assert_eq!(again.approve_with(nonce, &challenge()).unwrap(), answer);
    assert_ne!(again.approve(&challenge()).unwrap(), answer);
}

#[test]
fn the_nonce_is_raised_to_the_exponent() {
    let mut codec = WorldCodec::new(&[7; 464]).unwrap();
    let mut challenge = challenge();
    challenge[280] = 20;
    // 3 to the power of 20 is 0xcfd41b91; the low byte gives way to the header.
    let answer = codec.approve_with(3, &challenge).unwrap();
    assert_eq!(&answer[9..13], &[0x1b, 0xd4, 0xcf, 0]);
    assert_eq!(&answer[268..272], &1u32.to_le_bytes());
    // 3 to the power of 41 exceeds the modulus of 2 to the power of 64.
    challenge[280] = 41;
    let answer = codec.approve_with(3, &challenge).unwrap();
    let power = (3u128.pow(41) % (1 << 64)).to_le_bytes();
    assert_eq!(&answer[9..16], &power[1..8]);
}

#[test]
fn challenges_have_to_be_usable() {
    let mut codec = WorldCodec::new(&[7; 464]).unwrap();
    assert_eq!(
        codec.approve(&[0; 543]).unwrap_err(),
        CodecError::ChallengeSize
    );
    let mut words = challenge();
    words[268] = 65;
    assert_eq!(
        codec.approve(&words).unwrap_err(),
        CodecError::ApprovalInteger
    );
    let mut modulus = challenge();
    modulus[16] = 0;
    assert_eq!(
        codec.approve(&modulus).unwrap_err(),
        CodecError::ApprovalKey
    );
    // A modulus of 63 bits is too short, one of 64 bits is not.
    modulus[15] = 0x40;
    assert_eq!(
        codec.approve(&modulus).unwrap_err(),
        CodecError::ApprovalKey
    );
    modulus[15] = 0x80;
    assert!(codec.approve(&modulus).is_ok());
    let mut exponent = challenge();
    exponent[280] = 0;
    assert_eq!(
        codec.approve(&exponent).unwrap_err(),
        CodecError::ApprovalKey
    );
}

#[test]
fn a_codec_answers_in_order() {
    assert_eq!(
        WorldCodec::new(&[7; 463]).err().unwrap(),
        CodecError::LoginSize
    );
    let mut codec = WorldCodec::new(&[7; 464]).unwrap();
    let mut manifest = b"\x11\x00\x01name.eqg\0".to_vec();
    assert_eq!(
        codec.manifest(&mut manifest).unwrap_err(),
        CodecError::ManifestEarly
    );
    let mut response = vec![1, 2, 3, 4];
    assert_eq!(
        codec.file_response(&mut response).unwrap_err(),
        CodecError::FileResponseEarly
    );
    assert_eq!(
        codec.encode_approval(&mut [0; 271]).unwrap_err(),
        CodecError::ResponseSize
    );
    codec.approve_with(1, &challenge()).unwrap();
    codec.manifest(&mut manifest).unwrap();
    codec.file_response(&mut response).unwrap();
    assert_eq!(response.len(), 4);
}

#[test]
fn zone_packets_key_and_seed_the_codec() {
    let mut codec = WorldCodec::new(&[7; 464]).unwrap();
    assert_eq!(
        codec.zone_manifest(&[1; 130]).unwrap_err(),
        CodecError::HandoffSize
    );
    assert_eq!(codec.zone_manifest(&[1; 140]).unwrap().len(), 10);
    assert_eq!(
        codec.zone_entry(&[0; 67]).unwrap_err(),
        CodecError::EntrySize
    );
    codec.zone_entry(&[0; 68]).unwrap();
    assert_eq!(
        codec.zone_spawn(&[0; 384]).unwrap_err(),
        CodecError::SpawnSize
    );
    let mut response = vec![1, 2, 3, 4];
    assert!(codec.file_response(&mut response).is_err());
    codec.zone_spawn(&[0; 385]).unwrap();
    codec.file_response(&mut response).unwrap();

    // The response can be read with the entry's digest and the spawn's.
    let seed = packet_digest(0x7213, &[0; 385]).unwrap();
    decode(&mut response, &md5::compute([0; 68]).0, &seed);
    assert_eq!(response, [1, 2, 3, 4]);
}

#[test]
fn codec_errors_have_their_wording() {
    assert_eq!(
        CodecError::ManifestEarly.message(),
        "manifest arrived before approval"
    );
}

//! The reliable UDP session, driven without a socket.

use p99_logger_client::transport::{
    split_combined, Handshake, Session, TransportError, MAX_APPLICATION,
};
use std::collections::{HashMap, VecDeque};

const SECOND: u64 = 1_000_000_000;

/// A moment well after the clock's origin.
const NOW: u64 = 1_000 * SECOND;

fn session() -> Session {
    Session {
        id: 7,
        crc_seed: 0x1122_3344,
        crc_bytes: 2,
        compression: true,
        max_datagram: 512,
        next_send: 0,
        next_receive: 0,
        ack_pending: false,
        last_ack: NOW,
        reorder: HashMap::new(),
        pending: Vec::new(),
        fragment: None,
        applications: VecDeque::new(),
        last_receive: NOW,
        started: NOW,
        next_stats: NOW + 10 * SECOND,
        stats_request: None,
        rtt: 0,
        rtt_min: 0,
        rtt_max: 0,
        rtt_sum: 0,
        rtt_count: 0,
        sent_count: 0,
        received_count: 0,
        closed: false,
        outbox: Vec::new(),
    }
}

fn packet(session: &Session, op: u16, seq: u16, body: &[u8]) -> Vec<u8> {
    let mut data = seq.to_be_bytes().to_vec();
    data.extend_from_slice(body);
    session.datagram(op, &data)
}

#[test]
fn reordered_fragments_cross_sequence_wrap_once() {
    let mut session = session();
    session.next_receive = 65534;
    let mut first = 6u32.to_be_bytes().to_vec();
    first.extend_from_slice(&[4, 16]);
    for (seq, data) in [(0, &b"!"[..]), (65534, &first), (65535, &b"hey"[..])] {
        let frame = packet(&session, 13, seq, data);
        session
            .process(&frame[..frame.len() - 2], false, 0, NOW)
            .unwrap();
    }
    assert_eq!(session.next_receive, 1);
    let chat = session.applications.pop_front().unwrap();
    assert_eq!((chat.opcode, chat.body), (0x1004, b"hey!".to_vec()));
    let duplicate = packet(&session, 13, 0, b"!");
    session
        .process(&duplicate[..duplicate.len() - 2], false, 0, NOW)
        .unwrap();
    assert!(session.applications.is_empty());
    assert!(session.reorder.is_empty());
}

#[test]
fn packets_nested_too_deeply_are_refused() {
    let mut session = session();
    let frame = packet(&session, 9, 0, &[4, 16, b'!']);
    let bytes = &frame[..frame.len() - 2];
    for depth in [8, 9, usize::MAX] {
        assert_eq!(
            session.process(bytes, false, depth, NOW).unwrap_err(),
            TransportError::NestedTransport
        );
    }
    session.process(bytes, false, 7, NOW).unwrap();
    assert_eq!(session.applications.len(), 1);
}

#[test]
fn applications_in_flight_together_arrive_in_order() {
    let mut sender = session();
    let long = vec![7; 1500];
    sender.send(0x1004, &long, NOW).unwrap();
    sender.send(0x1005, b"short", NOW).unwrap();
    sender.send(0x1006, &long[1..], NOW).unwrap();
    let wires = std::mem::take(&mut sender.outbox);
    let mut receiver = session();
    let mut found = Vec::new();
    for wire in wires.iter().rev().chain(&wires) {
        found.extend(receiver.receive(wire, NOW).unwrap());
    }
    found.extend(receiver.applications);
    let found: Vec<_> = found.into_iter().map(|a| (a.opcode, a.body)).collect();
    assert_eq!(
        found,
        [
            (0x1004, long.clone()),
            (0x1005, b"short".to_vec()),
            (0x1006, long[1..].to_vec())
        ]
    );
}

#[test]
fn damaged_datagram_is_discarded_then_retransmission_delivered() {
    let mut session = session();
    let frame = packet(&session, 9, 0, b"\x04\x10hello");
    let mut damaged = frame.clone();
    damaged[5] ^= 0x80;
    assert!(session.poll(NOW).unwrap().is_none());
    assert!(session.receive(&damaged, NOW).unwrap().is_none());
    assert!(session.poll(NOW).unwrap().is_none());
    assert_eq!(
        session.receive(&frame, NOW).unwrap().unwrap().body,
        b"hello"
    );
}

#[test]
fn outgoing_fragment_sizes_and_cumulative_ack() {
    let mut session = session();
    let body: Vec<u8> = (0..=u8::MAX).cycle().take(2056).collect();
    session.send(0x5072, &body, NOW).unwrap();
    assert_eq!(session.pending.len(), 5);
    assert!(session.pending.iter().all(|p| p.packet.len() <= 512));
    let frames: Vec<_> = session.pending.iter().map(|p| p.packet.clone()).collect();
    for frame in frames {
        session
            .process(&frame[..frame.len() - 2], false, 0, NOW)
            .unwrap();
    }
    assert_eq!(session.applications.pop_front().unwrap().body, body);
    let ack = session.datagram(0x15, &4u16.to_be_bytes());
    session
        .process(&ack[..ack.len() - 2], false, 0, NOW)
        .unwrap();
    assert!(session.pending.is_empty());
}

#[test]
fn raw_position_packet_uses_marker_between_opcode_bytes() {
    let mut session = session();
    let position = [0; 36];
    session.send_unreliable(0x14cb, &position).unwrap();
    let sent = session.take_outbox();
    assert_eq!(sent.len(), 1);
    let bytes = &sent[0];
    let n = bytes.len();
    assert_eq!(&bytes[..2], &[0xcb, 0x5a]);
    assert!(n < 41);
    let packet = session.receive(&bytes[..n], NOW).unwrap().unwrap();
    assert_eq!(packet.opcode, 0x14cb);
    assert_eq!(packet.body, position);
}

#[test]
fn reliable_burst_gets_one_cumulative_ack() {
    let mut session = session();
    for sequence in 0..200 {
        let frame = packet(&session, 9, sequence, b"\x04\x10hello");
        session
            .process(&frame[..frame.len() - 2], false, 0, NOW)
            .unwrap();
    }
    assert!(
        session.take_outbox().is_empty(),
        "burst must not ACK each packet"
    );
    session.last_ack = NOW - SECOND / 10;
    assert!(session.poll(NOW).unwrap().is_some());
    let sent = session.take_outbox();
    assert_eq!(sent.len(), 1);
    assert_eq!(sent[0], session.datagram(0x15, &199u16.to_be_bytes()));
    assert!(!session.ack_pending);
}

/// The server's answer to the request of session 7.
fn answer(crc_bytes: u8, compression: u8, encoding: u8, datagram: u32) -> Vec<u8> {
    let mut wire = vec![0, 2, 0, 0, 0, 7];
    wire.extend(0x1122_3344u32.to_be_bytes());
    wire.extend([crc_bytes, compression, encoding]);
    wire.extend(datagram.to_be_bytes());
    wire
}

#[test]
fn negotiation_repeats_its_request_and_takes_only_its_own_answer() {
    let mut handshake = Handshake::with_id(7, NOW);
    let request = handshake.poll(false, NOW).unwrap().unwrap();
    assert_eq!(request, [0, 1, 0, 0, 0, 2, 0, 0, 0, 7, 0, 0, 2, 0]);
    assert!(handshake.poll(false, NOW + SECOND - 1).unwrap().is_none());
    assert!(handshake.poll(false, NOW + SECOND).unwrap().is_some());

    let mut foreign = answer(2, 1, 0, 512);
    foreign[5] = 8;
    assert!(handshake.receive(&foreign, false, NOW).unwrap().is_none());
    assert!(handshake
        .receive(&answer(2, 1, 0, 512)[..16], false, NOW)
        .unwrap()
        .is_none());

    let session = handshake
        .receive(&answer(2, 1, 0, 512), false, NOW)
        .unwrap()
        .unwrap();
    assert_eq!(session.crc_seed, 0x1122_3344);
    assert!(session.compression);
    assert!(session.outbox.is_empty());

    let mut echoing = Session::connect(7, &answer(2, 0, 0, 512), true, NOW).unwrap();
    assert_eq!(echoing.take_outbox(), [answer(2, 0, 0, 512)]);
    assert!(!echoing.compression);
}

#[test]
fn negotiation_is_cancelled_or_times_out() {
    let mut handshake = Handshake::new(NOW);
    assert_eq!(
        handshake.poll(true, NOW).unwrap_err(),
        TransportError::Cancelled
    );
    assert_eq!(
        handshake.poll(false, NOW + 15 * SECOND).unwrap_err(),
        TransportError::NegotiationTimeout
    );
    assert!(handshake.poll(false, NOW + 15 * SECOND - 1).is_ok());
}

#[test]
fn two_negotiations_pick_ids_of_their_own() {
    let ids: Vec<u32> = (0..8).map(|_| Handshake::new(NOW).id).collect();
    assert!(ids.iter().any(|id| *id != ids[0]));
}

#[test]
fn unsupported_parameters_are_refused() {
    for (wire, expected) in [
        (answer(5, 1, 0, 512), TransportError::CrcSize),
        (answer(2, 2, 0, 512), TransportError::Encoding),
        (answer(2, 1, 1, 512), TransportError::Encoding),
        (answer(2, 1, 0, 63), TransportError::DatagramSize),
        (answer(2, 1, 0, 65508), TransportError::DatagramSize),
    ] {
        assert_eq!(
            Session::connect(7, &wire, false, NOW).err().unwrap(),
            expected
        );
    }
}

#[test]
fn a_datagram_ends_in_the_seeded_checksum() {
    let mut session = session();
    session.compression = false;
    let wire = session.datagram(0x15, &[0, 4]);
    let mut sealed = 0x1122_3344u32.to_le_bytes().to_vec();
    sealed.extend([0, 0x15, 0, 4]);
    let crc = crc32fast::hash(&sealed).to_be_bytes();
    assert_eq!(&wire[..4], &[0, 0x15, 0, 4]);
    assert_eq!(&wire[4..], &crc[2..]);
}

#[test]
fn long_bodies_are_compressed_and_short_ones_marked() {
    let session = session();
    let short = session.datagram(0x15, &[0, 4]);
    assert_eq!(&short[..5], &[0, 0x15, 0xa5, 0, 4]);
    let long = session.datagram(9, &[7; 200]);
    assert_eq!(&long[..3], &[0, 9, 0x5a]);
    assert!(long.len() < 60);
    let end = long.len() - 2;
    let inflated = miniz_oxide::inflate::decompress_to_vec_zlib(&long[3..end]).unwrap();
    assert_eq!(inflated, [7; 200]);
}

#[test]
fn combined_packets_split_and_malformed_ones_are_refused() {
    let parts = split_combined(&[2, b'h', b'i', 1, b'!']).unwrap();
    assert_eq!(parts, [&b"hi"[..], &b"!"[..]]);
    assert!(split_combined(&[3, b'h', b'i']).is_err());
}

#[test]
fn a_closed_session_sends_nothing_more() {
    let mut session = session();
    session.close();
    let sent = session.take_outbox();
    assert_eq!(sent.len(), 1);
    assert_eq!(&sent[0][..2], &[0, 5]);
    session.close();
    assert!(session.take_outbox().is_empty());
    assert_eq!(
        session.send(1, &[], NOW).unwrap_err(),
        TransportError::SessionClosed
    );
    assert!(session.take_outbox().is_empty());
}

#[test]
fn a_peer_that_closes_ends_the_session() {
    let mut session = session();
    let closing = session.datagram(5, &7u32.to_be_bytes());
    assert!(session.receive(&closing, NOW).unwrap().is_none());
    assert_eq!(
        session.poll(NOW).unwrap_err(),
        TransportError::ServerClosed
    );
}

#[test]
fn malformed_packets_are_refused_for_what_is_wrong_with_them() {
    for (compression, wire, expected) in [
        (false, &[0u8][..], TransportError::NestedTransport),
        (true, &[0xcb, 0x5a, 1, 2], TransportError::RawCompression),
        (true, &[0xcb, 1], TransportError::RawEncoding),
        (true, &[0, 9], TransportError::MarkerMissing),
        (true, &[0, 9, 0x5a, 1], TransportError::Compression),
        (true, &[0, 9, 1], TransportError::Marker),
        (false, &[0, 9, 0], TransportError::SequenceMissing),
        (false, &[0, 9, 0x08, 0], TransportError::IncomingWindow),
        (false, &[0, 0x15, 0], TransportError::CumulativeAck),
        (false, &[0, 0x11, 0], TransportError::OutOfOrderAck),
        (false, &[0, 8, 0], TransportError::StatisticsResponse),
        (false, &[0, 7, 0], TransportError::StatisticsRequest),
        (false, &[0, 13, 0, 0, 0, 0], TransportError::FragmentLength),
        (
            false,
            &[0, 13, 0, 0, 0, 0, 0, 1],
            TransportError::FragmentSize,
        ),
        (false, &[0, 9, 0, 0, 4], TransportError::NestedApplication),
        (false, &[0, 9, 0, 0, 0, 4], TransportError::EscapedOpcode),
        (false, &[0, 3, 255, 0], TransportError::CombinedTruncated),
        (false, &[0, 3, 0], TransportError::CombinedLength),
    ] {
        let mut session = session();
        session.compression = compression;
        assert_eq!(
            session.process(wire, false, 0, NOW).unwrap_err(),
            expected
        );
    }
}

#[test]
fn fragment_assembly_is_neither_interrupted_nor_overrun() {
    for (last, expected) in [
        (
            &[0, 9, 0, 1, 4, 16][..],
            TransportError::FragmentInterrupted,
        ),
        (&[0, 13, 0, 1, 1, 2, 3], TransportError::FragmentOverrun),
    ] {
        let mut session = session();
        session.compression = false;
        session
            .process(&[0, 13, 0, 0, 0, 0, 0, 4, 4, 16], false, 0, NOW)
            .unwrap();
        assert_eq!(
            session.process(last, false, 0, NOW).unwrap_err(),
            expected
        );
    }
}

#[test]
fn a_silent_or_unresponsive_peer_is_given_up() {
    let mut silent = session();
    assert_eq!(
        silent.poll(NOW + 60 * SECOND).unwrap_err(),
        TransportError::Silent
    );

    let mut unanswered = session();
    unanswered.send(0x5072, b"hello", NOW).unwrap();
    for attempt in 1..15 {
        unanswered.last_receive = NOW + attempt * SECOND;
        assert!(unanswered.poll(NOW + attempt * SECOND).unwrap().is_none());
    }
    assert_eq!(
        unanswered.poll(NOW + 15 * SECOND).unwrap_err(),
        TransportError::Unacknowledged
    );

    let mut full = session();
    for _ in 0..2048 {
        full.send(0x5072, b"", NOW).unwrap();
    }
    assert_eq!(
        full.send(0x5072, b"", NOW).unwrap_err(),
        TransportError::OutgoingWindow
    );
}

#[test]
fn statistics_requests_are_answered() {
    let mut session = session();
    session.compression = false;
    let mut body = vec![0x12, 0x34];
    body.extend([0; 20]);
    body.extend(1u64.to_be_bytes());
    body.extend(2u64.to_be_bytes());
    let mut wire = vec![0, 7];
    wire.extend(&body);
    session
        .process(&wire, false, 0, NOW + SECOND)
        .unwrap();
    let sent = session.take_outbox();
    assert_eq!(sent.len(), 1);
    assert_eq!(&sent[0][..4], &[0, 8, 0x12, 0x34]);
    assert_eq!(&sent[0][4..8], &1000u32.to_be_bytes());
    assert_eq!(&sent[0][8..24], &body[22..38]);
}

#[test]
fn out_of_order_frames_are_reported_and_requested_frames_resent() {
    let mut session = session();
    let late = packet(&session, 9, 3, b"\x04\x10late");
    session
        .process(&late[..late.len() - 2], false, 0, NOW)
        .unwrap();
    let reported = session.take_outbox();
    assert_eq!(reported, [session.datagram(0x11, &3u16.to_be_bytes())]);

    session.send(0x5072, b"one", NOW).unwrap();
    session.send(0x5072, b"two", NOW).unwrap();
    let sent = session.take_outbox();
    let seen = session.datagram(0x11, &1u16.to_be_bytes());
    session
        .process(&seen[..seen.len() - 2], false, 0, NOW)
        .unwrap();
    assert_eq!(session.take_outbox(), sent);
}

#[test]
fn unreliable_packets_have_limits_of_their_own() {
    let mut session = session();
    assert_eq!(
        session.send_unreliable(0x1400, &[]).unwrap_err(),
        TransportError::UnreliableOpcode
    );
    session.compression = false;
    assert_eq!(
        session.send_unreliable(0x14cb, &[1; 600]).unwrap_err(),
        TransportError::UnreliableSize
    );
    assert!(session.take_outbox().is_empty());
}

#[test]
fn oversized_applications_are_refused() {
    let mut session = session();
    let body = vec![0; MAX_APPLICATION - 2];
    assert_eq!(
        session.send(0x5072, &body, NOW).unwrap_err(),
        TransportError::ApplicationTooLarge
    );
}

#[test]
fn unacknowledged_frames_are_sent_again_after_a_second() {
    let mut session = session();
    session.send(0x5072, b"hello", NOW).unwrap();
    let first = session.take_outbox();
    assert_eq!(first.len(), 1);
    assert!(session.poll(NOW + SECOND / 2).unwrap().is_none());
    assert!(session.take_outbox().is_empty());
    assert!(session.poll(NOW + SECOND).unwrap().is_none());
    assert_eq!(session.take_outbox(), first);
}

#[test]
fn elapsed_time_since_the_last_datagram_is_in_seconds() {
    let session = session();
    assert_eq!(session.last_received_seconds(NOW), 0);
    assert_eq!(session.last_received_seconds(NOW + 61 * SECOND - 1), 60);
}

#[test]
fn transport_errors_have_their_wording() {
    assert_eq!(TransportError::Cancelled.message(), "shutdown requested");
    assert_eq!(
        TransportError::NegotiationTimeout.message(),
        "UDP session negotiation timed out"
    );
}

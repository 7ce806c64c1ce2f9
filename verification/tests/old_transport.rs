//! The legacy UDP stream, driven without a socket.

use p99_logger_client::old_transport::{decode, Decoded, LegacyError, OldSession};

const SECOND: u64 = 1_000_000_000;

/// A moment well after the clock's origin.
const NOW: u64 = 1_000 * SECOND;

const A_SEQUENCE_START: u8 = 1 << 5;

fn session() -> OldSession {
    OldSession::connect_cancellable(false, NOW).unwrap()
}

#[test]
fn first_application_uses_old_stream_flags_byte_order_and_crc() {
    let mut session = session();
    session.send(0x5900, &[], NOW).unwrap();
    let sent = session.take_outbox();
    assert_eq!(sent.len(), 1);
    let wire = &sent[0];
    assert_eq!(wire.len(), 14);
    assert_eq!(
        &wire[..],
        &[0x32, 0, 0, 0, 0, 0, 0, 0, 0x59, 0, 0xe4, 0xf5, 0xdc, 0x6e]
    );
    let decoded = decode(wire).unwrap();
    assert_eq!(decoded.opcode, Some(0x5900));
    assert_eq!(decoded.arq, Some(0));
}

#[test]
fn fragmented_application_reassembles_after_reordering() {
    let mut sender = session();
    let body: Vec<_> = (0..=u8::MAX).cycle().take(1300).collect();
    sender.send(0x3640, &body, NOW).unwrap();
    let wires = sender.take_outbox();
    assert_eq!(wires.len(), 3);
    assert!(wires.iter().all(|wire| wire.len() <= 1024));

    let mut receiver = session();
    assert_eq!(decode(&wires[0]).unwrap().fragment, Some((0, 0, 3)));
    assert_eq!(decode(&wires[1]).unwrap().fragment, Some((0, 1, 3)));
    assert_eq!(decode(&wires[2]).unwrap().fragment, Some((0, 2, 3)));
    for index in [1, 0, 2] {
        receiver
            .process(decode(&wires[index]).unwrap(), NOW)
            .unwrap();
    }
    let application = receiver.applications.pop_front().unwrap();
    assert_eq!(application.opcode, 0x3640);
    assert_eq!(application.body.len(), body.len());
    assert_eq!(application.body, body);
}

#[test]
fn acknowledgment_removes_every_prior_reliable_packet() {
    let mut session = session();
    session.send(0x5900, &[], NOW).unwrap();
    session.send(0x0100, &[0; 40], NOW).unwrap();
    assert_eq!(session.pending.len(), 2);
    session.acknowledge(1);
    assert!(session.pending.is_empty());
}

#[test]
fn selective_ack_retires_set_bits_and_retries_clear_bits() {
    let mut session = session();
    for opcode in [0x5900, 0x0100, 0x8800] {
        session.send(opcode, &[], NOW).unwrap();
    }
    let third_sent = session.pending[2].sent;
    session
        .process(
            Decoded {
                header_a: 0,
                arsp: Some(0),
                resend_before: None,
                selective_ack: vec![0x80],
                arq: None,
                fragment: None,
                opcode: None,
                body: Vec::new(),
            },
            NOW,
        )
        .unwrap();
    assert_eq!(session.pending.len(), 1);
    assert_eq!(session.pending[0].arq, 2);
    assert!(session.pending[0].sent < third_sent);
}

#[test]
fn server_style_stream_can_start_at_arq_zero_without_sequence_start() {
    let mut sender = session();
    sender.sent_start = true;
    sender.send(0xdd41, b"Welcome\0", NOW).unwrap();
    let sent = sender.take_outbox();
    let wire = &sent[0];
    assert!(wire.len() <= 64);
    assert_eq!(wire[0] & A_SEQUENCE_START, 0);

    let mut receiver = session();
    receiver.process(decode(wire).unwrap(), NOW).unwrap();
    let application = receiver.applications.pop_front().unwrap();
    assert_eq!(application.opcode, 0xdd41);
    assert_eq!(application.body, b"Welcome\0");
}

#[test]
fn packets_arrive_once_and_in_order() {
    let mut sender = session();
    for opcode in [0x5900, 0x0100, 0x8800] {
        sender.send(opcode, &[], NOW).unwrap();
    }
    let wires = sender.take_outbox();
    let mut receiver = session();
    for index in [2, 0, 1, 1, 2] {
        receiver
            .process(decode(&wires[index]).unwrap(), NOW)
            .unwrap();
    }
    let opcodes: Vec<u16> = receiver.applications.iter().map(|a| a.opcode).collect();
    assert_eq!(opcodes, [0x5900, 0x0100, 0x8800]);
}

#[test]
fn applications_in_flight_together_arrive_in_order_whatever_comes_first() {
    let long: Vec<u8> = (0..=u8::MAX).cycle().take(1100).collect();
    let bodies: [&[u8]; 3] = [&long, b"short\0", &long[1..]];
    for server_style in [false, true] {
        let mut sender = session();
        sender.sent_start = server_style;
        for (opcode, body) in (1u16..).zip(bodies) {
            sender.send(opcode, body, NOW).unwrap();
        }
        let wires = sender.take_outbox();
        assert_eq!(wires.len(), 7);
        for order in [[6, 5, 4, 3, 2, 1, 0], [1, 3, 5, 0, 6, 4, 2], [4, 0, 6, 2, 5, 1, 3]] {
            let mut receiver = session();
            for index in order {
                receiver
                    .process(decode(&wires[index]).unwrap(), NOW)
                    .unwrap();
            }
            for index in [1, 3, 6] {
                receiver
                    .process(decode(&wires[index]).unwrap(), NOW)
                    .unwrap();
            }
            assert_eq!(receiver.applications.len(), 3);
            for ((opcode, body), found) in (1u16..).zip(bodies).zip(&receiver.applications) {
                assert_eq!(found.opcode, opcode);
                assert_eq!(found.body, body);
            }
            assert!(receiver.fragments.is_empty() && receiver.reorder.is_empty());
        }
    }
}

#[test]
fn a_changed_byte_is_always_noticed() {
    let mut sender = session();
    sender.send(0x5900, b"payload", NOW).unwrap();
    let wire = sender.take_outbox().remove(0);
    assert!(decode(&wire).is_ok());
    for at in 0..wire.len() {
        for change in 1..=u8::MAX {
            let mut damaged = wire.clone();
            damaged[at] ^= change;
            assert_eq!(decode(&damaged).unwrap_err(), LegacyError::Crc);
        }
    }
}

#[test]
fn acknowledgments_go_out_once_after_a_pause_and_retire_what_they_name() {
    let mut sender = session();
    sender.send(0x5900, &[], NOW).unwrap();
    let wire = sender.take_outbox().remove(0);
    let mut receiver = session();
    assert_eq!(
        receiver.receive(&wire, NOW).unwrap().unwrap().opcode,
        0x5900
    );
    assert!(receiver.poll(NOW + SECOND / 20).unwrap().is_none());
    assert!(receiver.take_outbox().is_empty());
    assert!(receiver.poll(NOW + SECOND / 10).unwrap().is_none());
    let acks = receiver.take_outbox();
    assert_eq!(acks.len(), 1);
    let ack = decode(&acks[0]).unwrap();
    assert_eq!(ack.arsp, Some(0));
    assert_eq!(ack.opcode, None);
    assert!(sender.receive(&acks[0], NOW).unwrap().is_none());
    assert!(sender.pending.is_empty());
}

#[test]
fn unacknowledged_packets_are_sent_again_after_three_seconds() {
    let mut session = session();
    session.send(0x5900, &[], NOW).unwrap();
    let first = session.take_outbox();
    assert!(session.poll(NOW + 3 * SECOND - 1).unwrap().is_none());
    assert!(session.take_outbox().is_empty());
    assert!(session.poll(NOW + 3 * SECOND).unwrap().is_none());
    assert_eq!(session.take_outbox(), first);
}

#[test]
fn a_closed_stream_stays_silent() {
    let mut session = session();
    session.close(NOW);
    let sent = session.take_outbox();
    assert_eq!(sent.len(), 1);
    assert_eq!(sent[0][0], 0x46);
    session.close(NOW);
    assert!(session.take_outbox().is_empty());
    assert_eq!(
        session.send(0x5900, &[], NOW).unwrap_err(),
        LegacyError::SessionClosed
    );

    let mut peer = self::session();
    assert!(peer.receive(&sent[0], NOW).unwrap().is_none());
    assert_eq!(peer.poll(NOW).unwrap_err(), LegacyError::ServerClosed);
}

/// A datagram with its checksum.
fn sealed(mut wire: Vec<u8>) -> Vec<u8> {
    wire.extend(crc32fast::hash(&wire).to_be_bytes());
    wire
}

#[test]
fn malformed_datagrams_are_refused_for_what_is_wrong_with_them() {
    for (wire, expected) in [
        (vec![0; 9], LegacyError::Truncated),
        (vec![0; 10], LegacyError::Crc),
        (sealed(vec![0x0a, 0, 0, 0, 0, 0]), LegacyError::Header),
        (
            sealed(vec![0, 0x50, 0, 0, 0, 0]),
            LegacyError::SelectiveAck,
        ),
        (sealed(vec![0x12, 0, 0, 0, 0, 0, 0]), LegacyError::Asq),
    ] {
        assert_eq!(decode(&wire).err().unwrap(), expected);
    }
}

/// A fragment of an application, outside the reliable order.
fn fragment(group: u16, current: u16, total: u16, opcode: Option<u16>) -> Decoded {
    Decoded {
        header_a: 0x08,
        arsp: None,
        resend_before: None,
        selective_ack: Vec::new(),
        arq: None,
        fragment: Some((group, current, total)),
        opcode,
        body: vec![1],
    }
}

#[test]
fn fragments_have_to_fit_together() {
    let mut receiver = session();
    assert_eq!(
        receiver.process(fragment(0, 2, 2, None), NOW).unwrap_err(),
        LegacyError::FragmentIndexes
    );
    assert_eq!(
        receiver
            .process(fragment(0, 0, 32770, None), NOW)
            .unwrap_err(),
        LegacyError::FragmentTotal
    );
    receiver.process(fragment(0, 0, 2, None), NOW).unwrap();
    assert_eq!(
        receiver.process(fragment(0, 1, 3, None), NOW).unwrap_err(),
        LegacyError::FragmentChanged
    );
    for group in 1..16 {
        receiver.process(fragment(group, 0, 2, None), NOW).unwrap();
    }
    assert_eq!(
        receiver.process(fragment(16, 0, 2, None), NOW).unwrap_err(),
        LegacyError::FragmentGroups
    );
}

#[test]
fn streams_have_limits() {
    assert_eq!(
        OldSession::connect_cancellable(true, NOW).err().unwrap(),
        LegacyError::Cancelled
    );
    let mut silent = session();
    assert_eq!(
        silent.poll(NOW + 60 * SECOND).unwrap_err(),
        LegacyError::Silent
    );
    let mut full = session();
    for _ in 0..2048 {
        full.send(0x5900, &[], NOW).unwrap();
    }
    assert_eq!(
        full.send(0x5900, &[], NOW).unwrap_err(),
        LegacyError::OutgoingWindow
    );
    let mut unanswered = session();
    unanswered.send(0x5900, &[], NOW).unwrap();
    for attempt in 1..10 {
        unanswered.last_receive = NOW + attempt * 3 * SECOND;
        assert!(unanswered
            .poll(NOW + attempt * 3 * SECOND)
            .unwrap()
            .is_none());
    }
    assert_eq!(
        unanswered.poll(NOW + 30 * SECOND).unwrap_err(),
        LegacyError::Unacknowledged
    );
    let mut early = session();
    for arq in 1..=2048 {
        let mut packet = fragment(0, 0, 1, Some(1));
        packet.fragment = None;
        packet.arq = Some(arq);
        early.process(packet, NOW).unwrap();
    }
    let mut packet = fragment(0, 0, 1, Some(1));
    packet.fragment = None;
    packet.arq = Some(2049);
    assert_eq!(
        early.process(packet, NOW).unwrap_err(),
        LegacyError::IncomingWindow
    );
    let mut large = session();
    assert_eq!(
        large
            .send(0x5900, &vec![0; 16 * 1024 * 1024 + 1], NOW)
            .unwrap_err(),
        LegacyError::ApplicationTooLarge
    );
}

#[test]
fn elapsed_time_of_a_stream_is_in_seconds() {
    assert_eq!(session().last_received_seconds(NOW + 5 * SECOND / 2), 2);
    assert_eq!(LegacyError::Crc.message(), "invalid legacy CRC");
}

//! Where the bytes of a datagram stand, on the way out and on the way in.

use super::model::{self, PendingState, SessionState, Wrapped};
use super::TransportError;
use crate::outside;
use vstd::prelude::*;

verus! {

/// The number whose bytes start at `at`, with the high one first.
pub open spec fn number_at(s: Seq<u8>, at: int, size: nat) -> int
    decreases size,
{
    if size == 0 {
        0
    } else {
        256 * number_at(s, at, (size - 1) as nat) + s[at + size - 1]
    }
}

/// A packet under the checksum of a session: the packet stands first, and the low
/// bytes of the checksum of the seed and the packet, as many as were agreed on,
/// stand behind it with the high one first.
pub proof fn law_checksum_follows_the_packet(s: SessionState, packet: Seq<u8>, seed: Seq<u8>)
    requires
        s.crc_bytes <= 4,
        seed.len() == 4,
        s.crc_seed == seed[0] + 0x100 * seed[1] + 0x1_0000 * seed[2] + 0x100_0000 * seed[3],
    ensures
        ({
            let wire = s.sealed(packet);
            let crc = outside::crc32_of(seed + packet);
            &&& wire.len() == packet.len() + s.crc_bytes
            &&& wire.take(packet.len() as int) == packet
            &&& s.crc_bytes >= 1 ==> wire[wire.len() - 1] == crc % 256
            &&& s.crc_bytes >= 2 ==> wire[wire.len() - 2] == crc / 0x100 % 256
            &&& s.crc_bytes >= 3 ==> wire[wire.len() - 3] == crc / 0x1_0000 % 256
            &&& s.crc_bytes == 4 ==> wire[wire.len() - 4] == crc / 0x100_0000
        }),
{
    assert(crate::bytes::le32(s.crc_seed) =~= seed);
    assert(s.sealed(packet).take(packet.len() as int) =~= packet);
}

/// A transport datagram is its opcode with the high byte first, its body and the
/// checksum of both. With compression a marker stands in front of the body: 0x5a
/// where the body is compressed, which it is where that is shorter, and else 0xa5.
pub proof fn law_datagram_layout(s: SessionState, opcode: u16, body: Seq<u8>)
    ensures
        ({
            let head = seq![(opcode / 256) as u8, (opcode % 256) as u8];
            let small = outside::deflated(body, 6);
            &&& !s.compression ==> s.datagram(opcode, body) == s.sealed(head + body)
            &&& s.compression && small.len() < body.len() ==> s.datagram(opcode, body)
                == s.sealed(head.push(0x5a) + small)
            &&& s.compression && small.len() >= body.len() ==> s.datagram(opcode, body)
                == s.sealed(head.push(0xa5) + body)
        }),
{
    let head = seq![(opcode / 256) as u8, (opcode % 256) as u8];
    let small = outside::deflated(body, 6);
    assert(head.push(0x5a) + small =~= head + (seq![0x5au8] + small));
    assert(head.push(0xa5) + body =~= head + (seq![0xa5u8] + body));
}

/// An application packet outside the reliable stream begins with the low byte of
/// its opcode, and the high byte stands in front of its body. With compression
/// both are compressed behind a marker, whatever their length.
pub proof fn law_raw_datagram_layout(s: SessionState, opcode: u16, body: Seq<u8>)
    ensures
        ({
            let low = (opcode % 256) as u8;
            let high = (opcode / 256) as u8;
            let small = outside::deflated(seq![high] + body, 6);
            &&& !s.compression ==> s.raw_datagram(opcode, body) == s.sealed(seq![low, high] + body)
            &&& s.compression ==> s.raw_datagram(opcode, body) == s.sealed(
                seq![low, 0x5a] + small,
            )
        }),
{
    let low = (opcode % 256) as u8;
    let high = (opcode / 256) as u8;
    let small = outside::deflated(seq![high] + body, 6);
    assert(seq![low, high] + body =~= seq![low] + (seq![high] + body));
    assert(seq![low, 0x5a] + small =~= seq![low] + (seq![0x5au8] + small));
}

/// An unsequenced packet is sent as it stands, once and at once, unless its opcode
/// would read as a transport packet or it does not fit in a datagram.
pub proof fn law_unsequenced_packets_are_sent_once(s: SessionState, opcode: u16, body: Seq<u8>)
    ensures
        ({
            let wire = s.raw_datagram(opcode, body);
            let (next, error) = s.sending_unreliable(opcode, body);
            &&& opcode % 256 == 0 <==> error == Some(TransportError::UnreliableOpcode)
            &&& opcode % 256 != 0 && wire.len() > s.max_datagram <==> error == Some(
                TransportError::UnreliableSize,
            )
            &&& error is None ==> next.outbox == s.outbox.push(wire)
            &&& error is None ==> next.sent_count as int == (s.sent_count + 1) % 0x1_0000_0000_0000_0000
            &&& error is None ==> next.pending == s.pending && next.next_send == s.next_send
            &&& error is Some ==> next == s
        }),
{
}

/// A datagram is accepted exactly where its last bytes are the checksum of what
/// stands before them, and what is accepted is just that. A second answer to the
/// negotiation is not.
pub proof fn law_datagrams_are_checked(s: SessionState, wire: Seq<u8>, packet: Seq<u8>)
    requires
        s.crc_bytes <= 4,
    ensures
        s.opened(wire) == Some(packet) <==> wire == s.sealed(packet) && packet.len() >= 2 && !(
        wire[0] == 0 && wire[1] == 2),
        packet.len() < 2 ==> s.opened(s.sealed(packet)) is None,
{
    let end = wire.len() - s.crc_bytes;
    assert(s.crc_suffix(packet).len() == s.crc_bytes);
    if wire == s.sealed(packet) {
        assert(wire.take(end) =~= packet);
        assert(wire.skip(end) =~= s.crc_suffix(packet));
    }
    if s.opened(wire) == Some(packet) {
        assert(wire =~= wire.take(end) + wire.skip(end));
    }
}

/// What a packet holds without compression: all of it where it does not begin with
/// zero, else an opcode with the high byte first and what follows it.
pub proof fn law_plain_packets_are_taken_whole(s: SessionState, packet: Seq<u8>, nested: bool)
    requires
        packet.len() >= 2,
        nested || !s.compression,
    ensures
        packet[0] != 0 ==> s.unwrapped(packet, nested) == Ok::<_, TransportError>(
            Wrapped::Raw(packet),
        ),
        packet[0] == 0 ==> s.unwrapped(packet, nested) == Ok::<_, TransportError>(
            Wrapped::Control(packet[1] as u16, packet.skip(2)),
        ),
{
}

/// What a packet holds with compression: the marker behind the opcode, or behind
/// the first byte of an application packet, says how to read the rest.
pub proof fn law_markers_say_how_to_read(
    s: SessionState,
    opcode: u8,
    first: u8,
    marker: u8,
    rest: Seq<u8>,
)
    requires
        s.compression,
        first != 0,
    ensures
        ({
            let control = s.unwrapped(seq![0u8, opcode, marker] + rest, false);
            let raw = s.unwrapped(seq![first, marker] + rest, false);
            let large = outside::inflated(rest, 16_777_216);
            &&& s.unwrapped(seq![0u8, opcode], false) == Err::<Wrapped, _>(
                TransportError::MarkerMissing,
            )
            &&& marker == 0xa5 ==> control == Ok::<_, TransportError>(
                Wrapped::Control(opcode as u16, rest),
            )
            &&& marker == 0xa5 ==> raw == Ok::<_, TransportError>(Wrapped::Raw(seq![first] + rest))
            &&& marker == 0x5a && large is Some ==> control == Ok::<_, TransportError>(
                Wrapped::Control(opcode as u16, large->0),
            )
            &&& marker == 0x5a && large is Some ==> raw == Ok::<_, TransportError>(
                Wrapped::Raw(seq![first] + large->0),
            )
            &&& marker == 0x5a && large is None ==> control == Err::<Wrapped, _>(
                TransportError::Compression,
            )
            &&& marker == 0x5a && large is None ==> raw == Err::<Wrapped, _>(
                TransportError::RawCompression,
            )
            &&& marker != 0x5a && marker != 0xa5 ==> control == Err::<Wrapped, _>(
                TransportError::Marker,
            )
            &&& marker != 0x5a && marker != 0xa5 ==> raw == Err::<Wrapped, _>(
                TransportError::RawEncoding,
            )
        }),
{
    let control = seq![0u8, opcode, marker] + rest;
    let raw = seq![first, marker] + rest;
    assert(control.skip(2).skip(1) =~= rest);
    assert(raw.skip(2) =~= rest);
}

/// How many bytes of an application stand in the frames before number `i`, where
/// the first frame has room for four less than the others.
pub open spec fn frame_start(capacity: nat, i: int) -> int {
    if i == 0 {
        0
    } else {
        capacity * i - 4
    }
}

proof fn lemma_chunks(data: Seq<u8>, size: nat, i: int)
    requires
        size > 0,
    ensures
        ({
            let parts = model::chunks(data, size);
            &&& size * (parts.len() - 1) < data.len() || data.len() == 0
            &&& data.len() <= size * parts.len()
            &&& data.len() == 0 ==> parts.len() == 0
            &&& 0 <= i < parts.len() ==> 0 <= size * i <= data.len() && parts[i] == data.subrange(
                size * i,
                if i == parts.len() - 1 {
                    data.len() as int
                } else {
                    size * i + size
                },
            ) && (i < parts.len() - 1 ==> size * i + size <= data.len())
        }),
    decreases data.len(),
{
    let parts = model::chunks(data, size);
    if data.len() == 0 {
    } else if data.len() <= size {
        assert(data.subrange(0, data.len() as int) =~= data);
        assert(size * 0 == 0) by (nonlinear_arith);
        assert(size * 1 == size) by (nonlinear_arith);
    } else {
        let rest = model::chunks(data.skip(size as int), size);
        lemma_chunks(data.skip(size as int), size, i - 1);
        assert(parts.len() == rest.len() + 1);
        assert(size * (parts.len() - 1) == size * (rest.len() - 1) + size && size * parts.len()
            == size * rest.len() + size) by (nonlinear_arith)
            requires
                parts.len() == rest.len() + 1,
        ;
        assert(size * i == size * (i - 1) + size) by (nonlinear_arith);
        assert(size * 0 == 0) by (nonlinear_arith);
        if i == 0 {
            assert(parts[0] =~= data.subrange(0, size as int));
        } else if 0 < i < parts.len() {
            assert(parts[i] == rest[i - 1]);
            assert(rest[i - 1] =~= data.subrange(
                size * i,
                if i == parts.len() - 1 {
                    data.len() as int
                } else {
                    size * i + size
                },
            ));
        }
    }
}

/// An application that fits goes out in one frame. A longer one goes out in
/// fragments without a gap: the first tells the length of the whole with the high
/// byte first, each but the last is full, and no fragment is empty.
pub proof fn law_frames_cut_the_application(application: Seq<u8>, capacity: nat, i: int)
    requires
        capacity > 4,
        application.len() <= u32::MAX,
        0 <= i < model::frames(application, capacity).len(),
    ensures
        ({
            let frames = model::frames(application, capacity);
            let n = frames.len() as int;
            let (opcode, body) = frames[i];
            let start = frame_start(capacity, i);
            let end = if i == n - 1 {
                application.len() as int
            } else {
                frame_start(capacity, i + 1)
            };
            &&& application.len() <= capacity ==> n == 1 && (opcode, body) == (9u16, application)
            &&& application.len() > capacity ==> {
                &&& n > 1
                &&& opcode == 13
                &&& 0 <= start < end <= application.len()
                &&& i == 0 ==> body.len() >= 4 && number_at(body, 0, 4) == application.len()
                    && body.skip(4) == application.subrange(start, end)
                &&& i > 0 ==> body == application.subrange(start, end)
                &&& body.len() <= capacity
            }
        }),
{
    let frames = model::frames(application, capacity);
    if application.len() > capacity {
        let rest = application.skip(capacity as int - 4);
        let parts = model::chunks(rest, capacity);
        lemma_chunks(rest, capacity, i - 1);
        assert(frames.len() == parts.len() + 1);
        assert(capacity * 0 == 0 && capacity * 1 == capacity) by (nonlinear_arith);
        assert(capacity * (i - 1) == capacity * i - capacity && capacity * (i + 1) == capacity * i
            + capacity) by (nonlinear_arith);
        if i == 0 {
            let body = frames[0].1;
            reveal_with_fuel(number_at, 5);
            assert(body.skip(4) =~= application.subrange(0, capacity - 4));
        } else {
            assert(frames[i].1 == parts[i - 1]);
            let end = if i == frames.len() - 1 {
                application.len() as int
            } else {
                frame_start(capacity, i + 1)
            };
            assert(parts[i - 1] =~= application.subrange(frame_start(capacity, i), end));
            assert(capacity * (parts.len() - 1) < rest.len());
            if i == frames.len() - 1 {
                assert(i - 1 == parts.len() - 1);
            }
        }
    }
}

/// A frame goes out under the next number, which stands in front of it with the
/// high byte first, and is kept until it is acknowledged. A window that is full
/// takes none.
pub proof fn law_frames_are_numbered_and_kept(
    s: SessionState,
    opcode: u16,
    body: Seq<u8>,
    now: u64,
)
    ensures
        ({
            let (next, error) = s.reliable(opcode, body, now);
            let head = seq![(s.next_send / 256) as u8, (s.next_send % 256) as u8];
            let wire = s.datagram(opcode, head + body);
            &&& s.pending.len() >= 2048 ==> next == s && error == Some(
                TransportError::OutgoingWindow,
            )
            &&& s.pending.len() < 2048 ==> {
                &&& error is None
                &&& next.outbox == s.outbox.push(wire)
                &&& next.sent_count as int == (s.sent_count + 1) % 0x1_0000_0000_0000_0000
                &&& next.next_send as int == (s.next_send + 1) % 65536
                &&& next.pending == s.pending.push(
                    (PendingState { sequence: s.next_send, packet: wire, sent: now, attempts: 1 }),
                )
            }
        }),
{
}

/// The frames of an application are numbered one after another.
pub proof fn law_frames_go_out_in_turn(
    states: Seq<SessionState>,
    frames: Seq<(u16, Seq<u8>)>,
    now: u64,
)
    requires
        states.len() == frames.len() + 1,
        forall|k: int|
            0 <= k < frames.len() ==> states[k].reliable(
                (#[trigger] frames[k]).0,
                frames[k].1,
                now,
            ) == (states[k + 1], None::<TransportError>),
    ensures
        states[0].reliable_all(frames, now) == (states.last(), None::<TransportError>),
    decreases frames.len(),
{
    if frames.len() > 0 {
        let rest = frames.skip(1);
        let later = states.skip(1);
        assert(states[0].reliable(frames[0].0, frames[0].1, now) == (
            states[1],
            None::<TransportError>,
        ));
        assert forall|k: int| 0 <= k < rest.len() implies later[k].reliable(
            (#[trigger] rest[k]).0,
            rest[k].1,
            now,
        ) == (later[k + 1], None::<TransportError>) by {
            assert(rest[k] == frames[k + 1]);
        }
        law_frames_go_out_in_turn(later, rest, now);
    }
}

/// What a session can send: an application of up to sixteen mebibytes with its opcode, as
/// long as the session is open, in the frames that a datagram has room for.
pub proof fn law_what_can_be_sent(s: SessionState, opcode: u16, body: Seq<u8>, now: u64)
    requires
        s.wf(),
    ensures
        s.closed ==> s.sending(opcode, body, now) == (s, Some(TransportError::SessionClosed)),
        !s.closed && body.len() > 16_777_213 ==> s.sending(opcode, body, now) == (
            s,
            Some(TransportError::ApplicationTooLarge),
        ),
        !s.closed && body.len() <= 16_777_213 ==> s.sending(opcode, body, now) == s.reliable_all(
            model::frames(
                model::application_bytes(opcode, body),
                (s.max_datagram - 4 - s.crc_bytes - if s.compression {
                    1int
                } else {
                    0
                }) as nat,
            ),
            now,
        ),
{
}

/// The request to negotiate: opcode 1, version 2, the id and the largest datagram,
/// each number with the high byte first.
pub proof fn law_request_layout(id: u32)
    ensures
        ({
            let wire = model::request(id);
            &&& wire.len() == 14
            &&& number_at(wire, 0, 2) == 1
            &&& number_at(wire, 2, 4) == 2
            &&& number_at(wire, 6, 4) == id
            &&& number_at(wire, 10, 4) == 512
        }),
{
    reveal_with_fuel(number_at, 5);
}

/// A datagram answers the negotiation where it has opcode 2, all of the fields, and
/// the id of the request.
pub proof fn law_answers_name_the_session(wire: Seq<u8>, id: u32)
    ensures
        model::answers(wire, id) <==> wire.len() >= 17 && number_at(wire, 0, 2) == 2 && number_at(
            wire,
            2,
            4,
        ) == id,
{
    reveal_with_fuel(number_at, 5);
}

/// An answer sets the parameters of the session, and a session starts with nothing
/// sent, received or held. What is asked for and cannot be done is refused.
pub proof fn law_answers_set_the_parameters(id: u32, wire: Seq<u8>, echo: bool, now: u64)
    requires
        wire.len() >= 17,
    ensures
        ({
            let size = number_at(wire, 13, 4);
            let r = model::negotiated(id, wire, echo, now);
            &&& wire[10] > 4 <==> r == Err::<SessionState, _>(TransportError::CrcSize)
            &&& wire[10] <= 4 && (wire[11] > 1 || wire[12] != 0) <==> r == Err::<SessionState, _>(
                TransportError::Encoding,
            )
            &&& wire[10] <= 4 && wire[11] <= 1 && wire[12] == 0 && !(64 <= size <= 65507) <==> r
                == Err::<SessionState, _>(TransportError::DatagramSize)
            &&& r matches Ok(s) ==> {
                &&& s.id == id
                &&& s.crc_seed == number_at(wire, 6, 4)
                &&& s.crc_bytes == wire[10]
                &&& s.compression == (wire[11] == 1)
                &&& s.max_datagram == size
                &&& s.next_send == 0 && s.next_receive == 0
                &&& s.pending.len() == 0 && s.applications.len() == 0 && s.fragment is None
                &&& forall|key: u16| !s.reorder.contains_key(key)
                &&& !s.closed && !s.ack_pending && s.stats_request is None
                &&& s.last_ack == now && s.last_receive == now && s.started == now
                &&& now + 10_000_000_000 <= u64::MAX ==> s.next_stats == now + 10_000_000_000
                &&& s.rtt == 0 && s.rtt_min == 0 && s.rtt_max == 0 && s.rtt_sum == 0 && s.rtt_count
                    == 0
                &&& s.received_count == 1
                &&& echo ==> s.outbox == seq![wire] && s.sent_count == 2
                &&& !echo ==> s.outbox.len() == 0 && s.sent_count == 1
            }
        }),
{
    reveal_with_fuel(number_at, 5);
}

/// A report of our statistics holds a token, the round-trip times and the counts of
/// datagrams, each with the high byte first.
pub proof fn law_statistics_layout(s: SessionState, token: u16)
    ensures
        ({
            let body = s.statistics(token);
            let average = number_at(body, 6, 4);
            &&& body.len() == 38
            &&& number_at(body, 0, 2) == token
            &&& number_at(body, 2, 4) == s.rtt
            &&& s.rtt_count == 0 ==> average == 0
            &&& s.rtt_count > 0 && s.rtt_sum <= u32::MAX * s.rtt_count ==> average * s.rtt_count
                <= s.rtt_sum < (average + 1) * s.rtt_count
            &&& s.rtt_count > 0 && s.rtt_sum > u32::MAX * s.rtt_count ==> average == u32::MAX
            &&& number_at(body, 10, 4) == s.rtt_min
            &&& number_at(body, 14, 4) == s.rtt_max
            &&& number_at(body, 18, 4) == s.rtt
            &&& number_at(body, 22, 8) == s.sent_count
            &&& number_at(body, 30, 8) == s.received_count
        }),
{
    lemma_statistics_bytes(s, token);
    if s.rtt_count > 0 {
        lemma_average(s);
    }
}

proof fn lemma_average(s: SessionState)
    requires
        s.rtt_count > 0,
    ensures
        s.rtt_sum <= u32::MAX * s.rtt_count ==> s.rtt_average() * s.rtt_count <= s.rtt_sum < (
        s.rtt_average() + 1) * s.rtt_count,
        s.rtt_sum > u32::MAX * s.rtt_count ==> s.rtt_average() == u32::MAX,
{
    let sum = s.rtt_sum as int;
    let count = s.rtt_count as int;
    let q = sum / count;
    assert(q * count <= sum < (q + 1) * count) by (nonlinear_arith)
        requires
            count > 0,
            q == sum / count,
    ;
    if sum <= u32::MAX * count {
        assert(q <= u32::MAX) by (nonlinear_arith)
            requires
                q * count <= sum <= 0xffff_ffff * count,
                count > 0,
        ;
    } else {
        assert(q >= u32::MAX) by (nonlinear_arith)
            requires
                0xffff_ffff * count < sum < (q + 1) * count,
                count > 0,
        ;
    }
}

proof fn lemma_statistics_bytes(s: SessionState, token: u16)
    ensures
        ({
            let body = s.statistics(token);
            &&& body.len() == 38
            &&& number_at(body, 0, 2) == token
            &&& number_at(body, 2, 4) == s.rtt
            &&& number_at(body, 6, 4) == s.rtt_average()
            &&& number_at(body, 10, 4) == s.rtt_min
            &&& number_at(body, 14, 4) == s.rtt_max
            &&& number_at(body, 18, 4) == s.rtt
            &&& number_at(body, 22, 8) == s.sent_count
            &&& number_at(body, 30, 8) == s.received_count
        }),
{
    let body = s.statistics(token);
    let average = s.rtt_average();
    lemma_halves_joined(body, 0, token);
    lemma_word_joined(body, 2, s.rtt);
    lemma_word_joined(body, 6, average);
    lemma_word_joined(body, 10, s.rtt_min);
    lemma_word_joined(body, 14, s.rtt_max);
    lemma_word_joined(body, 18, s.rtt);
    lemma_long_joined(body, 22, s.sent_count);
    lemma_long_joined(body, 30, s.received_count);
}

proof fn lemma_halves_joined(s: Seq<u8>, at: int, v: u16)
    ensures
        0 <= at && at + 2 <= s.len() && s[at] == v / 256 && s[at + 1] == v % 256 ==> number_at(
            s,
            at,
            2,
        ) == v,
{
    reveal_with_fuel(number_at, 3);
}

proof fn lemma_word_joined(s: Seq<u8>, at: int, v: u32)
    ensures
        s[at] == v / 0x100_0000 && s[at + 1] == v / 0x1_0000 % 256 && s[at + 2] == v / 256 % 256
            && s[at + 3] == v % 256 ==> number_at(s, at, 4) == v,
{
    reveal_with_fuel(number_at, 5);
}

proof fn lemma_long_joined(s: Seq<u8>, at: int, v: u64)
    ensures
        ({
            let high = (v / 0x1_0000_0000) as u32;
            let low = (v % 0x1_0000_0000) as u32;
            s[at] == high / 0x100_0000 && s[at + 1] == high / 0x1_0000 % 256 && s[at + 2] == high
                / 256 % 256 && s[at + 3] == high % 256 && s[at + 4] == low / 0x100_0000 && s[at + 5]
                == low / 0x1_0000 % 256 && s[at + 6] == low / 256 % 256 && s[at + 7] == low % 256
                ==> number_at(s, at, 8) == v
        }),
{
    let high = (v / 0x1_0000_0000) as u32;
    let low = (v % 0x1_0000_0000) as u32;
    lemma_word_joined(s, at, high);
    let four = number_at(s, at, 4);
    assert(number_at(s, at, 5) == 256 * four + s[at + 4]);
    assert(number_at(s, at, 6) == 256 * number_at(s, at, 5) + s[at + 5]);
    assert(number_at(s, at, 7) == 256 * number_at(s, at, 6) + s[at + 6]);
    assert(number_at(s, at, 8) == 256 * number_at(s, at, 7) + s[at + 7]);
}

/// Our reply to a request for statistics begins with the token of the request and
/// our time in milliseconds, gives back what the server counted, and ends with what
/// we counted.
pub proof fn law_statistics_reply_layout(s: SessionState, request: Seq<u8>, now: u64)
    requires
        request.len() == 38,
        s.started <= now,
    ensures
        ({
            let body = s.statistics_reply(request, now);
            let millis = (now - s.started) / 1_000_000;
            &&& body.len() == 38
            &&& body.take(2) == request.take(2)
            &&& number_at(body, 2, 4) == if millis <= u32::MAX {
                millis
            } else {
                u32::MAX as int
            }
            &&& body.subrange(6, 22) == request.subrange(22, 38)
            &&& number_at(body, 22, 8) == s.sent_count
            &&& number_at(body, 30, 8) == s.received_count
        }),
{
    let body = s.statistics_reply(request, now);
    lemma_word_joined(body, 2, model::millis32(model::elapsed(now, s.started)));
    lemma_long_joined(body, 22, s.sent_count);
    lemma_long_joined(body, 30, s.received_count);
    assert(body.take(2) =~= request.take(2));
    assert(body.subrange(6, 22) =~= request.subrange(22, 38));
}

/// Frames go out up to the first that the window has no room for.
pub proof fn law_frames_go_out_while_there_is_room(
    states: Seq<SessionState>,
    frames: Seq<(u16, Seq<u8>)>,
    rest: Seq<(u16, Seq<u8>)>,
    now: u64,
)
    requires
        states.len() == frames.len() + 1,
        forall|k: int|
            0 <= k < frames.len() ==> states[k].reliable(
                (#[trigger] frames[k]).0,
                frames[k].1,
                now,
            ) == (states[k + 1], None::<TransportError>),
        rest.len() > 0,
        states.last().pending.len() >= 2048,
    ensures
        states[0].reliable_all(frames + rest, now) == (
            states.last(),
            Some(TransportError::OutgoingWindow),
        ),
    decreases frames.len(),
{
    if frames.len() == 0 {
        assert(frames + rest =~= rest);
    } else {
        let later = states.skip(1);
        let others = frames.skip(1);
        assert(states[0].reliable(frames[0].0, frames[0].1, now) == (
            states[1],
            None::<TransportError>,
        ));
        assert forall|k: int| 0 <= k < others.len() implies later[k].reliable(
            (#[trigger] others[k]).0,
            others[k].1,
            now,
        ) == (later[k + 1], None::<TransportError>) by {
            assert(others[k] == frames[k + 1]);
        }
        law_frames_go_out_while_there_is_room(later, others, rest, now);
        assert((frames + rest).skip(1) =~= others + rest);
        assert((frames + rest)[0] == frames[0]);
    }
}

} // verus!

//! Mathematical model of one reliable UDP session.
//!
//! `SessionState` is what a `Session` means. Every operation of a session is a
//! function from a state to the next one, and the datagrams due on the wire are
//! part of the state, so what is sent is described as exactly as what is kept.

use super::{Application, Pending, TransportError, MAX_APPLICATION, WINDOW};
use crate::bytes;
use crate::outside;
use vstd::prelude::*;

verus! {

/// An application packet.
#[verifier::ext_equal]
pub struct App {
    pub opcode: u16,
    pub body: Seq<u8>,
}

/// A reliable datagram that the server has not acknowledged yet.
#[verifier::ext_equal]
pub struct PendingState {
    pub sequence: u16,
    pub packet: Seq<u8>,
    pub sent: u64,
    pub attempts: u8,
}

/// The meaning of a `Session`.
#[verifier::ext_equal]
pub struct SessionState {
    pub id: u32,
    pub crc_seed: u32,
    pub crc_bytes: usize,
    pub compression: bool,
    pub max_datagram: usize,
    pub next_send: u16,
    pub next_receive: u16,
    pub ack_pending: bool,
    pub last_ack: u64,
    pub reorder: Map<u16, (u16, Seq<u8>)>,
    pub pending: Seq<PendingState>,
    pub fragment: Option<(usize, Seq<u8>)>,
    pub applications: Seq<App>,
    pub last_receive: u64,
    pub started: u64,
    pub next_stats: u64,
    pub stats_request: Option<(u16, u64)>,
    pub rtt: u32,
    pub rtt_min: u32,
    pub rtt_max: u32,
    pub rtt_sum: u64,
    pub rtt_count: u64,
    pub sent_count: u64,
    pub received_count: u64,
    pub closed: bool,
    pub outbox: Seq<Seq<u8>>,
}

/// What a datagram holds once its encoding is removed.
#[verifier::ext_equal]
pub enum Wrapped {
    /// An application packet outside the reliable stream.
    Raw(Seq<u8>),
    /// A transport packet with its opcode.
    Control(u16, Seq<u8>),
}

pub open spec fn app(a: Application) -> App {
    App { opcode: a.opcode, body: a.body@ }
}

pub open spec fn apps(s: Seq<Application>) -> Seq<App> {
    s.map_values(|a: Application| app(a))
}

pub open spec fn pending_state(p: Pending) -> PendingState {
    PendingState { sequence: p.sequence, packet: p.packet@, sent: p.sent, attempts: p.attempts }
}

pub open spec fn pending_states(s: Seq<Pending>) -> Seq<PendingState> {
    s.map_values(|p: Pending| pending_state(p))
}

pub open spec fn datagrams(s: Seq<Vec<u8>>) -> Seq<Seq<u8>> {
    s.map_values(|d: Vec<u8>| d@)
}

pub open spec fn held(m: Map<u16, (u16, Vec<u8>)>) -> Map<u16, (u16, Seq<u8>)> {
    m.map_values(|e: (u16, Vec<u8>)| (e.0, e.1@))
}

pub open spec fn slices(s: Seq<&[u8]>) -> Seq<Seq<u8>> {
    s.map_values(|p: &[u8]| p@)
}

/// The sequence number `n` after `first`.
#[verifier::opaque]
pub open spec fn counted(first: u16, n: nat) -> u16 {
    ((first + n) % 65536) as u16
}

/// The error of an outcome, if it is one.
pub open spec fn failure<T, E>(r: Result<T, E>) -> Option<E> {
    match r {
        Ok(_) => None,
        Err(e) => Some(e),
    }
}

/// An outcome that may carry an application packet.
pub open spec fn outcome<E>(r: Result<Option<Application>, E>) -> Result<Option<App>, E> {
    match r {
        Ok(Some(a)) => Ok(Some(app(a))),
        Ok(None) => Ok(None),
        Err(e) => Err(e),
    }
}

/// Nanoseconds from `then` to `now`, none where the clock went back.
pub open spec fn elapsed(now: u64, then: u64) -> u64 {
    if now >= then {
        (now - then) as u64
    } else {
        0
    }
}

/// `now + delay`, or the end of time.
pub open spec fn after(now: u64, delay: u64) -> u64 {
    if now + delay <= u64::MAX {
        (now + delay) as u64
    } else {
        u64::MAX
    }
}

/// Whole milliseconds, as far as 32 bits hold them.
pub open spec fn millis32(nanos: u64) -> u32 {
    if nanos / 1_000_000 <= u32::MAX {
        (nanos / 1_000_000) as u32
    } else {
        u32::MAX
    }
}

/// The checksum of a datagram under the seed of its session.
pub open spec fn seeded_crc(seed: u32, packet: Seq<u8>) -> u32 {
    outside::crc32_of(bytes::le32(seed) + packet)
}

/// How many more levels of nesting are accepted below `depth`.
pub open spec fn levels(depth: nat) -> nat {
    if depth < 8 {
        (8 - depth) as nat
    } else {
        0
    }
}

/// The parts of a combined packet. Each is preceded by its length, in one byte
/// or, after a byte of 255, in two.
pub open spec fn split(packet: Seq<u8>) -> Result<Seq<Seq<u8>>, TransportError>
    decreases packet.len(),
{
    if packet.len() == 0 {
        Ok(Seq::empty())
    } else if packet[0] == 255 && packet.len() < 3 {
        Err(TransportError::CombinedTruncated)
    } else {
        let start: int = if packet[0] == 255 {
            3
        } else {
            1
        };
        let length: int = if packet[0] == 255 {
            bytes::be16_at(packet, 1) as int
        } else {
            packet[0] as int
        };
        if length == 0 || start + length > packet.len() {
            Err(TransportError::CombinedLength)
        } else {
            match split(packet.skip(start + length)) {
                Ok(rest) => Ok(seq![packet.subrange(start, start + length)] + rest),
                Err(e) => Err(e),
            }
        }
    }
}

/// The application packets in `packet`, and the error that stops the unpacking.
///
/// A packet that starts with `00 19` holds combined packets. A leading zero
/// otherwise escapes an opcode whose low byte is zero.
pub open spec fn unpack(packet: Seq<u8>, depth: nat) -> (Seq<App>, Option<TransportError>)
    decreases levels(depth), 0nat,
{
    if depth >= 8 || packet.len() < 2 {
        (Seq::empty(), Some(TransportError::NestedApplication))
    } else if packet[0] == 0 && packet[1] == 0x19 {
        match split(packet.skip(2)) {
            Ok(parts) => unpack_all(parts, depth + 1),
            Err(e) => (Seq::empty(), Some(e)),
        }
    } else {
        let plain = if packet[0] == 0 {
            packet.skip(1)
        } else {
            packet
        };
        if plain.len() < 2 {
            (Seq::empty(), Some(TransportError::EscapedOpcode))
        } else {
            (seq![App { opcode: bytes::le16_at(plain, 0), body: plain.skip(2) }], None)
        }
    }
}

/// The application packets of several parts in turn, up to the first error.
pub open spec fn unpack_all(parts: Seq<Seq<u8>>, depth: nat) -> (Seq<App>, Option<TransportError>)
    decreases levels(depth), parts.len() + 1,
{
    if parts.len() == 0 {
        (Seq::empty(), None)
    } else {
        let head = unpack(parts[0], depth);
        if head.1 is Some {
            head
        } else {
            let rest = unpack_all(parts.skip(1), depth);
            (head.0 + rest.0, rest.1)
        }
    }
}

/// The unacknowledged datagrams after the first one numbered `ack`.
pub open spec fn after_ack(pending: Seq<PendingState>, ack: u16) -> Seq<PendingState>
    decreases pending.len(),
{
    if pending.len() == 0 {
        pending
    } else if pending[0].sequence == ack {
        pending.skip(1)
    } else {
        after_ack(pending.skip(1), ack)
    }
}

/// The application bytes of a packet: its opcode in little-endian order, after a
/// zero where its low byte is zero, and its body.
pub open spec fn application_bytes(opcode: u16, body: Seq<u8>) -> Seq<u8> {
    if opcode % 256 == 0 {
        seq![0u8] + bytes::le16(opcode) + body
    } else {
        bytes::le16(opcode) + body
    }
}

/// Consecutive pieces of at most `size` bytes.
pub open spec fn chunks(data: Seq<u8>, size: nat) -> Seq<Seq<u8>>
    decreases data.len(),
{
    if size == 0 || data.len() == 0 {
        Seq::empty()
    } else if data.len() <= size {
        seq![data]
    } else {
        seq![data.take(size as int)] + chunks(data.skip(size as int), size)
    }
}

/// The reliable frames that carry an application: one, or a fragment with the
/// total length followed by further fragments.
pub open spec fn frames(application: Seq<u8>, capacity: nat) -> Seq<(u16, Seq<u8>)> {
    if application.len() <= capacity {
        seq![(9u16, application)]
    } else {
        seq![
            (
                13u16,
                bytes::be32(application.len() as u32) + application.take(capacity as int - 4),
            ),
        ] + chunks(application.skip(capacity as int - 4), capacity).map_values(
            |part: Seq<u8>| (13u16, part),
        )
    }
}

impl SessionState {
    /// What holds of every session.
    pub open spec fn wf(self) -> bool {
        &&& self.crc_bytes <= 4
        &&& 64 <= self.max_datagram <= 65507
        &&& self.pending.len() <= WINDOW
        &&& self.numbered()
        &&& self.reorder.dom().finite()
        &&& self.ahead()
        &&& self.fragment matches Some((size, data)) ==> 2 <= size <= MAX_APPLICATION && data.len()
            < size
    }

    /// Unacknowledged frames carry the consecutive numbers up to the next one.
    pub open spec fn numbered(self) -> bool {
        forall|i: int|
            0 <= i < self.pending.len() ==> #[trigger] self.pending[i].sequence
                == self.next_send.wrapping_sub((self.pending.len() - i) as u16)
    }

    /// Held frames lie less than a window ahead of the next expected one.
    pub open spec fn ahead(self) -> bool {
        forall|key: u16| #[trigger]
            self.reorder.contains_key(key) ==> key.wrapping_sub(self.next_receive) < WINDOW
    }

    /// A datagram handed to the wire.
    pub open spec fn emit(self, wire: Seq<u8>) -> Self {
        SessionState {
            outbox: self.outbox.push(wire),
            sent_count: self.sent_count.wrapping_add(1),
            ..self
        }
    }

    /// A body under the negotiated encoding: compressed where that is shorter.
    pub open spec fn encoded(self, body: Seq<u8>) -> Seq<u8> {
        if !self.compression {
            body
        } else if outside::deflated(body, 6).len() < body.len() {
            seq![0x5au8] + outside::deflated(body, 6)
        } else {
            seq![0xa5u8] + body
        }
    }

    /// The low-order bytes of the checksum that the session asked for.
    pub open spec fn crc_suffix(self, packet: Seq<u8>) -> Seq<u8> {
        bytes::be32(seeded_crc(self.crc_seed, packet)).skip(4 - self.crc_bytes)
    }

    pub open spec fn sealed(self, packet: Seq<u8>) -> Seq<u8> {
        packet + self.crc_suffix(packet)
    }

    /// A transport datagram.
    pub open spec fn datagram(self, opcode: u16, body: Seq<u8>) -> Seq<u8> {
        self.sealed(bytes::be16(opcode) + self.encoded(body))
    }

    pub open spec fn control(self, opcode: u16, body: Seq<u8>) -> Self {
        self.emit(self.datagram(opcode, body))
    }

    /// Bytes of application data that one reliable datagram carries.
    pub open spec fn capacity(self) -> nat {
        (self.max_datagram - 4 - self.crc_bytes - (if self.compression {
            1int
        } else {
            0
        })) as nat
    }

    /// The packet of a datagram whose checksum is right.
    pub open spec fn opened(self, wire: Seq<u8>) -> Option<Seq<u8>> {
        let end = wire.len() - self.crc_bytes;
        if wire.len() < 2 + self.crc_bytes || (wire[0] == 0 && wire[1] == 2) {
            None
        } else if wire.skip(end) != self.crc_suffix(wire.take(end)) {
            None
        } else {
            Some(wire.take(end))
        }
    }

    /// A packet with its compression removed. Packets inside a combined packet
    /// have none of their own.
    pub open spec fn unwrapped(self, packet: Seq<u8>, nested: bool) -> Result<
        Wrapped,
        TransportError,
    > {
        if packet[0] != 0 {
            if nested || !self.compression {
                Ok(Wrapped::Raw(packet))
            } else if packet[1] == 0xa5 {
                Ok(Wrapped::Raw(seq![packet[0]] + packet.skip(2)))
            } else if packet[1] == 0x5a {
                match outside::inflated(packet.skip(2), MAX_APPLICATION) {
                    Some(data) => Ok(Wrapped::Raw(seq![packet[0]] + data)),
                    None => Err(TransportError::RawCompression),
                }
            } else {
                Err(TransportError::RawEncoding)
            }
        } else {
            let opcode = bytes::be16_at(packet, 0);
            let body = packet.skip(2);
            if nested || !self.compression {
                Ok(Wrapped::Control(opcode, body))
            } else if body.len() == 0 {
                Err(TransportError::MarkerMissing)
            } else if body[0] == 0xa5 {
                Ok(Wrapped::Control(opcode, body.skip(1)))
            } else if body[0] == 0x5a {
                match outside::inflated(body.skip(1), MAX_APPLICATION) {
                    Some(data) => Ok(Wrapped::Control(opcode, data)),
                    None => Err(TransportError::Compression),
                }
            } else {
                Err(TransportError::Marker)
            }
        }
    }

    /// Whether a datagram, taken by a session of the same parameters, is a
    /// transport packet with this opcode and body.
    #[verifier::opaque]
    pub open spec fn carries(self, wire: Seq<u8>, opcode: u16, body: Seq<u8>) -> bool {
        &&& self.opened(wire) is Some
        &&& self.unwrapped(self.opened(wire)->0, false) == Ok::<_, TransportError>(
            Wrapped::Control(opcode, body),
        )
    }

    /// Whether a datagram, taken by a session of the same parameters, is this
    /// application packet, outside the reliable stream.
    pub open spec fn carries_raw(self, wire: Seq<u8>, application: Seq<u8>) -> bool {
        &&& self.opened(wire) is Some
        &&& self.unwrapped(self.opened(wire)->0, false) == Ok::<_, TransportError>(
            Wrapped::Raw(application),
        )
    }

    /// Whether datagrams carry these frames under consecutive numbers.
    pub open spec fn carried(self, wires: Seq<Seq<u8>>, frames: Seq<(u16, Seq<u8>)>) -> bool {
        &&& wires.len() == frames.len()
        &&& forall|i: int|
            0 <= i < frames.len() ==> self.carries(
                #[trigger] wires[i],
                frames[i].0,
                bytes::be16(counted(self.next_send, i as nat)) + frames[i].1,
            )
    }

    /// Queue unpacked application packets.
    pub open spec fn delivered(self, unpacked: (Seq<App>, Option<TransportError>)) -> (
        Self,
        Option<TransportError>,
    ) {
        (SessionState { applications: self.applications + unpacked.0, ..self }, unpacked.1)
    }

    /// One frame of the reliable stream, taken in order.
    pub open spec fn ordered(self, opcode: u16, body: Seq<u8>) -> (Self, Option<TransportError>) {
        if opcode == 9 {
            if self.fragment is Some {
                (self, Some(TransportError::FragmentInterrupted))
            } else {
                self.delivered(unpack(body, 0))
            }
        } else {
            match self.fragment {
                Some((size, data)) => if data.len() + body.len() > size {
                    (self, Some(TransportError::FragmentOverrun))
                } else {
                    self.assembled(size, data + body)
                },
                None => if body.len() < 4 {
                    (self, Some(TransportError::FragmentLength))
                } else {
                    let size = bytes::be32_at(body, 0);
                    if !(2 <= size <= MAX_APPLICATION) || body.len() - 4 > size {
                        (self, Some(TransportError::FragmentSize))
                    } else {
                        self.assembled(size as usize, body.skip(4))
                    }
                },
            }
        }
    }

    /// Fragment data so far: delivered once complete.
    pub open spec fn assembled(self, size: usize, data: Seq<u8>) -> (Self, Option<TransportError>) {
        if data.len() == size {
            SessionState { fragment: None, ..self }.delivered(unpack(data, 0))
        } else {
            (SessionState { fragment: Some((size, data)), ..self }, None)
        }
    }

    /// Take every held frame whose turn has come.
    pub open spec fn drained(self) -> (Self, Option<TransportError>)
        decreases self.reorder.dom().len(),
        when self.reorder.dom().finite()
    {
        if self.reorder.contains_key(self.next_receive) {
            let frame = self.reorder[self.next_receive];
            let (next, error) = SessionState {
                reorder: self.reorder.remove(self.next_receive),
                ..self
            }.ordered(frame.0, frame.1);
            if error is Some {
                (next, error)
            } else {
                SessionState { next_receive: next.next_receive.wrapping_add(1), ..next }.drained()
            }
        } else {
            (self, None)
        }
    }

    /// A numbered frame: old ones are acknowledged again, early ones are held
    /// and reported, and the next one releases all that follow it.
    pub open spec fn sequenced(self, opcode: u16, body: Seq<u8>) -> (Self, Option<TransportError>) {
        if body.len() < 2 {
            (self, Some(TransportError::SequenceMissing))
        } else {
            let sequence = bytes::be16_at(body, 0);
            let distance = sequence.wrapping_sub(self.next_receive);
            if distance >= 32768 {
                (SessionState { ack_pending: true, ..self }, None)
            } else if distance >= WINDOW {
                (self, Some(TransportError::IncomingWindow))
            } else {
                let reorder = if self.reorder.contains_key(sequence) {
                    self.reorder
                } else {
                    self.reorder.insert(sequence, (opcode, body.skip(2)))
                };
                let (next, error) = SessionState { reorder, ..self }.drained();
                if error is Some {
                    (next, error)
                } else {
                    let told = if distance > 0 {
                        next.control(0x11, bytes::be16(sequence))
                    } else {
                        next
                    };
                    (SessionState { ack_pending: true, ..told }, None)
                }
            }
        }
    }

    /// A cumulative acknowledgment retires the frame it names and all before it.
    pub open spec fn acknowledged(self, ack: u16) -> Self {
        if exists|i: int| 0 <= i < self.pending.len() && #[trigger] self.pending[i].sequence == ack {
            SessionState { pending: after_ack(self.pending, ack), ..self }
        } else {
            self
        }
    }

    /// The first `n` pending frames, sent again where `seen` follows them.
    pub open spec fn resent(self, n: nat, seen: u16, now: u64) -> Self
        decreases n,
    {
        if n == 0 {
            self
        } else {
            let s = self.resent((n - 1) as nat, seen, now);
            let p = s.pending[n - 1];
            if seen.wrapping_sub(p.sequence) < WINDOW {
                SessionState {
                    pending: s.pending.update(n - 1, PendingState { sent: now, ..p }),
                    ..s
                }.emit(p.packet)
            } else {
                s
            }
        }
    }

    /// A reply to our statistics request gives a round-trip time.
    pub open spec fn measured(self, token: u16, now: u64) -> Self {
        match self.stats_request {
            Some((expected, sent)) => if token == expected {
                let rtt = millis32(elapsed(now, sent));
                SessionState {
                    rtt,
                    rtt_min: if self.rtt_count == 0 || rtt < self.rtt_min {
                        rtt
                    } else {
                        self.rtt_min
                    },
                    rtt_max: if rtt > self.rtt_max {
                        rtt
                    } else {
                        self.rtt_max
                    },
                    rtt_sum: self.rtt_sum.wrapping_add(rtt as u64),
                    rtt_count: self.rtt_count.wrapping_add(1),
                    stats_request: None,
                    ..self
                }
            } else {
                self
            },
            None => self,
        }
    }

    /// Our reply to a statistics request of the server.
    pub open spec fn statistics_reply(self, request: Seq<u8>, now: u64) -> Seq<u8> {
        request.take(2) + bytes::be32(millis32(elapsed(now, self.started))) + request.subrange(
            22,
            38,
        ) + bytes::be64(self.sent_count) + bytes::be64(self.received_count)
    }

    /// A transport packet other than a combined one.
    pub open spec fn controlled(self, opcode: u16, body: Seq<u8>, depth: nat, now: u64) -> (
        Self,
        Option<TransportError>,
    ) {
        if opcode == 0x19 {
            match split(body) {
                Ok(parts) => self.delivered(unpack_all(parts, depth + 1)),
                Err(e) => (self, Some(e)),
            }
        } else if opcode == 9 || opcode == 13 {
            self.sequenced(opcode, body)
        } else if opcode == 0x15 {
            if body.len() != 2 {
                (self, Some(TransportError::CumulativeAck))
            } else {
                (self.acknowledged(bytes::be16_at(body, 0)), None)
            }
        } else if opcode == 0x11 {
            if body.len() != 2 {
                (self, Some(TransportError::OutOfOrderAck))
            } else {
                (self.resent(self.pending.len(), bytes::be16_at(body, 0), now), None)
            }
        } else if opcode == 5 {
            (SessionState { closed: true, ..self }, None)
        } else if opcode == 8 {
            if body.len() != 38 {
                (self, Some(TransportError::StatisticsResponse))
            } else {
                (self.measured(bytes::be16_at(body, 0), now), None)
            }
        } else if opcode == 7 {
            if body.len() != 38 {
                (self, Some(TransportError::StatisticsRequest))
            } else {
                (self.control(8, self.statistics_reply(body, now)), None)
            }
        } else {
            (self, None)
        }
    }

    /// One verified packet.
    pub open spec fn processed(self, packet: Seq<u8>, nested: bool, depth: nat, now: u64) -> (
        Self,
        Option<TransportError>,
    )
        decreases levels(depth), 0nat,
    {
        if depth >= 8 || packet.len() < 2 {
            (self, Some(TransportError::NestedTransport))
        } else {
            match self.unwrapped(packet, nested) {
                Err(e) => (self, Some(e)),
                Ok(Wrapped::Raw(data)) => self.delivered(unpack(data, depth + 1)),
                Ok(Wrapped::Control(opcode, body)) => if opcode == 3 {
                    match split(body) {
                        Ok(parts) => self.processed_all(parts, depth + 1, now),
                        Err(e) => (self, Some(e)),
                    }
                } else {
                    self.controlled(opcode, body, depth, now)
                },
            }
        }
    }

    /// The parts of a combined packet in turn, up to the first error.
    pub open spec fn processed_all(self, parts: Seq<Seq<u8>>, depth: nat, now: u64) -> (
        Self,
        Option<TransportError>,
    )
        decreases levels(depth), parts.len() + 1,
    {
        if parts.len() == 0 {
            (self, None)
        } else {
            let (next, error) = self.processed(parts[0], true, depth, now);
            if error is Some {
                (next, error)
            } else {
                next.processed_all(parts.skip(1), depth, now)
            }
        }
    }

    /// Number a frame and keep it until it is acknowledged.
    pub open spec fn reliable(self, opcode: u16, body: Seq<u8>, now: u64) -> (
        Self,
        Option<TransportError>,
    ) {
        if self.pending.len() >= WINDOW {
            (self, Some(TransportError::OutgoingWindow))
        } else {
            let packet = self.datagram(opcode, bytes::be16(self.next_send) + body);
            let kept = PendingState { sequence: self.next_send, packet, sent: now, attempts: 1 };
            (
                SessionState {
                    pending: self.pending.push(kept),
                    next_send: self.next_send.wrapping_add(1),
                    ..self
                }.emit(packet),
                None,
            )
        }
    }

    pub open spec fn reliable_all(self, frames: Seq<(u16, Seq<u8>)>, now: u64) -> (
        Self,
        Option<TransportError>,
    )
        decreases frames.len(),
    {
        if frames.len() == 0 {
            (self, None)
        } else {
            let (next, error) = self.reliable(frames[0].0, frames[0].1, now);
            if error is Some {
                (next, error)
            } else {
                next.reliable_all(frames.skip(1), now)
            }
        }
    }

    /// An application packet on the reliable stream.
    pub open spec fn sending(self, opcode: u16, body: Seq<u8>, now: u64) -> (
        Self,
        Option<TransportError>,
    ) {
        if self.closed {
            (self, Some(TransportError::SessionClosed))
        } else if body.len() > MAX_APPLICATION - 3 {
            (self, Some(TransportError::ApplicationTooLarge))
        } else {
            self.reliable_all(frames(application_bytes(opcode, body), self.capacity()), now)
        }
    }

    /// The datagram of an unsequenced application packet. The encoding stands
    /// between the two bytes of the opcode.
    pub open spec fn raw_datagram(self, opcode: u16, body: Seq<u8>) -> Seq<u8> {
        let rest = seq![(opcode / 256) as u8] + body;
        let encoded = if self.compression {
            seq![0x5au8] + outside::deflated(rest, 6)
        } else {
            rest
        };
        self.sealed(seq![(opcode % 256) as u8] + encoded)
    }

    pub open spec fn sending_unreliable(self, opcode: u16, body: Seq<u8>) -> (
        Self,
        Option<TransportError>,
    ) {
        if opcode % 256 == 0 {
            (self, Some(TransportError::UnreliableOpcode))
        } else if self.raw_datagram(opcode, body).len() > self.max_datagram {
            (self, Some(TransportError::UnreliableSize))
        } else {
            (self.emit(self.raw_datagram(opcode, body)), None)
        }
    }

    /// A due acknowledgment covers everything received in order so far.
    pub open spec fn acknowledging(self, now: u64) -> Self {
        if self.ack_pending && elapsed(now, self.last_ack) >= 100_000_000 {
            SessionState {
                ack_pending: false,
                last_ack: now,
                ..self.control(0x15, bytes::be16(self.next_receive.wrapping_sub(1)))
            }
        } else {
            self
        }
    }

    /// The first `n` pending frames, sent again where a second has passed.
    pub open spec fn retransmitted(self, n: nat, now: u64) -> (Self, Option<TransportError>)
        decreases n,
    {
        if n == 0 {
            (self, None)
        } else {
            let (s, error) = self.retransmitted((n - 1) as nat, now);
            let p = s.pending[n - 1];
            if error is Some || elapsed(now, p.sent) < 1_000_000_000 {
                (s, error)
            } else if p.attempts >= 15 {
                (s, Some(TransportError::Unacknowledged))
            } else {
                (
                    SessionState {
                        pending: s.pending.update(
                            n - 1,
                            PendingState { sent: now, attempts: (p.attempts + 1) as u8, ..p },
                        ),
                        ..s
                    }.emit(p.packet),
                    None,
                )
            }
        }
    }

    pub open spec fn rtt_average(self) -> u32 {
        if self.rtt_count == 0 {
            0
        } else if self.rtt_sum / self.rtt_count <= u32::MAX {
            (self.rtt_sum / self.rtt_count) as u32
        } else {
            u32::MAX
        }
    }

    /// The body of a statistics request of ours.
    pub open spec fn statistics(self, token: u16) -> Seq<u8> {
        bytes::be16(token) + bytes::be32(self.rtt) + bytes::be32(self.rtt_average()) + bytes::be32(
            self.rtt_min,
        ) + bytes::be32(self.rtt_max) + bytes::be32(self.rtt) + bytes::be64(self.sent_count)
            + bytes::be64(self.received_count)
    }

    pub open spec fn reporting(self, now: u64) -> Self {
        if now >= self.next_stats {
            let token = ((elapsed(now, self.started) / 1_000_000) % 65536) as u16;
            SessionState {
                stats_request: Some((token, now)),
                next_stats: after(now, 30_000_000_000),
                ..self.control(7, self.statistics(token))
            }
        } else {
            self
        }
    }

    /// What is due before the next datagram is read.
    pub open spec fn polled(self, now: u64) -> (Self, Result<Option<App>, TransportError>) {
        let told = self.acknowledging(now);
        if told.applications.len() > 0 {
            (
                SessionState { applications: told.applications.skip(1), ..told },
                Ok(Some(told.applications[0])),
            )
        } else if told.closed {
            (told, Err(TransportError::ServerClosed))
        } else {
            let (again, error) = told.retransmitted(told.pending.len(), now);
            if error is Some {
                (again, Err(error->0))
            } else if elapsed(now, again.last_receive) >= 60_000_000_000 {
                (again, Err(TransportError::Silent))
            } else {
                (again.reporting(now), Ok(None))
            }
        }
    }

    /// A datagram from the server.
    pub open spec fn received(self, wire: Seq<u8>, now: u64) -> (
        Self,
        Result<Option<App>, TransportError>,
    ) {
        let counted = SessionState {
            received_count: self.received_count.wrapping_add(1),
            ..self
        };
        match counted.opened(wire) {
            None => (counted, Ok(None)),
            Some(packet) => {
                let (next, error) = SessionState { last_receive: now, ..counted }.processed(
                    packet,
                    false,
                    0,
                    now,
                );
                if error is Some {
                    (next, Err(error->0))
                } else if next.applications.len() > 0 {
                    (
                        SessionState { applications: next.applications.skip(1), ..next },
                        Ok(Some(next.applications[0])),
                    )
                } else {
                    (next, Ok(None))
                }
            },
        }
    }

    /// The session after a disconnect, which is sent once.
    pub open spec fn closing(self) -> Self {
        if self.closed {
            self
        } else {
            SessionState { closed: true, ..self.control(5, bytes::be32(self.id)) }
        }
    }
}

/// The negotiation request: protocol version, our id and our datagram size.
pub open spec fn request(id: u32) -> Seq<u8> {
    seq![0u8, 1u8] + bytes::be32(2) + bytes::be32(id) + bytes::be32(512)
}

/// Whether a datagram answers the negotiation of `id`.
pub open spec fn answers(wire: Seq<u8>, id: u32) -> bool {
    wire.len() >= 17 && wire[0] == 0 && wire[1] == 2 && bytes::be32_at(wire, 2) == id
}

/// What a negotiation answer leads to: a session with its parameters.
pub open spec fn negotiated(id: u32, wire: Seq<u8>, echo: bool, now: u64) -> Result<
    SessionState,
    TransportError,
> {
    if wire[10] > 4 {
        Err(TransportError::CrcSize)
    } else if wire[11] > 1 || wire[12] != 0 {
        Err(TransportError::Encoding)
    } else if !(64 <= bytes::be32_at(wire, 13) <= 65507) {
        Err(TransportError::DatagramSize)
    } else {
        Ok(
            SessionState {
                id,
                crc_seed: bytes::be32_at(wire, 6),
                crc_bytes: wire[10] as usize,
                compression: wire[11] == 1,
                max_datagram: bytes::be32_at(wire, 13) as usize,
                next_send: 0,
                next_receive: 0,
                ack_pending: false,
                last_ack: now,
                reorder: Map::empty(),
                pending: Seq::empty(),
                fragment: None,
                applications: Seq::empty(),
                last_receive: now,
                started: now,
                next_stats: after(now, 10_000_000_000),
                stats_request: None,
                rtt: 0,
                rtt_min: 0,
                rtt_max: 0,
                rtt_sum: 0,
                rtt_count: 0,
                sent_count: if echo {
                    2
                } else {
                    1
                },
                received_count: 1,
                closed: false,
                outbox: if echo {
                    seq![wire]
                } else {
                    Seq::empty()
                },
            },
        )
    }
}

} // verus!

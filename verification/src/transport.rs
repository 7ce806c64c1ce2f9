//! Reliable UDP sessions of the later game protocol.

use crate::bytes;
use crate::outside;
use std::collections::{HashMap, VecDeque};
use vstd::prelude::*;

pub mod laws;
pub mod layout;
pub mod model;
pub mod upkeep;
pub mod wire;

verus! {

/// Largest application packet, in bytes.
pub const MAX_APPLICATION: usize = 16_777_216;

/// Frames that may be outstanding in either direction.
pub const WINDOW: u16 = 2048;

/// A fully reassembled application packet from an EQ UDP session.
#[derive(Debug)]
pub struct Application {
    pub opcode: u16,
    pub body: Vec<u8>,
}

/// A reliable datagram waiting for its acknowledgment.
#[derive(Debug)]
pub struct Pending {
    pub sequence: u16,
    pub packet: Vec<u8>,
    pub sent: u64,
    pub attempts: u8,
}

/// Why a session cannot go on.
#[derive(Clone, Copy, Debug, PartialEq, Eq, Structural)]
pub enum TransportError {
    SessionClosed,
    ApplicationTooLarge,
    OutgoingWindow,
    UnreliableOpcode,
    UnreliableSize,
    ServerClosed,
    Unacknowledged,
    Silent,
    NestedTransport,
    RawCompression,
    RawEncoding,
    MarkerMissing,
    Compression,
    Marker,
    SequenceMissing,
    IncomingWindow,
    CumulativeAck,
    OutOfOrderAck,
    StatisticsResponse,
    StatisticsRequest,
    FragmentInterrupted,
    FragmentOverrun,
    FragmentLength,
    FragmentSize,
    NestedApplication,
    EscapedOpcode,
    CombinedTruncated,
    CombinedLength,
    NegotiationTimeout,
    CrcSize,
    Encoding,
    DatagramSize,
    Cancelled,
}

impl TransportError {
    /// The wording of each error.
    pub open spec fn text(self) -> Seq<char> {
        match self {
            TransportError::SessionClosed => "session is closed"@,
            TransportError::ApplicationTooLarge => "application too large"@,
            TransportError::OutgoingWindow => "outgoing reliable window full"@,
            TransportError::UnreliableOpcode => "unreliable opcode requires nonzero low byte"@,
            TransportError::UnreliableSize => "unreliable packet exceeds datagram limit"@,
            TransportError::ServerClosed => "server closed session"@,
            TransportError::Unacknowledged => "server did not acknowledge a reliable packet"@,
            TransportError::Silent => "server stopped responding"@,
            TransportError::NestedTransport => "invalid nested transport packet"@,
            TransportError::RawCompression => "invalid compressed raw application"@,
            TransportError::RawEncoding => "unsupported raw application encoding"@,
            TransportError::MarkerMissing => "missing compression marker"@,
            TransportError::Compression => "invalid compressed packet"@,
            TransportError::Marker => "unsupported compression marker"@,
            TransportError::SequenceMissing => "missing reliable sequence"@,
            TransportError::IncomingWindow => "incoming reliable window exceeded"@,
            TransportError::CumulativeAck => "invalid cumulative acknowledgment"@,
            TransportError::OutOfOrderAck => "invalid out-of-order acknowledgment"@,
            TransportError::StatisticsResponse => "invalid session statistics response"@,
            TransportError::StatisticsRequest => "invalid session statistics request"@,
            TransportError::FragmentInterrupted => "ordinary packet interrupted fragment assembly"@,
            TransportError::FragmentOverrun => "fragment exceeds declared size"@,
            TransportError::FragmentLength => "missing fragment length"@,
            TransportError::FragmentSize => "invalid fragment size"@,
            TransportError::NestedApplication => "invalid nested application packet"@,
            TransportError::EscapedOpcode => "truncated escaped application opcode"@,
            TransportError::CombinedTruncated => "truncated combined length"@,
            TransportError::CombinedLength => "invalid combined length"@,
            TransportError::NegotiationTimeout => "UDP session negotiation timed out"@,
            TransportError::CrcSize => "unsupported CRC size"@,
            TransportError::Encoding => "unsupported UDP encoding negotiation"@,
            TransportError::DatagramSize => "invalid negotiated datagram size"@,
            TransportError::Cancelled => "shutdown requested"@,
        }
    }

    /// Describe the error to a user.
    pub fn message(&self) -> (text: &'static str)
        ensures
            text@ == self.text(),
    {
        match self {
            TransportError::SessionClosed => "session is closed",
            TransportError::ApplicationTooLarge => "application too large",
            TransportError::OutgoingWindow => "outgoing reliable window full",
            TransportError::UnreliableOpcode => "unreliable opcode requires nonzero low byte",
            TransportError::UnreliableSize => "unreliable packet exceeds datagram limit",
            TransportError::ServerClosed => "server closed session",
            TransportError::Unacknowledged => "server did not acknowledge a reliable packet",
            TransportError::Silent => "server stopped responding",
            TransportError::NestedTransport => "invalid nested transport packet",
            TransportError::RawCompression => "invalid compressed raw application",
            TransportError::RawEncoding => "unsupported raw application encoding",
            TransportError::MarkerMissing => "missing compression marker",
            TransportError::Compression => "invalid compressed packet",
            TransportError::Marker => "unsupported compression marker",
            TransportError::SequenceMissing => "missing reliable sequence",
            TransportError::IncomingWindow => "incoming reliable window exceeded",
            TransportError::CumulativeAck => "invalid cumulative acknowledgment",
            TransportError::OutOfOrderAck => "invalid out-of-order acknowledgment",
            TransportError::StatisticsResponse => "invalid session statistics response",
            TransportError::StatisticsRequest => "invalid session statistics request",
            TransportError::FragmentInterrupted => "ordinary packet interrupted fragment assembly",
            TransportError::FragmentOverrun => "fragment exceeds declared size",
            TransportError::FragmentLength => "missing fragment length",
            TransportError::FragmentSize => "invalid fragment size",
            TransportError::NestedApplication => "invalid nested application packet",
            TransportError::EscapedOpcode => "truncated escaped application opcode",
            TransportError::CombinedTruncated => "truncated combined length",
            TransportError::CombinedLength => "invalid combined length",
            TransportError::NegotiationTimeout => "UDP session negotiation timed out",
            TransportError::CrcSize => "unsupported CRC size",
            TransportError::Encoding => "unsupported UDP encoding negotiation",
            TransportError::DatagramSize => "invalid negotiated datagram size",
            TransportError::Cancelled => "shutdown requested",
        }
    }
}

/// One independent, reliable EQ UDP session. Sequence numbers and CRC state
/// belong to this session and are discarded on world/zone transitions.
///
/// Datagrams due on the wire collect in `outbox`, in order.
#[derive(Debug)]
pub struct Session {
    pub id: u32,
    pub crc_seed: u32,
    pub crc_bytes: usize,
    pub compression: bool,
    pub max_datagram: usize,
    pub next_send: u16,
    pub next_receive: u16,
    pub ack_pending: bool,
    pub last_ack: u64,
    pub reorder: HashMap<u16, (u16, Vec<u8>)>,
    pub pending: Vec<Pending>,
    pub fragment: Option<(usize, Vec<u8>)>,
    pub applications: VecDeque<Application>,
    pub last_receive: u64,
    pub started: u64,
    pub next_stats: u64,
    pub stats_request: Option<(u16, u64)>,
    pub rtt: u32,
    pub rtt_min: u32,
    pub rtt_max: u32,
    pub rtt_sum: u64,
    pub rtt_count: u64,
    pub sent_count: u64,
    pub received_count: u64,
    pub closed: bool,
    pub outbox: Vec<Vec<u8>>,
}

impl View for Session {
    type V = model::SessionState;

    open spec fn view(&self) -> model::SessionState {
        model::SessionState {
            id: self.id,
            crc_seed: self.crc_seed,
            crc_bytes: self.crc_bytes,
            compression: self.compression,
            max_datagram: self.max_datagram,
            next_send: self.next_send,
            next_receive: self.next_receive,
            ack_pending: self.ack_pending,
            last_ack: self.last_ack,
            reorder: model::held(self.reorder@),
            pending: model::pending_states(self.pending@),
            fragment: match self.fragment {
                Some((size, data)) => Some((size, data@)),
                None => None,
            },
            applications: model::apps(self.applications@),
            last_receive: self.last_receive,
            started: self.started,
            next_stats: self.next_stats,
            stats_request: self.stats_request,
            rtt: self.rtt,
            rtt_min: self.rtt_min,
            rtt_max: self.rtt_max,
            rtt_sum: self.rtt_sum,
            rtt_count: self.rtt_count,
            sent_count: self.sent_count,
            received_count: self.received_count,
            closed: self.closed,
            outbox: model::datagrams(self.outbox@),
        }
    }
}

/// A packet with its compression removed.
enum Unwrapped {
    Raw(Vec<u8>),
    Control(u16, Vec<u8>),
}

impl Unwrapped {
    spec fn spec_of(self) -> model::Wrapped {
        match self {
            Unwrapped::Raw(data) => model::Wrapped::Raw(data@),
            Unwrapped::Control(opcode, body) => model::Wrapped::Control(opcode, body@),
        }
    }
}

/// Nanoseconds from `then` to `now`, none where the clock went back.
pub fn since(now: u64, then: u64) -> (nanos: u64)
    ensures
        nanos == model::elapsed(now, then),
{
    if now >= then {
        now - then
    } else {
        0
    }
}

/// The time `delay` nanoseconds after `now`, or the end of time.
pub fn later(now: u64, delay: u64) -> (time: u64)
    ensures
        time == model::after(now, delay),
{
    if delay <= u64::MAX - now {
        now + delay
    } else {
        u64::MAX
    }
}

fn millis(nanos: u64) -> (ms: u32)
    ensures
        ms == model::millis32(nanos),
{
    let ms: u64 = nanos / 1_000_000;
    if ms <= 0xffff_ffff {
        ms as u32
    } else {
        u32::MAX
    }
}

/// The checksum of a packet under the seed of its session.
fn checksum(seed: u32, packet: &[u8]) -> (crc: u32)
    ensures
        crc == model::seeded_crc(seed, packet@),
{
    let mut data: Vec<u8> = Vec::new();
    bytes::push_le32(&mut data, seed);
    data.extend_from_slice(packet);
    assert(data@ =~= bytes::le32(seed) + packet@);
    outside::crc32(&data)
}

/// The parts of a combined packet.
pub fn split_combined<'a>(packet: &'a [u8]) -> (r: Result<Vec<&'a [u8]>, TransportError>)
    ensures
        model::split(packet@) == (match r {
            Ok(parts) => Ok(model::slices(parts@)),
            Err(e) => Err(e),
        }),
{
    let mut parts: Vec<&'a [u8]> = Vec::new();
    let mut at: usize = 0;
    assert(packet@.skip(0) =~= packet@);
    while at < packet.len()
        invariant
            at <= packet@.len(),
            model::split(packet@) == (match model::split(packet@.skip(at as int)) {
                Ok(rest) => Ok(model::slices(parts@) + rest),
                Err(e) => Err(e),
            }),
        decreases packet@.len() - at,
    {
        let ghost rest = packet@.skip(at as int);
        let mut length: usize = packet[at] as usize;
        let mut start: usize = at + 1;
        if length == 255 {
            if packet.len() - start < 2 {
                return Err(TransportError::CombinedTruncated);
            }
            length = bytes::read_be16(packet, start) as usize;
            start = start + 2;
        }
        if length == 0 || length > packet.len() - start {
            return Err(TransportError::CombinedLength);
        }
        let ghost before = parts@;
        let part: &'a [u8] = &packet[start..start + length];
        parts.push(part);
        proof {
            let offset = start - at;
            assert(rest.skip(offset + length) =~= packet@.skip(start + length));
            assert(rest.subrange(offset, offset + length) =~= part@);
            let tail = model::split(packet@.skip(start + length));
            if tail is Ok {
                assert(model::slices(parts@) + tail->Ok_0 =~= model::slices(before) + (seq![part@]
                    + tail->Ok_0));
            }
        }
        at = start + length;
    }
    proof {
        assert(model::slices(parts@) + Seq::<Seq<u8>>::empty() =~= model::slices(parts@));
    }
    Ok(parts)
}

impl Session {
    /// What holds of every session.
    pub open spec fn wf(&self) -> bool {
        self@.wf()
    }

    /// Set up a reliable session from the server's answer to the negotiation.
    pub fn connect(id: u32, wire: &[u8], echo_response: bool, now: u64) -> (r: Result<
        Self,
        TransportError,
    >)
        requires
            model::answers(wire@, id),
        ensures
            model::negotiated(id, wire@, echo_response, now) == (match r {
                Ok(session) => Ok(session@),
                Err(e) => Err(e),
            }),
            r is Ok ==> r->Ok_0.wf(),
    {
        broadcast use vstd::std_specs::hash::group_hash_axioms;

        let crc_bytes: usize = wire[10] as usize;
        if crc_bytes > 4 {
            return Err(TransportError::CrcSize);
        }
        if wire[11] > 1 || wire[12] != 0 {
            return Err(TransportError::Encoding);
        }
        let max_datagram: u32 = bytes::read_be32(wire, 13);
        if max_datagram < 64 || max_datagram > 65507 {
            return Err(TransportError::DatagramSize);
        }
        let mut outbox: Vec<Vec<u8>> = Vec::new();
        if echo_response {
            outbox.push(vstd::slice::slice_to_vec(wire));
        }
        let session = Session {
            id,
            crc_seed: bytes::read_be32(wire, 6),
            crc_bytes,
            compression: wire[11] == 1,
            max_datagram: max_datagram as usize,
            next_send: 0,
            next_receive: 0,
            ack_pending: false,
            last_ack: now,
            reorder: HashMap::new(),
            pending: Vec::new(),
            fragment: None,
            applications: VecDeque::new(),
            last_receive: now,
            started: now,
            next_stats: later(now, 10_000_000_000),
            stats_request: None,
            rtt: 0,
            rtt_min: 0,
            rtt_max: 0,
            rtt_sum: 0,
            rtt_count: 0,
            sent_count: if echo_response {
                2
            } else {
                1
            },
            received_count: 1,
            closed: false,
            outbox,
        };
        proof {
            assert(session@.reorder =~= Map::empty());
            assert(session@.pending =~= Seq::empty());
            assert(session@.applications =~= Seq::empty());
            assert(session@.outbox =~= if echo_response {
                seq![wire@]
            } else {
                Seq::empty()
            });
        }
        Ok(session)
    }

    /// Hand a datagram to the wire.
    fn emit(&mut self, wire: Vec<u8>)
        ensures
            final(self)@ == old(self)@.emit(wire@),
    {
        self.outbox.push(wire);
        self.sent_count = self.sent_count.wrapping_add(1);
        assert(model::datagrams(self.outbox@) =~= model::datagrams(old(self).outbox@).push(wire@));
    }

    /// Append the checksum to a packet.
    fn seal(&self, packet: Vec<u8>) -> (wire: Vec<u8>)
        requires
            self.wf(),
        ensures
            wire@ == self@.sealed(packet@),
    {
        let crc = checksum(self.crc_seed, &packet);
        let mut suffix: Vec<u8> = Vec::new();
        bytes::push_be32(&mut suffix, crc);
        assert(suffix@ =~= bytes::be32(crc));
        let mut wire = packet;
        wire.extend_from_slice(&suffix[4 - self.crc_bytes..4]);
        assert(suffix@.subrange(4 - self.crc_bytes, 4) =~= suffix@.skip(4 - self.crc_bytes));
        wire
    }

    /// Frame a transport packet under the negotiated encoding.
    ///
    /// A receiver with the same parameters finds the checksum right and gets the
    /// opcode and the body back.
    pub fn datagram(&self, opcode: u16, body: &[u8]) -> (wire: Vec<u8>)
        requires
            self.wf(),
        ensures
            wire@ == self@.datagram(opcode, body@),
            opcode < 256 && opcode != 2 && body@.len() < MAX_APPLICATION ==> self@.carries(
                wire@,
                opcode,
                body@,
            ),
    {
        let mut packet: Vec<u8> = Vec::new();
        bytes::push_be16(&mut packet, opcode);
        if self.compression {
            let compressed = outside::deflate(body, 6);
            if compressed.len() < body.len() {
                packet.push(0x5a);
                packet.extend_from_slice(&compressed);
            } else {
                packet.push(0xa5);
                packet.extend_from_slice(body);
            }
        } else {
            packet.extend_from_slice(body);
        }
        assert(packet@ =~= bytes::be16(opcode) + self@.encoded(body@));
        let ghost plain = packet@;
        let wire = self.seal(packet);
        proof {
            reveal(model::SessionState::carries);
            let end = wire@.len() - self.crc_bytes;
            assert(wire@.take(end) =~= plain);
            assert(wire@.skip(end) =~= self@.crc_suffix(plain));
            bytes::lemma_integers_round_trip(opcode, 0);
            assert(bytes::be16_at(plain, 0) == opcode);
            let rest = plain.skip(2);
            assert(rest =~= self@.encoded(body@));
            if self.compression && opcode < 256 && body@.len() < MAX_APPLICATION {
                assert(rest.skip(1) =~= if outside::deflated(body@, 6).len() < body@.len() {
                    outside::deflated(body@, 6)
                } else {
                    body@
                });
            }
        }
        wire
    }

    fn control(&mut self, opcode: u16, body: &[u8])
        requires
            old(self).wf(),
        ensures
            final(self)@ == old(self)@.control(opcode, body@),
    {
        let wire = self.datagram(opcode, body);
        self.emit(wire);
    }

    /// Remove the compression of a packet.
    fn unwrap(&self, packet: &[u8], nested: bool) -> (r: Result<Unwrapped, TransportError>)
        requires
            packet@.len() >= 2,
        ensures
            self@.unwrapped(packet@, nested) == (match r {
                Ok(u) => Ok(u.spec_of()),
                Err(e) => Err(e),
            }),
    {
        let rest = &packet[2..packet.len()];
        assert(rest@ =~= packet@.skip(2));
        if packet[0] != 0 {
            if nested || !self.compression {
                return Ok(Unwrapped::Raw(vstd::slice::slice_to_vec(packet)));
            }
            let mut data: Vec<u8> = Vec::new();
            data.push(packet[0]);
            if packet[1] == 0xa5 {
                data.extend_from_slice(rest);
                assert(data@ =~= seq![packet@[0]] + rest@);
            } else if packet[1] == 0x5a {
                match outside::inflate(rest, MAX_APPLICATION) {
                    Ok(plain) => {
                        data.extend_from_slice(&plain);
                        assert(data@ =~= seq![packet@[0]] + plain@);
                    },
                    Err(_) => {
                        return Err(TransportError::RawCompression);
                    },
                }
            } else {
                return Err(TransportError::RawEncoding);
            }
            return Ok(Unwrapped::Raw(data));
        }
        let opcode = bytes::read_be16(packet, 0);
        if nested || !self.compression {
            return Ok(Unwrapped::Control(opcode, vstd::slice::slice_to_vec(rest)));
        }
        if rest.len() == 0 {
            return Err(TransportError::MarkerMissing);
        }
        let data = &rest[1..rest.len()];
        assert(data@ =~= rest@.skip(1));
        if rest[0] == 0xa5 {
            Ok(Unwrapped::Control(opcode, vstd::slice::slice_to_vec(data)))
        } else if rest[0] == 0x5a {
            match outside::inflate(data, MAX_APPLICATION) {
                Ok(plain) => Ok(Unwrapped::Control(opcode, plain)),
                Err(_) => Err(TransportError::Compression),
            }
        } else {
            Err(TransportError::Marker)
        }
    }

    /// Queue the application packets in `packet`.
    fn application(&mut self, packet: &[u8], depth: usize) -> (r: Result<(), TransportError>)
        ensures
            old(self)@.delivered(model::unpack(packet@, depth as nat)) == (
                final(self)@,
                model::failure(r),
            ),
        decreases model::levels(depth as nat), 0nat,
    {
        if depth >= 8 || packet.len() < 2 {
            assert(old(self)@.applications + Seq::<model::App>::empty()
                =~= old(self)@.applications);
            return Err(TransportError::NestedApplication);
        }
        if packet[0] == 0 && packet[1] == 0x19 {
            let rest = &packet[2..packet.len()];
            assert(rest@ =~= packet@.skip(2));
            match split_combined(rest) {
                Ok(parts) => {
                    return self.application_all(&parts, depth + 1);
                },
                Err(e) => {
                    assert(old(self)@.applications + Seq::<model::App>::empty()
                        =~= old(self)@.applications);
                    return Err(e);
                },
            }
        }
        let plain = if packet[0] == 0 {
            &packet[1..packet.len()]
        } else {
            packet
        };
        assert(packet@[0] == 0 ==> plain@ =~= packet@.skip(1));
        if plain.len() < 2 {
            assert(old(self)@.applications + Seq::<model::App>::empty()
                =~= old(self)@.applications);
            return Err(TransportError::EscapedOpcode);
        }
        let body = &plain[2..plain.len()];
        assert(body@ =~= plain@.skip(2));
        let application = Application {
            opcode: bytes::read_le16(plain, 0),
            body: vstd::slice::slice_to_vec(body),
        };
        self.applications.push_back(application);
        assert(self@.applications =~= old(self)@.applications + seq![model::app(application)]);
        Ok(())
    }

    /// Queue the application packets of several parts, up to the first error.
    fn application_all(&mut self, parts: &Vec<&[u8]>, depth: usize) -> (r: Result<
        (),
        TransportError,
    >)
        ensures
            old(self)@.delivered(model::unpack_all(model::slices(parts@), depth as nat)) == (
                final(self)@,
                model::failure(r),
            ),
        decreases model::levels(depth as nat), 1nat,
    {
        let ghost all = model::slices(parts@);
        let ghost mut done: Seq<model::App> = Seq::empty();
        let mut i: usize = 0;
        assert(all.skip(0) =~= all);
        assert(self@.applications =~= old(self)@.applications + done);
        assert(done + model::unpack_all(all, depth as nat).0 =~= model::unpack_all(
            all,
            depth as nat,
        ).0);
        while i < parts.len()
            invariant
                i <= parts@.len(),
                all == model::slices(parts@),
                self@ == (model::SessionState {
                    applications: old(self)@.applications + done,
                    ..old(self)@
                }),
                model::unpack_all(all, depth as nat) == (
                    done + model::unpack_all(all.skip(i as int), depth as nat).0,
                    model::unpack_all(all.skip(i as int), depth as nat).1,
                ),
            decreases parts@.len() - i,
        {
            let ghost before = self@;
            let ghost rest = all.skip(i as int);
            let ghost head = model::unpack(rest[0], depth as nat);
            assert(rest[0] == parts@[i as int]@);
            let r = self.application(parts[i], depth);
            proof {
                assert(self@.applications =~= old(self)@.applications + (done + head.0));
                assert(rest.skip(1) =~= all.skip(i + 1));
            }
            if r.is_err() {
                return r;
            }
            proof {
                let tail = model::unpack_all(all.skip(i + 1), depth as nat).0;
                assert(done + (head.0 + tail) =~= (done + head.0) + tail);
                done = done + head.0;
            }
            i = i + 1;
        }
        proof {
            assert(done + Seq::<model::App>::empty() =~= done);
        }
        Ok(())
    }

    /// Take one frame of the reliable stream, in order.
    fn ordered(&mut self, opcode: u16, body: &[u8]) -> (r: Result<(), TransportError>)
        requires
            old(self).wf(),
        ensures
            final(self).wf(),
            old(self)@.ordered(opcode, body@) == (final(self)@, model::failure(r)),
    {
        if opcode == 9 {
            if self.fragment.is_some() {
                return Err(TransportError::FragmentInterrupted);
            }
            return self.application(body, 0);
        }
        match self.fragment.take() {
            Some((size, data)) => {
                if body.len() > size - data.len() {
                    self.fragment = Some((size, data));
                    return Err(TransportError::FragmentOverrun);
                }
                let ghost before = data@;
                let mut data = data;
                data.extend_from_slice(body);
                proof {
                    assert(data@ =~= before + body@);
                    assert(self@ == model::SessionState { fragment: None, ..old(self)@ });
                    assert(self@.assembled(size, data@) == old(self)@.assembled(size, data@));
                }
                self.assemble(size, data)
            },
            None => {
                if body.len() < 4 {
                    return Err(TransportError::FragmentLength);
                }
                let size: usize = bytes::read_be32(body, 0) as usize;
                if size < 2 || size > MAX_APPLICATION || body.len() - 4 > size {
                    return Err(TransportError::FragmentSize);
                }
                let data = &body[4..body.len()];
                assert(data@ =~= body@.skip(4));
                self.assemble(size, vstd::slice::slice_to_vec(data))
            },
        }
    }

    /// Keep fragment data, or deliver it once complete.
    fn assemble(&mut self, size: usize, data: Vec<u8>) -> (r: Result<(), TransportError>)
        requires
            old(self)@.fragment is None,
            old(self).wf(),
            2 <= size <= MAX_APPLICATION,
            data@.len() <= size,
        ensures
            final(self).wf(),
            old(self)@.assembled(size, data@) == (final(self)@, model::failure(r)),
    {
        if data.len() == size {
            assert(self@ == model::SessionState { fragment: None, ..old(self)@ });
            return self.application(&data, 0);
        }
        self.fragment = Some((size, data));
        Ok(())
    }

    /// Take every held frame whose turn has come.
    fn drain(&mut self) -> (r: Result<(), TransportError>)
        requires
            old(self).wf(),
        ensures
            final(self).wf(),
            old(self)@.drained() == (final(self)@, model::failure(r)),
    {
        broadcast use vstd::std_specs::hash::group_hash_axioms;

        while self.reorder.contains_key(&self.next_receive)
            invariant
                self.wf(),
                old(self)@.drained() == self@.drained(),
            decreases self@.reorder.dom().len(),
        {
            let ghost before = self@;
            let at = self.next_receive;
            if let Some((opcode, body)) = self.reorder.remove(&at) {
                proof {
                    assert(self@.reorder =~= before.reorder.remove(at));
                    assert(before.reorder[at] == (opcode, body@));
                    assert(self@ == model::SessionState {
                        reorder: before.reorder.remove(at),
                        ..before
                    });
                }
                self.ordered(opcode, &body)?;
                self.next_receive = self.next_receive.wrapping_add(1);
            }
        }
        Ok(())
    }

    /// Take a numbered frame.
    fn sequenced(&mut self, opcode: u16, body: &[u8]) -> (r: Result<(), TransportError>)
        requires
            old(self).wf(),
        ensures
            final(self).wf(),
            old(self)@.sequenced(opcode, body@) == (final(self)@, model::failure(r)),
    {
        broadcast use vstd::std_specs::hash::group_hash_axioms;

        if body.len() < 2 {
            return Err(TransportError::SequenceMissing);
        }
        let sequence = bytes::read_be16(body, 0);
        let distance: u16 = sequence.wrapping_sub(self.next_receive);
        if distance >= 32768 {
            self.ack_pending = true;
            return Ok(());
        }
        if distance >= WINDOW {
            return Err(TransportError::IncomingWindow);
        }
        let rest = &body[2..body.len()];
        assert(rest@ =~= body@.skip(2));
        if !self.reorder.contains_key(&sequence) {
            let part = vstd::slice::slice_to_vec(rest);
            self.reorder.insert(sequence, (opcode, part));
            assert(self@.reorder =~= old(self)@.reorder.insert(sequence, (opcode, rest@)));
        }
        self.drain()?;
        if distance > 0 {
            let mut seen: Vec<u8> = Vec::new();
            bytes::push_be16(&mut seen, sequence);
            assert(seen@ =~= bytes::be16(sequence));
            self.control(0x11, &seen);
        }
        self.ack_pending = true;
        Ok(())
    }

    /// Retire the frame that a cumulative acknowledgment names and all before it.
    fn acknowledge(&mut self, ack: u16)
        requires
            old(self).wf(),
        ensures
            final(self).wf(),
            final(self)@ == old(self)@.acknowledged(ack),
    {
        let ghost all = self@.pending;
        let mut i: usize = 0;
        assert(all.skip(0) =~= all);
        while i < self.pending.len()
            invariant
                self.wf(),
                self@ == old(self)@,
                all == self@.pending,
                i <= self.pending@.len(),
                all.len() == self.pending@.len(),
                forall|j: int| 0 <= j < i ==> #[trigger] all[j].sequence != ack,
                model::after_ack(all, ack) == model::after_ack(all.skip(i as int), ack),
            decreases self.pending@.len() - i,
        {
            assert(all.skip(i as int)[0] == model::pending_state(self.pending@[i as int]));
            assert(all.skip(i as int).skip(1) =~= all.skip(i + 1));
            if self.pending[i].sequence == ack {
                assert(all[i as int].sequence == ack);
                let rest = self.pending.split_off(i + 1);
                self.pending = rest;
                assert(self@.pending =~= all.skip(i + 1));
                return;
            }
            i = i + 1;
        }
    }

    /// Send again every pending frame that the server has seen later frames of.
    fn resend(&mut self, seen: u16, now: u64)
        requires
            old(self).wf(),
        ensures
            final(self).wf(),
            final(self)@ == old(self)@.resent(old(self)@.pending.len(), seen, now),
    {
        let mut i: usize = 0;
        while i < self.pending.len()
            invariant
                self.wf(),
                i <= self.pending@.len(),
                self.pending@.len() == old(self).pending@.len(),
                self@ == old(self)@.resent(i as nat, seen, now),
            decreases self.pending@.len() - i,
        {
            let ghost before = self@;
            let sequence: u16 = self.pending[i].sequence;
            if seen.wrapping_sub(sequence) < WINDOW {
                let ghost p = before.pending[i as int];
                let packet = self.pending[i].packet.clone();
                self.pending[i].sent = now;
                assert(self@.pending =~= before.pending.update(
                    i as int,
                    model::PendingState { sent: now, ..p },
                ));
                self.emit(packet);
            }
            i = i + 1;
        }
    }

    /// Take the reply to our statistics request.
    fn measure(&mut self, token: u16, now: u64)
        requires
            old(self).wf(),
        ensures
            final(self).wf(),
            final(self)@ == old(self)@.measured(token, now),
    {
        if let Some((expected, sent)) = self.stats_request {
            if token == expected {
                let rtt = millis(since(now, sent));
                self.rtt = rtt;
                if self.rtt_count == 0 || rtt < self.rtt_min {
                    self.rtt_min = rtt;
                }
                if rtt > self.rtt_max {
                    self.rtt_max = rtt;
                }
                self.rtt_sum = self.rtt_sum.wrapping_add(rtt as u64);
                self.rtt_count = self.rtt_count.wrapping_add(1);
                self.stats_request = None;
            }
        }
    }

    /// Answer a statistics request of the server.
    fn reply_statistics(&mut self, request: &[u8], now: u64)
        requires
            old(self).wf(),
            request@.len() == 38,
        ensures
            final(self).wf(),
            final(self)@ == old(self)@.control(8, old(self)@.statistics_reply(request@, now)),
    {
        let mut reply: Vec<u8> = Vec::new();
        reply.extend_from_slice(&request[0..2]);
        bytes::push_be32(&mut reply, millis(since(now, self.started)));
        reply.extend_from_slice(&request[22..38]);
        bytes::push_be64(&mut reply, self.sent_count);
        bytes::push_be64(&mut reply, self.received_count);
        assert(request@.subrange(0, 2) =~= request@.take(2));
        assert(reply@ =~= self@.statistics_reply(request@, now));
        self.control(8, &reply);
    }

    /// Take a transport packet other than a combined one.
    fn controlled(&mut self, opcode: u16, body: &[u8], depth: usize, now: u64) -> (r: Result<
        (),
        TransportError,
    >)
        requires
            old(self).wf(),
            depth < 8,
        ensures
            final(self).wf(),
            old(self)@.controlled(opcode, body@, depth as nat, now) == (
                final(self)@,
                model::failure(r),
            ),
    {
        if opcode == 0x19 {
            match split_combined(body) {
                Ok(parts) => {
                    return self.application_all(&parts, depth + 1);
                },
                Err(e) => {
                    return Err(e);
                },
            }
        } else if opcode == 9 || opcode == 13 {
            return self.sequenced(opcode, body);
        } else if opcode == 0x15 {
            if body.len() != 2 {
                return Err(TransportError::CumulativeAck);
            }
            self.acknowledge(bytes::read_be16(body, 0));
        } else if opcode == 0x11 {
            if body.len() != 2 {
                return Err(TransportError::OutOfOrderAck);
            }
            self.resend(bytes::read_be16(body, 0), now);
        } else if opcode == 5 {
            self.closed = true;
        } else if opcode == 8 {
            if body.len() != 38 {
                return Err(TransportError::StatisticsResponse);
            }
            self.measure(bytes::read_be16(body, 0), now);
        } else if opcode == 7 {
            if body.len() != 38 {
                return Err(TransportError::StatisticsRequest);
            }
            self.reply_statistics(body, now);
        }
        Ok(())
    }

    /// Take one packet whose checksum was right and has been removed.
    pub fn process(&mut self, packet: &[u8], nested: bool, depth: usize, now: u64) -> (r: Result<
        (),
        TransportError,
    >)
        requires
            old(self).wf(),
        ensures
            final(self).wf(),
            old(self)@.processed(packet@, nested, depth as nat, now) == (
                final(self)@,
                model::failure(r),
            ),
        decreases model::levels(depth as nat), 0nat,
    {
        if depth >= 8 || packet.len() < 2 {
            return Err(TransportError::NestedTransport);
        }
        match self.unwrap(packet, nested) {
            Err(e) => Err(e),
            Ok(Unwrapped::Raw(data)) => self.application(&data, depth + 1),
            Ok(Unwrapped::Control(opcode, body)) => {
                if opcode == 3 {
                    match split_combined(&body) {
                        Ok(parts) => self.process_all(&parts, depth + 1, now),
                        Err(e) => Err(e),
                    }
                } else {
                    self.controlled(opcode, &body, depth, now)
                }
            },
        }
    }

    /// Take the parts of a combined packet, up to the first error.
    fn process_all(&mut self, parts: &Vec<&[u8]>, depth: usize, now: u64) -> (r: Result<
        (),
        TransportError,
    >)
        requires
            old(self).wf(),
        ensures
            final(self).wf(),
            old(self)@.processed_all(model::slices(parts@), depth as nat, now) == (
                final(self)@,
                model::failure(r),
            ),
        decreases model::levels(depth as nat), 1nat,
    {
        let ghost all = model::slices(parts@);
        let mut i: usize = 0;
        assert(all.skip(0) =~= all);
        while i < parts.len()
            invariant
                self.wf(),
                i <= parts@.len(),
                all == model::slices(parts@),
                old(self)@.processed_all(all, depth as nat, now) == self@.processed_all(
                    all.skip(i as int),
                    depth as nat,
                    now,
                ),
            decreases parts@.len() - i,
        {
            assert(all.skip(i as int)[0] == parts@[i as int]@);
            assert(all.skip(i as int).skip(1) =~= all.skip(i + 1));
            self.process(parts[i], true, depth, now)?;
            i = i + 1;
        }
        Ok(())
    }

    /// Number a frame and keep it until it is acknowledged.
    fn reliable(&mut self, opcode: u16, body: &[u8], now: u64) -> (r: Result<(), TransportError>)
        requires
            old(self).wf(),
        ensures
            final(self).wf(),
            old(self)@.reliable(opcode, body@, now) == (final(self)@, model::failure(r)),
            r is Ok && (opcode == 9 || opcode == 13) && body@.len() <= 65507
                ==> old(self)@.carries(
                final(self)@.outbox.last(),
                opcode,
                bytes::be16(old(self).next_send) + body@,
            ),
    {
        if self.pending.len() >= WINDOW as usize {
            return Err(TransportError::OutgoingWindow);
        }
        let sequence = self.next_send;
        let mut framed: Vec<u8> = Vec::new();
        bytes::push_be16(&mut framed, sequence);
        framed.extend_from_slice(body);
        assert(framed@ =~= bytes::be16(sequence) + body@);
        let packet = self.datagram(opcode, &framed);
        let wire = packet.clone();
        let kept = Pending { sequence, packet, sent: now, attempts: 1 };
        self.pending.push(kept);
        assert(self@.pending =~= old(self)@.pending.push(model::pending_state(kept)));
        self.next_send = sequence.wrapping_add(1);
        self.emit(wire);
        Ok(())
    }

    /// Send one reliable application packet, fragmenting it when necessary.
    pub fn send(&mut self, opcode: u16, body: &[u8], now: u64) -> (r: Result<(), TransportError>)
        requires
            old(self).wf(),
        ensures
            final(self).wf(),
            old(self)@.sending(opcode, body@, now) == (final(self)@, model::failure(r)),
            r is Ok ==> old(self)@.carried(
                final(self)@.outbox.skip(old(self)@.outbox.len() as int),
                model::frames(model::application_bytes(opcode, body@), old(self)@.capacity()),
            ),
    {
        if self.closed {
            return Err(TransportError::SessionClosed);
        }
        if body.len() > MAX_APPLICATION - 3 {
            return Err(TransportError::ApplicationTooLarge);
        }
        let mut application: Vec<u8> = Vec::new();
        if opcode % 256 == 0 {
            application.push(0);
        }
        bytes::push_le16(&mut application, opcode);
        application.extend_from_slice(body);
        assert(application@ =~= model::application_bytes(opcode, body@));
        let marker: usize = if self.compression {
            1
        } else {
            0
        };
        let capacity: usize = self.max_datagram - 4 - self.crc_bytes - marker;
        let parts = fragments(&application, capacity);
        self.reliable_all(&parts, now)
    }

    /// Number frames one after the other, up to the first error.
    fn reliable_all(&mut self, parts: &Vec<(u16, Vec<u8>)>, now: u64) -> (r: Result<
        (),
        TransportError,
    >)
        requires
            old(self).wf(),
            forall|j: int| 0 <= j < parts@.len() ==> (#[trigger] parts@[j]).1@.len() <= 65507,
            forall|j: int|
                0 <= j < parts@.len() ==> (#[trigger] parts@[j]).0 == 9 || parts@[j].0 == 13,
        ensures
            final(self).wf(),
            old(self)@.reliable_all(framed(parts@), now) == (final(self)@, model::failure(r)),
            r is Ok ==> old(self)@.carried(
                final(self)@.outbox.skip(old(self)@.outbox.len() as int),
                framed(parts@),
            ),
    {
        let ghost start = self@;
        let ghost all = framed(parts@);
        let ghost mut wires: Seq<Seq<u8>> = Seq::empty();
        let mut i: usize = 0;
        proof {
            assert(all.skip(0) =~= all);
            assert(self@.outbox =~= start.outbox + wires);
            reveal(model::counted);
        }
        while i < parts.len()
            invariant
                self.wf(),
                start == old(self)@,
                i <= parts@.len(),
                all == framed(parts@),
                forall|j: int| 0 <= j < parts@.len() ==> (#[trigger] parts@[j]).1@.len() <= 65507,
                forall|j: int|
                    0 <= j < parts@.len() ==> (#[trigger] parts@[j]).0 == 9 || parts@[j].0 == 13,
                same_link(self@, start),
                self@.next_send == model::counted(start.next_send, i as nat),
                start.reliable_all(all, now) == self@.reliable_all(all.skip(i as int), now),
                self@.outbox == start.outbox + wires,
                wires.len() == i,
                forall|j: int|
                    0 <= j < i ==> start.carries(
                        #[trigger] wires[j],
                        all[j].0,
                        bytes::be16(model::counted(start.next_send, j as nat)) + all[j].1,
                    ),
            decreases parts@.len() - i,
        {
            let ghost before = self@;
            proof {
                assert(all.skip(i as int)[0] == (parts@[i as int].0, parts@[i as int].1@));
                assert(all.skip(i as int).skip(1) =~= all.skip(i + 1));
            }
            self.reliable(parts[i].0, &parts[i].1, now)?;
            proof {
                let wire = self@.outbox.last();
                lemma_same_link(before, start, wire);
                assert(model::counted(start.next_send, (i + 1) as nat) == before.next_send.wrapping_add(
                    1,
                )) by {
                    reveal(model::counted);
                }
                assert(self@.outbox =~= start.outbox + wires.push(wire));
                wires = wires.push(wire);
            }
            i = i + 1;
        }
        proof {
            assert(all.skip(i as int).len() == 0);
            assert(self@.outbox.skip(start.outbox.len() as int) =~= wires);
        }
        Ok(())
    }

    /// Send an unsequenced application packet, used for position heartbeats. A
    /// receiver with the same parameters gets the packet back.
    pub fn send_unreliable(&mut self, opcode: u16, body: &[u8]) -> (r: Result<(), TransportError>)
        requires
            old(self).wf(),
        ensures
            final(self).wf(),
            old(self)@.sending_unreliable(opcode, body@) == (final(self)@, model::failure(r)),
            r is Ok && body@.len() + 1 < MAX_APPLICATION ==> old(self)@.carries_raw(
                final(self)@.outbox.last(),
                model::application_bytes(opcode, body@),
            ),
    {
        if opcode % 256 == 0 {
            return Err(TransportError::UnreliableOpcode);
        }
        let mut packet: Vec<u8> = Vec::new();
        packet.push((opcode % 256) as u8);
        let mut rest: Vec<u8> = Vec::new();
        rest.push((opcode / 256) as u8);
        rest.extend_from_slice(body);
        assert(rest@ =~= seq![(opcode / 256) as u8] + body@);
        if self.compression {
            packet.push(0x5a);
            packet.extend_from_slice(&outside::deflate(&rest, 6));
        } else {
            packet.extend_from_slice(&rest);
        }
        assert(packet@ =~= seq![(opcode % 256) as u8] + if self.compression {
            seq![0x5au8] + outside::deflated(rest@, 6)
        } else {
            rest@
        });
        let ghost plain = packet@;
        let wire = self.seal(packet);
        if wire.len() > self.max_datagram {
            return Err(TransportError::UnreliableSize);
        }
        proof {
            let end = wire@.len() - self.crc_bytes;
            assert(wire@.take(end) =~= plain);
            assert(wire@.skip(end) =~= self@.crc_suffix(plain));
            let application = model::application_bytes(opcode, body@);
            if self.compression {
                assert(plain.skip(2) =~= outside::deflated(rest@, 6));
            }
            assert(seq![plain[0]] + rest@ =~= application);
        }
        self.emit(wire);
        Ok(())
    }

    /// The next queued application packet.
    fn next_application(&mut self) -> (next: Option<Application>)
        requires
            old(self).wf(),
        ensures
            final(self).wf(),
            match next {
                Some(a) => {
                    &&& old(self)@.applications.len() > 0
                    &&& model::app(a) == old(self)@.applications[0]
                    &&& final(self)@ == (model::SessionState {
                        applications: old(self)@.applications.skip(1),
                        ..old(self)@
                    })
                },
                None => old(self)@.applications.len() == 0 && final(self)@ == old(self)@,
            },
    {
        let next = self.applications.pop_front();
        assert(next is Some ==> self@.applications =~= old(self)@.applications.skip(1));
        next
    }

    /// Send again every pending frame that has waited a second.
    fn retransmit(&mut self, now: u64) -> (r: Result<(), TransportError>)
        requires
            old(self).wf(),
        ensures
            final(self).wf(),
            old(self)@.retransmitted(old(self)@.pending.len(), now) == (
                final(self)@,
                model::failure(r),
            ),
    {
        let ghost all = self@.pending.len();
        let mut i: usize = 0;
        while i < self.pending.len()
            invariant
                self.wf(),
                i <= self.pending@.len(),
                self.pending@.len() == all,
                all == old(self)@.pending.len(),
                old(self)@.retransmitted(i as nat, now) == (self@, None::<TransportError>),
            decreases self.pending@.len() - i,
        {
            let ghost before = self@;
            let ghost p = before.pending[i as int];
            let sent: u64 = self.pending[i].sent;
            if since(now, sent) >= 1_000_000_000 {
                let attempts: u8 = self.pending[i].attempts;
                if attempts >= 15 {
                    proof {
                        lemma_retransmission_stops(old(self)@, (i + 1) as nat, all, now);
                    }
                    return Err(TransportError::Unacknowledged);
                }
                let packet = self.pending[i].packet.clone();
                self.pending[i].sent = now;
                self.pending[i].attempts = attempts + 1;
                assert(self@.pending =~= before.pending.update(
                    i as int,
                    model::PendingState { sent: now, attempts: (attempts + 1) as u8, ..p },
                ));
                self.emit(packet);
            }
            i = i + 1;
        }
        Ok(())
    }

    /// Acknowledge what has arrived, where that is due.
    fn acknowledge_due(&mut self, now: u64)
        requires
            old(self).wf(),
        ensures
            final(self).wf(),
            final(self)@ == old(self)@.acknowledging(now),
    {
        if self.ack_pending && since(now, self.last_ack) >= 100_000_000 {
            let mut last: Vec<u8> = Vec::new();
            bytes::push_be16(&mut last, self.next_receive.wrapping_sub(1));
            assert(last@ =~= bytes::be16(self.next_receive.wrapping_sub(1)));
            self.control(0x15, &last);
            self.ack_pending = false;
            self.last_ack = now;
        }
    }

    /// Ask for statistics, where that is due.
    fn report_due(&mut self, now: u64)
        requires
            old(self).wf(),
        ensures
            final(self).wf(),
            final(self)@ == old(self)@.reporting(now),
    {
        if now >= self.next_stats {
            let token: u16 = ((since(now, self.started) / 1_000_000) % 65536) as u16;
            let average: u32 = if self.rtt_count == 0 {
                0
            } else {
                let mean: u64 = self.rtt_sum / self.rtt_count;
                if mean <= 0xffff_ffff {
                    mean as u32
                } else {
                    u32::MAX
                }
            };
            let mut stats: Vec<u8> = Vec::new();
            bytes::push_be16(&mut stats, token);
            bytes::push_be32(&mut stats, self.rtt);
            bytes::push_be32(&mut stats, average);
            bytes::push_be32(&mut stats, self.rtt_min);
            bytes::push_be32(&mut stats, self.rtt_max);
            bytes::push_be32(&mut stats, self.rtt);
            bytes::push_be64(&mut stats, self.sent_count);
            bytes::push_be64(&mut stats, self.received_count);
            assert(stats@ =~= self@.statistics(token));
            self.control(7, &stats);
            self.stats_request = Some((token, now));
            self.next_stats = later(now, 30_000_000_000);
        }
    }

    /// Drive retransmits and acknowledgments before the next datagram is read.
    ///
    /// A queued application packet is returned at once; without one, the host
    /// reads the socket and hands what it got to `receive`.
    pub fn poll(&mut self, now: u64) -> (r: Result<Option<Application>, TransportError>)
        requires
            old(self).wf(),
        ensures
            final(self).wf(),
            old(self)@.polled(now) == (final(self)@, model::outcome(r)),
    {
        self.acknowledge_due(now);
        if let Some(application) = self.next_application() {
            return Ok(Some(application));
        }
        if self.closed {
            return Err(TransportError::ServerClosed);
        }
        self.retransmit(now)?;
        if since(now, self.last_receive) >= 60_000_000_000 {
            return Err(TransportError::Silent);
        }
        self.report_due(now);
        Ok(None)
    }

    /// Check the header and the checksum of a datagram.
    fn checked<'a>(&self, wire: &'a [u8]) -> (packet: Option<&'a [u8]>)
        requires
            self.wf(),
        ensures
            self@.opened(wire@) == (match packet {
                Some(p) => Some(p@),
                None => None,
            }),
    {
        if wire.len() < 2 + self.crc_bytes || (wire[0] == 0 && wire[1] == 2) {
            return None;
        }
        let end: usize = wire.len() - self.crc_bytes;
        let packet: &'a [u8] = &wire[0..end];
        assert(packet@ =~= wire@.take(end as int));
        let mut expected: Vec<u8> = Vec::new();
        bytes::push_be32(&mut expected, checksum(self.crc_seed, packet));
        let suffix = &expected[4 - self.crc_bytes..4];
        let found = &wire[end..wire.len()];
        assert(suffix@ =~= self@.crc_suffix(packet@));
        assert(found@ =~= wire@.skip(end as int));
        if bytes::same_bytes(found, suffix) {
            Some(packet)
        } else {
            None
        }
    }

    /// Take a datagram from the server, returning the next full packet.
    pub fn receive(&mut self, wire: &[u8], now: u64) -> (r: Result<
        Option<Application>,
        TransportError,
    >)
        requires
            old(self).wf(),
        ensures
            final(self).wf(),
            old(self)@.received(wire@, now) == (final(self)@, model::outcome(r)),
    {
        self.received_count = self.received_count.wrapping_add(1);
        match self.checked(wire) {
            None => Ok(None),
            Some(packet) => {
                self.last_receive = now;
                self.process(packet, false, 0, now)?;
                Ok(self.next_application())
            },
        }
    }

    /// Send the session disconnect control packet once.
    pub fn close(&mut self)
        requires
            old(self).wf(),
        ensures
            final(self).wf(),
            final(self)@ == old(self)@.closing(),
    {
        if !self.closed {
            let mut id: Vec<u8> = Vec::new();
            bytes::push_be32(&mut id, self.id);
            assert(id@ =~= bytes::be32(self.id));
            self.control(5, &id);
            self.closed = true;
        }
    }

    /// Whole seconds since the last valid server datagram.
    pub fn last_received_seconds(&self, now: u64) -> (seconds: u64)
        ensures
            seconds == model::elapsed(now, self@.last_receive) / 1_000_000_000,
    {
        since(now, self.last_receive) / 1_000_000_000
    }

    /// The datagrams due on the wire, in order.
    pub fn take_outbox(&mut self) -> (due: Vec<Vec<u8>>)
        requires
            old(self).wf(),
        ensures
            final(self).wf(),
            model::datagrams(due@) == old(self)@.outbox,
            final(self)@ == (model::SessionState { outbox: Seq::empty(), ..old(self)@ }),
    {
        let mut due: Vec<Vec<u8>> = Vec::new();
        std::mem::swap(&mut due, &mut self.outbox);
        assert(self@.outbox =~= Seq::empty());
        due
    }
}

/// A session negotiation in progress.
#[derive(Debug)]
pub struct Handshake {
    pub id: u32,
    pub deadline: u64,
    pub last_send: Option<u64>,
}

impl Handshake {
    /// Start a negotiation under an id of the caller's choosing.
    pub fn with_id(id: u32, now: u64) -> (handshake: Self)
        ensures
            handshake == (Handshake {
                id,
                deadline: model::after(now, 15_000_000_000),
                last_send: None,
            }),
    {
        Handshake { id, deadline: later(now, 15_000_000_000), last_send: None }
    }

    /// Start a negotiation under a random id.
    pub fn new(now: u64) -> (handshake: Self)
        ensures
            handshake.deadline == model::after(now, 15_000_000_000),
            handshake.last_send is None,
    {
        Self::with_id(outside::random_u32(), now)
    }

    /// Whether the request is due: at first, and then once a second.
    pub open spec fn due(self, now: u64) -> bool {
        match self.last_send {
            Some(sent) => model::elapsed(now, sent) >= 1_000_000_000,
            None => true,
        }
    }

    /// The request to send before the socket is read again, if it is due.
    pub fn poll(&mut self, cancelled: bool, now: u64) -> (r: Result<
        Option<Vec<u8>>,
        TransportError,
    >)
        ensures
            final(self).id == old(self).id,
            final(self).deadline == old(self).deadline,
            match r {
                Err(TransportError::Cancelled) => cancelled,
                Err(e) => {
                    !cancelled && now >= old(self).deadline && e
                        == TransportError::NegotiationTimeout
                },
                Ok(Some(wire)) => {
                    &&& !cancelled && now < old(self).deadline && old(self).due(now)
                    &&& wire@ == model::request(old(self).id)
                    &&& final(self).last_send == Some(now)
                },
                Ok(None) => !cancelled && now < old(self).deadline && !old(self).due(now),
            },
            !(r matches Ok(Some(_))) ==> *final(self) == *old(self),
    {
        if cancelled {
            return Err(TransportError::Cancelled);
        }
        if now >= self.deadline {
            return Err(TransportError::NegotiationTimeout);
        }
        let due = match self.last_send {
            Some(sent) => since(now, sent) >= 1_000_000_000,
            None => true,
        };
        if !due {
            return Ok(None);
        }
        let mut wire: Vec<u8> = Vec::new();
        wire.push(0);
        wire.push(1);
        bytes::push_be32(&mut wire, 2);
        bytes::push_be32(&mut wire, self.id);
        bytes::push_be32(&mut wire, 512);
        assert(wire@ =~= model::request(self.id));
        self.last_send = Some(now);
        Ok(Some(wire))
    }

    /// Take a datagram that arrived during the negotiation. One that is not an
    /// answer to it is passed over.
    pub fn receive(&self, wire: &[u8], echo_response: bool, now: u64) -> (r: Result<
        Option<Session>,
        TransportError,
    >)
        ensures
            match r {
                Ok(None) => !model::answers(wire@, self.id),
                Ok(Some(session)) => {
                    &&& model::answers(wire@, self.id)
                    &&& model::negotiated(self.id, wire@, echo_response, now) == Ok::<
                        _,
                        TransportError,
                    >(session@)
                    &&& session.wf()
                },
                Err(e) => {
                    &&& model::answers(wire@, self.id)
                    &&& model::negotiated(self.id, wire@, echo_response, now) == Err::<
                        model::SessionState,
                        _,
                    >(e)
                },
            },
    {
        if wire.len() < 17 || wire[0] != 0 || wire[1] != 2 || bytes::read_be32(wire, 2) != self.id {
            return Ok(None);
        }
        match Session::connect(self.id, wire, echo_response, now) {
            Ok(session) => Ok(Some(session)),
            Err(e) => Err(e),
        }
    }
}

/// Frames by their opcode and bytes.
spec fn framed(parts: Seq<(u16, Vec<u8>)>) -> Seq<(u16, Seq<u8>)> {
    parts.map_values(|part: (u16, Vec<u8>)| (part.0, part.1@))
}

/// Cut an application into the frames that carry it.
fn fragments(application: &[u8], capacity: usize) -> (parts: Vec<(u16, Vec<u8>)>)
    requires
        4 < capacity <= 65507,
        application@.len() <= MAX_APPLICATION,
    ensures
        framed(parts@) == model::frames(application@, capacity as nat),
        forall|j: int| 0 <= j < parts@.len() ==> (#[trigger] parts@[j]).1@.len() <= capacity,
        forall|j: int| 0 <= j < parts@.len() ==> (#[trigger] parts@[j]).0 == 9 || parts@[j].0 == 13,
{
    let mut parts: Vec<(u16, Vec<u8>)> = Vec::new();
    if application.len() <= capacity {
        parts.push((9, vstd::slice::slice_to_vec(application)));
        assert(framed(parts@) =~= model::frames(application@, capacity as nat));
        return parts;
    }
    let mut first: Vec<u8> = Vec::new();
    bytes::push_be32(&mut first, application.len() as u32);
    first.extend_from_slice(&application[0..capacity - 4]);
    assert(application@.subrange(0, capacity - 4) =~= application@.take(capacity - 4));
    assert(first@ =~= bytes::be32(application@.len() as u32) + application@.take(capacity - 4));
    parts.push((13, first));
    let ghost all = model::frames(application@, capacity as nat);
    let ghost pieces = model::chunks(application@.skip(capacity - 4), capacity as nat);
    let mut at: usize = capacity - 4;
    proof {
        assert(all =~= seq![(13u16, first@)] + pieces.map_values(|part: Seq<u8>| (13u16, part)));
        assert(pieces.skip(0) =~= pieces);
        assert(framed(parts@) =~= all.take(1));
    }
    while at < application.len()
        invariant
            0 < capacity <= 65507,
            at <= application@.len(),
            application@.len() <= MAX_APPLICATION,
            1 <= parts@.len() <= all.len(),
            all.len() == 1 + pieces.len(),
            forall|j: int|
                0 <= j < pieces.len() ==> #[trigger] all[j + 1] == (13u16, pieces[j]),
            framed(parts@) == all.take(parts@.len() as int),
            pieces.skip(parts@.len() - 1) == model::chunks(
                application@.skip(at as int),
                capacity as nat,
            ),
            forall|j: int| 0 <= j < parts@.len() ==> (#[trigger] parts@[j]).1@.len() <= capacity,
            forall|j: int|
                0 <= j < parts@.len() ==> (#[trigger] parts@[j]).0 == 9 || parts@[j].0 == 13,
        decreases application@.len() - at,
    {
        let end: usize = if application.len() - at <= capacity {
            application.len()
        } else {
            at + capacity
        };
        let part = &application[at..end];
        let ghost done = parts@.len();
        parts.push((13, vstd::slice::slice_to_vec(part)));
        proof {
            let rest = application@.skip(at as int);
            let left = pieces.skip(done - 1);
            if rest.len() <= capacity {
                assert(part@ =~= rest);
                assert(left.skip(1) =~= Seq::empty());
                assert(application@.skip(end as int) =~= Seq::empty());
            } else {
                assert(part@ =~= rest.take(capacity as int));
                assert(rest.skip(capacity as int) =~= application@.skip(end as int));
                assert(left.skip(1) =~= model::chunks(
                    application@.skip(end as int),
                    capacity as nat,
                ));
            }
            assert(left[0] == part@);
            assert(pieces[done - 1] == left[0]);
            assert(all[done - 1 + 1] == (13u16, part@));
            assert(pieces.skip(done as int) =~= left.skip(1));
            assert(framed(parts@) =~= all.take(done as int + 1));
        }
        at = end;
    }
    proof {
        assert(pieces.skip(parts@.len() - 1).len() == 0);
        assert(all.take(parts@.len() as int) =~= all);
    }
    parts
}

/// Whether two sessions read datagrams alike.
spec fn same_link(a: model::SessionState, b: model::SessionState) -> bool {
    a.crc_seed == b.crc_seed && a.crc_bytes == b.crc_bytes && a.compression == b.compression
}

proof fn lemma_same_link(a: model::SessionState, b: model::SessionState, wire: Seq<u8>)
    requires
        same_link(a, b),
    ensures
        forall|opcode: u16, body: Seq<u8>| #[trigger]
            a.carries(wire, opcode, body) == b.carries(wire, opcode, body),
{
    reveal(model::SessionState::carries);
    assert(a.opened(wire) == b.opened(wire));
    if a.opened(wire) is Some {
        let packet = a.opened(wire)->0;
        assert(a.unwrapped(packet, false) == b.unwrapped(packet, false));
    }
}

/// A frame that is given up stops the retransmission of all later ones.
proof fn lemma_retransmission_stops(s: model::SessionState, n: nat, m: nat, now: u64)
    requires
        n <= m,
        s.retransmitted(n, now).1 is Some,
    ensures
        s.retransmitted(m, now) == s.retransmitted(n, now),
    decreases m,
{
    if n < m {
        lemma_retransmission_stops(s, n, (m - 1) as nat, now);
    }
}

} // verus!

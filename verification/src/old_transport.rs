//! Reliable UDP framing used by the 2001-era EQMac/TAKP client.

use crate::bytes;
use crate::outside;
use crate::transport::{self, Application, MAX_APPLICATION};
use std::collections::{HashMap, VecDeque};
use vstd::prelude::*;

pub mod laws;
pub mod layout;
pub mod model;
pub mod upkeep;

verus! {

/// Most fragments that one application can have.
pub const MAX_FRAGMENTS: usize = 32_769;

/// Fragmented applications that may be in progress at once.
pub const MAX_FRAGMENT_GROUPS: usize = 16;

/// Packets that may be outstanding in either direction.
pub const WINDOW: usize = 2048;

/// Why a legacy stream cannot go on.
#[derive(Clone, Copy, Debug, PartialEq, Eq, Structural)]
pub enum LegacyError {
    SessionClosed,
    ApplicationTooLarge,
    OutgoingWindow,
    ServerClosed,
    Unacknowledged,
    Silent,
    IncomingWindow,
    FragmentIndexes,
    FragmentTotal,
    FragmentGroups,
    FragmentChanged,
    Reassembled,
    Truncated,
    Crc,
    SelectiveAck,
    Asq,
    Header,
    Cancelled,
}

impl LegacyError {
    /// The wording of each error.
    pub open spec fn text(self) -> Seq<char> {
        match self {
            LegacyError::SessionClosed => "session is closed"@,
            LegacyError::ApplicationTooLarge => "application too large"@,
            LegacyError::OutgoingWindow => "outgoing reliable window full"@,
            LegacyError::ServerClosed => "server closed session"@,
            LegacyError::Unacknowledged => "server did not acknowledge a packet"@,
            LegacyError::Silent => "server stopped responding"@,
            LegacyError::IncomingWindow => "incoming reliable window exceeded"@,
            LegacyError::FragmentIndexes => "invalid fragment indexes"@,
            LegacyError::FragmentTotal => "fragment count exceeds application limit"@,
            LegacyError::FragmentGroups => "too many fragment groups"@,
            LegacyError::FragmentChanged => "fragment count changed"@,
            LegacyError::Reassembled => "reassembled application too large"@,
            LegacyError::Truncated => "truncated legacy datagram"@,
            LegacyError::Crc => "invalid legacy CRC"@,
            LegacyError::SelectiveAck => "truncated selective ACK"@,
            LegacyError::Asq => "truncated ASQ"@,
            LegacyError::Header => "truncated legacy header"@,
            LegacyError::Cancelled => "shutdown requested"@,
        }
    }

    /// Describe the error to a user.
    pub fn message(&self) -> (text: &'static str)
        ensures
            text@ == self.text(),
    {
        match self {
            LegacyError::SessionClosed => "session is closed",
            LegacyError::ApplicationTooLarge => "application too large",
            LegacyError::OutgoingWindow => "outgoing reliable window full",
            LegacyError::ServerClosed => "server closed session",
            LegacyError::Unacknowledged => "server did not acknowledge a packet",
            LegacyError::Silent => "server stopped responding",
            LegacyError::IncomingWindow => "incoming reliable window exceeded",
            LegacyError::FragmentIndexes => "invalid fragment indexes",
            LegacyError::FragmentTotal => "fragment count exceeds application limit",
            LegacyError::FragmentGroups => "too many fragment groups",
            LegacyError::FragmentChanged => "fragment count changed",
            LegacyError::Reassembled => "reassembled application too large",
            LegacyError::Truncated => "truncated legacy datagram",
            LegacyError::Crc => "invalid legacy CRC",
            LegacyError::SelectiveAck => "truncated selective ACK",
            LegacyError::Asq => "truncated ASQ",
            LegacyError::Header => "truncated legacy header",
            LegacyError::Cancelled => "shutdown requested",
        }
    }
}

/// A reliable packet waiting for its acknowledgment.
#[derive(Debug)]
pub struct OldPending {
    pub arq: u16,
    pub wire: Vec<u8>,
    pub sent: u64,
    pub attempts: u8,
}

/// The parts of a fragmented application that have arrived.
#[derive(Debug)]
pub struct Fragment {
    pub opcode: Option<u16>,
    pub parts: Vec<Option<Vec<u8>>>,
}

/// The fields of one datagram.
#[derive(Debug)]
pub struct Decoded {
    pub header_a: u8,
    pub arsp: Option<u16>,
    pub resend_before: Option<u16>,
    pub selective_ack: Vec<u8>,
    pub arq: Option<u16>,
    pub fragment: Option<(u16, u16, u16)>,
    pub opcode: Option<u16>,
    pub body: Vec<u8>,
}

/// One legacy EQ UDP stream. Unlike the later Daybreak stream, it begins with
/// an application packet and has no separate session negotiation datagram.
///
/// Datagrams due on the wire collect in `outbox`, in order.
#[derive(Debug)]
pub struct OldSession {
    pub next_sequence: u16,
    pub next_arq: u16,
    pub next_asq: u8,
    pub next_fragment: u16,
    pub sent_start: bool,
    pub last_received_arq: Option<u16>,
    pub ack_pending: bool,
    pub last_ack: u64,
    pub reorder: HashMap<u16, Decoded>,
    pub pending: Vec<OldPending>,
    pub fragments: HashMap<u16, Fragment>,
    pub applications: VecDeque<Application>,
    pub last_receive: u64,
    pub closed: bool,
    pub outbox: Vec<Vec<u8>>,
}

impl View for OldSession {
    type V = model::OldState;

    open spec fn view(&self) -> model::OldState {
        model::OldState {
            next_sequence: self.next_sequence,
            next_arq: self.next_arq,
            next_asq: self.next_asq,
            next_fragment: self.next_fragment,
            sent_start: self.sent_start,
            last_received_arq: self.last_received_arq,
            ack_pending: self.ack_pending,
            last_ack: self.last_ack,
            reorder: model::held(self.reorder@),
            pending: model::pending_states(self.pending@),
            fragments: model::groups(self.fragments@),
            applications: transport::model::apps(self.applications@),
            last_receive: self.last_receive,
            closed: self.closed,
            outbox: transport::model::datagrams(self.outbox@),
        }
    }
}

/// A word of a header, where it is present at all.
fn take_word(payload: &[u8], at: usize, present: bool) -> (r: Result<Option<u16>, LegacyError>)
    requires
        at <= payload@.len(),
    ensures
        r == model::word(payload@, at as int, present),
{
    if !present {
        return Ok(None);
    }
    if payload.len() - at < 2 {
        return Err(LegacyError::Header);
    }
    Ok(Some(bytes::read_be16(payload, at)))
}

/// Read the acknowledgment fields.
fn take_ack_fields(payload: &[u8]) -> (r: Result<
    (Option<u16>, Option<u16>, Vec<u8>, usize),
    LegacyError,
>)
    requires
        6 <= payload@.len(),
    ensures
        model::ack_fields(payload@) == (match r {
            Ok((arsp, resend, bits, end)) => Ok((arsp, resend, bits@, end as int)),
            Err(e) => Err(e),
        }),
        r matches Ok((_, _, _, end)) ==> end <= payload@.len(),
{
    let b: u8 = payload[1];
    let has_arsp = (b / 4) % 2 == 1;
    let has_resend = (b / 8) % 2 == 1;
    let arsp = match take_word(payload, 4, has_arsp) {
        Ok(word) => word,
        Err(e) => {
            return Err(e);
        },
    };
    let at_resend: usize = if has_arsp {
        6
    } else {
        4
    };
    let resend = match take_word(payload, at_resend, has_resend) {
        Ok(word) => word,
        Err(e) => {
            return Err(e);
        },
    };
    let at_selective: usize = if has_resend {
        at_resend + 2
    } else {
        at_resend
    };
    let length: usize = (b / 16) as usize;
    if payload.len() - at_selective < length {
        return Err(LegacyError::SelectiveAck);
    }
    let end: usize = at_selective + length;
    let bits = vstd::slice::slice_to_vec(&payload[at_selective..end]);
    Ok((arsp, resend, bits, end))
}

/// Read the fields of the reliable stream.
fn take_stream_fields(payload: &[u8], at: usize) -> (r: Result<
    (Option<u16>, Option<(u16, u16, u16)>, usize),
    LegacyError,
>)
    requires
        6 <= payload@.len(),
        at <= payload@.len(),
    ensures
        model::stream_fields(payload@, at as int) == (match r {
            Ok((arq, fragment, end)) => Ok((arq, fragment, end as int)),
            Err(e) => Err(e),
        }),
        r matches Ok((_, _, end)) ==> end <= payload@.len(),
{
    let a: u8 = payload[0];
    let has_arq = (a / 2) % 2 == 1;
    let has_fragment = (a / 8) % 2 == 1;
    let has_asq = (a / 16) % 2 == 1;
    let arq = match take_word(payload, at, has_arq) {
        Ok(word) => word,
        Err(e) => {
            return Err(e);
        },
    };
    let at_fragment: usize = if has_arq {
        at + 2
    } else {
        at
    };
    let mut fragment: Option<(u16, u16, u16)> = None;
    let mut end: usize = at_fragment;
    if has_fragment {
        if payload.len() - at_fragment < 6 {
            return Err(LegacyError::Header);
        }
        fragment = Some(
            (
                bytes::read_be16(payload, at_fragment),
                bytes::read_be16(payload, at_fragment + 2),
                bytes::read_be16(payload, at_fragment + 4),
            ),
        );
        end = at_fragment + 6;
    }
    if has_asq {
        let size: usize = if has_arq {
            2
        } else {
            1
        };
        if payload.len() - end < size {
            return Err(LegacyError::Asq);
        }
        end = end + size;
    }
    Ok((arq, fragment, end))
}

/// Read the fields of a datagram whose checksum was right.
fn parse(payload: &[u8]) -> (r: Result<Decoded, LegacyError>)
    requires
        6 <= payload@.len(),
    ensures
        model::fields(payload@) == (match r {
            Ok(d) => Ok(model::decoded_state(d)),
            Err(e) => Err(e),
        }),
{
    let a: u8 = payload[0];
    let (arsp, resend_before, selective_ack, at) = match take_ack_fields(payload) {
        Ok(fields) => fields,
        Err(e) => {
            return Err(e);
        },
    };
    let (arq, fragment, end) = match take_stream_fields(payload, at) {
        Ok(fields) => fields,
        Err(e) => {
            return Err(e);
        },
    };
    let closes = (a / 4) % 2 == 1 && (a / 64) % 2 == 1;
    let first = match fragment {
        Some((_, current, _)) => current == 0,
        None => true,
    };
    let named = end < payload.len() && !closes && first;
    let opcode = match take_word(payload, end, named) {
        Ok(word) => word,
        Err(e) => {
            return Err(e);
        },
    };
    let at_body: usize = if named {
        end + 2
    } else {
        end
    };
    let rest = &payload[at_body..payload.len()];
    assert(rest@ =~= payload@.skip(at_body as int));
    let body = vstd::slice::slice_to_vec(rest);
    Ok(Decoded { header_a: a, arsp, resend_before, selective_ack, arq, fragment, opcode, body })
}

/// A changed byte spoils either the checksum or what it was computed from.
proof fn lemma_damage_is_noticed(wire: Seq<u8>, other: Seq<u8>)
    requires
        wire.len() >= 10,
        bytes::one_byte_apart(wire, other),
        outside::crc32_of(wire.take(wire.len() - 4)) == bytes::be32_at(wire, wire.len() - 4),
        bytes::one_byte_apart(wire.take(wire.len() - 4), other.take(wire.len() - 4))
            ==> outside::crc32_of(other.take(wire.len() - 4)) != outside::crc32_of(
            wire.take(wire.len() - 4),
        ),
    ensures
        model::decoded(other) == Err::<model::DecodedState, _>(LegacyError::Crc),
{
    let end = wire.len() - 4;
    let i = choose|i: int|
        0 <= i < wire.len() && wire[i] != other[i] && other == wire.update(i, other[i]);
    let payload = wire.take(end);
    let changed = other.take(end);
    if i < end {
        assert(changed =~= payload.update(i, other[i]));
        assert(payload[i] != changed[i]);
        assert(bytes::one_byte_apart(payload, changed));
    } else {
        assert(changed =~= payload);
    }
}

/// Read a datagram. One that could be read cannot be read any more once a byte of
/// it is changed.
pub fn decode(wire: &[u8]) -> (r: Result<Decoded, LegacyError>)
    ensures
        model::decoded(wire@) == (match r {
            Ok(d) => Ok(model::decoded_state(d)),
            Err(e) => Err(e),
        }),
        r is Ok ==> forall|other: Seq<u8>|
            bytes::one_byte_apart(wire@, other) ==> #[trigger] model::decoded(other) == Err::<
                model::DecodedState,
                _,
            >(LegacyError::Crc),
{
    if wire.len() < 10 {
        return Err(LegacyError::Truncated);
    }
    let end: usize = wire.len() - 4;
    let payload = &wire[0..end];
    assert(payload@ =~= wire@.take(end as int));
    if outside::crc32(payload) != bytes::read_be32(wire, end) {
        return Err(LegacyError::Crc);
    }
    proof {
        assert forall|other: Seq<u8>| bytes::one_byte_apart(wire@, other) implies #[trigger] model::decoded(
            other,
        ) == Err::<model::DecodedState, _>(LegacyError::Crc) by {
            lemma_damage_is_noticed(wire@, other);
        }
    }
    parse(payload)
}

/// Append an optional word.
fn push_word(wire: &mut Vec<u8>, value: Option<u16>)
    ensures
        final(wire)@ == old(wire)@ + model::word_bytes(value),
{
    match value {
        Some(v) => {
            bytes::push_be16(wire, v);
        },
        None => {
            assert(wire@ =~= wire@ + Seq::<u8>::empty());
        },
    }
}

fn three_seconds_before(now: u64) -> (time: u64)
    ensures
        time == model::stale(now),
{
    if now >= 3_000_000_000 {
        now - 3_000_000_000
    } else {
        now
    }
}

impl OldSession {
    /// What holds of every legacy stream.
    pub open spec fn wf(&self) -> bool {
        self@.wf()
    }

    /// Open a legacy stream to an EQMac login, world, or zone endpoint.
    pub fn connect_cancellable(cancelled: bool, now: u64) -> (r: Result<Self, LegacyError>)
        ensures
            r is Err <==> cancelled,
            r is Err ==> r->Err_0 == LegacyError::Cancelled,
            r is Ok ==> r->Ok_0.wf() && r->Ok_0@ == (model::OldState {
                next_sequence: 0,
                next_arq: 0,
                next_asq: 0,
                next_fragment: 0,
                sent_start: false,
                last_received_arq: None,
                ack_pending: false,
                last_ack: now,
                reorder: Map::empty(),
                pending: Seq::empty(),
                fragments: Map::empty(),
                applications: Seq::empty(),
                last_receive: now,
                closed: false,
                outbox: Seq::empty(),
            }),
    {
        broadcast use vstd::std_specs::hash::group_hash_axioms;

        if cancelled {
            return Err(LegacyError::Cancelled);
        }
        let session = OldSession {
            next_sequence: 0,
            next_arq: 0,
            next_asq: 0,
            next_fragment: 0,
            sent_start: false,
            last_received_arq: None,
            ack_pending: false,
            last_ack: now,
            reorder: HashMap::new(),
            pending: Vec::new(),
            fragments: HashMap::new(),
            applications: VecDeque::new(),
            last_receive: now,
            closed: false,
            outbox: Vec::new(),
        };
        proof {
            assert(session@.reorder =~= Map::empty());
            assert(session@.fragments =~= Map::empty());
            assert(session@.pending =~= Seq::empty());
            assert(session@.applications =~= Seq::empty());
            assert(session@.outbox =~= Seq::empty());
        }
        Ok(session)
    }

    /// Whole seconds since the last valid server datagram.
    pub fn last_received_seconds(&self, now: u64) -> (seconds: u64)
        ensures
            seconds == transport::model::elapsed(now, self@.last_receive) / 1_000_000_000,
    {
        transport::since(now, self.last_receive) / 1_000_000_000
    }

    fn emit(&mut self, wire: Vec<u8>)
        ensures
            final(self)@ == old(self)@.emit(wire@),
    {
        self.outbox.push(wire);
        assert(self@.outbox =~= old(self)@.outbox.push(wire@));
    }

    /// Build a datagram. A due acknowledgment travels with it.
    fn frame(
        &mut self,
        header_a: u8,
        arq: Option<u16>,
        fragment: Option<(u16, u16, u16)>,
        opcode: Option<u16>,
        body: &[u8],
        include_asq: bool,
        now: u64,
    ) -> (wire: Vec<u8>)
        requires
            old(self).wf(),
        ensures
            final(self).wf(),
            old(self)@.framed(header_a, arq, fragment, opcode, body@, include_asq, now) == (
                final(self)@,
                wire@,
            ),
    {
        let arsp = if self.ack_pending {
            self.last_received_arq
        } else {
            None
        };
        let mut wire: Vec<u8> = Vec::new();
        wire.push(header_a);
        wire.push(
            if arsp.is_some() {
                4
            } else {
                0
            },
        );
        bytes::push_be16(&mut wire, self.next_sequence);
        assert(wire@ =~= seq![
            header_a,
            if self@.owed() is Some {
                4u8
            } else {
                0u8
            },
        ] + bytes::be16(self.next_sequence));
        push_word(&mut wire, arsp);
        push_word(&mut wire, arq);
        if let Some((sequence, current, total)) = fragment {
            let ghost before = wire@;
            bytes::push_be16(&mut wire, sequence);
            bytes::push_be16(&mut wire, current);
            bytes::push_be16(&mut wire, total);
            assert(wire@ =~= before + model::fragment_bytes(fragment));
        } else {
            assert(wire@ =~= wire@ + model::fragment_bytes(fragment));
        }
        if include_asq {
            let ghost before = wire@;
            wire.push(0);
            wire.push(self.next_asq);
            assert(wire@ =~= before + model::asq_bytes(include_asq, self.next_asq));
        } else {
            assert(wire@ =~= wire@ + model::asq_bytes(include_asq, self.next_asq));
        }
        push_word(&mut wire, opcode);
        if opcode.is_some() || fragment.is_some() {
            wire.extend_from_slice(body);
        } else {
            assert(wire@ =~= wire@ + Seq::<u8>::empty());
        }
        assert(wire@ == self@.unsealed(header_a, arq, fragment, opcode, body@, include_asq));
        let crc = outside::crc32(&wire);
        bytes::push_be32(&mut wire, crc);
        if arsp.is_some() {
            self.ack_pending = false;
            self.last_ack = now;
        }
        self.next_sequence = self.next_sequence.wrapping_add(1);
        if include_asq {
            self.next_asq = self.next_asq.wrapping_add(1);
        }
        wire
    }

    /// Send one reliable packet and keep it until it is acknowledged.
    fn send_part(
        &mut self,
        opcode: Option<u16>,
        body: &[u8],
        fragment: Option<(u16, u16, u16)>,
        include_asq: bool,
        now: u64,
    ) -> (r: Result<(), LegacyError>)
        requires
            old(self).wf(),
        ensures
            final(self).wf(),
            old(self)@.sent_part(opcode, body@, fragment, include_asq, now) == (
                final(self)@,
                transport::model::failure(r),
            ),
    {
        if self.pending.len() >= WINDOW {
            return Err(LegacyError::OutgoingWindow);
        }
        let arq = self.next_arq;
        let mut header_a: u8 = 2;
        if !self.sent_start {
            header_a = header_a + 32;
        }
        if fragment.is_some() {
            header_a = header_a + 8;
        }
        if include_asq {
            header_a = header_a + 16;
        }
        assert(header_a == self@.reliable_header(fragment is Some, include_asq));
        self.next_arq = arq.wrapping_add(1);
        self.sent_start = true;
        let wire = self.frame(header_a, Some(arq), fragment, opcode, body, include_asq, now);
        let copy = wire.clone();
        let ghost framed = self@;
        let kept = OldPending { arq, wire, sent: now, attempts: 1 };
        self.pending.push(kept);
        assert(self@.pending =~= framed.pending.push(model::pending_state(kept)));
        self.emit(copy);
        Ok(())
    }

    /// Send one reliable application packet, using EQMac's 510/512-byte fragments.
    pub fn send(&mut self, opcode: u16, body: &[u8], now: u64) -> (r: Result<(), LegacyError>)
        requires
            old(self).wf(),
        ensures
            final(self).wf(),
            old(self)@.sending(opcode, body@, now) == (
                final(self)@,
                transport::model::failure(r),
            ),
    {
        if self.closed {
            return Err(LegacyError::SessionClosed);
        }
        if body.len() > MAX_APPLICATION {
            return Err(LegacyError::ApplicationTooLarge);
        }
        if body.len() < 512 {
            return self.send_part(Some(opcode), body, None, true, now);
        }
        let total: usize = 1 + (body.len() - 510 + 511) / 512;
        let id = self.next_fragment;
        self.next_fragment = id.wrapping_add(1);
        let mut current: usize = 0;
        let mut offset: usize = 0;
        while current < total
            invariant
                self.wf(),
                512 <= body@.len() <= MAX_APPLICATION,
                total == model::part_count(body@.len()),
                total <= 40_000,
                current <= total,
                current < total ==> offset == model::part_start(current as nat) && offset
                    < body@.len(),
                old(self)@.sending(opcode, body@, now) == self@.sent_parts(
                    opcode,
                    body@,
                    id,
                    current as nat,
                    total as nat,
                    now,
                ),
            decreases total - current,
        {
            let size: usize = if current == 0 {
                510
            } else {
                512
            };
            let end: usize = if body.len() - offset <= size {
                body.len()
            } else {
                offset + size
            };
            let part = &body[offset..end];
            assert(part@ =~= model::part_of(body@, current as nat));
            let name = if current == 0 {
                Some(opcode)
            } else {
                None
            };
            self.send_part(
                name,
                part,
                Some((id, current as u16, total as u16)),
                current == 0,
                now,
            )?;
            offset = end;
            current = current + 1;
        }
        Ok(())
    }

    /// Retire the packets at the front that an acknowledgment covers.
    pub fn acknowledge(&mut self, arsp: u16)
        requires
            old(self).wf(),
        ensures
            final(self).wf(),
            final(self)@ == old(self)@.acknowledged(arsp),
    {
        while self.pending.len() > 0 && arsp.wrapping_sub(self.pending[0].arq) < 32768
            invariant
                self.wf(),
                old(self)@.acknowledged(arsp) == self@.acknowledged(arsp),
            decreases self.pending@.len(),
        {
            let ghost before = self@;
            let _ = self.pending.remove(0);
            assert(self@.pending =~= before.pending.skip(1));
        }
        assert(self@.pending == model::uncovered(self@.pending, arsp));
    }

    /// Make the packets up to `before` due for retransmission.
    fn request_before(&mut self, before: u16, now: u64)
        requires
            old(self).wf(),
        ensures
            final(self).wf(),
            final(self)@ == (model::OldState {
                pending: model::requested(old(self)@.pending, before, now),
                ..old(self)@
            }),
    {
        let ghost all = self@.pending;
        let ghost done = model::requested(all, before, now);
        let mut i: usize = 0;
        while i < self.pending.len()
            invariant
                self.wf(),
                all == old(self)@.pending,
                done == model::requested(all, before, now),
                i <= self.pending@.len(),
                self.pending@.len() == all.len(),
                self@ == (model::OldState { pending: self@.pending, ..old(self)@ }),
                forall|j: int| 0 <= j < i ==> #[trigger] self@.pending[j] == done[j],
                forall|j: int| i <= j < all.len() ==> #[trigger] self@.pending[j] == all[j],
            decreases self.pending@.len() - i,
        {
            let ghost previous = self@.pending;
            assert(previous[i as int] == all[i as int]);
            let arq: u16 = self.pending[i].arq;
            if before.wrapping_sub(arq) < 32768 {
                self.pending[i].sent = three_seconds_before(now);
            }
            assert(self@.pending =~= previous.update(i as int, done[i as int]));
            i = i + 1;
        }
        assert(self@.pending =~= done);
    }

    /// Retire the packet numbered `arq`.
    fn retire(&mut self, arq: u16)
        requires
            old(self).wf(),
        ensures
            final(self).wf(),
            final(self)@ == (model::OldState {
                pending: model::without(old(self)@.pending, arq),
                ..old(self)@
            }),
    {
        let ghost all = self@.pending;
        let mut i: usize = 0;
        assert(all.skip(0) =~= all);
        assert(all.take(0) + model::without(all, arq) =~= model::without(all, arq));
        while i < self.pending.len()
            invariant
                self.wf(),
                i <= self.pending@.len(),
                self@ == (model::OldState { pending: self@.pending, ..old(self)@ }),
                model::without(old(self)@.pending, arq) == self@.pending.take(i as int)
                    + model::without(self@.pending.skip(i as int), arq),
            decreases self.pending@.len() - i,
        {
            let ghost p = self@.pending;
            let ghost rest = p.skip(i as int);
            assert(rest.skip(1) =~= p.skip(i + 1));
            if self.pending[i].arq == arq {
                let _ = self.pending.remove(i);
                assert(self@.pending =~= p.remove(i as int));
                assert(self@.pending.take(i as int) =~= p.take(i as int));
                assert(self@.pending.skip(i as int) =~= rest.skip(1));
            } else {
                let ghost tail = model::without(rest.skip(1), arq);
                assert(p.take(i + 1) =~= p.take(i as int).push(rest[0]));
                assert(p.take(i as int) + (seq![rest[0]] + tail) =~= p.take(i + 1) + tail);
                i = i + 1;
            }
        }
        assert(self@.pending.take(i as int) + model::without(self@.pending.skip(i as int), arq)
            =~= self@.pending);
    }

    /// Make the packet numbered `arq` due for retransmission.
    fn retry(&mut self, arq: u16, now: u64)
        requires
            old(self).wf(),
        ensures
            final(self).wf(),
            final(self)@ == (model::OldState {
                pending: model::retried(old(self)@.pending, arq, now),
                ..old(self)@
            }),
    {
        let ghost all = self@.pending;
        let mut i: usize = 0;
        assert(all.skip(0) =~= all);
        assert(all.take(0) + model::retried(all, arq, now) =~= model::retried(all, arq, now));
        while i < self.pending.len()
            invariant
                self.wf(),
                i <= self.pending@.len(),
                self@ == old(self)@,
                all == self@.pending,
                model::retried(all, arq, now) == all.take(i as int) + model::retried(
                    all.skip(i as int),
                    arq,
                    now,
                ),
            decreases self.pending@.len() - i,
        {
            let ghost rest = all.skip(i as int);
            assert(rest.skip(1) =~= all.skip(i + 1));
            if self.pending[i].arq == arq {
                self.pending[i].sent = three_seconds_before(now);
                assert(self@.pending =~= all.take(i as int) + model::retried(rest, arq, now));
                return;
            }
            proof {
                let tail = model::retried(rest.skip(1), arq, now);
                assert(all.take(i + 1) =~= all.take(i as int).push(rest[0]));
                assert(all.take(i as int) + (seq![rest[0]] + tail) =~= all.take(i + 1) + tail);
            }
            i = i + 1;
        }
        assert(all.take(i as int) + model::retried(all.skip(i as int), arq, now) =~= all);
    }

    /// Apply a selective acknowledgment. Its bits describe the packets from
    /// `start` on: one retires its packet, zero asks for it again.
    #[verifier::spinoff_prover]
    #[verifier::rlimit(40)]
    fn select(&mut self, start: u16, bits: &Vec<u8>, now: u64)
        requires
            old(self).wf(),
        ensures
            final(self).wf(),
            final(self)@ == (model::OldState {
                pending: model::selective(
                    old(self)@.pending,
                    start,
                    bits@,
                    8 * bits@.len(),
                    now,
                ),
                ..old(self)@
            }),
    {
        let ghost all = self@.pending;
        let mut byte: usize = 0;
        let mut arq: u16 = start;
        while byte < bits.len()
            invariant
                self.wf(),
                all == old(self)@.pending,
                byte <= bits@.len(),
                arq == start.wrapping_add(((8 * byte) % 65536) as u16),
                self@ == (model::OldState {
                    pending: model::selective(all, start, bits@, (8 * byte) as nat, now),
                    ..old(self)@
                }),
            decreases bits@.len() - byte,
        {
            let mut bit: u8 = 0;
            while bit < 8
                invariant
                    self.wf(),
                    all == old(self)@.pending,
                    byte < bits@.len(),
                    bit <= 8,
                    arq == start.wrapping_add(((8 * byte + bit) % 65536) as u16),
                    self@ == (model::OldState {
                        pending: model::selective(all, start, bits@, (8 * byte + bit) as nat, now),
                        ..old(self)@
                    }),
                decreases 8 - bit,
            {
                proof {
                    let n = 8 * byte + bit;
                    assert(n / 8 == byte && n % 8 == bit);
                    assert(model::selected(bits@, n) == (bits@[byte as int] & (0x80u8 >> bit)
                        != 0));
                }
                if bits[byte] & (0x80u8 >> bit) != 0 {
                    self.retire(arq);
                } else {
                    self.retry(arq, now);
                }
                arq = arq.wrapping_add(1);
                bit = bit + 1;
            }
            byte = byte + 1;
        }
    }

    /// Apply what a datagram says of the packets we sent.
    fn answer(&mut self, packet: &Decoded, now: u64)
        requires
            old(self).wf(),
        ensures
            final(self).wf(),
            final(self)@ == old(self)@.answered(model::decoded_state(*packet), now),
    {
        let mut start: u16 = 1;
        if let Some(arsp) = packet.arsp {
            self.acknowledge(arsp);
            start = arsp.wrapping_add(1);
        }
        if let Some(before) = packet.resend_before {
            self.request_before(before, now);
        }
        self.select(start, &packet.selective_ack, now);
    }

    /// Queue an application packet.
    fn queue(&mut self, opcode: u16, body: Vec<u8>)
        requires
            old(self).wf(),
        ensures
            final(self).wf(),
            final(self)@ == old(self)@.queued(opcode, body@),
    {
        let application = Application { opcode, body };
        self.applications.push_back(application);
        assert(self@.applications =~= old(self)@.applications.push(
            transport::model::app(application),
        ));
    }

    /// Queue what a packet delivers.
    fn deliver(&mut self, packet: Decoded) -> (r: Result<(), LegacyError>)
        requires
            old(self).wf(),
        ensures
            final(self).wf(),
            old(self)@.delivered(model::decoded_state(packet)) == (
                final(self)@,
                transport::model::failure(r),
            ),
    {
        broadcast use vstd::std_specs::hash::group_hash_axioms;

        let (sequence, current, total) = match packet.fragment {
            Some(fragment) => fragment,
            None => {
                if let Some(opcode) = packet.opcode {
                    self.queue(opcode, packet.body);
                }
                return Ok(());
            },
        };
        if total == 0 || current >= total {
            return Err(LegacyError::FragmentIndexes);
        }
        if total as usize > MAX_FRAGMENTS {
            return Err(LegacyError::FragmentTotal);
        }
        assert(self@.fragments.dom() =~= self.fragments@.dom());
        if !self.fragments.contains_key(&sequence) && self.fragments.len() >= MAX_FRAGMENT_GROUPS {
            return Err(LegacyError::FragmentGroups);
        }
        let ghost known = self@.fragments;
        let group = match self.fragments.remove(&sequence) {
            Some(group) => group,
            None => empty_group(total as usize),
        };
        assert(self@.fragments =~= known.remove(sequence));
        if group.parts.len() != total as usize {
            self.fragments.insert(sequence, group);
            assert(self@.fragments =~= known);
            return Err(LegacyError::FragmentChanged);
        }
        let mut group = group;
        let ghost before = model::fragment_state(group);
        if packet.opcode.is_some() {
            group.opcode = packet.opcode;
        }
        group.parts.set(current as usize, Some(packet.body));
        proof {
            let after = model::FragmentState {
                opcode: if packet.opcode is Some {
                    packet.opcode
                } else {
                    before.opcode
                },
                parts: before.parts.update(current as int, Some(packet.body@)),
            };
            assert(model::fragment_state(group).parts =~= after.parts);
            assert(model::fragment_state(group) == after);
            assert(self@ == model::OldState {
                fragments: known.remove(sequence),
                ..old(self)@
            });
            assert(known.remove(sequence).insert(sequence, after) =~= known.insert(
                sequence,
                after,
            ));
        }
        match (is_complete(&group), group.opcode) {
            (true, Some(opcode)) => {
                let body = join(&group);
                if body.len() > MAX_APPLICATION {
                    return Err(LegacyError::Reassembled);
                }
                self.queue(opcode, body);
            },
            _ => {
                self.fragments.insert(sequence, group);
                assert(self@.fragments =~= known.insert(sequence, model::fragment_state(group)));
            },
        }
        Ok(())
    }

    /// Take the next packet of the stream.
    fn accept(&mut self, arq: u16, packet: Decoded) -> (r: Result<(), LegacyError>)
        requires
            old(self).wf(),
        ensures
            final(self).wf(),
            old(self)@.accepted(arq, model::decoded_state(packet)) == (
                final(self)@,
                transport::model::failure(r),
            ),
    {
        self.last_received_arq = Some(arq);
        self.ack_pending = true;
        self.deliver(packet)
    }

    /// Take every held packet whose turn has come.
    fn drain(&mut self) -> (r: Result<(), LegacyError>)
        requires
            old(self).wf(),
        ensures
            final(self).wf(),
            old(self)@.drained() == (final(self)@, transport::model::failure(r)),
    {
        broadcast use vstd::std_specs::hash::group_hash_axioms;

        loop
            invariant
                self.wf(),
                old(self)@.drained() == self@.drained(),
            decreases self@.reorder.dom().len(),
        {
            let ghost before = self@;
            let expected: u16 = match self.last_received_arq {
                Some(last) => last.wrapping_add(1),
                None => {
                    return Ok(());
                },
            };
            match self.reorder.remove(&expected) {
                Some(packet) => {
                    proof {
                        assert(before.reorder.contains_key(expected));
                        assert(self@.reorder =~= before.reorder.remove(expected));
                        assert(self@ == model::OldState {
                            reorder: before.reorder.remove(expected),
                            ..before
                        });
                    }
                    self.accept(expected, packet)?;
                },
                None => {
                    assert(self@.reorder =~= before.reorder);
                    return Ok(());
                },
            }
        }
    }

    /// Hold a packet whose turn has not come, unless it is held already.
    fn hold(&mut self, arq: u16, packet: Decoded)
        requires
            old(self).wf(),
        ensures
            final(self).wf(),
            final(self)@ == old(self)@.hold(arq, model::decoded_state(packet)),
    {
        broadcast use vstd::std_specs::hash::group_hash_axioms;

        if !self.reorder.contains_key(&arq) {
            self.reorder.insert(arq, packet);
            assert(self@.reorder =~= old(self)@.reorder.insert(arq, model::decoded_state(packet)));
        }
    }

    /// Take a reliable packet of a stream whose beginning is known.
    fn place(&mut self, last: u16, arq: u16, packet: Decoded) -> (r: Result<(), LegacyError>)
        requires
            old(self).wf(),
            old(self)@.last_received_arq is Some,
        ensures
            final(self).wf(),
            old(self)@.placed(last, arq, model::decoded_state(packet)) == (
                final(self)@,
                transport::model::failure(r),
            ),
    {
        let distance: u16 = arq.wrapping_sub(last.wrapping_add(1));
        if distance >= 32768 {
            self.ack_pending = true;
            return Ok(());
        }
        if distance as usize >= WINDOW {
            return Err(LegacyError::IncomingWindow);
        }
        if distance > 0 {
            self.hold(arq, packet);
            return Ok(());
        }
        self.accept(arq, packet)?;
        self.drain()
    }

    /// Take a reliable packet.
    fn sequence(&mut self, arq: u16, packet: Decoded) -> (r: Result<(), LegacyError>)
        requires
            old(self).wf(),
        ensures
            final(self).wf(),
            old(self)@.sequenced(arq, model::decoded_state(packet)) == (
                final(self)@,
                transport::model::failure(r),
            ),
    {
        broadcast use vstd::std_specs::hash::group_hash_axioms;

        if (packet.header_a / 32) % 2 == 1 {
            let last: u16 = arq.wrapping_sub(1);
            if self.last_received_arq.is_some() {
                self.reorder.clear();
                assert(self@.reorder =~= Map::empty());
            }
            self.last_received_arq = Some(last);
            return self.place(last, arq, packet);
        }
        match self.last_received_arq {
            Some(last) => self.place(last, arq, packet),
            None => {
                if arq == 0 {
                    self.last_received_arq = Some(u16::MAX);
                    return self.place(u16::MAX, arq, packet);
                }
                assert(self@.reorder.dom() =~= self.reorder@.dom());
                if self.reorder.len() >= WINDOW {
                    return Err(LegacyError::IncomingWindow);
                }
                self.hold(arq, packet);
                Ok(())
            },
        }
    }

    /// Take one decoded datagram.
    pub fn process(&mut self, packet: Decoded, now: u64) -> (r: Result<(), LegacyError>)
        requires
            old(self).wf(),
        ensures
            final(self).wf(),
            old(self)@.processed(model::decoded_state(packet), now) == (
                final(self)@,
                transport::model::failure(r),
            ),
    {
        self.answer(&packet, now);
        if (packet.header_a / 4) % 2 == 1 && (packet.header_a / 64) % 2 == 1 {
            self.closed = true;
            return Ok(());
        }
        match packet.arq {
            None => self.deliver(packet),
            Some(arq) => self.sequence(arq, packet),
        }
    }

    /// The next queued application packet.
    fn next_application(&mut self) -> (next: Option<Application>)
        requires
            old(self).wf(),
        ensures
            final(self).wf(),
            match next {
                Some(a) => {
                    &&& old(self)@.applications.len() > 0
                    &&& transport::model::app(a) == old(self)@.applications[0]
                    &&& final(self)@ == (model::OldState {
                        applications: old(self)@.applications.skip(1),
                        ..old(self)@
                    })
                },
                None => old(self)@.applications.len() == 0 && final(self)@ == old(self)@,
            },
    {
        let next = self.applications.pop_front();
        assert(next is Some ==> self@.applications =~= old(self)@.applications.skip(1));
        next
    }

    /// Send a datagram that carries nothing but the acknowledgment.
    fn send_ack(&mut self, now: u64)
        requires
            old(self).wf(),
        ensures
            final(self).wf(),
            final(self)@ == old(self)@.acking(now),
    {
        let nothing: Vec<u8> = Vec::new();
        assert(nothing@ =~= Seq::empty());
        let wire = self.frame(0, None, None, None, &nothing, false, now);
        self.emit(wire);
    }

    /// Send again every pending packet that has waited three seconds.
    fn retransmit(&mut self, now: u64) -> (r: Result<(), LegacyError>)
        requires
            old(self).wf(),
        ensures
            final(self).wf(),
            old(self)@.retransmitted(old(self)@.pending.len(), now) == (
                final(self)@,
                transport::model::failure(r),
            ),
    {
        let ghost all = self@.pending.len();
        let mut i: usize = 0;
        while i < self.pending.len()
            invariant
                self.wf(),
                i <= self.pending@.len(),
                self.pending@.len() == all,
                all == old(self)@.pending.len(),
                old(self)@.retransmitted(i as nat, now) == (self@, None::<LegacyError>),
            decreases self.pending@.len() - i,
        {
            let ghost before = self@;
            let ghost p = before.pending[i as int];
            let sent: u64 = self.pending[i].sent;
            if transport::since(now, sent) >= 3_000_000_000 {
                let attempts: u8 = self.pending[i].attempts;
                if attempts >= 10 {
                    proof {
                        lemma_retransmission_stops(old(self)@, (i + 1) as nat, all, now);
                    }
                    return Err(LegacyError::Unacknowledged);
                }
                let wire = self.pending[i].wire.clone();
                self.pending[i].sent = now;
                self.pending[i].attempts = attempts + 1;
                assert(self@.pending =~= before.pending.update(
                    i as int,
                    model::OldPendingState { sent: now, attempts: (attempts + 1) as u8, ..p },
                ));
                self.emit(wire);
            }
            i = i + 1;
        }
        Ok(())
    }

    /// Drive acknowledgments and retransmits before the next datagram is read.
    ///
    /// A queued application packet is returned at once; without one, the host
    /// reads the socket and hands what it got to `receive`.
    pub fn poll(&mut self, now: u64) -> (r: Result<Option<Application>, LegacyError>)
        requires
            old(self).wf(),
        ensures
            final(self).wf(),
            old(self)@.polled(now) == (final(self)@, transport::model::outcome(r)),
    {
        if let Some(application) = self.next_application() {
            return Ok(Some(application));
        }
        if self.closed {
            return Err(LegacyError::ServerClosed);
        }
        if self.ack_pending && transport::since(now, self.last_ack) >= 100_000_000 {
            self.send_ack(now);
        }
        self.retransmit(now)?;
        if transport::since(now, self.last_receive) >= 60_000_000_000 {
            return Err(LegacyError::Silent);
        }
        Ok(None)
    }

    /// Take a datagram from the server, returning the next application packet.
    pub fn receive(&mut self, wire: &[u8], now: u64) -> (r: Result<
        Option<Application>,
        LegacyError,
    >)
        requires
            old(self).wf(),
        ensures
            final(self).wf(),
            old(self)@.received(wire@, now) == (final(self)@, transport::model::outcome(r)),
    {
        match decode(wire) {
            Err(e) => Err(e),
            Ok(packet) => {
                self.last_receive = now;
                self.process(packet, now)?;
                Ok(self.next_application())
            },
        }
    }

    /// Send the legacy closing flags once.
    pub fn close(&mut self, now: u64)
        requires
            old(self).wf(),
        ensures
            final(self).wf(),
            final(self)@ == old(self)@.closing(now),
    {
        if !self.closed {
            let arq = self.next_arq;
            self.next_arq = arq.wrapping_add(1);
            let nothing: Vec<u8> = Vec::new();
            assert(nothing@ =~= Seq::empty());
            let wire = self.frame(70, Some(arq), None, None, &nothing, false, now);
            self.emit(wire);
            self.closed = true;
        }
    }

    /// The datagrams due on the wire, in order.
    pub fn take_outbox(&mut self) -> (due: Vec<Vec<u8>>)
        requires
            old(self).wf(),
        ensures
            final(self).wf(),
            transport::model::datagrams(due@) == old(self)@.outbox,
            final(self)@ == (model::OldState { outbox: Seq::empty(), ..old(self)@ }),
    {
        let mut due: Vec<Vec<u8>> = Vec::new();
        std::mem::swap(&mut due, &mut self.outbox);
        assert(self@.outbox =~= Seq::empty());
        due
    }
}

/// A group of which no part has arrived.
fn empty_group(total: usize) -> (group: Fragment)
    ensures
        model::fragment_state(group) == (model::FragmentState {
            opcode: None,
            parts: Seq::new(total as nat, |i: int| None::<Seq<u8>>),
        }),
{
    let mut parts: Vec<Option<Vec<u8>>> = Vec::new();
    let mut i: usize = 0;
    while i < total
        invariant
            i <= total,
            parts@.len() == i,
            forall|j: int| 0 <= j < i ==> (#[trigger] parts@[j]) is None,
        decreases total - i,
    {
        parts.push(None);
        i = i + 1;
    }
    let group = Fragment { opcode: None, parts };
    assert(model::fragment_state(group).parts =~= Seq::new(
        total as nat,
        |i: int| None::<Seq<u8>>,
    ));
    group
}

/// Whether every part of a group and its opcode have arrived.
fn is_complete(group: &Fragment) -> (complete: bool)
    ensures
        complete == model::complete(model::fragment_state(*group)),
{
    if group.opcode.is_none() {
        return false;
    }
    let ghost parts = model::fragment_state(*group).parts;
    let mut i: usize = 0;
    while i < group.parts.len()
        invariant
            i <= group.parts@.len(),
            parts == model::fragment_state(*group).parts,
            forall|j: int| 0 <= j < i ==> (#[trigger] parts[j]) is Some,
        decreases group.parts@.len() - i,
    {
        if group.parts[i].is_none() {
            assert(parts[i as int] is None);
            return false;
        }
        i = i + 1;
    }
    true
}

/// Put the parts of a complete group together.
fn join(group: &Fragment) -> (body: Vec<u8>)
    requires
        model::complete(model::fragment_state(*group)),
    ensures
        body@ == model::joined(model::fragment_state(*group).parts),
{
    let ghost parts = model::fragment_state(*group).parts;
    let mut body: Vec<u8> = Vec::new();
    let mut i: usize = 0;
    assert(parts.take(0) =~= Seq::empty());
    while i < group.parts.len()
        invariant
            i <= group.parts@.len(),
            parts == model::fragment_state(*group).parts,
            model::complete(model::fragment_state(*group)),
            body@ == model::joined(parts.take(i as int)),
        decreases group.parts@.len() - i,
    {
        assert(parts[i as int] is Some);
        assert(parts.take(i + 1).drop_last() =~= parts.take(i as int));
        if let Some(part) = &group.parts[i] {
            body.extend_from_slice(part);
        }
        i = i + 1;
    }
    assert(parts.take(i as int) =~= parts);
    body
}

/// A packet that is given up stops the retransmission of all later ones.
proof fn lemma_retransmission_stops(s: model::OldState, n: nat, m: nat, now: u64)
    requires
        n <= m,
        s.retransmitted(n, now).1 is Some,
    ensures
        s.retransmitted(m, now) == s.retransmitted(n, now),
    decreases m,
{
    if n < m {
        lemma_retransmission_stops(s, n, (m - 1) as nat, now);
    }
}

} // verus!

//! Mathematical model of one legacy stream.

use super::{
    Decoded, Fragment, LegacyError, OldPending, MAX_FRAGMENTS, MAX_FRAGMENT_GROUPS, WINDOW,
};
use crate::bytes;
use crate::outside;
use crate::transport::model::{self, App};
use crate::transport::MAX_APPLICATION;
use vstd::prelude::*;

verus! {

/// The meaning of a decoded datagram.
#[verifier::ext_equal]
pub struct DecodedState {
    pub header_a: u8,
    pub arsp: Option<u16>,
    pub resend_before: Option<u16>,
    pub selective_ack: Seq<u8>,
    pub arq: Option<u16>,
    pub fragment: Option<(u16, u16, u16)>,
    pub opcode: Option<u16>,
    pub body: Seq<u8>,
}

/// A reliable datagram that has not been acknowledged yet.
#[verifier::ext_equal]
pub struct OldPendingState {
    pub arq: u16,
    pub wire: Seq<u8>,
    pub sent: u64,
    pub attempts: u8,
}

/// The parts of one fragmented application that have arrived.
#[verifier::ext_equal]
pub struct FragmentState {
    pub opcode: Option<u16>,
    pub parts: Seq<Option<Seq<u8>>>,
}

/// The meaning of an `OldSession`.
#[verifier::ext_equal]
pub struct OldState {
    pub next_sequence: u16,
    pub next_arq: u16,
    pub next_asq: u8,
    pub next_fragment: u16,
    pub sent_start: bool,
    pub last_received_arq: Option<u16>,
    pub ack_pending: bool,
    pub last_ack: u64,
    pub reorder: Map<u16, DecodedState>,
    pub pending: Seq<OldPendingState>,
    pub fragments: Map<u16, FragmentState>,
    pub applications: Seq<App>,
    pub last_receive: u64,
    pub closed: bool,
    pub outbox: Seq<Seq<u8>>,
}

pub open spec fn decoded_state(d: Decoded) -> DecodedState {
    DecodedState {
        header_a: d.header_a,
        arsp: d.arsp,
        resend_before: d.resend_before,
        selective_ack: d.selective_ack@,
        arq: d.arq,
        fragment: d.fragment,
        opcode: d.opcode,
        body: d.body@,
    }
}

pub open spec fn pending_state(p: OldPending) -> OldPendingState {
    OldPendingState { arq: p.arq, wire: p.wire@, sent: p.sent, attempts: p.attempts }
}

pub open spec fn pending_states(s: Seq<OldPending>) -> Seq<OldPendingState> {
    s.map_values(|p: OldPending| pending_state(p))
}

pub open spec fn part_state(part: Option<Vec<u8>>) -> Option<Seq<u8>> {
    match part {
        Some(data) => Some(data@),
        None => None,
    }
}

pub open spec fn fragment_state(f: Fragment) -> FragmentState {
    FragmentState {
        opcode: f.opcode,
        parts: f.parts@.map_values(|part: Option<Vec<u8>>| part_state(part)),
    }
}

pub open spec fn held(m: Map<u16, Decoded>) -> Map<u16, DecodedState> {
    m.map_values(|d: Decoded| decoded_state(d))
}

pub open spec fn groups(m: Map<u16, Fragment>) -> Map<u16, FragmentState> {
    m.map_values(|f: Fragment| fragment_state(f))
}

// Header flags. The first byte marks a reliable packet, a fragment, an ASQ
// field, the start of a sequence and the two halves of a close; the second
// an acknowledgment and a resend request, with the length of the selective
// acknowledgment in its upper half.

pub open spec fn has_arq(header_a: u8) -> bool {
    (header_a / 2) % 2 == 1
}

pub open spec fn has_fragment(header_a: u8) -> bool {
    (header_a / 8) % 2 == 1
}

pub open spec fn has_asq(header_a: u8) -> bool {
    (header_a / 16) % 2 == 1
}

pub open spec fn starts_sequence(header_a: u8) -> bool {
    (header_a / 32) % 2 == 1
}

pub open spec fn closes(header_a: u8) -> bool {
    (header_a / 4) % 2 == 1 && (header_a / 64) % 2 == 1
}

pub open spec fn has_arsp(header_b: u8) -> bool {
    (header_b / 4) % 2 == 1
}

pub open spec fn has_resend(header_b: u8) -> bool {
    (header_b / 8) % 2 == 1
}

/// A word at `at`, where it is present at all.
pub open spec fn word(payload: Seq<u8>, at: int, present: bool) -> Result<
    Option<u16>,
    LegacyError,
> {
    if !present {
        Ok(None)
    } else if at + 2 > payload.len() {
        Err(LegacyError::Header)
    } else {
        Ok(Some(bytes::be16_at(payload, at)))
    }
}

/// The position after an optional field.
pub open spec fn past(at: int, present: bool, size: int) -> int {
    if present {
        at + size
    } else {
        at
    }
}

/// The three words of a fragment header.
pub open spec fn fragment_words(payload: Seq<u8>, at: int, present: bool) -> Result<
    Option<(u16, u16, u16)>,
    LegacyError,
> {
    if !present {
        Ok(None)
    } else if at + 6 > payload.len() {
        Err(LegacyError::Header)
    } else {
        Ok(
            Some(
                (
                    bytes::be16_at(payload, at),
                    bytes::be16_at(payload, at + 2),
                    bytes::be16_at(payload, at + 4),
                ),
            ),
        )
    }
}

/// The acknowledgment fields that follow the global sequence number, and the
/// position after them.
pub open spec fn ack_fields(payload: Seq<u8>) -> Result<
    (Option<u16>, Option<u16>, Seq<u8>, int),
    LegacyError,
> {
    let b = payload[1];
    let at_resend = past(4, has_arsp(b), 2);
    let at_selective = past(at_resend, has_resend(b), 2);
    let end = at_selective + b / 16;
    let arsp = word(payload, 4, has_arsp(b));
    let resend = word(payload, at_resend, has_resend(b));
    if arsp is Err || resend is Err {
        Err(LegacyError::Header)
    } else if end > payload.len() {
        Err(LegacyError::SelectiveAck)
    } else {
        Ok((arsp->Ok_0, resend->Ok_0, payload.subrange(at_selective, end), end))
    }
}

/// The number, fragment and ASQ fields of the reliable stream, and the position
/// after them.
pub open spec fn stream_fields(payload: Seq<u8>, at: int) -> Result<
    (Option<u16>, Option<(u16, u16, u16)>, int),
    LegacyError,
> {
    let a = payload[0];
    let at_fragment = past(at, has_arq(a), 2);
    let at_asq = past(at_fragment, has_fragment(a), 6);
    let end = past(
        at_asq,
        has_asq(a),
        if has_arq(a) {
            2
        } else {
            1
        },
    );
    let arq = word(payload, at, has_arq(a));
    let fragment = fragment_words(payload, at_fragment, has_fragment(a));
    if arq is Err || fragment is Err {
        Err(LegacyError::Header)
    } else if end > payload.len() {
        Err(LegacyError::Asq)
    } else {
        Ok((arq->Ok_0, fragment->Ok_0, end))
    }
}

/// The fields of a datagram: two header bytes, a global sequence number, the
/// optional fields that the header announces, and the application. The opcode
/// stands in front of an application or of its first fragment.
pub open spec fn fields(payload: Seq<u8>) -> Result<DecodedState, LegacyError> {
    match ack_fields(payload) {
        Err(e) => Err(e),
        Ok((arsp, resend_before, selective_ack, at)) => match stream_fields(payload, at) {
            Err(e) => Err(e),
            Ok((arq, fragment, end)) => {
                let named = end < payload.len() && !closes(payload[0]) && (match fragment {
                    Some((_, current, _)) => current == 0,
                    None => true,
                });
                match word(payload, end, named) {
                    Err(e) => Err(e),
                    Ok(opcode) => Ok(
                        DecodedState {
                            header_a: payload[0],
                            arsp,
                            resend_before,
                            selective_ack,
                            arq,
                            fragment,
                            opcode,
                            body: payload.skip(past(end, named, 2)),
                        },
                    ),
                }
            },
        },
    }
}

/// A datagram: its fields, once length and checksum are right.
pub open spec fn decoded(wire: Seq<u8>) -> Result<DecodedState, LegacyError> {
    if wire.len() < 10 {
        Err(LegacyError::Truncated)
    } else {
        let payload = wire.take(wire.len() - 4);
        if outside::crc32_of(payload) != bytes::be32_at(wire, wire.len() - 4) {
            Err(LegacyError::Crc)
        } else {
            fields(payload)
        }
    }
}

/// The time three seconds ago, which makes a retransmission due at once.
pub open spec fn stale(now: u64) -> u64 {
    if now >= 3_000_000_000 {
        (now - 3_000_000_000) as u64
    } else {
        now
    }
}

/// Pending packets after the ones at the front that `arsp` covers.
pub open spec fn uncovered(pending: Seq<OldPendingState>, arsp: u16) -> Seq<OldPendingState>
    decreases pending.len(),
{
    if pending.len() > 0 && arsp.wrapping_sub(pending[0].arq) < 32768 {
        uncovered(pending.skip(1), arsp)
    } else {
        pending
    }
}

/// Pending packets, those up to `before` due for retransmission.
pub open spec fn requested(pending: Seq<OldPendingState>, before: u16, now: u64) -> Seq<
    OldPendingState,
> {
    pending.map_values(
        |p: OldPendingState|
            if before.wrapping_sub(p.arq) < 32768 {
                OldPendingState { sent: stale(now), ..p }
            } else {
                p
            },
    )
}

/// Pending packets without those numbered `arq`.
pub open spec fn without(pending: Seq<OldPendingState>, arq: u16) -> Seq<OldPendingState>
    decreases pending.len(),
{
    if pending.len() == 0 {
        pending
    } else if pending[0].arq == arq {
        without(pending.skip(1), arq)
    } else {
        seq![pending[0]] + without(pending.skip(1), arq)
    }
}

/// Pending packets, the first one numbered `arq` due for retransmission.
pub open spec fn retried(pending: Seq<OldPendingState>, arq: u16, now: u64) -> Seq<
    OldPendingState,
>
    decreases pending.len(),
{
    if pending.len() == 0 {
        pending
    } else if pending[0].arq == arq {
        seq![OldPendingState { sent: stale(now), ..pending[0] }] + pending.skip(1)
    } else {
        seq![pending[0]] + retried(pending.skip(1), arq, now)
    }
}

/// Bit `n` of a bit field, from the high end of each byte.
pub open spec fn selected(bits: Seq<u8>, n: int) -> bool {
    bits[n / 8] & (0x80u8 >> ((n % 8) as u8)) != 0
}

/// Pending packets after the first `n` bits of a selective acknowledgment: a one
/// retires its packet, a zero asks for it again.
pub open spec fn selective(
    pending: Seq<OldPendingState>,
    start: u16,
    bits: Seq<u8>,
    n: nat,
    now: u64,
) -> Seq<OldPendingState>
    decreases n,
{
    if n == 0 {
        pending
    } else {
        let before = selective(pending, start, bits, (n - 1) as nat, now);
        let arq = start.wrapping_add(((n - 1) % 65536) as u16);
        if selected(bits, n - 1) {
            without(before, arq)
        } else {
            retried(before, arq, now)
        }
    }
}

/// Fragment parts put together.
pub open spec fn joined(parts: Seq<Option<Seq<u8>>>) -> Seq<u8>
    decreases parts.len(),
{
    if parts.len() == 0 {
        Seq::empty()
    } else {
        joined(parts.drop_last()) + parts.last()->0
    }
}

pub open spec fn complete(f: FragmentState) -> bool {
    f.opcode is Some && forall|i: int| 0 <= i < f.parts.len() ==> (#[trigger] f.parts[i]) is Some
}

/// Number of fragments of an application of `length` bytes.
pub open spec fn part_count(length: nat) -> nat {
    if length <= 510 {
        1
    } else {
        1 + ((length - 510 + 511) / 512) as nat
    }
}

/// Where fragment `current` starts: the first holds 510 bytes, the others 512.
pub open spec fn part_start(current: nat) -> nat {
    if current == 0 {
        0
    } else {
        (510 + 512 * (current - 1)) as nat
    }
}

/// The bytes of fragment `current`.
pub open spec fn part_of(body: Seq<u8>, current: nat) -> Seq<u8> {
    let start = part_start(current) as int;
    let end = part_start(current + 1) as int;
    if end <= body.len() {
        body.subrange(start, end)
    } else {
        body.skip(start)
    }
}

/// An optional word on the wire.
pub open spec fn word_bytes(value: Option<u16>) -> Seq<u8> {
    match value {
        Some(v) => bytes::be16(v),
        None => Seq::empty(),
    }
}

/// An optional fragment header on the wire.
pub open spec fn fragment_bytes(fragment: Option<(u16, u16, u16)>) -> Seq<u8> {
    match fragment {
        Some((sequence, current, total)) => bytes::be16(sequence) + bytes::be16(current)
            + bytes::be16(total),
        None => Seq::empty(),
    }
}

/// An optional ASQ field on the wire.
pub open spec fn asq_bytes(present: bool, asq: u8) -> Seq<u8> {
    if present {
        seq![0u8, asq]
    } else {
        Seq::empty()
    }
}

/// Application data, which only a packet with an opcode or a fragment holds.
pub open spec fn body_bytes(present: bool, body: Seq<u8>) -> Seq<u8> {
    if present {
        body
    } else {
        Seq::empty()
    }
}

impl OldState {
    /// What holds of every legacy stream.
    pub open spec fn wf(self) -> bool {
        &&& self.pending.len() <= WINDOW
        &&& self.reorder.dom().finite()
        &&& self.fragments.dom().finite()
        &&& self.ack_pending ==> self.last_received_arq is Some
        &&& forall|key: u16| #[trigger]
            self.fragments.contains_key(key) ==> 0 < self.fragments[key].parts.len()
                <= MAX_FRAGMENTS
    }

    pub open spec fn emit(self, wire: Seq<u8>) -> Self {
        OldState { outbox: self.outbox.push(wire), ..self }
    }

    /// The acknowledgment that the next datagram carries.
    pub open spec fn owed(self) -> Option<u16> {
        if self.ack_pending {
            self.last_received_arq
        } else {
            None
        }
    }

    /// A datagram before its checksum.
    pub open spec fn unsealed(
        self,
        header_a: u8,
        arq: Option<u16>,
        fragment: Option<(u16, u16, u16)>,
        opcode: Option<u16>,
        body: Seq<u8>,
        asq: bool,
    ) -> Seq<u8> {
        seq![
            header_a,
            if self.owed() is Some {
                4u8
            } else {
                0u8
            },
        ] + bytes::be16(self.next_sequence) + word_bytes(self.owed()) + word_bytes(arq)
            + fragment_bytes(fragment) + asq_bytes(asq, self.next_asq) + word_bytes(opcode)
            + body_bytes(opcode is Some || fragment is Some, body)
    }

    /// The datagram, and the counters that it uses up.
    pub open spec fn framed(
        self,
        header_a: u8,
        arq: Option<u16>,
        fragment: Option<(u16, u16, u16)>,
        opcode: Option<u16>,
        body: Seq<u8>,
        asq: bool,
        now: u64,
    ) -> (Self, Seq<u8>) {
        let payload = self.unsealed(header_a, arq, fragment, opcode, body, asq);
        (
            OldState {
                ack_pending: self.ack_pending && self.owed() is None,
                last_ack: if self.owed() is Some {
                    now
                } else {
                    self.last_ack
                },
                next_sequence: self.next_sequence.wrapping_add(1),
                next_asq: if asq {
                    self.next_asq.wrapping_add(1)
                } else {
                    self.next_asq
                },
                ..self
            },
            payload + bytes::be32(outside::crc32_of(payload)),
        )
    }

    /// The first header byte of a reliable packet.
    pub open spec fn reliable_header(self, fragment: bool, asq: bool) -> u8 {
        (2 + (if self.sent_start {
            0int
        } else {
            32
        }) + (if fragment {
            8int
        } else {
            0
        }) + (if asq {
            16int
        } else {
            0
        })) as u8
    }

    /// Send one reliable packet and keep it until it is acknowledged.
    pub open spec fn sent_part(
        self,
        opcode: Option<u16>,
        body: Seq<u8>,
        fragment: Option<(u16, u16, u16)>,
        asq: bool,
        now: u64,
    ) -> (Self, Option<LegacyError>) {
        if self.pending.len() >= WINDOW {
            (self, Some(LegacyError::OutgoingWindow))
        } else {
            let (next, wire) = OldState {
                next_arq: self.next_arq.wrapping_add(1),
                sent_start: true,
                ..self
            }.framed(
                self.reliable_header(fragment is Some, asq),
                Some(self.next_arq),
                fragment,
                opcode,
                body,
                asq,
                now,
            );
            let kept = OldPendingState { arq: self.next_arq, wire, sent: now, attempts: 1 };
            (OldState { pending: next.pending.push(kept), ..next }.emit(wire), None)
        }
    }

    /// Send the fragments of an application from `current` on.
    pub open spec fn sent_parts(
        self,
        opcode: u16,
        body: Seq<u8>,
        id: u16,
        current: nat,
        total: nat,
        now: u64,
    ) -> (Self, Option<LegacyError>)
        decreases total - current,
    {
        if current >= total {
            (self, None)
        } else {
            let (next, error) = self.sent_part(
                if current == 0 {
                    Some(opcode)
                } else {
                    None
                },
                part_of(body, current),
                Some((id, current as u16, total as u16)),
                current == 0,
                now,
            );
            if error is Some {
                (next, error)
            } else {
                next.sent_parts(opcode, body, id, current + 1, total, now)
            }
        }
    }

    /// An application packet, fragmented when it is long.
    pub open spec fn sending(self, opcode: u16, body: Seq<u8>, now: u64) -> (
        Self,
        Option<LegacyError>,
    ) {
        if self.closed {
            (self, Some(LegacyError::SessionClosed))
        } else if body.len() > MAX_APPLICATION {
            (self, Some(LegacyError::ApplicationTooLarge))
        } else if body.len() < 512 {
            self.sent_part(Some(opcode), body, None, true, now)
        } else {
            OldState { next_fragment: self.next_fragment.wrapping_add(1), ..self }.sent_parts(
                opcode,
                body,
                self.next_fragment,
                0,
                part_count(body.len()),
                now,
            )
        }
    }

    /// Queue what a packet delivers: an application, or one whose last missing
    /// fragment it brings.
    pub open spec fn delivered(self, packet: DecodedState) -> (Self, Option<LegacyError>) {
        match packet.fragment {
            None => match packet.opcode {
                Some(opcode) => (self.queued(opcode, packet.body), None),
                None => (self, None),
            },
            Some((sequence, current, total)) => if total == 0 || current >= total {
                (self, Some(LegacyError::FragmentIndexes))
            } else if total > MAX_FRAGMENTS {
                (self, Some(LegacyError::FragmentTotal))
            } else if !self.fragments.contains_key(sequence) && self.fragments.dom().len()
                >= MAX_FRAGMENT_GROUPS {
                (self, Some(LegacyError::FragmentGroups))
            } else {
                let group = if self.fragments.contains_key(sequence) {
                    self.fragments[sequence]
                } else {
                    FragmentState {
                        opcode: None,
                        parts: Seq::new(total as nat, |i: int| None::<Seq<u8>>),
                    }
                };
                if group.parts.len() != total {
                    (self, Some(LegacyError::FragmentChanged))
                } else {
                    self.grouped(
                        sequence,
                        FragmentState {
                            opcode: if packet.opcode is Some {
                                packet.opcode
                            } else {
                                group.opcode
                            },
                            parts: group.parts.update(current as int, Some(packet.body)),
                        },
                    )
                }
            },
        }
    }

    pub open spec fn queued(self, opcode: u16, body: Seq<u8>) -> Self {
        OldState { applications: self.applications.push(App { opcode, body }), ..self }
    }

    /// Keep a group of fragments, or deliver it once complete.
    pub open spec fn grouped(self, sequence: u16, group: FragmentState) -> (
        Self,
        Option<LegacyError>,
    ) {
        if complete(group) {
            let rest = OldState { fragments: self.fragments.remove(sequence), ..self };
            if joined(group.parts).len() > MAX_APPLICATION {
                (rest, Some(LegacyError::Reassembled))
            } else {
                (rest.queued(group.opcode->0, joined(group.parts)), None)
            }
        } else {
            (OldState { fragments: self.fragments.insert(sequence, group), ..self }, None)
        }
    }

    /// Take the next packet of the stream.
    pub open spec fn accepted(self, arq: u16, packet: DecodedState) -> (Self, Option<LegacyError>) {
        OldState { last_received_arq: Some(arq), ack_pending: true, ..self }.delivered(packet)
    }

    /// Take every held packet whose turn has come.
    pub open spec fn drained(self) -> (Self, Option<LegacyError>)
        decreases self.reorder.dom().len(),
        when self.reorder.dom().finite()
    {
        match self.last_received_arq {
            None => (self, None),
            Some(last) => {
                let expected = last.wrapping_add(1);
                if self.reorder.contains_key(expected) {
                    let (next, error) = OldState {
                        reorder: self.reorder.remove(expected),
                        ..self
                    }.accepted(expected, self.reorder[expected]);
                    if error is Some {
                        (next, error)
                    } else {
                        next.drained()
                    }
                } else {
                    (self, None)
                }
            },
        }
    }

    pub open spec fn hold(self, arq: u16, packet: DecodedState) -> Self {
        if self.reorder.contains_key(arq) {
            self
        } else {
            OldState { reorder: self.reorder.insert(arq, packet), ..self }
        }
    }

    /// A reliable packet of a stream whose beginning is known.
    pub open spec fn placed(self, last: u16, arq: u16, packet: DecodedState) -> (
        Self,
        Option<LegacyError>,
    ) {
        let distance = arq.wrapping_sub(last.wrapping_add(1));
        if distance >= 32768 {
            (OldState { ack_pending: true, ..self }, None)
        } else if distance >= WINDOW {
            (self, Some(LegacyError::IncomingWindow))
        } else if distance > 0 {
            (self.hold(arq, packet), None)
        } else {
            let (next, error) = self.accepted(arq, packet);
            if error is Some {
                (next, error)
            } else {
                next.drained()
            }
        }
    }

    /// A reliable packet: the start of a sequence, one at number zero where
    /// nothing came before, or one of a stream in progress.
    pub open spec fn sequenced(self, arq: u16, packet: DecodedState) -> (
        Self,
        Option<LegacyError>,
    ) {
        if starts_sequence(packet.header_a) {
            let last = arq.wrapping_sub(1);
            OldState {
                reorder: if self.last_received_arq is Some {
                    Map::empty()
                } else {
                    self.reorder
                },
                last_received_arq: Some(last),
                ..self
            }.placed(last, arq, packet)
        } else {
            match self.last_received_arq {
                Some(last) => self.placed(last, arq, packet),
                None => if arq == 0 {
                    OldState { last_received_arq: Some(u16::MAX), ..self }.placed(
                        u16::MAX,
                        arq,
                        packet,
                    )
                } else if self.reorder.dom().len() >= WINDOW {
                    (self, Some(LegacyError::IncomingWindow))
                } else {
                    (self.hold(arq, packet), None)
                },
            }
        }
    }

    pub open spec fn acknowledged(self, arsp: u16) -> Self {
        OldState { pending: uncovered(self.pending, arsp), ..self }
    }

    /// The pending packets after all that a datagram says of them.
    pub open spec fn answered(self, packet: DecodedState, now: u64) -> Self {
        let a = match packet.arsp {
            Some(arsp) => uncovered(self.pending, arsp),
            None => self.pending,
        };
        let b = match packet.resend_before {
            Some(before) => requested(a, before, now),
            None => a,
        };
        let start = match packet.arsp {
            Some(arsp) => arsp.wrapping_add(1),
            None => 1,
        };
        OldState {
            pending: selective(
                b,
                start,
                packet.selective_ack,
                8 * packet.selective_ack.len(),
                now,
            ),
            ..self
        }
    }

    /// One decoded datagram.
    pub open spec fn processed(self, packet: DecodedState, now: u64) -> (
        Self,
        Option<LegacyError>,
    ) {
        let s = self.answered(packet, now);
        if closes(packet.header_a) {
            (OldState { closed: true, ..s }, None)
        } else {
            match packet.arq {
                None => s.delivered(packet),
                Some(arq) => s.sequenced(arq, packet),
            }
        }
    }

    /// A datagram that carries nothing but the acknowledgment.
    pub open spec fn acking(self, now: u64) -> Self {
        let (next, wire) = self.framed(0, None, None, None, Seq::empty(), false, now);
        next.emit(wire)
    }

    /// The first `n` pending packets, sent again where three seconds have passed.
    pub open spec fn retransmitted(self, n: nat, now: u64) -> (Self, Option<LegacyError>)
        decreases n,
    {
        if n == 0 {
            (self, None)
        } else {
            let (s, error) = self.retransmitted((n - 1) as nat, now);
            let p = s.pending[n - 1];
            if error is Some || model::elapsed(now, p.sent) < 3_000_000_000 {
                (s, error)
            } else if p.attempts >= 10 {
                (s, Some(LegacyError::Unacknowledged))
            } else {
                (
                    OldState {
                        pending: s.pending.update(
                            n - 1,
                            OldPendingState {
                                sent: now,
                                attempts: (p.attempts + 1) as u8,
                                ..p
                            },
                        ),
                        ..s
                    }.emit(p.wire),
                    None,
                )
            }
        }
    }

    /// What is due before the next datagram is read.
    pub open spec fn polled(self, now: u64) -> (Self, Result<Option<App>, LegacyError>) {
        if self.applications.len() > 0 {
            (
                OldState { applications: self.applications.skip(1), ..self },
                Ok(Some(self.applications[0])),
            )
        } else if self.closed {
            (self, Err(LegacyError::ServerClosed))
        } else {
            let told = if self.ack_pending && model::elapsed(now, self.last_ack) >= 100_000_000 {
                self.acking(now)
            } else {
                self
            };
            let (again, error) = told.retransmitted(told.pending.len(), now);
            if error is Some {
                (again, Err(error->0))
            } else if model::elapsed(now, again.last_receive) >= 60_000_000_000 {
                (again, Err(LegacyError::Silent))
            } else {
                (again, Ok(None))
            }
        }
    }

    /// A datagram from the server.
    pub open spec fn received(self, wire: Seq<u8>, now: u64) -> (
        Self,
        Result<Option<App>, LegacyError>,
    ) {
        match decoded(wire) {
            Err(e) => (self, Err(e)),
            Ok(packet) => {
                let (next, error) = OldState { last_receive: now, ..self }.processed(packet, now);
                if error is Some {
                    (next, Err(error->0))
                } else if next.applications.len() > 0 {
                    (
                        OldState { applications: next.applications.skip(1), ..next },
                        Ok(Some(next.applications[0])),
                    )
                } else {
                    (next, Ok(None))
                }
            },
        }
    }

    /// The stream after its closing flags, which are sent once.
    pub open spec fn closing(self, now: u64) -> Self {
        if self.closed {
            self
        } else {
            let (next, wire) = OldState {
                next_arq: self.next_arq.wrapping_add(1),
                ..self
            }.framed(70, Some(self.next_arq), None, None, Seq::empty(), false, now);
            OldState { closed: true, ..next.emit(wire) }
        }
    }
}

} // verus!

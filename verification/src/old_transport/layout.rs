//! Where the bytes of a legacy datagram stand, on the way out and on the way in.

use super::model::{self, DecodedState, OldPendingState, OldState};
use super::LegacyError;
use crate::outside;
use vstd::prelude::*;

verus! {

/// The two bytes of a number, the high one first.
pub open spec fn two(v: u16) -> Seq<u8> {
    seq![(v / 256) as u8, (v % 256) as u8]
}

/// The bytes of a number that may be left out.
pub open spec fn two_if(v: Option<u16>) -> Seq<u8> {
    if v is Some {
        two(v->0)
    } else {
        Seq::empty()
    }
}

/// The bytes of the place of a fragment: the group, the fragment and how many there
/// are.
pub open spec fn place_if(v: Option<(u16, u16, u16)>) -> Seq<u8> {
    match v {
        Some((group, current, total)) => two(group) + two(current) + two(total),
        None => Seq::empty(),
    }
}

/// Bytes with their checksum behind them, the high byte first.
pub open spec fn with_checksum(payload: Seq<u8>) -> Seq<u8> {
    let crc = outside::crc32_of(payload);
    payload + seq![
        (crc / 0x100_0000) as u8,
        (crc / 0x1_0000 % 256) as u8,
        (crc / 0x100 % 256) as u8,
        (crc % 256) as u8,
    ]
}

/// A datagram is two header bytes, its number, the acknowledgment where one is owed,
/// the number in the reliable stream, the place of a fragment, a zero and the next
/// ASQ number where one is asked for, the opcode and the application, and a checksum.
/// It uses up its number, and the acknowledgment is owed no more.
pub proof fn law_datagram_layout(
    s: OldState,
    header: u8,
    arq: Option<u16>,
    fragment: Option<(u16, u16, u16)>,
    opcode: Option<u16>,
    body: Seq<u8>,
    asq: bool,
    now: u64,
)
    requires
        s.wf(),
    ensures
        ({
            let (next, wire) = s.framed(header, arq, fragment, opcode, body, asq, now);
            let ack = if s.ack_pending {
                s.last_received_arq
            } else {
                None
            };
            let flags = if s.ack_pending {
                4u8
            } else {
                0u8
            };
            let tail = if asq {
                seq![0u8, s.next_asq]
            } else {
                Seq::empty()
            };
            let data = if opcode is Some || fragment is Some {
                body
            } else {
                Seq::empty()
            };
            &&& wire == with_checksum(
                seq![header, flags] + two(s.next_sequence) + two_if(ack) + two_if(arq) + place_if(
                    fragment,
                ) + tail + two_if(opcode) + data,
            )
            &&& next == (OldState {
                ack_pending: false,
                last_ack: if s.ack_pending {
                    now
                } else {
                    s.last_ack
                },
                next_sequence: ((s.next_sequence + 1) % 65536) as u16,
                next_asq: if asq {
                    ((s.next_asq + 1) % 256) as u8
                } else {
                    s.next_asq
                },
                ..s
            })
        }),
{
    let ack = if s.ack_pending {
        s.last_received_arq
    } else {
        None
    };
    assert(s.owed() == ack);
    assert(model::word_bytes(ack) =~= two_if(ack));
    assert(model::word_bytes(arq) =~= two_if(arq));
    assert(model::word_bytes(opcode) =~= two_if(opcode));
    assert(model::fragment_bytes(fragment) =~= place_if(fragment));
    assert(s.next_sequence.wrapping_add(1) == (s.next_sequence + 1) % 65536);
    assert(s.next_asq.wrapping_add(1) == (s.next_asq + 1) % 256);
}

/// A reliable packet goes out under the next number and is kept until it is
/// acknowledged. Its header marks it reliable, and says whether it is the first, a
/// fragment, and one with an ASQ number. A window that is full takes none.
pub proof fn law_packets_are_numbered_and_kept(
    s: OldState,
    opcode: Option<u16>,
    body: Seq<u8>,
    fragment: Option<(u16, u16, u16)>,
    asq: bool,
    now: u64,
)
    ensures
        ({
            let (next, error) = s.sent_part(opcode, body, fragment, asq, now);
            let header = 0x02 + (if s.sent_start {
                0int
            } else {
                0x20
            }) + (if fragment is Some {
                0x08int
            } else {
                0
            }) + (if asq {
                0x10int
            } else {
                0
            });
            let begun = OldState {
                next_arq: ((s.next_arq + 1) % 65536) as u16,
                sent_start: true,
                ..s
            };
            let (framed, wire) = begun.framed(
                header as u8,
                Some(s.next_arq),
                fragment,
                opcode,
                body,
                asq,
                now,
            );
            &&& s.pending.len() >= 2048 ==> next == s && error == Some(LegacyError::OutgoingWindow)
            &&& s.pending.len() < 2048 ==> error is None && next == (OldState {
                pending: s.pending.push(
                    (OldPendingState { arq: s.next_arq, wire, sent: now, attempts: 1 }),
                ),
                outbox: s.outbox.push(wire),
                ..framed
            })
        }),
{
    assert(s.next_arq.wrapping_add(1) == (s.next_arq + 1) % 65536);
}

/// Where fragment `i` starts.
pub open spec fn fragment_start(i: int) -> int {
    if i == 0 {
        0
    } else {
        512 * i - 2
    }
}

/// An application is cut without a gap: the first fragment has 510 bytes and each
/// other one 512, but for the last, which has what is left and is not empty.
pub proof fn law_fragments_cut_the_application(body: Seq<u8>, i: nat)
    requires
        body.len() >= 512,
        i < model::part_count(body.len()),
    ensures
        ({
            let n = model::part_count(body.len()) as int;
            let end = if i == n - 1 {
                body.len() as int
            } else {
                fragment_start(i as int + 1)
            };
            &&& fragment_start(n - 1) < body.len() <= fragment_start(n)
            &&& 0 <= fragment_start(i as int) < end <= body.len()
            &&& model::part_of(body, i) == body.subrange(fragment_start(i as int), end)
        }),
{
    let n = model::part_count(body.len()) as int;
    let end = if i == n - 1 {
        body.len() as int
    } else {
        fragment_start(i as int + 1)
    };
    assert(model::part_of(body, i) =~= body.subrange(fragment_start(i as int), end));
}

/// What fragment `i` of an application is sent as: only the first has the opcode and
/// an ASQ number, and each tells its place.
pub open spec fn fragment_sent(
    s: OldState,
    opcode: u16,
    body: Seq<u8>,
    group: u16,
    i: int,
    now: u64,
) -> (OldState, Option<LegacyError>) {
    s.sent_part(
        if i == 0 {
            Some(opcode)
        } else {
            None
        },
        model::part_of(body, i as nat),
        Some((group, i as u16, model::part_count(body.len()) as u16)),
        i == 0,
        now,
    )
}

proof fn lemma_fragments_in_turn(
    states: Seq<OldState>,
    opcode: u16,
    body: Seq<u8>,
    group: u16,
    from: nat,
    now: u64,
)
    requires
        states.len() == model::part_count(body.len()) + 1,
        from < states.len(),
        forall|i: int|
            0 <= i < states.len() - 1 ==> #[trigger] fragment_sent(
                states[i],
                opcode,
                body,
                group,
                i,
                now,
            ) == (states[i + 1], None::<LegacyError>),
    ensures
        states[from as int].sent_parts(
            opcode,
            body,
            group,
            from,
            model::part_count(body.len()),
            now,
        ) == (states.last(), None::<LegacyError>),
    decreases states.len() - from,
{
    if from < states.len() - 1 {
        assert(fragment_sent(states[from as int], opcode, body, group, from as int, now) == (
            states[from as int + 1],
            None::<LegacyError>,
        ));
        lemma_fragments_in_turn(states, opcode, body, group, from + 1, now);
    }
}

/// A long application goes out as all of its fragments in turn, in a group of its
/// own.
pub proof fn law_long_applications_go_out_in_turn(
    s: OldState,
    states: Seq<OldState>,
    opcode: u16,
    body: Seq<u8>,
    now: u64,
)
    requires
        !s.closed,
        512 <= body.len() <= 16_777_216,
        states.len() == model::part_count(body.len()) + 1,
        states[0] == (OldState { next_fragment: ((s.next_fragment + 1) % 65536) as u16, ..s }),
        forall|i: int|
            0 <= i < states.len() - 1 ==> #[trigger] fragment_sent(
                states[i],
                opcode,
                body,
                s.next_fragment,
                i,
                now,
            ) == (states[i + 1], None::<LegacyError>),
    ensures
        s.sending(opcode, body, now) == (states.last(), None::<LegacyError>),
{
    lemma_fragments_in_turn(states, opcode, body, s.next_fragment, 0, now);
    assert(s.next_fragment.wrapping_add(1) == (s.next_fragment + 1) % 65536);
}

/// A short application goes out in one packet, with an ASQ number. Nothing goes out
/// of a closed stream, and no application over sixteen mebibytes.
pub proof fn law_what_can_be_sent(s: OldState, opcode: u16, body: Seq<u8>, now: u64)
    ensures
        s.closed ==> s.sending(opcode, body, now) == (s, Some(LegacyError::SessionClosed)),
        !s.closed && body.len() > 16_777_216 ==> s.sending(opcode, body, now) == (
            s,
            Some(LegacyError::ApplicationTooLarge),
        ),
        !s.closed && body.len() < 512 ==> s.sending(opcode, body, now) == s.sent_part(
            Some(opcode),
            body,
            None,
            true,
            now,
        ),
{
}

/// A datagram is read only where its last four bytes are the checksum of what stands
/// before them, and where it has ten bytes.
pub proof fn law_datagrams_are_checked(payload: Seq<u8>, wire: Seq<u8>)
    ensures
        wire.len() < 10 ==> model::decoded(wire) == Err::<DecodedState, _>(LegacyError::Truncated),
        payload.len() >= 6 ==> model::decoded(with_checksum(payload)) == model::fields(payload),
        wire.len() >= 10 && wire != with_checksum(wire.take(wire.len() - 4)) ==> model::decoded(wire)
            == Err::<DecodedState, _>(LegacyError::Crc),
{
    if payload.len() >= 6 {
        let sealed = with_checksum(payload);
        assert(sealed.take(sealed.len() - 4) =~= payload);
    }
    if wire.len() >= 10 {
        let front = wire.take(wire.len() - 4);
        let crc = outside::crc32_of(front);
        if crc == crate::bytes::be32_at(wire, wire.len() - 4) {
            let n = wire.len() as int;
            lemma_word_bytes(crc, wire[n - 4], wire[n - 3], wire[n - 2], wire[n - 1]);
            assert(wire =~= with_checksum(front));
        }
    }
}

proof fn lemma_word_bytes(v: u32, a: u8, b: u8, c: u8, d: u8)
    requires
        v == 0x100_0000 * a + 0x1_0000 * b + 0x100 * c + d,
    ensures
        v / 0x100_0000 == a,
        v / 0x1_0000 % 256 == b,
        v / 0x100 % 256 == c,
        v % 256 == d,
{
    assert(v / 0x1_0000 == 0x100 * a + b);
    assert(v / 0x100 == 0x1_0000 * a + 0x100 * b + c);
}

/// Whether the second header byte announces these acknowledgment fields: bit 2 an
/// acknowledgment, bit 3 a request to resend, and the upper half the length of a
/// selective acknowledgment.
pub open spec fn announces_acks(
    flags: u8,
    arsp: Option<u16>,
    resend: Option<u16>,
    selective: Seq<u8>,
) -> bool {
    &&& flags / 4 % 2 == if arsp is Some {
        1int
    } else {
        0
    }
    &&& flags / 8 % 2 == if resend is Some {
        1int
    } else {
        0
    }
    &&& flags / 16 == selective.len()
}

/// Whether the first header byte announces these fields of the stream: bit 1 a
/// number, bit 3 the place of a fragment, bit 4 an ASQ number, which has two bytes in
/// a reliable packet and else one.
pub open spec fn announces_stream(
    header: u8,
    arq: Option<u16>,
    fragment: Option<(u16, u16, u16)>,
    asq: Seq<u8>,
) -> bool {
    &&& header / 2 % 2 == if arq is Some {
        1int
    } else {
        0
    }
    &&& header / 8 % 2 == if fragment is Some {
        1int
    } else {
        0
    }
    &&& header / 16 % 2 == 0 ==> asq.len() == 0
    &&& header / 16 % 2 == 1 ==> asq.len() == if arq is Some {
        2int
    } else {
        1
    }
}

/// What is read where `rest` stands behind the fields that a datagram announces: the
/// opcode stands in front of the application, or of its first fragment, and a packet
/// that closes the stream has none.
#[verifier::opaque]
pub open spec fn announced(
    header: u8,
    acks: (Option<u16>, Option<u16>, Seq<u8>),
    stream: (Option<u16>, Option<(u16, u16, u16)>),
    rest: Seq<u8>,
) -> Result<DecodedState, LegacyError> {
    let closing = header / 4 % 2 == 1 && header / 64 % 2 == 1;
    let first = stream.1 matches Some((_, current, _)) ==> current == 0;
    let named = rest.len() > 0 && !closing && first;
    if named && rest.len() == 1 {
        Err(LegacyError::Header)
    } else {
        Ok(
            DecodedState {
                header_a: header,
                arsp: acks.0,
                resend_before: acks.1,
                selective_ack: acks.2,
                arq: stream.0,
                fragment: stream.1,
                opcode: if named {
                    Some((256 * rest[0] + rest[1]) as u16)
                } else {
                    None
                },
                body: if named {
                    rest.skip(2)
                } else {
                    rest
                },
            },
        )
    }
}

/// The fields of a datagram are read in the order in which they are announced.
pub proof fn law_fields_are_read_in_order(
    header: u8,
    flags: u8,
    number: u16,
    acks: (Option<u16>, Option<u16>, Seq<u8>),
    stream: (Option<u16>, Option<(u16, u16, u16)>),
    asq: Seq<u8>,
    rest: Seq<u8>,
)
    requires
        announces_acks(flags, acks.0, acks.1, acks.2),
        announces_stream(header, stream.0, stream.1, asq),
    ensures
        model::fields(
            seq![header, flags] + two(number) + two_if(acks.0) + two_if(acks.1) + acks.2 + two_if(
                stream.0,
            ) + place_if(stream.1) + asq + rest,
        ) == announced(header, acks, stream, rest),
{
    let begin = seq![header, flags] + two(number) + two_if(acks.0) + two_if(acks.1) + acks.2;
    let later = two_if(stream.0) + place_if(stream.1) + asq + rest;
    let front = begin + two_if(stream.0) + place_if(stream.1) + asq;
    lemma_five_joined(begin, two_if(stream.0), place_if(stream.1), asq, rest);
    assert(begin.len() > 0 && begin[0] == header);
    lemma_acks_read(header, flags, number, acks.0, acks.1, acks.2, later);
    lemma_stream_read(begin, header, stream.0, stream.1, asq, rest);
    lemma_application_read(
        front + rest,
        header,
        acks,
        begin.len() as int,
        stream,
        front.len() as int,
        rest,
    );
}

proof fn lemma_five_joined(a: Seq<u8>, b: Seq<u8>, c: Seq<u8>, d: Seq<u8>, e: Seq<u8>)
    ensures
        a + b + c + d + e == a + (b + c + d + e),
        (a + b + c + d + e).skip((a + b + c + d).len() as int) == e,
        a.len() > 0 ==> (a + b + c + d + e)[0] == a[0],
{
    assert(a + b + c + d + e =~= a + (b + c + d + e));
    assert((a + b + c + d + e).skip((a + b + c + d).len() as int) =~= e);
}

proof fn lemma_application_read(
    payload: Seq<u8>,
    header: u8,
    acks: (Option<u16>, Option<u16>, Seq<u8>),
    at: int,
    stream: (Option<u16>, Option<(u16, u16, u16)>),
    end: int,
    rest: Seq<u8>,
)
    requires
        0 < end,
        payload[0] == header,
        payload.len() == end + rest.len(),
        payload.skip(end) == rest,
        model::ack_fields(payload) == Ok::<_, LegacyError>((acks.0, acks.1, acks.2, at)),
        model::stream_fields(payload, at) == Ok::<_, LegacyError>((stream.0, stream.1, end)),
    ensures
        model::fields(payload) == announced(header, acks, stream, rest),
{
    reveal(announced);
    if rest.len() >= 2 {
        assert(payload.skip(end + 2) =~= rest.skip(2));
        assert(payload[end] == rest[0] && payload[end + 1] == rest[1]);
    }
}

proof fn lemma_acks_read(
    header: u8,
    flags: u8,
    number: u16,
    arsp: Option<u16>,
    resend: Option<u16>,
    selective: Seq<u8>,
    later: Seq<u8>,
)
    requires
        announces_acks(flags, arsp, resend, selective),
    ensures
        ({
            let acks = seq![header, flags] + two(number) + two_if(arsp) + two_if(resend) + selective;
            model::ack_fields(acks + later) == Ok::<_, LegacyError>(
                (arsp, resend, selective, acks.len() as int),
            )
        }),
{
    let acks = seq![header, flags] + two(number) + two_if(arsp) + two_if(resend) + selective;
    let payload = acks + later;
    assert(payload[1] == flags);
    let at_resend = 4 + two_if(arsp).len() as int;
    let at_selective = at_resend + two_if(resend).len() as int;
    if arsp is Some {
        assert(payload[4] == two(arsp->0)[0] && payload[5] == two(arsp->0)[1]);
    }
    if resend is Some {
        assert(payload[at_resend] == two(resend->0)[0] && payload[at_resend + 1] == two(
            resend->0,
        )[1]);
    }
    assert(payload.subrange(at_selective, acks.len() as int) =~= selective);
}

proof fn lemma_stream_read(
    acks: Seq<u8>,
    header: u8,
    arq: Option<u16>,
    fragment: Option<(u16, u16, u16)>,
    asq: Seq<u8>,
    rest: Seq<u8>,
)
    requires
        acks.len() >= 1,
        acks[0] == header,
        announces_stream(header, arq, fragment, asq),
    ensures
        ({
            let front = acks + two_if(arq) + place_if(fragment) + asq;
            model::stream_fields(front + rest, acks.len() as int) == Ok::<_, LegacyError>(
                (arq, fragment, front.len() as int),
            )
        }),
{
    let front = acks + two_if(arq) + place_if(fragment) + asq;
    let payload = front + rest;
    assert(payload[0] == header);
    let at = acks.len() as int;
    let at_fragment = at + two_if(arq).len() as int;
    if arq is Some {
        assert(payload[at] == two(arq->0)[0] && payload[at + 1] == two(arq->0)[1]);
    }
    if fragment is Some {
        let (group, current, total) = fragment->0;
        let place = place_if(fragment);
        assert(place[0] == two(group)[0] && place[1] == two(group)[1] && place[2] == two(current)[0]
            && place[3] == two(current)[1] && place[4] == two(total)[0] && place[5] == two(
            total,
        )[1]);
        assert forall|k: int| 0 <= k < 6 implies payload[at_fragment + k] == #[trigger] place[k] by {
        }
        assert(payload[at_fragment] == place[0] && payload[at_fragment + 1] == place[1]
            && payload[at_fragment + 2] == place[2] && payload[at_fragment + 3] == place[3]
            && payload[at_fragment + 4] == place[4] && payload[at_fragment + 5] == place[5]);
    }
}

/// A datagram without room for what its header announces is refused, by the first of
/// its fields that does not fit.
pub proof fn law_short_datagrams_are_refused(payload: Seq<u8>)
    requires
        payload.len() >= 6,
    ensures
        ({
            let header = payload[0];
            let flags = payload[1];
            let bit = |byte: u8, value: int| byte as int / value % 2;
            let words = 4 + 2 * bit(flags, 4) + 2 * bit(flags, 8);
            let acks = words + flags as int / 16;
            let stream = acks + 2 * bit(header, 2) + 6 * bit(header, 8);
            let asq = bit(header, 16) * (1 + bit(header, 2));
            let r = model::fields(payload);
            &&& words > payload.len() ==> r == Err::<DecodedState, _>(LegacyError::Header)
            &&& words <= payload.len() < acks ==> r == Err::<DecodedState, _>(
                LegacyError::SelectiveAck,
            )
            &&& acks <= payload.len() < stream ==> r == Err::<DecodedState, _>(LegacyError::Header)
            &&& stream <= payload.len() < stream + asq ==> r == Err::<DecodedState, _>(
                LegacyError::Asq,
            )
        }),
{
    let header = payload[0];
    let one = header as int / 2 % 2;
    let b = header as int / 16 % 2;
    assert(b == 0 ==> b * (1 + one) == 0) by (nonlinear_arith);
    assert(b == 1 ==> b * (1 + one) == 1 + one) by (nonlinear_arith);
}

/// A long application goes out up to the first fragment that the window has no room for.
pub proof fn law_fragments_go_out_while_there_is_room(
    s: OldState,
    states: Seq<OldState>,
    opcode: u16,
    body: Seq<u8>,
    now: u64,
)
    requires
        !s.closed,
        512 <= body.len() <= 16_777_216,
        0 < states.len() <= model::part_count(body.len()),
        states[0] == (OldState { next_fragment: ((s.next_fragment + 1) % 65536) as u16, ..s }),
        forall|i: int|
            0 <= i < states.len() - 1 ==> #[trigger] fragment_sent(
                states[i],
                opcode,
                body,
                s.next_fragment,
                i,
                now,
            ) == (states[i + 1], None::<LegacyError>),
        states.last().pending.len() >= 2048,
    ensures
        s.sending(opcode, body, now) == (states.last(), Some(LegacyError::OutgoingWindow)),
{
    lemma_fragments_up_to(states, opcode, body, s.next_fragment, 0, now);
    assert(s.next_fragment.wrapping_add(1) == (s.next_fragment + 1) % 65536);
}

proof fn lemma_fragments_up_to(
    states: Seq<OldState>,
    opcode: u16,
    body: Seq<u8>,
    group: u16,
    from: nat,
    now: u64,
)
    requires
        states.len() <= model::part_count(body.len()),
        from < states.len(),
        forall|i: int|
            0 <= i < states.len() - 1 ==> #[trigger] fragment_sent(
                states[i],
                opcode,
                body,
                group,
                i,
                now,
            ) == (states[i + 1], None::<LegacyError>),
        states.last().pending.len() >= 2048,
    ensures
        states[from as int].sent_parts(
            opcode,
            body,
            group,
            from,
            model::part_count(body.len()),
            now,
        ) == (states.last(), Some(LegacyError::OutgoingWindow)),
    decreases states.len() - from,
{
    if from < states.len() - 1 {
        assert(fragment_sent(states[from as int], opcode, body, group, from as int, now) == (
            states[from as int + 1],
            None::<LegacyError>,
        ));
        lemma_fragments_up_to(states, opcode, body, group, from + 1, now);
    }
}

} // verus!

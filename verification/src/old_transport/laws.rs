//! What a legacy stream keeps of the packets that pass through it.

use super::model::{self, DecodedState, FragmentState, OldPendingState, OldState};
use super::{LegacyError, MAX_FRAGMENT_GROUPS, WINDOW};
use crate::bytes;
use crate::outside;
use crate::transport::model::App;
use crate::transport::MAX_APPLICATION;
use vstd::prelude::*;

verus! {

/// A word stands where it was put.
proof fn lemma_word_at(before: Seq<u8>, v: u16, after: Seq<u8>)
    ensures
        bytes::be16_at(before + bytes::be16(v) + after, before.len() as int) == v,
{
    bytes::lemma_integers_round_trip(v, 0);
    let all = before + bytes::be16(v) + after;
    assert(all[before.len() as int] == bytes::be16(v)[0]);
    assert(all[before.len() as int + 1] == bytes::be16(v)[1]);
}

/// Optional words are found again.
proof fn lemma_optional_word(before: Seq<u8>, value: Option<u16>, after: Seq<u8>)
    ensures
        ({
            let all = before + model::word_bytes(value) + after;
            let at = before.len() as int;
            &&& model::word(all, at, value is Some) == Ok::<_, LegacyError>(value)
            &&& model::past(at, value is Some, 2) == (before + model::word_bytes(value)).len()
        }),
{
    if value is Some {
        lemma_word_at(before, value->0, after);
    }
}

proof fn lemma_optional_fragment(
    before: Seq<u8>,
    fragment: Option<(u16, u16, u16)>,
    after: Seq<u8>,
)
    ensures
        ({
            let all = before + model::fragment_bytes(fragment) + after;
            let at = before.len() as int;
            &&& model::fragment_words(all, at, fragment is Some) == Ok::<_, LegacyError>(fragment)
            &&& model::past(at, fragment is Some, 6) == (before + model::fragment_bytes(
                fragment,
            )).len()
        }),
{
    if let Some((a, b, c)) = fragment {
        let all = before + model::fragment_bytes(fragment) + after;
        let x = bytes::be16(a);
        let y = bytes::be16(b);
        let z = bytes::be16(c);
        lemma_word_at(before, a, y + z + after);
        assert(before + x + (y + z + after) =~= all);
        lemma_word_at(before + x, b, z + after);
        assert(before + x + y + (z + after) =~= all);
        lemma_word_at(before + x + y, c, after);
        assert(before + x + y + z + after =~= all);
    }
}

/// A reliable packet reads back as it was framed: with its number, the
/// acknowledgment that was owed, its place among the fragments, its opcode and
/// its body.
pub proof fn law_framed_packet_decodes(
    s: OldState,
    opcode: Option<u16>,
    body: Seq<u8>,
    fragment: Option<(u16, u16, u16)>,
    asq: bool,
    arq: u16,
    now: u64,
)
    requires
        opcode is Some <==> (fragment matches Some((_, current, _)) ==> current == 0),
    ensures
        ({
            let header = s.reliable_header(fragment is Some, asq);
            let wire = s.framed(header, Some(arq), fragment, opcode, body, asq, now).1;
            model::decoded(wire) == Ok::<_, LegacyError>(
                DecodedState {
                    header_a: header,
                    arsp: s.owed(),
                    resend_before: None,
                    selective_ack: Seq::empty(),
                    arq: Some(arq),
                    fragment,
                    opcode,
                    body,
                },
            )
        }),
{
    let header = s.reliable_header(fragment is Some, asq);
    let wire = s.framed(header, Some(arq), fragment, opcode, body, asq, now).1;
    let payload = s.unsealed(header, Some(arq), fragment, opcode, body, asq);
    let crc = outside::crc32_of(payload);
    assert(wire.take(wire.len() - 4) =~= payload);
    bytes::lemma_integers_round_trip(0, crc);
    assert(wire[wire.len() - 4] == bytes::be32(crc)[0]);
    assert(wire[wire.len() - 3] == bytes::be32(crc)[1]);
    assert(wire[wire.len() - 2] == bytes::be32(crc)[2]);
    assert(wire[wire.len() - 1] == bytes::be32(crc)[3]);
    lemma_fields_read_back(s, opcode, body, fragment, asq, arq);
    assert(payload.len() >= 6);
}

/// The fields of a reliable packet, one after the other.
#[verifier::rlimit(60)]
#[verifier::spinoff_prover]
proof fn lemma_fields_read_back(
    s: OldState,
    opcode: Option<u16>,
    body: Seq<u8>,
    fragment: Option<(u16, u16, u16)>,
    asq: bool,
    arq: u16,
)
    requires
        opcode is Some <==> (fragment matches Some((_, current, _)) ==> current == 0),
    ensures
        ({
            let header = s.reliable_header(fragment is Some, asq);
            let payload = s.unsealed(header, Some(arq), fragment, opcode, body, asq);
            &&& payload.len() >= 6
            &&& model::fields(payload) == Ok::<_, LegacyError>(
                DecodedState {
                    header_a: header,
                    arsp: s.owed(),
                    resend_before: None,
                    selective_ack: Seq::empty(),
                    arq: Some(arq),
                    fragment,
                    opcode,
                    body,
                },
            )
        }),
{
    let header = s.reliable_header(fragment is Some, asq);
    let payload = s.unsealed(header, Some(arq), fragment, opcode, body, asq);
    let second: u8 = if s.owed() is Some {
        4
    } else {
        0
    };
    let w1 = model::word_bytes(s.owed());
    let w2 = model::word_bytes(Some(arq));
    let f = model::fragment_bytes(fragment);
    let a = model::asq_bytes(asq, s.next_asq);
    let w3 = model::word_bytes(opcode);
    let p0 = seq![header, second] + bytes::be16(s.next_sequence);
    let p1 = p0 + w1;
    let p2 = p1 + w2;
    let p3 = p2 + f;
    let p4 = p3 + a;
    let p5 = p4 + w3;
    assert(payload == p5 + body);
    vstd::seq_lib::lemma_concat_associative(p4, w3, body);
    vstd::seq_lib::lemma_concat_associative(p3, a, w3 + body);
    vstd::seq_lib::lemma_concat_associative(p2, f, a + (w3 + body));
    vstd::seq_lib::lemma_concat_associative(p1, w2, f + (a + (w3 + body)));
    vstd::seq_lib::lemma_concat_associative(p0, w1, w2 + (f + (a + (w3 + body))));
    lemma_optional_word(p0, s.owed(), w2 + (f + (a + (w3 + body))));
    lemma_optional_word(p1, Some(arq), f + (a + (w3 + body)));
    lemma_optional_fragment(p2, fragment, a + (w3 + body));
    lemma_optional_word(p4, opcode, body);
    assert(payload[0] == header && payload[1] == second);
    lemma_header_flags(s, fragment is Some, asq);
    lemma_ack_fields(payload, s.owed());
    lemma_stream_fields(payload, p1.len() as int, arq, fragment, asq);
    assert(payload.skip(p5.len() as int) =~= body);
    lemma_all_fields(payload, s.owed(), p1.len() as int, arq, fragment, p4.len() as int, opcode, body);
}

proof fn lemma_ack_fields(payload: Seq<u8>, owed: Option<u16>)
    requires
        payload.len() >= model::past(4, owed is Some, 2),
        payload[1] == (if owed is Some {
            4u8
        } else {
            0u8
        }),
        model::word(payload, 4, owed is Some) == Ok::<_, LegacyError>(owed),
    ensures
        model::ack_fields(payload) == Ok::<_, LegacyError>(
            (owed, None::<u16>, Seq::<u8>::empty(), model::past(4, owed is Some, 2)),
        ),
{
    let end = model::past(4, owed is Some, 2);
    assert(payload.subrange(end, end) =~= Seq::empty());
}

proof fn lemma_stream_fields(
    payload: Seq<u8>,
    at: int,
    arq: u16,
    fragment: Option<(u16, u16, u16)>,
    asq: bool,
)
    requires
        model::has_arq(payload[0]),
        model::has_fragment(payload[0]) == fragment is Some,
        model::has_asq(payload[0]) == asq,
        model::word(payload, at, true) == Ok::<_, LegacyError>(Some(arq)),
        model::fragment_words(payload, at + 2, fragment is Some) == Ok::<_, LegacyError>(fragment),
        model::past(model::past(at + 2, fragment is Some, 6), asq, 2) <= payload.len(),
    ensures
        model::stream_fields(payload, at) == Ok::<_, LegacyError>(
            (
                Some(arq),
                fragment,
                model::past(model::past(at + 2, fragment is Some, 6), asq, 2),
            ),
        ),
{
}

proof fn lemma_all_fields(
    payload: Seq<u8>,
    owed: Option<u16>,
    at: int,
    arq: u16,
    fragment: Option<(u16, u16, u16)>,
    end: int,
    opcode: Option<u16>,
    body: Seq<u8>,
)
    requires
        !model::closes(payload[0]),
        opcode is Some <==> (fragment matches Some((_, current, _)) ==> current == 0),
        model::ack_fields(payload) == Ok::<_, LegacyError>(
            (owed, None::<u16>, Seq::<u8>::empty(), at),
        ),
        model::stream_fields(payload, at) == Ok::<_, LegacyError>((Some(arq), fragment, end)),
        model::word(payload, end, opcode is Some) == Ok::<_, LegacyError>(opcode),
        opcode is Some ==> end < payload.len(),
        payload.skip(model::past(end, opcode is Some, 2)) == body,
    ensures
        model::fields(payload) == Ok::<_, LegacyError>(
            DecodedState {
                header_a: payload[0],
                arsp: owed,
                resend_before: None,
                selective_ack: Seq::empty(),
                arq: Some(arq),
                fragment,
                opcode,
                body,
            },
        ),
{
}

/// The flags of a reliable packet say what it holds.
proof fn lemma_header_flags(s: OldState, fragment: bool, asq: bool)
    ensures
        ({
            let header = s.reliable_header(fragment, asq);
            &&& model::has_arq(header)
            &&& model::has_fragment(header) == fragment
            &&& model::has_asq(header) == asq
            &&& model::starts_sequence(header) == !s.sent_start
            &&& !model::closes(header)
        }),
{
}

/// The fragments of an application, each with its part of the body.
pub open spec fn part_packet(opcode: u16, body: Seq<u8>, id: u16, i: nat) -> DecodedState {
    DecodedState {
        header_a: 0,
        arsp: None,
        resend_before: None,
        selective_ack: Seq::empty(),
        arq: None,
        fragment: Some((id, i as u16, model::part_count(body.len()) as u16)),
        opcode: if i == 0 {
            Some(opcode)
        } else {
            None
        },
        body: model::part_of(body, i),
    }
}

/// Parts delivered in a given order, up to the first error.
pub open spec fn delivered_parts(
    s: OldState,
    opcode: u16,
    body: Seq<u8>,
    id: u16,
    order: Seq<nat>,
) -> (OldState, Option<LegacyError>)
    decreases order.len(),
{
    if order.len() == 0 {
        (s, None)
    } else {
        let (before, error) = delivered_parts(s, opcode, body, id, order.drop_last());
        if error is Some {
            (before, error)
        } else {
            before.delivered(part_packet(opcode, body, id, order.last()))
        }
    }
}

/// All parts of a body.
spec fn all_parts(body: Seq<u8>) -> Seq<Option<Seq<u8>>> {
    Seq::new(model::part_count(body.len()), |i: int| Some(model::part_of(body, i as nat)))
}

/// The parts of a body put together are the body.
proof fn lemma_parts_join(body: Seq<u8>, n: nat)
    requires
        510 < body.len(),
        n <= model::part_count(body.len()),
    ensures
        model::joined(all_parts(body).take(n as int)) == (if n == model::part_count(body.len()) {
            body
        } else {
            body.take(model::part_start(n) as int)
        }),
    decreases n,
{
    let parts = all_parts(body);
    if n == 0 {
        assert(parts.take(0) =~= Seq::empty());
        assert(body.take(0) =~= Seq::empty());
    } else {
        lemma_parts_join(body, (n - 1) as nat);
        assert(parts.take(n as int).drop_last() =~= parts.take(n - 1));
        let start = model::part_start((n - 1) as nat) as int;
        let end = model::part_start(n) as int;
        let part = model::part_of(body, (n - 1) as nat);
        if n == model::part_count(body.len()) {
            assert(body.take(start) + part =~= body);
        } else {
            assert(body.take(start) + part =~= body.take(end));
        }
    }
}

/// The group of fragments after the parts in `order` have arrived.
spec fn arrived_group(opcode: u16, body: Seq<u8>, order: Seq<nat>) -> FragmentState {
    FragmentState {
        opcode: if order.contains(0) {
            Some(opcode)
        } else {
            None
        },
        parts: Seq::new(
            model::part_count(body.len()),
            |i: int|
                if order.contains(i as nat) {
                    Some(model::part_of(body, i as nat))
                } else {
                    None
                },
        ),
    }
}

/// One more part changes the group in one place.
proof fn lemma_group_grows(opcode: u16, body: Seq<u8>, order: Seq<nat>)
    requires
        order.len() > 0,
        order.last() < model::part_count(body.len()),
    ensures
        ({
            let before = arrived_group(opcode, body, order.drop_last());
            let i = order.last();
            arrived_group(opcode, body, order) == (FragmentState {
                opcode: if i == 0 {
                    Some(opcode)
                } else {
                    before.opcode
                },
                parts: before.parts.update(i as int, Some(model::part_of(body, i))),
            })
        }),
{
    let rest = order.drop_last();
    let i = order.last();
    assert forall|j: nat| #[trigger] order.contains(j) <==> rest.contains(j) || j == i by {
        assert(order[order.len() - 1] == i);
        if rest.contains(j) {
            let m = choose|m: int| 0 <= m < rest.len() && rest[m] == j;
            assert(order[m] == j);
        }
        if order.contains(j) && j != i {
            let m = choose|m: int| 0 <= m < order.len() && order[m] == j;
            assert(rest[m] == j);
        }
    }
    let before = arrived_group(opcode, body, rest);
    assert(arrived_group(opcode, body, order).parts =~= before.parts.update(
        i as int,
        Some(model::part_of(body, i)),
    ));
}

/// Some parts of an application have arrived, and not all: they are kept.
proof fn lemma_parts_kept(
    s: OldState,
    opcode: u16,
    body: Seq<u8>,
    id: u16,
    order: Seq<nat>,
    missing: nat,
)
    requires
        s.wf(),
        !s.fragments.contains_key(id),
        s.fragments.dom().len() < MAX_FRAGMENT_GROUPS,
        512 <= body.len() <= MAX_APPLICATION,
        order.len() > 0,
        forall|m: int| 0 <= m < order.len() ==> #[trigger] order[m] < model::part_count(body.len()),
        missing < model::part_count(body.len()),
        !order.contains(missing),
    ensures
        delivered_parts(s, opcode, body, id, order) == (
            OldState {
                fragments: s.fragments.insert(id, arrived_group(opcode, body, order)),
                ..s
            },
            None::<LegacyError>,
        ),
    decreases order.len(),
{
    let rest = order.drop_last();
    let i = order.last();
    let total = model::part_count(body.len());
    lemma_group_grows(opcode, body, order);
    assert(arrived_group(opcode, body, order).parts[missing as int] is None);
    assert(order[order.len() - 1] == i);
    if rest.len() == 0 {
        assert(rest =~= Seq::empty());
        let empty = FragmentState {
            opcode: None,
            parts: Seq::new(total, |i: int| None::<Seq<u8>>),
        };
        assert(arrived_group(opcode, body, rest).parts =~= empty.parts);
        assert(delivered_parts(s, opcode, body, id, rest) == (s, None::<LegacyError>));
    } else {
        assert forall|m: int| 0 <= m < rest.len() implies #[trigger] rest[m] < total by {
            assert(rest[m] == order[m]);
        }
        if rest.contains(missing) {
            let m = choose|m: int| 0 <= m < rest.len() && rest[m] == missing;
            assert(order[m] == missing);
        }
        lemma_parts_kept(s, opcode, body, id, rest, missing);
        assert(s.fragments.insert(id, arrived_group(opcode, body, rest)).insert(
            id,
            arrived_group(opcode, body, order),
        ) =~= s.fragments.insert(id, arrived_group(opcode, body, order)));
    }
}

/// A fragmented application comes out whole, in whatever order its fragments
/// are delivered: with the last of them that packet is queued, and nothing of
/// it stays behind.
pub proof fn law_fragments_reassemble(
    s: OldState,
    opcode: u16,
    body: Seq<u8>,
    id: u16,
    order: Seq<nat>,
)
    requires
        s.wf(),
        !s.fragments.contains_key(id),
        s.fragments.dom().len() < MAX_FRAGMENT_GROUPS,
        512 <= body.len() <= MAX_APPLICATION,
        order.no_duplicates(),
        forall|m: int| 0 <= m < order.len() ==> #[trigger] order[m] < model::part_count(body.len()),
        forall|i: nat| i < model::part_count(body.len()) ==> #[trigger] order.contains(i),
    ensures
        delivered_parts(s, opcode, body, id, order) == (
            s.queued(opcode, body),
            None::<LegacyError>,
        ),
{
    let total = model::part_count(body.len());
    assert(order.contains(0));
    assert(order.contains(1));
    let rest = order.drop_last();
    let i = order.last();
    assert forall|m: int| 0 <= m < rest.len() implies #[trigger] rest[m] < total by {
        assert(rest[m] == order[m]);
    }
    if rest.contains(i) {
        let m = choose|m: int| 0 <= m < rest.len() && rest[m] == i;
        assert(order[m] == order[order.len() - 1]);
    }
    if rest.len() == 0 {
        let a = choose|m: int| 0 <= m < order.len() && order[m] == 0;
        let b = choose|m: int| 0 <= m < order.len() && order[m] == 1;
        assert(a == 0 && b == 0);
    }
    assert(order[order.len() - 1] == i);
    lemma_parts_kept(s, opcode, body, id, rest, i);
    lemma_group_grows(opcode, body, order);
    let group = arrived_group(opcode, body, order);
    assert forall|j: int| 0 <= j < group.parts.len() implies (#[trigger] group.parts[j])
        is Some by {
        assert(order.contains(j as nat));
    }
    lemma_parts_join(body, total);
    assert forall|j: int| 0 <= j < total implies #[trigger] group.parts[j] == all_parts(
        body,
    )[j] by {
        assert(order.contains(j as nat));
    }
    assert(group.parts =~= all_parts(body).take(total as int));
    assert(s.fragments.insert(id, arrived_group(opcode, body, rest)).remove(id) =~= s.fragments);
}

/// Packets of a stream, taken in order one after the other.
pub open spec fn taken(s: OldState, stream: Seq<DecodedState>) -> (OldState, Option<LegacyError>)
    decreases stream.len(),
{
    if stream.len() == 0 {
        (s, None)
    } else {
        let (next, error) = taken(s, stream.drop_last());
        if error is Some {
            (next, error)
        } else {
            next.delivered(stream.last())
        }
    }
}

/// The number that packet `i` of a stream carries, where `last` came before it.
pub open spec fn number(last: u16, i: nat) -> u16 {
    ((last + 1 + i) % 65536) as u16
}

/// Packets that `s` holds belong to the stream at their places after the first
/// `k`, less than a window ahead.
pub open spec fn holds_only(s: OldState, last: u16, stream: Seq<DecodedState>, k: nat) -> bool {
    forall|key: u16| #[trigger]
        s.reorder.contains_key(key) ==> {
            let distance = key.wrapping_sub(number(last, k));
            &&& distance < WINDOW
            &&& k + distance < stream.len()
            &&& s.reorder[key] == stream[k + distance]
        }
}

/// `s` has taken the first `k` packets of a stream that followed number `last`
/// at `base`, in order, and holds only packets of it that come later.
pub open spec fn in_step(
    s: OldState,
    base: OldState,
    last: u16,
    stream: Seq<DecodedState>,
    k: nat,
) -> bool {
    let got = taken(base, stream.take(k as int)).0;
    &&& k <= stream.len()
    &&& s.last_received_arq matches Some(a) && a.wrapping_add(1) == number(last, k)
    &&& s.fragments == got.fragments
    &&& s.applications == got.applications
    &&& s.reorder.dom().finite()
    &&& holds_only(s, last, stream, k)
    &&& !s.reorder.contains_key(number(last, k))
}

/// Whether packet `i` waits in `s` for its turn.
pub open spec fn waits(s: OldState, last: u16, k: nat, i: nat) -> bool {
    k < i < k + WINDOW && s.reorder.contains_key(number(last, i))
}

/// Delivering a packet touches nothing but the fragments and the queue, and
/// depends on nothing else.
proof fn lemma_delivered_is_local(s: OldState, t: OldState, packet: DecodedState)
    requires
        s.fragments == t.fragments,
        s.applications == t.applications,
    ensures
        s.delivered(packet).1 == t.delivered(packet).1,
        s.delivered(packet).0 == (OldState {
            fragments: t.delivered(packet).0.fragments,
            applications: t.delivered(packet).0.applications,
            ..s
        }),
{
}

proof fn lemma_taken_prefix(base: OldState, stream: Seq<DecodedState>, k: nat)
    requires
        k <= stream.len(),
        taken(base, stream).1 is None,
    ensures
        taken(base, stream.take(k as int)).1 is None,
    decreases stream.len(),
{
    if k < stream.len() {
        assert(stream.drop_last().take(k as int) =~= stream.take(k as int));
        lemma_taken_prefix(base, stream.drop_last(), k);
    } else {
        assert(stream.take(k as int) =~= stream);
    }
}

/// The distance between two numbers is that between their packets.
proof fn lemma_numbers(last: u16, k: nat, i: nat)
    ensures
        k <= i < k + 65536 ==> number(last, i).wrapping_sub(number(last, k)) == i - k,
        i < k <= i + 32768 ==> number(last, i).wrapping_sub(number(last, k)) >= 32768,
        k < i < k + 65536 ==> number(last, i) != number(last, k),
        number(last, k).wrapping_add(1) == number(last, k + 1),
{
}

/// Taking the next packet of the stream keeps everything but the gap check.
proof fn lemma_accept_in_step(
    s: OldState,
    base: OldState,
    last: u16,
    stream: Seq<DecodedState>,
    k: nat,
)
    requires
        taken(base, stream).1 is None,
        k < stream.len(),
        s.fragments == taken(base, stream.take(k as int)).0.fragments,
        s.applications == taken(base, stream.take(k as int)).0.applications,
        s.reorder.dom().finite(),
        holds_only(s, last, stream, k),
        !s.reorder.contains_key(number(last, k)),
    ensures
        ({
            let (next, error) = s.accepted(number(last, k), stream[k as int]);
            &&& error is None
            &&& next.last_received_arq == Some(number(last, k))
            &&& next.ack_pending
            &&& next.reorder == s.reorder
            &&& next.outbox == s.outbox
            &&& next.fragments == taken(base, stream.take(k as int + 1)).0.fragments
            &&& next.applications == taken(base, stream.take(k as int + 1)).0.applications
            &&& holds_only(next, last, stream, k + 1)
        }),
{
    let packet = stream[k as int];
    let got = taken(base, stream.take(k as int)).0;
    let named = OldState {
        last_received_arq: Some(number(last, k)),
        ack_pending: true,
        ..s
    };
    lemma_taken_prefix(base, stream, k);
    lemma_taken_prefix(base, stream, k + 1);
    assert(stream.take(k as int + 1).drop_last() =~= stream.take(k as int));
    assert(stream.take(k as int + 1).last() == packet);
    lemma_delivered_is_local(named, got, packet);
    let next = s.accepted(number(last, k), packet).0;
    assert forall|key: u16| #[trigger] next.reorder.contains_key(key) implies {
        let distance = key.wrapping_sub(number(last, k + 1));
        &&& distance < WINDOW
        &&& k + 1 + distance < stream.len()
        &&& next.reorder[key] == stream[k + 1 + distance]
    } by {
        assert(s.reorder.contains_key(key));
        assert(key != number(last, k));
    }
}

/// Draining takes the packets that wait, one after the other, up to a gap.
proof fn lemma_drain_in_step(
    s: OldState,
    base: OldState,
    last: u16,
    stream: Seq<DecodedState>,
    k: nat,
) -> (end: nat)
    requires
        taken(base, stream).1 is None,
        k <= stream.len(),
        s.last_received_arq matches Some(a) && a.wrapping_add(1) == number(last, k),
        s.fragments == taken(base, stream.take(k as int)).0.fragments,
        s.applications == taken(base, stream.take(k as int)).0.applications,
        s.reorder.dom().finite(),
        holds_only(s, last, stream, k),
    ensures
        s.drained().1 is None,
        k <= end <= k + WINDOW,
        in_step(s.drained().0, base, last, stream, end),
        s.drained().0.outbox == s.outbox,
        s.ack_pending ==> s.drained().0.ack_pending,
        forall|i: nat| k <= i < end ==> s.reorder.contains_key(#[trigger] number(last, i)),
        forall|i: nat|
            end <= i < k + WINDOW ==> (s.reorder.contains_key(#[trigger] number(last, i))
                <==> s.drained().0.reorder.contains_key(number(last, i))),
        forall|key: u16| #[trigger]
            s.drained().0.reorder.contains_key(key) ==> s.reorder.contains_key(key),
    decreases s.reorder.dom().len(),
{
    let expected = number(last, k);
    if s.reorder.contains_key(expected) {
        let removed = OldState { reorder: s.reorder.remove(expected), ..s };
        assert(s.reorder[expected] == stream[k as int]);
        assert forall|key: u16| #[trigger] removed.reorder.contains_key(key) implies {
            let distance = key.wrapping_sub(number(last, k));
            &&& distance < WINDOW
            &&& k + distance < stream.len()
            &&& removed.reorder[key] == stream[k + distance]
        } by {
            assert(s.reorder.contains_key(key));
        }
        lemma_accept_in_step(removed, base, last, stream, k);
        let next = removed.accepted(expected, stream[k as int]).0;
        lemma_numbers(last, k, k + 1);
        let end = lemma_drain_in_step(next, base, last, stream, k + 1);
        assert forall|i: nat| k <= i < end implies s.reorder.contains_key(
            #[trigger] number(last, i),
        ) by {
            if i > k {
                assert(next.reorder.contains_key(number(last, i)));
            }
        }
        assert forall|i: nat| end <= i < k + WINDOW implies (s.reorder.contains_key(
            #[trigger] number(last, i),
        ) <==> s.drained().0.reorder.contains_key(number(last, i))) by {
            lemma_numbers(last, k, i);
        }
        if end == k + 1 + WINDOW {
            let key = number(last, k + WINDOW as nat);
            lemma_numbers(last, k, k + WINDOW as nat);
            assert(next.reorder.contains_key(key));
            assert(s.reorder.contains_key(key));
        }
        end
    } else {
        k
    }
}

/// A packet of the stream finds its place, early, late or in turn.
proof fn lemma_placed_keeps_step(
    s: OldState,
    base: OldState,
    last: u16,
    stream: Seq<DecodedState>,
    k: nat,
    i: nat,
) -> (end: nat)
    requires
        taken(base, stream).1 is None,
        in_step(s, base, last, stream, k),
        i < stream.len(),
        i < k + WINDOW,
        k <= i + 32768,
    ensures
        ({
            let (next, error) = s.placed(
                s.last_received_arq->0,
                number(last, i),
                stream[i as int],
            );
            &&& error is None
            &&& in_step(next, base, last, stream, end)
            &&& k <= end <= k + WINDOW
            &&& next.outbox == s.outbox
            &&& i <= k ==> next.ack_pending
            &&& forall|j: nat| k <= j < end ==> j == i || #[trigger] waits(s, last, k, j)
            &&& !(end == i || waits(s, last, k, end))
            &&& forall|j: nat|
                end < j ==> (#[trigger] waits(next, last, end, j) <==> waits(s, last, k, j) || (j
                    == i && k < i))
        }),
{
    let packet = stream[i as int];
    let arq = number(last, i);
    let (next, error) = s.placed(s.last_received_arq->0, arq, packet);
    lemma_numbers(last, k, i);
    if i < k {
        k
    } else if i > k {
        assert forall|key: u16| #[trigger] next.reorder.contains_key(key) implies {
            let distance = key.wrapping_sub(number(last, k));
            &&& distance < WINDOW
            &&& k + distance < stream.len()
            &&& next.reorder[key] == stream[k + distance]
        } by {
            if key != arq {
                assert(s.reorder.contains_key(key));
            }
        }
        assert forall|j: nat| k < j implies (#[trigger] waits(next, last, k, j) <==> waits(
            s,
            last,
            k,
            j,
        ) || (j == i && k < i)) by {
            if j < i {
                lemma_numbers(last, j, i);
            } else {
                lemma_numbers(last, i, j);
            }
        }
        k
    } else {
        lemma_accept_in_step(s, base, last, stream, k);
        let accepted = s.accepted(arq, packet).0;
        let end = lemma_drain_in_step(accepted, base, last, stream, k + 1);
        assert(next == accepted.drained().0);
        assert forall|j: nat| k <= j < end implies j == i || #[trigger] waits(s, last, k, j) by {
            if j > k {
                assert(accepted.reorder.contains_key(number(last, j)));
            }
            if j == k + WINDOW {
                lemma_numbers(last, k, j);
                assert(s.reorder.contains_key(number(last, j)));
            }
        }
        if end > k + WINDOW {
            lemma_numbers(last, k, k + WINDOW as nat);
            assert(accepted.reorder.contains_key(number(last, k + WINDOW as nat)));
            assert(s.reorder.contains_key(number(last, k + WINDOW as nat)));
        }
        assert forall|j: nat| end < j implies (#[trigger] waits(next, last, end, j) <==> waits(
            s,
            last,
            k,
            j,
        ) || (j == i && k < i)) by {
            lemma_numbers(last, k, j);
            if j < k + 1 + WINDOW {
                assert(accepted.reorder.contains_key(number(last, j))
                    <==> next.reorder.contains_key(number(last, j)));
            }
            if j >= k + WINDOW && j < end + WINDOW {
                assert(!s.reorder.contains_key(number(last, j)));
            }
        }
        end
    }
}

/// One packet of the stream arrives, early, late or in turn. Nothing is taken
/// twice or out of order: the session stays in step, and moves on exactly past
/// the packets that have arrived without a gap. Nothing is sent at once.
pub proof fn law_arrival_keeps_step(
    s: OldState,
    base: OldState,
    last: u16,
    stream: Seq<DecodedState>,
    k: nat,
    i: nat,
) -> (end: nat)
    requires
        taken(base, stream).1 is None,
        in_step(s, base, last, stream, k),
        i < stream.len(),
        !model::starts_sequence(stream[i as int].header_a),
        i < k + WINDOW,
        k <= i + 32768,
    ensures
        ({
            let (next, error) = s.sequenced(number(last, i), stream[i as int]);
            &&& error is None
            &&& in_step(next, base, last, stream, end)
            &&& k <= end <= k + WINDOW
            &&& next.outbox == s.outbox
            &&& i <= k ==> next.ack_pending
            &&& forall|j: nat| k <= j < end ==> j == i || #[trigger] waits(s, last, k, j)
            &&& !(end == i || waits(s, last, k, end))
            &&& forall|j: nat|
                end < j ==> (#[trigger] waits(next, last, end, j) <==> waits(s, last, k, j) || (j
                    == i && k < i))
        }),
{
    lemma_placed_keeps_step(s, base, last, stream, k, i)
}

/// Packets of a stream, by index, arriving at a session in any order.
pub open spec fn arrived(
    base: OldState,
    last: u16,
    stream: Seq<DecodedState>,
    arrivals: Seq<nat>,
) -> (OldState, Option<LegacyError>)
    decreases arrivals.len(),
{
    if arrivals.len() == 0 {
        (base, None)
    } else {
        let (s, error) = arrived(base, last, stream, arrivals.drop_last());
        let i = arrivals.last();
        if error is Some {
            (s, error)
        } else {
            s.sequenced(number(last, i), stream[i as int])
        }
    }
}

/// `k` is the first packet missing from what arrived.
pub open spec fn first_missing(arrivals: Seq<nat>, k: nat) -> bool {
    &&& forall|i: nat| i < k ==> #[trigger] arrivals.contains(i)
    &&& !arrivals.contains(k)
}

/// Packets that arrive in any order and any number of times are delivered once
/// and in sequence, also across the wrap of their numbers: what comes out is
/// what taking the stream in order up to the first missing packet gives.
///
/// Each packet has to arrive within the window of the receiver at that time,
/// and none of them starts the sequence anew.
pub proof fn law_packets_delivered_once_in_order(
    base: OldState,
    last: u16,
    stream: Seq<DecodedState>,
    arrivals: Seq<nat>,
) -> (k: nat)
    requires
        base.last_received_arq == Some(last),
        base.reorder == Map::<u16, DecodedState>::empty(),
        taken(base, stream).1 is None,
        forall|i: int|
            0 <= i < stream.len() ==> !model::starts_sequence((#[trigger] stream[i]).header_a),
        forall|m: int| 0 <= m < arrivals.len() ==> #[trigger] arrivals[m] < stream.len(),
        forall|m: int, f: nat|
            0 <= m < arrivals.len() && #[trigger] first_missing(arrivals.take(m), f)
                ==> arrivals[m] < f + WINDOW && f <= arrivals[m] + 32768,
    ensures
        first_missing(arrivals, k),
        arrived(base, last, stream, arrivals).1 is None,
        in_step(arrived(base, last, stream, arrivals).0, base, last, stream, k),
        forall|i: nat|
            k < i ==> (#[trigger] waits(arrived(base, last, stream, arrivals).0, last, k, i)
                <==> arrivals.contains(i)),
    decreases arrivals.len(),
{
    if arrivals.len() == 0 {
        assert(stream.take(0) =~= Seq::empty());
        assert(first_missing(arrivals, 0));
        0
    } else {
        let before = arrivals.drop_last();
        let i = arrivals.last();
        assert forall|m: int| 0 <= m < before.len() implies #[trigger] before[m]
            < stream.len() by {
            assert(before[m] == arrivals[m]);
        }
        assert forall|m: int, f: nat|
            0 <= m < before.len() && #[trigger] first_missing(before.take(m), f) implies before[m]
            < f + WINDOW && f <= before[m] + 32768 by {
            assert(before.take(m) =~= arrivals.take(m));
            assert(first_missing(arrivals.take(m), f));
        }
        let k = law_packets_delivered_once_in_order(base, last, stream, before);
        let s = arrived(base, last, stream, before).0;
        assert(arrivals.take(arrivals.len() - 1) =~= before);
        assert(first_missing(arrivals.take(arrivals.len() - 1), k));
        let end = law_arrival_keeps_step(s, base, last, stream, k, i);
        assert forall|j: nat| #[trigger] arrivals.contains(j) <==> before.contains(j) || j == i by {
            assert(arrivals[arrivals.len() - 1] == i);
            if before.contains(j) {
                let m = choose|m: int| 0 <= m < before.len() && before[m] == j;
                assert(arrivals[m] == j);
            }
            if arrivals.contains(j) && j != i {
                let m = choose|m: int| 0 <= m < arrivals.len() && arrivals[m] == j;
                assert(before[m] == j);
            }
        }
        assert forall|j: nat| j < end implies #[trigger] arrivals.contains(j) by {
            if j >= k && j != i {
                assert(waits(s, last, k, j));
            }
        }
        assert(!arrivals.contains(end)) by {
            if before.contains(end) {
                assert(end > k);
                assert(waits(s, last, k, end));
            }
        }
        end
    }
}

/// A stream begins with a packet that starts a sequence, or with number zero:
/// from then on it is taken as one whose previous packet has been seen. Packets
/// that came before it have been kept and nothing of them delivered.
pub proof fn law_stream_begins(s: OldState, arq: u16, packet: DecodedState)
    requires
        s.last_received_arq is None,
    ensures
        model::starts_sequence(packet.header_a) || arq == 0 ==> s.sequenced(arq, packet)
            == (OldState { last_received_arq: Some(arq.wrapping_sub(1)), ..s }).placed(
            arq.wrapping_sub(1),
            arq,
            packet,
        ),
        !model::starts_sequence(packet.header_a) && arq != 0 && s.reorder.dom().len() < WINDOW
            ==> s.sequenced(arq, packet) == (s.hold(arq, packet), None::<LegacyError>),
{
}

/// An acknowledgment retires every packet at or before the one it names and
/// keeps the later ones.
pub proof fn law_acknowledgment_retires_prefix(s: OldState, arsp: u16, n: int)
    requires
        0 <= n <= s.pending.len(),
        forall|i: int|
            0 <= i < n ==> arsp.wrapping_sub((#[trigger] s.pending[i]).arq) < 32768,
        n < s.pending.len() ==> arsp.wrapping_sub(s.pending[n].arq) >= 32768,
    ensures
        s.acknowledged(arsp) == (OldState { pending: s.pending.skip(n), ..s }),
{
    lemma_uncovered(s.pending, arsp, n);
}

proof fn lemma_uncovered(pending: Seq<OldPendingState>, arsp: u16, n: int)
    requires
        0 <= n <= pending.len(),
        forall|i: int| 0 <= i < n ==> arsp.wrapping_sub((#[trigger] pending[i]).arq) < 32768,
        n < pending.len() ==> arsp.wrapping_sub(pending[n].arq) >= 32768,
    ensures
        model::uncovered(pending, arsp) == pending.skip(n),
    decreases n,
{
    if n == 0 {
        assert(pending.skip(0) =~= pending);
    } else {
        let rest = pending.skip(1);
        assert(arsp.wrapping_sub(pending[0].arq) < 32768);
        assert forall|i: int| 0 <= i < n - 1 implies arsp.wrapping_sub((#[trigger] rest[i]).arq)
            < 32768 by {
            assert(rest[i] == pending[i + 1]);
        }
        lemma_uncovered(rest, arsp, n - 1);
        assert(rest.skip(n - 1) =~= pending.skip(n));
    }
}

/// What becomes of a pending packet under the first `n` bits of a selective
/// acknowledgment that begins at `start`.
pub open spec fn fate(
    p: OldPendingState,
    start: u16,
    bits: Seq<u8>,
    n: nat,
    now: u64,
) -> Option<OldPendingState> {
    let place = p.arq.wrapping_sub(start);
    if place >= n {
        Some(p)
    } else if model::selected(bits, place as int) {
        None
    } else {
        Some(OldPendingState { sent: model::stale(now), ..p })
    }
}

pub open spec fn distinct(pending: Seq<OldPendingState>) -> bool {
    forall|i: int, j: int|
        0 <= i < j < pending.len() ==> (#[trigger] pending[i]).arq != (#[trigger] pending[j]).arq
}

proof fn lemma_without(pending: Seq<OldPendingState>, arq: u16)
    requires
        distinct(pending),
    ensures
        distinct(model::without(pending, arq)),
        forall|q: OldPendingState| #[trigger]
            model::without(pending, arq).contains(q) <==> pending.contains(q) && q.arq != arq,
    decreases pending.len(),
{
    if pending.len() > 0 {
        let rest = pending.skip(1);
        assert(forall|i: int| 0 <= i < rest.len() ==> #[trigger] rest[i] == pending[i + 1]);
        lemma_without(rest, arq);
        let tail = model::without(rest, arq);
        let all = model::without(pending, arq);
        assert forall|q: OldPendingState| pending.contains(q) <==> rest.contains(q) || q
            == pending[0] by {
            if pending.contains(q) && q != pending[0] {
                let m = choose|m: int| 0 <= m < pending.len() && pending[m] == q;
                assert(rest[m - 1] == q);
            }
            if rest.contains(q) {
                let m = choose|m: int| 0 <= m < rest.len() && rest[m] == q;
                assert(pending[m + 1] == q);
            }
        }
        if pending[0].arq != arq {
            assert forall|q: OldPendingState| all.contains(q) <==> tail.contains(q) || q
                == pending[0] by {
                assert(all[0] == pending[0]);
                if all.contains(q) && q != pending[0] {
                    let m = choose|m: int| 0 <= m < all.len() && all[m] == q;
                    assert(tail[m - 1] == q);
                }
                if tail.contains(q) {
                    let m = choose|m: int| 0 <= m < tail.len() && tail[m] == q;
                    assert(all[m + 1] == q);
                }
            }
            assert forall|i: int, j: int| 0 <= i < j < all.len() implies (
            #[trigger] all[i]).arq != (#[trigger] all[j]).arq by {
                assert(all[j] == tail[j - 1]);
                if i == 0 {
                    assert(tail.contains(tail[j - 1]));
                    assert(rest.contains(tail[j - 1]));
                    let m = choose|m: int| 0 <= m < rest.len() && rest[m] == tail[j - 1];
                    assert(pending[m + 1] == tail[j - 1]);
                } else {
                    assert(all[i] == tail[i - 1]);
                }
            }
        }
    }
}

proof fn lemma_retried(pending: Seq<OldPendingState>, arq: u16, now: u64)
    requires
        distinct(pending),
    ensures
        model::retried(pending, arq, now).len() == pending.len(),
        forall|i: int|
            0 <= i < pending.len() ==> #[trigger] model::retried(pending, arq, now)[i] == (
            if pending[i].arq == arq {
                OldPendingState { sent: model::stale(now), ..pending[i] }
            } else {
                pending[i]
            }),
    decreases pending.len(),
{
    if pending.len() > 0 {
        let rest = pending.skip(1);
        assert(forall|i: int| 0 <= i < rest.len() ==> #[trigger] rest[i] == pending[i + 1]);
        lemma_retried(rest, arq, now);
        let all = model::retried(pending, arq, now);
        assert forall|i: int| 0 <= i < pending.len() implies #[trigger] all[i] == (
        if pending[i].arq == arq {
            OldPendingState { sent: model::stale(now), ..pending[i] }
        } else {
            pending[i]
        }) by {
            if i > 0 {
                if pending[0].arq == arq {
                    assert(pending[i].arq != arq);
                    assert(all[i] == rest[i - 1]);
                } else {
                    assert(all[i] == model::retried(rest, arq, now)[i - 1]);
                }
            }
        }
    }
}

/// A selective acknowledgment retires the packets of its set bits, makes those
/// of its clear bits due for retransmission, and leaves all others alone.
pub proof fn law_selective_acknowledgment(
    pending: Seq<OldPendingState>,
    start: u16,
    bits: Seq<u8>,
    n: nat,
    now: u64,
)
    requires
        distinct(pending),
        n <= 65536,
    ensures
        distinct(model::selective(pending, start, bits, n, now)),
        forall|q: OldPendingState| #[trigger]
            model::selective(pending, start, bits, n, now).contains(q) <==> exists|p|
                #[trigger] pending.contains(p) && fate(p, start, bits, n, now) == Some(q),
    decreases n,
{
    if n == 0 {
    } else {
        let m = (n - 1) as nat;
        law_selective_acknowledgment(pending, start, bits, m, now);
        let before = model::selective(pending, start, bits, m, now);
        let all = model::selective(pending, start, bits, n, now);
        let arq = start.wrapping_add((m % 65536) as u16);
        assert forall|p: OldPendingState| p.arq == arq <==> #[trigger] p.arq.wrapping_sub(start)
            == m by {}
        if model::selected(bits, m as int) {
            lemma_without(before, arq);
        } else {
            lemma_retried(before, arq, now);
            assert forall|i: int, j: int| 0 <= i < j < all.len() implies (#[trigger] all[i]).arq
                != (#[trigger] all[j]).arq by {
                assert(before[i].arq != before[j].arq);
            }
        }
        assert forall|q: OldPendingState| #[trigger] all.contains(q) implies exists|p|
            #[trigger] pending.contains(p) && fate(p, start, bits, n, now) == Some(q) by {
            if model::selected(bits, m as int) {
                assert(before.contains(q) && q.arq != arq);
                let p = choose|p| #[trigger]
                    pending.contains(p) && fate(p, start, bits, m, now) == Some(q);
                assert(pending.contains(p) && fate(p, start, bits, n, now) == Some(q));
            } else {
                let i = choose|i: int| 0 <= i < all.len() && all[i] == q;
                let b = before[i];
                assert(before.contains(b));
                let p = choose|p| #[trigger]
                    pending.contains(p) && fate(p, start, bits, m, now) == Some(b);
                assert(pending.contains(p) && fate(p, start, bits, n, now) == Some(q));
            }
        }
        assert forall|q: OldPendingState|
            (exists|p| #[trigger] pending.contains(p) && fate(p, start, bits, n, now) == Some(q))
            implies #[trigger] all.contains(q) by {
            let p = choose|p| #[trigger]
                pending.contains(p) && fate(p, start, bits, n, now) == Some(q);
            let b = fate(p, start, bits, m, now)->0;
            assert(pending.contains(p) && fate(p, start, bits, m, now) == Some(b));
            assert(before.contains(b));
            if !model::selected(bits, m as int) {
                let i = choose|i: int| 0 <= i < before.len() && before[i] == b;
                assert(all[i] == q);
            }
        }
    }
}

/// How many packets an application of `length` bytes takes.
pub open spec fn packet_count(length: nat) -> nat {
    if length < 512 {
        1
    } else {
        model::part_count(length)
    }
}

/// Whether a datagram reads as packet `i` of an application: with its number,
/// its place among the fragments, its opcode and its part of the body. It asks
/// for nothing to be sent again, and starts the sequence where `first` says so.
#[verifier::opaque]
pub open spec fn carries_part(
    wire: Seq<u8>,
    arq: u16,
    opcode: u16,
    body: Seq<u8>,
    id: u16,
    i: nat,
    first: bool,
) -> bool {
    &&& model::decoded(wire) is Ok
    &&& ({
        let packet = model::decoded(wire)->Ok_0;
        &&& packet.arq == Some(arq)
        &&& packet.resend_before is None
        &&& packet.selective_ack.len() == 0
        &&& !model::closes(packet.header_a)
        &&& model::starts_sequence(packet.header_a) == first
        &&& packet.opcode == (if i == 0 {
            Some(opcode)
        } else {
            None
        })
        &&& if body.len() < 512 {
            packet.fragment is None && packet.body == body
        } else {
            packet.fragment == Some((id, i as u16, model::part_count(body.len()) as u16))
                && packet.body == model::part_of(body, i)
        }
    })
}

/// One packet of an application goes out.
proof fn lemma_sent_part(s: OldState, opcode: u16, body: Seq<u8>, id: u16, i: nat, now: u64)
    requires
        i < packet_count(body.len()),
        body.len() <= MAX_APPLICATION,
    ensures
        ({
            let (next, error) = s.sent_part(
                if i == 0 {
                    Some(opcode)
                } else {
                    None
                },
                if body.len() < 512 {
                    body
                } else {
                    model::part_of(body, i)
                },
                if body.len() < 512 {
                    None
                } else {
                    Some((id, i as u16, model::part_count(body.len()) as u16))
                },
                i == 0,
                now,
            );
            error is None ==> {
                &&& next.outbox == s.outbox.push(next.outbox.last())
                &&& carries_part(
                    next.outbox.last(),
                    s.next_arq,
                    opcode,
                    body,
                    id,
                    i,
                    !s.sent_start,
                )
                &&& next.sent_start
                &&& next.next_arq == s.next_arq.wrapping_add(1)
            }
        }),
{
    let named = if i == 0 {
        Some(opcode)
    } else {
        None
    };
    let part = if body.len() < 512 {
        body
    } else {
        model::part_of(body, i)
    };
    let fragment = if body.len() < 512 {
        None
    } else {
        Some((id, i as u16, model::part_count(body.len()) as u16))
    };
    let header = s.reliable_header(fragment is Some, i == 0);
    let t = OldState { next_arq: s.next_arq.wrapping_add(1), sent_start: true, ..s };
    reveal(carries_part);
    law_framed_packet_decodes(s, named, part, fragment, i == 0, s.next_arq, now);
    lemma_header_flags(s, fragment is Some, i == 0);
    assert(t.unsealed(header, Some(s.next_arq), fragment, named, part, i == 0) == s.unsealed(
        header,
        Some(s.next_arq),
        fragment,
        named,
        part,
        i == 0,
    ));
}

/// Numbers count on from the next packet.
proof fn lemma_next_number(arq: u16, i: nat)
    ensures
        number(arq.wrapping_sub(1), 0) == arq,
        number(arq.wrapping_add(1).wrapping_sub(1), i) == number(arq.wrapping_sub(1), i + 1),
{
}

/// The fragments of an application go out one after the other.
proof fn lemma_sent_parts(s: OldState, opcode: u16, body: Seq<u8>, id: u16, from: nat, now: u64)
    requires
        512 <= body.len() <= MAX_APPLICATION,
        from <= model::part_count(body.len()),
        s.sent_parts(opcode, body, id, from, model::part_count(body.len()), now).1 is None,
    ensures
        ({
            let total = model::part_count(body.len());
            let next = s.sent_parts(opcode, body, id, from, total, now).0;
            &&& next.next_arq == number(s.next_arq.wrapping_sub(1), (total - from) as nat)
            &&& s.sent_start || from < total ==> next.sent_start
            &&& next.outbox.len() == s.outbox.len() + total - from
            &&& forall|j: int| 0 <= j < s.outbox.len() ==> #[trigger] next.outbox[j] == s.outbox[j]
            &&& forall|j: int|
                s.outbox.len() <= j < next.outbox.len() ==> carries_part(
                    #[trigger] next.outbox[j],
                    number(s.next_arq.wrapping_sub(1), (j - s.outbox.len()) as nat),
                    opcode,
                    body,
                    id,
                    (from + j - s.outbox.len()) as nat,
                    j == s.outbox.len() && !s.sent_start,
                )
        }),
    decreases model::part_count(body.len()) - from,
{
    let total = model::part_count(body.len());
    if from < total {
        lemma_sent_part(s, opcode, body, id, from, now);
        let one = s.sent_part(
            if from == 0 {
                Some(opcode)
            } else {
                None
            },
            model::part_of(body, from),
            Some((id, from as u16, total as u16)),
            from == 0,
            now,
        ).0;
        lemma_sent_parts(one, opcode, body, id, from + 1, now);
        let next = s.sent_parts(opcode, body, id, from, total, now).0;
        assert(next == one.sent_parts(opcode, body, id, from + 1, total, now).0);
        assert forall|j: int| 0 <= j < s.outbox.len() implies #[trigger] next.outbox[j]
            == s.outbox[j] by {
            assert(one.outbox[j] == s.outbox[j]);
        }
        assert forall|j: int| s.outbox.len() <= j < next.outbox.len() implies carries_part(
            #[trigger] next.outbox[j],
            number(s.next_arq.wrapping_sub(1), (j - s.outbox.len()) as nat),
            opcode,
            body,
            id,
            (from + j - s.outbox.len()) as nat,
            j == s.outbox.len() && !s.sent_start,
        ) by {
            if j == s.outbox.len() {
                assert(next.outbox[j] == one.outbox[j]);
                lemma_next_number(s.next_arq, 0);
            } else {
                lemma_next_number(s.next_arq, (j - one.outbox.len()) as nat);
                assert(one.outbox.len() <= j < next.outbox.len());
            }
        }
        lemma_next_number(s.next_arq, (total - from - 1) as nat);
    } else {
        lemma_next_number(s.next_arq, 0);
    }
}

/// The datagrams that sending an application puts on the wire.
pub open spec fn sent_wires(s: OldState, opcode: u16, body: Seq<u8>, now: u64) -> Seq<Seq<u8>> {
    s.sending(opcode, body, now).0.outbox.skip(s.outbox.len() as int)
}

/// What is sent reads back: an application that could be sent stands on the
/// wire as its packets, consecutively numbered, and only the first packet of
/// the stream starts the sequence.
pub proof fn law_sent_application_reads_back(s: OldState, opcode: u16, body: Seq<u8>, now: u64)
    requires
        s.sending(opcode, body, now).1 is None,
    ensures
        s.sending(opcode, body, now).0.outbox == s.outbox + sent_wires(s, opcode, body, now),
        sent_wires(s, opcode, body, now).len() == packet_count(body.len()),
        s.sending(opcode, body, now).0.next_arq == number(
            s.next_arq.wrapping_sub(1),
            packet_count(body.len()),
        ),
        s.sending(opcode, body, now).0.sent_start,
        forall|i: int|
            0 <= i < packet_count(body.len()) ==> carries_part(
                #[trigger] sent_wires(s, opcode, body, now)[i],
                number(s.next_arq.wrapping_sub(1), i as nat),
                opcode,
                body,
                s.next_fragment,
                i as nat,
                i == 0 && !s.sent_start,
            ),
{
    let next = s.sending(opcode, body, now).0;
    let wires = sent_wires(s, opcode, body, now);
    if body.len() < 512 {
        lemma_sent_part(s, opcode, body, s.next_fragment, 0, now);
        lemma_next_number(s.next_arq, 0);
    } else {
        let t = OldState { next_fragment: s.next_fragment.wrapping_add(1), ..s };
        lemma_sent_parts(t, opcode, body, s.next_fragment, 0, now);
    }
    assert forall|i: int| 0 <= i < packet_count(body.len()) implies carries_part(
        #[trigger] wires[i],
        number(s.next_arq.wrapping_sub(1), i as nat),
        opcode,
        body,
        s.next_fragment,
        i as nat,
        i == 0 && !s.sent_start,
    ) by {
        assert(wires[i] == next.outbox[s.outbox.len() + i]);
    }
    assert(next.outbox =~= s.outbox + wires);
}

/// The packets that the peer reads from datagrams.
pub open spec fn read(wires: Seq<Seq<u8>>) -> Seq<DecodedState> {
    wires.map_values(|wire: Seq<u8>| model::decoded(wire)->Ok_0)
}

/// The packets of an application, taken in order, deliver its parts in order.
proof fn lemma_taken_parts(
    base: OldState,
    stream: Seq<DecodedState>,
    opcode: u16,
    body: Seq<u8>,
    id: u16,
    n: nat,
)
    requires
        512 <= body.len(),
        n <= stream.len(),
        forall|i: int|
            0 <= i < n ==> {
                let part = part_packet(opcode, body, id, i as nat);
                &&& (#[trigger] stream[i]).fragment == part.fragment
                &&& stream[i].opcode == part.opcode
                &&& stream[i].body == part.body
            },
    ensures
        taken(base, stream.take(n as int)) == delivered_parts(
            base,
            opcode,
            body,
            id,
            Seq::new(n, |i: int| i as nat),
        ),
    decreases n,
{
    let order = Seq::new(n, |i: int| i as nat);
    if n > 0 {
        let m = (n - 1) as nat;
        lemma_taken_parts(base, stream, opcode, body, id, m);
        assert(stream.take(n as int).drop_last() =~= stream.take(m as int));
        assert(order.drop_last() =~= Seq::new(m, |i: int| i as nat));
        assert(stream.take(n as int).last() == stream[m as int]);
        assert(order.last() == m);
    }
}

/// The packets of an application deliver it to a peer that has room for it.
proof fn lemma_taken_application(
    base: OldState,
    stream: Seq<DecodedState>,
    opcode: u16,
    body: Seq<u8>,
    id: u16,
)
    requires
        base.wf(),
        !base.fragments.contains_key(id),
        base.fragments.dom().len() < MAX_FRAGMENT_GROUPS,
        body.len() <= MAX_APPLICATION,
        stream.len() == packet_count(body.len()),
        body.len() < 512 ==> stream[0].fragment is None && stream[0].opcode == Some(opcode)
            && stream[0].body == body,
        body.len() >= 512 ==> forall|i: int|
            0 <= i < stream.len() ==> {
                let part = part_packet(opcode, body, id, i as nat);
                &&& (#[trigger] stream[i]).fragment == part.fragment
                &&& stream[i].opcode == part.opcode
                &&& stream[i].body == part.body
            },
    ensures
        taken(base, stream) == (base.queued(opcode, body), None::<LegacyError>),
{
    let n = stream.len();
    assert(stream.take(n as int) =~= stream);
    if body.len() < 512 {
        assert(stream.drop_last() =~= Seq::empty());
        reveal_with_fuel(taken, 2);
    } else {
        lemma_taken_parts(base, stream, opcode, body, id, n);
        let order = Seq::new(n, |i: int| i as nat);
        assert forall|i: nat| i < n implies #[trigger] order.contains(i) by {
            assert(order[i as int] == i);
        }
        law_fragments_reassemble(base, opcode, body, id, order);
    }
}

/// The packets of an application that was sent, as the peer reads them.
proof fn lemma_read_parts(sender: OldState, opcode: u16, body: Seq<u8>, now: u64)
    requires
        sender.sending(opcode, body, now).1 is None,
    ensures
        ({
            let stream = read(sent_wires(sender, opcode, body, now));
            &&& body.len() <= MAX_APPLICATION
            &&& stream.len() == packet_count(body.len())
            &&& forall|i: int|
                0 <= i < stream.len() ==> model::starts_sequence((#[trigger] stream[i]).header_a)
                    == (i == 0 && !sender.sent_start)
            &&& body.len() < 512 ==> stream[0].fragment is None && stream[0].opcode == Some(opcode)
                && stream[0].body == body
            &&& body.len() >= 512 ==> forall|i: int|
                0 <= i < stream.len() ==> {
                    let part = part_packet(opcode, body, sender.next_fragment, i as nat);
                    &&& (#[trigger] stream[i]).fragment == part.fragment
                    &&& stream[i].opcode == part.opcode
                    &&& stream[i].body == part.body
                }
        }),
{
    let last = sender.next_arq.wrapping_sub(1);
    let wires = sent_wires(sender, opcode, body, now);
    let stream = read(wires);
    law_sent_application_reads_back(sender, opcode, body, now);
    assert forall|i: int| 0 <= i < stream.len() implies {
        &&& model::starts_sequence((#[trigger] stream[i]).header_a) == (i == 0
            && !sender.sent_start)
        &&& body.len() < 512 ==> stream[i].fragment is None && stream[i].opcode == Some(opcode)
            && stream[i].body == body
        &&& body.len() >= 512 ==> {
            let part = part_packet(opcode, body, sender.next_fragment, i as nat);
            &&& stream[i].fragment == part.fragment
            &&& stream[i].opcode == part.opcode
            &&& stream[i].body == part.body
        }
    } by {
        reveal(carries_part);
        assert(stream[i] == model::decoded(wires[i])->Ok_0);
        assert(carries_part(
            wires[i],
            number(last, i as nat),
            opcode,
            body,
            sender.next_fragment,
            i as nat,
            i == 0 && !sender.sent_start,
        ));
    }
    assert(stream[0] == stream[0]);
}

/// An application reaches the peer whole: once each of its packets has arrived,
/// in whatever order and however often, exactly that application has been
/// queued. The peer has seen what was sent before, holds nothing back and has
/// room for another group of fragments; the stream has begun.
pub proof fn law_sent_application_arrives(
    sender: OldState,
    receiver: OldState,
    opcode: u16,
    body: Seq<u8>,
    now: u64,
    arrivals: Seq<nat>,
)
    requires
        sender.sent_start,
        sender.sending(opcode, body, now).1 is None,
        receiver.wf(),
        receiver.last_received_arq == Some(sender.next_arq.wrapping_sub(1)),
        receiver.reorder == Map::<u16, DecodedState>::empty(),
        !receiver.fragments.contains_key(sender.next_fragment),
        receiver.fragments.dom().len() < MAX_FRAGMENT_GROUPS,
        forall|m: int|
            0 <= m < arrivals.len() ==> #[trigger] arrivals[m] < packet_count(body.len()),
        forall|i: nat| i < packet_count(body.len()) ==> #[trigger] arrivals.contains(i),
        forall|m: int, f: nat|
            0 <= m < arrivals.len() && #[trigger] first_missing(arrivals.take(m), f)
                ==> arrivals[m] < f + WINDOW && f <= arrivals[m] + 32768,
    ensures
        ({
            let last = sender.next_arq.wrapping_sub(1);
            let stream = read(sent_wires(sender, opcode, body, now));
            let (next, error) = arrived(receiver, last, stream, arrivals);
            &&& error is None
            &&& next.applications == receiver.applications.push(App { opcode, body })
            &&& next.fragments == receiver.fragments
            &&& next.last_received_arq == Some(
                sender.sending(opcode, body, now).0.next_arq.wrapping_sub(1),
            )
        }),
{
    let last = sender.next_arq.wrapping_sub(1);
    let wires = sent_wires(sender, opcode, body, now);
    let stream = read(wires);
    law_sent_application_reads_back(sender, opcode, body, now);
    lemma_read_parts(sender, opcode, body, now);
    lemma_taken_application(receiver, stream, opcode, body, sender.next_fragment);
    let k = law_packets_delivered_once_in_order(receiver, last, stream, arrivals);
    if k > stream.len() {
        assert(arrivals.contains(stream.len()));
        let m = choose|m: int| 0 <= m < arrivals.len() && arrivals[m] == stream.len();
        assert(arrivals[m] < packet_count(body.len()));
    }
    assert(k == stream.len());
    assert(stream.take(k as int) =~= stream);
}

/// Taking packets touches nothing but the fragments and the queue, and depends
/// on nothing else.
proof fn lemma_taken_is_local(s: OldState, t: OldState, stream: Seq<DecodedState>)
    requires
        s.fragments == t.fragments,
        s.applications == t.applications,
    ensures
        taken(s, stream).1 == taken(t, stream).1,
        taken(s, stream).0.fragments == taken(t, stream).0.fragments,
        taken(s, stream).0.applications == taken(t, stream).0.applications,
    decreases stream.len(),
{
    if stream.len() > 0 {
        lemma_taken_is_local(s, t, stream.drop_last());
        let a = taken(s, stream.drop_last()).0;
        let b = taken(t, stream.drop_last()).0;
        lemma_delivered_is_local(a, b, stream.last());
    }
}

/// A stream can be taken in two steps, its first packet and the rest.
proof fn lemma_taken_after_first(s: OldState, stream: Seq<DecodedState>)
    requires
        stream.len() > 0,
        taken(s, stream).1 is None,
    ensures
        s.delivered(stream[0]).1 is None,
        taken(s.delivered(stream[0]).0, stream.skip(1)) == taken(s, stream),
    decreases stream.len(),
{
    let front = stream.drop_last();
    if front.len() == 0 {
        assert(stream.skip(1) =~= Seq::empty());
        assert(front =~= Seq::empty());
        assert(taken(s, front) == (s, None::<LegacyError>));
    } else {
        lemma_taken_after_first(s, front);
        assert(stream.skip(1).drop_last() =~= front.skip(1));
        assert(stream.skip(1).last() == stream.last());
        assert(front[0] == stream[0]);
    }
}

/// The first application of a stream reaches the peer whole: its first packet
/// starts the sequence, and once each of the others has arrived, in whatever
/// order and however often, exactly that application has been queued.
pub proof fn law_first_application_arrives(
    sender: OldState,
    receiver: OldState,
    opcode: u16,
    body: Seq<u8>,
    now: u64,
    arrivals: Seq<nat>,
)
    requires
        !sender.sent_start,
        sender.sending(opcode, body, now).1 is None,
        receiver.wf(),
        receiver.reorder == Map::<u16, DecodedState>::empty(),
        !receiver.fragments.contains_key(sender.next_fragment),
        receiver.fragments.dom().len() < MAX_FRAGMENT_GROUPS,
        forall|m: int|
            0 <= m < arrivals.len() ==> #[trigger] arrivals[m] + 1 < packet_count(body.len()),
        forall|i: nat| i + 1 < packet_count(body.len()) ==> #[trigger] arrivals.contains(i),
        forall|m: int, f: nat|
            0 <= m < arrivals.len() && #[trigger] first_missing(arrivals.take(m), f)
                ==> arrivals[m] < f + WINDOW && f <= arrivals[m] + 32768,
    ensures
        ({
            let stream = read(sent_wires(sender, opcode, body, now));
            let (one, first) = receiver.sequenced(sender.next_arq, stream[0]);
            let (next, error) = arrived(one, sender.next_arq, stream.skip(1), arrivals);
            &&& first is None
            &&& error is None
            &&& next.applications == receiver.applications.push(App { opcode, body })
            &&& next.fragments == receiver.fragments
        }),
{
    let last = sender.next_arq.wrapping_sub(1);
    let wires = sent_wires(sender, opcode, body, now);
    let stream = read(wires);
    let rest = stream.skip(1);
    lemma_read_parts(sender, opcode, body, now);
    lemma_taken_application(receiver, stream, opcode, body, sender.next_fragment);
    lemma_taken_after_first(receiver, stream);
    let (one, first) = receiver.sequenced(sender.next_arq, stream[0]);
    let named = OldState {
        last_received_arq: Some(sender.next_arq),
        ack_pending: true,
        ..receiver
    };
    lemma_delivered_is_local(named, receiver, stream[0]);
    assert(one == named.delivered(stream[0]).0);
    lemma_taken_is_local(one, receiver.delivered(stream[0]).0, rest);
    assert forall|i: int| 0 <= i < rest.len() implies !model::starts_sequence(
        (#[trigger] rest[i]).header_a,
    ) by {
        assert(rest[i] == stream[i + 1]);
    }
    assert forall|m: int| 0 <= m < arrivals.len() implies #[trigger] arrivals[m]
        < rest.len() by {}
    let k = law_packets_delivered_once_in_order(one, sender.next_arq, rest, arrivals);
    if k > rest.len() {
        assert(arrivals.contains(rest.len()));
        let m = choose|m: int| 0 <= m < arrivals.len() && arrivals[m] == rest.len();
        assert(arrivals[m] + 1 < packet_count(body.len()));
    }
    assert(k == rest.len());
    assert(rest.take(k as int) =~= rest);
}

/// Applications sent one after the other, up to the first error.
pub open spec fn sent_all(s: OldState, apps: Seq<App>, times: Seq<u64>) -> (
    OldState,
    Option<LegacyError>,
)
    decreases apps.len(),
{
    if apps.len() == 0 {
        (s, None)
    } else {
        let (before, error) = sent_all(s, apps.drop_last(), times);
        if error is Some {
            (before, error)
        } else {
            before.sending(apps.last().opcode, apps.last().body, times[apps.len() - 1])
        }
    }
}

/// How many packets some applications take together.
pub open spec fn packets_of(apps: Seq<App>) -> nat
    decreases apps.len(),
{
    if apps.len() == 0 {
        0
    } else {
        packets_of(apps.drop_last()) + packet_count(apps.last().body.len())
    }
}

/// The datagrams that sending some applications puts on the wire.
pub open spec fn all_wires(s: OldState, apps: Seq<App>, times: Seq<u64>) -> Seq<Seq<u8>> {
    sent_all(s, apps, times).0.outbox.skip(s.outbox.len() as int)
}

/// The fragments of an application go out while the window has room for them.
proof fn lemma_parts_fit(s: OldState, opcode: u16, body: Seq<u8>, id: u16, from: nat, now: u64)
    requires
        from <= model::part_count(body.len()),
        s.pending.len() + model::part_count(body.len()) - from <= WINDOW,
    ensures
        ({
            let total = model::part_count(body.len());
            let (next, error) = s.sent_parts(opcode, body, id, from, total, now);
            &&& error is None
            &&& next.pending.len() == s.pending.len() + total - from
            &&& next.closed == s.closed
        }),
    decreases model::part_count(body.len()) - from,
{
    let total = model::part_count(body.len());
    if from < total {
        let one = s.sent_part(
            if from == 0 {
                Some(opcode)
            } else {
                None
            },
            model::part_of(body, from),
            Some((id, from as u16, total as u16)),
            from == 0,
            now,
        ).0;
        lemma_parts_fit(one, opcode, body, id, from + 1, now);
    }
}

/// Applications can be sent while the window has room for their packets: none of
/// them fails on an open stream unless it is too long.
pub proof fn law_applications_that_fit_are_sent(s: OldState, apps: Seq<App>, times: Seq<u64>)
    requires
        !s.closed,
        s.pending.len() + packets_of(apps) <= WINDOW,
        forall|i: int|
            0 <= i < apps.len() ==> (#[trigger] apps[i]).body.len() <= MAX_APPLICATION,
    ensures
        sent_all(s, apps, times).1 is None,
        sent_all(s, apps, times).0.pending.len() == s.pending.len() + packets_of(apps),
        !sent_all(s, apps, times).0.closed,
    decreases apps.len(),
{
    if apps.len() > 0 {
        let rest = apps.drop_last();
        let app = apps.last();
        assert forall|i: int| 0 <= i < rest.len() implies (#[trigger] rest[i]).body.len()
            <= MAX_APPLICATION by {
            assert(rest[i] == apps[i]);
        }
        law_applications_that_fit_are_sent(s, rest, times);
        let before = sent_all(s, rest, times).0;
        assert(app == apps[apps.len() - 1]);
        if app.body.len() >= 512 {
            lemma_parts_fit(
                OldState { next_fragment: before.next_fragment.wrapping_add(1), ..before },
                app.opcode,
                app.body,
                before.next_fragment,
                0,
                times[apps.len() - 1],
            );
        }
    }
}

/// Datagrams, by index, read and processed by a session in the order of their
/// arrival, up to the first error.
pub open spec fn heard(
    base: OldState,
    wires: Seq<Seq<u8>>,
    arrivals: Seq<nat>,
    times: Seq<u64>,
) -> (OldState, Option<LegacyError>)
    decreases arrivals.len(),
{
    if arrivals.len() == 0 {
        (base, None)
    } else {
        let (s, error) = heard(base, wires, arrivals.drop_last(), times);
        if error is Some {
            (s, error)
        } else {
            match model::decoded(wires[arrivals.last() as int]) {
                Err(e) => (s, Some(e)),
                Ok(packet) => s.processed(packet, times[arrivals.len() - 1]),
            }
        }
    }
}

/// Whether a datagram reads as a reliable packet with a number, which starts the
/// sequence where `first` says so and says nothing of what the peer has sent but
/// how far it has come.
#[verifier::opaque]
spec fn stream_packet(wire: Seq<u8>, arq: u16, first: bool) -> bool {
    &&& model::decoded(wire) is Ok
    &&& model::decoded(wire)->Ok_0.arq == Some(arq)
    &&& model::decoded(wire)->Ok_0.resend_before is None
    &&& model::decoded(wire)->Ok_0.selective_ack.len() == 0
    &&& !model::closes(model::decoded(wire)->Ok_0.header_a)
    &&& model::starts_sequence(model::decoded(wire)->Ok_0.header_a) == first
}

/// Numbers count on over several applications.
proof fn lemma_numbers_count_on(last: u16, p: nat, i: nat)
    ensures
        number(number(last, p).wrapping_sub(1), i) == number(last, p + i),
        number(last, 0).wrapping_sub(1) == last,
        number(last, 0) == last.wrapping_add(1),
{
}

/// The datagrams of several applications are consecutively numbered, and only
/// the first of the stream starts the sequence.
proof fn lemma_all_sent(s: OldState, apps: Seq<App>, times: Seq<u64>)
    requires
        sent_all(s, apps, times).1 is None,
    ensures
        ({
            let next = sent_all(s, apps, times).0;
            let wires = all_wires(s, apps, times);
            let last = s.next_arq.wrapping_sub(1);
            &&& next.outbox == s.outbox + wires
            &&& wires.len() == packets_of(apps)
            &&& packets_of(apps) >= apps.len()
            &&& next.next_arq == number(last, packets_of(apps))
            &&& next.sent_start == (s.sent_start || apps.len() > 0)
            &&& forall|j: int|
                0 <= j < wires.len() ==> stream_packet(
                    #[trigger] wires[j],
                    number(last, j as nat),
                    j == 0 && !s.sent_start,
                )
        }),
    decreases apps.len(),
{
    let next = sent_all(s, apps, times).0;
    let wires = all_wires(s, apps, times);
    let last = s.next_arq.wrapping_sub(1);
    lemma_next_number(s.next_arq, 0);
    if apps.len() == 0 {
        assert(wires =~= Seq::empty());
        assert(next.outbox =~= s.outbox + wires);
    } else {
        let rest = apps.drop_last();
        let app = apps.last();
        let now = times[apps.len() - 1];
        lemma_all_sent(s, rest, times);
        let before = sent_all(s, rest, times).0;
        let old_wires = all_wires(s, rest, times);
        let new_wires = sent_wires(before, app.opcode, app.body, now);
        let p = packets_of(rest);
        law_sent_application_reads_back(before, app.opcode, app.body, now);
        assert(next.outbox =~= s.outbox + (old_wires + new_wires));
        assert(wires =~= old_wires + new_wires);
        lemma_numbers_count_on(last, p, packet_count(app.body.len()));
        assert forall|j: int| 0 <= j < wires.len() implies stream_packet(
            #[trigger] wires[j],
            number(last, j as nat),
            j == 0 && !s.sent_start,
        ) by {
            if j < p {
                assert(wires[j] == old_wires[j]);
            } else {
                let i = j - p;
                assert(wires[j] == new_wires[i]);
                lemma_numbers_count_on(last, p, i as nat);
                reveal(stream_packet);
                reveal(carries_part);
                assert(carries_part(
                    new_wires[i],
                    number(before.next_arq.wrapping_sub(1), i as nat),
                    app.opcode,
                    app.body,
                    before.next_fragment,
                    i as nat,
                    i == 0 && !before.sent_start,
                ));
            }
        }
    }
}

/// A stream can be taken in two pieces.
proof fn lemma_taken_in_pieces(s: OldState, a: Seq<DecodedState>, b: Seq<DecodedState>)
    requires
        taken(s, a).1 is None,
    ensures
        taken(s, a + b) == taken(taken(s, a).0, b),
    decreases b.len(),
{
    if b.len() == 0 {
        assert(a + b =~= a);
    } else {
        lemma_taken_in_pieces(s, a, b.drop_last());
        assert((a + b).drop_last() =~= a + b.drop_last());
        assert((a + b).last() == b.last());
    }
}

/// The packets of several applications, taken in order, deliver them in order.
proof fn lemma_taken_all(base: OldState, s: OldState, apps: Seq<App>, times: Seq<u64>)
    requires
        sent_all(s, apps, times).1 is None,
        base.wf(),
        base.fragments == Map::<u16, FragmentState>::empty(),
    ensures
        taken(base, read(all_wires(s, apps, times))) == (
            OldState { applications: base.applications + apps, ..base },
            None::<LegacyError>,
        ),
    decreases apps.len(),
{
    let stream = read(all_wires(s, apps, times));
    lemma_all_sent(s, apps, times);
    if apps.len() == 0 {
        assert(stream =~= Seq::empty());
        assert(base.applications + apps =~= base.applications);
    } else {
        let rest = apps.drop_last();
        let app = apps.last();
        let now = times[apps.len() - 1];
        lemma_taken_all(base, s, rest, times);
        lemma_all_sent(s, rest, times);
        let before = sent_all(s, rest, times).0;
        let old_wires = all_wires(s, rest, times);
        let new_wires = sent_wires(before, app.opcode, app.body, now);
        law_sent_application_reads_back(before, app.opcode, app.body, now);
        assert(all_wires(s, apps, times) =~= old_wires + new_wires);
        assert(stream =~= read(old_wires) + read(new_wires));
        lemma_taken_in_pieces(base, read(old_wires), read(new_wires));
        lemma_read_parts(before, app.opcode, app.body, now);
        let middle = OldState { applications: base.applications + rest, ..base };
        lemma_taken_application(
            middle,
            read(new_wires),
            app.opcode,
            app.body,
            before.next_fragment,
        );
        assert((base.applications + rest).push(app) =~= base.applications + apps);
    }
}

/// The numbers of the packets of a stream from the second to the one before `n`.
spec fn later_numbers(last: u16, n: nat) -> Set<u16>
    decreases n,
{
    if n <= 1 {
        Set::empty()
    } else {
        later_numbers(last, (n - 1) as nat).insert(number(last, (n - 1) as nat))
    }
}

proof fn lemma_later_numbers(last: u16, n: nat)
    ensures
        later_numbers(last, n).finite(),
        later_numbers(last, n).len() <= n,
        n > 0 ==> later_numbers(last, n).len() < n,
        forall|i: nat| 0 < i < n ==> later_numbers(last, n).contains(#[trigger] number(last, i)),
    decreases n,
{
    if n > 1 {
        lemma_later_numbers(last, (n - 1) as nat);
        assert forall|i: nat| 0 < i < n implies later_numbers(last, n).contains(
            #[trigger] number(last, i),
        ) by {}
    }
}

/// Fewer packets are held than the stream has.
proof fn lemma_few_held(s: OldState, last: u16, stream: Seq<DecodedState>)
    requires
        s.reorder.dom().finite(),
        stream.len() > 0,
        holds_only(s, last, stream, 0),
        !s.reorder.contains_key(number(last, 0)),
    ensures
        s.reorder.dom().len() < stream.len(),
{
    let all = later_numbers(last, stream.len());
    lemma_later_numbers(last, stream.len());
    assert forall|key: u16| #[trigger] s.reorder.dom().contains(key) implies all.contains(key) by {
        assert(s.reorder.contains_key(key));
        let distance = key.wrapping_sub(number(last, 0)) as nat;
        assert(number(last, distance) == key);
        assert(distance != 0);
    }
    vstd::set_lib::lemma_len_subset(s.reorder.dom(), all);
}

/// A session that waits for a stream to begin, as if it had begun.
spec fn begun(s: OldState, last: u16) -> OldState {
    if s.last_received_arq is None {
        OldState { last_received_arq: Some(last), ..s }
    } else {
        s
    }
}

/// Whether a packet arrives at most once.
pub open spec fn once(arrivals: Seq<nat>, i: nat) -> bool {
    forall|m: int, n: int|
        0 <= m < n < arrivals.len() ==> #[trigger] arrivals[m] != i || #[trigger] arrivals[n] != i
}

/// One more arrival is the last of them.
proof fn lemma_arrivals_grow(arrivals: Seq<nat>)
    requires
        arrivals.len() > 0,
    ensures
        forall|j: nat| #[trigger]
            arrivals.contains(j) <==> arrivals.drop_last().contains(j) || j == arrivals.last(),
{
    let before = arrivals.drop_last();
    assert forall|j: nat| #[trigger] arrivals.contains(j) <==> before.contains(j) || j
        == arrivals.last() by {
        assert(arrivals[arrivals.len() - 1] == arrivals.last());
        if before.contains(j) {
            let m = choose|m: int| 0 <= m < before.len() && before[m] == j;
            assert(arrivals[m] == j);
        }
        if arrivals.contains(j) && j != arrivals.last() {
            let m = choose|m: int| 0 <= m < arrivals.len() && arrivals[m] == j;
            assert(before[m] == j);
        }
    }
}

/// A packet of the stream arrives at a session that may still wait for the
/// stream to begin: it finds its place as in one that has begun.
proof fn lemma_heard_packet(
    s: OldState,
    base: OldState,
    last: u16,
    wires: Seq<Seq<u8>>,
    first: bool,
    k: nat,
    i: nat,
    now: u64,
) -> (end: nat)
    requires
        taken(base, read(wires)).1 is None,
        wires.len() <= WINDOW,
        i < wires.len(),
        stream_packet(wires[i as int], number(last, i), first && i == 0),
        in_step(begun(s, last), base, last, read(wires), k),
        s.last_received_arq is None ==> k == 0 && (i == 0 ==> first || number(last, 0) == 0) && (i
            > 0 ==> number(last, i) != 0),
        s.last_received_arq is Some ==> i > 0 || !first,
    ensures
        ({
            let (next, error) = s.processed(model::decoded(wires[i as int])->Ok_0, now);
            let t = begun(s, last);
            let u = begun(next, last);
            &&& model::decoded(wires[i as int]) is Ok
            &&& error is None
            &&& next.last_received_arq is None <==> s.last_received_arq is None && i > 0
            &&& in_step(u, base, last, read(wires), end)
            &&& k <= end
            &&& forall|j: nat| k <= j < end ==> j == i || #[trigger] waits(t, last, k, j)
            &&& !(end == i || waits(t, last, k, end))
            &&& forall|j: nat|
                end < j ==> (#[trigger] waits(u, last, end, j) <==> waits(t, last, k, j) || (j == i
                    && k < i))
        }),
{
    reveal(stream_packet);
    let stream = read(wires);
    let packet = model::decoded(wires[i as int])->Ok_0;
    assert(packet == stream[i as int]);
    let arq = number(last, i);
    let answered = s.answered(packet, now);
    let t = begun(s, last);
    let v = begun(answered, last);
    assert(v == OldState { pending: answered.pending, ..t });
    assert(holds_only(v, last, stream, k)) by {
        assert forall|key: u16| #[trigger] v.reorder.contains_key(key) implies {
            let distance = key.wrapping_sub(number(last, k));
            &&& distance < WINDOW
            &&& k + distance < stream.len()
            &&& v.reorder[key] == stream[k + distance]
        } by {
            assert(t.reorder.contains_key(key));
        }
    }
    assert(in_step(v, base, last, stream, k));
    let end = lemma_placed_keeps_step(v, base, last, stream, k, i);
    assert forall|j: nat| waits(v, last, k, j) == #[trigger] waits(t, last, k, j) by {}
    let next = s.processed(packet, now).0;
    lemma_numbers_count_on(last, 0, 0);
    if s.last_received_arq is None {
        if i == 0 {
            assert(answered.sequenced(arq, packet) == v.placed(last, arq, packet));
        } else {
            lemma_few_held(v, last, stream);
            lemma_numbers(last, 0, i);
            assert(v.placed(last, arq, packet) == (v.hold(arq, packet), None::<LegacyError>));
            assert(answered.sequenced(arq, packet) == (
                answered.hold(arq, packet),
                None::<LegacyError>,
            ));
            assert(begun(answered.hold(arq, packet), last) == v.hold(arq, packet));
        }
    } else {
        assert(answered.sequenced(arq, packet) == v.placed(
            v.last_received_arq->0,
            arq,
            packet,
        ));
    }
    assert(begun(next, last) == v.placed(v.last_received_arq->0, arq, packet).0);
    end
}

/// Packets of a stream arrive in any order at a session that has seen what came
/// before, or waits for the stream to begin.
proof fn lemma_heard_in_step(
    base: OldState,
    last: u16,
    wires: Seq<Seq<u8>>,
    first: bool,
    arrivals: Seq<nat>,
    times: Seq<u64>,
) -> (k: nat)
    requires
        base.reorder == Map::<u16, DecodedState>::empty(),
        taken(base, read(wires)).1 is None,
        wires.len() <= WINDOW,
        forall|j: int|
            0 <= j < wires.len() ==> stream_packet(
                #[trigger] wires[j],
                number(last, j as nat),
                first && j == 0,
            ),
        match base.last_received_arq {
            Some(seen) => seen == last && !first,
            None => (first || number(last, 0) == 0) && forall|j: nat|
                0 < j < wires.len() ==> #[trigger] number(last, j) != 0,
        },
        forall|m: int| 0 <= m < arrivals.len() ==> #[trigger] arrivals[m] < wires.len(),
        first ==> once(arrivals, 0),
    ensures
        heard(base, wires, arrivals, times).1 is None,
        first_missing(arrivals, k),
        ({
            let s = heard(base, wires, arrivals, times).0;
            &&& s.last_received_arq is None <==> base.last_received_arq is None
                && !arrivals.contains(0)
            &&& in_step(begun(s, last), base, last, read(wires), k)
            &&& forall|i: nat|
                k < i ==> (#[trigger] waits(begun(s, last), last, k, i) <==> arrivals.contains(i))
        }),
    decreases arrivals.len(),
{
    let stream = read(wires);
    if arrivals.len() == 0 {
        assert(stream.take(0) =~= Seq::empty());
        lemma_numbers_count_on(last, 0, 0);
        assert(first_missing(arrivals, 0));
        0
    } else {
        let before = arrivals.drop_last();
        let i = arrivals.last();
        assert forall|m: int| 0 <= m < before.len() implies #[trigger] before[m]
            < wires.len() by {
            assert(before[m] == arrivals[m]);
        }
        assert(first ==> once(before, 0)) by {
            assert forall|m: int, n: int| first && 0 <= m < n < before.len() implies
                #[trigger] before[m] != 0 || #[trigger] before[n] != 0 by {
                assert(before[m] == arrivals[m] && before[n] == arrivals[n]);
            }
        }
        let k = lemma_heard_in_step(base, last, wires, first, before, times);
        let s = heard(base, wires, before, times).0;
        assert(arrivals[arrivals.len() - 1] == i);
        lemma_arrivals_grow(arrivals);
        if first && i == 0 && before.contains(0) {
            let m = choose|m: int| 0 <= m < before.len() && before[m] == 0;
            assert(arrivals[m] == 0);
        }
        if s.last_received_arq is None && k > 0 {
            assert(before.contains(0));
        }
        let end = lemma_heard_packet(
            s,
            base,
            last,
            wires,
            first,
            k,
            i,
            times[arrivals.len() - 1],
        );
        let t = begun(s, last);
        assert forall|j: nat| j < end implies #[trigger] arrivals.contains(j) by {
            if j >= k && j != i {
                assert(waits(t, last, k, j));
            }
        }
        assert(!arrivals.contains(end)) by {
            if before.contains(end) {
                assert(end > k);
                assert(waits(t, last, k, end));
            }
        }
        end
    }
}

/// Numbers that do not wrap are zero at most at the front.
proof fn lemma_numbers_from(arq: u16, n: nat)
    requires
        arq + n <= 65536,
    ensures
        forall|j: nat|
            0 < j < n ==> #[trigger] number(arq.wrapping_sub(1), j) != 0,
{
    assert forall|j: nat| 0 < j < n implies #[trigger] number(arq.wrapping_sub(1), j) != 0 by {
        lemma_numbers_count_on(arq.wrapping_sub(1), 0, j);
        assert((arq.wrapping_sub(1) + 1 + j) % 65536 == arq + j);
    }
}

/// A session that has taken the whole stream holds nothing back.
proof fn lemma_nothing_held(s: OldState, base: OldState, last: u16, stream: Seq<DecodedState>)
    requires
        in_step(s, base, last, stream, stream.len()),
    ensures
        s.reorder == Map::<u16, DecodedState>::empty(),
        s.fragments == taken(base, stream).0.fragments,
        s.applications == taken(base, stream).0.applications,
        s.last_received_arq == Some(number(last, stream.len()).wrapping_sub(1)),
{
    assert(stream.take(stream.len() as int) =~= stream);
    assert forall|key: u16| !#[trigger] s.reorder.contains_key(key) by {}
    assert(s.reorder =~= Map::empty());
}

/// What is sent arrives: once every datagram of some applications has arrived, in
/// whatever order, exactly these applications have been queued, in the order in
/// which they were sent and byte for byte, and nothing of them stays behind.
///
/// The receiver is new, or has seen all that was sent before. A new receiver holds
/// early packets until the stream begins, which it does with the packet that
/// starts the sequence, or with number zero where none does. Every datagram may
/// arrive any number of times but the one that starts the sequence, which would
/// start it anew.
#[verifier::spinoff_prover]
pub proof fn law_sent_applications_arrive(
    sender: OldState,
    receiver: OldState,
    apps: Seq<App>,
    sent: Seq<u64>,
    arrivals: Seq<nat>,
    times: Seq<u64>,
)
    requires
        sent_all(sender, apps, sent).1 is None,
        packets_of(apps) <= WINDOW,
        receiver.wf(),
        receiver.reorder == Map::<u16, DecodedState>::empty(),
        receiver.fragments == Map::<u16, FragmentState>::empty(),
        match receiver.last_received_arq {
            Some(seen) => sender.sent_start && seen == sender.next_arq.wrapping_sub(1),
            None => (!sender.sent_start || sender.next_arq == 0) && sender.next_arq + packets_of(
                apps,
            ) <= 65536,
        },
        forall|m: int| 0 <= m < arrivals.len() ==> #[trigger] arrivals[m] < packets_of(apps),
        forall|i: nat| i < packets_of(apps) ==> #[trigger] arrivals.contains(i),
        !sender.sent_start ==> once(arrivals, 0),
    ensures
        ({
            let (next, error) = heard(
                receiver,
                all_wires(sender, apps, sent),
                arrivals,
                times,
            );
            &&& error is None
            &&& next.applications == receiver.applications + apps
            &&& next.fragments == receiver.fragments
            &&& next.reorder == receiver.reorder
            &&& apps.len() > 0 ==> next.last_received_arq == Some(
                sent_all(sender, apps, sent).0.next_arq.wrapping_sub(1),
            )
        }),
{
    let last = sender.next_arq.wrapping_sub(1);
    let wires = all_wires(sender, apps, sent);
    let stream = read(wires);
    let first = !sender.sent_start;
    lemma_all_sent(sender, apps, sent);
    lemma_taken_all(receiver, sender, apps, sent);
    lemma_next_number(sender.next_arq, 0);
    if receiver.last_received_arq is None {
        lemma_numbers_from(sender.next_arq, wires.len());
    }
    let k = lemma_heard_in_step(receiver, last, wires, first, arrivals, times);
    if k > wires.len() {
        assert(arrivals.contains(wires.len()));
        let m = choose|m: int| 0 <= m < arrivals.len() && arrivals[m] == wires.len();
        assert(arrivals[m] < packets_of(apps));
    }
    assert(k == wires.len());
    lemma_nothing_held(
        begun(heard(receiver, wires, arrivals, times).0, last),
        receiver,
        last,
        stream,
    );
    if apps.len() > 0 {
        assert(arrivals.contains(0));
    }
}

/// The closing flags are sent once, and nothing can be sent after them.
pub proof fn law_closed_stream_stays_silent(s: OldState, opcode: u16, body: Seq<u8>, now: u64)
    ensures
        s.closing(now).closing(now) == s.closing(now),
        s.closing(now).sending(opcode, body, now) == (
            s.closing(now),
            Some(LegacyError::SessionClosed),
        ),
{
}

} // verus!

//! What a session does with each kind of packet, and what it does when time passes.

use super::layout::number_at;
use super::model::{self, App, PendingState, SessionState};
use super::{Handshake, TransportError};
use crate::bytes;
use vstd::prelude::*;

verus! {

/// The two bytes of a number, the high one first.
pub open spec fn two_bytes(n: int) -> Seq<u8> {
    seq![(n / 256) as u8, (n % 256) as u8]
}

/// A packet other than a combined one is treated by its opcode, also inside a
/// combined packet.
pub proof fn law_packets_go_by_their_opcode(
    s: SessionState,
    opcode: u8,
    body: Seq<u8>,
    nested: bool,
    depth: nat,
    now: u64,
)
    requires
        depth < 8,
        nested || !s.compression,
        opcode != 3,
    ensures
        s.processed(seq![0u8, opcode] + body, nested, depth, now) == s.controlled(
            opcode as u16,
            body,
            depth,
            now,
        ),
{
    let packet = seq![0u8, opcode] + body;
    assert(packet.skip(2) =~= body);
    assert(bytes::be16_at(packet, 0) == opcode);
}

/// Nesting ends at eight levels, and a packet has at least two bytes.
pub proof fn law_nesting_is_limited(
    s: SessionState,
    packet: Seq<u8>,
    nested: bool,
    depth: nat,
    now: u64,
)
    requires
        depth >= 8 || packet.len() < 2,
    ensures
        s.processed(packet, nested, depth, now) == (s, Some(TransportError::NestedTransport)),
{
}

/// A packet that does not begin with zero is an application packet outside the
/// reliable stream, and is queued behind what waits.
pub proof fn law_raw_packets_are_queued(
    s: SessionState,
    packet: Seq<u8>,
    nested: bool,
    depth: nat,
    now: u64,
)
    requires
        depth < 7,
        packet.len() >= 2,
        packet[0] != 0,
        nested || !s.compression,
    ensures
        s.processed(packet, nested, depth, now) == (
            SessionState {
                applications: s.applications.push(
                    (App { opcode: (packet[0] + 256 * packet[1]) as u16, body: packet.skip(2) }),
                ),
                ..s
            },
            None::<TransportError>,
        ),
{
    let app = App { opcode: (packet[0] + 256 * packet[1]) as u16, body: packet.skip(2) };
    assert(model::unpack(packet, depth + 1) == (seq![app], None::<TransportError>));
    assert(s.applications + seq![app] =~= s.applications.push(app));
}

/// How far a number lies ahead of another one.
pub open spec fn distance(number: int, from: int) -> int {
    (number - from) % 65536
}

/// A reliable frame without a number is refused. One that was taken before is only
/// acknowledged again, one too far ahead is refused, and an early one is held once
/// and reported by its number.
pub proof fn law_frames_out_of_turn(
    s: SessionState,
    opcode: u16,
    body: Seq<u8>,
    depth: nat,
    now: u64,
)
    requires
        opcode == 9 || opcode == 13,
        s.reorder.dom().finite(),
        !s.reorder.contains_key(s.next_receive),
    ensures
        ({
            let (next, error) = s.controlled(opcode, body, depth, now);
            let number = number_at(body, 0, 2);
            let ahead = distance(number, s.next_receive as int);
            &&& body.len() < 2 ==> next == s && error == Some(TransportError::SequenceMissing)
            &&& body.len() >= 2 && ahead >= 32768 ==> error is None && next == (SessionState {
                ack_pending: true,
                ..s
            })
            &&& body.len() >= 2 && 2048 <= ahead < 32768 ==> next == s && error == Some(
                TransportError::IncomingWindow,
            )
            &&& body.len() >= 2 && 0 < ahead < 2048 ==> {
                let known = s.reorder.contains_key(number as u16);
                let report = s.datagram(0x11, two_bytes(number));
                &&& error is None
                &&& next == (SessionState {
                    reorder: if known {
                        s.reorder
                    } else {
                        s.reorder.insert(number as u16, (opcode, body.skip(2)))
                    },
                    ack_pending: true,
                    outbox: s.outbox.push(report),
                    sent_count: s.sent_count.wrapping_add(1),
                    ..s
                })
            }
        }),
{
    reveal_with_fuel(number_at, 3);
    if body.len() >= 2 {
        let sequence = bytes::be16_at(body, 0);
        assert(sequence == number_at(body, 0, 2));
        assert(sequence.wrapping_sub(s.next_receive) == distance(
            sequence as int,
            s.next_receive as int,
        ));
    }
}

/// A frame whose turn it is is taken, and the next number is expected after it. One
/// in error is refused.
pub proof fn law_frames_in_turn(
    s: SessionState,
    opcode: u16,
    body: Seq<u8>,
    depth: nat,
    now: u64,
)
    requires
        opcode == 9 || opcode == 13,
        s.reorder == Map::<u16, (u16, Seq<u8>)>::empty(),
    ensures
        ({
            let (next, error) = s.controlled(
                opcode,
                two_bytes(s.next_receive as int) + body,
                depth,
                now,
            );
            let (taken, fault) = s.ordered(opcode, body);
            &&& error == fault
            &&& fault is Some ==> next == taken
            &&& fault is None ==> next == (SessionState {
                next_receive: ((s.next_receive + 1) % 65536) as u16,
                ack_pending: true,
                ..taken
            })
        }),
{
    let numbered = two_bytes(s.next_receive as int) + body;
    assert(bytes::be16_at(numbered, 0) == s.next_receive);
    assert(numbered.skip(2) =~= body);
    lemma_released(s, opcode, body);
}

proof fn lemma_released(s: SessionState, opcode: u16, body: Seq<u8>)
    requires
        s.reorder == Map::<u16, (u16, Seq<u8>)>::empty(),
    ensures
        ({
            let (next, error) = (SessionState {
                reorder: s.reorder.insert(s.next_receive, (opcode, body)),
                ..s
            }).drained();
            let (taken, fault) = s.ordered(opcode, body);
            &&& error == fault
            &&& fault is Some ==> next == taken
            &&& fault is None ==> next == (SessionState {
                next_receive: s.next_receive.wrapping_add(1),
                ..taken
            })
        }),
{
    let key = s.next_receive;
    let held = s.reorder.insert(key, (opcode, body));
    assert(held.remove(key) =~= s.reorder);
    let t = SessionState { reorder: held, ..s };
    assert(t.reorder.contains_key(key));
    lemma_ordered_keeps(s, opcode, body);
    let (taken, fault) = s.ordered(opcode, body);
    let after = SessionState { next_receive: key.wrapping_add(1), ..taken };
    assert(after.drained() == (after, None::<TransportError>));
}

proof fn lemma_ordered_keeps(s: SessionState, opcode: u16, body: Seq<u8>)
    ensures
        s.ordered(opcode, body).0.next_receive == s.next_receive,
        s.ordered(opcode, body).0.reorder == s.reorder,
{
}

/// What a frame of the reliable stream does in its turn. Fragments are joined until
/// they are as long as the first of them said; a whole packet in between, a length
/// that cannot be, and a fragment too many are refused.
pub proof fn law_fragments_are_joined(s: SessionState, body: Seq<u8>)
    requires
        s.fragment matches Some((size, data)) ==> data.len() < size,
    ensures
        s.fragment is Some ==> s.ordered(9, body) == (s, Some(TransportError::FragmentInterrupted)),
        s.fragment is None ==> s.ordered(9, body) == s.delivered(model::unpack(body, 0)),
        s.fragment is None && body.len() < 4 ==> s.ordered(13, body) == (
            s,
            Some(TransportError::FragmentLength),
        ),
        s.fragment is None && body.len() >= 4 ==> {
            let size = number_at(body, 0, 4);
            &&& size < 2 || size > 16_777_216 || body.len() - 4 > size ==> s.ordered(13, body) == (
                s,
                Some(TransportError::FragmentSize),
            )
            &&& 2 <= size <= 16_777_216 && body.len() - 4 < size ==> s.ordered(13, body) == (
                SessionState { fragment: Some((size as usize, body.skip(4))), ..s },
                None::<TransportError>,
            )
            &&& 2 <= size <= 16_777_216 && body.len() - 4 == size ==> s.ordered(13, body)
                == s.delivered(model::unpack(body.skip(4), 0))
        },
        s.fragment matches Some((size, data)) ==> {
            &&& data.len() + body.len() > size ==> s.ordered(13, body) == (
                s,
                Some(TransportError::FragmentOverrun),
            )
            &&& data.len() + body.len() < size ==> s.ordered(13, body) == (
                SessionState { fragment: Some((size, data + body)), ..s },
                None::<TransportError>,
            )
            &&& data.len() + body.len() == size ==> s.ordered(13, body) == (SessionState {
                fragment: None,
                ..s
            }).delivered(model::unpack(data + body, 0))
        },
{
    reveal_with_fuel(number_at, 5);
    assert(s.fragment is None ==> SessionState { fragment: None, ..s } == s);
}

/// Packets are queued behind those that wait, also those before an error.
pub proof fn law_packets_are_queued_in_order(
    s: SessionState,
    found: Seq<App>,
    error: Option<TransportError>,
)
    ensures
        s.delivered((found, error)) == (
            SessionState { applications: s.applications + found, ..s },
            error,
        ),
{
}

/// An acknowledgment retires the frame it names and all before it, and one that
/// names no frame retires none.
pub proof fn law_acknowledgments_retire_frames(
    s: SessionState,
    body: Seq<u8>,
    i: int,
    depth: nat,
    now: u64,
)
    ensures
        body.len() != 2 ==> s.controlled(0x15, body, depth, now) == (
            s,
            Some(TransportError::CumulativeAck),
        ),
        body.len() == 2 && (forall|k: int|
            0 <= k < s.pending.len() ==> #[trigger] s.pending[k].sequence != number_at(body, 0, 2))
            ==> s.controlled(0x15, body, depth, now) == (s, None::<TransportError>),
        body.len() == 2 && 0 <= i < s.pending.len() && s.pending[i].sequence == number_at(body, 0, 2)
            && (forall|k: int|
            0 <= k < i ==> #[trigger] s.pending[k].sequence != s.pending[i].sequence)
            ==> s.controlled(0x15, body, depth, now) == (
            SessionState { pending: s.pending.skip(i + 1), ..s },
            None::<TransportError>,
        ),
{
    reveal_with_fuel(number_at, 3);
    if 0 <= i < s.pending.len() && (forall|k: int|
        0 <= k < i ==> #[trigger] s.pending[k].sequence != s.pending[i].sequence) {
        lemma_after_ack(s.pending, i);
    }
}

proof fn lemma_after_ack(pending: Seq<PendingState>, i: int)
    requires
        0 <= i < pending.len(),
        forall|k: int| 0 <= k < i ==> #[trigger] pending[k].sequence != pending[i].sequence,
    ensures
        model::after_ack(pending, pending[i].sequence) == pending.skip(i + 1),
    decreases pending.len(),
{
    if i > 0 {
        let rest = pending.skip(1);
        assert forall|k: int| 0 <= k < i - 1 implies #[trigger] rest[k].sequence != rest[i
            - 1].sequence by {
            assert(rest[k] == pending[k + 1]);
        }
        lemma_after_ack(rest, i - 1);
        assert(rest.skip(i) =~= pending.skip(i + 1));
    }
}

/// The datagrams of the frames that a test picks, in their order.
pub open spec fn picked(
    pending: Seq<PendingState>,
    pick: spec_fn(PendingState) -> bool,
) -> Seq<Seq<u8>>
    decreases pending.len(),
{
    if pending.len() == 0 {
        Seq::empty()
    } else if pick(pending.last()) {
        picked(pending.drop_last(), pick).push(pending.last().packet)
    } else {
        picked(pending.drop_last(), pick)
    }
}

/// Whether a frame was numbered at most a window before another one.
pub open spec fn shortly_before(seen: int) -> spec_fn(PendingState) -> bool {
    |p: PendingState| distance(seen, p.sequence as int) < 2048
}

proof fn lemma_resent(s: SessionState, n: nat, seen: u16, now: u64)
    requires
        n <= s.pending.len(),
    ensures
        ({
            let next = s.resent(n, seen, now);
            let sent = picked(s.pending.take(n as int), shortly_before(seen as int));
            &&& next.outbox == s.outbox + sent
            &&& next.pending.len() == s.pending.len()
            &&& forall|i: int|
                0 <= i < n ==> #[trigger] next.pending[i] == (PendingState {
                    sent: if shortly_before(seen as int)(s.pending[i]) {
                        now
                    } else {
                        s.pending[i].sent
                    },
                    ..s.pending[i]
                })
            &&& forall|i: int| n <= i < s.pending.len() ==> #[trigger] next.pending[i] == s.pending[i]
            &&& next == (SessionState {
                pending: next.pending,
                outbox: next.outbox,
                sent_count: next.sent_count,
                ..s
            })
            &&& next.sent_count as int == (s.sent_count + sent.len()) % 0x1_0000_0000_0000_0000
        }),
    decreases n,
{
    let whole = s.pending.take(n as int);
    if n == 0 {
        assert(s.outbox + Seq::<Seq<u8>>::empty() =~= s.outbox);
    } else {
        lemma_resent(s, (n - 1) as nat, seen, now);
        let before = s.resent((n - 1) as nat, seen, now);
        assert(whole.drop_last() =~= s.pending.take(n - 1));
        assert(whole.last() == s.pending[n - 1]);
        let p = before.pending[n - 1];
        assert(p == s.pending[n - 1]);
        assert(seen.wrapping_sub(p.sequence) == distance(seen as int, p.sequence as int));
        let sent = picked(s.pending.take(n - 1), shortly_before(seen as int));
        assert((s.outbox + sent).push(p.packet) =~= s.outbox + sent.push(p.packet));
    }
}

/// A report that a frame came early has the frames before it sent again, at once and
/// in their order, and no others.
pub proof fn law_reported_gaps_are_filled(s: SessionState, body: Seq<u8>, depth: nat, now: u64)
    ensures
        body.len() != 2 ==> s.controlled(0x11, body, depth, now) == (
            s,
            Some(TransportError::OutOfOrderAck),
        ),
        body.len() == 2 ==> {
            let (next, error) = s.controlled(0x11, body, depth, now);
            let pick = shortly_before(number_at(body, 0, 2));
            let sent = picked(s.pending, pick);
            &&& error is None
            &&& next.outbox == s.outbox + sent
            &&& next.sent_count as int == (s.sent_count + sent.len()) % 0x1_0000_0000_0000_0000
            &&& next.pending.len() == s.pending.len()
            &&& forall|i: int|
                0 <= i < s.pending.len() ==> #[trigger] next.pending[i] == (PendingState {
                    sent: if pick(s.pending[i]) {
                        now
                    } else {
                        s.pending[i].sent
                    },
                    ..s.pending[i]
                })
            &&& next == (SessionState {
                pending: next.pending,
                outbox: next.outbox,
                sent_count: next.sent_count,
                ..s
            })
        },
{
    reveal_with_fuel(number_at, 3);
    if body.len() == 2 {
        lemma_resent(s, s.pending.len(), bytes::be16_at(body, 0), now);
        assert(s.pending.take(s.pending.len() as int) =~= s.pending);
    }
}

/// Whether a frame went out a second ago or more.
pub open spec fn overdue(now: u64) -> spec_fn(PendingState) -> bool {
    |p: PendingState| now - p.sent >= 1_000_000_000
}

/// Whether a frame is due to be sent once more than it may be.
pub open spec fn given_up(p: PendingState, now: u64) -> bool {
    overdue(now)(p) && p.attempts >= 15
}

proof fn lemma_retransmitted(s: SessionState, n: nat, now: u64)
    requires
        n <= s.pending.len(),
        forall|i: int| 0 <= i < n ==> !given_up(#[trigger] s.pending[i], now),
    ensures
        ({
            let (next, error) = s.retransmitted(n, now);
            let sent = picked(s.pending.take(n as int), overdue(now));
            &&& error is None
            &&& next.outbox == s.outbox + sent
            &&& next.pending.len() == s.pending.len()
            &&& forall|i: int|
                0 <= i < n ==> #[trigger] next.pending[i] == if overdue(now)(s.pending[i]) {
                    PendingState {
                        sent: now,
                        attempts: (s.pending[i].attempts + 1) as u8,
                        ..s.pending[i]
                    }
                } else {
                    s.pending[i]
                }
            &&& forall|i: int| n <= i < s.pending.len() ==> #[trigger] next.pending[i] == s.pending[i]
            &&& next == (SessionState {
                pending: next.pending,
                outbox: next.outbox,
                sent_count: next.sent_count,
                ..s
            })
            &&& next.sent_count as int == (s.sent_count + sent.len()) % 0x1_0000_0000_0000_0000
        }),
    decreases n,
{
    let whole = s.pending.take(n as int);
    if n == 0 {
        assert(s.outbox + Seq::<Seq<u8>>::empty() =~= s.outbox);
    } else {
        lemma_retransmitted(s, (n - 1) as nat, now);
        let before = s.retransmitted((n - 1) as nat, now).0;
        assert(whole.drop_last() =~= s.pending.take(n - 1));
        assert(whole.last() == s.pending[n - 1]);
        let p = before.pending[n - 1];
        assert(p == s.pending[n - 1]);
        assert(!given_up(s.pending[n - 1], now));
        let sent = picked(s.pending.take(n - 1), overdue(now));
        assert((s.outbox + sent).push(p.packet) =~= s.outbox + sent.push(p.packet));
    }
}

proof fn lemma_retransmission_fails(s: SessionState, n: nat, bad: nat, now: u64)
    requires
        bad < n <= s.pending.len(),
        given_up(s.pending[bad as int], now),
        forall|i: int| 0 <= i < bad ==> !given_up(#[trigger] s.pending[i], now),
    ensures
        s.retransmitted(n, now) == (
            s.retransmitted(bad, now).0,
            Some(TransportError::Unacknowledged),
        ),
    decreases n,
{
    if n == bad + 1 {
        lemma_retransmitted(s, bad, now);
    } else {
        lemma_retransmission_fails(s, (n - 1) as nat, bad, now);
    }
}

/// A frame is sent again after each second without an acknowledgment, up to fifteen
/// times in all; those that are due go out in their order, and no others. A frame
/// that was sent fifteen times ends the session.
pub proof fn law_overdue_frames_are_sent_again(s: SessionState, bad: nat, now: u64)
    ensures
        ({
            let (next, error) = s.retransmitted(s.pending.len(), now);
            let sent = picked(s.pending, overdue(now));
            &&& (forall|i: int| 0 <= i < s.pending.len() ==> !given_up(#[trigger] s.pending[i], now))
                ==> {
                &&& error is None
                &&& next.outbox == s.outbox + sent
                &&& next.sent_count as int == (s.sent_count + sent.len()) % 0x1_0000_0000_0000_0000
                &&& next.pending.len() == s.pending.len()
                &&& forall|i: int|
                    0 <= i < s.pending.len() ==> #[trigger] next.pending[i] == if overdue(now)(
                        s.pending[i],
                    ) {
                        PendingState {
                            sent: now,
                            attempts: (s.pending[i].attempts + 1) as u8,
                            ..s.pending[i]
                        }
                    } else {
                        s.pending[i]
                    }
                &&& next == (SessionState {
                    pending: next.pending,
                    outbox: next.outbox,
                    sent_count: next.sent_count,
                    ..s
                })
            }
            &&& bad < s.pending.len() && given_up(s.pending[bad as int], now) && (forall|i: int|
                0 <= i < bad ==> !given_up(#[trigger] s.pending[i], now)) ==> error == Some(
                TransportError::Unacknowledged,
            ) && next.outbox == s.outbox + picked(s.pending.take(bad as int), overdue(now))
        }),
{
    if forall|i: int| 0 <= i < s.pending.len() ==> !given_up(#[trigger] s.pending[i], now) {
        lemma_retransmitted(s, s.pending.len(), now);
        assert(s.pending.take(s.pending.len() as int) =~= s.pending);
    }
    if bad < s.pending.len() && given_up(s.pending[bad as int], now) && (forall|i: int|
        0 <= i < bad ==> !given_up(#[trigger] s.pending[i], now)) {
        lemma_retransmission_fails(s, s.pending.len(), bad, now);
        lemma_retransmitted(s, bad, now);
    }
}

/// A disconnect of the server closes the session, and a packet of another kind
/// leaves it as it is.
pub proof fn law_disconnects_close(
    s: SessionState,
    opcode: u16,
    body: Seq<u8>,
    depth: nat,
    now: u64,
)
    ensures
        s.controlled(5, body, depth, now) == (
            SessionState { closed: true, ..s },
            None::<TransportError>,
        ),
        !(seq![3u16, 5, 7, 8, 9, 13, 0x11, 0x15, 0x19].contains(opcode)) ==> s.controlled(
            opcode,
            body,
            depth,
            now,
        ) == (s, None::<TransportError>),
{
    let known = seq![3u16, 5, 7, 8, 9, 13, 0x11, 0x15, 0x19];
    assert(known[1] == 5 && known[2] == 7 && known[3] == 8 && known[4] == 9 && known[5] == 13
        && known[6] == 0x11 && known[7] == 0x15 && known[8] == 0x19);
}

/// The answer to a request of ours gives the time that it took, in whole
/// milliseconds, once. An answer to another request gives none.
pub proof fn law_answers_are_timed(
    s: SessionState,
    body: Seq<u8>,
    sent: u64,
    depth: nat,
    now: u64,
)
    ensures
        ({
            let (next, error) = s.controlled(8, body, depth, now);
            let token = number_at(body, 0, 2);
            &&& body.len() != 38 ==> next == s && error == Some(TransportError::StatisticsResponse)
            &&& body.len() == 38 ==> error is None
            &&& body.len() == 38 && (s.stats_request matches Some((expected, _)) ==> token
                != expected) ==> next == s
            &&& body.len() == 38 && s.stats_request == Some((token as u16, sent)) && sent <= now
                && now - sent < 0xffff_ffff * 1_000_000 ==> {
                &&& next.rtt * 1_000_000 <= now - sent < (next.rtt + 1) * 1_000_000
                &&& next.rtt_max >= next.rtt && next.rtt_max >= s.rtt_max
                &&& next.rtt_max == next.rtt || next.rtt_max == s.rtt_max
                &&& s.rtt_count == 0 ==> next.rtt_min == next.rtt
                &&& s.rtt_count > 0 ==> next.rtt_min <= next.rtt && next.rtt_min <= s.rtt_min && (
                next.rtt_min == next.rtt || next.rtt_min == s.rtt_min)
                &&& s.rtt_sum + next.rtt <= u64::MAX ==> next.rtt_sum == s.rtt_sum + next.rtt
                &&& s.rtt_count < u64::MAX ==> next.rtt_count == s.rtt_count + 1
                &&& next.stats_request is None
                &&& next == (SessionState {
                    rtt: next.rtt,
                    rtt_min: next.rtt_min,
                    rtt_max: next.rtt_max,
                    rtt_sum: next.rtt_sum,
                    rtt_count: next.rtt_count,
                    stats_request: None,
                    ..s
                })
            }
        }),
{
    reveal_with_fuel(number_at, 3);
}

/// A request for statistics is answered at once, under opcode 8.
pub proof fn law_requests_are_answered(s: SessionState, body: Seq<u8>, depth: nat, now: u64)
    ensures
        ({
            let (next, error) = s.controlled(7, body, depth, now);
            &&& body.len() != 38 ==> next == s && error == Some(TransportError::StatisticsRequest)
            &&& body.len() == 38 ==> error is None && next == (SessionState {
                outbox: s.outbox.push(s.datagram(8, s.statistics_reply(body, now))),
                sent_count: s.sent_count.wrapping_add(1),
                ..s
            })
        }),
{
}

/// What came in order is acknowledged by the number of the last of it, at most every
/// tenth of a second, and only where something came.
pub proof fn law_acknowledgments_are_due(s: SessionState, now: u64)
    ensures
        ({
            let due = s.ack_pending && now - s.last_ack >= 100_000_000;
            let last = (s.next_receive - 1) % 65536;
            &&& !due ==> s.acknowledging(now) == s
            &&& due ==> s.acknowledging(now) == (SessionState {
                ack_pending: false,
                last_ack: now,
                outbox: s.outbox.push(s.datagram(0x15, two_bytes(last))),
                sent_count: s.sent_count.wrapping_add(1),
                ..s
            })
        }),
{
    assert(s.next_receive.wrapping_sub(1) == (s.next_receive - 1) % 65536);
}

/// Our statistics go out every half minute, under opcode 7 and a token that is the
/// time of the session in milliseconds.
pub proof fn law_reports_are_due(s: SessionState, now: u64)
    requires
        s.started <= now,
        now + 30_000_000_000 <= u64::MAX,
    ensures
        ({
            let token = ((now - s.started) / 1_000_000 % 65536) as u16;
            &&& now < s.next_stats ==> s.reporting(now) == s
            &&& now >= s.next_stats ==> s.reporting(now) == (SessionState {
                stats_request: Some((token, now)),
                next_stats: (now + 30_000_000_000) as u64,
                outbox: s.outbox.push(s.datagram(7, s.statistics(token))),
                sent_count: s.sent_count.wrapping_add(1),
                ..s
            })
        }),
{
}

/// A poll acknowledges what is due and hands out the packet that waited longest.
/// Where none waits, a closed session is reported, frames that are overdue go out
/// again, a minute of silence ends the session, and our statistics go out.
pub proof fn law_polls_hand_out_in_order(s: SessionState, now: u64)
    ensures
        ({
            let (next, result) = s.polled(now);
            let told = s.acknowledging(now);
            let (again, fault) = told.retransmitted(told.pending.len(), now);
            let waits = s.applications.len() > 0;
            &&& waits ==> result == Ok::<_, TransportError>(Some(s.applications[0])) && next == (
            SessionState { applications: s.applications.skip(1), ..told })
            &&& !waits && s.closed ==> next == told && result == Err::<Option<App>, _>(
                TransportError::ServerClosed,
            )
            &&& !waits && !s.closed && fault is Some ==> next == again && result == Err::<
                Option<App>,
                _,
            >(fault->0)
            &&& !waits && !s.closed && fault is None && now - s.last_receive >= 60_000_000_000
                ==> next == again && result == Err::<Option<App>, _>(TransportError::Silent)
            &&& !waits && !s.closed && fault is None && now - s.last_receive < 60_000_000_000
                ==> next == again.reporting(now) && result == Ok::<_, TransportError>(None::<App>)
        }),
{
    let told = s.acknowledging(now);
    lemma_retransmission_keeps_time(told, told.pending.len(), now);
}

proof fn lemma_retransmission_keeps_time(s: SessionState, n: nat, now: u64)
    ensures
        s.retransmitted(n, now).0.last_receive == s.last_receive,
    decreases n,
{
    if n > 0 {
        lemma_retransmission_keeps_time(s, (n - 1) as nat, now);
    }
}

/// Every datagram is counted. One that is accepted is taken at its time, and the
/// packet that waited longest is handed out; the others stay in their order.
pub proof fn law_arrivals_hand_out_in_order(s: SessionState, wire: Seq<u8>, now: u64)
    ensures
        ({
            let (next, result) = s.received(wire, now);
            let heard = SessionState { received_count: s.received_count.wrapping_add(1), ..s };
            let (taken, fault) = (SessionState { last_receive: now, ..heard }).processed(
                s.opened(wire)->0,
                false,
                0,
                now,
            );
            &&& s.opened(wire) is None ==> next == heard && result == Ok::<_, TransportError>(
                None::<App>,
            )
            &&& s.opened(wire) is Some && fault is Some ==> next == taken && result == Err::<
                Option<App>,
                _,
            >(fault->0)
            &&& s.opened(wire) is Some && fault is None && taken.applications.len() == 0 ==> next
                == taken && result == Ok::<_, TransportError>(None::<App>)
            &&& s.opened(wire) is Some && fault is None && taken.applications.len() > 0 ==> {
                &&& result matches Ok(Some(first)) && taken.applications == seq![first]
                    + next.applications
                &&& next == (SessionState { applications: next.applications, ..taken })
            }
        }),
{
    let heard = SessionState { received_count: s.received_count.wrapping_add(1), ..s };
    assert(heard.opened(wire) == s.opened(wire));
    let (taken, fault) = (SessionState { last_receive: now, ..heard }).processed(
        s.opened(wire)->0,
        false,
        0,
        now,
    );
    if taken.applications.len() > 0 {
        assert(taken.applications =~= seq![taken.applications[0]] + taken.applications.skip(1));
    }
}

/// A session that is closed says so once, with its id.
pub proof fn law_closing_says_so_once(s: SessionState, id: Seq<u8>)
    requires
        id.len() == 4,
        s.id == 0x100_0000 * id[0] + 0x1_0000 * id[1] + 0x100 * id[2] + id[3],
    ensures
        s.closed ==> s.closing() == s,
        !s.closed ==> s.closing() == (SessionState {
            closed: true,
            outbox: s.outbox.push(s.datagram(5, id)),
            sent_count: s.sent_count.wrapping_add(1),
            ..s
        }),
{
    lemma_four_bytes(s.id, id);
}

proof fn lemma_four_bytes(v: u32, s: Seq<u8>)
    requires
        s.len() == 4,
        v == 0x100_0000 * s[0] + 0x1_0000 * s[1] + 0x100 * s[2] + s[3],
    ensures
        bytes::be32(v) == s,
{
    let (a, b, c, d) = (s[0] as int, s[1] as int, s[2] as int, s[3] as int);
    assert(v / 0x100_0000 == a);
    assert(v / 0x1_0000 == 0x100 * a + b);
    assert(v / 256 == 0x1_0000 * a + 0x100 * b + c);
    assert((v / 0x1_0000) % 256 == b);
    assert((v / 256) % 256 == c);
    assert(v % 256 == d);
    assert(bytes::be32(v) =~= s);
}

/// The request to negotiate is due at first, and then once a second.
pub proof fn law_requests_are_due_once_a_second(handshake: Handshake, now: u64)
    ensures
        handshake.last_send is None ==> handshake.due(now),
        handshake.last_send is Some ==> (handshake.due(now) <==> now - handshake.last_send->0
            >= 1_000_000_000),
{
}

/// A time that lies some delay ahead, which ends with the clock, and the time that passed
/// since another one, which is none where the clock went back.
pub proof fn law_the_clock_goes_forward(now: u64, then: u64, delay: u64)
    ensures
        now + delay <= u64::MAX ==> model::after(now, delay) == now + delay,
        now + delay > u64::MAX ==> model::after(now, delay) == u64::MAX,
        now >= then ==> model::elapsed(now, then) == now - then,
        now < then ==> model::elapsed(now, then) == 0,
        model::millis32(now) == if now / 1_000_000 <= 0xffff_ffff {
            now as int / 1_000_000
        } else {
            0xffff_ffff
        },
{
}

} // verus!

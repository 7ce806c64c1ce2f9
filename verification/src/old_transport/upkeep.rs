//! What a legacy stream does with each kind of packet, and what it does when time
//! passes.

use super::laws::{distinct, fate, law_selective_acknowledgment};
use super::model::{self, DecodedState, FragmentState, OldPendingState, OldState};
use super::LegacyError;
use crate::transport::model::App;
use vstd::prelude::*;

verus! {

/// How far a number lies ahead of another one.
pub open spec fn distance(number: int, from: int) -> int {
    (number - from) % 65536
}

/// A packet closes the stream where both halves of the close are marked. Otherwise
/// one with a number takes its place in the reliable stream, and one without is
/// delivered at once.
pub proof fn law_packets_go_by_their_header(s: OldState, packet: DecodedState, now: u64)
    ensures
        ({
            let closing = packet.header_a / 4 % 2 == 1 && packet.header_a / 64 % 2 == 1;
            let heard = s.answered(packet, now);
            &&& heard == (OldState { pending: heard.pending, ..s })
            &&& closing ==> s.processed(packet, now) == (
                OldState { closed: true, ..heard },
                None::<LegacyError>,
            )
            &&& !closing && packet.arq is None ==> s.processed(packet, now) == heard.delivered(
                packet,
            )
            &&& !closing && packet.arq is Some ==> s.processed(packet, now) == heard.sequenced(
                packet.arq->0,
                packet,
            )
        }),
{
}

/// What a packet says of the packets we sent is taken in order: what it
/// acknowledges, what it asks for again, and what it acknowledges one by one.
pub proof fn law_acknowledgments_are_taken_in_order(s: OldState, packet: DecodedState, now: u64)
    ensures
        ({
            let first = DecodedState {
                resend_before: None,
                selective_ack: Seq::empty(),
                ..packet
            };
            let second = DecodedState {
                arsp: None,
                selective_ack: Seq::empty(),
                ..packet
            };
            let start = if packet.arsp is Some {
                ((packet.arsp->0 + 1) % 65536) as u16
            } else {
                1u16
            };
            s.answered(packet, now).pending == model::selective(
                s.answered(first, now).answered(second, now).pending,
                start,
                packet.selective_ack,
                8 * packet.selective_ack.len(),
                now,
            )
        }),
{
    let first = DecodedState { resend_before: None, selective_ack: Seq::empty(), ..packet };
    let second = DecodedState { arsp: None, selective_ack: Seq::empty(), ..packet };
    if packet.arsp is Some {
        assert((packet.arsp->0).wrapping_add(1) == (packet.arsp->0 + 1) % 65536);
    }
    let t = s.answered(first, now);
    assert(t.pending == match packet.arsp {
        Some(arsp) => model::uncovered(s.pending, arsp),
        None => s.pending,
    });
}

/// An acknowledgment retires the packets at the front that it covers: those numbered
/// at most half of all numbers before it. A request to resend makes the packets up to
/// it due at once, and a packet that says nothing of them leaves them as they are.
pub proof fn law_acknowledgments_retire_packets(
    s: OldState,
    packet: DecodedState,
    n: int,
    now: u64,
)
    requires
        packet.selective_ack.len() == 0,
        now >= 3_000_000_000,
    ensures
        packet.arsp is None && packet.resend_before is None ==> s.answered(packet, now) == s,
        packet.arsp is Some && packet.resend_before is None && 0 <= n <= s.pending.len() && (forall|
            i: int,
        |
            0 <= i < n ==> distance(packet.arsp->0 as int, (#[trigger] s.pending[i]).arq as int)
                < 32768) && (n < s.pending.len() ==> distance(
            packet.arsp->0 as int,
            s.pending[n].arq as int,
        ) >= 32768) ==> s.answered(packet, now) == (OldState { pending: s.pending.skip(n), ..s }),
        packet.arsp is None && packet.resend_before is Some ==> {
            let next = s.answered(packet, now);
            &&& next.pending.len() == s.pending.len()
            &&& forall|i: int|
                0 <= i < s.pending.len() ==> #[trigger] next.pending[i] == (OldPendingState {
                    sent: if distance(packet.resend_before->0 as int, s.pending[i].arq as int)
                        < 32768 {
                        (now - 3_000_000_000) as u64
                    } else {
                        s.pending[i].sent
                    },
                    ..s.pending[i]
                })
        },
{
    assert forall|a: u16, b: u16| #[trigger] a.wrapping_sub(b) == distance(a as int, b as int) by {}
    if packet.arsp is Some && 0 <= n <= s.pending.len() && (forall|i: int|
        0 <= i < n ==> distance(packet.arsp->0 as int, (#[trigger] s.pending[i]).arq as int)
            < 32768) && (n < s.pending.len() ==> distance(
        packet.arsp->0 as int,
        s.pending[n].arq as int,
    ) >= 32768) {
        lemma_covered(s.pending, packet.arsp->0, n);
    }
}

proof fn lemma_covered(pending: Seq<OldPendingState>, arsp: u16, n: int)
    requires
        0 <= n <= pending.len(),
        forall|i: int|
            0 <= i < n ==> distance(arsp as int, (#[trigger] pending[i]).arq as int) < 32768,
        n < pending.len() ==> distance(arsp as int, pending[n].arq as int) >= 32768,
    ensures
        model::uncovered(pending, arsp) == pending.skip(n),
    decreases n,
{
    assert forall|b: u16| #[trigger] arsp.wrapping_sub(b) == distance(arsp as int, b as int) by {}
    if n > 0 {
        let rest = pending.skip(1);
        assert(distance(arsp as int, pending[0].arq as int) < 32768);
        assert forall|i: int| 0 <= i < n - 1 implies distance(
            arsp as int,
            (#[trigger] rest[i]).arq as int,
        ) < 32768 by {
            assert(rest[i] == pending[i + 1]);
        }
        lemma_covered(rest, arsp, n - 1);
        assert(rest.skip(n - 1) =~= pending.skip(n));
    } else {
        assert(pending.skip(0) =~= pending);
    }
}

/// A packet of the stream out of turn: an old one is only acknowledged again, one too
/// far ahead is refused, and an early one is held once.
pub proof fn law_packets_out_of_turn(s: OldState, last: u16, arq: u16, packet: DecodedState)
    requires
        s.last_received_arq == Some(last),
        packet.header_a / 32 % 2 == 0,
    ensures
        ({
            let ahead = distance(arq as int, last + 1);
            &&& ahead >= 32768 ==> s.sequenced(arq, packet) == (
                OldState { ack_pending: true, ..s },
                None::<LegacyError>,
            )
            &&& 2048 <= ahead < 32768 ==> s.sequenced(arq, packet) == (
                s,
                Some(LegacyError::IncomingWindow),
            )
            &&& 0 < ahead < 2048 ==> s.sequenced(arq, packet) == (
                if s.reorder.contains_key(arq) {
                    s
                } else {
                    OldState { reorder: s.reorder.insert(arq, packet), ..s }
                },
                None::<LegacyError>,
            )
        }),
{
    assert(arq.wrapping_sub(last.wrapping_add(1)) == distance(arq as int, last + 1));
}

/// A packet whose turn it is is delivered and to be acknowledged, where nothing is
/// held behind it.
pub proof fn law_packets_in_turn(s: OldState, last: u16, packet: DecodedState)
    requires
        s.last_received_arq == Some(last),
        packet.header_a / 32 % 2 == 0,
        s.reorder == Map::<u16, DecodedState>::empty(),
    ensures
        ({
            let arq = ((last + 1) % 65536) as u16;
            s.sequenced(arq, packet) == (OldState {
                last_received_arq: Some(arq),
                ack_pending: true,
                ..s
            }).delivered(packet)
        }),
{
    let arq = ((last + 1) % 65536) as u16;
    assert(last.wrapping_add(1) == arq);
    let (next, error) = (OldState { last_received_arq: Some(arq), ack_pending: true, ..s }).delivered(
        packet,
    );
    lemma_delivery_keeps(
        OldState { last_received_arq: Some(arq), ack_pending: true, ..s },
        packet,
    );
    assert(next.drained() == (next, None::<LegacyError>));
}

proof fn lemma_delivery_keeps(s: OldState, packet: DecodedState)
    ensures
        s.delivered(packet).0.reorder == s.reorder,
        s.delivered(packet).0.last_received_arq == s.last_received_arq,
{
}

/// A packet that starts a sequence is the first of its stream, whatever its number,
/// and what was held of another stream is dropped. Without one a stream begins at
/// number zero, and earlier arrivals are held, up to a window of them.
pub proof fn law_streams_begin(s: OldState, arq: u16, packet: DecodedState)
    ensures
        packet.header_a / 32 % 2 == 1 && (s.last_received_arq is Some || s.reorder == Map::<
            u16,
            DecodedState,
        >::empty()) ==> s.sequenced(arq, packet) == (OldState {
            last_received_arq: Some(arq),
            ack_pending: true,
            reorder: Map::empty(),
            ..s
        }).delivered(packet),
        packet.header_a / 32 % 2 == 0 && s.last_received_arq is None && arq == 0 && s.reorder
            == Map::<u16, DecodedState>::empty() ==> s.sequenced(arq, packet) == (OldState {
            last_received_arq: Some(0),
            ack_pending: true,
            ..s
        }).delivered(packet),
        packet.header_a / 32 % 2 == 0 && s.last_received_arq is None && arq != 0 ==> {
            &&& s.reorder.dom().len() >= 2048 ==> s.sequenced(arq, packet) == (
                s,
                Some(LegacyError::IncomingWindow),
            )
            &&& s.reorder.dom().len() < 2048 ==> s.sequenced(arq, packet) == (
                if s.reorder.contains_key(arq) {
                    s
                } else {
                    OldState { reorder: s.reorder.insert(arq, packet), ..s }
                },
                None::<LegacyError>,
            )
        },
{
    let begun = OldState {
        last_received_arq: Some(arq),
        ack_pending: true,
        reorder: Map::empty(),
        ..s
    };
    assert(arq.wrapping_sub(1).wrapping_add(1) == arq);
    assert(u16::MAX.wrapping_add(1) == 0);
    lemma_delivery_keeps(begun, packet);
    let (next, error) = begun.delivered(packet);
    assert(next.drained() == (next, None::<LegacyError>));
}

/// What is delivered: an application that is whole is queued behind those that wait,
/// and a packet with neither opcode nor fragment brings nothing.
pub proof fn law_whole_packets_are_queued(s: OldState, packet: DecodedState)
    requires
        packet.fragment is None,
    ensures
        packet.opcode is None ==> s.delivered(packet) == (s, None::<LegacyError>),
        packet.opcode is Some ==> s.delivered(packet) == (
            OldState {
                applications: s.applications.push(
                    (App { opcode: packet.opcode->0, body: packet.body }),
                ),
                ..s
            },
            None::<LegacyError>,
        ),
{
}

/// A fragment whose place cannot be is refused, and so is one that opens a group too
/// many or changes the size of its group. A fragment that leaves its group incomplete
/// is kept in its place, the last one to come for that place.
pub proof fn law_fragments_are_kept(
    s: OldState,
    packet: DecodedState,
    group: u16,
    current: u16,
    total: u16,
)
    requires
        packet.fragment == Some((group, current, total)),
    ensures
        ({
            let (next, error) = s.delivered(packet);
            let known = s.fragments.contains_key(group);
            &&& current >= total ==> next == s && error == Some(LegacyError::FragmentIndexes)
            &&& current < total && total > 32_769 ==> next == s && error == Some(
                LegacyError::FragmentTotal,
            )
            &&& current < total <= 32_769 && !known && s.fragments.dom().len() >= 16 ==> next == s
                && error == Some(LegacyError::FragmentGroups)
            &&& current < total <= 32_769 && known && s.fragments[group].parts.len() != total
                ==> next == s && error == Some(LegacyError::FragmentChanged)
            &&& current < total <= 32_769 && !known && s.fragments.dom().len() < 16 && total > 1
                ==> {
                &&& error is None
                &&& next == (OldState { fragments: next.fragments, ..s })
                &&& next.fragments.contains_key(group)
                &&& forall|key: u16|
                    key != group ==> (#[trigger] next.fragments.contains_key(key)
                        <==> s.fragments.contains_key(key)) && (s.fragments.contains_key(key)
                        ==> next.fragments[key] == s.fragments[key])
                &&& next.fragments[group].opcode == packet.opcode
                &&& next.fragments[group].parts.len() == total
                &&& forall|i: int|
                    0 <= i < total ==> #[trigger] next.fragments[group].parts[i] == if i == current {
                        Some(packet.body)
                    } else {
                        None
                    }
            }
        }),
{
    let (next, error) = s.delivered(packet);
    if current < total <= 32_769 && !s.fragments.contains_key(group) && s.fragments.dom().len() < 16
        && total > 1 {
        let empty = Seq::new(total as nat, |i: int| None::<Seq<u8>>);
        let kept = FragmentState {
            opcode: packet.opcode,
            parts: empty.update(current as int, Some(packet.body)),
        };
        let other: int = if current == 0 {
            1
        } else {
            0
        };
        assert(kept.parts[other] is None);
        assert(!model::complete(kept));
    }
}

/// The fragment that completes a group delivers it: the parts one after another, in
/// their places, under the opcode of the first. The group is gone then. Over sixteen
/// mebibytes are refused.
pub proof fn law_complete_groups_are_delivered(
    s: OldState,
    packet: DecodedState,
    group: u16,
    current: u16,
    parts: Seq<Seq<u8>>,
    opcode: u16,
)
    requires
        0 < parts.len() <= 32_769,
        current < parts.len(),
        packet.fragment == Some((group, current, parts.len() as u16)),
        packet.body == parts[current as int],
        s.fragments.contains_key(group),
        s.fragments[group].parts.len() == parts.len(),
        packet.opcode == Some(opcode) || packet.opcode is None && s.fragments[group].opcode == Some(
            opcode,
        ),
        forall|i: int|
            0 <= i < parts.len() && i != current ==> #[trigger] s.fragments[group].parts[i] == Some(
                parts[i],
            ),
    ensures
        ({
            let whole = parts.flatten();
            let rest = OldState { fragments: s.fragments.remove(group), ..s };
            &&& whole.len() > 16_777_216 ==> s.delivered(packet) == (
                rest,
                Some(LegacyError::Reassembled),
            )
            &&& whole.len() <= 16_777_216 ==> s.delivered(packet) == (
                OldState {
                    applications: s.applications.push((App { opcode, body: whole })),
                    ..rest
                },
                None::<LegacyError>,
            )
        }),
{
    let filled = s.fragments[group].parts.update(current as int, Some(packet.body));
    assert forall|i: int| 0 <= i < filled.len() implies #[trigger] filled[i] == Some(parts[i]) by {}
    lemma_parts_joined(filled, parts);
    assert(model::complete(FragmentState { opcode: Some(opcode), parts: filled }));
}

proof fn lemma_parts_joined(filled: Seq<Option<Seq<u8>>>, parts: Seq<Seq<u8>>)
    requires
        filled.len() == parts.len(),
        forall|i: int| 0 <= i < filled.len() ==> #[trigger] filled[i] == Some(parts[i]),
    ensures
        model::joined(filled) == parts.flatten(),
    decreases parts.len(),
{
    if parts.len() == 0 {
        assert(model::joined(filled) =~= parts.flatten());
    } else {
        lemma_parts_joined(filled.drop_last(), parts.drop_last());
        parts.drop_last().lemma_flatten_push(parts.last());
        assert(parts.drop_last().push(parts.last()) =~= parts);
        assert(filled.last() == Some(parts.last()));
    }
}

/// The datagrams of the packets that a test picks, in their order.
pub open spec fn picked(
    pending: Seq<OldPendingState>,
    pick: spec_fn(OldPendingState) -> bool,
) -> Seq<Seq<u8>>
    decreases pending.len(),
{
    if pending.len() == 0 {
        Seq::empty()
    } else if pick(pending.last()) {
        picked(pending.drop_last(), pick).push(pending.last().wire)
    } else {
        picked(pending.drop_last(), pick)
    }
}

/// Whether a packet went out three seconds ago or more.
pub open spec fn overdue(now: u64) -> spec_fn(OldPendingState) -> bool {
    |p: OldPendingState| now - p.sent >= 3_000_000_000
}

/// Whether a packet is due to be sent once more than it may be.
pub open spec fn given_up(p: OldPendingState, now: u64) -> bool {
    overdue(now)(p) && p.attempts >= 10
}

proof fn lemma_retransmitted(s: OldState, n: nat, now: u64)
    requires
        n <= s.pending.len(),
        forall|i: int| 0 <= i < n ==> !given_up(#[trigger] s.pending[i], now),
    ensures
        ({
            let (next, error) = s.retransmitted(n, now);
            &&& error is None
            &&& next.outbox == s.outbox + picked(s.pending.take(n as int), overdue(now))
            &&& next.pending.len() == s.pending.len()
            &&& forall|i: int|
                0 <= i < n ==> #[trigger] next.pending[i] == if overdue(now)(s.pending[i]) {
                    OldPendingState {
                        sent: now,
                        attempts: (s.pending[i].attempts + 1) as u8,
                        ..s.pending[i]
                    }
                } else {
                    s.pending[i]
                }
            &&& forall|i: int| n <= i < s.pending.len() ==> #[trigger] next.pending[i] == s.pending[i]
            &&& next == (OldState { pending: next.pending, outbox: next.outbox, ..s })
        }),
    decreases n,
{
    let whole = s.pending.take(n as int);
    if n == 0 {
        assert(s.outbox + Seq::<Seq<u8>>::empty() =~= s.outbox);
    } else {
        lemma_retransmitted(s, (n - 1) as nat, now);
        let before = s.retransmitted((n - 1) as nat, now).0;
        assert(whole.drop_last() =~= s.pending.take(n - 1));
        assert(whole.last() == s.pending[n - 1]);
        let p = before.pending[n - 1];
        assert(p == s.pending[n - 1]);
        assert(!given_up(s.pending[n - 1], now));
        let sent = picked(s.pending.take(n - 1), overdue(now));
        assert((s.outbox + sent).push(p.wire) =~= s.outbox + sent.push(p.wire));
    }
}

proof fn lemma_retransmission_fails(s: OldState, n: nat, bad: nat, now: u64)
    requires
        bad < n <= s.pending.len(),
        given_up(s.pending[bad as int], now),
        forall|i: int| 0 <= i < bad ==> !given_up(#[trigger] s.pending[i], now),
    ensures
        s.retransmitted(n, now) == (s.retransmitted(bad, now).0, Some(LegacyError::Unacknowledged)),
    decreases n,
{
    if n == bad + 1 {
        lemma_retransmitted(s, bad, now);
    } else {
        lemma_retransmission_fails(s, (n - 1) as nat, bad, now);
    }
}

/// A packet is sent again after each three seconds without an acknowledgment, up to
/// ten times in all; those that are due go out in their order, and no others. A packet
/// that was sent ten times ends the stream.
pub proof fn law_overdue_packets_are_sent_again(s: OldState, bad: nat, now: u64)
    ensures
        ({
            let (next, error) = s.retransmitted(s.pending.len(), now);
            &&& (forall|i: int| 0 <= i < s.pending.len() ==> !given_up(#[trigger] s.pending[i], now))
                ==> {
                &&& error is None
                &&& next.outbox == s.outbox + picked(s.pending, overdue(now))
                &&& next.pending.len() == s.pending.len()
                &&& forall|i: int|
                    0 <= i < s.pending.len() ==> #[trigger] next.pending[i] == if overdue(now)(
                        s.pending[i],
                    ) {
                        OldPendingState {
                            sent: now,
                            attempts: (s.pending[i].attempts + 1) as u8,
                            ..s.pending[i]
                        }
                    } else {
                        s.pending[i]
                    }
                &&& next == (OldState { pending: next.pending, outbox: next.outbox, ..s })
            }
            &&& bad < s.pending.len() && given_up(s.pending[bad as int], now) && (forall|i: int|
                0 <= i < bad ==> !given_up(#[trigger] s.pending[i], now)) ==> error == Some(
                LegacyError::Unacknowledged,
            ) && next.outbox == s.outbox + picked(s.pending.take(bad as int), overdue(now))
        }),
{
    if forall|i: int| 0 <= i < s.pending.len() ==> !given_up(#[trigger] s.pending[i], now) {
        lemma_retransmitted(s, s.pending.len(), now);
        assert(s.pending.take(s.pending.len() as int) =~= s.pending);
    }
    if bad < s.pending.len() && given_up(s.pending[bad as int], now) && (forall|i: int|
        0 <= i < bad ==> !given_up(#[trigger] s.pending[i], now)) {
        lemma_retransmission_fails(s, s.pending.len(), bad, now);
        lemma_retransmitted(s, bad, now);
    }
}

/// A poll hands out the packet that waited longest. Where none waits, a closed stream
/// is reported; what came is acknowledged at most every tenth of a second, by a
/// datagram that carries nothing else; packets that are overdue go out again, and a
/// minute of silence ends the stream.
pub proof fn law_polls_hand_out_in_order(s: OldState, now: u64)
    ensures
        ({
            let (next, result) = s.polled(now);
            let waits = s.applications.len() > 0;
            let (acked, wire) = s.framed(0, None, None, None, Seq::empty(), false, now);
            let told = if s.ack_pending && now - s.last_ack >= 100_000_000 {
                OldState { outbox: s.outbox.push(wire), ..acked }
            } else {
                s
            };
            let (again, fault) = told.retransmitted(told.pending.len(), now);
            &&& waits ==> {
                &&& result matches Ok(Some(first)) && s.applications == seq![first]
                    + next.applications
                &&& next == (OldState { applications: next.applications, ..s })
            }
            &&& !waits && s.closed ==> next == s && result == Err::<Option<App>, _>(
                LegacyError::ServerClosed,
            )
            &&& !waits && !s.closed ==> next == again
            &&& !waits && !s.closed && fault is Some ==> result == Err::<Option<App>, _>(fault->0)
            &&& !waits && !s.closed && fault is None && now - s.last_receive >= 60_000_000_000
                ==> result == Err::<Option<App>, _>(LegacyError::Silent)
            &&& !waits && !s.closed && fault is None && now - s.last_receive < 60_000_000_000
                ==> result == Ok::<_, LegacyError>(None::<App>)
        }),
{
    let (acked, wire) = s.framed(0, None, None, None, Seq::empty(), false, now);
    let told = if s.ack_pending && now - s.last_ack >= 100_000_000 {
        OldState { outbox: s.outbox.push(wire), ..acked }
    } else {
        s
    };
    lemma_retransmission_keeps_time(told, told.pending.len(), now);
    if s.applications.len() > 0 {
        assert(s.applications =~= seq![s.applications[0]] + s.applications.skip(1));
    }
}

proof fn lemma_retransmission_keeps_time(s: OldState, n: nat, now: u64)
    ensures
        s.retransmitted(n, now).0.last_receive == s.last_receive,
    decreases n,
{
    if n > 0 {
        lemma_retransmission_keeps_time(s, (n - 1) as nat, now);
    }
}

/// A datagram that cannot be read changes nothing. One that can is taken at its time,
/// and the packet that waited longest is handed out; the others stay in their order.
pub proof fn law_arrivals_hand_out_in_order(s: OldState, wire: Seq<u8>, now: u64)
    ensures
        ({
            let (next, result) = s.received(wire, now);
            let read = model::decoded(wire);
            let (taken, fault) = (OldState { last_receive: now, ..s }).processed(read->Ok_0, now);
            &&& read is Err ==> next == s && result == Err::<Option<App>, _>(read->Err_0)
            &&& read is Ok && fault is Some ==> next == taken && result == Err::<Option<App>, _>(
                fault->0,
            )
            &&& read is Ok && fault is None && taken.applications.len() == 0 ==> next == taken
                && result == Ok::<_, LegacyError>(None::<App>)
            &&& read is Ok && fault is None && taken.applications.len() > 0 ==> {
                &&& result matches Ok(Some(first)) && taken.applications == seq![first]
                    + next.applications
                &&& next == (OldState { applications: next.applications, ..taken })
            }
        }),
{
    let read = model::decoded(wire);
    let (taken, fault) = (OldState { last_receive: now, ..s }).processed(read->Ok_0, now);
    if taken.applications.len() > 0 {
        assert(taken.applications =~= seq![taken.applications[0]] + taken.applications.skip(1));
    }
}

/// A stream that is closed says so once, by a reliable packet with both halves of the
/// close marked, which is not kept.
pub proof fn law_closing_says_so_once(s: OldState, now: u64)
    ensures
        ({
            let numbered = OldState { next_arq: ((s.next_arq + 1) % 65536) as u16, ..s };
            let (framed, wire) = numbered.framed(
                0x46,
                Some(s.next_arq),
                None,
                None,
                Seq::empty(),
                false,
                now,
            );
            &&& s.closed ==> s.closing(now) == s
            &&& !s.closed ==> s.closing(now) == (OldState {
                closed: true,
                outbox: s.outbox.push(wire),
                ..framed
            })
        }),
{
    assert(s.next_arq.wrapping_add(1) == (s.next_arq + 1) % 65536);
}

/// Bit `n` of some bytes, where the high bit of each byte comes first.
pub open spec fn bit(bits: Seq<u8>, n: int) -> bool {
    let b = bits[n / 8] as int;
    let place = n % 8;
    let value: int = if place == 0 {
        b / 128
    } else if place == 1 {
        b / 64
    } else if place == 2 {
        b / 32
    } else if place == 3 {
        b / 16
    } else if place == 4 {
        b / 8
    } else if place == 5 {
        b / 4
    } else if place == 6 {
        b / 2
    } else {
        b
    };
    value % 2 == 1
}

proof fn lemma_bit(bits: Seq<u8>, n: int)
    requires
        0 <= n,
    ensures
        model::selected(bits, n) == bit(bits, n),
{
    let b = bits[n / 8];
    let place = (n % 8) as u8;
    assert((b & (0x80u8 >> place) != 0) == ((if place == 0 {
        b / 128
    } else if place == 1 {
        b / 64
    } else if place == 2 {
        b / 32
    } else if place == 3 {
        b / 16
    } else if place == 4 {
        b / 8
    } else if place == 5 {
        b / 4
    } else if place == 6 {
        b / 2
    } else {
        b
    }) % 2 == 1)) by (bit_vector)
        requires
            place < 8,
    ;
}

proof fn lemma_without_last(pending: Seq<OldPendingState>, p: OldPendingState, arq: u16)
    ensures
        model::without(pending.push(p), arq) == if p.arq == arq {
            model::without(pending, arq)
        } else {
            model::without(pending, arq).push(p)
        },
    decreases pending.len(),
{
    reveal_with_fuel(model::without, 2);
    let all = pending.push(p);
    if pending.len() == 0 {
        assert(all.skip(1) =~= Seq::empty());
        assert(model::without(all, arq) =~= if p.arq == arq {
            model::without(pending, arq)
        } else {
            model::without(pending, arq).push(p)
        });
    } else {
        lemma_without_last(pending.skip(1), p, arq);
        assert(all.skip(1) =~= pending.skip(1).push(p));
        assert(all[0] == pending[0]);
        assert(model::without(all, arq) =~= if p.arq == arq {
            model::without(pending, arq)
        } else {
            model::without(pending, arq).push(p)
        });
    }
}

proof fn lemma_retried_last(
    pending: Seq<OldPendingState>,
    p: OldPendingState,
    arq: u16,
    now: u64,
)
    requires
        forall|i: int| 0 <= i < pending.len() ==> (#[trigger] pending[i]).arq != p.arq,
    ensures
        model::retried(pending.push(p), arq, now) == model::retried(pending, arq, now).push(
            if p.arq == arq {
                OldPendingState { sent: model::stale(now), ..p }
            } else {
                p
            },
        ),
    decreases pending.len(),
{
    reveal_with_fuel(model::retried, 2);
    let all = pending.push(p);
    let last = if p.arq == arq {
        OldPendingState { sent: model::stale(now), ..p }
    } else {
        p
    };
    if pending.len() == 0 {
        assert(all.skip(1) =~= Seq::empty());
        assert(model::retried(all, arq, now) =~= model::retried(pending, arq, now).push(last));
    } else {
        let rest = pending.skip(1);
        assert forall|i: int| 0 <= i < rest.len() implies (#[trigger] rest[i]).arq != p.arq by {
            assert(rest[i] == pending[i + 1]);
        }
        lemma_retried_last(rest, p, arq, now);
        assert(all.skip(1) =~= rest.push(p));
        assert(all[0] == pending[0]);
        assert(pending[0].arq != p.arq);
        assert(model::retried(all, arq, now) =~= model::retried(pending, arq, now).push(last));
    }
}

proof fn lemma_numbers_stay(
    pending: Seq<OldPendingState>,
    arq: u16,
    start: u16,
    bits: Seq<u8>,
    n: nat,
    now: u64,
)
    requires
        distinct(pending),
        n <= 65536,
        forall|i: int| 0 <= i < pending.len() ==> (#[trigger] pending[i]).arq != arq,
    ensures
        ({
            let left = model::selective(pending, start, bits, n, now);
            forall|i: int| 0 <= i < left.len() ==> (#[trigger] left[i]).arq != arq
        }),
{
    law_selective_acknowledgment(pending, start, bits, n, now);
    let left = model::selective(pending, start, bits, n, now);
    assert forall|i: int| 0 <= i < left.len() implies (#[trigger] left[i]).arq != arq by {
        assert(left.contains(left[i]));
        let p = choose|p| #[trigger]
            pending.contains(p) && fate(p, start, bits, n, now) == Some(left[i]);
        let k = choose|k: int| 0 <= k < pending.len() && pending[k] == p;
        assert(pending[k].arq != arq);
    }
}

/// A selective acknowledgment speaks of the packets one by one from its first number on,
/// a bit for each with the high bit of a byte first. A one retires its packet, a zero
/// makes it due at once, and a packet that no bit stands for is left alone. What is left
/// stays in its order.
pub proof fn law_packets_are_acknowledged_one_by_one(
    pending: Seq<OldPendingState>,
    p: OldPendingState,
    start: u16,
    bits: Seq<u8>,
    n: nat,
    now: u64,
)
    requires
        distinct(pending),
        forall|i: int| 0 <= i < pending.len() ==> (#[trigger] pending[i]).arq != p.arq,
        n <= 65536,
        now >= 3_000_000_000,
    ensures
        model::selective(Seq::empty(), start, bits, n, now) == Seq::<OldPendingState>::empty(),
        ({
            let place = distance(p.arq as int, start as int);
            let before = model::selective(pending, start, bits, n, now);
            model::selective(pending.push(p), start, bits, n, now) == if place >= n {
                before.push(p)
            } else if bit(bits, place) {
                before
            } else {
                before.push((OldPendingState { sent: (now - 3_000_000_000) as u64, ..p }))
            }
        }),
    decreases n,
{
    if n > 0 {
        let m = (n - 1) as nat;
        law_packets_are_acknowledged_one_by_one(pending, p, start, bits, m, now);
        let before = model::selective(pending, start, bits, m, now);
        let arq = start.wrapping_add((m % 65536) as u16);
        let place = distance(p.arq as int, start as int);
        lemma_bit(bits, m as int);
        lemma_numbers_stay(pending, p.arq, start, bits, m, now);
        assert(p.arq == arq <==> place == m);
        let stale = OldPendingState { sent: (now - 3_000_000_000) as u64, ..p };
        if model::selected(bits, m as int) {
            lemma_without_last(before, p, arq);
            lemma_without_last(before, stale, arq);
        } else {
            lemma_retried_last(before, p, arq, now);
            lemma_retried_last(before, stale, arq, now);
        }
    }
}

} // verus!

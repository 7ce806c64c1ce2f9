//! What a session makes of the packets in a datagram, and how they stand on the
//! wire.

use super::laws::{
    combined, law_application_bytes_unpack, law_combined_parts_come_back, part_length,
};
use super::model::{self, App, SessionState, Wrapped};
use super::TransportError;
use crate::bytes;
use vstd::prelude::*;

verus! {

/// Whether taking some parts in turn leads from state to state without an error.
pub open spec fn in_turn(
    states: Seq<SessionState>,
    parts: Seq<Seq<u8>>,
    depth: nat,
    now: u64,
) -> bool {
    &&& states.len() == parts.len() + 1
    &&& forall|k: int|
        0 <= k < parts.len() ==> states[k].processed(#[trigger] parts[k], true, depth, now) == (
            states[k + 1],
            None::<TransportError>,
        )
}

proof fn lemma_in_turn(
    states: Seq<SessionState>,
    parts: Seq<Seq<u8>>,
    more: Seq<Seq<u8>>,
    depth: nat,
    now: u64,
)
    requires
        in_turn(states, parts, depth, now),
    ensures
        states[0].processed_all(parts + more, depth, now) == states.last().processed_all(
            more,
            depth,
            now,
        ),
    decreases parts.len(),
{
    if parts.len() == 0 {
        assert(parts + more =~= more);
    } else {
        let rest = parts.skip(1);
        let later = states.skip(1);
        assert forall|k: int| 0 <= k < rest.len() implies later[k].processed(
            #[trigger] rest[k],
            true,
            depth,
            now,
        ) == (later[k + 1], None::<TransportError>) by {
            assert(rest[k] == parts[k + 1]);
        }
        lemma_in_turn(later, rest, more, depth, now);
        assert((parts + more).skip(1) =~= rest + more);
        assert((parts + more)[0] == parts[0]);
        assert(states[0].processed(parts[0], true, depth, now) == (
            states[1],
            None::<TransportError>,
        ));
    }
}

/// Parts that a combined packet can hold.
pub open spec fn can_be_combined(parts: Seq<Seq<u8>>) -> bool {
    forall|i: int| 0 <= i < parts.len() ==> 0 < #[trigger] parts[i].len() <= 65535
}

/// Taking a combined packet is taking each of its parts in turn: the session is
/// then in the state that the last of them leaves it in.
pub proof fn law_combined_packets_are_taken_in_turn(
    states: Seq<SessionState>,
    parts: Seq<Seq<u8>>,
    nested: bool,
    depth: nat,
    now: u64,
)
    requires
        can_be_combined(parts),
        depth < 8,
        in_turn(states, parts, depth + 1, now),
    ensures
        nested || !states[0].compression ==> states[0].processed(
            seq![0u8, 3u8] + combined(parts),
            nested,
            depth,
            now,
        ) == (states.last(), None::<TransportError>),
        !nested && states[0].compression ==> states[0].processed(
            seq![0u8, 3u8, 0xa5u8] + combined(parts),
            nested,
            depth,
            now,
        ) == (states.last(), None::<TransportError>),
{
    let plain = seq![0u8, 3u8] + combined(parts);
    let marked = seq![0u8, 3u8, 0xa5u8] + combined(parts);
    assert(plain.skip(2) =~= combined(parts));
    assert(marked.skip(2).skip(1) =~= combined(parts));
    law_combined_parts_come_back(parts);
    lemma_in_turn(states, parts, Seq::empty(), depth + 1, now);
    assert(parts + Seq::<Seq<u8>>::empty() =~= parts);
}

/// The first part in error ends a combined packet: what stands before it has been
/// taken, and what stands behind it is not.
pub proof fn law_combined_packet_ends_with_an_error(
    states: Seq<SessionState>,
    parts: Seq<Seq<u8>>,
    bad: Seq<u8>,
    rest: Seq<Seq<u8>>,
    last: SessionState,
    error: TransportError,
    nested: bool,
    depth: nat,
    now: u64,
)
    requires
        can_be_combined(parts + seq![bad] + rest),
        depth < 8,
        in_turn(states, parts, depth + 1, now),
        states.last().processed(bad, true, depth + 1, now) == (last, Some(error)),
        nested || !states[0].compression,
    ensures
        states[0].processed(
            seq![0u8, 3u8] + combined(parts + seq![bad] + rest),
            nested,
            depth,
            now,
        ) == (last, Some(error)),
{
    let all = parts + seq![bad] + rest;
    let plain = seq![0u8, 3u8] + combined(all);
    assert(plain.skip(2) =~= combined(all));
    law_combined_parts_come_back(all);
    lemma_in_turn(states, parts, seq![bad] + rest, depth + 1, now);
    assert(parts + (seq![bad] + rest) =~= all);
    assert((seq![bad] + rest)[0] == bad);
}

/// A reliable packet: its number, and an application packet.
pub open spec fn reliable_packet(number: int, app: App) -> Seq<u8> {
    seq![0u8, 9u8, (number / 256) as u8, (number % 256) as u8] + model::application_bytes(
        app.opcode,
        app.body,
    )
}

proof fn lemma_reliable_packet_taken(s: SessionState, app: App, depth: nat, now: u64)
    requires
        depth < 8,
        s.fragment is None,
        s.reorder == Map::<u16, (u16, Seq<u8>)>::empty(),
    ensures
        s.processed(reliable_packet(s.next_receive as int, app), true, depth, now) == (
            SessionState {
                next_receive: s.next_receive.wrapping_add(1),
                applications: s.applications.push(app),
                ack_pending: true,
                ..s
            },
            None::<TransportError>,
        ),
{
    let packet = reliable_packet(s.next_receive as int, app);
    let data = model::application_bytes(app.opcode, app.body);
    let body = packet.skip(2);
    law_application_bytes_unpack(app.opcode, app.body, 0);
    assert(body[0] == s.next_receive / 256 && body[1] == s.next_receive % 256);
    assert(bytes::be16_at(body, 0) == s.next_receive);
    assert(body.skip(2) =~= data);
    let key = s.next_receive;
    let held = s.reorder.insert(key, (9u16, data));
    assert(held.remove(key) =~= s.reorder);
    let t = SessionState { reorder: held, ..s };
    assert(t.reorder.contains_key(key));
    assert(s.applications + seq![app] =~= s.applications.push(app));
    let next = SessionState {
        next_receive: key.wrapping_add(1),
        applications: s.applications.push(app),
        ..s
    };
    assert(next.drained() == (next, None::<TransportError>));
    assert(t.drained() == (next, None::<TransportError>));
}

/// The session once the first `k` of some application packets came in sequence.
#[verifier::opaque]
spec fn delivered_so_far(s: SessionState, apps: Seq<App>, k: int) -> SessionState {
    SessionState {
        next_receive: ((s.next_receive + k) % 65536) as u16,
        applications: s.applications + apps.take(k),
        ack_pending: s.ack_pending || k > 0,
        ..s
    }
}

proof fn lemma_one_more_delivered(s: SessionState, apps: Seq<App>, k: int)
    requires
        0 <= k < apps.len(),
    ensures
        ({
            let before = delivered_so_far(s, apps, k);
            &&& before.next_receive as int == (s.next_receive + k) % 65536
            &&& before.fragment == s.fragment
            &&& before.reorder == s.reorder
            &&& delivered_so_far(s, apps, k + 1) == (SessionState {
                next_receive: before.next_receive.wrapping_add(1),
                applications: before.applications.push(apps[k]),
                ack_pending: true,
                ..before
            })
        }),
{
    reveal(delivered_so_far);
    let before = delivered_so_far(s, apps, k);
    assert((s.applications + apps.take(k)).push(apps[k]) =~= s.applications + apps.take(k + 1));
    assert(before.next_receive.wrapping_add(1) == (s.next_receive + k + 1) % 65536);
}

proof fn lemma_delivered_so_far(s: SessionState, apps: Seq<App>, k: int, depth: nat, now: u64)
    requires
        depth < 8,
        s.fragment is None,
        s.reorder == Map::<u16, (u16, Seq<u8>)>::empty(),
        0 <= k < apps.len(),
    ensures
        delivered_so_far(s, apps, k).processed(
            reliable_packet((s.next_receive + k) % 65536, apps[k]),
            true,
            depth,
            now,
        ) == (delivered_so_far(s, apps, k + 1), None::<TransportError>),
{
    lemma_one_more_delivered(s, apps, k);
    lemma_reliable_packet_taken(delivered_so_far(s, apps, k), apps[k], depth, now);
}

/// A combined packet of reliable packets in sequence delivers every one of them:
/// all application packets are queued in their order, and the next number is
/// expected after the last of them.
pub proof fn law_combined_reliable_packets_are_all_delivered(
    s: SessionState,
    apps: Seq<App>,
    parts: Seq<Seq<u8>>,
    depth: nat,
    now: u64,
)
    requires
        depth < 7,
        !s.compression,
        s.fragment is None,
        s.reorder == Map::<u16, (u16, Seq<u8>)>::empty(),
        can_be_combined(parts),
        parts.len() == apps.len(),
        forall|k: int|
            0 <= k < parts.len() ==> #[trigger] parts[k] == reliable_packet(
                (s.next_receive + k) % 65536,
                apps[k],
            ),
    ensures
        ({
            let (next, error) = s.processed(
                seq![0u8, 3u8] + combined(parts),
                false,
                depth,
                now,
            );
            &&& error is None
            &&& next.next_receive == (s.next_receive + apps.len()) % 65536
            &&& next.applications == s.applications + apps
            &&& next.reorder == s.reorder
            &&& apps.len() > 0 ==> next.ack_pending
        }),
{
    let states = Seq::new(parts.len() + 1, |k: int| delivered_so_far(s, apps, k));
    assert forall|k: int| 0 <= k < parts.len() implies states[k].processed(
        #[trigger] parts[k],
        true,
        depth + 1,
        now,
    ) == (states[k + 1], None::<TransportError>) by {
        lemma_delivered_so_far(s, apps, k, depth + 1, now);
    }
    assert(states[0] == s) by {
        reveal(delivered_so_far);
        assert(s.applications + apps.take(0) =~= s.applications);
    }
    law_combined_packets_are_taken_in_turn(states, parts, false, depth, now);
    assert(states.last() == delivered_so_far(s, apps, apps.len() as int));
    reveal(delivered_so_far);
    assert(apps.take(apps.len() as int) =~= apps);
}

/// Application packets in turn, up to the first error.
proof fn lemma_unpacked_in_turn(parts: Seq<Seq<u8>>, found: Seq<Seq<App>>, depth: nat)
    requires
        found.len() == parts.len(),
        forall|k: int|
            0 <= k < parts.len() ==> model::unpack(#[trigger] parts[k], depth) == (
                found[k],
                None::<TransportError>,
            ),
    ensures
        model::unpack_all(parts, depth) == (found.flatten(), None::<TransportError>),
    decreases parts.len(),
{
    reveal_with_fuel(Seq::flatten, 2);
    if parts.len() > 0 {
        let rest = parts.skip(1);
        let others = found.skip(1);
        assert forall|k: int| 0 <= k < rest.len() implies model::unpack(
            #[trigger] rest[k],
            depth,
        ) == (others[k], None::<TransportError>) by {
            assert(rest[k] == parts[k + 1]);
        }
        lemma_unpacked_in_turn(rest, others, depth);
        assert(found.drop_first() =~= others);
        assert(found.first() == found[0]);
    }
}

/// A packet of combined application packets holds what each of its parts holds, in
/// their order, whether it comes as a packet of the stream or of the transport.
pub proof fn law_combined_applications_are_all_found(
    s: SessionState,
    parts: Seq<Seq<u8>>,
    found: Seq<Seq<App>>,
    depth: nat,
    now: u64,
)
    requires
        can_be_combined(parts),
        depth < 8,
        found.len() == parts.len(),
        forall|k: int|
            0 <= k < parts.len() ==> model::unpack(#[trigger] parts[k], depth + 1) == (
                found[k],
                None::<TransportError>,
            ),
    ensures
        model::unpack(seq![0u8, 0x19u8] + combined(parts), depth) == (
            found.flatten(),
            None::<TransportError>,
        ),
        s.processed(seq![0u8, 0x19u8] + combined(parts), true, depth, now) == (
            SessionState { applications: s.applications + found.flatten(), ..s },
            None::<TransportError>,
        ),
{
    let packet = seq![0u8, 0x19u8] + combined(parts);
    assert(packet.skip(2) =~= combined(parts));
    law_combined_parts_come_back(parts);
    lemma_unpacked_in_turn(parts, found, depth + 1);
    assert(bytes::be16_at(packet, 0) == 0x19);
}

/// An application packet begins with its opcode in little-endian order. A zero in
/// front of it is no part of it, and is there exactly where its low byte is zero.
pub proof fn law_application_layout(opcode: u16, body: Seq<u8>)
    ensures
        ({
            let data = model::application_bytes(opcode, body);
            let at: int = if opcode % 256 == 0 {
                1
            } else {
                0
            };
            &&& data.len() == at + 2 + body.len()
            &&& at == 1 ==> data[0] == 0
            &&& data[at] + 256 * data[at + 1] == opcode
            &&& data.skip(at + 2) == body
        }),
{
    let data = model::application_bytes(opcode, body);
    let at: int = if opcode % 256 == 0 {
        1
    } else {
        0
    };
    assert(data.skip(at + 2) =~= body);
}

/// Bytes of an application packet are read as one packet, with the opcode in
/// little-endian order in front; a leading zero is left out. Fewer bytes than an
/// opcode takes are an error, and so is nesting of eight levels.
pub proof fn law_application_packets_are_read(packet: Seq<u8>, depth: nat)
    ensures
        depth >= 8 || packet.len() < 2 ==> model::unpack(packet, depth) == (
            Seq::<App>::empty(),
            Some(TransportError::NestedApplication),
        ),
        depth < 8 && packet.len() >= 2 && packet[0] != 0 ==> model::unpack(packet, depth) == (
            seq![
                App { opcode: (packet[0] + 256 * packet[1]) as u16, body: packet.skip(2) },
            ],
            None::<TransportError>,
        ),
        depth < 8 && packet.len() >= 3 && packet[0] == 0 && packet[1] != 0x19 ==> model::unpack(
            packet,
            depth,
        ) == (
            seq![
                App { opcode: (packet[1] + 256 * packet[2]) as u16, body: packet.skip(3) },
            ],
            None::<TransportError>,
        ),
        depth < 8 && packet.len() == 2 && packet[0] == 0 && packet[1] != 0x19 ==> model::unpack(
            packet,
            depth,
        ) == (Seq::<App>::empty(), Some(TransportError::EscapedOpcode)),
{
    if packet.len() >= 3 {
        assert(packet.skip(1).skip(2) =~= packet.skip(3));
        assert(packet.skip(1)[0] == packet[1] && packet.skip(1)[1] == packet[2]);
    }
}

/// A part of a combined packet that is empty or runs over the end is refused, and
/// so is a long length that is cut off.
pub proof fn law_bad_lengths_are_refused(packet: Seq<u8>)
    requires
        packet.len() > 0,
    ensures
        packet[0] == 255 && packet.len() < 3 ==> model::split(packet) == Err::<Seq<Seq<u8>>, _>(
            TransportError::CombinedTruncated,
        ),
        packet[0] == 0 ==> model::split(packet) == Err::<Seq<Seq<u8>>, _>(
            TransportError::CombinedLength,
        ),
        packet[0] < 255 && 1 + packet[0] > packet.len() ==> model::split(packet) == Err::<
            Seq<Seq<u8>>,
            _,
        >(TransportError::CombinedLength),
        packet[0] == 255 && packet.len() >= 3 && (packet[1] == 0 && packet[2] == 0 || 3 + 256
            * packet[1] + packet[2] > packet.len()) ==> model::split(packet) == Err::<
            Seq<Seq<u8>>,
            _,
        >(TransportError::CombinedLength),
{
}

/// What is wrong behind some parts of a combined packet is wrong with the packet, and
/// what can be split behind them is split.
pub proof fn law_parts_are_split_to_the_end(parts: Seq<Seq<u8>>, tail: Seq<u8>)
    requires
        can_be_combined(parts),
    ensures
        model::split(tail) is Ok ==> model::split(combined(parts) + tail) == Ok::<
            _,
            TransportError,
        >(parts + model::split(tail)->Ok_0),
        model::split(tail) is Err ==> model::split(combined(parts) + tail) == Err::<
            Seq<Seq<u8>>,
            _,
        >(model::split(tail)->Err_0),
    decreases parts.len(),
{
    if parts.len() == 0 {
        assert(combined(parts) + tail =~= tail);
        if model::split(tail) is Ok {
            assert(parts + model::split(tail)->Ok_0 =~= model::split(tail)->Ok_0);
        }
    } else {
        let part = parts[0];
        let rest = parts.skip(1);
        assert(0 < parts[0].len() <= 65535);
        assert forall|i: int| 0 <= i < rest.len() implies 0 < #[trigger] rest[i].len() <= 65535 by {
            assert(rest[i] == parts[i + 1]);
        }
        law_parts_are_split_to_the_end(rest, tail);
        let packet = combined(parts) + tail;
        let start: int = if part.len() < 255 {
            1
        } else {
            3
        };
        let length = part.len() as int;
        assert(packet =~= part_length(part.len()) + part + (combined(rest) + tail));
        assert(packet.skip(start + length) =~= combined(rest) + tail);
        assert(packet.subrange(start, start + length) =~= part);
        if model::split(tail) is Ok {
            let more = model::split(tail)->Ok_0;
            assert(seq![part] + (rest + more) =~= parts + more);
        }
    }
}

/// The first part in error ends a packet of combined application packets: what the
/// parts before it hold is delivered, and what stands behind it is not.
pub proof fn law_combined_applications_end_with_an_error(
    parts: Seq<Seq<u8>>,
    found: Seq<Seq<App>>,
    bad: Seq<u8>,
    rest: Seq<Seq<u8>>,
    some: Seq<App>,
    error: TransportError,
    depth: nat,
)
    requires
        can_be_combined(parts + seq![bad] + rest),
        depth < 8,
        found.len() == parts.len(),
        forall|k: int|
            0 <= k < parts.len() ==> model::unpack(#[trigger] parts[k], depth + 1) == (
                found[k],
                None::<TransportError>,
            ),
        model::unpack(bad, depth + 1) == (some, Some(error)),
    ensures
        model::unpack(seq![0u8, 0x19u8] + combined(parts + seq![bad] + rest), depth) == (
            found.flatten() + some,
            Some(error),
        ),
{
    let all = parts + seq![bad] + rest;
    let packet = seq![0u8, 0x19u8] + combined(all);
    assert(packet.skip(2) =~= combined(all));
    law_combined_parts_come_back(all);
    lemma_unpacked_up_to(parts, found, bad, rest, depth + 1);
}

proof fn lemma_unpacked_up_to(
    parts: Seq<Seq<u8>>,
    found: Seq<Seq<App>>,
    bad: Seq<u8>,
    rest: Seq<Seq<u8>>,
    depth: nat,
)
    requires
        found.len() == parts.len(),
        forall|k: int|
            0 <= k < parts.len() ==> model::unpack(#[trigger] parts[k], depth) == (
                found[k],
                None::<TransportError>,
            ),
        model::unpack(bad, depth).1 is Some,
    ensures
        model::unpack_all(parts + seq![bad] + rest, depth) == (
            found.flatten() + model::unpack(bad, depth).0,
            model::unpack(bad, depth).1,
        ),
    decreases parts.len(),
{
    let all = parts + seq![bad] + rest;
    if parts.len() == 0 {
        assert(all[0] == bad);
        assert(found.flatten() + model::unpack(bad, depth).0 =~= model::unpack(bad, depth).0);
    } else {
        let later = parts.skip(1);
        let others = found.skip(1);
        assert forall|k: int| 0 <= k < later.len() implies model::unpack(
            #[trigger] later[k],
            depth,
        ) == (others[k], None::<TransportError>) by {
            assert(later[k] == parts[k + 1]);
        }
        lemma_unpacked_up_to(later, others, bad, rest, depth);
        assert(all.skip(1) =~= later + seq![bad] + rest);
        assert(all[0] == parts[0]);
        assert(found.drop_first() =~= others);
        let some = model::unpack(bad, depth).0;
        assert(found.flatten() + some =~= found[0] + (others.flatten() + some));
    }
}

/// The encoding of a packet is removed before it is taken: from then on it is treated as
/// one that had none. A packet whose encoding is wrong is refused.
pub proof fn law_encodings_are_removed_first(
    s: SessionState,
    packet: Seq<u8>,
    depth: nat,
    now: u64,
)
    requires
        packet.len() >= 2,
        depth < 8,
    ensures
        s.unwrapped(packet, false) matches Err(e) ==> s.processed(packet, false, depth, now) == (
            s,
            Some(e),
        ),
        s.unwrapped(packet, false) matches Ok(Wrapped::Control(opcode, body)) ==> s.processed(
            packet,
            false,
            depth,
            now,
        ) == s.processed(seq![0u8, opcode as u8] + body, true, depth, now),
        s.unwrapped(packet, false) matches Ok(Wrapped::Raw(data)) ==> (data.len() >= 2
            ==> s.processed(packet, false, depth, now) == s.processed(data, true, depth, now)),
{
    match s.unwrapped(packet, false) {
        Ok(Wrapped::Control(opcode, body)) => {
            assert(opcode < 256);
            let plain = seq![0u8, opcode as u8] + body;
            assert(plain.skip(2) =~= body);
            assert(bytes::be16_at(plain, 0) == opcode);
        },
        _ => {},
    }
}

} // verus!

//! What a session keeps of the packets that pass through it.

use super::model::{self, App, SessionState};
use super::{TransportError, MAX_APPLICATION, WINDOW};
use crate::bytes;
use vstd::prelude::*;

verus! {

/// The length of a part of a combined packet, in one byte or in three.
pub open spec fn part_length(n: nat) -> Seq<u8> {
    if n < 255 {
        seq![n as u8]
    } else {
        seq![255u8] + bytes::be16(n as u16)
    }
}

/// A combined packet made of some parts.
pub open spec fn combined(parts: Seq<Seq<u8>>) -> Seq<u8>
    decreases parts.len(),
{
    if parts.len() == 0 {
        Seq::empty()
    } else {
        part_length(parts[0].len()) + parts[0] + combined(parts.skip(1))
    }
}

/// Splitting a combined packet gives back the parts it was made of.
pub proof fn law_combined_parts_come_back(parts: Seq<Seq<u8>>)
    requires
        forall|i: int| 0 <= i < parts.len() ==> 0 < #[trigger] parts[i].len() <= 65535,
    ensures
        model::split(combined(parts)) == Ok::<_, TransportError>(parts),
    decreases parts.len(),
{
    if parts.len() > 0 {
        let rest = parts.skip(1);
        assert forall|i: int| 0 <= i < rest.len() implies 0 < #[trigger] rest[i].len()
            <= 65535 by {
            assert(rest[i] == parts[i + 1]);
        }
        law_combined_parts_come_back(rest);
        let packet = combined(parts);
        let start = part_length(parts[0].len()).len() as int;
        let length = parts[0].len() as int;
        if length >= 255 {
            bytes::lemma_integers_round_trip(length as u16, 0);
            assert(packet[1] == bytes::be16(length as u16)[0]);
            assert(packet[2] == bytes::be16(length as u16)[1]);
        }
        assert(packet.subrange(start, start + length) =~= parts[0]);
        assert(packet.skip(start + length) =~= combined(rest));
        assert(seq![parts[0]] + rest =~= parts);
    } else {
        assert(parts =~= Seq::empty());
    }
}

/// The bytes of an application packet unpack to that packet and nothing else,
/// whatever its opcode.
pub proof fn law_application_bytes_unpack(opcode: u16, body: Seq<u8>, depth: nat)
    requires
        depth < 8,
    ensures
        model::unpack(model::application_bytes(opcode, body), depth) == (
            seq![App { opcode, body }],
            None::<TransportError>,
        ),
{
    let packet = model::application_bytes(opcode, body);
    bytes::lemma_integers_round_trip(opcode, 0);
    let plain = bytes::le16(opcode) + body;
    if opcode % 256 == 0 {
        assert(packet.skip(1) =~= plain);
    }
    assert(plain[0] == bytes::le16(opcode)[0]);
    assert(plain.skip(2) =~= body);
    assert(model::unpack(packet, depth).0 =~= seq![App { opcode, body }]);
}

/// The frames of a stream, taken in order one after the other.
pub open spec fn taken(s: SessionState, stream: Seq<(u16, Seq<u8>)>) -> (
    SessionState,
    Option<TransportError>,
)
    decreases stream.len(),
{
    if stream.len() == 0 {
        (s, None)
    } else {
        let (next, error) = taken(s, stream.drop_last());
        if error is Some {
            (next, error)
        } else {
            next.ordered(stream.last().0, stream.last().1)
        }
    }
}

/// Every piece of a message fits the size asked for.
proof fn lemma_chunks_fit(data: Seq<u8>, size: nat)
    requires
        size > 0,
    ensures
        forall|i: int|
            0 <= i < model::chunks(data, size).len() ==> 0 < #[trigger] model::chunks(data, size)[i].len()
                <= size,
    decreases data.len(),
{
    if data.len() > size {
        lemma_chunks_fit(data.skip(size as int), size);
        let rest = model::chunks(data.skip(size as int), size);
        assert forall|i: int| 0 <= i < model::chunks(data, size).len() implies 0 < #[trigger] model::chunks(
            data,
            size,
        )[i].len() <= size by {
            if i > 0 {
                assert(model::chunks(data, size)[i] == rest[i - 1]);
            }
        }
    }
}

/// No frame of a message exceeds the capacity of a datagram, and no datagram
/// that carries one exceeds the negotiated size.
pub proof fn law_sent_datagrams_fit(
    s: SessionState,
    application: Seq<u8>,
    i: int,
    sequence: u16,
)
    requires
        s.wf(),
        0 <= i < model::frames(application, s.capacity()).len(),
    ensures
        ({
            let frame = model::frames(application, s.capacity())[i];
            &&& frame.1.len() <= s.capacity()
            &&& s.datagram(frame.0, bytes::be16(sequence) + frame.1).len() <= s.max_datagram
        }),
{
    let all = model::frames(application, s.capacity());
    if application.len() > s.capacity() {
        let rest = application.skip(s.capacity() - 4);
        lemma_chunks_fit(rest, s.capacity());
        if i > 0 {
            assert(all[i].1 == model::chunks(rest, s.capacity())[i - 1]);
        }
    }
}

/// Fragment data so far, taken further with pieces of what is missing.
proof fn lemma_pieces_complete(
    s: SessionState,
    stream: Seq<(u16, Seq<u8>)>,
    start: SessionState,
    whole: Seq<u8>,
    got: int,
    capacity: nat,
    pieces: Seq<Seq<u8>>,
)
    requires
        capacity > 0,
        2 <= whole.len() <= MAX_APPLICATION,
        0 < got < whole.len(),
        taken(start, stream) == (s, None::<TransportError>),
        s.fragment == Some((whole.len() as usize, whole.take(got))),
        pieces == model::chunks(whole.skip(got), capacity),
    ensures
        taken(start, stream + pieces.map_values(|part: Seq<u8>| (13u16, part)))
            == (SessionState { fragment: None, ..s }).delivered(model::unpack(whole, 0)),
    decreases whole.len() - got,
{
    let rest = whole.skip(got);
    let more = pieces.map_values(|part: Seq<u8>| (13u16, part));
    if rest.len() <= capacity {
        assert(pieces =~= seq![rest]);
        assert(stream + more =~= stream.push((13u16, rest)));
        assert((stream + more).drop_last() =~= stream);
        assert(whole.take(got) + rest =~= whole);
    } else {
        let head = rest.take(capacity as int);
        let next_stream = stream.push((13u16, head));
        let next_got = got + capacity;
        let tail = model::chunks(whole.skip(next_got), capacity);
        assert(rest.skip(capacity as int) =~= whole.skip(next_got));
        assert(pieces =~= seq![head] + tail);
        assert(next_stream.drop_last() =~= stream);
        assert(whole.take(got) + head =~= whole.take(next_got));
        let next = s.ordered(13, head);
        assert(taken(start, next_stream) == next);
        lemma_pieces_complete(next.0, next_stream, start, whole, next_got, capacity, tail);
        assert(stream + more =~= next_stream + tail.map_values(|part: Seq<u8>| (13u16, part)));
        assert(SessionState { fragment: None, ..next.0 } == SessionState { fragment: None, ..s });
    }
}

/// An application packet that is fragmented comes out whole: taking its frames
/// in order queues that packet, once, and leaves nothing else behind.
pub proof fn law_fragments_reassemble(s: SessionState, opcode: u16, body: Seq<u8>, capacity: nat)
    requires
        s.fragment is None,
        body.len() <= MAX_APPLICATION - 3,
        4 < capacity,
    ensures
        taken(s, model::frames(model::application_bytes(opcode, body), capacity)) == (
            SessionState { applications: s.applications.push(App { opcode, body }), ..s },
            None::<TransportError>,
        ),
{
    let whole = model::application_bytes(opcode, body);
    let all = model::frames(whole, capacity);
    law_application_bytes_unpack(opcode, body, 0);
    assert(s.applications + seq![App { opcode, body }] =~= s.applications.push(
        App { opcode, body },
    ));
    if whole.len() <= capacity {
        assert(all.drop_last() =~= Seq::empty());
        reveal_with_fuel(taken, 2);
    } else {
        let size = bytes::be32(whole.len() as u32);
        let first = size + whole.take(capacity - 4);
        bytes::lemma_integers_round_trip(0, whole.len() as u32);
        assert(first[0] == size[0] && first[1] == size[1] && first[2] == size[2] && first[3]
            == size[3]);
        assert(first.skip(4) =~= whole.take(capacity - 4));
        let stream = seq![(13u16, first)];
        assert(stream.drop_last() =~= Seq::empty());
        reveal_with_fuel(taken, 2);
        let one = s.ordered(13, first);
        assert(taken(s, stream) == one);
        let pieces = model::chunks(whole.skip(capacity - 4), capacity);
        lemma_pieces_complete(one.0, stream, s, whole, capacity - 4, capacity, pieces);
        assert(all =~= stream + pieces.map_values(|part: Seq<u8>| (13u16, part)));
    }
}

/// Taking a frame touches nothing but the fragment data and the queue, and
/// depends on nothing else.
proof fn lemma_ordered_is_local(s: SessionState, t: SessionState, opcode: u16, body: Seq<u8>)
    requires
        s.fragment == t.fragment,
        s.applications == t.applications,
    ensures
        s.ordered(opcode, body).1 == t.ordered(opcode, body).1,
        s.ordered(opcode, body).0 == (SessionState {
            fragment: t.ordered(opcode, body).0.fragment,
            applications: t.ordered(opcode, body).0.applications,
            ..s
        }),
{
}

/// The number that frame `i` of a stream carries.
pub open spec fn number(base: SessionState, i: nat) -> u16 {
    ((base.next_receive + i) % 65536) as u16
}

/// `s` has taken the first `k` frames of a stream that began at `base`, in
/// order, and holds only frames of it that come later.
pub open spec fn in_step(
    s: SessionState,
    base: SessionState,
    stream: Seq<(u16, Seq<u8>)>,
    k: nat,
) -> bool {
    let got = taken(base, stream.take(k as int)).0;
    &&& k <= stream.len()
    &&& s.next_receive == number(base, k)
    &&& s.fragment == got.fragment
    &&& s.applications == got.applications
    &&& s.reorder.dom().finite()
    &&& s.ahead()
    &&& !s.reorder.contains_key(s.next_receive)
    &&& forall|key: u16| #[trigger]
        s.reorder.contains_key(key) ==> {
            let i = k + key.wrapping_sub(s.next_receive);
            i < stream.len() && s.reorder[key] == stream[i as int]
        }
}

/// Whether frame `i` waits in `s` for its turn.
pub open spec fn waits(s: SessionState, base: SessionState, k: nat, i: nat) -> bool {
    k < i < k + WINDOW && s.reorder.contains_key(number(base, i))
}

/// Draining takes the frames that wait, one after the other, up to a gap.
#[verifier::spinoff_prover]
#[verifier::rlimit(40)]
proof fn lemma_drain_in_step(
    s: SessionState,
    base: SessionState,
    stream: Seq<(u16, Seq<u8>)>,
    k: nat,
) -> (last: nat)
    requires
        taken(base, stream).1 is None,
        k <= stream.len(),
        s.next_receive == number(base, k),
        s.fragment == taken(base, stream.take(k as int)).0.fragment,
        s.applications == taken(base, stream.take(k as int)).0.applications,
        s.reorder.dom().finite(),
        s.ahead(),
        forall|key: u16| #[trigger]
            s.reorder.contains_key(key) ==> {
                let i = k + key.wrapping_sub(s.next_receive);
                i < stream.len() && s.reorder[key] == stream[i as int]
            },
    ensures
        s.drained().1 is None,
        k <= last <= k + WINDOW,
        in_step(s.drained().0, base, stream, last),
        s.drained().0 == (SessionState {
            next_receive: s.drained().0.next_receive,
            fragment: s.drained().0.fragment,
            applications: s.drained().0.applications,
            reorder: s.drained().0.reorder,
            ..s
        }),
        forall|i: nat| k <= i < last ==> s.reorder.contains_key(#[trigger] number(base, i)),
        forall|i: nat|
            last <= i < k + WINDOW ==> (s.reorder.contains_key(#[trigger] number(base, i))
                <==> s.drained().0.reorder.contains_key(number(base, i))),
    decreases s.reorder.dom().len(),
{
    if s.reorder.contains_key(s.next_receive) {
        let frame = s.reorder[s.next_receive];
        assert(frame == stream[k as int]);
        let removed = SessionState { reorder: s.reorder.remove(s.next_receive), ..s };
        let (next, error) = removed.ordered(frame.0, frame.1);
        let got = taken(base, stream.take(k as int)).0;
        lemma_taken_prefix(base, stream, k);
        lemma_taken_prefix(base, stream, (k + 1) as nat);
        assert(stream.take(k as int + 1).drop_last() =~= stream.take(k as int));
        assert(stream.take(k as int + 1).last() == frame);
        lemma_ordered_is_local(removed, got, frame.0, frame.1);
        let after = SessionState { next_receive: next.next_receive.wrapping_add(1), ..next };
        assert(after.next_receive == number(base, (k + 1) as nat));
        assert forall|key: u16| #[trigger] after.reorder.contains_key(key) implies {
            let i = (k + 1) + key.wrapping_sub(after.next_receive);
            i < stream.len() && after.reorder[key] == stream[i as int]
        } by {
            assert(s.reorder.contains_key(key));
        }
        assert(after.ahead()) by {
            assert forall|key: u16| #[trigger] after.reorder.contains_key(key) implies
                key.wrapping_sub(after.next_receive) < WINDOW by {
                assert(s.reorder.contains_key(key));
            }
        }
        let last = lemma_drain_in_step(after, base, stream, (k + 1) as nat);
        assert(s.drained() == after.drained());
        assert forall|i: nat| k <= i < last implies s.reorder.contains_key(
            #[trigger] number(base, i),
        ) by {
            if i > k {
                assert(after.reorder.contains_key(number(base, i)));
            }
        }
        assert forall|i: nat| last <= i < k + WINDOW implies (s.reorder.contains_key(
            #[trigger] number(base, i),
        ) <==> s.drained().0.reorder.contains_key(number(base, i))) by {
            assert(number(base, i) != number(base, k));
        }
        if last == k + 1 + WINDOW {
            let key = number(base, (k + WINDOW) as nat);
            assert(after.reorder.contains_key(key));
            assert(s.reorder.contains_key(key));
            assert(false);
        }
        last
    } else {
        k
    }
}

/// A stream that can be taken whole can be taken up to any point.
proof fn lemma_taken_prefix(base: SessionState, stream: Seq<(u16, Seq<u8>)>, k: nat)
    requires
        k <= stream.len(),
        taken(base, stream).1 is None,
    ensures
        taken(base, stream.take(k as int)).1 is None,
    decreases stream.len(),
{
    if k < stream.len() {
        assert(stream.drop_last().take(k as int) =~= stream.take(k as int));
        lemma_taken_prefix(base, stream.drop_last(), k);
    } else {
        assert(stream.take(k as int) =~= stream);
    }
}

/// What a numbered frame of the stream holds on the wire.
pub open spec fn numbered_frame(
    base: SessionState,
    stream: Seq<(u16, Seq<u8>)>,
    i: nat,
) -> Seq<u8> {
    bytes::be16(number(base, i)) + stream[i as int].1
}

/// One frame of the stream arrives, early, late or in turn. Nothing is taken
/// twice or out of order: the session stays in step, and moves on exactly past
/// the frames that have arrived without a gap. Only an early frame is answered
/// at once; the others wait for one acknowledgment that covers them all.
pub proof fn law_arrival_keeps_step(
    s: SessionState,
    base: SessionState,
    stream: Seq<(u16, Seq<u8>)>,
    k: nat,
    i: nat,
) -> (last: nat)
    requires
        taken(base, stream).1 is None,
        in_step(s, base, stream, k),
        i < stream.len(),
        i < k + WINDOW,
        k <= i + 32768,
    ensures
        ({
            let (next, error) = s.sequenced(stream[i as int].0, numbered_frame(base, stream, i));
            &&& error is None
            &&& in_step(next, base, stream, last)
            &&& k <= last <= k + WINDOW
            &&& next.ack_pending
            &&& i <= k ==> next.outbox == s.outbox
            &&& forall|j: nat| k <= j < last ==> j == i || #[trigger] waits(s, base, k, j)
            &&& !(last == i || waits(s, base, k, last))
            &&& forall|j: nat|
                last < j ==> (#[trigger] waits(next, base, last, j) <==> waits(s, base, k, j) || (j
                    == i && k < i))
        }),
{
    lemma_frame_number(base, stream, i);
    lemma_numbers(base, k, i);
    if i < k {
        k
    } else {
        lemma_timely_arrival(s, base, stream, k, i)
    }
}

/// A frame on the wire starts with its number.
proof fn lemma_frame_number(base: SessionState, stream: Seq<(u16, Seq<u8>)>, i: nat)
    ensures
        numbered_frame(base, stream, i).len() >= 2,
        bytes::be16_at(numbered_frame(base, stream, i), 0) == number(base, i),
        numbered_frame(base, stream, i).skip(2) == stream[i as int].1,
{
    let body = numbered_frame(base, stream, i);
    let sequence = number(base, i);
    bytes::lemma_integers_round_trip(sequence, 0);
    assert(body[0] == bytes::be16(sequence)[0] && body[1] == bytes::be16(sequence)[1]);
    assert(body.skip(2) =~= stream[i as int].1);
}

/// The distance between two numbers is that between their frames.
proof fn lemma_numbers(base: SessionState, k: nat, i: nat)
    ensures
        k <= i < k + 65536 ==> number(base, i).wrapping_sub(number(base, k)) == i - k,
        i < k <= i + 32768 ==> number(base, i).wrapping_sub(number(base, k)) >= 32768,
        k < i < k + 65536 ==> number(base, i) != number(base, k),
{
}

/// The case of a frame that has not been taken yet.
proof fn lemma_timely_arrival(
    s: SessionState,
    base: SessionState,
    stream: Seq<(u16, Seq<u8>)>,
    k: nat,
    i: nat,
) -> (last: nat)
    requires
        taken(base, stream).1 is None,
        in_step(s, base, stream, k),
        i < stream.len(),
        k <= i < k + WINDOW,
    ensures
        ({
            let (next, error) = s.sequenced(stream[i as int].0, numbered_frame(base, stream, i));
            &&& error is None
            &&& in_step(next, base, stream, last)
            &&& k <= last <= k + WINDOW
            &&& next.ack_pending
            &&& i <= k ==> next.outbox == s.outbox
            &&& forall|j: nat| k <= j < last ==> j == i || #[trigger] waits(s, base, k, j)
            &&& !(last == i || waits(s, base, k, last))
            &&& forall|j: nat|
                last < j ==> (#[trigger] waits(next, base, last, j) <==> waits(s, base, k, j) || (j
                    == i && k < i))
        }),
{
    let frame = stream[i as int];
    let sequence = number(base, i);
    lemma_frame_number(base, stream, i);
    lemma_numbers(base, k, i);
    let (next, error) = s.sequenced(frame.0, numbered_frame(base, stream, i));
    let with = SessionState {
        reorder: if s.reorder.contains_key(sequence) {
            s.reorder
        } else {
            s.reorder.insert(sequence, (frame.0, frame.1))
        },
        ..s
    };
    assert forall|key: u16| #[trigger] with.reorder.contains_key(key) implies {
        let n = k + key.wrapping_sub(with.next_receive);
        &&& key.wrapping_sub(with.next_receive) < WINDOW
        &&& n < stream.len()
        &&& with.reorder[key] == stream[n as int]
    } by {
        if key != sequence {
            assert(s.reorder.contains_key(key));
        }
    }
    let last = lemma_drain_in_step(with, base, stream, k);
    let done = with.drained().0;
    assert(next.reorder == done.reorder && next.next_receive == done.next_receive);
    assert forall|j: nat| k <= j < last implies j == i || #[trigger] waits(s, base, k, j) by {
        assert(with.reorder.contains_key(number(base, j)));
        if j < i {
            lemma_numbers(base, j, i);
        } else {
            lemma_numbers(base, i, j);
        }
    }
    assert(!done.reorder.contains_key(number(base, last)));
    if last < k + WINDOW {
        assert(!with.reorder.contains_key(number(base, last)));
    }
    lemma_drained_shrinks(with);
    assert forall|j: nat| last < j implies (#[trigger] waits(next, base, last, j) <==> waits(
        s,
        base,
        k,
        j,
    ) || (j == i && k < i)) by {
        lemma_numbers(base, k, j);
        if j < k + WINDOW {
            assert(with.reorder.contains_key(number(base, j)) <==> done.reorder.contains_key(
                number(base, j),
            ));
            if j < i {
                lemma_numbers(base, j, i);
            } else {
                lemma_numbers(base, i, j);
            }
        } else if j < last + WINDOW {
            assert(!with.reorder.contains_key(number(base, j)));
        }
    }
    last
}

/// Draining holds no frame that was not held before.
proof fn lemma_drained_shrinks(s: SessionState)
    requires
        s.reorder.dom().finite(),
    ensures
        forall|key: u16| #[trigger]
            s.drained().0.reorder.contains_key(key) ==> s.reorder.contains_key(key),
    decreases s.reorder.dom().len(),
{
    if s.reorder.contains_key(s.next_receive) {
        let frame = s.reorder[s.next_receive];
        let (next, error) = SessionState {
            reorder: s.reorder.remove(s.next_receive),
            ..s
        }.ordered(frame.0, frame.1);
        if error is None {
            lemma_drained_shrinks(
                SessionState { next_receive: next.next_receive.wrapping_add(1), ..next },
            );
        }
    }
}

/// The frames of a stream, by index, arriving at a session in any order.
pub open spec fn arrived(
    base: SessionState,
    stream: Seq<(u16, Seq<u8>)>,
    arrivals: Seq<nat>,
) -> (SessionState, Option<TransportError>)
    decreases arrivals.len(),
{
    if arrivals.len() == 0 {
        (base, None)
    } else {
        let (s, error) = arrived(base, stream, arrivals.drop_last());
        let i = arrivals.last();
        if error is Some {
            (s, error)
        } else {
            s.sequenced(stream[i as int].0, numbered_frame(base, stream, i))
        }
    }
}

/// `k` is the first frame missing from what arrived.
pub open spec fn first_missing(arrivals: Seq<nat>, k: nat) -> bool {
    &&& forall|i: nat| i < k ==> #[trigger] arrivals.contains(i)
    &&& !arrivals.contains(k)
}

/// Frames that arrive in any order and any number of times are delivered once
/// and in sequence, also across the wrap of the sequence numbers: what comes
/// out is what taking the stream in order up to the first missing frame gives.
///
/// Each frame has to arrive within the window of the receiver at that time.
pub proof fn law_frames_delivered_once_in_order(
    base: SessionState,
    stream: Seq<(u16, Seq<u8>)>,
    arrivals: Seq<nat>,
) -> (k: nat)
    requires
        base.reorder == Map::<u16, (u16, Seq<u8>)>::empty(),
        taken(base, stream).1 is None,
        forall|m: int| 0 <= m < arrivals.len() ==> #[trigger] arrivals[m] < stream.len(),
        forall|m: int, f: nat|
            0 <= m < arrivals.len() && #[trigger] first_missing(arrivals.take(m), f)
                ==> arrivals[m] < f + WINDOW && f <= arrivals[m] + 32768,
    ensures
        first_missing(arrivals, k),
        arrived(base, stream, arrivals).1 is None,
        in_step(arrived(base, stream, arrivals).0, base, stream, k),
        forall|i: nat|
            k < i ==> (#[trigger] waits(arrived(base, stream, arrivals).0, base, k, i)
                <==> arrivals.contains(i)),
    decreases arrivals.len(),
{
    if arrivals.len() == 0 {
        assert(stream.take(0) =~= Seq::empty());
        assert(first_missing(arrivals, 0));
        0
    } else {
        let before = arrivals.drop_last();
        let i = arrivals.last();
        assert forall|m: int| 0 <= m < before.len() implies #[trigger] before[m]
            < stream.len() by {
            assert(before[m] == arrivals[m]);
        }
        assert forall|m: int, f: nat|
            0 <= m < before.len() && #[trigger] first_missing(before.take(m), f) implies before[m]
            < f + WINDOW && f <= before[m] + 32768 by {
            assert(before.take(m) =~= arrivals.take(m));
            assert(first_missing(arrivals.take(m), f));
        }
        let k = law_frames_delivered_once_in_order(base, stream, before);
        let s = arrived(base, stream, before).0;
        assert(arrivals.take(arrivals.len() - 1) =~= before);
        assert(first_missing(arrivals.take(arrivals.len() - 1), k));
        let last = law_arrival_keeps_step(s, base, stream, k, i);
        assert forall|j: nat| #[trigger] arrivals.contains(j) <==> before.contains(j) || j == i by {
            assert(arrivals[arrivals.len() - 1] == i);
            if before.contains(j) {
                let m = choose|m: int| 0 <= m < before.len() && before[m] == j;
                assert(arrivals[m] == j);
            }
            if arrivals.contains(j) && j != i {
                let m = choose|m: int| 0 <= m < arrivals.len() && arrivals[m] == j;
                assert(before[m] == j);
            }
        }
        assert forall|j: nat| j < last implies #[trigger] arrivals.contains(j) by {
            if j >= k && j != i {
                assert(waits(s, base, k, j));
            }
        }
        assert(!arrivals.contains(last)) by {
            if before.contains(last) {
                assert(last > k);
                assert(waits(s, base, k, last));
            }
        }
        last
    }
}

/// An application packet reaches the peer whole: once each of its frames has
/// arrived, in whatever order and however often, exactly that packet has been
/// queued.
pub proof fn law_sent_application_arrives(
    receiver: SessionState,
    opcode: u16,
    body: Seq<u8>,
    capacity: nat,
    arrivals: Seq<nat>,
)
    requires
        receiver.reorder == Map::<u16, (u16, Seq<u8>)>::empty(),
        receiver.fragment is None,
        body.len() <= MAX_APPLICATION - 3,
        4 < capacity,
        ({
            let stream = model::frames(model::application_bytes(opcode, body), capacity);
            &&& forall|m: int| 0 <= m < arrivals.len() ==> #[trigger] arrivals[m] < stream.len()
            &&& forall|i: nat| i < stream.len() ==> #[trigger] arrivals.contains(i)
            &&& forall|m: int, f: nat|
                0 <= m < arrivals.len() && #[trigger] first_missing(arrivals.take(m), f)
                    ==> arrivals[m] < f + WINDOW && f <= arrivals[m] + 32768
        }),
    ensures
        ({
            let stream = model::frames(model::application_bytes(opcode, body), capacity);
            let (next, error) = arrived(receiver, stream, arrivals);
            &&& error is None
            &&& next.applications == receiver.applications.push(App { opcode, body })
            &&& next.fragment is None
            &&& next.next_receive == number(receiver, stream.len())
        }),
{
    let stream = model::frames(model::application_bytes(opcode, body), capacity);
    law_fragments_reassemble(receiver, opcode, body, capacity);
    let k = law_frames_delivered_once_in_order(receiver, stream, arrivals);
    if k > stream.len() {
        assert(arrivals.contains(stream.len()));
        let m = choose|m: int| 0 <= m < arrivals.len() && arrivals[m] == stream.len();
        assert(arrivals[m] < stream.len());
    }
    assert(k == stream.len());
    assert(stream.take(k as int) =~= stream);
}

/// The frames of several application packets, one packet after the other.
pub open spec fn all_frames(apps: Seq<App>, capacity: nat) -> Seq<(u16, Seq<u8>)>
    decreases apps.len(),
{
    if apps.len() == 0 {
        Seq::empty()
    } else {
        all_frames(apps.drop_last(), capacity) + model::frames(
            model::application_bytes(apps.last().opcode, apps.last().body),
            capacity,
        )
    }
}

/// A stream can be taken in two pieces.
proof fn lemma_taken_in_pieces(
    s: SessionState,
    a: Seq<(u16, Seq<u8>)>,
    b: Seq<(u16, Seq<u8>)>,
)
    requires
        taken(s, a).1 is None,
    ensures
        taken(s, a + b) == taken(taken(s, a).0, b),
    decreases b.len(),
{
    if b.len() == 0 {
        assert(a + b =~= a);
    } else {
        lemma_taken_in_pieces(s, a, b.drop_last());
        assert((a + b).drop_last() =~= a + b.drop_last());
        assert((a + b).last() == b.last());
    }
}

/// The frames of several packets, taken in order, deliver them in order.
proof fn lemma_taken_all(s: SessionState, apps: Seq<App>, capacity: nat)
    requires
        s.fragment is None,
        4 < capacity,
        forall|i: int|
            0 <= i < apps.len() ==> (#[trigger] apps[i]).body.len() <= MAX_APPLICATION - 3,
    ensures
        taken(s, all_frames(apps, capacity)) == (
            SessionState { applications: s.applications + apps, ..s },
            None::<TransportError>,
        ),
    decreases apps.len(),
{
    if apps.len() == 0 {
        assert(s.applications + apps =~= s.applications);
    } else {
        let rest = apps.drop_last();
        let app = apps.last();
        assert(app == apps[apps.len() - 1]);
        assert forall|i: int| 0 <= i < rest.len() implies (#[trigger] rest[i]).body.len()
            <= MAX_APPLICATION - 3 by {
            assert(rest[i] == apps[i]);
        }
        lemma_taken_all(s, rest, capacity);
        let last = model::frames(model::application_bytes(app.opcode, app.body), capacity);
        lemma_taken_in_pieces(s, all_frames(rest, capacity), last);
        let middle = SessionState { applications: s.applications + rest, ..s };
        law_fragments_reassemble(middle, app.opcode, app.body, capacity);
        assert((s.applications + rest).push(app) =~= s.applications + apps);
    }
}

/// Application packets in flight together reach the peer whole: once each of
/// their frames has arrived, in whatever order and however often, exactly these
/// packets have been queued, in the order in which they were sent.
pub proof fn law_sent_applications_arrive(
    receiver: SessionState,
    apps: Seq<App>,
    capacity: nat,
    arrivals: Seq<nat>,
)
    requires
        receiver.reorder == Map::<u16, (u16, Seq<u8>)>::empty(),
        receiver.fragment is None,
        4 < capacity,
        forall|i: int|
            0 <= i < apps.len() ==> (#[trigger] apps[i]).body.len() <= MAX_APPLICATION - 3,
        ({
            let stream = all_frames(apps, capacity);
            &&& forall|m: int| 0 <= m < arrivals.len() ==> #[trigger] arrivals[m] < stream.len()
            &&& forall|i: nat| i < stream.len() ==> #[trigger] arrivals.contains(i)
            &&& forall|m: int, f: nat|
                0 <= m < arrivals.len() && #[trigger] first_missing(arrivals.take(m), f)
                    ==> arrivals[m] < f + WINDOW && f <= arrivals[m] + 32768
        }),
    ensures
        ({
            let stream = all_frames(apps, capacity);
            let (next, error) = arrived(receiver, stream, arrivals);
            &&& error is None
            &&& next.applications == receiver.applications + apps
            &&& next.fragment is None
            &&& next.next_receive == number(receiver, stream.len())
        }),
{
    let stream = all_frames(apps, capacity);
    lemma_taken_all(receiver, apps, capacity);
    let k = law_frames_delivered_once_in_order(receiver, stream, arrivals);
    if k > stream.len() {
        assert(arrivals.contains(stream.len()));
        let m = choose|m: int| 0 <= m < arrivals.len() && arrivals[m] == stream.len();
        assert(arrivals[m] < stream.len());
    }
    assert(k == stream.len());
    assert(stream.take(k as int) =~= stream);
}

/// A cumulative acknowledgment of the pending frame `i` retires that frame and
/// every one before it, and keeps the later ones.
pub proof fn law_acknowledgment_retires_prefix(s: SessionState, i: int)
    requires
        s.wf(),
        0 <= i < s.pending.len(),
    ensures
        s.acknowledged(s.pending[i].sequence) == (SessionState {
            pending: s.pending.skip(i + 1),
            ..s
        }),
{
    let ack = s.pending[i].sequence;
    assert forall|j: int| 0 <= j < i implies #[trigger] s.pending[j].sequence != ack by {}
    lemma_after_ack(s.pending, ack, i);
}

proof fn lemma_after_ack(pending: Seq<model::PendingState>, ack: u16, i: int)
    requires
        0 <= i < pending.len(),
        pending[i].sequence == ack,
        forall|j: int| 0 <= j < i ==> #[trigger] pending[j].sequence != ack,
    ensures
        model::after_ack(pending, ack) == pending.skip(i + 1),
    decreases i,
{
    if i > 0 {
        let rest = pending.skip(1);
        assert(pending[0].sequence != ack);
        assert forall|j: int| 0 <= j < i - 1 implies #[trigger] rest[j].sequence != ack by {
            assert(rest[j] == pending[j + 1]);
        }
        lemma_after_ack(rest, ack, i - 1);
        assert(rest.skip(i) =~= pending.skip(i + 1));
    }
}

/// A datagram with a wrong checksum changes nothing but the count of datagrams.
pub proof fn law_damaged_datagram_is_discarded(s: SessionState, wire: Seq<u8>, now: u64)
    requires
        s.opened(wire) is None,
    ensures
        s.received(wire, now) == (
            SessionState { received_count: s.received_count.wrapping_add(1), ..s },
            Ok::<Option<App>, TransportError>(None),
        ),
{
}

/// The disconnect is sent once, and nothing can be sent after it.
pub proof fn law_closed_session_stays_silent(
    s: SessionState,
    opcode: u16,
    body: Seq<u8>,
    now: u64,
)
    ensures
        s.closing().closing() == s.closing(),
        s.closing().sending(opcode, body, now) == (
            s.closing(),
            Some(TransportError::SessionClosed),
        ),
{
}

} // verus!

//! What comes of the packets of a zone, and of the time that passes there.

use super::{ChatOutcomeState, End, ZoneContext, ZoneState};
use crate::bytes;
use crate::client::step::{received_text, Act, Fault, NoticeState, Refusal};
use crate::client::{ConnectionStage, ConnectionState};
use crate::outside;
use crate::p99::{self, CodecState};
use crate::text;
use vstd::prelude::*;

verus! {

/// The number whose four bytes start at `at`, the low one first.
pub open spec fn word(s: Seq<u8>, at: int) -> int {
    s[at] + 0x100 * s[at + 1] + 0x1_0000 * s[at + 2] + 0x100_0000 * s[at + 3]
}

/// Whether text stands at a place, with a zero behind it.
pub open spec fn stands_at(s: Seq<u8>, at: int, text: Seq<u8>) -> bool {
    s.subrange(at, at + text.len()) == text && s[at + text.len()] == 0
}

/// Whether four bytes are a floating-point number other than an infinity or none: its
/// eight bits of exponent are not all ones.
pub open spec fn is_number(s: Seq<u8>, at: int) -> bool {
    !(s[at + 3] % 128 == 127 && s[at + 2] >= 128)
}

proof fn lemma_is_number(s: Seq<u8>, at: int)
    requires
        0 <= at,
        at + 4 <= s.len(),
    ensures
        super::finite(s, at) == is_number(s, at),
{
    let v = bytes::le32_at(s, at) as int;
    let (a, b) = (s[at + 2] as int, s[at + 3] as int);
    assert(v == s[at] + 0x100 * s[at + 1] + 0x1_0000 * a + 0x100_0000 * b);
    assert(v / 0x80_0000 == 2 * b + a / 128);
    assert((2 * b + a / 128) % 256 == 255 <==> b % 128 == 127 && a / 128 == 1);
}

/// A zone session begins with nothing seen and nothing asked, and a first position is
/// due at once.
pub proof fn law_zones_begin(codec: CodecState, checksums: Seq<u8>, now: u64, i: int)
    ensures
        ({
            let zone = ZoneState::entered(codec, checksums, now);
            &&& zone.codec == codec && zone.checksums == checksums
            &&& zone.connected == now && zone.progress == now
            &&& now >= 2_000_000_000 ==> zone.last_position == now - 2_000_000_000
            &&& zone.position_sequence == 0 && zone.packets == 0
            &&& !zone.ready && !zone.saw_spawn && !zone.saw_profile && !zone.saw_weather
            &&& !zone.requested && !zone.got_zone && !zone.replied_experience
            &&& zone.zone_name.len() == 0
            &&& zone.stationary.len() == 36
            &&& 0 <= i < 36 ==> zone.stationary[i] == 0
        }),
{
}

/// The acts of a report, every half minute.
pub open spec fn report(zone: ZoneState, last_received_seconds: u64) -> Seq<Act> {
    seq![
        Act::Notify(
            NoticeState::Status {
                state: if zone.ready && last_received_seconds < 60 {
                    ConnectionState::Connected
                } else {
                    ConnectionState::Zoning
                },
                packets: zone.packets,
                last_received_seconds: Some(last_received_seconds),
            },
        ),
        Act::Notify(NoticeState::Traffic { heading: "Zone session: "@, count: zone.packets }),
    ]
}

/// As time passes in a zone: it ends when it is cancelled or its time is over, a report
/// is due every half minute, admission has to come within a minute, and after it the
/// position goes out every two seconds under the next sequence number.
pub proof fn law_time_passes(
    zone: ZoneState,
    cancelled: bool,
    duration: Option<u64>,
    last_received_seconds: u64,
    now: u64,
    i: int,
)
    requires
        zone.stationary.len() == 36,
    ensures
        ({
            let (next, acts, end) = zone.ticked(cancelled, duration, last_received_seconds, now);
            let over = duration is Some && (now - zone.connected >= duration->0 || duration->0 == 0);
            let told = if now - zone.progress >= 30_000_000_000 {
                report(zone, last_received_seconds)
            } else {
                Seq::empty()
            };
            let progress = if now - zone.progress >= 30_000_000_000 {
                now
            } else {
                zone.progress
            };
            let late = !zone.ready && now - zone.connected >= 60_000_000_000;
            let due = zone.ready && now - zone.last_position >= 2_000_000_000;
            &&& cancelled || over ==> next == zone && acts == seq![Act::Close] && end
                == End::Done(())
            &&& !cancelled && !over && late ==> next == (ZoneState { progress, ..zone }) && acts
                == told && end == End::<()>::Fail(Fault::Refused(Refusal::Admission))
            &&& !cancelled && !over && !late ==> end is Continue
            &&& !cancelled && !over && !late && !due ==> next == (ZoneState { progress, ..zone })
                && acts == told
            &&& !cancelled && !over && !late && due ==> {
                &&& acts == told.push(Act::SendUnreliable(0x14cb, next.stationary))
                &&& next == (ZoneState {
                    progress,
                    stationary: next.stationary,
                    position_sequence: ((zone.position_sequence + 1) % 65536) as u16,
                    last_position: now,
                    ..zone
                })
                &&& next.stationary.len() == 36
                &&& next.stationary[2] + 256 * next.stationary[3] == zone.position_sequence
                &&& 0 <= i < 36 && i != 2 && i != 3 ==> next.stationary[i] == zone.stationary[i]
            }
        }),
{
    let told = if now - zone.progress >= 30_000_000_000 {
        report(zone, last_received_seconds)
    } else {
        Seq::empty()
    };
    let acts = zone.ticked(cancelled, duration, last_received_seconds, now).1;
    assert(told + Seq::<Act>::empty() =~= told);
    let beat = super::put(zone.stationary, 2, bytes::le16(zone.position_sequence));
    assert(told + seq![Act::SendUnreliable(0x14cb, beat)] =~= told.push(
        Act::SendUnreliable(0x14cb, beat),
    ));
    assert(zone.position_sequence.wrapping_add(1) == (zone.position_sequence + 1) % 65536);
}

/// A profile gives the position: east, north and height stand in it as they are kept in
/// the saved one, and the heading in twelve bits. A profile of another size, and one
/// whose position is no number, is refused.
pub proof fn law_profiles_give_the_position(
    zone: ZoneState,
    context: ZoneContext,
    body: Seq<u8>,
    heading: u16,
    i: int,
)
    requires
        zone.stationary.len() == 36,
    ensures
        ({
            let (next, acts, fault, read) = zone.handled(context, 0x75df, body, heading);
            let numbers = is_number(body, 13116) && is_number(body, 13120) && is_number(body, 13124)
                && is_number(body, 13128);
            &&& acts.len() == 0
            &&& read == body
            &&& body.len() != 19592 ==> next == zone && fault == Some(
                Fault::Refused(Refusal::ProfileSize),
            )
            &&& body.len() == 19592 && !numbers ==> next == zone && fault == Some(
                Fault::Refused(Refusal::Position),
            )
            &&& body.len() == 19592 && numbers ==> {
                &&& fault is None
                &&& next == (ZoneState {
                    stationary: next.stationary,
                    saw_profile: true,
                    ..zone
                })
                &&& next.stationary.len() == 36
                &&& 4 <= i < 8 ==> next.stationary[i] == body[13120 + i - 4]
                &&& 24 <= i < 28 ==> next.stationary[i] == body[13116 + i - 24]
                &&& 28 <= i < 32 ==> next.stationary[i] == body[13124 + i - 28]
                &&& next.stationary[32] + 256 * next.stationary[33] == heading % 4096
                &&& 0 <= i < 4 || 8 <= i < 24 || 34 <= i < 36 ==> next.stationary[i]
                    == zone.stationary[i]
            }
        }),
{
    if body.len() == 19592 {
        lemma_is_number(body, 13116);
        lemma_is_number(body, 13120);
        lemma_is_number(body, 13124);
        lemma_is_number(body, 13128);
        let east = body.subrange(13120, 13124);
        let north = body.subrange(13116, 13120);
        let height = body.subrange(13124, 13128);
        let facing = bytes::le16((heading % 4096) as u16);
        let x = super::put(zone.stationary, 4, east);
        let y = super::put(x, 24, north);
        let z = super::put(y, 28, height);
        let w = super::put(z, 32, facing);
        lemma_put(zone.stationary, 4, east);
        lemma_put(x, 24, north);
        lemma_put(y, 28, height);
        lemma_put(z, 32, facing);
        assert(w[32] == facing[0] && w[33] == facing[1]);
    }
}

proof fn lemma_put(s: Seq<u8>, at: int, part: Seq<u8>)
    requires
        s.len() == 36,
        0 <= at,
        at + part.len() <= 36,
    ensures
        super::put(s, at, part).len() == 36,
        forall|k: int|
            0 <= k < 36 ==> #[trigger] super::put(s, at, part)[k] == if at <= k < at + part.len() {
                part[k - at]
            } else {
                s[k]
            },
{
}

/// Weather is noted.
pub proof fn law_weather_is_noted(
    zone: ZoneState,
    context: ZoneContext,
    body: Seq<u8>,
    heading: u16,
)
    ensures
        zone.handled(context, 0x254d, body, heading) == (
            ZoneState { saw_weather: true, ..zone },
            Seq::<Act>::empty(),
            None::<Fault>,
            body,
        ),
{
}

/// Our own spawn, read with the session key, gives the id that the position goes out
/// under and the seed of the next digest. It is taken once, and has to be ours.
pub proof fn law_spawns_give_the_id(
    zone: ZoneState,
    context: ZoneContext,
    body: Seq<u8>,
    heading: u16,
    name: Seq<u8>,
    i: int,
)
    requires
        zone.stationary.len() == 36,
        name.len() < 64,
        forall|k: int| 0 <= k < name.len() ==> name[k] != 0,
    ensures
        ({
            let (next, acts, fault, read) = zone.handled(context, 0x7213, body, heading);
            let plain = p99::session_mixed(body, context.credentials@.key);
            let character = text::utf8(context.config.character@);
            let named = plain.len() == 385 && stands_at(plain, 7, name);
            let ours = bytes::lowered(name) == bytes::lowered(character);
            let id = word(plain, 340);
            let seeded = p99::spawn_seeded(zone.codec, plain);
            &&& acts.len() == 0
            &&& zone.saw_spawn ==> next == zone && fault is None && read == body
            &&& !zone.saw_spawn ==> read == plain
            &&& !zone.saw_spawn && plain.len() != 385 ==> next == zone && fault == Some(
                Fault::Refused(Refusal::Spawn),
            )
            &&& !zone.saw_spawn && named && !ours ==> next == zone && fault == Some(
                Fault::Refused(Refusal::Spawn),
            )
            &&& !zone.saw_spawn && named && ours ==> seeded is Ok
            &&& !zone.saw_spawn && named && ours && id > 65535 ==> fault == Some(
                Fault::Refused(Refusal::SpawnId),
            ) && next == (ZoneState { codec: seeded->Ok_0, ..zone })
            &&& !zone.saw_spawn && named && ours && id <= 65535 ==> {
                &&& fault is None
                &&& next == (ZoneState {
                    codec: seeded->Ok_0,
                    stationary: next.stationary,
                    saw_spawn: true,
                    ..zone
                })
                &&& next.stationary.len() == 36
                &&& next.stationary[0] + 256 * next.stationary[1] == id
                &&& 2 <= i < 36 ==> next.stationary[i] == zone.stationary[i]
            }
        }),
{
    let plain = p99::session_mixed(body, context.credentials@.key);
    if plain.len() == 385 && stands_at(plain, 7, name) {
        let field = plain.subrange(7, 71);
        assert forall|k: int| 0 <= k < name.len() implies field[k] != 0 by {
            assert(name[k] == plain.subrange(7, 7int + name.len())[k]);
        }
        bytes::lemma_until_unique(field, 0, name.len() as int);
        assert(field.take(name.len() as int) =~= name);
        assert(bytes::until_nul(field) == name);
    }
    let id = bytes::le16(bytes::le32_at(plain, 340) as u16);
    lemma_put(zone.stationary, 0, id);
    let after = super::put(zone.stationary, 0, id);
    assert(after[0] == id[0] && after[1] == id[1]);
}

/// The description names the zone, in a field of 32 bytes, and is answered with the
/// requests of admission, until we are ready.
pub proof fn law_descriptions_name_the_zone(
    zone: ZoneState,
    context: ZoneContext,
    body: Seq<u8>,
    heading: u16,
    name: Seq<u8>,
)
    requires
        name.len() < 32,
        forall|k: int| 0 <= k < name.len() ==> name[k] != 0,
    ensures
        ({
            let (next, acts, fault, read) = zone.handled(context, 0x0920, body, heading);
            let named = body.len() >= 96 && stands_at(body, 64, name);
            let zeros = seq![0u8, 0, 0, 0];
            &&& read == body
            &&& zone.ready ==> next == zone && acts.len() == 0 && fault is None
            &&& !zone.ready && body.len() < 96 ==> next == zone && acts.len() == 0 && fault == Some(
                Fault::Refused(Refusal::ZoneDescription),
            )
            &&& !zone.ready && named ==> {
                &&& fault is None
                &&& next == (ZoneState {
                    zone_name: outside::lossy(name),
                    got_zone: true,
                    ..zone
                })
                &&& acts == seq![
                    Act::Notify(NoticeState::Zone(outside::lossy(name))),
                    Act::Notify(
                        NoticeState::Status {
                            state: ConnectionState::Zoning,
                            packets: zone.packets,
                            last_received_seconds: Some(context.last_received_seconds),
                        },
                    ),
                    Act::Send(0x067a, zeros),
                    Act::Send(0x5e3a, zeros),
                    Act::Send(0x7752, zeros),
                    Act::Send(0x0322, Seq::empty()),
                ]
            }
        }),
{
    assert(bytes::le32(0) =~= seq![0u8, 0, 0, 0]);
    if body.len() >= 96 && stands_at(body, 64, name) {
        let field = body.subrange(64, 96);
        assert forall|k: int| 0 <= k < name.len() implies field[k] != 0 by {
            assert(name[k] == body.subrange(64, 64int + name.len())[k]);
        }
        bytes::lemma_until_unique(field, 0, name.len() as int);
        assert(field.take(name.len() as int) =~= name);
        assert(bytes::until_nul(field) == name);
    }
}

/// The first update of experience after the description is answered in kind, and the
/// second one completes admission: we ask for our chat categories and are ready. No
/// other one is answered.
pub proof fn law_experience_completes_admission(
    zone: ZoneState,
    context: ZoneContext,
    body: Seq<u8>,
    heading: u16,
)
    ensures
        ({
            let (next, acts, fault, read) = zone.handled(context, 0x0587, body, heading);
            let waits = zone.got_zone && !zone.ready;
            &&& fault is None && read == body
            &&& !waits ==> next == zone && acts.len() == 0
            &&& waits && !zone.replied_experience ==> {
                &&& next == (ZoneState { replied_experience: true, ..zone })
                &&& acts == seq![Act::Send(0x0587, Seq::empty())]
            }
            &&& waits && zone.replied_experience ==> {
                &&& next == (ZoneState { ready: true, ..zone })
                &&& acts == seq![
                    Act::Send(0x6563, context.filters@),
                    Act::Send(0x5e20, Seq::empty()),
                    Act::Send(0x0c11, seq![1u8, 0, 0, 0]),
                    Act::Notify(NoticeState::Progress(ConnectionStage::Ready)),
                    Act::Notify(
                        NoticeState::Status {
                            state: ConnectionState::Connected,
                            packets: zone.packets,
                            last_received_seconds: Some(context.last_received_seconds),
                        },
                    ),
                    Act::Notify(
                        NoticeState::Diagnostic(
                            "Zone login sequence complete for "@ + zone.zone_name
                                + "; waiting for ongoing server traffic"@,
                        ),
                    ),
                ]
            }
        }),
{
    assert(bytes::le32(1) =~= seq![1u8, 0, 0, 0]);
}

/// A zone that rejects us, logs us out or hands us on ends the session, and other
/// packets change nothing.
pub proof fn law_zones_end(
    zone: ZoneState,
    context: ZoneContext,
    opcode: u16,
    body: Seq<u8>,
    heading: u16,
)
    requires
        opcode != 0x75df && opcode != 0x254d && opcode != 0x7213 && opcode != 0x0920 && opcode
            != 0x0587,
    ensures
        zone.handled(context, opcode, body, heading) == (
            zone,
            Seq::<Act>::empty(),
            if opcode == 0x1252 {
                Some(Fault::Refused(Refusal::ZoneRejected))
            } else if opcode == 0x3cdc {
                Some(Fault::Refused(Refusal::LoggedOut))
            } else if opcode == 0x61b6 {
                Some(Fault::Refused(Refusal::NewZone))
            } else {
                None
            },
            body,
        ),
{
}

/// Once spawn, profile and weather were seen, we ask to enter, once: with the checksums
/// of the files under the digest of the spawn, and three more requests.
pub proof fn law_entry_is_asked_for_once(zone: ZoneState)
    ensures
        ({
            let (next, acts, fault) = zone.requesting();
            let due = zone.saw_spawn && zone.saw_profile && zone.saw_weather && !zone.requested;
            let sealed = p99::response_encoded(zone.codec, zone.checksums);
            &&& !due ==> next == zone && acts.len() == 0 && fault is None
            &&& due && sealed is Err ==> next == zone && acts.len() == 0 && fault == Some(
                Fault::Codec(sealed->Err_0),
            )
            &&& due && sealed is Ok ==> {
                &&& fault is None
                &&& next == (ZoneState { checksums: sealed->Ok_0, requested: true, ..zone })
                &&& acts == seq![
                    Act::Send(0x1251, sealed->Ok_0),
                    Act::Send(0x7ac5, Seq::empty()),
                    Act::Send(0x367d, Seq::empty()),
                    Act::Send(0x5966, Seq::empty()),
                    Act::Notify(NoticeState::Progress(ConnectionStage::EnteringWorld)),
                ]
            }
        }),
{
}

/// A packet of the zone is counted and told of until we are ready; then it is taken, the
/// entry is asked for where it is due, and what it communicates is recorded, in this
/// order. An error leaves out what follows it.
pub proof fn law_zone_packets_are_taken_in_order(
    zone: ZoneState,
    context: ZoneContext,
    opcode: u16,
    body: Seq<u8>,
    heading: u16,
    found: ChatOutcomeState,
)
    ensures
        ({
            let (next, acts, fault) = zone.received(context, opcode, body, heading, found);
            let counted = ZoneState {
                packets: ((zone.packets + 1) % 0x1_0000_0000_0000_0000) as u64,
                ..zone
            };
            let told = if zone.ready {
                Seq::empty()
            } else {
                seq![
                    Act::Notify(
                        NoticeState::Diagnostic(
                            received_text("Zone received 0x"@, opcode, body.len()),
                        ),
                    ),
                ]
            };
            let (taken, answers, first, read) = counted.handled(context, opcode, body, heading);
            let (asked, requests, second) = taken.requesting();
            &&& first is Some ==> (next, acts, fault) == (taken, told + answers, first)
            &&& first is None && second is Some ==> (next, acts, fault) == (
                asked,
                told + answers + requests,
                second,
            )
            &&& first is None && second is None ==> (next, acts, fault) == (
                asked,
                told + answers + requests + super::chat_record(
                    asked.zone_name,
                    found,
                    opcode,
                    read,
                ),
                None::<Fault>,
            )
        }),
{
    assert(zone.packets.wrapping_add(1) == (zone.packets + 1) % 0x1_0000_0000_0000_0000);
}

} // verus!

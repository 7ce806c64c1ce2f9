//! What holds of settings and of the Titanium/P99-V62 sequences as a whole.

use super::session::{
    self, AidState, ChatOutcomeState, CredentialState, End, LoginState, WorldContext,
    WorldDoneState, WorldState, ZoneContext, ZoneState,
};
use super::step::{Act, Fault, NoticeState};
use super::{
    ClientConfig, ClientIdentity, ConnectionStage, ConnectionState, LoginError, RecordEventState,
    ServerProtocol,
};
use crate::assets::FileChecksum;
use crate::bytes;
use crate::chat::{self, ChannelNumber};
use crate::outside;
use crate::p99::{self, CodecState};
use crate::text;
use vstd::prelude::*;

verus! {

/// A validation response read with its session key holds the metadata that it
/// was built from.
pub proof fn law_validation_response_reads_back(
    spells: FileChecksum,
    hostname: Seq<u8>,
    username: Seq<u8>,
    ip: Option<[u8; 4]>,
    key: Seq<u8>,
)
    requires
        session::crc1_response(Some(spells), hostname, username, ip, key) is Ok,
    ensures
        ({
            let response = session::crc1_response(Some(spells), hostname, username, ip, key)->Ok_0;
            &&& response.len() == 2056
            &&& p99::session_mixed(response.take(2048), key) + response.skip(2048)
                == session::crc1_plain(spells, hostname, username, ip)
        }),
{
    let response = session::crc1_response(Some(spells), hostname, username, ip, key)->Ok_0;
    let plain = session::crc1_plain(spells, hostname, username, ip);
    assert(plain.len() == 2056);
    assert(response.take(2048) =~= p99::session_mixed(plain.take(2048), key));
    assert(response.skip(2048) =~= plain.skip(2048));
    p99::law_session_xor_undoes_itself(plain.take(2048), key);
    assert(plain.take(2048) + plain.skip(2048) =~= plain);
}

/// A response with the signature of a rejected password ends the login with
/// rejected credentials, and nothing more is asked of the server.
pub proof fn law_rejected_password_ends_the_login(
    login: LoginState,
    server: Seq<u8>,
    body: Seq<u8>,
    aid: AidState,
)
    requires
        aid.bad_password,
    ensures
        login.received(server, 0x17, body, aid) == (
            login,
            Seq::<Act>::empty(),
            End::<(CredentialState, Seq<char>)>::Fail(
                Fault::Login(LoginError::InvalidCredentials),
            ),
        ),
{
}

/// A login is only finished with credentials that were accepted and a server
/// that was selected, after the session is closed.
pub proof fn law_login_finishes_with_credentials(
    login: LoginState,
    server: Seq<u8>,
    opcode: u16,
    body: Seq<u8>,
    aid: AidState,
)
    ensures
        ({
            let (next, acts, end) = login.received(server, opcode, body, aid);
            end matches End::Done((credentials, ip)) ==> {
                &&& login.credentials == Some(credentials)
                &&& login.selected == Some(ip)
                &&& acts.contains(Act::Close)
            }
        }),
{
    let (next, acts, end) = login.received(server, opcode, body, aid);
    if end is Done {
        assert(acts[0] == Act::Close);
    }
}

/// Account and password go out at most once in a login.
pub proof fn law_credentials_are_sent_once(
    login: LoginState,
    server: Seq<u8>,
    opcode: u16,
    body: Seq<u8>,
    aid: AidState,
)
    ensures
        ({
            let (next, acts, end) = login.received(server, opcode, body, aid);
            &&& login.sent_credentials ==> next.sent_credentials
            &&& (exists|i: int|
                0 <= i < acts.len() && (#[trigger] acts[i] matches Act::Send(sent, _) && sent
                    == 2)) ==> !login.sent_credentials && next.sent_credentials
        }),
{
}

/// The world is entered only after validation was accepted, and a zone is
/// followed only after the world was entered.
pub proof fn law_world_entry_needs_validation(
    world: WorldState,
    context: WorldContext,
    nonce: u64,
    opcode: u16,
    body: Seq<u8>,
    chat: ChatOutcomeState,
)
    requires
        world.entered ==> world.accepted,
    ensures
        ({
            let (next, acts, end) = world.received(context, nonce, opcode, body, chat);
            &&& next.entered ==> next.accepted
            &&& world.entered ==> next.entered
            &&& end matches End::Done(WorldDoneState::Zone { .. }) ==> world.entered
            &&& end matches End::Done(WorldDoneState::Validated) ==> next.accepted
                && context.world_only
        }),
{
}

/// A malformed communication in the world is recorded first, with its opcode, its
/// bytes and the reason, and changes nothing else: the sequence goes on as with
/// any other packet of that opcode.
proof fn lemma_recorded_in_the_world(
    world: WorldState,
    context: WorldContext,
    nonce: u64,
    opcode: u16,
    body: Seq<u8>,
    message: Seq<char>,
)
    ensures
        ({
            let chat = ChatOutcomeState::Error(message);
            let error = RecordEventState::DecodeError(opcode, outside::hex_of(body), message);
            let (next, acts, end) = world.received(context, nonce, opcode, body, chat);
            let (plain, others, same) = world.received(
                context,
                nonce,
                opcode,
                body,
                ChatOutcomeState::Nothing,
            );
            let record = Act::Notify(NoticeState::Record { zone: Seq::empty(), event: error });
            &&& acts == seq![record] + others
            &&& next == plain
            &&& end == same
        }),
{
    let chat = ChatOutcomeState::Error(message);
    let quiet = ChatOutcomeState::Nothing;
    let acts = world.received(context, nonce, opcode, body, chat).1;
    let others = world.received(context, nonce, opcode, body, quiet).1;
    let record = session::chat_record(Seq::empty(), chat, opcode, body);
    assert(session::world_greeting(chat, opcode, body) =~= record + session::world_greeting(
        quiet,
        opcode,
        body,
    ));
    assert(acts =~= record + others);
}

/// Whether a zone session has asked to enter the world as soon as it could.
pub open spec fn prompt(zone: ZoneState) -> bool {
    zone.saw_spawn && zone.saw_profile && zone.saw_weather ==> zone.requested
}

/// A zone session asks to enter the world with the very packet that completes
/// what it waits for, and so at every moment has asked as soon as it could.
pub proof fn law_zone_asks_at_once(
    zone: ZoneState,
    context: ZoneContext,
    opcode: u16,
    body: Seq<u8>,
    heading: u16,
    chat: ChatOutcomeState,
    cancelled: bool,
    duration: Option<u64>,
    last_received_seconds: u64,
    now: u64,
    codec: CodecState,
    checksums: Seq<u8>,
)
    ensures
        prompt(ZoneState::entered(codec, checksums, now)),
        zone.received(context, opcode, body, heading, chat).2 is None ==> prompt(
            zone.received(context, opcode, body, heading, chat).0,
        ),
        prompt(zone) ==> prompt(zone.ticked(cancelled, duration, last_received_seconds, now).0),
{
}

/// Whatever the decoder makes of a packet, a channel message that is too short is
/// always recorded with its own bytes and the reason, in the world and in a zone,
/// and nothing else comes of it: no session fails over it.
pub proof fn law_malformed_communications_are_recorded(
    world: WorldState,
    context: WorldContext,
    nonce: u64,
    zone: ZoneState,
    place: ZoneContext,
    heading: u16,
    body: Seq<u8>,
    include_raw: bool,
    channels: Seq<ChannelNumber>,
)
    requires
        body.len() < 148,
        prompt(zone),
    ensures
        ({
            let opcode = chat::CHANNEL_MESSAGE;
            let found = session::decoded_chat(opcode, body, include_raw, channels);
            let error = RecordEventState::DecodeError(
                opcode,
                outside::hex_of(body),
                "truncated channel message"@,
            );
            let (next, acts, end) = world.received(context, nonce, opcode, body, found);
            &&& next == world
            &&& end is Continue
            &&& acts.len() > 0
            &&& acts[0] == Act::Notify(NoticeState::Record { zone: Seq::empty(), event: error })
        }),
        ({
            let opcode = chat::CHANNEL_MESSAGE;
            let found = session::decoded_chat(opcode, body, include_raw, channels);
            let error = RecordEventState::DecodeError(
                opcode,
                outside::hex_of(body),
                "truncated channel message"@,
            );
            let (next, acts, fault) = zone.received(place, opcode, body, heading, found);
            &&& next == (ZoneState { packets: zone.packets.wrapping_add(1), ..zone })
            &&& fault is None
            &&& acts.len() > 0
            &&& acts.last() == Act::Notify(
                NoticeState::Record { zone: zone.zone_name, event: error },
            )
        }),
{
    lemma_recorded_in_the_world(
        world,
        context,
        nonce,
        chat::CHANNEL_MESSAGE,
        body,
        "truncated channel message"@,
    );
}

/// A channel message that is long enough is recorded as the decoder reads it, in
/// the world and in a zone.
pub proof fn law_communications_are_recorded(
    world: WorldState,
    context: WorldContext,
    nonce: u64,
    zone: ZoneState,
    place: ZoneContext,
    heading: u16,
    body: Seq<u8>,
    include_raw: bool,
    channels: Seq<ChannelNumber>,
)
    requires
        body.len() >= 148,
        prompt(zone),
    ensures
        ({
            let opcode = chat::CHANNEL_MESSAGE;
            let found = session::decoded_chat(opcode, body, include_raw, channels);
            let event = RecordEventState::Chat(chat::channel_message(body, include_raw, channels));
            let (next, acts, end) = world.received(context, nonce, opcode, body, found);
            &&& next == world
            &&& end is Continue
            &&& acts.len() > 0
            &&& acts[0] == Act::Notify(NoticeState::Record { zone: Seq::empty(), event })
        }),
        ({
            let opcode = chat::CHANNEL_MESSAGE;
            let found = session::decoded_chat(opcode, body, include_raw, channels);
            let event = RecordEventState::Chat(chat::channel_message(body, include_raw, channels));
            let (next, acts, fault) = zone.received(place, opcode, body, heading, found);
            &&& fault is None
            &&& acts.len() > 0
            &&& acts.last() == Act::Notify(NoticeState::Record { zone: zone.zone_name, event })
        }),
{
}

/// Whether a position heartbeat shows no motion: velocity and animation are zero.
pub open spec fn motionless(stationary: Seq<u8>) -> bool {
    &&& stationary.len() == 36
    &&& forall|i: int| 8 <= i < 24 ==> #[trigger] stationary[i] == 0
    &&& forall|i: int| 34 <= i < 36 ==> #[trigger] stationary[i] == 0
}

/// Writing outside velocity and animation gives no motion.
proof fn lemma_put(stationary: Seq<u8>, at: int, part: Seq<u8>)
    requires
        motionless(stationary),
        0 <= at && at + part.len() <= 8 || 24 <= at && at + part.len() <= 34,
    ensures
        motionless(session::put(stationary, at, part)),
        forall|i: int|
            0 <= i < 36 && !(at <= i < at + part.len()) ==> #[trigger] session::put(
                stationary,
                at,
                part,
            )[i] == stationary[i],
{
}

/// A player profile gives no motion.
proof fn lemma_profile(zone: ZoneState, body: Seq<u8>, heading: u16)
    requires
        motionless(zone.stationary),
    ensures
        motionless(zone.profiled(body, heading).0.stationary),
{
    if body.len() == 19592 {
        let x = session::put(zone.stationary, 4, body.subrange(13120, 13124));
        lemma_put(zone.stationary, 4, body.subrange(13120, 13124));
        let y = session::put(x, 24, body.subrange(13116, 13120));
        lemma_put(x, 24, body.subrange(13116, 13120));
        let z = session::put(y, 28, body.subrange(13124, 13128));
        lemma_put(y, 28, body.subrange(13124, 13128));
        lemma_put(z, 32, bytes::le16((heading % 4096) as u16));
    }
}

/// A player spawn gives no motion.
proof fn lemma_spawn(zone: ZoneState, character: Seq<u8>, body: Seq<u8>)
    requires
        motionless(zone.stationary),
    ensures
        motionless(zone.spawned(character, body).0.stationary),
        forall|i: int|
            2 <= i < 36 ==> #[trigger] zone.spawned(character, body).0.stationary[i]
                == zone.stationary[i],
{
    lemma_put(zone.stationary, 0, bytes::le16(bytes::le32_at(body, 340) as u16));
}

/// The character is kept at its saved position. A zone session begins without
/// motion and no step gives it any; only a player profile, which holds the saved
/// position, changes where it stands and where it looks. A heartbeat is the
/// position as it stands, and changes nothing in it but the sequence number.
pub proof fn law_character_stays_put(
    zone: ZoneState,
    context: ZoneContext,
    opcode: u16,
    body: Seq<u8>,
    heading: u16,
    chat: ChatOutcomeState,
    cancelled: bool,
    duration: Option<u64>,
    last_received_seconds: u64,
    now: u64,
    codec: CodecState,
    checksums: Seq<u8>,
)
    requires
        motionless(zone.stationary),
    ensures
        motionless(ZoneState::entered(codec, checksums, now).stationary),
        motionless(zone.received(context, opcode, body, heading, chat).0.stationary),
        session::ZoneOpcode::of(opcode) != session::ZoneOpcode::PlayerProfile ==> forall|i: int|
            4 <= i < 8 || 24 <= i < 34 ==> #[trigger] zone.received(
                context,
                opcode,
                body,
                heading,
                chat,
            ).0.stationary[i] == zone.stationary[i],
        ({
            let (next, acts, end) = zone.ticked(cancelled, duration, last_received_seconds, now);
            &&& motionless(next.stationary)
            &&& forall|i: int|
                0 <= i < 36 && i != 2 && i != 3 ==> #[trigger] next.stationary[i]
                    == zone.stationary[i]
            &&& forall|i: int|
                0 <= i < acts.len() ==> (#[trigger] acts[i] matches Act::SendUnreliable(sent, data)
                    ==> sent == 0x14cb && data == next.stationary)
        }),
{
    lemma_put(zone.stationary, 2, bytes::le16(zone.position_sequence));
    let counted = ZoneState { packets: zone.packets.wrapping_add(1), ..zone };
    lemma_profile(counted, body, heading);
    lemma_spawn(
        counted,
        text::utf8(context.config.character@),
        p99::session_mixed(body, context.credentials@.key),
    );
}

/// The opcodes that a zone session sends.
pub open spec fn admission_opcode(opcode: u16) -> bool {
    ||| opcode == 0x7752
    ||| opcode == 0x7213
    ||| opcode == 0x067a
    ||| opcode == 0x5e3a
    ||| opcode == 0x0322
    ||| opcode == 0x0587
    ||| opcode == 0x6563
    ||| opcode == 0x5e20
    ||| opcode == 0x0c11
    ||| opcode == 0x1251
    ||| opcode == 0x7ac5
    ||| opcode == 0x367d
    ||| opcode == 0x5966
}

/// A zone session sends nothing but the packets of admission and the position
/// heartbeat: no chat and no other gameplay.
pub proof fn law_zone_sends_only_admission(
    zone: ZoneState,
    context: ZoneContext,
    opcode: u16,
    body: Seq<u8>,
    heading: u16,
    chat: ChatOutcomeState,
    cancelled: bool,
    duration: Option<u64>,
    last_received_seconds: u64,
    now: u64,
)
    ensures
        ({
            let acts = zone.received(context, opcode, body, heading, chat).1;
            forall|i: int|
                0 <= i < acts.len() ==> (match #[trigger] acts[i] {
                    Act::Send(sent, _) => admission_opcode(sent),
                    Act::Notify(_) => true,
                    _ => false,
                })
        }),
        ({
            let acts = zone.ticked(cancelled, duration, last_received_seconds, now).1;
            forall|i: int|
                0 <= i < acts.len() ==> (match #[trigger] acts[i] {
                    Act::SendUnreliable(sent, _) => sent == 0x14cb,
                    Act::Send(_, _) | Act::SendEncrypted(_, _) => false,
                    Act::Notify(_) | Act::Close => true,
                })
        }),
        !admission_opcode(0x1004),
{
}

/// A zone is entered once: a ready session stays ready, reports readiness only
/// in the step that brings it, and sends its checksums at most once.
pub proof fn law_zone_is_entered_once(
    zone: ZoneState,
    context: ZoneContext,
    opcode: u16,
    body: Seq<u8>,
    heading: u16,
    chat: ChatOutcomeState,
)
    ensures
        ({
            let (next, acts, error) = zone.received(context, opcode, body, heading, chat);
            &&& zone.ready ==> next.ready
            &&& zone.requested ==> next.requested
            &&& forall|i: int|
                0 <= i < acts.len() ==> (#[trigger] acts[i] == session::progressed(
                    ConnectionStage::Ready,
                ) ==> !zone.ready && next.ready)
            &&& forall|i: int|
                0 <= i < acts.len() ==> (#[trigger] acts[i] matches Act::Send(sent, _) && sent
                    == 0x1251 ==> !zone.requested && next.requested && next.saw_spawn
                    && next.saw_profile && next.saw_weather)
        }),
{
}

/// Settings that pass validation fit the fields they are sent in, so that no
/// stage fails over their size.
pub proof fn law_valid_settings_fit_their_fields(config: ClientConfig, identity: ClientIdentity)
    requires
        config.fault() is None,
        super::identity_field(identity.hostname@),
        super::identity_field(identity.username@),
    ensures
        bytes::fits_field(text::utf8(config.character@), 64),
        config.protocol == ServerProtocol::Quarm ==> bytes::fits_field(
            text::utf8(config.user@),
            20,
        ) && bytes::fits_field(text::utf8(config.pass@), 20),
        bytes::fits_field(text::utf8(identity.hostname@), 16),
        bytes::fits_field(text::utf8(identity.username@), 16),
{
}

/// Whether an act reports a connection.
pub open spec fn reports_connection(act: Act) -> bool {
    act matches Act::Notify(NoticeState::Status { state, .. }) && state
        == ConnectionState::Connected
}

/// A session is reported as connected only once zone entry is complete.
pub proof fn law_connected_means_zone_entry(
    zone: ZoneState,
    context: ZoneContext,
    opcode: u16,
    body: Seq<u8>,
    heading: u16,
    chat: ChatOutcomeState,
    cancelled: bool,
    duration: Option<u64>,
    last_received_seconds: u64,
    now: u64,
)
    ensures
        ({
            let (next, acts, error) = zone.received(context, opcode, body, heading, chat);
            forall|i: int|
                0 <= i < acts.len() && reports_connection(#[trigger] acts[i]) ==> next.ready
        }),
        ({
            let (next, acts, end) = zone.ticked(cancelled, duration, last_received_seconds, now);
            forall|i: int|
                0 <= i < acts.len() && reports_connection(#[trigger] acts[i]) ==> next.ready
                    && last_received_seconds < 60
        }),
{
}

} // verus!

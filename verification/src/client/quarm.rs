//! Login, world and zone sequences of the TAKP/EQMac protocol, as Project Quarm
//! speaks it.
//!
//! Each stage takes the application packets of its session and answers with
//! actions for the host, which does the enciphering and the chat decoding.

use super::session::{self, ChatOutcome, ChatOutcomeState, End};
use super::step::{self, Act, Actions, Fault, NoticeState, Outcome, Refusal, SessionError};
use super::{ClientConfig, ConnectionStage, ConnectionState};
use crate::bytes;
use crate::outside;
use crate::text;
use crate::transport::model;
use crate::transport::{later, since, Application};
use vstd::prelude::*;
use vstd::string::StringExecFns;

pub mod laws;

verus! {

pub const LOGIN_SESSION_READY: u16 = 0x5900;

pub const LOGIN_PC: u16 = 0x0100;

pub const LOGIN_ERROR: u16 = 0x0200;

pub const LOGIN_ACCEPTED: u16 = 0x0400;

pub const LOGIN_SERVER_LIST: u16 = 0x4600;

pub const LOGIN_PLAY: u16 = 0x4700;

pub const LOGIN_COMPLETE: u16 = 0x8800;

pub const WORLD_LOGIN: u16 = 0x5818;

pub const WORLD_CHARACTER_LIST: u16 = 0x4740;

pub const WORLD_ENTER: u16 = 0x0180;

pub const WORLD_ZONE_SERVER: u16 = 0x0480;

pub const ZONE_DATA_RATE: u16 = 0xe841;

pub const ZONE_ENTRY: u16 = 0x2840;

pub const ZONE_PLAYER_PROFILE: u16 = 0x3640;

pub const ZONE_WEATHER: u16 = 0x3641;

pub const ZONE_REQUEST_NEW: u16 = 0x5d40;

pub const ZONE_NEW: u16 = 0x5b40;

pub const ZONE_REQUEST_SPAWNS: u16 = 0x0a40;

pub const ZONE_EXPERIENCE_READY: u16 = 0xd840;

pub const ZONE_AVATAR_READY: u16 = 0x6f40;

pub const ZONE_SERVER_FILTER: u16 = 0xff41;

pub const ZONE_CLIENT_UPDATE: u16 = 0xf340;

pub const ZONE_CHANNEL_MESSAGE: u16 = 0x0741;

pub const ZONE_SPAWN_APPEARANCE: u16 = 0xf540;

pub const ZONE_LOGOUT: u16 = 0x5041;

pub const ZONE_CHANGE_REQUEST: u16 = 0x4d41;

/// The version that the Quarm DLL advertises.
pub const DLL_VERSION: u16 = 7;

/// The appearance type of messages between DLL and server.
pub const DLL_MESSAGE_TYPE: u16 = 256;

/// The feature by which the DLL version is negotiated.
pub const DLL_VERSION_FEATURE: u16 = 4;

/// The account session and key that the login server hands out.
#[derive(Debug)]
pub struct Credentials {
    pub account: String,
    pub key: [u8; 10],
}

/// A server of the server list.
#[derive(Debug)]
pub struct ServerEntry {
    pub name: String,
    pub ip: String,
}

/// The meaning of a `ServerEntry`.
#[verifier::ext_equal]
pub struct ServerState {
    pub name: Seq<char>,
    pub ip: Seq<char>,
}

impl View for ServerEntry {
    type V = ServerState;

    open spec fn view(&self) -> ServerState {
        ServerState { name: self.name@, ip: self.ip@ }
    }
}

pub open spec fn server_states(servers: Seq<ServerEntry>) -> Seq<ServerState> {
    servers.map_values(|s: ServerEntry| s@)
}

/// The login fields before they are enciphered: account and password in twenty
/// bytes each.
pub open spec fn fields(user: Seq<u8>, pass: Seq<u8>) -> Seq<u8> {
    session::padded(user, 20) + session::padded(pass, 20)
}

/// Lay out the account and password for enciphering.
pub fn login_fields(config: &ClientConfig) -> (r: Result<Vec<u8>, SessionError>)
    ensures
        ({
            let user = text::utf8(config.user@);
            let pass = text::utf8(config.pass@);
            let fit = bytes::fits_field(user, 20) && bytes::fits_field(pass, 20);
            match r {
                Ok(clear) => fit && clear@ == fields(user, pass),
                Err(e) => !fit && e@ == Fault::Refused(Refusal::FieldSize),
            }
        }),
{
    let mut clear: Vec<u8> = Vec::new();
    if let Err(e) = session::push_field(&mut clear, &config.user, 20) {
        return Err(e);
    }
    if let Err(e) = session::push_field(&mut clear, &config.pass, 20) {
        return Err(e);
    }
    assert(clear@ =~= fields(text::utf8(config.user@), text::utf8(config.pass@)));
    Ok(clear)
}

/// The account session in an accepted login, by its bytes.
pub open spec fn account_in(body: Seq<u8>) -> Result<Seq<u8>, Refusal> {
    let account = bytes::until_nul(body.take(10));
    if body.len() < 21 {
        Err(Refusal::LegacyLogin)
    } else if !vstd::utf8::valid_utf8(account) {
        Err(Refusal::LegacyAccountEncoding)
    } else if !(account.len() > 3 && account.take(3) == seq![0x4cu8, 0x53u8, 0x23u8]) {
        Err(Refusal::LegacyAccount)
    } else {
        Ok(account)
    }
}

/// Read the account session of an accepted login, which begins with `LS#`.
pub fn login_account(body: &[u8]) -> (r: Result<String, SessionError>)
    ensures
        match (account_in(body@), r) {
            (Ok(account), Ok(found)) => text::utf8(found@) == account,
            (Err(refusal), Err(e)) => e@ == Fault::Refused(refusal),
            _ => false,
        },
{
    if body.len() < 21 {
        return Err(SessionError::Refused(Refusal::LegacyLogin));
    }
    assert(body@.subrange(0, 10) =~= body@.take(10));
    let data = bytes::cstr(&body[0..10]);
    let account = match outside::text_from_utf8(vstd::slice::slice_to_vec(data)) {
        Some(account) => account,
        None => {
            return Err(SessionError::Refused(Refusal::LegacyAccountEncoding));
        },
    };
    if data.len() <= 3 || data[0] != 0x4c || data[1] != 0x53 || data[2] != 0x23 {
        proof {
            if data@.len() > 3 {
                assert(data@.take(3)[0] == data@[0]);
                assert(data@.take(3)[1] == data@[1]);
                assert(data@.take(3)[2] == data@[2]);
            }
        }
        return Err(SessionError::Refused(Refusal::LegacyAccount));
    }
    assert(data@.take(3) =~= seq![0x4cu8, 0x53u8, 0x23u8]);
    Ok(account)
}

/// A NUL-terminated string in a packet, and where the next thing begins.
pub open spec fn string_at(body: Seq<u8>, position: int) -> Result<(Seq<char>, int), Refusal> {
    let found = bytes::until_nul(body.skip(position));
    if position > body.len() {
        Err(Refusal::LegacyString)
    } else if found.len() == body.len() - position {
        Err(Refusal::LegacyStringEnd)
    } else {
        Ok((outside::lossy(found), position + found.len() + 1))
    }
}

/// Read a NUL-terminated string and move behind it.
pub fn take_string(body: &[u8], position: &mut usize) -> (r: Result<String, SessionError>)
    ensures
        match (string_at(body@, *old(position) as int), r) {
            (Ok((found, next)), Ok(result)) => {
                &&& result@ == found
                &&& text::keeps(bytes::until_nul(body@.skip(*old(position) as int)), result@)
                &&& *final(position) == next
                &&& next <= body@.len()
            },
            (Err(refusal), Err(e)) => e@ == Fault::Refused(refusal) && *final(position) == *old(
                position,
            ),
            _ => false,
        },
{
    let start: usize = *position;
    if start > body.len() {
        return Err(SessionError::Refused(Refusal::LegacyString));
    }
    let tail = &body[start..body.len()];
    assert(tail@ =~= body@.skip(start as int));
    let found = bytes::cstr(tail);
    proof {
        bytes::lemma_until(tail@, 0);
    }
    if found.len() == tail.len() {
        return Err(SessionError::Refused(Refusal::LegacyStringEnd));
    }
    *position = start + found.len() + 1;
    Ok(outside::text_lossy(found))
}

/// Some servers of a list, from a position on: name, address and thirteen bytes
/// of flags each.
pub open spec fn servers_at(body: Seq<u8>, position: int, count: nat) -> Result<
    Seq<ServerState>,
    Refusal,
>
    decreases count,
{
    if count == 0 {
        Ok(Seq::empty())
    } else {
        match string_at(body, position) {
            Err(refusal) => Err(refusal),
            Ok((name, next)) => match string_at(body, next) {
                Err(refusal) => Err(refusal),
                Ok((ip, flags)) => if flags + 13 > body.len() {
                    Err(Refusal::LegacyFlags)
                } else {
                    match servers_at(body, flags + 13, (count - 1) as nat) {
                        Err(refusal) => Err(refusal),
                        Ok(rest) => Ok(seq![ServerState { name, ip }] + rest),
                    }
                },
            },
        }
    }
}

/// The servers of a server list.
pub open spec fn servers_in(body: Seq<u8>) -> Result<Seq<ServerState>, Refusal> {
    if body.len() < 5 {
        Err(Refusal::LegacyList)
    } else {
        servers_at(body, 5, bytes::le16_at(body, 0) as nat)
    }
}

/// Whether names and addresses that are UTF-8 come out of a list as they are.
pub open spec fn strings_kept(body: Seq<u8>, position: int, count: nat) -> bool
    decreases count,
{
    count == 0 || match string_at(body, position) {
        Err(_) => true,
        Ok((name, next)) => {
            &&& text::keeps(bytes::until_nul(body.skip(position)), name)
            &&& match string_at(body, next) {
                Err(_) => true,
                Ok((ip, flags)) => {
                    &&& text::keeps(bytes::until_nul(body.skip(next)), ip)
                    &&& strings_kept(body, flags + 13, (count - 1) as nat)
                },
            }
        },
    }
}

/// Read a server list in the old layout. Names and addresses that are UTF-8 come
/// out as they are.
pub fn parse_server_list(body: &[u8]) -> (r: Result<Vec<ServerEntry>, SessionError>)
    ensures
        r is Ok ==> strings_kept(body@, 5, bytes::le16_at(body@, 0) as nat),
        match (servers_in(body@), r) {
            (Ok(servers), Ok(found)) => server_states(found@) == servers,
            (Err(refusal), Err(e)) => e@ == Fault::Refused(refusal),
            _ => false,
        },
{
    if body.len() < 5 {
        return Err(SessionError::Refused(Refusal::LegacyList));
    }
    let count: u16 = bytes::read_le16(body, 0);
    let mut position: usize = 5;
    let mut servers: Vec<ServerEntry> = Vec::new();
    let mut i: u16 = 0;
    let ghost all = servers_at(body@, 5, count as nat);
    assert(all is Ok ==> server_states(servers@) + all->Ok_0 =~= all->Ok_0);
    while i < count
        invariant
            i <= count,
            position <= body@.len(),
            servers_in(body@) == all,
            strings_kept(body@, position as int, (count - i) as nat) ==> strings_kept(
                body@,
                5,
                count as nat,
            ),
            match (all, servers_at(body@, position as int, (count - i) as nat)) {
                (Ok(whole), Ok(rest)) => server_states(servers@) + rest == whole,
                (Err(refusal), Err(left)) => left == refusal,
                _ => false,
            },
        decreases count - i,
    {
        let name = match take_string(body, &mut position) {
            Ok(name) => name,
            Err(e) => {
                return Err(e);
            },
        };
        let ip = match take_string(body, &mut position) {
            Ok(ip) => ip,
            Err(e) => {
                return Err(e);
            },
        };
        if body.len() - position < 13 {
            return Err(SessionError::Refused(Refusal::LegacyFlags));
        }
        position = position + 13;
        let ghost before = server_states(servers@);
        let ghost entry = ServerState { name: name@, ip: ip@ };
        servers.push(ServerEntry { name, ip });
        proof {
            assert(server_states(servers@) =~= before.push(entry));
            let rest = servers_at(body@, position as int, (count - i - 1) as nat);
            if rest is Ok {
                assert(before.push(entry) + rest->Ok_0 =~= before + (seq![entry] + rest->Ok_0));
            }
        }
        i = i + 1;
    }
    assert(server_states(servers@) + Seq::<ServerState>::empty() =~= server_states(servers@));
    Ok(servers)
}

/// The first server with a name, in whatever case.
pub open spec fn server_named(servers: Seq<ServerState>, name: Seq<u8>) -> Option<ServerState>
    decreases servers.len(),
{
    if servers.len() == 0 {
        None
    } else if bytes::lowered(text::utf8(servers[0].name)) == bytes::lowered(name) {
        Some(servers[0])
    } else {
        server_named(servers.skip(1), name)
    }
}

fn find_server(servers: &Vec<ServerEntry>, name: &String) -> (r: Option<String>)
    ensures
        match (server_named(server_states(servers@), text::utf8(name@)), r) {
            (Some(server), Some(ip)) => ip@ == server.ip,
            (None, None) => true,
            _ => false,
        },
{
    let ghost all = server_states(servers@);
    let ghost key = text::utf8(name@);
    let mut i: usize = 0;
    assert(all.skip(0) =~= all);
    while i < servers.len()
        invariant
            i <= servers@.len(),
            all == server_states(servers@),
            key == text::utf8(name@),
            server_named(all, key) == server_named(all.skip(i as int), key),
        decreases servers@.len() - i,
    {
        assert(all.skip(i as int)[0] == all[i as int]);
        assert(all.skip(i as int).skip(1) =~= all.skip(i + 1));
        if bytes::eq_ignore_ascii_case(text::bytes_of(&servers[i].name), text::bytes_of(name)) {
            return Some(servers[i].ip.clone());
        }
        i = i + 1;
    }
    None
}

/// The name in one of the 64-byte fields of a character list.
pub open spec fn listed_name(body: Seq<u8>, i: int) -> Seq<u8> {
    bytes::until_nul(body.subrange(64 * i, 64 * i + 64))
}

/// Whether a character stands in a character list, in whatever case.
pub open spec fn character_listed(body: Seq<u8>, character: Seq<u8>) -> bool {
    exists|i: int|
        0 <= i < 10 && bytes::lowered(#[trigger] listed_name(body, i)) == bytes::lowered(
            character,
        )
}

/// Look for a character in the ten name fields of a character list.
pub fn character_exists(body: &[u8], character: &str) -> (r: Result<bool, SessionError>)
    ensures
        match r {
            Ok(found) => body@.len() >= 640 && found == character_listed(
                body@,
                text::utf8(character@),
            ),
            Err(e) => body@.len() < 640 && e@ == Fault::Refused(Refusal::LegacyCharacters),
        },
{
    if body.len() < 640 {
        return Err(SessionError::Refused(Refusal::LegacyCharacters));
    }
    let mut i: usize = 0;
    while i < 10
        invariant
            i <= 10,
            body@.len() >= 640,
            forall|j: int|
                0 <= j < i ==> bytes::lowered(#[trigger] listed_name(body@, j))
                    != bytes::lowered(text::utf8(character@)),
        decreases 10 - i,
    {
        let name = bytes::cstr(&body[64 * i..64 * i + 64]);
        if bytes::eq_ignore_ascii_case(name, character.as_bytes()) {
            assert(name@ == listed_name(body@, i as int));
            return Ok(true);
        }
        i = i + 1;
    }
    Ok(false)
}

/// The login information of the world server: the account session and, behind a
/// NUL, the session key.
pub open spec fn login_info(account: Seq<u8>, key: Seq<u8>) -> Seq<u8> {
    session::padded(account + seq![0u8] + key, 200)
}

/// What keeps credentials from the login information.
pub open spec fn login_info_fault(account: Seq<u8>) -> Option<Refusal> {
    if !bytes::fits_field(account, 127) {
        Some(Refusal::FieldSize)
    } else if account.len() + 11 > 127 {
        Some(Refusal::LegacyFields)
    } else {
        None
    }
}

/// Build the 200-byte login information of the world server.
pub fn world_login(credentials: &Credentials) -> (r: Result<Vec<u8>, SessionError>)
    ensures
        ({
            let account = text::utf8(credentials.account@);
            match (login_info_fault(account), r) {
                (None, Ok(body)) => body@ == login_info(account, credentials.key@) && body@.len()
                    == 200,
                (Some(refusal), Err(e)) => e@ == Fault::Refused(refusal),
                _ => false,
            }
        }),
{
    let account = text::bytes_of(&credentials.account);
    if account.len() >= 127 || bytes::contains(account, 0) {
        return Err(SessionError::Refused(Refusal::FieldSize));
    }
    if account.len() + 11 > 127 {
        return Err(SessionError::Refused(Refusal::LegacyFields));
    }
    let mut body = vstd::slice::slice_to_vec(account);
    body.push(0);
    body.extend_from_slice(&credentials.key);
    assert(body@ =~= account@ + seq![0u8] + credentials.key@);
    let padding: usize = 200 - body.len();
    body.extend_from_slice(&bytes::zero_bytes(padding));
    assert(body@ =~= login_info(account@, credentials.key@));
    Ok(body)
}

/// The zone endpoint in a handoff: the host by its bytes, and the port, which is
/// in network byte order.
pub open spec fn destination_in(body: Seq<u8>) -> Result<(Seq<u8>, u16), Refusal> {
    let host = bytes::until_nul(body.take(128));
    let port = bytes::be16_at(body, 128);
    if body.len() < 130 {
        Err(Refusal::LegacyHandoff)
    } else if !vstd::utf8::valid_utf8(host) {
        Err(Refusal::HostEncoding)
    } else if host.len() == 0 || port == 0 {
        Err(Refusal::LegacyEndpoint)
    } else {
        Ok((host, port))
    }
}

/// Read the world-to-zone endpoint advertised by an EQMac world server.
pub fn zone_destination(body: &[u8]) -> (r: Result<(String, u16), SessionError>)
    ensures
        match (destination_in(body@), r) {
            (Ok((host, port)), Ok(found)) => text::utf8(found.0@) == host && found.1 == port,
            (Err(refusal), Err(e)) => e@ == Fault::Refused(refusal),
            _ => false,
        },
{
    if body.len() < 130 {
        return Err(SessionError::Refused(Refusal::LegacyHandoff));
    }
    assert(body@.subrange(0, 128) =~= body@.take(128));
    let data = bytes::cstr(&body[0..128]);
    let host = match outside::text_from_utf8(vstd::slice::slice_to_vec(data)) {
        Some(host) => host,
        None => {
            return Err(SessionError::Refused(Refusal::HostEncoding));
        },
    };
    let port = bytes::read_be16(body, 128);
    if data.len() == 0 || port == 0 {
        return Err(SessionError::Refused(Refusal::LegacyEndpoint));
    }
    Ok((host, port))
}

/// The DLL version message: no spawn, the message type, the version, and the
/// feature with the response bit above it.
pub open spec fn version_message(response: bool) -> Seq<u8> {
    bytes::le16(0) + bytes::le16(DLL_MESSAGE_TYPE) + bytes::le16(DLL_VERSION) + bytes::le16(
        if response {
            (0x8000 + DLL_VERSION_FEATURE) as u16
        } else {
            DLL_VERSION_FEATURE
        },
    )
}

/// Encode the DLL version announcement, or a reply with the response bit set.
pub fn dll_version_message(response: bool) -> (body: [u8; 8])
    ensures
        body@ == version_message(response),
{
    let body: [u8; 8] = [
        0,
        0,
        (DLL_MESSAGE_TYPE % 256) as u8,
        (DLL_MESSAGE_TYPE / 256) as u8,
        (DLL_VERSION % 256) as u8,
        (DLL_VERSION / 256) as u8,
        (DLL_VERSION_FEATURE % 256) as u8,
        if response {
            0x80 + (DLL_VERSION_FEATURE / 256) as u8
        } else {
            (DLL_VERSION_FEATURE / 256) as u8
        },
    ];
    assert(body@ =~= version_message(response));
    body
}

/// Whether a message asks for the DLL version. The whole high word has to be
/// the feature, which leaves responses out.
pub open spec fn asks_version(body: Seq<u8>) -> bool {
    &&& body.len() == 8
    &&& bytes::le16_at(body, 0) == 0
    &&& bytes::le16_at(body, 2) == DLL_MESSAGE_TYPE
    &&& bytes::le16_at(body, 6) == DLL_VERSION_FEATURE
}

/// Answer only well-formed DLL version requests, during admission or normal play.
pub fn dll_version_reply(body: &[u8]) -> (reply: Option<[u8; 8]>)
    ensures
        match reply {
            Some(reply) => asks_version(body@) && reply@ == version_message(true),
            None => !asks_version(body@),
        },
{
    if body.len() != 8 {
        return None;
    }
    if bytes::read_le16(body, 0) == 0 && bytes::read_le16(body, 2) == DLL_MESSAGE_TYPE
        && bytes::read_le16(body, 6) == DLL_VERSION_FEATURE {
        Some(dll_version_message(true))
    } else {
        None
    }
}

/// The chat and combat categories to be sent: words five to fourteen of
/// seventeen are one, the others zero.
pub open spec fn filters() -> Seq<u8> {
    Seq::new(
        68,
        |i: int|
            if i % 4 == 0 && 5 <= i / 4 <= 14 {
                1u8
            } else {
                0u8
            },
    )
}

/// Build the server filters.
pub fn server_filters() -> (body: Vec<u8>)
    ensures
        body@ == filters(),
{
    let mut body: Vec<u8> = Vec::new();
    let mut i: usize = 0;
    while i < 68
        invariant
            i <= 68,
            body@ == filters().take(i as int),
        decreases 68 - i,
    {
        if i % 4 == 0 && 5 <= i / 4 && i / 4 <= 14 {
            body.push(1);
        } else {
            body.push(0);
        }
        i = i + 1;
        assert(body@ =~= filters().take(i as int));
    }
    assert(filters().take(68) =~= filters());
    body
}

/// Whether a byte is an ASCII letter or digit.
pub open spec fn alphanumeric(b: u8) -> bool {
    0x30 <= b <= 0x39 || 0x41 <= b <= 0x5a || 0x61 <= b <= 0x7a
}

/// The session key in a play response.
pub open spec fn key_in(body: Seq<u8>) -> Result<Seq<u8>, Refusal> {
    let key = body.subrange(1, 11);
    if body.len() < 11 {
        Err(Refusal::LegacyPlay)
    } else if exists|i: int| 0 <= i < 10 && !alphanumeric(#[trigger] key[i]) {
        Err(Refusal::LegacyKey)
    } else {
        Ok(key)
    }
}

/// Read the session key of a play response.
pub fn session_key(body: &[u8]) -> (r: Result<[u8; 10], SessionError>)
    ensures
        match (key_in(body@), r) {
            (Ok(key), Ok(found)) => found@ == key,
            (Err(refusal), Err(e)) => e@ == Fault::Refused(refusal),
            _ => false,
        },
{
    if body.len() < 11 {
        return Err(SessionError::Refused(Refusal::LegacyPlay));
    }
    let key: [u8; 10] = [
        body[1],
        body[2],
        body[3],
        body[4],
        body[5],
        body[6],
        body[7],
        body[8],
        body[9],
        body[10],
    ];
    assert(key@ =~= body@.subrange(1, 11));
    let mut i: usize = 0;
    while i < 10
        invariant
            i <= 10,
            body@.len() >= 11,
            key@ == body@.subrange(1, 11),
            forall|j: int| 0 <= j < i ==> alphanumeric(key@[j]),
        decreases 10 - i,
    {
        let b: u8 = key[i];
        if !(0x30 <= b && b <= 0x39 || 0x41 <= b && b <= 0x5a || 0x61 <= b && b <= 0x7a) {
            assert(!alphanumeric(body@.subrange(1, 11)[i as int]));
            return Err(SessionError::Refused(Refusal::LegacyKey));
        }
        i = i + 1;
    }
    Ok(key)
}

/// A login in progress.
#[derive(Debug)]
pub struct Login {
    pub account: Option<String>,
    pub selected: Option<String>,
    pub sent_login: bool,
    pub sent_complete: bool,
    pub requested_list: bool,
    pub deadline: u64,
}

/// The meaning of a `Login`.
#[verifier::ext_equal]
pub struct LoginState {
    pub account: Option<Seq<u8>>,
    pub selected: Option<Seq<char>>,
    pub sent_login: bool,
    pub sent_complete: bool,
    pub requested_list: bool,
    pub deadline: u64,
}

impl View for Login {
    type V = LoginState;

    open spec fn view(&self) -> LoginState {
        LoginState {
            account: match self.account {
                Some(account) => Some(text::utf8(account@)),
                None => None,
            },
            selected: match self.selected {
                Some(ip) => Some(ip@),
                None => None,
            },
            sent_login: self.sent_login,
            sent_complete: self.sent_complete,
            requested_list: self.requested_list,
            deadline: self.deadline,
        }
    }
}

/// A finished login: credentials and the address of the world server.
#[derive(Debug)]
pub struct LoginDone {
    pub credentials: Credentials,
    pub ip: String,
}

/// The meaning of a `LoginDone`.
#[verifier::ext_equal]
pub struct LoginDoneState {
    pub account: Seq<u8>,
    pub key: Seq<u8>,
    pub ip: Seq<char>,
}

pub open spec fn login_end(outcome: Outcome<LoginDone>) -> End<LoginDoneState> {
    match outcome {
        Outcome::Continue => End::Continue,
        Outcome::Done(done) => End::Done(
            LoginDoneState {
                account: text::utf8(done.credentials.account@),
                key: done.credentials.key@,
                ip: done.ip@,
            },
        ),
        Outcome::Fail(e) => End::Fail(e@),
    }
}

impl LoginState {
    /// A login that has only said it is ready.
    pub open spec fn begun(deadline: u64) -> LoginState {
        LoginState {
            account: None,
            selected: None,
            sent_login: false,
            sent_complete: false,
            requested_list: false,
            deadline,
        }
    }

    /// A packet of the login server.
    pub open spec fn received(
        self,
        user: Seq<u8>,
        pass: Seq<u8>,
        server: Seq<u8>,
        opcode: u16,
        body: Seq<u8>,
    ) -> (LoginState, Seq<Act>, End<LoginDoneState>) {
        if opcode == LOGIN_SESSION_READY && !self.sent_login {
            self.greeted(user, pass)
        } else if opcode == LOGIN_ACCEPTED && self.account is None {
            self.accepted(body)
        } else if opcode == LOGIN_COMPLETE && self.sent_complete && !self.requested_list {
            (
                LoginState { requested_list: true, ..self },
                seq![
                    session::progressed(ConnectionStage::SelectingServer),
                    Act::Send(LOGIN_SERVER_LIST, Seq::empty()),
                ],
                End::Continue,
            )
        } else if opcode == LOGIN_SERVER_LIST && self.requested_list && self.selected is None {
            self.listed(server, body)
        } else if opcode == LOGIN_PLAY && self.selected is Some {
            self.played(body)
        } else if opcode == LOGIN_ERROR {
            (
                self,
                Seq::empty(),
                End::Fail(
                    if self.account is None {
                        Fault::Login(super::LoginError::InvalidCredentials)
                    } else {
                        Fault::WorldEntry(outside::lossy(bytes::until_nul(body)))
                    },
                ),
            )
        } else {
            (self, Seq::empty(), End::Continue)
        }
    }

    /// The server is ready for the account and password.
    pub open spec fn greeted(self, user: Seq<u8>, pass: Seq<u8>) -> (
        LoginState,
        Seq<Act>,
        End<LoginDoneState>,
    ) {
        let progress = session::progressed(ConnectionStage::Authenticating);
        if !bytes::fits_field(user, 20) || !bytes::fits_field(pass, 20) {
            (self, seq![progress], End::Fail(Fault::Refused(Refusal::FieldSize)))
        } else {
            (
                LoginState { sent_login: true, ..self },
                seq![progress, Act::SendEncrypted(LOGIN_PC, fields(user, pass))],
                End::Continue,
            )
        }
    }

    /// The account is accepted.
    pub open spec fn accepted(self, body: Seq<u8>) -> (
        LoginState,
        Seq<Act>,
        End<LoginDoneState>,
    ) {
        match account_in(body) {
            Err(refusal) => (self, Seq::empty(), End::Fail(Fault::Refused(refusal))),
            Ok(account) => (
                LoginState { account: Some(account), sent_complete: true, ..self },
                seq![
                    Act::Send(LOGIN_COMPLETE, Seq::empty()),
                    session::told("TAKP login server authenticated the account"@),
                ],
                End::Continue,
            ),
        }
    }

    /// The server list has come: the configured server has to be in it.
    pub open spec fn listed(self, server: Seq<u8>, body: Seq<u8>) -> (
        LoginState,
        Seq<Act>,
        End<LoginDoneState>,
    ) {
        match servers_in(body) {
            Err(refusal) => (self, Seq::empty(), End::Fail(Fault::Refused(refusal))),
            Ok(servers) => match server_named(servers, server) {
                None => (
                    self,
                    Seq::empty(),
                    End::Fail(Fault::Refused(Refusal::LegacyServerAbsent)),
                ),
                Some(found) => (
                    LoginState { selected: Some(found.ip), ..self },
                    seq![Act::Send(LOGIN_PLAY, text::utf8(found.ip).push(0u8))],
                    End::Continue,
                ),
            },
        }
    }

    /// The play response brings the session key.
    pub open spec fn played(self, body: Seq<u8>) -> (LoginState, Seq<Act>, End<LoginDoneState>) {
        match key_in(body) {
            Err(refusal) => (self, Seq::empty(), End::Fail(Fault::Refused(refusal))),
            Ok(key) => {
                let acts = seq![
                    Act::Close,
                    session::progressed(ConnectionStage::ConnectingWorld),
                ];
                match self.account {
                    None => (self, acts, End::Fail(Fault::Refused(Refusal::PlayBeforeLogin))),
                    Some(account) => (
                        self,
                        acts,
                        End::Done(LoginDoneState { account, key, ip: self.selected->0 }),
                    ),
                }
            },
        }
    }
}

impl Login {
    /// Begin a login on a new session.
    pub fn start(now: u64) -> (r: (Self, Actions))
        ensures
            r.0@ == LoginState::begun(model::after(now, 45_000_000_000)),
            r.1@ == seq![Act::Send(LOGIN_SESSION_READY, Seq::empty())],
    {
        let mut actions = Actions::new();
        actions.send_empty(LOGIN_SESSION_READY);
        assert(actions@ =~= seq![Act::Send(LOGIN_SESSION_READY, Seq::empty())]);
        let login = Login {
            account: None,
            selected: None,
            sent_login: false,
            sent_complete: false,
            requested_list: false,
            deadline: later(now, 45_000_000_000),
        };
        (login, actions)
    }

    /// Take a packet of the login server.
    pub fn receive(&mut self, config: &ClientConfig, packet: &Application) -> (r: (
        Actions,
        Outcome<LoginDone>,
    ))
        ensures
            old(self)@.received(
                text::utf8(config.user@),
                text::utf8(config.pass@),
                text::utf8(config.server@),
                packet.opcode,
                packet.body@,
            ) == (final(self)@, r.0@, login_end(r.1)),
            packet.opcode == LOGIN_SERVER_LIST && old(self).requested_list && old(self).selected
                is None && servers_in(packet.body@) is Ok ==> strings_kept(
                packet.body@,
                5,
                bytes::le16_at(packet.body@, 0) as nat,
            ),
            r.1 matches Outcome::Fail(SessionError::WorldEntry(message)) ==> text::keeps(
                bytes::until_nul(packet.body@),
                message@,
            ),
    {
        let opcode = packet.opcode;
        if opcode == LOGIN_SESSION_READY && !self.sent_login {
            return self.greet(config);
        }
        if opcode == LOGIN_ACCEPTED && self.account.is_none() {
            return self.accept(&packet.body);
        }
        let mut actions = Actions::new();
        if opcode == LOGIN_COMPLETE && self.sent_complete && !self.requested_list {
            actions.progress(ConnectionStage::SelectingServer);
            actions.send_empty(LOGIN_SERVER_LIST);
            self.requested_list = true;
            assert(actions@ =~= seq![
                session::progressed(ConnectionStage::SelectingServer),
                Act::Send(LOGIN_SERVER_LIST, Seq::empty()),
            ]);
            return (actions, Outcome::Continue);
        }
        if opcode == LOGIN_SERVER_LIST && self.requested_list && self.selected.is_none() {
            return self.list(config, &packet.body);
        }
        if opcode == LOGIN_PLAY && self.selected.is_some() {
            return self.play(&packet.body);
        }
        if opcode == LOGIN_ERROR {
            if self.account.is_none() {
                let error = super::LoginError::InvalidCredentials;
                return (actions, Outcome::Fail(SessionError::Login(error)));
            }
            let message = outside::text_lossy(bytes::cstr(&packet.body));
            return (actions, Outcome::Fail(SessionError::WorldEntry(message)));
        }
        (actions, Outcome::Continue)
    }

    fn greet(&mut self, config: &ClientConfig) -> (r: (Actions, Outcome<LoginDone>))
        ensures
            old(self)@.greeted(text::utf8(config.user@), text::utf8(config.pass@)) == (
                final(self)@,
                r.0@,
                login_end(r.1),
            ),
    {
        let mut actions = Actions::new();
        actions.progress(ConnectionStage::Authenticating);
        let ghost progress = session::progressed(ConnectionStage::Authenticating);
        assert(actions@ =~= seq![progress]);
        let clear = match login_fields(config) {
            Ok(clear) => clear,
            Err(e) => {
                return (actions, Outcome::Fail(e));
            },
        };
        let ghost data = clear@;
        actions.send_encrypted(LOGIN_PC, clear);
        assert(actions@ =~= seq![progress, Act::SendEncrypted(LOGIN_PC, data)]);
        self.sent_login = true;
        (actions, Outcome::Continue)
    }

    fn accept(&mut self, body: &[u8]) -> (r: (Actions, Outcome<LoginDone>))
        ensures
            old(self)@.accepted(body@) == (final(self)@, r.0@, login_end(r.1)),
    {
        let mut actions = Actions::new();
        match login_account(body) {
            Ok(account) => {
                self.account = Some(account);
            },
            Err(e) => {
                return (actions, Outcome::Fail(e));
            },
        }
        actions.send_empty(LOGIN_COMPLETE);
        self.sent_complete = true;
        actions.diagnostic("TAKP login server authenticated the account".to_owned());
        assert(actions@ =~= seq![
            Act::Send(LOGIN_COMPLETE, Seq::empty()),
            session::told("TAKP login server authenticated the account"@),
        ]);
        (actions, Outcome::Continue)
    }

    fn list(&mut self, config: &ClientConfig, body: &[u8]) -> (r: (Actions, Outcome<LoginDone>))
        ensures
            servers_in(body@) is Ok ==> strings_kept(body@, 5, bytes::le16_at(body@, 0) as nat),
            old(self)@.listed(text::utf8(config.server@), body@) == (
                final(self)@,
                r.0@,
                login_end(r.1),
            ),
    {
        let mut actions = Actions::new();
        let servers = match parse_server_list(body) {
            Ok(servers) => servers,
            Err(e) => {
                return (actions, Outcome::Fail(e));
            },
        };
        let ip = match find_server(&servers, &config.server) {
            Some(ip) => ip,
            None => {
                return (
                    actions,
                    Outcome::Fail(SessionError::Refused(Refusal::LegacyServerAbsent)),
                );
            },
        };
        let mut request = vstd::slice::slice_to_vec(text::bytes_of(&ip));
        request.push(0);
        let ghost data = request@;
        actions.send(LOGIN_PLAY, request);
        assert(actions@ =~= seq![Act::Send(LOGIN_PLAY, data)]);
        self.selected = Some(ip);
        (actions, Outcome::Continue)
    }

    fn play(&mut self, body: &[u8]) -> (r: (Actions, Outcome<LoginDone>))
        requires
            old(self)@.selected is Some,
        ensures
            old(self)@.played(body@) == (final(self)@, r.0@, login_end(r.1)),
    {
        let mut actions = Actions::new();
        let key = match session_key(body) {
            Ok(key) => key,
            Err(e) => {
                return (actions, Outcome::Fail(e));
            },
        };
        actions.close();
        actions.progress(ConnectionStage::ConnectingWorld);
        assert(actions@ =~= seq![
            Act::Close,
            session::progressed(ConnectionStage::ConnectingWorld),
        ]);
        match (&self.account, &self.selected) {
            (Some(account), Some(ip)) => {
                let credentials = Credentials { account: account.clone(), key };
                (actions, Outcome::Done(LoginDone { credentials, ip: ip.clone() }))
            },
            _ => (actions, Outcome::Fail(SessionError::Refused(Refusal::PlayBeforeLogin))),
        }
    }
}

/// A world session in progress.
#[derive(Clone, Copy, Debug)]
pub struct World {
    pub entered: bool,
    pub deadline: u64,
}

/// The end of a world session.
#[derive(Debug)]
pub enum WorldDone {
    /// Character selection was all that was asked for.
    Selected,
    /// The zone to enter.
    Zone { host: String, port: u16 },
}

/// The meaning of a `WorldDone`.
#[verifier::ext_equal]
pub enum WorldDoneState {
    Selected,
    Zone(Seq<u8>, u16),
}

pub open spec fn world_end(outcome: Outcome<WorldDone>) -> End<WorldDoneState> {
    match outcome {
        Outcome::Continue => End::Continue,
        Outcome::Done(WorldDone::Selected) => End::Done(WorldDoneState::Selected),
        Outcome::Done(WorldDone::Zone { host, port }) => End::Done(
            WorldDoneState::Zone(text::utf8(host@), port),
        ),
        Outcome::Fail(e) => End::Fail(e@),
    }
}

impl World {
    /// A packet of the world server.
    pub open spec fn received(
        self,
        character: Seq<u8>,
        world_only: bool,
        opcode: u16,
        body: Seq<u8>,
        chat: ChatOutcomeState,
    ) -> (World, Seq<Act>, End<WorldDoneState>) {
        let greeting = session::chat_record(Seq::empty(), chat, opcode, body).push(
            session::told(step::received_text("Quarm world received 0x"@, opcode, body.len())),
        );
        let (next, more, end) = if opcode == WORLD_CHARACTER_LIST && !self.entered {
            self.selecting(character, world_only, body)
        } else if opcode == WORLD_ZONE_SERVER && self.entered {
            match destination_in(body) {
                Err(refusal) => (self, Seq::empty(), End::Fail(Fault::Refused(refusal))),
                Ok((host, port)) => (
                    self,
                    seq![Act::Close],
                    End::Done(WorldDoneState::Zone(host, port)),
                ),
            }
        } else {
            (self, Seq::empty(), End::Continue)
        };
        (next, greeting + more, end)
    }

    /// The character list: the configured character has to be in it.
    pub open spec fn selecting(self, character: Seq<u8>, world_only: bool, body: Seq<u8>) -> (
        World,
        Seq<Act>,
        End<WorldDoneState>,
    ) {
        let progress = session::progressed(ConnectionStage::SelectingCharacter);
        if body.len() < 640 {
            (self, Seq::empty(), End::Fail(Fault::Refused(Refusal::LegacyCharacters)))
        } else if !character_listed(body, character) {
            (self, Seq::empty(), End::Fail(Fault::Refused(Refusal::CharacterAbsent)))
        } else if world_only {
            (self, seq![progress, Act::Close], End::Done(WorldDoneState::Selected))
        } else if !bytes::fits_field(character, 64) {
            (self, seq![progress], End::Fail(Fault::Refused(Refusal::FieldSize)))
        } else {
            (
                World { entered: true, ..self },
                seq![
                    progress,
                    Act::Send(WORLD_ENTER, session::padded(character, 64)),
                    session::progressed(ConnectionStage::ConnectingZone),
                ],
                End::Continue,
            )
        }
    }

    /// Begin a world session with the credentials of the login.
    pub fn start(credentials: &Credentials, now: u64) -> (r: Result<(Self, Actions), SessionError>)
        ensures
            ({
                let account = text::utf8(credentials.account@);
                match (login_info_fault(account), r) {
                    (None, Ok((world, actions))) => {
                        &&& world == (World {
                            entered: false,
                            deadline: model::after(now, 60_000_000_000),
                        })
                        &&& actions@ == seq![
                            Act::Send(WORLD_LOGIN, login_info(account, credentials.key@)),
                        ]
                    },
                    (Some(refusal), Err(e)) => e@ == Fault::Refused(refusal),
                    _ => false,
                }
            }),
    {
        let body = match world_login(credentials) {
            Ok(body) => body,
            Err(e) => {
                return Err(e);
            },
        };
        let ghost data = body@;
        let mut actions = Actions::new();
        actions.send(WORLD_LOGIN, body);
        assert(actions@ =~= seq![Act::Send(WORLD_LOGIN, data)]);
        Ok((World { entered: false, deadline: later(now, 60_000_000_000) }, actions))
    }

    /// Take a packet of the world server.
    pub fn receive(
        &mut self,
        config: &ClientConfig,
        world_only: bool,
        packet: &Application,
        chat: ChatOutcome,
    ) -> (r: (Actions, Outcome<WorldDone>))
        ensures
            old(self).received(
                text::utf8(config.character@),
                world_only,
                packet.opcode,
                packet.body@,
                chat@,
            ) == (*final(self), r.0@, world_end(r.1)),
    {
        let opcode = packet.opcode;
        let mut actions = Actions::new();
        let zone = String::new();
        proof {
            reveal_strlit("");
            assert(zone@ =~= Seq::empty());
        }
        let ghost record = session::chat_record(Seq::empty(), chat@, opcode, packet.body@);
        session::record_chat(&zone, chat, opcode, &packet.body, &mut actions);
        assert(actions@ =~= record);
        actions.received("Quarm world received 0x", opcode, packet.body.len());
        let ghost greeting = actions@;
        assert(greeting + Seq::<Act>::empty() =~= greeting);
        if opcode == WORLD_CHARACTER_LIST && !self.entered {
            return self.select(config, world_only, &packet.body, actions);
        }
        if opcode == WORLD_ZONE_SERVER && self.entered {
            match zone_destination(&packet.body) {
                Ok((host, port)) => {
                    actions.close();
                    assert(actions@ =~= greeting + seq![Act::Close]);
                    return (actions, Outcome::Done(WorldDone::Zone { host, port }));
                },
                Err(e) => {
                    return (actions, Outcome::Fail(e));
                },
            }
        }
        (actions, Outcome::Continue)
    }

    fn select(
        &mut self,
        config: &ClientConfig,
        world_only: bool,
        body: &[u8],
        before: Actions,
    ) -> (r: (Actions, Outcome<WorldDone>))
        ensures
            ({
                let (next, more, end) = old(self).selecting(
                    text::utf8(config.character@),
                    world_only,
                    body@,
                );
                &&& *final(self) == next
                &&& r.0@ == before@ + more
                &&& world_end(r.1) == end
            }),
    {
        let mut actions = before;
        let ghost greeting = actions@;
        assert(greeting + Seq::<Act>::empty() =~= greeting);
        match character_exists(body, config.character.as_str()) {
            Ok(found) => {
                if !found {
                    return (
                        actions,
                        Outcome::Fail(SessionError::Refused(Refusal::CharacterAbsent)),
                    );
                }
            },
            Err(e) => {
                return (actions, Outcome::Fail(e));
            },
        }
        actions.progress(ConnectionStage::SelectingCharacter);
        let ghost progress = session::progressed(ConnectionStage::SelectingCharacter);
        assert(actions@ =~= greeting + seq![progress]);
        if world_only {
            actions.close();
            assert(actions@ =~= greeting + seq![progress, Act::Close]);
            return (actions, Outcome::Done(WorldDone::Selected));
        }
        let mut enter: Vec<u8> = Vec::new();
        if let Err(e) = session::push_field(&mut enter, &config.character, 64) {
            return (actions, Outcome::Fail(e));
        }
        let ghost data = session::padded(text::utf8(config.character@), 64);
        assert(enter@ =~= data);
        actions.send(WORLD_ENTER, enter);
        self.entered = true;
        actions.progress(ConnectionStage::ConnectingZone);
        assert(actions@ =~= greeting + seq![
            progress,
            Act::Send(WORLD_ENTER, data),
            session::progressed(ConnectionStage::ConnectingZone),
        ]);
        (actions, Outcome::Continue)
    }
}

/// How many queued commands a zone session takes at a time.
pub const COMMAND_BATCH: usize = 64;

/// A zone session in progress.
#[derive(Debug)]
pub struct Zone {
    pub connected: u64,
    pub progress: u64,
    pub packets: u64,
    pub ready: bool,
    pub saw_profile: bool,
    pub requested_zone: bool,
    pub requested_spawns: bool,
    pub replied_experience: bool,
    pub sent_ready: bool,
    pub zone_name: String,
}

/// The meaning of a `Zone`.
#[verifier::ext_equal]
pub struct ZoneState {
    pub connected: u64,
    pub progress: u64,
    pub packets: u64,
    pub ready: bool,
    pub saw_profile: bool,
    pub requested_zone: bool,
    pub requested_spawns: bool,
    pub replied_experience: bool,
    pub sent_ready: bool,
    pub zone_name: Seq<char>,
}

impl View for Zone {
    type V = ZoneState;

    open spec fn view(&self) -> ZoneState {
        ZoneState {
            connected: self.connected,
            progress: self.progress,
            packets: self.packets,
            ready: self.ready,
            saw_profile: self.saw_profile,
            requested_zone: self.requested_zone,
            requested_spawns: self.requested_spawns,
            replied_experience: self.replied_experience,
            sent_ready: self.sent_ready,
            zone_name: self.zone_name@,
        }
    }
}

/// The data rate of the connection: 10 as a single-precision number.
pub open spec fn data_rate() -> Seq<u8> {
    seq![0u8, 0u8, 0x20u8, 0x41u8]
}

impl ZoneState {
    /// A new zone session.
    pub open spec fn entered(now: u64) -> ZoneState {
        ZoneState {
            connected: now,
            progress: now,
            packets: 0,
            ready: false,
            saw_profile: false,
            requested_zone: false,
            requested_spawns: false,
            replied_experience: false,
            sent_ready: false,
            zone_name: Seq::empty(),
        }
    }

    /// What is due before the next packet is read.
    pub open spec fn ticked(
        self,
        cancelled: bool,
        duration: Option<u64>,
        last_received_seconds: u64,
        now: u64,
    ) -> (ZoneState, Seq<Act>, End<()>) {
        let over = match duration {
            Some(limit) => model::elapsed(now, self.connected) >= limit,
            None => false,
        };
        if cancelled || over {
            (self, seq![Act::Close], End::Done(()))
        } else if !self.ready && model::elapsed(now, self.connected) >= 60_000_000_000 {
            (self, Seq::empty(), End::Fail(Fault::Refused(Refusal::Admission)))
        } else if model::elapsed(now, self.progress) >= 30_000_000_000 {
            (
                ZoneState { progress: now, ..self },
                seq![
                    Act::Notify(
                        NoticeState::Status {
                            state: if self.ready && last_received_seconds < 60 {
                                ConnectionState::Connected
                            } else {
                                ConnectionState::Zoning
                            },
                            packets: self.packets,
                            last_received_seconds: Some(last_received_seconds),
                        },
                    ),
                    Act::Notify(
                        NoticeState::Traffic {
                            heading: "Quarm zone session: "@,
                            count: self.packets,
                        },
                    ),
                ],
                End::Continue,
            )
        } else {
            (self, Seq::empty(), End::Continue)
        }
    }

    /// The zone description gives the name of the zone.
    pub open spec fn described(self, body: Seq<u8>, last_received_seconds: u64) -> (
        ZoneState,
        Seq<Act>,
        Option<Fault>,
    ) {
        let name = outside::lossy(bytes::until_nul(body.subrange(64, 96)));
        if body.len() < 96 {
            (self, Seq::empty(), Some(Fault::Refused(Refusal::LegacyDescription)))
        } else {
            (
                ZoneState { zone_name: name, requested_spawns: true, ..self },
                seq![
                    Act::Notify(NoticeState::Zone(name)),
                    Act::Notify(
                        NoticeState::Status {
                            state: ConnectionState::Zoning,
                            packets: self.packets,
                            last_received_seconds: Some(last_received_seconds),
                        },
                    ),
                    Act::Send(ZONE_REQUEST_SPAWNS, Seq::empty()),
                ],
                None,
            )
        }
    }

    /// The avatar is ready: filters, the version announcement and one client
    /// update complete admission.
    pub open spec fn admitted(self, last_received_seconds: u64) -> (
        ZoneState,
        Seq<Act>,
        Option<Fault>,
    ) {
        if !self.saw_profile {
            (self, Seq::empty(), Some(Fault::Refused(Refusal::ReadyBeforeProfile)))
        } else {
            (
                ZoneState { sent_ready: true, ready: true, ..self },
                seq![
                    Act::Send(ZONE_SERVER_FILTER, filters()),
                    Act::Send(ZONE_SPAWN_APPEARANCE, version_message(false)),
                    Act::Send(ZONE_CLIENT_UPDATE, bytes::zeros(15)),
                    session::progressed(ConnectionStage::EnteringWorld),
                    session::progressed(ConnectionStage::Ready),
                    Act::Notify(
                        NoticeState::Status {
                            state: ConnectionState::Connected,
                            packets: self.packets,
                            last_received_seconds: Some(last_received_seconds),
                        },
                    ),
                    session::told(
                        "Quarm zone login sequence complete for "@ + self.zone_name
                            + "; waiting for ongoing server traffic"@,
                    ),
                ],
                None,
            )
        }
    }

    /// The effect of a packet by its opcode.
    pub open spec fn handled(self, opcode: u16, body: Seq<u8>, last_received_seconds: u64) -> (
        ZoneState,
        Seq<Act>,
        Option<Fault>,
    ) {
        if opcode == ZONE_PLAYER_PROFILE {
            (ZoneState { saw_profile: true, ..self }, Seq::empty(), None)
        } else if opcode == ZONE_WEATHER && !self.requested_zone {
            (
                ZoneState { requested_zone: true, ..self },
                seq![Act::Send(ZONE_REQUEST_NEW, Seq::empty())],
                None,
            )
        } else if opcode == ZONE_NEW && !self.requested_spawns {
            self.described(body, last_received_seconds)
        } else if opcode == ZONE_EXPERIENCE_READY && self.requested_spawns
            && !self.replied_experience {
            (
                ZoneState { replied_experience: true, ..self },
                seq![Act::Send(ZONE_EXPERIENCE_READY, Seq::empty())],
                None,
            )
        } else if opcode == ZONE_AVATAR_READY && self.replied_experience && !self.sent_ready {
            self.admitted(last_received_seconds)
        } else if opcode == ZONE_SPAWN_APPEARANCE && asks_version(body) {
            (self, seq![Act::Send(ZONE_SPAWN_APPEARANCE, version_message(true))], None)
        } else if opcode == ZONE_LOGOUT {
            (self, Seq::empty(), Some(Fault::Refused(Refusal::LoggedOut)))
        } else if opcode == ZONE_CHANGE_REQUEST {
            (self, Seq::empty(), Some(Fault::Refused(Refusal::NewZone)))
        } else {
            (self, Seq::empty(), None)
        }
    }

    /// A packet of the zone server.
    pub open spec fn received(
        self,
        opcode: u16,
        body: Seq<u8>,
        last_received_seconds: u64,
        chat: ChatOutcomeState,
    ) -> (ZoneState, Seq<Act>, Option<Fault>) {
        let counted = ZoneState { packets: self.packets.wrapping_add(1), ..self };
        let greeting: Seq<Act> = if self.ready {
            Seq::empty()
        } else {
            seq![
                session::told(
                    step::received_text("Quarm zone received 0x"@, opcode, body.len()),
                ),
            ]
        };
        let (next, more, error) = counted.handled(opcode, body, last_received_seconds);
        if error is Some {
            (next, greeting + more, error)
        } else {
            (
                next,
                greeting + more + session::chat_record(next.zone_name, chat, opcode, body),
                None,
            )
        }
    }
}

/// What becomes of a command: the encoded message is sent, or the reason why it
/// could not be encoded is reported.
pub open spec fn outbound(encoded: Result<Vec<u8>, String>) -> Act {
    match encoded {
        Ok(body) => Act::Send(ZONE_CHANNEL_MESSAGE, body@),
        Err(error) => session::told("Rejected invalid outbound chat command: "@ + error@),
    }
}

impl Zone {
    /// Begin a zone session with the configured character.
    pub fn start(config: &ClientConfig, now: u64) -> (r: (Actions, Result<Self, SessionError>))
        ensures
            ({
                let character = text::utf8(config.character@);
                let rate = Act::Send(ZONE_DATA_RATE, data_rate());
                if !bytes::fits_field(character, 64) {
                    &&& r.0@ == seq![rate]
                    &&& r.1 matches Err(e) && e@ == Fault::Refused(Refusal::FieldSize)
                } else {
                    &&& r.0@ == seq![
                        rate,
                        Act::Send(ZONE_ENTRY, session::zone_entry_packet(character)),
                        session::progressed(ConnectionStage::LoadingCharacter),
                    ]
                    &&& r.1 matches Ok(zone) && zone@ == ZoneState::entered(now)
                }
            }),
    {
        let mut actions = Actions::new();
        let mut rate: Vec<u8> = Vec::new();
        rate.push(0);
        rate.push(0);
        rate.push(0x20);
        rate.push(0x41);
        assert(rate@ =~= data_rate());
        actions.send(ZONE_DATA_RATE, rate);
        assert(actions@ =~= seq![Act::Send(ZONE_DATA_RATE, data_rate())]);
        let mut entry = bytes::zero_bytes(4);
        if let Err(e) = session::push_field(&mut entry, &config.character, 64) {
            return (actions, Err(e));
        }
        let ghost packet = entry@;
        actions.send(ZONE_ENTRY, entry);
        actions.progress(ConnectionStage::LoadingCharacter);
        assert(actions@ =~= seq![
            Act::Send(ZONE_DATA_RATE, data_rate()),
            Act::Send(ZONE_ENTRY, packet),
            session::progressed(ConnectionStage::LoadingCharacter),
        ]);
        let zone_name = String::new();
        proof {
            reveal_strlit("");
            assert(zone_name@ =~= Seq::empty());
        }
        let zone = Zone {
            connected: now,
            progress: now,
            packets: 0,
            ready: false,
            saw_profile: false,
            requested_zone: false,
            requested_spawns: false,
            replied_experience: false,
            sent_ready: false,
            zone_name,
        };
        (actions, Ok(zone))
    }

    /// Do what is due before the next packet is read.
    pub fn tick(
        &mut self,
        cancelled: bool,
        duration: Option<u64>,
        last_received_seconds: u64,
        now: u64,
    ) -> (r: (Actions, Outcome<()>))
        ensures
            old(self)@.ticked(cancelled, duration, last_received_seconds, now) == (
                final(self)@,
                r.0@,
                session::zone_end(r.1),
            ),
    {
        let mut actions = Actions::new();
        let over = match duration {
            Some(limit) => since(now, self.connected) >= limit,
            None => false,
        };
        if cancelled || over {
            actions.close();
            assert(actions@ =~= seq![Act::Close]);
            return (actions, Outcome::Done(()));
        }
        if !self.ready && since(now, self.connected) >= 60_000_000_000 {
            return (actions, Outcome::Fail(SessionError::Refused(Refusal::Admission)));
        }
        if since(now, self.progress) >= 30_000_000_000 {
            let state = if self.ready && last_received_seconds < 60 {
                ConnectionState::Connected
            } else {
                ConnectionState::Zoning
            };
            actions.status(state, self.packets, Some(last_received_seconds));
            actions.traffic("Quarm zone session: ", self.packets);
            self.progress = now;
        }
        assert(actions@ =~= old(self)@.ticked(cancelled, duration, last_received_seconds, now).1);
        (actions, Outcome::Continue)
    }

    /// How many queued commands to take now: none before admission.
    pub fn commands_due(&self) -> (count: usize)
        ensures
            count == (if self@.ready {
                COMMAND_BATCH
            } else {
                0
            }),
    {
        if self.ready {
            COMMAND_BATCH
        } else {
            0
        }
    }

    /// Act on a command that was encoded, or could not be.
    pub fn command(&self, encoded: Result<Vec<u8>, String>) -> (actions: Actions)
        ensures
            actions@ == seq![outbound(encoded)],
    {
        let mut actions = Actions::new();
        let ghost act = outbound(encoded);
        match encoded {
            Ok(body) => actions.send(ZONE_CHANNEL_MESSAGE, body),
            Err(error) => {
                let message = "Rejected invalid outbound chat command: ".to_owned();
                actions.diagnostic(message.concat(error.as_str()));
            },
        }
        assert(actions@ =~= seq![act]);
        actions
    }

    fn describe(&mut self, body: &[u8], last_received_seconds: u64, actions: &mut Actions) -> (r:
        Result<(), SessionError>)
        ensures
            ({
                let (next, more, error) = old(self)@.described(body@, last_received_seconds);
                &&& final(self)@ == next
                &&& final(actions)@ == old(actions)@ + more
                &&& error == session::step_end(r)
            }),
            r is Ok ==> text::keeps(
                bytes::until_nul(body@.subrange(64, 96)),
                final(self).zone_name@,
            ),
    {
        if body.len() < 96 {
            assert(actions@ =~= actions@ + Seq::<Act>::empty());
            return Err(SessionError::Refused(Refusal::LegacyDescription));
        }
        let name = outside::text_lossy(bytes::cstr(&body[64..96]));
        self.zone_name = name.clone();
        actions.zone(name);
        actions.status(ConnectionState::Zoning, self.packets, Some(last_received_seconds));
        actions.send_empty(ZONE_REQUEST_SPAWNS);
        self.requested_spawns = true;
        assert(actions@ =~= old(actions)@ + old(self)@.described(body@, last_received_seconds).1);
        Ok(())
    }

    fn complete(&mut self, last_received_seconds: u64, actions: &mut Actions) -> (r: Result<
        (),
        SessionError,
    >)
        ensures
            ({
                let (next, more, error) = old(self)@.admitted(last_received_seconds);
                &&& final(self)@ == next
                &&& final(actions)@ == old(actions)@ + more
                &&& error == session::step_end(r)
            }),
    {
        if !self.saw_profile {
            assert(actions@ =~= actions@ + Seq::<Act>::empty());
            return Err(SessionError::Refused(Refusal::ReadyBeforeProfile));
        }
        actions.send(ZONE_SERVER_FILTER, server_filters());
        // The client update completes admission and triggers the server's version check.
        let announcement = dll_version_message(false);
        actions.send(ZONE_SPAWN_APPEARANCE, vstd::slice::slice_to_vec(&announcement));
        actions.send(ZONE_CLIENT_UPDATE, bytes::zero_bytes(15));
        self.sent_ready = true;
        self.ready = true;
        actions.progress(ConnectionStage::EnteringWorld);
        actions.progress(ConnectionStage::Ready);
        actions.status(ConnectionState::Connected, self.packets, Some(last_received_seconds));
        let mut message = "Quarm zone login sequence complete for ".to_owned();
        message.append(self.zone_name.as_str());
        message.append("; waiting for ongoing server traffic");
        actions.diagnostic(message);
        assert(actions@ =~= old(actions)@ + old(self)@.admitted(last_received_seconds).1);
        Ok(())
    }

    /// Act on a packet by its opcode.
    fn handle(
        &mut self,
        opcode: u16,
        body: &[u8],
        last_received_seconds: u64,
        actions: &mut Actions,
    ) -> (r: Result<(), SessionError>)
        ensures
            ({
                let (next, more, error) = old(self)@.handled(opcode, body@, last_received_seconds);
                &&& final(self)@ == next
                &&& final(actions)@ == old(actions)@ + more
                &&& error == session::step_end(r)
            }),
            r is Ok && opcode == ZONE_NEW && !old(self).requested_spawns ==> text::keeps(
                bytes::until_nul(body@.subrange(64, 96)),
                final(self).zone_name@,
            ),
    {
        if opcode == ZONE_PLAYER_PROFILE {
            self.saw_profile = true;
        } else if opcode == ZONE_WEATHER && !self.requested_zone {
            actions.send_empty(ZONE_REQUEST_NEW);
            self.requested_zone = true;
        } else if opcode == ZONE_NEW && !self.requested_spawns {
            return self.describe(body, last_received_seconds, actions);
        } else if opcode == ZONE_EXPERIENCE_READY && self.requested_spawns
            && !self.replied_experience {
            actions.send_empty(ZONE_EXPERIENCE_READY);
            self.replied_experience = true;
        } else if opcode == ZONE_AVATAR_READY && self.replied_experience && !self.sent_ready {
            return self.complete(last_received_seconds, actions);
        } else if opcode == ZONE_SPAWN_APPEARANCE {
            if let Some(reply) = dll_version_reply(body) {
                actions.send(ZONE_SPAWN_APPEARANCE, vstd::slice::slice_to_vec(&reply));
            }
        } else if opcode == ZONE_LOGOUT {
            assert(actions@ =~= actions@ + Seq::<Act>::empty());
            return Err(SessionError::Refused(Refusal::LoggedOut));
        } else if opcode == ZONE_CHANGE_REQUEST {
            assert(actions@ =~= actions@ + Seq::<Act>::empty());
            return Err(SessionError::Refused(Refusal::NewZone));
        }
        assert(actions@ =~= old(actions)@ + old(self)@.handled(
            opcode,
            body@,
            last_received_seconds,
        ).1);
        Ok(())
    }

    /// Take a packet of the zone server. The name of a zone that is UTF-8 is kept
    /// as it is.
    pub fn receive(&mut self, packet: &Application, last_received_seconds: u64, chat: ChatOutcome) -> (
    r: (Actions, Result<(), SessionError>))
        ensures
            old(self)@.received(packet.opcode, packet.body@, last_received_seconds, chat@) == (
                final(self)@,
                r.0@,
                session::step_end(r.1),
            ),
            r.1 is Ok && packet.opcode == ZONE_NEW && !old(self).requested_spawns ==> text::keeps(
                bytes::until_nul(packet.body@.subrange(64, 96)),
                final(self).zone_name@,
            ),
    {
        let opcode = packet.opcode;
        let mut actions = Actions::new();
        let ghost greeting: Seq<Act> = if self.ready {
            Seq::empty()
        } else {
            seq![
                session::told(
                    step::received_text("Quarm zone received 0x"@, opcode, packet.body@.len()),
                ),
            ]
        };
        self.packets = self.packets.wrapping_add(1);
        if !self.ready {
            actions.received("Quarm zone received 0x", opcode, packet.body.len());
        }
        assert(actions@ =~= greeting);
        if let Err(e) = self.handle(opcode, &packet.body, last_received_seconds, &mut actions) {
            return (actions, Err(e));
        }
        session::record_chat(&self.zone_name, chat, opcode, &packet.body, &mut actions);
        (actions, Ok(()))
    }
}

/// The announcement has the form of a request; a reply has not, so no reply is
/// ever answered and no two peers can keep each other talking.
pub proof fn law_version_replies_end()
    ensures
        asks_version(version_message(false)),
        !asks_version(version_message(true)),
{
    let reply = version_message(true);
    let request = version_message(false);
    assert(reply.len() == 8 && request.len() == 8);
    bytes::lemma_integers_round_trip(DLL_MESSAGE_TYPE, 0);
    assert(bytes::le16_at(reply, 6) == 0x8004);
    assert(bytes::le16_at(request, 6) == 4);
    assert(bytes::le16_at(request, 2) == DLL_MESSAGE_TYPE);
}

/// Whether an act is the packet that completes admission, which is also the
/// only movement packet there is.
pub open spec fn is_update(act: Act) -> bool {
    act matches Act::Send(opcode, _) && opcode == ZONE_CLIENT_UPDATE
}

/// Whether an act announces the version without being asked.
pub open spec fn is_announcement(act: Act) -> bool {
    act == Act::Send(ZONE_SPAWN_APPEARANCE, version_message(false))
}

/// In one step of a zone session, the version is announced and admission is
/// completed together or not at all: together in the step that makes the session
/// ready, the announcement directly before the update. A ready session stays
/// ready, so this happens once per zone entry and nothing moves the character
/// afterwards.
pub proof fn law_version_announced_once_before_admission(
    zone: ZoneState,
    opcode: u16,
    body: Seq<u8>,
    last_received_seconds: u64,
    chat: ChatOutcomeState,
)
    requires
        zone.ready == zone.sent_ready,
    ensures
        ({
            let (next, acts, error) = zone.received(opcode, body, last_received_seconds, chat);
            &&& next.ready == next.sent_ready
            &&& zone.ready ==> next.ready
            &&& if !zone.ready && next.ready {
                exists|i: int|
                    {
                        &&& 0 <= i && i + 1 < acts.len()
                        &&& is_announcement(acts[i])
                        &&& #[trigger] is_update(acts[i + 1])
                        &&& forall|j: int|
                            0 <= j < acts.len() ==> (is_announcement(#[trigger] acts[j]) ==> j
                                == i)
                        &&& forall|j: int|
                            0 <= j < acts.len() ==> (is_update(#[trigger] acts[j]) ==> j == i + 1)
                    }
            } else {
                forall|j: int|
                    0 <= j < acts.len() ==> !is_announcement(#[trigger] acts[j]) && !is_update(
                        acts[j],
                    )
            }
        }),
{
    let (next, acts, error) = zone.received(opcode, body, last_received_seconds, chat);
    assert(version_message(true)[7] == 0x80);
    assert(version_message(false)[7] == 0);
    if !zone.ready && next.ready {
        let i: int = 2;
        assert(is_announcement(acts[i]));
        assert(is_update(acts[i + 1]));
    }
}

/// A version request gets the same answer while connecting and after admission,
/// and changes nothing but the packet count.
pub proof fn law_version_requests_are_answered(
    zone: ZoneState,
    body: Seq<u8>,
    last_received_seconds: u64,
)
    ensures
        ({
            let (next, acts, error) = zone.handled(
                ZONE_SPAWN_APPEARANCE,
                body,
                last_received_seconds,
            );
            &&& next == zone
            &&& error is None
            &&& acts == (if asks_version(body) {
                seq![Act::Send(ZONE_SPAWN_APPEARANCE, version_message(true))]
            } else {
                Seq::empty()
            })
        }),
{
}

/// What a login has done follows in order: a server is selected only from a
/// requested list, a list is requested only after completion, and completion
/// comes only with an account.
pub open spec fn in_order(login: LoginState) -> bool {
    &&& login.selected is Some ==> login.requested_list
    &&& login.requested_list ==> login.sent_complete
    &&& login.sent_complete ==> login.account is Some
}

/// Every step keeps the order of the login, and it is only finished with the
/// account that was accepted and the server that was selected.
pub proof fn law_login_is_in_order(
    login: LoginState,
    user: Seq<u8>,
    pass: Seq<u8>,
    server: Seq<u8>,
    opcode: u16,
    body: Seq<u8>,
    deadline: u64,
)
    requires
        in_order(login),
    ensures
        in_order(LoginState::begun(deadline)),
        ({
            let (next, acts, end) = login.received(user, pass, server, opcode, body);
            &&& in_order(next)
            &&& login.account is Some ==> next.account == login.account
            &&& login.selected is Some ==> next.selected == login.selected
            &&& end matches End::Done(done) ==> {
                &&& login.account == Some(done.account)
                &&& login.selected == Some(done.ip)
            }
        }),
{
}

/// An error before the account is accepted means rejected credentials; the
/// session then asks for nothing more.
pub proof fn law_early_error_rejects_the_credentials(
    login: LoginState,
    user: Seq<u8>,
    pass: Seq<u8>,
    server: Seq<u8>,
    body: Seq<u8>,
)
    ensures
        login.account is None ==> login.received(user, pass, server, LOGIN_ERROR, body) == (
            login,
            Seq::<Act>::empty(),
            End::<LoginDoneState>::Fail(Fault::Login(super::LoginError::InvalidCredentials)),
        ),
{
}

/// A session is reported as connected only once admission is complete.
pub proof fn law_connected_means_admission(
    zone: ZoneState,
    opcode: u16,
    body: Seq<u8>,
    last_received_seconds: u64,
    chat: ChatOutcomeState,
    cancelled: bool,
    duration: Option<u64>,
    now: u64,
)
    ensures
        ({
            let (next, acts, error) = zone.received(opcode, body, last_received_seconds, chat);
            forall|i: int|
                0 <= i < acts.len() && super::laws::reports_connection(#[trigger] acts[i])
                    ==> next.ready
        }),
        ({
            let (next, acts, end) = zone.ticked(cancelled, duration, last_received_seconds, now);
            forall|i: int|
                0 <= i < acts.len() && super::laws::reports_connection(#[trigger] acts[i])
                    ==> next.ready && last_received_seconds < 60
        }),
{
}

} // verus!

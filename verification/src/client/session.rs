//! Login, world and zone sequences of the Titanium/P99-V62 protocol.
//!
//! Each stage takes the application packets of its session and answers with
//! actions for the host. What only the login cipher and the server-list parser
//! can tell is handed in with the packet it belongs to.

use super::step::{Act, Actions, Fault, NoticeState, Outcome, Refusal, SessionError};
use super::{
    ClientConfig, ClientIdentity, ConnectionStage, ConnectionState, DecodeError, LoginError,
    RecordEvent, RecordEventState,
};
use crate::assets::{self, AssetFault, Assets, FileChecksum};
use crate::bytes;
use crate::chat::{self, ChannelNumber, ChatEvent, ChatState};
use crate::outside;
use crate::p99::{self, CodecState, WorldCodec};
use crate::text;
use crate::transport::model;
use crate::transport::{later, since, Application};
use vstd::prelude::*;
use vstd::string::StringExecFns;

pub mod laws;
pub mod zone_laws;

verus! {

/// Packets of the login server.
#[derive(Clone, Copy, Debug, PartialEq, Eq, Structural)]
pub enum LoginOpcode {
    Ready,
    Accepted,
    ServerList,
    PlayResponse,
    Unknown(u16),
}

impl LoginOpcode {
    pub open spec fn of(value: u16) -> LoginOpcode {
        match value {
            0x16 => LoginOpcode::Ready,
            0x17 => LoginOpcode::Accepted,
            0x18 => LoginOpcode::ServerList,
            0x21 => LoginOpcode::PlayResponse,
            _ => LoginOpcode::Unknown(value),
        }
    }

    pub fn from(value: u16) -> (opcode: Self)
        ensures
            opcode == LoginOpcode::of(value),
    {
        match value {
            0x16 => LoginOpcode::Ready,
            0x17 => LoginOpcode::Accepted,
            0x18 => LoginOpcode::ServerList,
            0x21 => LoginOpcode::PlayResponse,
            _ => LoginOpcode::Unknown(value),
        }
    }
}

/// Packets of the world server.
#[derive(Clone, Copy, Debug, PartialEq, Eq, Structural)]
pub enum WorldOpcode {
    ApprovalChallenge,
    FileManifest,
    ValidationResult,
    CharacterList,
    ZoneHandoff,
    Unknown(u16),
}

impl WorldOpcode {
    pub open spec fn of(value: u16) -> WorldOpcode {
        match value {
            0x3c25 => WorldOpcode::ApprovalChallenge,
            0x52a4 => WorldOpcode::FileManifest,
            0x1251 => WorldOpcode::ValidationResult,
            0x4513 => WorldOpcode::CharacterList,
            0x61b6 => WorldOpcode::ZoneHandoff,
            _ => WorldOpcode::Unknown(value),
        }
    }

    pub fn from(value: u16) -> (opcode: Self)
        ensures
            opcode == WorldOpcode::of(value),
    {
        match value {
            0x3c25 => WorldOpcode::ApprovalChallenge,
            0x52a4 => WorldOpcode::FileManifest,
            0x1251 => WorldOpcode::ValidationResult,
            0x4513 => WorldOpcode::CharacterList,
            0x61b6 => WorldOpcode::ZoneHandoff,
            _ => WorldOpcode::Unknown(value),
        }
    }
}

/// Packets of a zone server.
#[derive(Clone, Copy, Debug, PartialEq, Eq, Structural)]
pub enum ZoneOpcode {
    PlayerProfile,
    Weather,
    PlayerSpawn,
    ZoneDescription,
    ExperienceUpdate,
    ValidationRejected,
    LoggedOut,
    ZoneHandoff,
    Unknown(u16),
}

impl ZoneOpcode {
    pub open spec fn of(value: u16) -> ZoneOpcode {
        match value {
            0x75df => ZoneOpcode::PlayerProfile,
            0x254d => ZoneOpcode::Weather,
            0x7213 => ZoneOpcode::PlayerSpawn,
            0x0920 => ZoneOpcode::ZoneDescription,
            0x0587 => ZoneOpcode::ExperienceUpdate,
            0x1252 => ZoneOpcode::ValidationRejected,
            0x3cdc => ZoneOpcode::LoggedOut,
            0x61b6 => ZoneOpcode::ZoneHandoff,
            _ => ZoneOpcode::Unknown(value),
        }
    }

    pub fn from(value: u16) -> (opcode: Self)
        ensures
            opcode == ZoneOpcode::of(value),
    {
        match value {
            0x75df => ZoneOpcode::PlayerProfile,
            0x254d => ZoneOpcode::Weather,
            0x7213 => ZoneOpcode::PlayerSpawn,
            0x0920 => ZoneOpcode::ZoneDescription,
            0x0587 => ZoneOpcode::ExperienceUpdate,
            0x1252 => ZoneOpcode::ValidationRejected,
            0x3cdc => ZoneOpcode::LoggedOut,
            0x61b6 => ZoneOpcode::ZoneHandoff,
            _ => ZoneOpcode::Unknown(value),
        }
    }
}

/// The account and session key that the login server hands out.
#[derive(Clone, Copy, Debug)]
pub struct Credentials {
    pub account: u32,
    pub key: [u8; 10],
}

/// The meaning of `Credentials`.
#[verifier::ext_equal]
pub struct CredentialState {
    pub account: u32,
    pub key: Seq<u8>,
}

impl View for Credentials {
    type V = CredentialState;

    open spec fn view(&self) -> CredentialState {
        CredentialState { account: self.account, key: self.key@ }
    }
}

/// A server of the server list.
#[derive(Debug)]
pub struct ServerEntry {
    pub name: String,
    pub status: u32,
    pub runtime_id: u32,
    pub ip: String,
}

/// The meaning of a `ServerEntry`.
#[verifier::ext_equal]
pub struct ServerState {
    pub name: Seq<u8>,
    pub status: u32,
    pub runtime_id: u32,
    pub ip: Seq<char>,
}

pub open spec fn server_states(servers: Seq<ServerEntry>) -> Seq<ServerState> {
    servers.map_values(
        |s: ServerEntry|
            ServerState {
                name: text::utf8(s.name@),
                status: s.status,
                runtime_id: s.runtime_id,
                ip: s.ip@,
            },
    )
}

/// How a stage goes on, by what it means.
#[verifier::ext_equal]
pub enum End<T> {
    Continue,
    Done(T),
    Fail(Fault),
}

/// Whether a stage may wait for another packet.
pub fn awaiting(cancelled: bool, now: u64, deadline: u64) -> (r: Result<(), SessionError>)
    ensures
        match r {
            Ok(_) => !cancelled && now < deadline,
            Err(e) => e@ == Fault::Refused(
                if cancelled {
                    Refusal::Shutdown
                } else {
                    Refusal::Timeout
                },
            ) && (cancelled || now >= deadline),
        },
{
    if cancelled {
        return Err(SessionError::Refused(Refusal::Shutdown));
    }
    if now >= deadline {
        return Err(SessionError::Refused(Refusal::Timeout));
    }
    Ok(())
}

/// The part of a login response that is enciphered, in whole blocks of eight
/// bytes, where the response is long enough.
pub open spec fn ciphertext_of(body: Seq<u8>) -> Option<Seq<u8>> {
    if body.len() < 34 {
        None
    } else {
        Some(body.subrange(10, 10 + (body.len() - 10) / 8 * 8))
    }
}

/// The bytes to decipher in a login response.
pub fn login_ciphertext(body: &[u8]) -> (data: Option<Vec<u8>>)
    ensures
        ciphertext_of(body@) == (match data {
            Some(d) => Some(d@),
            None => None,
        }),
{
    if body.len() < 34 {
        return None;
    }
    let end: usize = 10 + (body.len() - 10) / 8 * 8;
    Some(vstd::slice::slice_to_vec(&body[10..end]))
}

/// A packet with its opcode in front, as the login protocol's own parsers read it.
pub fn with_opcode(opcode: u16, body: &[u8]) -> (data: Vec<u8>)
    ensures
        data@ == bytes::le16(opcode) + body@,
{
    let mut data: Vec<u8> = Vec::new();
    bytes::push_le16(&mut data, opcode);
    data.extend_from_slice(body);
    assert(data@ =~= bytes::le16(opcode) + body@);
    data
}

/// What a login response means, with the answer of the failure detector and
/// the deciphered part of it.
pub open spec fn credentials_from(
    body: Seq<u8>,
    bad_password: bool,
    clear: Option<Seq<u8>>,
) -> Result<CredentialState, Fault> {
    if bad_password {
        Err(Fault::Login(LoginError::InvalidCredentials))
    } else if body.len() < 34 {
        Err(Fault::Refused(Refusal::LoginResponse))
    } else {
        match clear {
            None => Err(Fault::Refused(Refusal::LoginCipher)),
            Some(clear) => {
                let account = bytes::le32_at(clear, 8);
                let key = bytes::until_nul(clear.subrange(12, 23));
                if clear.len() < 23 {
                    Err(Fault::Refused(Refusal::LoginResponse))
                } else if account == 0 || account == u32::MAX || clear[0] != 1 {
                    Err(Fault::Refused(Refusal::LoginRejected))
                } else if key.len() != 10 {
                    Err(Fault::Refused(Refusal::SessionKey))
                } else {
                    Ok(CredentialState { account, key })
                }
            },
        }
    }
}

/// Use the failure signature before parsing the successful session key.
pub fn login_credentials(body: &[u8], bad_password: bool, clear: &Option<Vec<u8>>) -> (r: Result<
    Credentials,
    SessionError,
>)
    ensures
        credentials_from(
            body@,
            bad_password,
            match clear {
                Some(c) => Some(c@),
                None => None,
            },
        ) == (match r {
            Ok(c) => Ok(c@),
            Err(e) => Err(e@),
        }),
{
    if bad_password {
        return Err(SessionError::Login(LoginError::InvalidCredentials));
    }
    if body.len() < 34 {
        return Err(SessionError::Refused(Refusal::LoginResponse));
    }
    let clear = match clear {
        Some(clear) => clear,
        None => {
            return Err(SessionError::Refused(Refusal::LoginCipher));
        },
    };
    if clear.len() < 23 {
        return Err(SessionError::Refused(Refusal::LoginResponse));
    }
    let account = bytes::read_le32(clear, 8);
    if account == 0 || account == u32::MAX || clear[0] != 1 {
        return Err(SessionError::Refused(Refusal::LoginRejected));
    }
    let found = bytes::cstr(&clear[12..23]);
    if found.len() != 10 {
        return Err(SessionError::Refused(Refusal::SessionKey));
    }
    let key: [u8; 10] = [
        found[0],
        found[1],
        found[2],
        found[3],
        found[4],
        found[5],
        found[6],
        found[7],
        found[8],
        found[9],
    ];
    assert(key@ =~= found@);
    Ok(Credentials { account, key })
}

/// Where a server with a name stands in a list, in whatever case.
pub open spec fn server_position(servers: Seq<ServerState>, name: Seq<u8>) -> Option<nat>
    decreases servers.len(),
{
    if servers.len() == 0 {
        None
    } else if bytes::lowered(servers[0].name) == bytes::lowered(name) {
        Some(0)
    } else {
        match server_position(servers.skip(1), name) {
            Some(i) => Some(i + 1),
            None => None,
        }
    }
}

fn find_server(servers: &Vec<ServerEntry>, name: &String) -> (r: Option<usize>)
    ensures
        server_position(server_states(servers@), text::utf8(name@)) == (match r {
            Some(i) => Some(i as nat),
            None => None,
        }),
        r matches Some(i) ==> i < servers@.len(),
{
    let ghost all = server_states(servers@);
    let ghost key = text::utf8(name@);
    let mut i: usize = 0;
    assert(all.skip(0) =~= all);
    while i < servers.len()
        invariant
            i <= servers@.len(),
            all == server_states(servers@),
            key == text::utf8(name@),
            server_position(all, key) == (match server_position(all.skip(i as int), key) {
                Some(n) => Some((n + i) as nat),
                None => None,
            }),
        decreases servers@.len() - i,
    {
        assert(all.skip(i as int)[0] == all[i as int]);
        assert(all.skip(i as int).skip(1) =~= all.skip(i + 1));
        if bytes::eq_ignore_ascii_case(text::bytes_of(&servers[i].name), text::bytes_of(name)) {
            return Some(i);
        }
        i = i + 1;
    }
    None
}

/// What the login cipher and the server-list parser make of a packet, and the
/// enciphered account and password.
#[derive(Debug)]
pub struct LoginAid {
    /// Whether a login response has the signature of a rejected password.
    pub bad_password: bool,
    /// The deciphered part of a login response.
    pub clear: Option<Vec<u8>>,
    /// The servers of a server list that could be parsed.
    pub servers: Option<Vec<ServerEntry>>,
    pub encrypted: Vec<u8>,
}

/// The meaning of a `LoginAid`.
#[verifier::ext_equal]
pub struct AidState {
    pub bad_password: bool,
    pub clear: Option<Seq<u8>>,
    pub servers: Option<Seq<ServerState>>,
    pub encrypted: Seq<u8>,
}

impl View for LoginAid {
    type V = AidState;

    open spec fn view(&self) -> AidState {
        AidState {
            bad_password: self.bad_password,
            clear: match self.clear {
                Some(c) => Some(c@),
                None => None,
            },
            servers: match self.servers {
                Some(s) => Some(server_states(s@)),
                None => None,
            },
            encrypted: self.encrypted@,
        }
    }
}

/// A login in progress.
#[derive(Debug)]
pub struct Login {
    pub credentials: Option<Credentials>,
    pub selected: Option<String>,
    pub sent_credentials: bool,
    pub deadline: u64,
}

/// The meaning of a `Login`.
#[verifier::ext_equal]
pub struct LoginState {
    pub credentials: Option<CredentialState>,
    pub selected: Option<Seq<char>>,
    pub sent_credentials: bool,
    pub deadline: u64,
}

impl View for Login {
    type V = LoginState;

    open spec fn view(&self) -> LoginState {
        LoginState {
            credentials: match self.credentials {
                Some(c) => Some(c@),
                None => None,
            },
            selected: match self.selected {
                Some(ip) => Some(ip@),
                None => None,
            },
            sent_credentials: self.sent_credentials,
            deadline: self.deadline,
        }
    }
}

/// A finished login: credentials and the address of the world server.
#[derive(Debug)]
pub struct LoginDone {
    pub credentials: Credentials,
    pub ip: String,
}

pub open spec fn login_end(outcome: Outcome<LoginDone>) -> End<(CredentialState, Seq<char>)> {
    match outcome {
        Outcome::Continue => End::Continue,
        Outcome::Done(done) => End::Done((done.credentials@, done.ip@)),
        Outcome::Fail(e) => End::Fail(e@),
    }
}

/// A stage of progress, as an act.
pub open spec fn progressed(stage: ConnectionStage) -> Act {
    Act::Notify(NoticeState::Progress(stage))
}

/// A message for the host, as an act.
pub open spec fn told(message: Seq<char>) -> Act {
    Act::Notify(NoticeState::Diagnostic(message))
}

/// The first packet of a login.
pub open spec fn ready_packet() -> Seq<u8> {
    bytes::zeros(12).update(0, 2).update(9, 8)
}

/// The header in front of the enciphered credentials.
pub open spec fn credentials_header() -> Seq<u8> {
    bytes::zeros(10).update(0, 3).update(5, 2)
}

/// The request for the server list.
pub open spec fn list_request() -> Seq<u8> {
    bytes::zeros(10).update(0, 4)
}

/// The request to play on a server.
pub open spec fn play_request(runtime_id: u32) -> Seq<u8> {
    bytes::zeros(10).update(0, 5) + bytes::le32(runtime_id)
}

impl LoginState {
    /// A packet of the login server.
    pub open spec fn received(
        self,
        server: Seq<u8>,
        opcode: u16,
        body: Seq<u8>,
        aid: AidState,
    ) -> (LoginState, Seq<Act>, End<(CredentialState, Seq<char>)>) {
        match LoginOpcode::of(opcode) {
            LoginOpcode::Ready => if self.sent_credentials {
                (self, Seq::empty(), End::Continue)
            } else {
                (
                    LoginState { sent_credentials: true, ..self },
                    seq![
                        progressed(ConnectionStage::Authenticating),
                        Act::Send(2, credentials_header() + aid.encrypted),
                    ],
                    End::Continue,
                )
            },
            LoginOpcode::Accepted => match credentials_from(body, aid.bad_password, aid.clear) {
                Err(e) => (self, Seq::empty(), End::Fail(e)),
                Ok(credentials) => (
                    LoginState { credentials: Some(credentials), ..self },
                    seq![
                        progressed(ConnectionStage::SelectingServer),
                        Act::Send(4, list_request()),
                        told("Login server authenticated the account"@),
                    ],
                    End::Continue,
                ),
            },
            LoginOpcode::ServerList => self.listed(server, body, aid.servers),
            LoginOpcode::PlayResponse => if body.len() < 20 || body[10] == 0 {
                (self, Seq::empty(), End::Fail(Fault::Refused(Refusal::WorldDenied)))
            } else {
                match (self.credentials, self.selected) {
                    (None, _) => (
                        self,
                        seq![Act::Close],
                        End::Fail(Fault::Refused(Refusal::PlayBeforeLogin)),
                    ),
                    (_, None) => (
                        self,
                        seq![Act::Close],
                        End::Fail(Fault::Refused(Refusal::PlayBeforeSelection)),
                    ),
                    (Some(credentials), Some(ip)) => (
                        self,
                        seq![Act::Close, progressed(ConnectionStage::ConnectingWorld)],
                        End::Done((credentials, ip)),
                    ),
                }
            },
            LoginOpcode::Unknown(_) => (self, Seq::empty(), End::Continue),
        }
    }

    /// The server list: the configured server has to be in it and open.
    pub open spec fn listed(
        self,
        server: Seq<u8>,
        body: Seq<u8>,
        servers: Option<Seq<ServerState>>,
    ) -> (LoginState, Seq<Act>, End<(CredentialState, Seq<char>)>) {
        if body.len() < 20 {
            (self, Seq::empty(), End::Fail(Fault::Refused(Refusal::ServerListTruncated)))
        } else {
            match servers {
                None => (
                    self,
                    Seq::empty(),
                    End::Fail(Fault::Refused(Refusal::ServerListInvalid)),
                ),
                Some(servers) => match server_position(servers, server) {
                    None => (
                        self,
                        Seq::empty(),
                        End::Fail(Fault::Refused(Refusal::ServerAbsent)),
                    ),
                    Some(i) => {
                        let found = servers[i as int];
                        if found.status != 0 && found.status != 2 {
                            (
                                self,
                                Seq::empty(),
                                End::Fail(Fault::Refused(Refusal::ServerLocked)),
                            )
                        } else {
                            (
                                LoginState { selected: Some(found.ip), ..self },
                                seq![Act::Send(0x0d, play_request(found.runtime_id))],
                                End::Continue,
                            )
                        }
                    },
                },
            }
        }
    }
}

impl Login {
    /// Begin a login on a new session.
    pub fn start(now: u64) -> (r: (Self, Actions))
        ensures
            r.0@ == (LoginState {
                credentials: None,
                selected: None,
                sent_credentials: false,
                deadline: model::after(now, 45_000_000_000),
            }),
            r.1@ == seq![Act::Send(1, ready_packet())],
    {
        let mut ready = bytes::zero_bytes(12);
        ready.set(0, 2);
        ready.set(9, 8);
        let mut actions = Actions::new();
        actions.send(1, ready);
        assert(actions@ =~= seq![Act::Send(1, ready_packet())]);
        let login = Login {
            credentials: None,
            selected: None,
            sent_credentials: false,
            deadline: later(now, 45_000_000_000),
        };
        (login, actions)
    }

    /// Take a packet of the login server.
    pub fn receive(&mut self, config: &ClientConfig, packet: &Application, aid: LoginAid) -> (r: (
        Actions,
        Outcome<LoginDone>,
    ))
        ensures
            old(self)@.received(text::utf8(config.server@), packet.opcode, packet.body@, aid@) == (
                final(self)@,
                r.0@,
                login_end(r.1),
            ),
    {
        let mut actions = Actions::new();
        match LoginOpcode::from(packet.opcode) {
            LoginOpcode::Ready => {
                if !self.sent_credentials {
                    actions.progress(ConnectionStage::Authenticating);
                    let mut body = bytes::zero_bytes(10);
                    body.set(0, 3);
                    body.set(5, 2);
                    body.extend_from_slice(&aid.encrypted);
                    assert(body@ =~= credentials_header() + aid.encrypted@);
                    actions.send(2, body);
                    self.sent_credentials = true;
                    assert(actions@ =~= seq![
                        progressed(ConnectionStage::Authenticating),
                        Act::Send(2, credentials_header() + aid.encrypted@),
                    ]);
                }
            },
            LoginOpcode::Accepted => {
                match login_credentials(&packet.body, aid.bad_password, &aid.clear) {
                    Ok(credentials) => {
                        self.credentials = Some(credentials);
                    },
                    Err(e) => {
                        return (actions, Outcome::Fail(e));
                    },
                }
                actions.progress(ConnectionStage::SelectingServer);
                let mut request = bytes::zero_bytes(10);
                request.set(0, 4);
                actions.send(4, request);
                actions.diagnostic("Login server authenticated the account".to_owned());
                assert(actions@ =~= seq![
                    progressed(ConnectionStage::SelectingServer),
                    Act::Send(4, list_request()),
                    told("Login server authenticated the account"@),
                ]);
            },
            LoginOpcode::ServerList => {
                return self.list(config, &packet.body, aid.servers);
            },
            LoginOpcode::PlayResponse => {
                if packet.body.len() < 20 || packet.body[10] == 0 {
                    return (actions, Outcome::Fail(SessionError::Refused(Refusal::WorldDenied)));
                }
                actions.close();
                assert(actions@ =~= seq![Act::Close]);
                let credentials = match self.credentials {
                    Some(credentials) => credentials,
                    None => {
                        return (
                            actions,
                            Outcome::Fail(SessionError::Refused(Refusal::PlayBeforeLogin)),
                        );
                    },
                };
                let ip = match &self.selected {
                    Some(ip) => ip.clone(),
                    None => {
                        return (
                            actions,
                            Outcome::Fail(SessionError::Refused(Refusal::PlayBeforeSelection)),
                        );
                    },
                };
                actions.progress(ConnectionStage::ConnectingWorld);
                assert(actions@ =~= seq![
                    Act::Close,
                    progressed(ConnectionStage::ConnectingWorld),
                ]);
                return (actions, Outcome::Done(LoginDone { credentials, ip }));
            },
            LoginOpcode::Unknown(_) => {},
        }
        (actions, Outcome::Continue)
    }

    fn list(&mut self, config: &ClientConfig, body: &[u8], servers: Option<Vec<ServerEntry>>) -> (r:
        (Actions, Outcome<LoginDone>))
        ensures
            old(self)@.listed(
                text::utf8(config.server@),
                body@,
                match servers {
                    Some(s) => Some(server_states(s@)),
                    None => None,
                },
            ) == (final(self)@, r.0@, login_end(r.1)),
    {
        let mut actions = Actions::new();
        if body.len() < 20 {
            return (actions, Outcome::Fail(SessionError::Refused(Refusal::ServerListTruncated)));
        }
        let servers = match servers {
            Some(servers) => servers,
            None => {
                return (
                    actions,
                    Outcome::Fail(SessionError::Refused(Refusal::ServerListInvalid)),
                );
            },
        };
        let at: usize = match find_server(&servers, &config.server) {
            Some(at) => at,
            None => {
                return (actions, Outcome::Fail(SessionError::Refused(Refusal::ServerAbsent)));
            },
        };
        assert(server_states(servers@)[at as int].status == servers@[at as int].status);
        if servers[at].status != 0 && servers[at].status != 2 {
            return (actions, Outcome::Fail(SessionError::Refused(Refusal::ServerLocked)));
        }
        let mut request = bytes::zero_bytes(10);
        request.set(0, 5);
        bytes::push_le32(&mut request, servers[at].runtime_id);
        actions.send(0x0d, request);
        self.selected = Some(servers[at].ip.clone());
        assert(actions@ =~= seq![Act::Send(0x0d, play_request(servers@[at as int].runtime_id))]);
        (actions, Outcome::Continue)
    }
}

/// Text at the start of a field that is zero behind it.
pub open spec fn padded(data: Seq<u8>, size: nat) -> Seq<u8> {
    data + bytes::zeros((size - data.len()) as nat)
}

/// Append a NUL-terminated field of a fixed size.
pub(crate) fn push_field(out: &mut Vec<u8>, value: &String, size: usize) -> (r: Result<
    (),
    SessionError,
>)
    ensures
        match r {
            Ok(_) => bytes::fits_field(text::utf8(value@), size as nat) && final(out)@
                == old(out)@ + padded(text::utf8(value@), size as nat),
            Err(e) => !bytes::fits_field(text::utf8(value@), size as nat) && e@ == Fault::Refused(
                Refusal::FieldSize,
            ) && final(out)@ == old(out)@,
        },
{
    let data = text::bytes_of(value);
    if data.len() >= size || bytes::contains(data, 0) {
        return Err(SessionError::Refused(Refusal::FieldSize));
    }
    out.extend_from_slice(data);
    out.extend_from_slice(&bytes::zero_bytes(size - data.len()));
    assert(out@ =~= old(out)@ + padded(data@, size as nat));
    Ok(())
}

/// The local address of a validation response, which names no loopback address.
pub open spec fn local_octets(ip: Option<[u8; 4]>) -> Seq<u8> {
    match ip {
        Some(octets) => if octets@[0] == 127 {
            bytes::zeros(4)
        } else {
            octets@
        },
        None => bytes::zeros(4),
    }
}

/// A CRC1 response before the session permutation: the spell file by inverted
/// checksum and size, a metadata block, host and user name, and two addresses.
pub open spec fn crc1_plain(
    spells: FileChecksum,
    hostname: Seq<u8>,
    username: Seq<u8>,
    ip: Option<[u8; 4]>,
) -> Seq<u8> {
    bytes::le32((u32::MAX - spells.crc32) as u32) + bytes::le32(spells.size as u32) + seq![
        0xffu8,
        0xffu8,
        0xffu8,
        0xffu8,
    ] + bytes::zeros(33) + seq![1u8, 27u8] + bytes::zeros(3) + padded(hostname, 16) + padded(
        username,
        16,
    ) + seq![127u8, 0u8, 0u8, 1u8] + local_octets(ip) + bytes::zeros(1966)
}

/// The CRC1 client-validation response, or what keeps it from being built.
pub open spec fn crc1_response(
    spells: Option<FileChecksum>,
    hostname: Seq<u8>,
    username: Seq<u8>,
    ip: Option<[u8; 4]>,
    key: Seq<u8>,
) -> Result<Seq<u8>, Fault> {
    match spells {
        None => Err(Fault::Asset(AssetFault::NoSpells)),
        Some(spells) => if spells.size > u32::MAX {
            Err(Fault::Refused(Refusal::SpellSize))
        } else if !bytes::fits_field(hostname, 16) || !bytes::fits_field(username, 16) {
            Err(Fault::Refused(Refusal::FieldSize))
        } else if key.len() == 0 {
            Err(Fault::Codec(p99::CodecError::SessionKey))
        } else {
            let plain = crc1_plain(spells, hostname, username, ip);
            Ok(p99::session_mixed(plain.take(2048), key) + plain.skip(2048))
        },
    }
}

/// Build the current P99 CRC1 client-validation response.
pub fn crc1(
    assets: &Assets,
    local_ip: Option<[u8; 4]>,
    identity: &ClientIdentity,
    key: &[u8],
) -> (r: Result<Vec<u8>, SessionError>)
    ensures
        crc1_response(
            assets.spell_file(),
            text::utf8(identity.hostname@),
            text::utf8(identity.username@),
            local_ip,
            key@,
        ) == (match r {
            Ok(body) => Ok(body@),
            Err(e) => Err(e@),
        }),
{
    let spells = match assets.spells() {
        Ok(spells) => spells,
        Err(e) => {
            return Err(SessionError::Asset(e));
        },
    };
    if spells.size > 0xffff_ffff {
        return Err(SessionError::Refused(Refusal::SpellSize));
    }
    let ghost hostname = text::utf8(identity.hostname@);
    let ghost username = text::utf8(identity.username@);
    let mut body: Vec<u8> = Vec::new();
    bytes::push_le32(&mut body, u32::MAX - spells.crc32);
    bytes::push_le32(&mut body, spells.size as u32);
    body.extend_from_slice(&[0xff, 0xff, 0xff, 0xff]);
    body.extend_from_slice(&bytes::zero_bytes(33));
    body.extend_from_slice(&[1, 27]);
    body.extend_from_slice(&bytes::zero_bytes(3));
    assert(body@ =~= bytes::le32((u32::MAX - spells.crc32) as u32) + bytes::le32(
        spells.size as u32,
    ) + seq![0xffu8, 0xffu8, 0xffu8, 0xffu8] + bytes::zeros(33) + seq![1u8, 27u8]
        + bytes::zeros(3));
    if let Err(e) = push_field(&mut body, &identity.hostname, 16) {
        return Err(e);
    }
    if let Err(e) = push_field(&mut body, &identity.username, 16) {
        return Err(e);
    }
    let ghost named = body@;
    body.extend_from_slice(&[127, 0, 0, 1]);
    assert(body@ =~= named + seq![127u8, 0u8, 0u8, 1u8]);
    let ghost loopback = body@;
    match local_ip {
        Some(octets) => {
            if octets[0] == 127 {
                body.extend_from_slice(&bytes::zero_bytes(4));
            } else {
                body.extend_from_slice(&octets);
            }
        },
        None => {
            body.extend_from_slice(&bytes::zero_bytes(4));
        },
    }
    assert(body@ =~= loopback + local_octets(local_ip));
    body.extend_from_slice(&bytes::zero_bytes(1966));
    let ghost plain = crc1_plain(spells, hostname, username, local_ip);
    assert(body@ == plain);
    assert(plain.len() == 2056);
    let (first, rest) = body.split_at_mut(2048);
    assert(first@ =~= plain.take(2048));
    assert(rest@ =~= plain.skip(2048));
    match p99::session_xor(first, key) {
        Ok(_) => {},
        Err(e) => {
            return Err(SessionError::Codec(e));
        },
    }
    Ok(body)
}

/// The warning about files that the inventory does not know.
pub open spec fn unknown_warning(names: Seq<Seq<u8>>) -> Seq<char> {
    "Warning: asset inventory has no entry for "@ + text::joined(
        names.map_values(|n: Seq<u8>| vstd::utf8::decode_utf8(n)),
        ", "@,
    ) + "; sending checksum 0"@
}

/// A checksum response, with the warnings that come before it.
pub open spec fn file_answer(files: Map<Seq<u8>, Option<FileChecksum>>, manifest: Seq<u8>) -> (
    Seq<Act>,
    Result<Seq<u8>, Fault>,
) {
    match assets::manifest_entries(manifest) {
        Err(e) => (Seq::empty(), Err(Fault::Asset(e))),
        Ok(entries) => (
            if assets::unknown(files, entries).len() == 0 {
                Seq::empty()
            } else {
                seq![told(unknown_warning(assets::unknown(files, entries)))]
            },
            Ok(assets::response_body(files, manifest, entries)),
        ),
    }
}

/// Texts with given bytes are what the bytes decode to.
proof fn lemma_decoded_names(names: Seq<String>)
    ensures
        assets::name_bytes(names).map_values(|n: Seq<u8>| vstd::utf8::decode_utf8(n))
            == text::texts(names),
{
    let decoded = assets::name_bytes(names).map_values(|n: Seq<u8>| vstd::utf8::decode_utf8(n));
    assert forall|i: int| 0 <= i < names.len() implies decoded[i] == text::texts(names)[i] by {
        vstd::utf8::encode_utf8_decode_utf8(names[i]@);
    }
    assert(decoded =~= text::texts(names));
}

/// Warn about unscanned files while allowing the server to evaluate checksum zero.
pub fn file_response(assets: &Assets, manifest: &[u8], actions: &mut Actions) -> (r: Result<
    Vec<u8>,
    SessionError,
>)
    ensures
        final(actions)@ == old(actions)@ + file_answer(assets@, manifest@).0,
        file_answer(assets@, manifest@).1 == (match r {
            Ok(body) => Ok(body@),
            Err(e) => Err(e@),
        }),
{
    let response = match assets.checksum_response(manifest) {
        Ok(response) => response,
        Err(e) => {
            assert(actions@ =~= actions@ + Seq::<Act>::empty());
            return Err(SessionError::Asset(e));
        },
    };
    let ghost names = assets::name_bytes(response.unknown_files@);
    if response.unknown_files.len() > 0 {
        let mut message = "Warning: asset inventory has no entry for ".to_owned();
        let list = text::join(&response.unknown_files, ", ");
        message.append(list.as_str());
        message.append("; sending checksum 0");
        proof {
            lemma_decoded_names(response.unknown_files@);
            assert(names.len() > 0);
        }
        actions.diagnostic(message);
        assert(actions@ =~= old(actions)@ + seq![told(unknown_warning(names))]);
    } else {
        assert(names.len() == 0);
        assert(actions@ =~= old(actions)@ + Seq::<Act>::empty());
    }
    Ok(response.body)
}

/// What the communication decoder makes of a packet.
#[derive(Debug)]
pub enum ChatOutcome {
    /// The packet is no communication.
    Nothing,
    Event(ChatEvent),
    /// A recognized communication is malformed, with the reason.
    Error(String),
}

/// The meaning of a `ChatOutcome`.
#[verifier::ext_equal]
pub enum ChatOutcomeState {
    Nothing,
    Event(ChatState),
    Error(Seq<char>),
}

impl View for ChatOutcome {
    type V = ChatOutcomeState;

    open spec fn view(&self) -> ChatOutcomeState {
        match self {
            ChatOutcome::Nothing => ChatOutcomeState::Nothing,
            ChatOutcome::Event(event) => ChatOutcomeState::Event(event@),
            ChatOutcome::Error(message) => ChatOutcomeState::Error(message@),
        }
    }
}

/// What the decoder makes of a packet of the Titanium client.
pub open spec fn decoded_chat(
    opcode: u16,
    body: Seq<u8>,
    include_raw: bool,
    channels: Seq<ChannelNumber>,
) -> ChatOutcomeState {
    if opcode != chat::CHANNEL_MESSAGE {
        ChatOutcomeState::Nothing
    } else if body.len() < 148 {
        ChatOutcomeState::Error("truncated channel message"@)
    } else {
        ChatOutcomeState::Event(chat::channel_message(body, include_raw, channels))
    }
}

/// Decode a packet of the Titanium client.
pub fn decode_chat(
    opcode: u16,
    body: &[u8],
    include_raw: bool,
    channels: &[ChannelNumber],
) -> (outcome: ChatOutcome)
    ensures
        outcome@ == decoded_chat(opcode, body@, include_raw, channels@),
{
    match chat::parse(opcode, body, include_raw, channels) {
        Ok(Some(event)) => ChatOutcome::Event(event),
        Ok(None) => ChatOutcome::Nothing,
        Err(e) => ChatOutcome::Error(e.message().to_owned()),
    }
}

/// What a world session works with.
pub struct WorldContext<'a> {
    pub config: &'a ClientConfig,
    pub identity: &'a ClientIdentity,
    pub assets: &'a Assets,
    pub credentials: &'a Credentials,
    pub world_only: bool,
    /// The local address of the session, where it is an IPv4 address.
    pub local_ip: Option<[u8; 4]>,
}

/// A world session in progress.
#[derive(Debug)]
pub struct World {
    pub codec: WorldCodec,
    pub accepted: bool,
    pub entered: bool,
    pub deadline: u64,
}

/// The meaning of a `World`.
#[verifier::ext_equal]
pub struct WorldState {
    pub codec: CodecState,
    pub accepted: bool,
    pub entered: bool,
    pub deadline: u64,
}

impl View for World {
    type V = WorldState;

    open spec fn view(&self) -> WorldState {
        WorldState {
            codec: self.codec@,
            accepted: self.accepted,
            entered: self.entered,
            deadline: self.deadline,
        }
    }
}

/// The end of a world session.
#[derive(Debug)]
pub enum WorldDone {
    /// Validation was all that was asked for.
    Validated,
    /// The zone to enter, with the answer to its file manifest.
    Zone { host: String, port: u16, checksums: Vec<u8> },
}

/// The meaning of a `WorldDone`.
#[verifier::ext_equal]
pub enum WorldDoneState {
    Validated,
    Zone { host: Seq<u8>, port: u16, checksums: Seq<u8> },
}

pub open spec fn world_end(outcome: Outcome<WorldDone>) -> End<WorldDoneState> {
    match outcome {
        Outcome::Continue => End::Continue,
        Outcome::Done(WorldDone::Validated) => End::Done(WorldDoneState::Validated),
        Outcome::Done(WorldDone::Zone { host, port, checksums }) => End::Done(
            WorldDoneState::Zone { host: text::utf8(host@), port, checksums: checksums@ },
        ),
        Outcome::Fail(e) => End::Fail(e@),
    }
}

/// The login information of the world server: the account number and, behind a
/// NUL, the session key.
pub open spec fn login_info(credentials: CredentialState) -> Seq<u8> {
    padded(bytes::decimal(credentials.account as nat) + seq![0u8] + credentials.key, 192)
        + seq![0xccu8] + bytes::zeros(271)
}

/// A number of 32 bits has at most ten digits.
proof fn lemma_account_digits(n: nat)
    requires
        n <= 0xffff_ffff,
    ensures
        1 <= bytes::decimal(n).len() <= 10,
{
    reveal_with_fuel(bytes::decimal, 11);
}

/// Whether a NUL-terminated name occurs in a packet, in whatever case.
pub open spec fn named_in(body: Seq<u8>, name: Seq<u8>) -> bool {
    exists|i: int|
        0 <= i && i + name.len() + 1 <= body.len() && bytes::lowered(
            #[trigger] body.subrange(i, i + name.len() + 1),
        ) == bytes::lowered(name.push(0u8))
}

/// Look for a NUL-terminated name in a packet, in whatever case.
fn has_name(body: &[u8], name: &[u8]) -> (found: bool)
    ensures
        found == named_in(body@, name@),
{
    let mut target = vstd::slice::slice_to_vec(name);
    target.push(0);
    let size: usize = target.len();
    if body.len() < size {
        return false;
    }
    let mut i: usize = 0;
    while i <= body.len() - size
        invariant
            size == name@.len() + 1,
            size <= body@.len(),
            target@ == name@.push(0u8),
            target@.len() == size,
            i <= body@.len() - size + 1,
            forall|j: int|
                0 <= j < i ==> bytes::lowered(
                    #[trigger] body@.subrange(j, j + name@.len() + 1),
                ) != bytes::lowered(name@.push(0u8)),
        decreases body@.len() - size + 1 - i,
    {
        if bytes::eq_ignore_ascii_case(&body[i..i + size], &target) {
            assert(body@.subrange(i as int, i + name@.len() + 1) =~= body@.subrange(
                i as int,
                i + size,
            ));
            return true;
        }
        i = i + 1;
    }
    false
}

/// The packet that enters the world with a character.
pub open spec fn enter_packet(character: Seq<u8>) -> Seq<u8> {
    padded(character, 64) + bytes::zeros(8)
}

/// What is reported of every world packet.
pub open spec fn world_greeting(chat: ChatOutcomeState, opcode: u16, body: Seq<u8>) -> Seq<Act> {
    chat_record(Seq::empty(), chat, opcode, body).push(
        told(super::step::received_text("World received 0x"@, opcode, body.len())),
    )
}

impl WorldState {
    /// A packet of the world server.
    pub open spec fn received(
        self,
        context: WorldContext,
        nonce: u64,
        opcode: u16,
        body: Seq<u8>,
        chat: ChatOutcomeState,
    ) -> (WorldState, Seq<Act>, End<WorldDoneState>) {
        let greeting = world_greeting(chat, opcode, body);
        match WorldOpcode::of(opcode) {
            WorldOpcode::ApprovalChallenge => match p99::challenge_error(body) {
                Some(e) => (self, greeting, End::Fail(Fault::Codec(e))),
                None => {
                    let (codec, answer) = p99::approval_encoded(
                        self.codec,
                        p99::approval_body(p99::encrypted_nonce(nonce, body)),
                    );
                    (
                        WorldState { codec, ..self },
                        greeting + seq![Act::Send(0x3c25, answer)],
                        End::Continue,
                    )
                },
            },
            WorldOpcode::FileManifest => {
                let (next, more, end) = self.checked(context, body);
                (next, greeting + more, end)
            },
            WorldOpcode::ValidationResult => if body != seq![0u8] {
                (self, greeting, End::Fail(Fault::Validation(outside::hex_of(body))))
            } else {
                let accepted = greeting + seq![
                    progressed(ConnectionStage::SelectingCharacter),
                    told("World accepted native V62 client validation"@),
                    Act::Send(0x7752, bytes::le32(0)),
                    Act::Send(0x5e99, Seq::empty()),
                ];
                if context.world_only {
                    (
                        WorldState { accepted: true, ..self },
                        accepted.push(Act::Close),
                        End::Done(WorldDoneState::Validated),
                    )
                } else {
                    (WorldState { accepted: true, ..self }, accepted, End::Continue)
                }
            },
            WorldOpcode::CharacterList => if !self.accepted || self.entered {
                (self, greeting, End::Continue)
            } else {
                let (next, more, end) = self.selected(
                    text::utf8(context.config.character@),
                    body,
                );
                (next, greeting + more, end)
            },
            WorldOpcode::ZoneHandoff => {
                let (more, end) = self.handed_off(context, body);
                (self, greeting + more, end)
            },
            WorldOpcode::Unknown(_) => (self, greeting, End::Continue),
        }
    }

    /// The file manifest: answered with a validation response and the checksums
    /// that it asks for.
    pub open spec fn checked(self, context: WorldContext, body: Seq<u8>) -> (
        WorldState,
        Seq<Act>,
        End<WorldDoneState>,
    ) {
        let (codec, manifest, error) = p99::manifest_read(self.codec, body);
        let next = WorldState { codec, ..self };
        if error is Some {
            (next, Seq::empty(), End::Fail(Fault::Codec(error->0)))
        } else {
            let (warnings, answer) = file_answer(context.assets@, manifest);
            match answer {
                Err(e) => (next, warnings, End::Fail(e)),
                Ok(plain) => match p99::response_encoded(codec, plain) {
                    Err(e) => (next, warnings, End::Fail(Fault::Codec(e))),
                    Ok(response) => match crc1_response(
                        context.assets.spell_file(),
                        text::utf8(context.identity.hostname@),
                        text::utf8(context.identity.username@),
                        context.local_ip,
                        context.credentials@.key,
                    ) {
                        Err(e) => (next, warnings, End::Fail(e)),
                        Ok(crc1) => (
                            next,
                            warnings.push(Act::Send(0x5072, crc1)).push(
                                Act::Send(0x1251, response),
                            ),
                            End::Continue,
                        ),
                    },
                },
            }
        }
    }

    /// The character list. A populated record must contain the exact,
    /// NUL-terminated configured name before we request entry.
    pub open spec fn selected(self, character: Seq<u8>, body: Seq<u8>) -> (
        WorldState,
        Seq<Act>,
        End<WorldDoneState>,
    ) {
        if !named_in(body, character) {
            (self, Seq::empty(), End::Fail(Fault::Refused(Refusal::CharacterAbsent)))
        } else if !bytes::fits_field(character, 64) {
            (self, Seq::empty(), End::Fail(Fault::Refused(Refusal::FieldSize)))
        } else {
            (
                WorldState { entered: true, ..self },
                seq![
                    Act::Send(0x7cba, enter_packet(character)),
                    progressed(ConnectionStage::ConnectingZone),
                ],
                End::Continue,
            )
        }
    }

    /// The handoff to a zone server.
    pub open spec fn handed_off(self, context: WorldContext, body: Seq<u8>) -> (
        Seq<Act>,
        End<WorldDoneState>,
    ) {
        let host = bytes::until_nul(body.take(128));
        if !self.entered || body.len() < 130 {
            (Seq::empty(), End::Fail(Fault::Refused(Refusal::Handoff)))
        } else if !vstd::utf8::valid_utf8(host) {
            (Seq::empty(), End::Fail(Fault::Refused(Refusal::HostEncoding)))
        } else {
            match p99::zone_manifest_read(self.codec, body) {
                Err(e) => (Seq::empty(), End::Fail(Fault::Codec(e))),
                Ok(manifest) => {
                    let (warnings, answer) = file_answer(context.assets@, manifest);
                    match answer {
                        Err(e) => (warnings, End::Fail(e)),
                        Ok(checksums) => (
                            warnings.push(Act::Send(0x509d, Seq::empty())).push(Act::Close),
                            End::Done(
                                WorldDoneState::Zone {
                                    host,
                                    port: bytes::le16_at(body, 128),
                                    checksums,
                                },
                            ),
                        ),
                    }
                },
            }
        }
    }
}

impl World {
    /// Begin a world session.
    pub fn start(credentials: &Credentials, now: u64) -> (r: Result<(Self, Actions), SessionError>)
        ensures
            r matches Ok((world, actions)) && world@ == (WorldState {
                codec: CodecState {
                    key: outside::md5_of(login_info(credentials@)),
                    incoming: None,
                    outgoing: None,
                },
                accepted: false,
                entered: false,
                deadline: model::after(now, 60_000_000_000),
            }) && actions@ == seq![Act::Send(0x4dd0, login_info(credentials@))],
    {
        let mut info = bytes::decimal_bytes(credentials.account as u64);
        proof {
            lemma_account_digits(credentials.account as nat);
        }
        info.push(0);
        info.extend_from_slice(&credentials.key);
        let ghost head = info@;
        assert(head =~= bytes::decimal(credentials.account as nat) + seq![0u8] + credentials.key@);
        info.extend_from_slice(&bytes::zero_bytes(192 - info.len()));
        info.push(0xcc);
        info.extend_from_slice(&bytes::zero_bytes(271));
        assert(info@ =~= login_info(credentials@));
        assert(info@.len() == 464);
        let codec = match WorldCodec::new(&info) {
            Ok(codec) => codec,
            Err(e) => {
                return Err(SessionError::Codec(e));
            },
        };
        let mut actions = Actions::new();
        actions.send(0x4dd0, info);
        assert(actions@ =~= seq![Act::Send(0x4dd0, login_info(credentials@))]);
        let world = World {
            codec,
            accepted: false,
            entered: false,
            deadline: later(now, 60_000_000_000),
        };
        Ok((world, actions))
    }

    /// Take a packet of the world server.
    pub fn receive(&mut self, context: &WorldContext, packet: &Application, chat: ChatOutcome) -> (
        r: (Actions, Outcome<WorldDone>))
        ensures
            exists|nonce: u64|
                nonce % 2 == 1 && #[trigger] old(self)@.received(
                    *context,
                    nonce,
                    packet.opcode,
                    packet.body@,
                    chat@,
                ) == (final(self)@, r.0@, world_end(r.1)),
    {
        let random = outside::random_u64();
        let nonce: u64 = random | 1;
        assert(nonce % 2 == 1) by (bit_vector)
            requires
                nonce == random | 1,
        ;
        self.receive_with(nonce, context, packet, chat)
    }

    /// Take a packet of the world server, with the nonce for its approval.
    pub fn receive_with(
        &mut self,
        nonce: u64,
        context: &WorldContext,
        packet: &Application,
        chat: ChatOutcome,
    ) -> (r: (Actions, Outcome<WorldDone>))
        ensures
            old(self)@.received(*context, nonce, packet.opcode, packet.body@, chat@) == (
                final(self)@,
                r.0@,
                world_end(r.1),
            ),
    {
        let mut actions = Actions::new();
        let nowhere = String::new();
        proof {
            reveal_strlit("");
            assert(nowhere@ =~= Seq::empty());
        }
        let ghost greeting = world_greeting(chat@, packet.opcode, packet.body@);
        record_chat(&nowhere, chat, packet.opcode, &packet.body, &mut actions);
        actions.received("World received 0x", packet.opcode, packet.body.len());
        assert(actions@ =~= greeting);
        match WorldOpcode::from(packet.opcode) {
            WorldOpcode::ApprovalChallenge => {
                match self.codec.approve_with(nonce, &packet.body) {
                    Ok(answer) => {
                        actions.send(0x3c25, answer);
                        assert(actions@ =~= greeting + seq![Act::Send(0x3c25, answer@)]);
                    },
                    Err(e) => {
                        return (actions, Outcome::Fail(SessionError::Codec(e)));
                    },
                }
            },
            WorldOpcode::FileManifest => {
                let r = self.check(context, &packet.body, &mut actions);
                return (
                    actions,
                    match r {
                        Ok(_) => Outcome::Continue,
                        Err(e) => Outcome::Fail(e),
                    },
                );
            },
            WorldOpcode::ValidationResult => {
                if packet.body.len() != 1 || packet.body[0] != 0 {
                    assert(packet.body@ != seq![0u8]);
                    return (
                        actions,
                        Outcome::Fail(SessionError::Validation(outside::hex(&packet.body))),
                    );
                }
                assert(packet.body@ =~= seq![0u8]);
                self.accepted = true;
                actions.progress(ConnectionStage::SelectingCharacter);
                actions.diagnostic("World accepted native V62 client validation".to_owned());
                actions.send_word(0x7752, 0);
                actions.send_empty(0x5e99);
                assert(actions@ =~= greeting + seq![
                    progressed(ConnectionStage::SelectingCharacter),
                    told("World accepted native V62 client validation"@),
                    Act::Send(0x7752, bytes::le32(0)),
                    Act::Send(0x5e99, Seq::empty()),
                ]);
                if context.world_only {
                    actions.close();
                    return (actions, Outcome::Done(WorldDone::Validated));
                }
            },
            WorldOpcode::CharacterList => {
                if self.accepted && !self.entered {
                    let r = self.select(context.config, &packet.body, &mut actions);
                    return (
                        actions,
                        match r {
                            Ok(_) => Outcome::Continue,
                            Err(e) => Outcome::Fail(e),
                        },
                    );
                }
            },
            WorldOpcode::ZoneHandoff => {
                let r = self.hand_off(context, &packet.body, &mut actions);
                return (
                    actions,
                    match r {
                        Ok(done) => Outcome::Done(done),
                        Err(e) => Outcome::Fail(e),
                    },
                );
            },
            WorldOpcode::Unknown(_) => {},
        }
        (actions, Outcome::Continue)
    }

    fn check(&mut self, context: &WorldContext, body: &[u8], actions: &mut Actions) -> (r: Result<
        (),
        SessionError,
    >)
        ensures
            ({
                let (next, more, end) = old(self)@.checked(*context, body@);
                &&& final(self)@ == next
                &&& final(actions)@ == old(actions)@ + more
                &&& end == (match r {
                    Ok(_) => End::<WorldDoneState>::Continue,
                    Err(e) => End::Fail(e@),
                })
            }),
    {
        let mut manifest = vstd::slice::slice_to_vec(body);
        if let Err(e) = self.codec.manifest(&mut manifest) {
            assert(actions@ =~= actions@ + Seq::<Act>::empty());
            return Err(SessionError::Codec(e));
        }
        let mut response = match file_response(context.assets, &manifest, actions) {
            Ok(response) => response,
            Err(e) => {
                return Err(e);
            },
        };
        let ghost warned = actions@;
        if let Err(e) = self.codec.file_response(&mut response) {
            return Err(SessionError::Codec(e));
        }
        let answer = match crc1(
            context.assets,
            context.local_ip,
            context.identity,
            &context.credentials.key,
        ) {
            Ok(answer) => answer,
            Err(e) => {
                return Err(e);
            },
        };
        actions.send(0x5072, answer);
        actions.send(0x1251, response);
        proof {
            let warnings = file_answer(context.assets@, manifest@).0;
            assert(actions@ =~= old(actions)@ + warnings.push(Act::Send(0x5072, answer@)).push(
                Act::Send(0x1251, response@),
            ));
        }
        Ok(())
    }

    fn select(&mut self, config: &ClientConfig, body: &[u8], actions: &mut Actions) -> (r: Result<
        (),
        SessionError,
    >)
        ensures
            ({
                let (next, more, end) = old(self)@.selected(text::utf8(config.character@), body@);
                &&& final(self)@ == next
                &&& final(actions)@ == old(actions)@ + more
                &&& end == (match r {
                    Ok(_) => End::<WorldDoneState>::Continue,
                    Err(e) => End::Fail(e@),
                })
            }),
    {
        let ghost character = text::utf8(config.character@);
        if !has_name(body, text::bytes_of(&config.character)) {
            assert(actions@ =~= actions@ + Seq::<Act>::empty());
            return Err(SessionError::Refused(Refusal::CharacterAbsent));
        }
        let mut enter: Vec<u8> = Vec::new();
        if let Err(e) = push_field(&mut enter, &config.character, 64) {
            assert(actions@ =~= actions@ + Seq::<Act>::empty());
            return Err(e);
        }
        enter.extend_from_slice(&bytes::zero_bytes(8));
        assert(enter@ =~= enter_packet(character));
        actions.send(0x7cba, enter);
        self.entered = true;
        actions.progress(ConnectionStage::ConnectingZone);
        assert(actions@ =~= old(actions)@ + seq![
            Act::Send(0x7cba, enter_packet(character)),
            progressed(ConnectionStage::ConnectingZone),
        ]);
        Ok(())
    }

    fn hand_off(&self, context: &WorldContext, body: &[u8], actions: &mut Actions) -> (r: Result<
        WorldDone,
        SessionError,
    >)
        ensures
            ({
                let (more, end) = self@.handed_off(*context, body@);
                &&& final(actions)@ == old(actions)@ + more
                &&& end == world_end(
                    match r {
                        Ok(done) => Outcome::Done(done),
                        Err(e) => Outcome::Fail(e),
                    },
                )
            }),
    {
        if !self.entered || body.len() < 130 {
            assert(actions@ =~= actions@ + Seq::<Act>::empty());
            return Err(SessionError::Refused(Refusal::Handoff));
        }
        assert(body@.subrange(0, 128) =~= body@.take(128));
        let name = bytes::cstr(&body[0..128]);
        let host = match outside::text_from_utf8(vstd::slice::slice_to_vec(name)) {
            Some(host) => host,
            None => {
                assert(actions@ =~= actions@ + Seq::<Act>::empty());
                return Err(SessionError::Refused(Refusal::HostEncoding));
            },
        };
        let port = bytes::read_le16(body, 128);
        let manifest = match self.codec.zone_manifest(body) {
            Ok(manifest) => manifest,
            Err(e) => {
                assert(actions@ =~= actions@ + Seq::<Act>::empty());
                return Err(SessionError::Codec(e));
            },
        };
        let checksums = match file_response(context.assets, &manifest, actions) {
            Ok(checksums) => checksums,
            Err(e) => {
                return Err(e);
            },
        };
        actions.send_empty(0x509d);
        actions.close();
        proof {
            let warnings = file_answer(context.assets@, manifest@).0;
            assert(actions@ =~= old(actions)@ + warnings.push(
                Act::Send(0x509d, Seq::empty()),
            ).push(Act::Close));
        }
        Ok(WorldDone::Zone { host, port, checksums })
    }
}

/// What a zone session works with.
pub struct ZoneContext<'a> {
    pub config: &'a ClientConfig,
    pub credentials: &'a Credentials,
    /// The chat categories that the server is asked to send.
    pub filters: &'a [u8],
    /// Seconds since the session last received a valid datagram.
    pub last_received_seconds: u64,
}

/// A zone session in progress.
#[derive(Debug)]
pub struct Zone {
    pub codec: WorldCodec,
    pub checksums: Vec<u8>,
    pub connected: u64,
    pub progress: u64,
    pub last_position: u64,
    pub position_sequence: u16,
    pub packets: u64,
    pub ready: bool,
    pub saw_spawn: bool,
    pub saw_profile: bool,
    pub saw_weather: bool,
    pub requested: bool,
    pub got_zone: bool,
    pub replied_experience: bool,
    pub zone_name: String,
    /// The position heartbeat: where the character was saved, without motion.
    pub stationary: Vec<u8>,
}

/// The meaning of a `Zone`.
#[verifier::ext_equal]
pub struct ZoneState {
    pub codec: CodecState,
    pub checksums: Seq<u8>,
    pub connected: u64,
    pub progress: u64,
    pub last_position: u64,
    pub position_sequence: u16,
    pub packets: u64,
    pub ready: bool,
    pub saw_spawn: bool,
    pub saw_profile: bool,
    pub saw_weather: bool,
    pub requested: bool,
    pub got_zone: bool,
    pub replied_experience: bool,
    pub zone_name: Seq<char>,
    pub stationary: Seq<u8>,
}

impl View for Zone {
    type V = ZoneState;

    open spec fn view(&self) -> ZoneState {
        ZoneState {
            codec: self.codec@,
            checksums: self.checksums@,
            connected: self.connected,
            progress: self.progress,
            last_position: self.last_position,
            position_sequence: self.position_sequence,
            packets: self.packets,
            ready: self.ready,
            saw_spawn: self.saw_spawn,
            saw_profile: self.saw_profile,
            saw_weather: self.saw_weather,
            requested: self.requested,
            got_zone: self.got_zone,
            replied_experience: self.replied_experience,
            zone_name: self.zone_name@,
            stationary: self.stationary@,
        }
    }
}

pub open spec fn zone_end(outcome: Outcome<()>) -> End<()> {
    match outcome {
        Outcome::Continue => End::Continue,
        Outcome::Done(_) => End::Done(()),
        Outcome::Fail(e) => End::Fail(e@),
    }
}

/// The end of a step that can only go on or fail.
pub open spec fn step_end(r: Result<(), SessionError>) -> Option<Fault> {
    match r {
        Ok(_) => None,
        Err(e) => Some(e@),
    }
}

/// The packet that enters a zone.
pub open spec fn zone_entry_packet(character: Seq<u8>) -> Seq<u8> {
    bytes::zeros(4) + padded(character, 64)
}

/// Whether four little-endian bytes are a finite single-precision number: its
/// exponent is not all ones.
pub open spec fn finite(body: Seq<u8>, at: int) -> bool {
    bytes::le32_at(body, at) / 0x80_0000 % 256 != 255
}

fn is_finite(body: &[u8], at: usize) -> (r: bool)
    requires
        at + 4 <= body@.len(),
    ensures
        r == finite(body@, at as int),
{
    bytes::read_le32(body, at) / 0x80_0000 % 256 != 255
}

/// Bytes written over a place in others.
pub open spec fn put(data: Seq<u8>, at: int, part: Seq<u8>) -> Seq<u8> {
    data.take(at) + part + data.skip(at + part.len())
}

fn overwrite(data: &mut Vec<u8>, at: usize, part: &[u8])
    requires
        at + part@.len() <= old(data)@.len(),
    ensures
        final(data)@ == put(old(data)@, at as int, part@),
{
    let mut i: usize = 0;
    while i < part.len()
        invariant
            i <= part@.len(),
            at + part@.len() <= data.len(),
            data@.len() == old(data)@.len(),
            forall|j: int| 0 <= j < i ==> data@[at + j] == part@[j],
            forall|j: int| 0 <= j < at ==> data@[j] == old(data)@[j],
            forall|j: int| at + i <= j < data@.len() ==> data@[j] == old(data)@[j],
        decreases part@.len() - i,
    {
        data.set(at + i, part[i]);
        i = i + 1;
    }
    assert(data@ =~= put(old(data)@, at as int, part@));
}

impl ZoneState {
    /// What holds of every zone session.
    pub open spec fn wf(self) -> bool {
        self.stationary.len() == 36
    }

    /// A new zone session.
    pub open spec fn entered(codec: CodecState, checksums: Seq<u8>, now: u64) -> ZoneState {
        ZoneState {
            codec,
            checksums,
            connected: now,
            progress: now,
            last_position: if now >= 2_000_000_000 {
                (now - 2_000_000_000) as u64
            } else {
                now
            },
            position_sequence: 0,
            packets: 0,
            ready: false,
            saw_spawn: false,
            saw_profile: false,
            saw_weather: false,
            requested: false,
            got_zone: false,
            replied_experience: false,
            zone_name: Seq::empty(),
            stationary: bytes::zeros(36),
        }
    }

    /// What is due before the next packet is read.
    pub open spec fn ticked(
        self,
        cancelled: bool,
        duration: Option<u64>,
        last_received_seconds: u64,
        now: u64,
    ) -> (ZoneState, Seq<Act>, End<()>) {
        let over = match duration {
            Some(limit) => model::elapsed(now, self.connected) >= limit,
            None => false,
        };
        if cancelled || over {
            (self, seq![Act::Close], End::Done(()))
        } else {
            let (told, report) = self.reported(last_received_seconds, now);
            if !told.ready && model::elapsed(now, told.connected) >= 60_000_000_000 {
                (told, report, End::Fail(Fault::Refused(Refusal::Admission)))
            } else {
                let (next, beat) = told.heartbeat(now);
                (next, report + beat, End::Continue)
            }
        }
    }

    /// A status and the traffic so far, every half minute.
    pub open spec fn reported(self, last_received_seconds: u64, now: u64) -> (
        ZoneState,
        Seq<Act>,
    ) {
        if model::elapsed(now, self.progress) >= 30_000_000_000 {
            (
                ZoneState { progress: now, ..self },
                seq![
                    Act::Notify(
                        NoticeState::Status {
                            state: if self.ready && last_received_seconds < 60 {
                                ConnectionState::Connected
                            } else {
                                ConnectionState::Zoning
                            },
                            packets: self.packets,
                            last_received_seconds: Some(last_received_seconds),
                        },
                    ),
                    Act::Notify(
                        NoticeState::Traffic {
                            heading: "Zone session: "@,
                            count: self.packets,
                        },
                    ),
                ],
            )
        } else {
            (self, Seq::empty())
        }
    }

    /// The position heartbeat, every two seconds once the zone is entered.
    pub open spec fn heartbeat(self, now: u64) -> (ZoneState, Seq<Act>) {
        if self.ready && model::elapsed(now, self.last_position) >= 2_000_000_000 {
            let stationary = put(self.stationary, 2, bytes::le16(self.position_sequence));
            (
                ZoneState {
                    stationary,
                    position_sequence: self.position_sequence.wrapping_add(1),
                    last_position: now,
                    ..self
                },
                seq![Act::SendUnreliable(0x14cb, stationary)],
            )
        } else {
            (self, Seq::empty())
        }
    }

    /// The player profile gives the saved position. Velocity and animation stay
    /// zero.
    pub open spec fn profiled(self, body: Seq<u8>, heading: u16) -> (ZoneState, Option<Fault>) {
        if body.len() != 19592 {
            (self, Some(Fault::Refused(Refusal::ProfileSize)))
        } else if !finite(body, 13116) || !finite(body, 13120) || !finite(body, 13124) || !finite(
            body,
            13128,
        ) {
            (self, Some(Fault::Refused(Refusal::Position)))
        } else {
            let x = put(self.stationary, 4, body.subrange(13120, 13124));
            let y = put(x, 24, body.subrange(13116, 13120));
            let z = put(y, 28, body.subrange(13124, 13128));
            (
                ZoneState {
                    stationary: put(z, 32, bytes::le16((heading % 4096) as u16)),
                    saw_profile: true,
                    ..self
                },
                None,
            )
        }
    }

    /// The player spawn, with the session permutation undone.
    pub open spec fn spawned(self, character: Seq<u8>, body: Seq<u8>) -> (
        ZoneState,
        Option<Fault>,
    ) {
        let name = bytes::until_nul(body.subrange(7, 71));
        let id = bytes::le32_at(body, 340);
        if body.len() != 385 || bytes::lowered(name) != bytes::lowered(character) {
            (self, Some(Fault::Refused(Refusal::Spawn)))
        } else {
            match p99::spawn_seeded(self.codec, body) {
                Err(e) => (self, Some(Fault::Codec(e))),
                Ok(codec) => if id > 65535 {
                    (ZoneState { codec, ..self }, Some(Fault::Refused(Refusal::SpawnId)))
                } else {
                    (
                        ZoneState {
                            codec,
                            stationary: put(self.stationary, 0, bytes::le16(id as u16)),
                            saw_spawn: true,
                            ..self
                        },
                        None,
                    )
                },
            }
        }
    }

    /// The zone description gives the name of the zone.
    pub open spec fn described(self, body: Seq<u8>, last_received_seconds: u64) -> (
        ZoneState,
        Seq<Act>,
        Option<Fault>,
    ) {
        let name = outside::lossy(bytes::until_nul(body.subrange(64, 96)));
        if body.len() < 96 {
            (self, Seq::empty(), Some(Fault::Refused(Refusal::ZoneDescription)))
        } else {
            (
                ZoneState { zone_name: name, got_zone: true, ..self },
                seq![
                    Act::Notify(NoticeState::Zone(name)),
                    Act::Notify(
                        NoticeState::Status {
                            state: ConnectionState::Zoning,
                            packets: self.packets,
                            last_received_seconds: Some(last_received_seconds),
                        },
                    ),
                    Act::Send(0x067a, bytes::le32(0)),
                    Act::Send(0x5e3a, bytes::le32(0)),
                    Act::Send(0x7752, bytes::le32(0)),
                    Act::Send(0x0322, Seq::empty()),
                ],
                None,
            )
        }
    }

    /// The experience updates: the first is echoed, the second completes entry.
    pub open spec fn experienced(self, filters: Seq<u8>, last_received_seconds: u64) -> (
        ZoneState,
        Seq<Act>,
    ) {
        if !self.got_zone || self.ready {
            (self, Seq::empty())
        } else if !self.replied_experience {
            (
                ZoneState { replied_experience: true, ..self },
                seq![Act::Send(0x0587, Seq::empty())],
            )
        } else {
            (
                ZoneState { ready: true, ..self },
                seq![
                    Act::Send(0x6563, filters),
                    Act::Send(0x5e20, Seq::empty()),
                    Act::Send(0x0c11, bytes::le32(1)),
                    progressed(ConnectionStage::Ready),
                    Act::Notify(
                        NoticeState::Status {
                            state: ConnectionState::Connected,
                            packets: self.packets,
                            last_received_seconds: Some(last_received_seconds),
                        },
                    ),
                    told(
                        "Zone login sequence complete for "@ + self.zone_name
                            + "; waiting for ongoing server traffic"@,
                    ),
                ],
            )
        }
    }

    /// The effect of a packet by its opcode. A spawn is read through the
    /// session permutation; the body as it then stands comes last.
    pub open spec fn handled(
        self,
        context: ZoneContext,
        opcode: u16,
        body: Seq<u8>,
        heading: u16,
    ) -> (ZoneState, Seq<Act>, Option<Fault>, Seq<u8>) {
        match ZoneOpcode::of(opcode) {
            ZoneOpcode::PlayerProfile => {
                let (next, error) = self.profiled(body, heading);
                (next, Seq::empty(), error, body)
            },
            ZoneOpcode::Weather => (
                ZoneState { saw_weather: true, ..self },
                Seq::empty(),
                None,
                body,
            ),
            ZoneOpcode::PlayerSpawn => if self.saw_spawn {
                (self, Seq::empty(), None, body)
            } else {
                let plain = p99::session_mixed(body, context.credentials@.key);
                let (next, error) = self.spawned(text::utf8(context.config.character@), plain);
                (next, Seq::empty(), error, plain)
            },
            ZoneOpcode::ZoneDescription => if self.ready {
                (self, Seq::empty(), None, body)
            } else {
                let (next, more, error) = self.described(body, context.last_received_seconds);
                (next, more, error, body)
            },
            ZoneOpcode::ExperienceUpdate => {
                let (next, more) = self.experienced(
                    context.filters@,
                    context.last_received_seconds,
                );
                (next, more, None, body)
            },
            ZoneOpcode::ValidationRejected => (
                self,
                Seq::empty(),
                Some(Fault::Refused(Refusal::ZoneRejected)),
                body,
            ),
            ZoneOpcode::LoggedOut => (
                self,
                Seq::empty(),
                Some(Fault::Refused(Refusal::LoggedOut)),
                body,
            ),
            ZoneOpcode::ZoneHandoff => (
                self,
                Seq::empty(),
                Some(Fault::Refused(Refusal::NewZone)),
                body,
            ),
            ZoneOpcode::Unknown(_) => (self, Seq::empty(), None, body),
        }
    }

    /// The checksums follow, once, when spawn, profile and weather have come.
    pub open spec fn requesting(self) -> (ZoneState, Seq<Act>, Option<Fault>) {
        if !(self.saw_spawn && self.saw_profile && self.saw_weather) || self.requested {
            (self, Seq::empty(), None)
        } else {
            match p99::response_encoded(self.codec, self.checksums) {
                Err(e) => (self, Seq::empty(), Some(Fault::Codec(e))),
                Ok(checksums) => (
                    ZoneState { checksums, requested: true, ..self },
                    seq![
                        Act::Send(0x1251, checksums),
                        Act::Send(0x7ac5, Seq::empty()),
                        Act::Send(0x367d, Seq::empty()),
                        Act::Send(0x5966, Seq::empty()),
                        progressed(ConnectionStage::EnteringWorld),
                    ],
                    None,
                ),
            }
        }
    }

    /// A packet of the zone server.
    pub open spec fn received(
        self,
        context: ZoneContext,
        opcode: u16,
        body: Seq<u8>,
        heading: u16,
        chat: ChatOutcomeState,
    ) -> (ZoneState, Seq<Act>, Option<Fault>) {
        let counted = ZoneState { packets: self.packets.wrapping_add(1), ..self };
        let greeting: Seq<Act> = if self.ready {
            Seq::empty()
        } else {
            seq![told(super::step::received_text("Zone received 0x"@, opcode, body.len()))]
        };
        let (next, more, error, read) = counted.handled(context, opcode, body, heading);
        if error is Some {
            (next, greeting + more, error)
        } else {
            let (asked, request, error) = next.requesting();
            if error is Some {
                (asked, greeting + more + request, error)
            } else {
                (
                    asked,
                    greeting + more + request + chat_record(asked.zone_name, chat, opcode, read),
                    None,
                )
            }
        }
    }
}

/// The record of a communication, or of one that could not be decoded.
pub open spec fn chat_record(
    zone: Seq<char>,
    chat: ChatOutcomeState,
    opcode: u16,
    body: Seq<u8>,
) -> Seq<Act> {
    match chat {
        ChatOutcomeState::Nothing => Seq::empty(),
        ChatOutcomeState::Event(event) => seq![
            Act::Notify(NoticeState::Record { zone, event: RecordEventState::Chat(event) }),
        ],
        ChatOutcomeState::Error(message) => seq![
            Act::Notify(
                NoticeState::Record {
                    zone,
                    event: RecordEventState::DecodeError(
                        opcode,
                        outside::hex_of(body),
                        message,
                    ),
                },
            ),
        ],
    }
}

/// Record a communication, or one that could not be decoded.
pub fn record_chat(
    zone: &String,
    chat: ChatOutcome,
    opcode: u16,
    body: &[u8],
    actions: &mut Actions,
)
    ensures
        final(actions)@ == old(actions)@ + chat_record(zone@, chat@, opcode, body@),
{
    let ghost record = chat_record(zone@, chat@, opcode, body@);
    match chat {
        ChatOutcome::Nothing => {},
        ChatOutcome::Event(event) => {
            actions.record(zone.clone(), RecordEvent::Chat(event));
        },
        ChatOutcome::Error(error) => {
            actions.record(
                zone.clone(),
                RecordEvent::DecodeError(
                    DecodeError { opcode, payload_hex: outside::hex(body), error },
                ),
            );
        },
    }
    assert(actions@ =~= old(actions)@ + record);
}

impl Zone {
    pub open spec fn wf(&self) -> bool {
        self@.wf()
    }

    /// Begin a zone session with the codec and the checksums of the handoff.
    pub fn start(codec: WorldCodec, config: &ClientConfig, checksums: Vec<u8>, now: u64) -> (r: (
        Actions,
        Result<Self, SessionError>,
    ))
        ensures
            ({
                let character = text::utf8(config.character@);
                let entry = zone_entry_packet(character);
                let rate = Act::Send(0x7752, bytes::le32(0));
                if !bytes::fits_field(character, 64) {
                    &&& r.0@ == seq![rate]
                    &&& r.1 matches Err(e) && e@ == Fault::Refused(Refusal::FieldSize)
                } else {
                    &&& r.0@ == seq![
                        rate,
                        Act::Send(0x7213, entry),
                        progressed(ConnectionStage::LoadingCharacter),
                    ]
                    &&& r.1 matches Ok(zone) && zone.wf() && zone@ == ZoneState::entered(
                        CodecState { key: outside::md5_of(entry), outgoing: None, ..codec@ },
                        checksums@,
                        now,
                    )
                }
            }),
    {
        let mut codec = codec;
        let mut actions = Actions::new();
        actions.send_word(0x7752, 0);
        assert(actions@ =~= seq![Act::Send(0x7752, bytes::le32(0))]);
        let mut entry = bytes::zero_bytes(4);
        if let Err(e) = push_field(&mut entry, &config.character, 64) {
            return (actions, Err(e));
        }
        assert(entry@.len() == 68);
        if let Err(e) = codec.zone_entry(&entry) {
            return (actions, Err(SessionError::Codec(e)));
        }
        let ghost packet = entry@;
        actions.send(0x7213, entry);
        actions.progress(ConnectionStage::LoadingCharacter);
        assert(actions@ =~= seq![
            Act::Send(0x7752, bytes::le32(0)),
            Act::Send(0x7213, packet),
            progressed(ConnectionStage::LoadingCharacter),
        ]);
        let zone_name = String::new();
        proof {
            reveal_strlit("");
            assert(zone_name@ =~= Seq::empty());
        }
        let zone = Zone {
            codec,
            checksums,
            connected: now,
            progress: now,
            last_position: if now >= 2_000_000_000 {
                now - 2_000_000_000
            } else {
                now
            },
            position_sequence: 0,
            packets: 0,
            ready: false,
            saw_spawn: false,
            saw_profile: false,
            saw_weather: false,
            requested: false,
            got_zone: false,
            replied_experience: false,
            zone_name,
            stationary: bytes::zero_bytes(36),
        };
        (actions, Ok(zone))
    }

    /// Do what is due before the next packet is read.
    pub fn tick(
        &mut self,
        cancelled: bool,
        duration: Option<u64>,
        last_received_seconds: u64,
        now: u64,
    ) -> (r: (Actions, Outcome<()>))
        requires
            old(self).wf(),
        ensures
            final(self).wf(),
            old(self)@.ticked(cancelled, duration, last_received_seconds, now) == (
                final(self)@,
                r.0@,
                zone_end(r.1),
            ),
    {
        let mut actions = Actions::new();
        let over = match duration {
            Some(limit) => since(now, self.connected) >= limit,
            None => false,
        };
        if cancelled || over {
            actions.close();
            assert(actions@ =~= seq![Act::Close]);
            return (actions, Outcome::Done(()));
        }
        if since(now, self.progress) >= 30_000_000_000 {
            let state = if self.ready && last_received_seconds < 60 {
                ConnectionState::Connected
            } else {
                ConnectionState::Zoning
            };
            actions.status(state, self.packets, Some(last_received_seconds));
            actions.traffic("Zone session: ", self.packets);
            self.progress = now;
        }
        let ghost report = old(self)@.reported(last_received_seconds, now).1;
        assert(actions@ =~= report);
        if !self.ready && since(now, self.connected) >= 60_000_000_000 {
            return (actions, Outcome::Fail(SessionError::Refused(Refusal::Admission)));
        }
        if self.ready && since(now, self.last_position) >= 2_000_000_000 {
            let mut sequence: Vec<u8> = Vec::new();
            bytes::push_le16(&mut sequence, self.position_sequence);
            assert(sequence@ =~= bytes::le16(self.position_sequence));
            overwrite(&mut self.stationary, 2, &sequence);
            actions.send_unreliable(0x14cb, self.stationary.clone());
            self.position_sequence = self.position_sequence.wrapping_add(1);
            self.last_position = now;
        }
        proof {
            let told = old(self)@.reported(last_received_seconds, now).0;
            assert(actions@ =~= report + told.heartbeat(now).1);
        }
        (actions, Outcome::Continue)
    }

    fn profile(&mut self, body: &[u8], heading: u16) -> (r: Result<(), SessionError>)
        requires
            old(self).wf(),
        ensures
            final(self).wf(),
            old(self)@.profiled(body@, heading) == (final(self)@, step_end(r)),
    {
        if body.len() != 19592 {
            return Err(SessionError::Refused(Refusal::ProfileSize));
        }
        if !is_finite(body, 13116) || !is_finite(body, 13120) || !is_finite(body, 13124)
            || !is_finite(body, 13128) {
            return Err(SessionError::Refused(Refusal::Position));
        }
        overwrite(&mut self.stationary, 4, &body[13120..13124]);
        overwrite(&mut self.stationary, 24, &body[13116..13120]);
        overwrite(&mut self.stationary, 28, &body[13124..13128]);
        let mut turn: Vec<u8> = Vec::new();
        bytes::push_le16(&mut turn, heading % 4096);
        assert(turn@ =~= bytes::le16((heading % 4096) as u16));
        overwrite(&mut self.stationary, 32, &turn);
        self.saw_profile = true;
        Ok(())
    }

    fn spawn(&mut self, config: &ClientConfig, body: &[u8]) -> (r: Result<(), SessionError>)
        requires
            old(self).wf(),
        ensures
            final(self).wf(),
            old(self)@.spawned(text::utf8(config.character@), body@) == (
                final(self)@,
                step_end(r),
            ),
    {
        if body.len() != 385 {
            return Err(SessionError::Refused(Refusal::Spawn));
        }
        let name = bytes::cstr(&body[7..71]);
        if !bytes::eq_ignore_ascii_case(name, text::bytes_of(&config.character)) {
            return Err(SessionError::Refused(Refusal::Spawn));
        }
        if let Err(e) = self.codec.zone_spawn(body) {
            return Err(SessionError::Codec(e));
        }
        let id = bytes::read_le32(body, 340);
        if id > 65535 {
            return Err(SessionError::Refused(Refusal::SpawnId));
        }
        let mut field: Vec<u8> = Vec::new();
        bytes::push_le16(&mut field, id as u16);
        assert(field@ =~= bytes::le16(id as u16));
        overwrite(&mut self.stationary, 0, &field);
        self.saw_spawn = true;
        Ok(())
    }

    fn describe(&mut self, body: &[u8], last_received_seconds: u64, actions: &mut Actions) -> (r:
        Result<(), SessionError>)
        requires
            old(self).wf(),
        ensures
            final(self).wf(),
            ({
                let (next, more, error) = old(self)@.described(body@, last_received_seconds);
                &&& final(self)@ == next
                &&& final(actions)@ == old(actions)@ + more
                &&& error == step_end(r)
            }),
            r is Ok ==> text::keeps(
                bytes::until_nul(body@.subrange(64, 96)),
                final(self).zone_name@,
            ),
    {
        if body.len() < 96 {
            assert(actions@ =~= actions@ + Seq::<Act>::empty());
            return Err(SessionError::Refused(Refusal::ZoneDescription));
        }
        let name = outside::text_lossy(bytes::cstr(&body[64..96]));
        self.zone_name = name.clone();
        actions.zone(name);
        actions.status(ConnectionState::Zoning, self.packets, Some(last_received_seconds));
        self.got_zone = true;
        actions.send_word(0x067a, 0);
        actions.send_word(0x5e3a, 0);
        actions.send_word(0x7752, 0);
        actions.send_empty(0x0322);
        assert(actions@ =~= old(actions)@ + old(self)@.described(body@, last_received_seconds).1);
        Ok(())
    }

    fn experience(&mut self, filters: &[u8], last_received_seconds: u64, actions: &mut Actions)
        requires
            old(self).wf(),
        ensures
            final(self).wf(),
            ({
                let (next, more) = old(self)@.experienced(filters@, last_received_seconds);
                &&& final(self)@ == next
                &&& final(actions)@ == old(actions)@ + more
            }),
    {
        if self.got_zone && !self.ready {
            if !self.replied_experience {
                actions.send_empty(0x0587);
                self.replied_experience = true;
            } else {
                actions.send(0x6563, vstd::slice::slice_to_vec(filters));
                actions.send_empty(0x5e20);
                actions.send_word(0x0c11, 1);
                self.ready = true;
                actions.progress(ConnectionStage::Ready);
                actions.status(
                    ConnectionState::Connected,
                    self.packets,
                    Some(last_received_seconds),
                );
                let mut message = "Zone login sequence complete for ".to_owned();
                message.append(self.zone_name.as_str());
                message.append("; waiting for ongoing server traffic");
                actions.diagnostic(message);
            }
        }
        assert(actions@ =~= old(actions)@ + old(self)@.experienced(
            filters@,
            last_received_seconds,
        ).1);
    }

    fn request(&mut self, actions: &mut Actions) -> (r: Result<(), SessionError>)
        requires
            old(self).wf(),
        ensures
            final(self).wf(),
            ({
                let (next, more, error) = old(self)@.requesting();
                &&& final(self)@ == next
                &&& final(actions)@ == old(actions)@ + more
                &&& error == step_end(r)
            }),
    {
        if self.saw_spawn && self.saw_profile && self.saw_weather && !self.requested {
            if let Err(e) = self.codec.file_response(&mut self.checksums) {
                assert(actions@ =~= actions@ + Seq::<Act>::empty());
                return Err(SessionError::Codec(e));
            }
            actions.send(0x1251, self.checksums.clone());
            actions.send_empty(0x7ac5);
            actions.send_empty(0x367d);
            actions.send_empty(0x5966);
            self.requested = true;
            actions.progress(ConnectionStage::EnteringWorld);
        }
        assert(actions@ =~= old(actions)@ + old(self)@.requesting().1);
        Ok(())
    }

    /// Act on a packet by its opcode. A spawn is read in place.
    fn handle(
        &mut self,
        context: &ZoneContext,
        opcode: u16,
        body: &mut Vec<u8>,
        heading: u16,
        actions: &mut Actions,
    ) -> (r: Result<(), SessionError>)
        requires
            old(self).wf(),
        ensures
            final(self).wf(),
            ({
                let (next, more, error, read) = old(self)@.handled(
                    *context,
                    opcode,
                    old(body)@,
                    heading,
                );
                &&& final(self)@ == next
                &&& final(actions)@ == old(actions)@ + more
                &&& error == step_end(r)
                &&& final(body)@ == read
            }),
            r is Ok && ZoneOpcode::of(opcode) == ZoneOpcode::ZoneDescription && !old(self).ready
                ==> text::keeps(
                bytes::until_nul(old(body)@.subrange(64, 96)),
                final(self).zone_name@,
            ),
    {
        let ghost unchanged = actions@ + Seq::<Act>::empty();
        assert(actions@ =~= unchanged);
        match ZoneOpcode::from(opcode) {
            ZoneOpcode::PlayerProfile => self.profile(body, heading),
            ZoneOpcode::Weather => {
                self.saw_weather = true;
                Ok(())
            },
            ZoneOpcode::PlayerSpawn => {
                if self.saw_spawn {
                    return Ok(());
                }
                if let Err(e) = p99::session_xor(body, &context.credentials.key) {
                    return Err(SessionError::Codec(e));
                }
                self.spawn(context.config, body)
            },
            ZoneOpcode::ZoneDescription => {
                if self.ready {
                    return Ok(());
                }
                self.describe(body, context.last_received_seconds, actions)
            },
            ZoneOpcode::ExperienceUpdate => {
                self.experience(context.filters, context.last_received_seconds, actions);
                Ok(())
            },
            ZoneOpcode::ValidationRejected => Err(SessionError::Refused(Refusal::ZoneRejected)),
            ZoneOpcode::LoggedOut => Err(SessionError::Refused(Refusal::LoggedOut)),
            ZoneOpcode::ZoneHandoff => Err(SessionError::Refused(Refusal::NewZone)),
            ZoneOpcode::Unknown(_) => Ok(()),
        }
    }

    /// Take a packet of the zone server. For a player profile, `heading` is the
    /// heading it holds, in 4096ths of a turn. The name of a zone that is UTF-8 is
    /// kept as it is.
    pub fn receive(
        &mut self,
        context: &ZoneContext,
        packet: Application,
        heading: u16,
        chat: ChatOutcome,
    ) -> (r: (Actions, Result<(), SessionError>))
        requires
            old(self).wf(),
        ensures
            final(self).wf(),
            old(self)@.received(*context, packet.opcode, packet.body@, heading, chat@) == (
                final(self)@,
                r.0@,
                step_end(r.1),
            ),
            r.1 is Ok && ZoneOpcode::of(packet.opcode) == ZoneOpcode::ZoneDescription && !old(
                self,
            ).ready ==> text::keeps(
                bytes::until_nul(packet.body@.subrange(64, 96)),
                final(self).zone_name@,
            ),
    {
        let opcode = packet.opcode;
        let mut body = packet.body;
        let mut actions = Actions::new();
        self.packets = self.packets.wrapping_add(1);
        if !self.ready {
            actions.received("Zone received 0x", opcode, body.len());
        }
        let ghost counted = self@;
        let ghost greeting: Seq<Act> = if counted.ready {
            Seq::empty()
        } else {
            seq![told(super::step::received_text("Zone received 0x"@, opcode, body@.len()))]
        };
        assert(actions@ =~= greeting);
        if let Err(e) = self.handle(context, opcode, &mut body, heading, &mut actions) {
            return (actions, Err(e));
        }
        if let Err(e) = self.request(&mut actions) {
            return (actions, Err(e));
        }
        record_chat(&self.zone_name, chat, opcode, &body, &mut actions);
        (actions, Ok(()))
    }
}

} // verus!

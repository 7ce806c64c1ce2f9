//! What the stages of a session ask of the host, and how they fail.

use super::{
    ClientConfig, ClientEvent, ConnectionStage, ConnectionState, EventState, LoginError, Record,
    RecordEvent, RecordEventState, SessionStatus,
};
use crate::assets::{AssetError, AssetFault};
use crate::bytes;
use crate::outside;
use crate::p99::CodecError;
use crate::text;
use vstd::prelude::*;
use vstd::string::StringExecFns;

verus! {

/// A step of the protocol that did not go as it has to.
#[derive(Clone, Copy, Debug, PartialEq, Eq, Structural)]
pub enum Refusal {
    Shutdown,
    Timeout,
    LoginResponse,
    LoginCipher,
    LoginRejected,
    SessionKey,
    ServerListTruncated,
    ServerListInvalid,
    ServerAbsent,
    ServerLocked,
    WorldDenied,
    PlayBeforeLogin,
    PlayBeforeSelection,
    FieldSize,
    SpellSize,
    CharacterAbsent,
    Handoff,
    HostEncoding,
    Admission,
    ProfileSize,
    Position,
    Spawn,
    SpawnId,
    ZoneDescription,
    ZoneRejected,
    LoggedOut,
    NewZone,
    LegacyLogin,
    LegacyAccount,
    LegacyAccountEncoding,
    LegacyList,
    LegacyString,
    LegacyStringEnd,
    LegacyFlags,
    LegacyServerAbsent,
    LegacyPlay,
    LegacyKey,
    LegacyFields,
    LegacyCharacters,
    LegacyHandoff,
    LegacyEndpoint,
    LegacyDescription,
    ReadyBeforeProfile,
}

impl Refusal {
    /// The wording of each error.
    pub open spec fn text(self) -> Seq<char> {
        match self {
            Refusal::Shutdown => "shutdown requested"@,
            Refusal::Timeout => "application handshake timed out"@,
            Refusal::LoginResponse => "invalid login response"@,
            Refusal::LoginCipher => "login response could not be decrypted"@,
            Refusal::LoginRejected => "login was rejected"@,
            Refusal::SessionKey => "invalid login session key"@,
            Refusal::ServerListTruncated => "truncated server list"@,
            Refusal::ServerListInvalid => "invalid server list"@,
            Refusal::ServerAbsent => "configured server name was not found in the server list"@,
            Refusal::ServerLocked => "configured server is unavailable or locked"@,
            Refusal::WorldDenied => "login server denied world entry"@,
            Refusal::PlayBeforeLogin => "play response before authentication"@,
            Refusal::PlayBeforeSelection => "play response before selection"@,
            Refusal::FieldSize => "string exceeds protocol field size"@,
            Refusal::SpellSize => "spell file size exceeds its field"@,
            Refusal::CharacterAbsent => "configured character is absent from character selection"@,
            Refusal::Handoff => "invalid zone handoff"@,
            Refusal::HostEncoding => "zone host is not UTF-8"@,
            Refusal::Admission => "zone admission timed out"@,
            Refusal::ProfileSize => "unexpected Titanium player profile size"@,
            Refusal::Position => "invalid player position"@,
            Refusal::Spawn => "zone returned a different character spawn"@,
            Refusal::SpawnId => "spawn ID exceeds Titanium position field"@,
            Refusal::ZoneDescription => "truncated zone description"@,
            Refusal::ZoneRejected => "server rejected zone validation"@,
            Refusal::LoggedOut => "server logged the character out"@,
            Refusal::NewZone => "server requested a new zone; reconnecting through world"@,
            Refusal::LegacyLogin => "truncated TAKP login response"@,
            Refusal::LegacyAccount => "invalid TAKP account session"@,
            Refusal::LegacyAccountEncoding => "TAKP account session is not UTF-8"@,
            Refusal::LegacyList => "truncated TAKP server list"@,
            Refusal::LegacyString => "truncated TAKP string"@,
            Refusal::LegacyStringEnd => "unterminated TAKP string"@,
            Refusal::LegacyFlags => "truncated TAKP server flags"@,
            Refusal::LegacyServerAbsent => "configured server name was not found in the TAKP server list"@,
            Refusal::LegacyPlay => "truncated TAKP play response"@,
            Refusal::LegacyKey => "invalid TAKP session key"@,
            Refusal::LegacyFields => "TAKP session fields are too large"@,
            Refusal::LegacyCharacters => "truncated EQMac character list"@,
            Refusal::LegacyHandoff => "truncated EQMac zone handoff"@,
            Refusal::LegacyEndpoint => "invalid EQMac zone endpoint"@,
            Refusal::LegacyDescription => "truncated EQMac zone description"@,
            Refusal::ReadyBeforeProfile => "zone became ready before player profile"@,
        }
    }

    /// Describe the error to a user.
    pub fn message(&self) -> (text: &'static str)
        ensures
            text@ == self.text(),
    {
        match self {
            Refusal::Shutdown => "shutdown requested",
            Refusal::Timeout => "application handshake timed out",
            Refusal::LoginResponse => "invalid login response",
            Refusal::LoginCipher => "login response could not be decrypted",
            Refusal::LoginRejected => "login was rejected",
            Refusal::SessionKey => "invalid login session key",
            Refusal::ServerListTruncated => "truncated server list",
            Refusal::ServerListInvalid => "invalid server list",
            Refusal::ServerAbsent => "configured server name was not found in the server list",
            Refusal::ServerLocked => "configured server is unavailable or locked",
            Refusal::WorldDenied => "login server denied world entry",
            Refusal::PlayBeforeLogin => "play response before authentication",
            Refusal::PlayBeforeSelection => "play response before selection",
            Refusal::FieldSize => "string exceeds protocol field size",
            Refusal::SpellSize => "spell file size exceeds its field",
            Refusal::CharacterAbsent => "configured character is absent from character selection",
            Refusal::Handoff => "invalid zone handoff",
            Refusal::HostEncoding => "zone host is not UTF-8",
            Refusal::Admission => "zone admission timed out",
            Refusal::ProfileSize => "unexpected Titanium player profile size",
            Refusal::Position => "invalid player position",
            Refusal::Spawn => "zone returned a different character spawn",
            Refusal::SpawnId => "spawn ID exceeds Titanium position field",
            Refusal::ZoneDescription => "truncated zone description",
            Refusal::ZoneRejected => "server rejected zone validation",
            Refusal::LoggedOut => "server logged the character out",
            Refusal::NewZone => "server requested a new zone; reconnecting through world",
            Refusal::LegacyLogin => "truncated TAKP login response",
            Refusal::LegacyAccount => "invalid TAKP account session",
            Refusal::LegacyAccountEncoding => "TAKP account session is not UTF-8",
            Refusal::LegacyList => "truncated TAKP server list",
            Refusal::LegacyString => "truncated TAKP string",
            Refusal::LegacyStringEnd => "unterminated TAKP string",
            Refusal::LegacyFlags => "truncated TAKP server flags",
            Refusal::LegacyServerAbsent => "configured server name was not found in the TAKP server list",
            Refusal::LegacyPlay => "truncated TAKP play response",
            Refusal::LegacyKey => "invalid TAKP session key",
            Refusal::LegacyFields => "TAKP session fields are too large",
            Refusal::LegacyCharacters => "truncated EQMac character list",
            Refusal::LegacyHandoff => "truncated EQMac zone handoff",
            Refusal::LegacyEndpoint => "invalid EQMac zone endpoint",
            Refusal::LegacyDescription => "truncated EQMac zone description",
            Refusal::ReadyBeforeProfile => "zone became ready before player profile",
        }
    }
}

/// Why a session ends.
#[derive(Debug)]
pub enum SessionError {
    /// The account or password was rejected; reconnecting cannot help.
    Login(LoginError),
    Refused(Refusal),
    Codec(CodecError),
    Asset(AssetError),
    /// World validation answered with these bytes, in hexadecimal.
    Validation(String),
    /// The login server would not let the account enter the world.
    WorldEntry(String),
}

/// The meaning of a `SessionError`.
#[verifier::ext_equal]
pub enum Fault {
    Login(LoginError),
    Refused(Refusal),
    Codec(CodecError),
    Asset(AssetFault),
    Validation(Seq<char>),
    WorldEntry(Seq<char>),
}

impl View for SessionError {
    type V = Fault;

    open spec fn view(&self) -> Fault {
        match self {
            SessionError::Login(e) => Fault::Login(*e),
            SessionError::Refused(e) => Fault::Refused(*e),
            SessionError::Codec(e) => Fault::Codec(*e),
            SessionError::Asset(e) => Fault::Asset(e@),
            SessionError::Validation(answer) => Fault::Validation(answer@),
            SessionError::WorldEntry(message) => Fault::WorldEntry(message@),
        }
    }
}

impl Fault {
    /// The wording of each error.
    pub open spec fn text(self) -> Seq<char> {
        match self {
            Fault::Login(_) => "Login account or password was rejected"@,
            Fault::Refused(e) => e.text(),
            Fault::Codec(e) => e.text(),
            Fault::Asset(e) => e.text(),
            Fault::Validation(answer) => "world client validation returned "@ + answer,
            Fault::WorldEntry(message) => "TAKP login server rejected world entry: "@ + message,
        }
    }
}

impl SessionError {
    /// Describe the error to a user.
    pub fn message(&self) -> (text: String)
        ensures
            text@ == self@.text(),
    {
        match self {
            SessionError::Login(e) => e.message().to_owned(),
            SessionError::Refused(e) => e.message().to_owned(),
            SessionError::Codec(e) => e.message().to_owned(),
            SessionError::Asset(e) => e.message(),
            SessionError::Validation(answer) => "world client validation returned ".to_owned().concat(
                answer.as_str(),
            ),
            SessionError::WorldEntry(message) =>
                "TAKP login server rejected world entry: ".to_owned().concat(message.as_str()),
        }
    }
}

/// Something for the host to know.
#[derive(Debug)]
pub enum Notice {
    Status { state: ConnectionState, packets: u64, last_received_seconds: Option<u64> },
    Progress(ConnectionStage),
    Diagnostic(String),
    /// Traffic of a zone session so far, under a heading.
    Traffic { heading: &'static str, packets: u64 },
    /// The name of the zone that later statuses report.
    Zone(String),
    Record { zone: String, event: RecordEvent },
}

/// The meaning of a `Notice`.
#[verifier::ext_equal]
pub enum NoticeState {
    Status { state: ConnectionState, packets: u64, last_received_seconds: Option<u64> },
    Progress(ConnectionStage),
    Diagnostic(Seq<char>),
    Traffic { heading: Seq<char>, count: u64 },
    Zone(Seq<char>),
    Record { zone: Seq<char>, event: RecordEventState },
}

impl View for Notice {
    type V = NoticeState;

    open spec fn view(&self) -> NoticeState {
        match self {
            Notice::Status { state, packets, last_received_seconds } => NoticeState::Status {
                state: *state,
                packets: *packets,
                last_received_seconds: *last_received_seconds,
            },
            Notice::Progress(stage) => NoticeState::Progress(*stage),
            Notice::Diagnostic(message) => NoticeState::Diagnostic(message@),
            Notice::Traffic { heading, packets } => NoticeState::Traffic {
                heading: heading@,
                count: *packets,
            },
            Notice::Zone(name) => NoticeState::Zone(name@),
            Notice::Record { zone, event } => NoticeState::Record { zone: zone@, event: event@ },
        }
    }
}

/// Work for the host, to be done in order.
#[derive(Debug)]
pub enum Action {
    Send { opcode: u16, body: Vec<u8> },
    SendUnreliable { opcode: u16, body: Vec<u8> },
    /// Send these bytes, enciphered with the key of the login server.
    SendEncrypted { opcode: u16, clear: Vec<u8> },
    Close,
    Notify(Notice),
}

/// The meaning of an `Action`.
#[verifier::ext_equal]
pub enum Act {
    Send(u16, Seq<u8>),
    SendUnreliable(u16, Seq<u8>),
    SendEncrypted(u16, Seq<u8>),
    Close,
    Notify(NoticeState),
}

impl View for Action {
    type V = Act;

    open spec fn view(&self) -> Act {
        match self {
            Action::Send { opcode, body } => Act::Send(*opcode, body@),
            Action::SendUnreliable { opcode, body } => Act::SendUnreliable(*opcode, body@),
            Action::SendEncrypted { opcode, clear } => Act::SendEncrypted(*opcode, clear@),
            Action::Close => Act::Close,
            Action::Notify(notice) => Act::Notify(notice@),
        }
    }
}

/// Actions by what they mean.
pub open spec fn acts(actions: Seq<Action>) -> Seq<Act> {
    actions.map_values(|a: Action| a@)
}

/// The text of a received-packet diagnostic.
pub open spec fn received_text(heading: Seq<char>, opcode: u16, length: nat) -> Seq<char> {
    heading + text::hex4(opcode) + " ("@ + text::decimal(length) + " bytes)"@
}

/// Work collected by a stage, in order.
#[derive(Debug)]
pub struct Actions {
    pub list: Vec<Action>,
}

impl View for Actions {
    type V = Seq<Act>;

    open spec fn view(&self) -> Seq<Act> {
        acts(self.list@)
    }
}

impl Actions {
    pub fn new() -> (actions: Self)
        ensures
            actions@ == Seq::<Act>::empty(),
    {
        let actions = Actions { list: Vec::new() };
        assert(actions@ =~= Seq::empty());
        actions
    }

    fn push(&mut self, action: Action)
        ensures
            final(self)@ == old(self)@.push(action@),
    {
        self.list.push(action);
        assert(self@ =~= old(self)@.push(action@));
    }

    pub fn send(&mut self, opcode: u16, body: Vec<u8>)
        ensures
            final(self)@ == old(self)@.push(Act::Send(opcode, body@)),
    {
        self.push(Action::Send { opcode, body });
    }

    pub fn send_empty(&mut self, opcode: u16)
        ensures
            final(self)@ == old(self)@.push(Act::Send(opcode, Seq::empty())),
    {
        let body: Vec<u8> = Vec::new();
        assert(body@ =~= Seq::empty());
        self.send(opcode, body);
    }

    /// Send a 32-bit integer in little-endian order.
    pub fn send_word(&mut self, opcode: u16, value: u32)
        ensures
            final(self)@ == old(self)@.push(Act::Send(opcode, bytes::le32(value))),
    {
        let mut body: Vec<u8> = Vec::new();
        bytes::push_le32(&mut body, value);
        assert(body@ =~= bytes::le32(value));
        self.send(opcode, body);
    }

    pub fn send_unreliable(&mut self, opcode: u16, body: Vec<u8>)
        ensures
            final(self)@ == old(self)@.push(Act::SendUnreliable(opcode, body@)),
    {
        self.push(Action::SendUnreliable { opcode, body });
    }

    pub fn send_encrypted(&mut self, opcode: u16, clear: Vec<u8>)
        ensures
            final(self)@ == old(self)@.push(Act::SendEncrypted(opcode, clear@)),
    {
        self.push(Action::SendEncrypted { opcode, clear });
    }

    pub fn close(&mut self)
        ensures
            final(self)@ == old(self)@.push(Act::Close),
    {
        self.push(Action::Close);
    }

    pub fn progress(&mut self, stage: ConnectionStage)
        ensures
            final(self)@ == old(self)@.push(Act::Notify(NoticeState::Progress(stage))),
    {
        self.push(Action::Notify(Notice::Progress(stage)));
    }

    pub fn status(
        &mut self,
        state: ConnectionState,
        packets: u64,
        last_received_seconds: Option<u64>,
    )
        ensures
            final(self)@ == old(self)@.push(
                Act::Notify(NoticeState::Status { state, packets, last_received_seconds }),
            ),
    {
        self.push(Action::Notify(Notice::Status { state, packets, last_received_seconds }));
    }

    pub fn diagnostic(&mut self, message: String)
        ensures
            final(self)@ == old(self)@.push(Act::Notify(NoticeState::Diagnostic(message@))),
    {
        self.push(Action::Notify(Notice::Diagnostic(message)));
    }

    pub fn traffic(&mut self, heading: &'static str, packets: u64)
        ensures
            final(self)@ == old(self)@.push(
                Act::Notify(NoticeState::Traffic { heading: heading@, count: packets }),
            ),
    {
        self.push(Action::Notify(Notice::Traffic { heading, packets }));
    }

    pub fn zone(&mut self, name: String)
        ensures
            final(self)@ == old(self)@.push(Act::Notify(NoticeState::Zone(name@))),
    {
        self.push(Action::Notify(Notice::Zone(name)));
    }

    pub fn record(&mut self, zone: String, event: RecordEvent)
        ensures
            final(self)@ == old(self)@.push(
                Act::Notify(NoticeState::Record { zone: zone@, event: event@ }),
            ),
    {
        self.push(Action::Notify(Notice::Record { zone, event }));
    }

    /// Report a packet by its opcode and length.
    pub fn received(&mut self, heading: &str, opcode: u16, length: usize)
        ensures
            final(self)@ == old(self)@.push(
                Act::Notify(
                    NoticeState::Diagnostic(received_text(heading@, opcode, length as nat)),
                ),
            ),
    {
        let mut message = heading.to_owned();
        text::push_hex4(&mut message, opcode);
        message.append(" (");
        text::push_decimal(&mut message, length as u64);
        message.append(" bytes)");
        self.diagnostic(message);
    }
}

/// How a stage goes on after a step.
#[derive(Debug)]
pub enum Outcome<T> {
    Continue,
    Done(T),
    Fail(SessionError),
}

/// Host time for events: seconds since the epoch and the same in RFC 3339 form.
#[derive(Debug)]
pub struct Stamp {
    pub seconds: i64,
    pub rfc3339: String,
}

/// What the events of one session have in common.
#[derive(Debug)]
pub struct Events {
    pub session_id: String,
    pub zone: String,
    pub messages: u64,
}

/// The meaning of `Events`.
#[verifier::ext_equal]
pub struct EventsState {
    pub session_id: Seq<char>,
    pub zone: Seq<char>,
    pub messages: u64,
}

impl View for Events {
    type V = EventsState;

    open spec fn view(&self) -> EventsState {
        EventsState { session_id: self.session_id@, zone: self.zone@, messages: self.messages }
    }
}

/// The text of a traffic diagnostic.
pub open spec fn traffic_text(heading: Seq<char>, packets: u64, messages: u64) -> Seq<char> {
    heading + text::decimal(packets as nat) + " application packets, "@ + text::decimal(
        messages as nat,
    ) + " communication records"@
}

impl EventsState {
    /// A session with a given id and nothing reported yet.
    pub open spec fn fresh(id: u64) -> EventsState {
        EventsState {
            session_id: outside::hex_of(bytes::be64(id)),
            zone: Seq::empty(),
            messages: 0,
        }
    }

    pub open spec fn status(
        self,
        state: ConnectionState,
        packets: u64,
        last_received_seconds: Option<u64>,
        timestamp: i64,
    ) -> EventState {
        EventState::Status {
            state,
            timestamp,
            session_id: self.session_id,
            zone: self.zone,
            messages: self.messages,
            packets,
            last_received_seconds,
        }
    }

    /// Whether a record passes the channel filter. Decode errors always do.
    pub open spec fn passes(event: RecordEventState, config: ClientConfig) -> bool {
        match event {
            RecordEventState::Chat(chat) => config.keeps(chat.channel_name),
            RecordEventState::DecodeError(_, _, _) => true,
        }
    }

    /// What a notice becomes: the next state, and the event to deliver, if any.
    pub open spec fn noticed(
        self,
        config: ClientConfig,
        notice: NoticeState,
        seconds: i64,
        time: Seq<char>,
    ) -> (EventsState, Option<EventState>) {
        match notice {
            NoticeState::Status { state, packets, last_received_seconds } => (
                self,
                Some(self.status(state, packets, last_received_seconds, seconds)),
            ),
            NoticeState::Progress(stage) => (self, Some(EventState::Progress(stage))),
            NoticeState::Diagnostic(message) => (self, Some(EventState::Diagnostic(message))),
            NoticeState::Traffic { heading, count } => (
                self,
                Some(EventState::Diagnostic(traffic_text(heading, count, self.messages))),
            ),
            NoticeState::Zone(name) => (EventsState { zone: name, ..self }, None),
            NoticeState::Record { zone, event } => if EventsState::passes(event, config) {
                let next = EventsState { messages: self.messages.wrapping_add(1), ..self };
                (
                    next,
                    Some(
                        EventState::Record {
                            time,
                            server: config.server@,
                            character: config.character@,
                            zone,
                            session_id: self.session_id,
                            message_id: next.messages,
                            event,
                        },
                    ),
                )
            } else {
                (self, None)
            },
        }
    }
}

/// An event to deliver, by what it means.
pub open spec fn event_state(event: Option<ClientEvent>) -> Option<EventState> {
    match event {
        Some(e) => Some(e@),
        None => None,
    }
}

impl Events {
    pub fn new() -> (events: Self)
        ensures
            events@ == (EventsState {
                session_id: Seq::empty(),
                zone: Seq::empty(),
                messages: 0,
            }),
    {
        let events = Events { session_id: String::new(), zone: String::new(), messages: 0 };
        proof {
            reveal_strlit("");
            assert(events@.session_id =~= Seq::empty());
            assert(events@.zone =~= Seq::empty());
        }
        events
    }

    /// Begin a session under a fresh random id.
    pub fn reset(&mut self)
        ensures
            exists|id: u64| final(self)@ == #[trigger] EventsState::fresh(id),
    {
        let id = outside::random_u64();
        self.reset_with(id);
    }

    /// Begin a session under a given id.
    pub fn reset_with(&mut self, id: u64)
        ensures
            final(self)@ == EventsState::fresh(id),
    {
        let mut data: Vec<u8> = Vec::new();
        bytes::push_be64(&mut data, id);
        assert(data@ =~= bytes::be64(id));
        self.session_id = outside::hex(&data);
        self.zone = String::new();
        self.messages = 0;
        proof {
            reveal_strlit("");
            assert(self@.zone =~= Seq::empty());
        }
    }

    /// The status of the session.
    pub fn status(
        &self,
        state: ConnectionState,
        packets: u64,
        last_received_seconds: Option<u64>,
        timestamp: i64,
    ) -> (event: ClientEvent)
        ensures
            event@ == self@.status(state, packets, last_received_seconds, timestamp),
    {
        ClientEvent::Status(
            SessionStatus {
                state,
                timestamp,
                session_id: self.session_id.clone(),
                zone: self.zone.clone(),
                messages: self.messages,
                packets,
                last_received_seconds,
            },
        )
    }

    /// Number a record and complete it, unless its channel is filtered out.
    pub fn record(
        &mut self,
        config: &ClientConfig,
        zone: String,
        event: RecordEvent,
        timestamp: String,
    ) -> (record: Option<ClientEvent>)
        ensures
            old(self)@.noticed(
                *config,
                NoticeState::Record { zone: zone@, event: event@ },
                0,
                timestamp@,
            ) == (final(self)@, event_state(record)),
    {
        if let RecordEvent::Chat(chat) = &event {
            if !config.logs(chat) {
                return None;
            }
        }
        self.messages = self.messages.wrapping_add(1);
        let record = Record {
            timestamp,
            server: config.server.clone(),
            character: config.character.clone(),
            zone,
            session_id: self.session_id.clone(),
            message_id: self.messages,
            event,
        };
        Some(ClientEvent::Record(Box::new(record)))
    }

    /// Turn a notice into the event to deliver, if any.
    pub fn notify(&mut self, config: &ClientConfig, notice: Notice, at: Stamp) -> (event: Option<
        ClientEvent,
    >)
        ensures
            old(self)@.noticed(*config, notice@, at.seconds, at.rfc3339@) == (
                final(self)@,
                event_state(event),
            ),
    {
        match notice {
            Notice::Status { state, packets, last_received_seconds } => Some(
                self.status(state, packets, last_received_seconds, at.seconds),
            ),
            Notice::Progress(stage) => Some(ClientEvent::Progress(stage)),
            Notice::Diagnostic(message) => Some(ClientEvent::Diagnostic(message)),
            Notice::Traffic { heading, packets } => {
                let mut message = heading.to_owned();
                text::push_decimal(&mut message, packets);
                message.append(" application packets, ");
                text::push_decimal(&mut message, self.messages);
                message.append(" communication records");
                Some(ClientEvent::Diagnostic(message))
            },
            Notice::Zone(name) => {
                self.zone = name;
                None
            },
            Notice::Record { zone, event } => self.record(config, zone, event, at.rfc3339),
        }
    }
}

/// Without a filter every record is delivered; with an empty one no decoded
/// chat is, and decode errors still are.
pub proof fn law_channel_filter(config: ClientConfig, event: RecordEventState)
    ensures
        config.channels is None ==> EventsState::passes(event, config),
        config.channels matches Some(channels) && channels@.len() == 0 ==> (
        EventsState::passes(event, config) <==> event is DecodeError),
{
    if let Some(channels) = config.channels {
        if channels@.len() == 0 {
            assert forall|c: super::ChannelName| !channels@.contains(c) by {}
        }
    }
}

/// The records of a session are numbered from one, without gaps: a delivered
/// record has the next number, and nothing else uses one up.
pub proof fn law_records_are_numbered(
    events: EventsState,
    config: ClientConfig,
    notice: NoticeState,
    seconds: i64,
    time: Seq<char>,
)
    requires
        events.messages < u64::MAX,
    ensures
        ({
            let (next, event) = events.noticed(config, notice, seconds, time);
            match event {
                Some(EventState::Record { message_id, session_id, .. }) => {
                    &&& message_id == events.messages + 1
                    &&& next.messages == message_id
                    &&& session_id == events.session_id
                },
                _ => next.messages == events.messages,
            }
        }),
        forall|id: u64| (#[trigger] EventsState::fresh(id)).messages == 0,
{
}

/// Records and statuses disclose neither the account nor the password: they
/// depend on nothing of the settings but the server, the character and the
/// channel filter.
pub proof fn law_events_disclose_no_credentials(
    events: EventsState,
    a: ClientConfig,
    b: ClientConfig,
    notice: NoticeState,
    seconds: i64,
    time: Seq<char>,
)
    requires
        a.server@ == b.server@,
        a.character@ == b.character@,
        a.channels == b.channels,
    ensures
        events.noticed(a, notice, seconds, time) == events.noticed(b, notice, seconds, time),
{
}

} // verus!

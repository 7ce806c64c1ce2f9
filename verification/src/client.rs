//! Cancellable session engine for native applications.
//!
//! The host supplies credentials and validation metadata, performs the socket
//! and clock work that the engine asks for, and consumes its events. It owns
//! credential persistence and logs.

use crate::assets::{AssetError, Assets};
use crate::bytes;
use crate::chat::{ChannelName, ChatEvent, ChatState, OutboundChat};
use crate::outside;
use crate::text;
use std::sync::atomic::{AtomicBool, Ordering};
use std::sync::Arc;
use vstd::prelude::*;
use vstd::string::StringExecFns;

pub mod laws;
pub mod quarm;
pub mod run;
pub mod run_laws;
pub mod session;
pub mod settings;
pub mod settings_laws;
pub mod step;

verus! {

/// Wire protocol and client family used by a server.
#[derive(Clone, Copy, Debug, PartialEq, Eq, Structural)]
pub enum ServerProtocol {
    /// Project 1999's Titanium/P99-V62 protocol.
    Project1999,
    /// Project Quarm's Windows TAKP/EQMac protocol.
    Quarm,
}

impl Default for ServerProtocol {
    fn default() -> (protocol: Self)
        ensures
            protocol == ServerProtocol::Project1999,
    {
        ServerProtocol::Project1999
    }
}

/// No protocol has this name.
#[derive(Debug)]
pub struct UnknownProtocol {
    pub name: String,
}

impl UnknownProtocol {
    /// Describe the error to a user.
    pub fn message(&self) -> (text: String)
        ensures
            text@ == "unknown server protocol "@ + outside::quoted_of(self.name@),
    {
        "unknown server protocol ".to_owned().concat(
            outside::text_quoted(self.name.as_str()).as_str(),
        )
    }
}

impl ServerProtocol {
    /// The public login endpoint normally used by this protocol.
    pub fn default_endpoint(self) -> (endpoint: (&'static str, u16))
        ensures
            endpoint.0@ == self.default_host(),
            endpoint.1 == self.default_port(),
    {
        match self {
            ServerProtocol::Project1999 => ("login.eqemulator.net", 5998),
            ServerProtocol::Quarm => ("loginserver.takproject.net", 6000),
        }
    }

    pub open spec fn default_host(self) -> Seq<char> {
        match self {
            ServerProtocol::Project1999 => "login.eqemulator.net"@,
            ServerProtocol::Quarm => "loginserver.takproject.net"@,
        }
    }

    pub open spec fn default_port(self) -> u16 {
        match self {
            ServerProtocol::Project1999 => 5998,
            ServerProtocol::Quarm => 6000,
        }
    }

    /// The protocol with a name, in whatever case.
    pub open spec fn named(name: Seq<u8>) -> Option<ServerProtocol> {
        let name = bytes::lowered(name);
        if name == text::utf8("p99"@) || name == text::utf8("project1999"@) || name == text::utf8(
            "project_1999"@,
        ) {
            Some(ServerProtocol::Project1999)
        } else if name == text::utf8("quarm"@) {
            Some(ServerProtocol::Quarm)
        } else {
            None
        }
    }

    /// The stable name of the protocol in configurations.
    pub fn name(self) -> (name: &'static str)
        ensures
            name@ == (match self {
                ServerProtocol::Project1999 => "project1999"@,
                ServerProtocol::Quarm => "quarm"@,
            }),
    {
        match self {
            ServerProtocol::Project1999 => "project1999",
            ServerProtocol::Quarm => "quarm",
        }
    }

    /// Read a protocol name.
    pub fn parse(value: &str) -> (r: Result<Self, UnknownProtocol>)
        ensures
            match ServerProtocol::named(text::utf8(value@)) {
                Some(protocol) => r == Ok::<_, UnknownProtocol>(protocol),
                None => r matches Err(e) && e.name@ == value@,
            },
    {
        let name = bytes::ascii_lowercase(value.as_bytes());
        if bytes::same_bytes(&name, "p99".as_bytes()) || bytes::same_bytes(
            &name,
            "project1999".as_bytes(),
        ) || bytes::same_bytes(&name, "project_1999".as_bytes()) {
            Ok(ServerProtocol::Project1999)
        } else if bytes::same_bytes(&name, "quarm".as_bytes()) {
            Ok(ServerProtocol::Quarm)
        } else {
            Err(UnknownProtocol { name: value.to_owned() })
        }
    }
}

impl std::str::FromStr for ServerProtocol {
    type Err = UnknownProtocol;

    fn from_str(value: &str) -> (r: Result<Self, UnknownProtocol>)
        ensures
            match ServerProtocol::named(text::utf8(value@)) {
                Some(protocol) => r == Ok::<_, UnknownProtocol>(protocol),
                None => r matches Err(e) && e.name@ == value@,
            },
    {
        ServerProtocol::parse(value)
    }
}

/// Connection and logging preferences. Intentionally does not implement Debug,
/// so credentials are not included in diagnostic output.
#[derive(Clone)]
pub struct ClientConfig {
    pub protocol: ServerProtocol,
    pub host: String,
    pub port: u16,
    pub user: String,
    pub pass: String,
    pub server: String,
    pub character: String,
    pub include_raw: bool,
    /// None logs every channel; an empty list logs no decoded chat.
    pub channels: Option<Vec<ChannelName>>,
    /// Nanoseconds between the end of an attempt and the next one.
    pub reconnect_delay: u64,
}

/// Why settings cannot be used.
#[derive(Clone, Copy, Debug, PartialEq, Eq, Structural)]
pub enum ConfigError {
    RequiredField,
    Port,
    QuarmField,
    CharacterName,
    ReconnectDelay,
    Identity,
}

impl ConfigError {
    /// The wording of each error.
    pub open spec fn text(self) -> Seq<char> {
        match self {
            ConfigError::RequiredField =>
                "required connection fields must be nonempty and contain no NUL"@,
            ConfigError::Port => "login port must be nonzero"@,
            ConfigError::QuarmField => "Quarm login fields must fit in 19 bytes"@,
            ConfigError::CharacterName => "character name exceeds protocol field size"@,
            ConfigError::ReconnectDelay => "reconnect delay must be at least 10 seconds"@,
            ConfigError::Identity =>
                "client identity fields must contain 1 to 15 bytes and no NUL"@,
        }
    }

    /// Describe the error to a user.
    pub fn message(&self) -> (text: &'static str)
        ensures
            text@ == self.text(),
    {
        match self {
            ConfigError::RequiredField =>
                "required connection fields must be nonempty and contain no NUL",
            ConfigError::Port => "login port must be nonzero",
            ConfigError::QuarmField => "Quarm login fields must fit in 19 bytes",
            ConfigError::CharacterName => "character name exceeds protocol field size",
            ConfigError::ReconnectDelay => "reconnect delay must be at least 10 seconds",
            ConfigError::Identity => "client identity fields must contain 1 to 15 bytes and no NUL",
        }
    }
}

/// Text that is not empty and can stand in a NUL-terminated field.
pub open spec fn usable(text: Seq<char>) -> bool {
    text::utf8(text).len() > 0 && !text::utf8(text).contains(0u8)
}

fn is_usable(value: &String) -> (r: bool)
    ensures
        r == usable(value@),
{
    let data = text::bytes_of(value);
    data.len() > 0 && !bytes::contains(data, 0)
}

impl ClientConfig {
    /// Configure a character with the default login endpoint and all chat channels.
    pub fn new(user: &str, pass: &str, server: &str, character: &str) -> (config: Self)
        ensures
            config.is_default(ServerProtocol::Project1999, user@, pass@, server@, character@),
    {
        Self::for_protocol(ServerProtocol::Project1999, user, pass, server, character)
    }

    /// A configuration with the defaults of a protocol.
    pub open spec fn is_default(
        &self,
        protocol: ServerProtocol,
        user: Seq<char>,
        pass: Seq<char>,
        server: Seq<char>,
        character: Seq<char>,
    ) -> bool {
        &&& self.protocol == protocol
        &&& self.host@ == protocol.default_host()
        &&& self.port == protocol.default_port()
        &&& self.user@ == user
        &&& self.pass@ == pass
        &&& self.server@ == server
        &&& self.character@ == character
        &&& !self.include_raw
        &&& self.channels is None
        &&& self.reconnect_delay == 30_000_000_000
    }

    /// Configure a character with a protocol's normal login endpoint.
    pub fn for_protocol(
        protocol: ServerProtocol,
        user: &str,
        pass: &str,
        server: &str,
        character: &str,
    ) -> (config: Self)
        ensures
            config.is_default(protocol, user@, pass@, server@, character@),
    {
        let (host, port) = protocol.default_endpoint();
        ClientConfig {
            protocol,
            host: host.to_owned(),
            port,
            user: user.to_owned(),
            pass: pass.to_owned(),
            server: server.to_owned(),
            character: character.to_owned(),
            include_raw: false,
            channels: None,
            reconnect_delay: 30_000_000_000,
        }
    }

    /// What is wrong with the settings.
    pub open spec fn fault(&self) -> Option<ConfigError> {
        if !usable(self.host@) || !usable(self.user@) || !usable(self.pass@) || !usable(
            self.server@,
        ) || !usable(self.character@) {
            Some(ConfigError::RequiredField)
        } else if self.port == 0 {
            Some(ConfigError::Port)
        } else if self.protocol == ServerProtocol::Quarm && !(text::utf8(self.user@).len() < 20
            && text::utf8(self.pass@).len() < 20) {
            Some(ConfigError::QuarmField)
        } else if text::utf8(self.character@).len() >= 64 {
            Some(ConfigError::CharacterName)
        } else if self.reconnect_delay < 10_000_000_000 {
            Some(ConfigError::ReconnectDelay)
        } else {
            None
        }
    }

    /// Check the settings before anything is connected.
    pub fn validate(&self) -> (r: Result<(), ConfigError>)
        ensures
            r == (match self.fault() {
                Some(e) => Err::<(), _>(e),
                None => Ok(()),
            }),
    {
        if !is_usable(&self.host) || !is_usable(&self.user) || !is_usable(&self.pass)
            || !is_usable(&self.server) || !is_usable(&self.character) {
            return Err(ConfigError::RequiredField);
        }
        if self.port == 0 {
            return Err(ConfigError::Port);
        }
        if self.protocol == ServerProtocol::Quarm {
            if text::bytes_of(&self.user).len() >= 20 || text::bytes_of(&self.pass).len() >= 20 {
                return Err(ConfigError::QuarmField);
            }
        }
        if text::bytes_of(&self.character).len() >= 64 {
            return Err(ConfigError::CharacterName);
        }
        if self.reconnect_delay < 10_000_000_000 {
            return Err(ConfigError::ReconnectDelay);
        }
        Ok(())
    }

    /// Whether messages of a channel are delivered.
    pub open spec fn keeps(&self, channel: ChannelName) -> bool {
        match self.channels {
            Some(channels) => channels@.contains(channel),
            None => true,
        }
    }

    /// Whether a decoded communication should be delivered to the caller.
    pub fn logs(&self, event: &ChatEvent) -> (r: bool)
        ensures
            r == self.keeps(event.channel_name),
    {
        match &self.channels {
            Some(channels) => {
                let mut i: usize = 0;
                while i < channels.len()
                    invariant
                        i <= channels@.len(),
                        self.channels == Some(*channels),
                        forall|j: int| 0 <= j < i ==> channels@[j] != event.channel_name,
                    decreases channels@.len() - i,
                {
                    if channels[i] == event.channel_name {
                        assert(channels@[i as int] == event.channel_name);
                        return true;
                    }
                    i = i + 1;
                }
                false
            },
            None => true,
        }
    }
}

/// Host-provided metadata for the V62 validation packet. Each field must fit
/// within 15 UTF-8 bytes; the engine uppercases hostname before checking its size.
#[derive(Clone)]
pub struct ClientIdentity {
    pub hostname: String,
    pub username: String,
}

/// Cooperative shutdown, shared between the session worker and its owner. Any
/// thread with a clone of it may set its flag at any time, so the contracts say
/// which flag is read or set, but not what a read finds there.
#[derive(Clone, Debug, Default)]
pub struct CancellationToken(Arc<AtomicBool>);

impl CancellationToken {
    /// The flag that the token shares.
    pub closed spec fn flag(&self) -> &AtomicBool {
        &*self.0
    }

    /// Request shutdown. A cancelled token remains cancelled; use a new one to reconnect.
    pub fn cancel(&self)
        ensures
            call_ensures(AtomicBool::store, (self.flag(), true, Ordering::Relaxed), ()),
    {
        self.0.store(true, Ordering::Relaxed);
    }

    /// Whether shutdown was requested: what a load of the shared flag gives.
    #[must_use]
    pub fn is_cancelled(&self) -> (cancelled: bool)
        ensures
            call_ensures(AtomicBool::load, (self.flag(), Ordering::Relaxed), cancelled),
    {
        self.0.load(Ordering::Relaxed)
    }
}

impl From<Arc<AtomicBool>> for CancellationToken {
    /// Adopt an existing shutdown flag, for example one registered with a signal handler.
    fn from(flag: Arc<AtomicBool>) -> (token: Self)
        ensures
            token.flag() == &*flag,
    {
        CancellationToken(flag)
    }
}

impl vstd::std_specs::convert::FromSpecImpl<Arc<AtomicBool>> for CancellationToken {
    open spec fn obeys_from_spec() -> bool {
        true
    }

    closed spec fn from_spec(flag: Arc<AtomicBool>) -> CancellationToken {
        CancellationToken(flag)
    }
}

/// A confirmed login rejection that cannot be resolved by reconnecting.
#[derive(Clone, Copy, Debug, PartialEq, Eq, Structural)]
pub enum LoginError {
    /// The login server rejected the account/password pair.
    InvalidCredentials,
}

impl LoginError {
    /// Describe the error to a user.
    pub fn message(&self) -> (text: &'static str)
        ensures
            text@ == "Login account or password was rejected"@,
    {
        match self {
            LoginError::InvalidCredentials => "Login account or password was rejected",
        }
    }
}

/// Limits for one run; transient failures reconnect until cancellation by default.
#[derive(Clone, Copy, Debug)]
pub struct RunOptions {
    pub reconnect: bool,
    pub world_only: bool,
    /// Optional maximum time in the zone, including zone admission, in nanoseconds.
    pub zone_duration: Option<u64>,
}

impl Default for RunOptions {
    fn default() -> (options: Self)
        ensures
            options == (RunOptions { reconnect: true, world_only: false, zone_duration: None }),
    {
        RunOptions { reconnect: true, world_only: false, zone_duration: None }
    }
}

impl RunOptions {
    /// Options for a run of at most some seconds in the zone, zero being no
    /// limit. A limited run or one that stops in the world does not reconnect.
    pub fn limited(seconds: Option<u64>, world_only: bool) -> (options: Self)
        ensures
            ({
                let limit = match seconds {
                    Some(n) => n > 0,
                    None => false,
                };
                &&& options.world_only == world_only
                &&& options.reconnect == (!limit && !world_only)
                &&& options.zone_duration == (if !limit {
                    None
                } else if seconds->0 * 1_000_000_000 > u64::MAX {
                    Some(u64::MAX)
                } else {
                    Some((seconds->0 * 1_000_000_000) as u64)
                })
            }),
    {
        let zone_duration = match seconds {
            Some(n) => if n == 0 {
                None
            } else {
                match n.checked_mul(1_000_000_000) {
                    Some(limit) => Some(limit),
                    None => Some(u64::MAX),
                }
            },
            None => None,
        };
        RunOptions { reconnect: zone_duration.is_none() && !world_only, world_only, zone_duration }
    }
}

/// The states of a connection, as a status reports them.
#[derive(Clone, Copy, Debug, PartialEq, Eq, Structural)]
pub enum ConnectionState {
    Connecting,
    Connected,
    Zoning,
    Disconnected,
    Stopped,
}

/// Ordered connection milestones, from the start of an attempt to zone admission.
/// These describe completed protocol work, not elapsed time or packet counts.
#[derive(Clone, Copy, Debug, PartialEq, Eq, Structural)]
pub enum ConnectionStage {
    ConnectingLogin,
    Authenticating,
    SelectingServer,
    ConnectingWorld,
    SelectingCharacter,
    ConnectingZone,
    LoadingCharacter,
    EnteringWorld,
    Ready,
}

/// Periodic session state suitable for a UI status indicator or health adapter.
#[derive(Clone, Debug)]
pub struct SessionStatus {
    pub state: ConnectionState,
    pub timestamp: i64,
    pub session_id: String,
    pub zone: String,
    pub messages: u64,
    pub packets: u64,
    pub last_received_seconds: Option<u64>,
}

/// Whether a status that is `age` seconds old shows a completed zone entry and
/// valid server traffic within the last minute.
pub fn healthy(state: ConnectionState, age: i64, last_received_seconds: Option<u64>) -> (r: bool)
    ensures
        r == {
            &&& state == ConnectionState::Connected
            &&& 0 <= age <= 60
            &&& last_received_seconds matches Some(seconds) && seconds + age < 60
        },
{
    if state != ConnectionState::Connected || age < 0 || age > 60 {
        return false;
    }
    match last_received_seconds {
        Some(seconds) => seconds < 60 && seconds + age as u64 <= 59,
        None => false,
    }
}

/// A recognized communication that could not be decoded, with its bytes.
#[derive(Clone, Debug)]
pub struct DecodeError {
    pub opcode: u16,
    pub payload_hex: String,
    pub error: String,
}

#[derive(Clone, Debug)]
pub enum RecordEvent {
    Chat(ChatEvent),
    DecodeError(DecodeError),
}

/// An owned communication record that can cross a thread or UI boundary.
#[derive(Clone, Debug)]
pub struct Record {
    pub timestamp: String,
    pub server: String,
    pub character: String,
    pub zone: String,
    pub session_id: String,
    pub message_id: u64,
    pub event: RecordEvent,
}

#[derive(Clone, Debug)]
pub enum ClientEvent {
    Status(SessionStatus),
    Progress(ConnectionStage),
    Record(Box<Record>),
    Diagnostic(String),
    Reconnecting { error: String, delay_seconds: u64 },
}

/// Work submitted by the host while the character is connected.
#[derive(Clone, Debug, PartialEq, Eq)]
pub enum ClientCommand {
    SendChat(OutboundChat),
}

/// The meaning of a `RecordEvent`.
#[verifier::ext_equal]
pub enum RecordEventState {
    Chat(ChatState),
    DecodeError(u16, Seq<char>, Seq<char>),
}

impl View for RecordEvent {
    type V = RecordEventState;

    open spec fn view(&self) -> RecordEventState {
        match self {
            RecordEvent::Chat(event) => RecordEventState::Chat(event@),
            RecordEvent::DecodeError(e) => RecordEventState::DecodeError(
                e.opcode,
                e.payload_hex@,
                e.error@,
            ),
        }
    }
}

/// The meaning of a `ClientEvent`.
#[verifier::ext_equal]
pub enum EventState {
    Status {
        state: ConnectionState,
        timestamp: i64,
        session_id: Seq<char>,
        zone: Seq<char>,
        messages: u64,
        packets: u64,
        last_received_seconds: Option<u64>,
    },
    Progress(ConnectionStage),
    Record {
        time: Seq<char>,
        server: Seq<char>,
        character: Seq<char>,
        zone: Seq<char>,
        session_id: Seq<char>,
        message_id: u64,
        event: RecordEventState,
    },
    Diagnostic(Seq<char>),
    Reconnecting { error: Seq<char>, delay_seconds: u64 },
}

impl View for ClientEvent {
    type V = EventState;

    open spec fn view(&self) -> EventState {
        match self {
            ClientEvent::Status(s) => EventState::Status {
                state: s.state,
                timestamp: s.timestamp,
                session_id: s.session_id@,
                zone: s.zone@,
                messages: s.messages,
                packets: s.packets,
                last_received_seconds: s.last_received_seconds,
            },
            ClientEvent::Progress(stage) => EventState::Progress(*stage),
            ClientEvent::Record(r) => EventState::Record {
                time: r.timestamp@,
                server: r.server@,
                character: r.character@,
                zone: r.zone@,
                session_id: r.session_id@,
                message_id: r.message_id,
                event: r.event@,
            },
            ClientEvent::Diagnostic(message) => EventState::Diagnostic(message@),
            ClientEvent::Reconnecting { error, delay_seconds } => EventState::Reconnecting {
                error: error@,
                delay_seconds: *delay_seconds,
            },
        }
    }
}

/// A reusable native client. The caller owns the worker thread and event storage.
pub struct Client {
    pub config: ClientConfig,
    pub identity: ClientIdentity,
    pub assets: Assets,
}

/// Text of 1 to 15 bytes that can stand in a NUL-terminated field.
pub open spec fn identity_field(text: Seq<char>) -> bool {
    usable(text) && text::utf8(text).len() < 16
}

impl Client {
    /// Validate settings and use a checksum inventory.
    pub fn new(config: ClientConfig, identity: ClientIdentity, assets: Assets) -> (r: Result<
        Self,
        ConfigError,
    >)
        ensures
            match r {
                Ok(client) => {
                    &&& config.fault() is None
                    &&& identity_field(outside::uppercase_of(identity.hostname@))
                    &&& identity_field(identity.username@)
                    &&& client.config == config
                    &&& client.identity.hostname@ == outside::uppercase_of(identity.hostname@)
                    &&& client.identity.username == identity.username
                    &&& client.assets == assets
                },
                Err(ConfigError::Identity) => {
                    &&& config.fault() is None
                    &&& !(identity_field(outside::uppercase_of(identity.hostname@))
                        && identity_field(identity.username@))
                },
                Err(e) => config.fault() == Some(e),
            },
    {
        if let Err(e) = config.validate() {
            return Err(e);
        }
        let hostname = outside::text_uppercase(identity.hostname.as_str());
        let username = identity.username;
        if !is_usable(&hostname) || text::bytes_of(&hostname).len() >= 16 || !is_usable(&username)
            || text::bytes_of(&username).len() >= 16 {
            return Err(ConfigError::Identity);
        }
        Ok(Client { config, identity: ClientIdentity { hostname, username }, assets })
    }

    /// Replace the checksum inventory with an application-supplied one, which
    /// has to hold the spell file.
    pub fn with_assets(self, assets: Assets) -> (r: Result<Self, AssetError>)
        ensures
            match r {
                Ok(client) => {
                    &&& assets.spell_file() is Some
                    &&& client == (Client { assets, ..self })
                },
                Err(e) => assets.spell_file() is None && e@
                    == crate::assets::AssetFault::NoSpells,
            },
    {
        if let Err(e) = assets.spells() {
            return Err(e);
        }
        Ok(Client { config: self.config, identity: self.identity, assets })
    }
}

} // verus!

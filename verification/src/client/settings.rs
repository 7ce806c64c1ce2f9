//! Settings as a user writes them down, with what may be left out.

use super::{ClientConfig, ServerProtocol, UnknownProtocol};
use crate::chat::ChannelName;
use crate::outside;
use crate::text;
use vstd::prelude::*;
use vstd::string::StringExecFns;

verus! {

/// Settings of which only account, password, server and character are required.
/// Intentionally does not implement Debug, so credentials are not included in
/// diagnostic output.
pub struct Settings {
    /// The name of a protocol.
    pub protocol: Option<String>,
    pub host: Option<String>,
    pub port: Option<u16>,
    pub user: String,
    pub pass: String,
    pub server: String,
    pub character: String,
    pub include_raw: Option<bool>,
    /// The names of the channels to log.
    pub channels: Option<Vec<String>>,
    pub reconnect_seconds: Option<u64>,
}

/// Why settings cannot be read.
#[derive(Debug)]
pub enum SettingsError {
    Protocol(UnknownProtocol),
    /// No channel has this name.
    Channel(String),
}

impl SettingsError {
    /// Describe the error to a user.
    pub fn message(&self) -> (text: String)
        ensures
            text@ == (match self {
                SettingsError::Protocol(e) => "unknown server protocol "@ + outside::quoted_of(
                    e.name@,
                ),
                SettingsError::Channel(name) => "unknown channel "@ + outside::quoted_of(name@),
            }),
    {
        match self {
            SettingsError::Protocol(e) => e.message(),
            SettingsError::Channel(name) => "unknown channel ".to_owned().concat(
                outside::text_quoted(name.as_str()).as_str(),
            ),
        }
    }
}

/// The channels with some names, or the first name that no channel has.
pub open spec fn channels_named(names: Seq<Seq<char>>) -> Result<Seq<ChannelName>, Seq<char>>
    decreases names.len(),
{
    if names.len() == 0 {
        Ok(Seq::empty())
    } else {
        match channels_named(names.drop_last()) {
            Err(name) => Err(name),
            Ok(before) => match ChannelName::named(text::utf8(names.last())) {
                Some(channel) => Ok(before.push(channel)),
                None => Err(names.last()),
            },
        }
    }
}

/// A failure stays the first one.
proof fn lemma_first_unknown(names: Seq<Seq<char>>, n: int)
    requires
        0 <= n <= names.len(),
        channels_named(names.take(n)) is Err,
    ensures
        channels_named(names) == channels_named(names.take(n)),
    decreases names.len(),
{
    if n == names.len() {
        assert(names.take(n) =~= names);
    } else {
        assert(names.drop_last().take(n) =~= names.take(n));
        lemma_first_unknown(names.drop_last(), n);
    }
}

/// Look up channels by their names.
fn find_channels(names: &Vec<String>) -> (r: Result<Vec<ChannelName>, String>)
    ensures
        channels_named(text::texts(names@)) == (match r {
            Ok(channels) => Ok(channels@),
            Err(name) => Err(name@),
        }),
{
    let ghost all = text::texts(names@);
    let mut channels: Vec<ChannelName> = Vec::new();
    let mut i: usize = 0;
    assert(all.take(0) =~= Seq::empty());
    while i < names.len()
        invariant
            i <= names@.len(),
            all == text::texts(names@),
            channels_named(all.take(i as int)) == Ok::<_, Seq<char>>(channels@),
        decreases names@.len() - i,
    {
        assert(all.take(i + 1).drop_last() =~= all.take(i as int));
        assert(all.take(i + 1).last() == names@[i as int]@);
        match ChannelName::from_name(names[i].as_str()) {
            Some(channel) => {
                channels.push(channel);
            },
            None => {
                proof {
                    lemma_first_unknown(all, i + 1);
                }
                return Err(names[i].clone());
            },
        }
        i = i + 1;
    }
    assert(all.take(i as int) =~= all);
    Ok(channels)
}

/// Seconds in nanoseconds, as far as they can be counted.
pub open spec fn delay_of(seconds: u64) -> u64 {
    if seconds * 1_000_000_000 > u64::MAX {
        u64::MAX
    } else {
        (seconds * 1_000_000_000) as u64
    }
}

impl Settings {
    /// The protocol that is asked for, where its name is known.
    pub open spec fn asked_protocol(&self) -> Option<ServerProtocol> {
        match self.protocol {
            Some(name) => ServerProtocol::named(text::utf8(name@)),
            None => Some(ServerProtocol::Project1999),
        }
    }

    /// The channels that are asked for, or the first name that is unknown.
    pub open spec fn asked_channels(&self) -> Result<Option<Seq<ChannelName>>, Seq<char>> {
        match self.channels {
            Some(names) => match channels_named(text::texts(names@)) {
                Ok(channels) => Ok(Some(channels)),
                Err(name) => Err(name),
            },
            None => Ok(None),
        }
    }

    /// Whether a configuration is what these settings ask for, with the defaults
    /// of its protocol for what they leave out.
    pub open spec fn describe(&self, config: ClientConfig) -> bool {
        &&& self.asked_protocol() == Some(config.protocol)
        &&& config.host@ == (match self.host {
            Some(host) => host@,
            None => config.protocol.default_host(),
        })
        &&& config.port == (match self.port {
            Some(port) => port,
            None => config.protocol.default_port(),
        })
        &&& config.user@ == self.user@
        &&& config.pass@ == self.pass@
        &&& config.server@ == self.server@
        &&& config.character@ == self.character@
        &&& config.include_raw == (self.include_raw == Some(true))
        &&& self.asked_channels() == Ok::<_, Seq<char>>(
            match config.channels {
                Some(channels) => Some(channels@),
                None => None,
            },
        )
        &&& config.reconnect_delay == (match self.reconnect_seconds {
            Some(seconds) => delay_of(seconds),
            None => 30_000_000_000,
        })
    }

    /// The configuration that these settings ask for.
    pub fn client_config(&self) -> (r: Result<ClientConfig, SettingsError>)
        ensures
            match r {
                Ok(config) => self.describe(config),
                Err(SettingsError::Protocol(e)) => self.asked_protocol() is None && e.name@
                    == self.protocol->0@,
                Err(SettingsError::Channel(name)) => self.asked_protocol() is Some
                    && self.asked_channels() == Err::<Option<Seq<ChannelName>>, _>(name@),
            },
    {
        let protocol = match &self.protocol {
            Some(name) => match ServerProtocol::parse(name.as_str()) {
                Ok(protocol) => protocol,
                Err(e) => {
                    return Err(SettingsError::Protocol(e));
                },
            },
            None => ServerProtocol::Project1999,
        };
        let mut config = ClientConfig::for_protocol(
            protocol,
            self.user.as_str(),
            self.pass.as_str(),
            self.server.as_str(),
            self.character.as_str(),
        );
        if let Some(host) = &self.host {
            config.host = host.clone();
        }
        if let Some(port) = self.port {
            config.port = port;
        }
        if let Some(include_raw) = self.include_raw {
            config.include_raw = include_raw;
        }
        if let Some(names) = &self.channels {
            match find_channels(names) {
                Ok(channels) => {
                    config.channels = Some(channels);
                },
                Err(name) => {
                    return Err(SettingsError::Channel(name));
                },
            }
        }
        if let Some(seconds) = self.reconnect_seconds {
            config.reconnect_delay = if seconds > 18_446_744_073 {
                u64::MAX
            } else {
                seconds * 1_000_000_000
            };
        }
        Ok(config)
    }
}

} // verus!

//! What settings mean, and which of them can be used.

use super::settings::{channels_named, delay_of, Settings};
use super::{identity_field, usable, ClientConfig, ConfigError, ServerProtocol};
use crate::bytes;
use crate::chat::ChannelName;
use crate::text;
use vstd::prelude::*;

verus! {

/// A protocol is found by its names without regard to case, and by no other.
pub proof fn law_protocols_are_found_by_name(name: Seq<u8>)
    ensures
        ({
            let lower = bytes::lowered(name);
            let p99 = lower == text::utf8("p99"@) || lower == text::utf8("project1999"@) || lower
                == text::utf8("project_1999"@);
            &&& p99 <==> ServerProtocol::named(name) == Some(ServerProtocol::Project1999)
            &&& lower == text::utf8("quarm"@) <==> ServerProtocol::named(name) == Some(
                ServerProtocol::Quarm,
            )
        }),
{
    reveal_strlit("p99");
    reveal_strlit("project1999");
    reveal_strlit("project_1999");
    reveal_strlit("quarm");
    vstd::utf8::encode_utf8_decode_utf8("p99"@);
    vstd::utf8::encode_utf8_decode_utf8("project1999"@);
    vstd::utf8::encode_utf8_decode_utf8("project_1999"@);
    vstd::utf8::encode_utf8_decode_utf8("quarm"@);
}

/// Each protocol has its own public login server, on its own port.
pub proof fn law_protocols_have_their_login_servers()
    ensures
        ServerProtocol::Project1999.default_host() == "login.eqemulator.net"@,
        ServerProtocol::Project1999.default_port() == 5998,
        ServerProtocol::Quarm.default_host() == "loginserver.takproject.net"@,
        ServerProtocol::Quarm.default_port() == 6000,
{
}

/// Whether a setting is left out or holds a NUL.
pub open spec fn missing(s: Seq<char>) -> bool {
    text::utf8(s).len() == 0 || exists|i: int|
        0 <= i < text::utf8(s).len() && #[trigger] text::utf8(s)[i] == 0
}

proof fn lemma_missing(s: Seq<char>)
    ensures
        usable(s) <==> !missing(s),
{
    let data = text::utf8(s);
    if exists|i: int| 0 <= i < data.len() && #[trigger] data[i] == 0 {
        let i = choose|i: int| 0 <= i < data.len() && #[trigger] data[i] == 0;
        assert(data.contains(data[i]));
    }
}

/// A configuration can be used exactly where no required field is missing, the port is
/// not zero, the fields fit those of the protocol, and reconnecting waits ten seconds;
/// and the first of these that fails is what is told.
pub proof fn law_configurations_are_checked(config: ClientConfig)
    ensures
        ({
            let left_out = missing(config.host@) || missing(config.user@) || missing(config.pass@)
                || missing(config.server@) || missing(config.character@);
            let long = config.protocol == ServerProtocol::Quarm && (text::utf8(config.user@).len()
                > 19 || text::utf8(config.pass@).len() > 19);
            let long_name = text::utf8(config.character@).len() > 63;
            let short = config.reconnect_delay < 10_000_000_000;
            &&& config.fault() == Some(ConfigError::RequiredField) <==> left_out
            &&& config.fault() == Some(ConfigError::Port) <==> !left_out && config.port == 0
            &&& config.fault() == Some(ConfigError::QuarmField) <==> !left_out && config.port != 0
                && long
            &&& config.fault() == Some(ConfigError::CharacterName) <==> !left_out && config.port != 0
                && !long && long_name
            &&& config.fault() == Some(ConfigError::ReconnectDelay) <==> !left_out && config.port
                != 0 && !long && !long_name && short
            &&& config.fault() is None <==> !left_out && config.port != 0 && !long && !long_name
                && !short
        }),
{
    lemma_missing(config.host@);
    lemma_missing(config.user@);
    lemma_missing(config.pass@);
    lemma_missing(config.server@);
    lemma_missing(config.character@);
}

/// A channel is kept where no channels are named, and else where it is one of them.
pub proof fn law_named_channels_are_kept(config: ClientConfig, channel: ChannelName)
    ensures
        config.channels is None ==> config.keeps(channel),
        config.channels is Some ==> (config.keeps(channel) <==> exists|i: int|
            0 <= i < (config.channels->0)@.len() && #[trigger] (config.channels->0)@[i] == channel),
{
}

/// A configuration without further settings: the public server of the protocol, every
/// channel, no raw packets, and half a minute between attempts.
pub proof fn law_configurations_have_defaults(
    config: ClientConfig,
    protocol: ServerProtocol,
    user: Seq<char>,
    pass: Seq<char>,
    server: Seq<char>,
    character: Seq<char>,
)
    requires
        config.is_default(protocol, user, pass, server, character),
    ensures
        config.protocol == protocol,
        config.host@ == protocol.default_host() && config.port == protocol.default_port(),
        config.user@ == user && config.pass@ == pass,
        config.server@ == server && config.character@ == character,
        !config.include_raw && config.channels is None,
        config.reconnect_delay == 30 * 1_000_000_000,
{
}

/// Channels are named one by one, in their order. The first name that no channel has is
/// what is told.
pub proof fn law_channels_are_named_one_by_one(names: Seq<Seq<char>>, i: int)
    ensures
        (forall|k: int|
            0 <= k < names.len() ==> ChannelName::named(text::utf8(#[trigger] names[k])) is Some)
            ==> {
            &&& channels_named(names) is Ok
            &&& channels_named(names)->Ok_0.len() == names.len()
            &&& 0 <= i < names.len() ==> ChannelName::named(text::utf8(names[i])) == Some(
                channels_named(names)->Ok_0[i],
            )
        },
        0 <= i < names.len() && ChannelName::named(text::utf8(names[i])) is None && (forall|k: int|
            0 <= k < i ==> ChannelName::named(text::utf8(#[trigger] names[k])) is Some)
            ==> channels_named(names) == Err::<Seq<ChannelName>, _>(names[i]),
    decreases names.len(),
{
    if names.len() > 0 {
        let before = names.drop_last();
        law_channels_are_named_one_by_one(before, i);
        assert(forall|k: int| 0 <= k < before.len() ==> #[trigger] before[k] == names[k]);
        assert(names.last() == names[names.len() - 1]);
        if forall|k: int|
            0 <= k < names.len() ==> ChannelName::named(text::utf8(#[trigger] names[k])) is Some {
            assert(forall|k: int|
                0 <= k < before.len() ==> ChannelName::named(text::utf8(#[trigger] before[k]))
                    is Some);
        }
        if 0 <= i < names.len() && ChannelName::named(text::utf8(names[i])) is None && (forall|
            k: int,
        |
            0 <= k < i ==> ChannelName::named(text::utf8(#[trigger] names[k])) is Some) {
            assert(forall|k: int|
                0 <= k < i && k < before.len() ==> ChannelName::named(
                    text::utf8(#[trigger] before[k]),
                ) is Some);
            if i == names.len() - 1 {
                assert(forall|k: int|
                    0 <= k < before.len() ==> ChannelName::named(text::utf8(#[trigger] before[k]))
                        is Some);
            }
        }
    }
}

/// A setting that is written down is the one that is used, and one that is left out has
/// its default.
pub proof fn law_settings_are_used(settings: Settings, config: ClientConfig)
    requires
        settings.describe(config),
    ensures
        settings.protocol is None ==> config.protocol == ServerProtocol::Project1999,
        settings.protocol matches Some(name) ==> ServerProtocol::named(text::utf8(name@)) == Some(
            config.protocol,
        ),
        settings.host matches Some(host) ==> config.host@ == host@,
        settings.host is None ==> config.host@ == config.protocol.default_host(),
        settings.port matches Some(port) ==> config.port == port,
        settings.port is None ==> config.port == config.protocol.default_port(),
        config.user@ == settings.user@ && config.pass@ == settings.pass@,
        config.server@ == settings.server@ && config.character@ == settings.character@,
        config.include_raw <==> settings.include_raw == Some(true),
        settings.channels is None ==> config.channels is None,
        settings.channels matches Some(names) ==> config.channels is Some && channels_named(
            text::texts(names@),
        ) == Ok::<_, Seq<char>>((config.channels->0)@),
        settings.reconnect_seconds is None ==> config.reconnect_delay == 30_000_000_000,
        settings.reconnect_seconds matches Some(seconds) ==> config.reconnect_delay == delay_of(
            seconds,
        ),
{
}

/// Seconds are counted in nanoseconds, as far as 64 bits hold them.
pub proof fn law_delays_are_nanoseconds(seconds: u64)
    ensures
        seconds <= 18_446_744_073 ==> delay_of(seconds) == seconds * 1_000_000_000,
        seconds > 18_446_744_073 ==> delay_of(seconds) == u64::MAX,
{
}

/// An identity can be used exactly where it has 1 to 15 bytes and no NUL.
pub proof fn law_identities_are_checked(s: Seq<char>)
    ensures
        identity_field(s) <==> 1 <= text::utf8(s).len() <= 15 && !missing(s),
{
    lemma_missing(s);
}

} // verus!

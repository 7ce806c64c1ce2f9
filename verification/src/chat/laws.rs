//! Where a channel message has its parts, and how channels are found.

use super::{ChannelName, ChannelNumber};
use crate::bytes;
use crate::outside;
use crate::text;
use vstd::prelude::*;

verus! {

/// Whether the text in a field that ends at `end` has `n` bytes: none of them is
/// NUL, and a NUL or the end of the field follows.
pub open spec fn field_length(body: Seq<u8>, start: int, end: int, n: int) -> bool {
    &&& 0 <= n
    &&& start + n <= end <= body.len()
    &&& forall|i: int| start <= i < start + n ==> #[trigger] body[i] != 0
    &&& start + n < end ==> body[start + n] == 0
}

proof fn lemma_field(body: Seq<u8>, start: int, end: int, n: int)
    requires
        0 <= start <= end,
        field_length(body, start, end, n),
    ensures
        bytes::until_nul(body.subrange(start, end)) == body.subrange(start, start + n),
{
    let field = body.subrange(start, end);
    assert forall|i: int| 0 <= i < n implies field[i] != 0 by {
        assert(body[start + i] != 0);
    }
    bytes::lemma_until_unique(field, 0, n);
    assert(field.take(n) =~= body.subrange(start, start + n));
}

/// A message has a target exactly where its first byte is not NUL, on every
/// channel: the text of the first 64 bytes up to the first NUL.
pub proof fn law_messages_keep_their_target(
    body: Seq<u8>,
    include_raw: bool,
    channels: Seq<ChannelNumber>,
    n: int,
)
    requires
        body.len() >= 148,
        field_length(body, 0, 64, n),
    ensures
        ({
            let target = super::channel_message(body, include_raw, channels).target;
            &&& target is Some <==> body[0] != 0
            &&& target is Some ==> target == Some(outside::lossy(body.take(n)))
        }),
{
    lemma_field(body, 0, 64, n);
    assert(body.subrange(0, 64) =~= body.take(64));
    assert(body.subrange(0, n) =~= body.take(n));
    assert(n > 0 ==> body[0] != 0);
}

/// The sender stands in the next 64 bytes, up to the first NUL.
pub proof fn law_messages_keep_their_sender(
    body: Seq<u8>,
    include_raw: bool,
    channels: Seq<ChannelNumber>,
    n: int,
)
    requires
        body.len() >= 148,
        field_length(body, 64, 128, n),
    ensures
        super::channel_message(body, include_raw, channels).sender == outside::lossy(
            body.subrange(64, 64 + n),
        ),
{
    lemma_field(body, 64, 128, n);
}

/// The text stands behind 148 bytes, up to the first NUL. Raw logging keeps the
/// whole packet and the message in hexadecimal, and the message as text; without
/// it nothing raw is kept.
pub proof fn law_messages_keep_their_text(
    body: Seq<u8>,
    include_raw: bool,
    channels: Seq<ChannelNumber>,
    n: int,
)
    requires
        body.len() >= 148,
        field_length(body, 148, body.len() as int, n),
    ensures
        ({
            let event = super::channel_message(body, include_raw, channels);
            let message = body.subrange(148, 148 + n);
            &&& event.opcode == 0x1004
            &&& event.text == outside::lossy(message)
            &&& include_raw ==> event.raw == Some(
                (outside::hex_of(body), outside::lossy(message), outside::hex_of(message)),
            )
            &&& !include_raw ==> event.raw is None
        }),
{
    lemma_field(body, 148, body.len() as int, n);
    assert(body.subrange(148, body.len() as int) =~= body.skip(148));
}

/// The channel number stands at byte 132 in little-endian order, and is kept
/// whether or not the table names it.
pub proof fn law_messages_keep_their_channel(
    body: Seq<u8>,
    include_raw: bool,
    channels: Seq<ChannelNumber>,
)
    requires
        body.len() >= 148,
    ensures
        super::channel_message(body, include_raw, channels).channel == body[132] + 256 * body[133]
            + 65536 * body[134] + 16777216 * body[135],
        super::channel_message(body, include_raw, channels).channel_name == super::numbered(
            channels,
            super::channel_message(body, include_raw, channels).channel,
        ),
{
}

/// A channel is named by the first entry of the table with its number.
pub proof fn law_channels_are_named_by_the_table(
    channels: Seq<ChannelNumber>,
    number: u32,
    i: int,
)
    requires
        0 <= i <= channels.len(),
        i < channels.len() ==> channels[i].number == number,
        forall|j: int| 0 <= j < i ==> (#[trigger] channels[j]).number != number,
    ensures
        super::numbered(channels, number) == (if i < channels.len() {
            channels[i].name
        } else {
            ChannelName::Unknown
        }),
    decreases channels.len(),
{
    if i > 0 {
        let rest = channels.skip(1);
        assert(channels[0].number != number);
        assert forall|j: int| 0 <= j < i - 1 implies (#[trigger] rest[j]).number != number by {
            assert(rest[j] == channels[j + 1]);
        }
        law_channels_are_named_by_the_table(rest, number, i - 1);
    }
}

/// The text of a name is fixed by its bytes.
proof fn lemma_same_text(a: Seq<char>, b: Seq<char>)
    ensures
        text::utf8(a) == text::utf8(b) <==> a == b,
{
    vstd::utf8::encode_utf8_decode_utf8(a);
    vstd::utf8::encode_utf8_decode_utf8(b);
}

/// A channel is found by its own name, guild and auction also by the short name of
/// their commands, and by no other name.
pub proof fn law_channels_are_found_by_name(name: Seq<char>, channel: ChannelName)
    ensures
        ChannelName::named(text::utf8(name)) == Some(channel) <==> (match channel {
            ChannelName::Guild => name == "guild"@ || name == "gu"@,
            ChannelName::Group => name == "group"@,
            ChannelName::Shout => name == "shout"@,
            ChannelName::Auction => name == "auction"@ || name == "auc"@,
            ChannelName::Ooc => name == "ooc"@,
            ChannelName::Broadcast => name == "broadcast"@,
            ChannelName::Tell => name == "tell"@,
            ChannelName::Say => name == "say"@,
            ChannelName::GmSay => name == "gm_say"@,
            ChannelName::Raid => name == "raid"@,
            ChannelName::Emote => name == "emote"@,
            ChannelName::Motd => name == "motd"@,
            ChannelName::System => name == "system"@,
            ChannelName::GuildMotd => name == "guild_motd"@,
            ChannelName::Unknown => name == "unknown"@,
        }),
{
    reveal_strlit("guild");
    assert("guild"@.len() == 5 && "guild"@[0] == 'g' && "guild"@[1] == 'u');
    reveal_strlit("gu");
    assert("gu"@.len() == 2 && "gu"@[0] == 'g' && "gu"@[1] == 'u');
    reveal_strlit("group");
    assert("group"@.len() == 5 && "group"@[0] == 'g' && "group"@[1] == 'r');
    reveal_strlit("shout");
    assert("shout"@.len() == 5 && "shout"@[0] == 's' && "shout"@[1] == 'h');
    reveal_strlit("auction");
    assert("auction"@.len() == 7 && "auction"@[0] == 'a' && "auction"@[1] == 'u');
    reveal_strlit("auc");
    assert("auc"@.len() == 3 && "auc"@[0] == 'a' && "auc"@[1] == 'u');
    reveal_strlit("ooc");
    assert("ooc"@.len() == 3 && "ooc"@[0] == 'o' && "ooc"@[1] == 'o');
    reveal_strlit("broadcast");
    assert("broadcast"@.len() == 9 && "broadcast"@[0] == 'b' && "broadcast"@[1] == 'r');
    reveal_strlit("tell");
    assert("tell"@.len() == 4 && "tell"@[0] == 't' && "tell"@[1] == 'e');
    reveal_strlit("say");
    assert("say"@.len() == 3 && "say"@[0] == 's' && "say"@[1] == 'a');
    reveal_strlit("gm_say");
    assert("gm_say"@.len() == 6 && "gm_say"@[0] == 'g' && "gm_say"@[1] == 'm');
    reveal_strlit("raid");
    assert("raid"@.len() == 4 && "raid"@[0] == 'r' && "raid"@[1] == 'a');
    reveal_strlit("emote");
    assert("emote"@.len() == 5 && "emote"@[0] == 'e' && "emote"@[1] == 'm');
    reveal_strlit("motd");
    assert("motd"@.len() == 4 && "motd"@[0] == 'm' && "motd"@[1] == 'o');
    reveal_strlit("system");
    assert("system"@.len() == 6 && "system"@[0] == 's' && "system"@[1] == 'y');
    reveal_strlit("guild_motd");
    assert("guild_motd"@.len() == 10 && "guild_motd"@[0] == 'g' && "guild_motd"@[1] == 'u');
    reveal_strlit("unknown");
    assert("unknown"@.len() == 7 && "unknown"@[0] == 'u' && "unknown"@[1] == 'n');
    lemma_same_text(name, "guild"@);
    lemma_same_text(name, "gu"@);
    lemma_same_text(name, "group"@);
    lemma_same_text(name, "shout"@);
    lemma_same_text(name, "auction"@);
    lemma_same_text(name, "auc"@);
    lemma_same_text(name, "ooc"@);
    lemma_same_text(name, "broadcast"@);
    lemma_same_text(name, "tell"@);
    lemma_same_text(name, "say"@);
    lemma_same_text(name, "gm_say"@);
    lemma_same_text(name, "raid"@);
    lemma_same_text(name, "emote"@);
    lemma_same_text(name, "motd"@);
    lemma_same_text(name, "system"@);
    lemma_same_text(name, "guild_motd"@);
    lemma_same_text(name, "unknown"@);
}

/// A channel is found again by the name that it is told by.
pub proof fn law_channel_names_read_back(channel: ChannelName)
    ensures
        ChannelName::named(text::utf8(channel.text())) == Some(channel),
{
    law_channels_are_found_by_name(channel.text(), channel);
}

/// Only what the server sent is decoded of a capture.
pub proof fn law_captures_name_the_server(direction: Seq<char>)
    ensures
        super::from_server(direction) <==> direction == "server"@,
{
    lemma_same_text(direction, "server"@);
}

} // verus!

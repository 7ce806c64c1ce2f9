//! Communication records: channels, decoded messages and outbound commands.

use crate::bytes;
use crate::outside::{self, HexError};
use crate::text;
use vstd::prelude::*;
use vstd::string::StringExecFns;

pub mod laws;

verus! {

/// The channel that a message belongs to.
#[derive(Clone, Copy, Debug, PartialEq, Eq, Hash, Structural)]
pub enum ChannelName {
    Guild,
    Group,
    Shout,
    Auction,
    Ooc,
    Broadcast,
    Tell,
    Say,
    GmSay,
    Raid,
    Emote,
    Motd,
    System,
    GuildMotd,
    Unknown,
}

impl ChannelName {
    /// The canonical name of each channel.
    pub open spec fn text(self) -> Seq<char> {
        match self {
            ChannelName::Guild => "guild"@,
            ChannelName::Group => "group"@,
            ChannelName::Shout => "shout"@,
            ChannelName::Auction => "auction"@,
            ChannelName::Ooc => "ooc"@,
            ChannelName::Broadcast => "broadcast"@,
            ChannelName::Tell => "tell"@,
            ChannelName::Say => "say"@,
            ChannelName::GmSay => "gm_say"@,
            ChannelName::Raid => "raid"@,
            ChannelName::Emote => "emote"@,
            ChannelName::Motd => "motd"@,
            ChannelName::System => "system"@,
            ChannelName::GuildMotd => "guild_motd"@,
            ChannelName::Unknown => "unknown"@,
        }
    }

    /// The canonical name of the channel.
    pub fn name(&self) -> (name: &'static str)
        ensures
            name@ == self.text(),
    {
        match self {
            ChannelName::Guild => "guild",
            ChannelName::Group => "group",
            ChannelName::Shout => "shout",
            ChannelName::Auction => "auction",
            ChannelName::Ooc => "ooc",
            ChannelName::Broadcast => "broadcast",
            ChannelName::Tell => "tell",
            ChannelName::Say => "say",
            ChannelName::GmSay => "gm_say",
            ChannelName::Raid => "raid",
            ChannelName::Emote => "emote",
            ChannelName::Motd => "motd",
            ChannelName::System => "system",
            ChannelName::GuildMotd => "guild_motd",
            ChannelName::Unknown => "unknown",
        }
    }

    /// The channel with a canonical name, or with the short name of its chat
    /// command.
    pub open spec fn named(name: Seq<u8>) -> Option<ChannelName> {
        if name == text::utf8("guild"@) {
            Some(ChannelName::Guild)
        } else if name == text::utf8("gu"@) {
            Some(ChannelName::Guild)
        } else if name == text::utf8("group"@) {
            Some(ChannelName::Group)
        } else if name == text::utf8("shout"@) {
            Some(ChannelName::Shout)
        } else if name == text::utf8("auction"@) {
            Some(ChannelName::Auction)
        } else if name == text::utf8("auc"@) {
            Some(ChannelName::Auction)
        } else if name == text::utf8("ooc"@) {
            Some(ChannelName::Ooc)
        } else if name == text::utf8("broadcast"@) {
            Some(ChannelName::Broadcast)
        } else if name == text::utf8("tell"@) {
            Some(ChannelName::Tell)
        } else if name == text::utf8("say"@) {
            Some(ChannelName::Say)
        } else if name == text::utf8("gm_say"@) {
            Some(ChannelName::GmSay)
        } else if name == text::utf8("raid"@) {
            Some(ChannelName::Raid)
        } else if name == text::utf8("emote"@) {
            Some(ChannelName::Emote)
        } else if name == text::utf8("motd"@) {
            Some(ChannelName::Motd)
        } else if name == text::utf8("system"@) {
            Some(ChannelName::System)
        } else if name == text::utf8("guild_motd"@) {
            Some(ChannelName::GuildMotd)
        } else if name == text::utf8("unknown"@) {
            Some(ChannelName::Unknown)
        } else {
            None
        }
    }

    /// Look up a channel by its canonical or short name.
    pub fn from_name(name: &str) -> (channel: Option<ChannelName>)
        ensures
            channel == ChannelName::named(text::utf8(name@)),
    {
        let name = name.as_bytes();
        if bytes::same_bytes(name, "guild".as_bytes()) {
            Some(ChannelName::Guild)
        } else if bytes::same_bytes(name, "gu".as_bytes()) {
            Some(ChannelName::Guild)
        } else if bytes::same_bytes(name, "group".as_bytes()) {
            Some(ChannelName::Group)
        } else if bytes::same_bytes(name, "shout".as_bytes()) {
            Some(ChannelName::Shout)
        } else if bytes::same_bytes(name, "auction".as_bytes()) {
            Some(ChannelName::Auction)
        } else if bytes::same_bytes(name, "auc".as_bytes()) {
            Some(ChannelName::Auction)
        } else if bytes::same_bytes(name, "ooc".as_bytes()) {
            Some(ChannelName::Ooc)
        } else if bytes::same_bytes(name, "broadcast".as_bytes()) {
            Some(ChannelName::Broadcast)
        } else if bytes::same_bytes(name, "tell".as_bytes()) {
            Some(ChannelName::Tell)
        } else if bytes::same_bytes(name, "say".as_bytes()) {
            Some(ChannelName::Say)
        } else if bytes::same_bytes(name, "gm_say".as_bytes()) {
            Some(ChannelName::GmSay)
        } else if bytes::same_bytes(name, "raid".as_bytes()) {
            Some(ChannelName::Raid)
        } else if bytes::same_bytes(name, "emote".as_bytes()) {
            Some(ChannelName::Emote)
        } else if bytes::same_bytes(name, "motd".as_bytes()) {
            Some(ChannelName::Motd)
        } else if bytes::same_bytes(name, "system".as_bytes()) {
            Some(ChannelName::System)
        } else if bytes::same_bytes(name, "guild_motd".as_bytes()) {
            Some(ChannelName::GuildMotd)
        } else if bytes::same_bytes(name, "unknown".as_bytes()) {
            Some(ChannelName::Unknown)
        } else {
            None
        }
    }

}

/// A channel and its number on the wire.
#[derive(Clone, Copy, Debug, PartialEq, Eq, Structural)]
pub struct ChannelNumber {
    pub number: u32,
    pub name: ChannelName,
}

/// The channel with a number on the wire: the first that the table has under it,
/// and otherwise the unknown channel.
pub open spec fn numbered(channels: Seq<ChannelNumber>, number: u32) -> ChannelName
    decreases channels.len(),
{
    if channels.len() == 0 {
        ChannelName::Unknown
    } else if channels[0].number == number {
        channels[0].name
    } else {
        numbered(channels.skip(1), number)
    }
}

/// Look up a channel by its number in the host's table.
pub fn channel_named(channels: &[ChannelNumber], number: u32) -> (name: ChannelName)
    ensures
        name == numbered(channels@, number),
{
    let mut i: usize = 0;
    assert(channels@.skip(0) =~= channels@);
    while i < channels.len()
        invariant
            i <= channels@.len(),
            numbered(channels@, number) == numbered(channels@.skip(i as int), number),
        decreases channels@.len() - i,
    {
        assert(channels@.skip(i as int).skip(1) =~= channels@.skip(i + 1));
        if channels[i].number == number {
            return channels[i].name;
        }
        i = i + 1;
    }
    ChannelName::Unknown
}

/// A decoded communication.
#[derive(Clone, Debug)]
pub struct ChatEvent {
    pub opcode: u16,
    pub channel: u32,
    pub channel_name: ChannelName,
    pub sender: String,
    /// Whom the message was for, where it names someone.
    pub target: Option<String>,
    pub text: String,
    /// The packet and the message as they came, where raw logging is on.
    pub raw: Option<RawMessage>,
}

/// A packet and its message as they came.
#[derive(Clone, Debug)]
pub struct RawMessage {
    pub payload_hex: String,
    pub message: String,
    pub message_hex: String,
}

/// The meaning of a `ChatEvent`.
#[verifier::ext_equal]
pub struct ChatState {
    pub opcode: u16,
    pub channel: u32,
    pub channel_name: ChannelName,
    pub sender: Seq<char>,
    pub target: Option<Seq<char>>,
    pub text: Seq<char>,
    pub raw: Option<(Seq<char>, Seq<char>, Seq<char>)>,
}

impl View for ChatEvent {
    type V = ChatState;

    open spec fn view(&self) -> ChatState {
        ChatState {
            opcode: self.opcode,
            channel: self.channel,
            channel_name: self.channel_name,
            sender: self.sender@,
            target: match self.target {
                Some(name) => Some(name@),
                None => None,
            },
            text: self.text@,
            raw: match self.raw {
                Some(raw) => Some((raw.payload_hex@, raw.message@, raw.message_hex@)),
                None => None,
            },
        }
    }
}

/// Why a recognized communication cannot be decoded.
#[derive(Clone, Copy, Debug, PartialEq, Eq, Structural)]
pub enum ChatError {
    Truncated,
}

impl ChatError {
    /// Describe the error to a user.
    pub fn message(&self) -> (text: &'static str)
        ensures
            text@ == "truncated channel message"@,
    {
        match self {
            ChatError::Truncated => "truncated channel message",
        }
    }
}

/// The opcode of a channel message.
pub const CHANNEL_MESSAGE: u16 = 0x1004;

/// A channel message: target and sender in 64 bytes each, the channel number,
/// and the NUL-terminated text behind a header of 148 bytes.
pub open spec fn channel_message(
    body: Seq<u8>,
    include_raw: bool,
    channels: Seq<ChannelNumber>,
) -> ChatState {
    let target = bytes::until_nul(body.take(64));
    let message = bytes::until_nul(body.skip(148));
    ChatState {
        opcode: CHANNEL_MESSAGE,
        channel: bytes::le32_at(body, 132),
        channel_name: numbered(channels, bytes::le32_at(body, 132)),
        sender: outside::lossy(bytes::until_nul(body.subrange(64, 128))),
        target: if target.len() == 0 {
            None
        } else {
            Some(outside::lossy(target))
        },
        text: outside::lossy(message),
        raw: if include_raw {
            Some((outside::hex_of(body), outside::lossy(message), outside::hex_of(message)))
        } else {
            None
        },
    }
}

/// Whether names and text of a channel message that are UTF-8 came out as they
/// are.
pub open spec fn message_kept(body: Seq<u8>, event: ChatState) -> bool {
    &&& text::keeps(bytes::until_nul(body.subrange(64, 128)), event.sender)
    &&& event.target matches Some(target) ==> text::keeps(bytes::until_nul(body.take(64)), target)
    &&& text::keeps(bytes::until_nul(body.skip(148)), event.text)
}

/// Decode a communication, with the numbers of the channels. Packets that are
/// none give nothing. Names and text that are UTF-8 come out as they are.
pub fn parse(opcode: u16, body: &[u8], include_raw: bool, channels: &[ChannelNumber]) -> (r: Result<
    Option<ChatEvent>,
    ChatError,
>)
    ensures
        match r {
            Ok(None) => opcode != CHANNEL_MESSAGE,
            Ok(Some(event)) => {
                &&& opcode == CHANNEL_MESSAGE
                &&& body@.len() >= 148
                &&& event@ == channel_message(body@, include_raw, channels@)
                &&& message_kept(body@, event@)
            },
            Err(_) => opcode == CHANNEL_MESSAGE && body@.len() < 148,
        },
{
    if opcode != CHANNEL_MESSAGE {
        return Ok(None);
    }
    if body.len() < 148 {
        return Err(ChatError::Truncated);
    }
    let channel = bytes::read_le32(body, 132);
    let target = bytes::cstr(&body[0..64]);
    let message = bytes::cstr(&body[148..body.len()]);
    proof {
        assert(body@.subrange(0, 64) =~= body@.take(64));
        assert(body@.subrange(148, body@.len() as int) =~= body@.skip(148));
    }
    let raw = if include_raw {
        Some(
            RawMessage {
                payload_hex: outside::hex(body),
                message: outside::text_lossy(message),
                message_hex: outside::hex(message),
            },
        )
    } else {
        None
    };
    let target = if target.len() == 0 {
        None
    } else {
        Some(outside::text_lossy(target))
    };
    Ok(
        Some(
            ChatEvent {
                opcode,
                channel,
                channel_name: channel_named(channels, channel),
                sender: outside::text_lossy(bytes::cstr(&body[64..128])),
                target,
                text: outside::text_lossy(message),
                raw,
            },
        ),
    )
}

/// Why a captured packet cannot be decoded.
#[derive(Debug)]
pub enum CaptureError {
    /// Its payload is no hexadecimal string.
    Payload(HexError),
    /// It is a communication that is malformed.
    Chat(ChatError),
}

impl CaptureError {
    /// The wording of each error.
    pub open spec fn text(self) -> Seq<char> {
        match self {
            CaptureError::Payload(HexError::OddLength) => "Odd number of digits"@,
            CaptureError::Payload(HexError::Character(c, index)) => "Invalid character "@
                + outside::char_quoted_of(c) + " at position "@ + text::decimal(index as nat),
            CaptureError::Payload(HexError::Length) => "Invalid string length"@,
            CaptureError::Chat(_) => "truncated channel message"@,
        }
    }

    /// Describe the error to a user.
    pub fn message(&self) -> (text: String)
        ensures
            text@ == self.text(),
    {
        match self {
            CaptureError::Payload(HexError::OddLength) => "Odd number of digits".to_owned(),
            CaptureError::Payload(HexError::Character(c, index)) => {
                let mut message = "Invalid character ".to_owned();
                message.append(outside::char_quoted(*c).as_str());
                message.append(" at position ");
                text::push_decimal(&mut message, *index as u64);
                message
            },
            CaptureError::Payload(HexError::Length) => "Invalid string length".to_owned(),
            CaptureError::Chat(e) => e.message().to_owned(),
        }
    }
}

/// Whether a captured packet came from the server.
pub open spec fn from_server(direction: Seq<char>) -> bool {
    text::utf8(direction) == text::utf8("server"@)
}

/// Decode a captured packet, with its payload in hexadecimal and kept in the
/// event. What the client has sent, and what is no communication, gives nothing.
pub fn captured(direction: &str, opcode: u16, payload_hex: &str, channels: &[ChannelNumber]) -> (r:
    Result<Option<ChatEvent>, CaptureError>)
    ensures
        ({
            let server = from_server(direction@);
            let data = outside::unhexed(text::utf8(payload_hex@));
            match r {
                Ok(None) => !server || (data is Ok && opcode != CHANNEL_MESSAGE),
                Ok(Some(event)) => {
                    &&& server
                    &&& data is Ok
                    &&& opcode == CHANNEL_MESSAGE
                    &&& data->Ok_0.len() >= 148
                    &&& event@ == channel_message(data->Ok_0, true, channels@)
                    &&& message_kept(data->Ok_0, event@)
                },
                Err(CaptureError::Payload(e)) => server && data == Err::<Seq<u8>, _>(e),
                Err(CaptureError::Chat(_)) => server && data is Ok && opcode == CHANNEL_MESSAGE
                    && data->Ok_0.len() < 148,
            }
        }),
{
    if !bytes::same_bytes(direction.as_bytes(), "server".as_bytes()) {
        return Ok(None);
    }
    let body = match outside::unhex(payload_hex) {
        Ok(body) => body,
        Err(e) => {
            return Err(CaptureError::Payload(e));
        },
    };
    match parse(opcode, &body, true, channels) {
        Ok(event) => Ok(event),
        Err(e) => Err(CaptureError::Chat(e)),
    }
}

proof fn lemma_no_digit(text: Seq<u8>, from: nat)
    requires
        forall|i: int| from <= i < text.len() ==> outside::digit_value(#[trigger] text[i]) is Some,
    ensures
        outside::no_digit(text, from) is None,
    decreases text.len() - from,
{
    if from < text.len() {
        lemma_no_digit(text, from + 1);
    }
}

/// The payload of a raw record or a decode error reads back as the bytes of the
/// packet.
pub proof fn law_recorded_payload_reads_back(body: Seq<u8>)
    ensures
        outside::unhexed(text::utf8(outside::hex_of(body))) == Ok::<_, HexError>(body),
{
    let chars = outside::hex_of(body);
    assert forall|i: int| 0 <= i < chars.len() implies (#[trigger] chars[i] as nat) < 128 by {}
    assert(vstd::utf8::is_ascii_chars(chars));
    vstd::utf8::is_ascii_chars_encode_utf8(chars);
    let data = text::utf8(chars);
    assert forall|i: int| 0 <= i < data.len() implies outside::digit_value(#[trigger] data[i]) == Some(
        (if i % 2 == 0 {
            body[i / 2] / 16
        } else {
            body[i / 2] % 16
        }) as u8,
    ) by {
        assert(data[i] == chars[i] as u8);
    }
    lemma_no_digit(data, 0);
    assert(data.len() / 2 == body.len());
    assert(outside::unhexed(data)->Ok_0 =~= body);
}

/// A message that the host asks to be sent.
#[derive(Clone, Debug, PartialEq, Eq)]
pub enum OutboundChat {
    Say(String),
}

} // verus!

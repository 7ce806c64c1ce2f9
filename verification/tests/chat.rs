//! Channel messages and channel names.

use p99_logger_client::chat::{
    captured, channel_named, parse, CaptureError, ChannelName, ChannelNumber, ChatError,
};
use p99_logger_client::outside::HexError;

const CHANNELS: [ChannelNumber; 3] = [
    ChannelNumber {
        number: 4,
        name: ChannelName::Auction,
    },
    ChannelNumber {
        number: 5,
        name: ChannelName::Ooc,
    },
    ChannelNumber {
        number: 4,
        name: ChannelName::Guild,
    },
];

fn message(channel: u32, text: &[u8]) -> Vec<u8> {
    let mut body = vec![0; 148];
    body[..6].copy_from_slice(b"Target");
    body[64..70].copy_from_slice(b"Sender");
    body[132..136].copy_from_slice(&channel.to_le_bytes());
    body.extend_from_slice(text);
    body.push(0);
    body
}

#[test]
fn channel_messages_are_decoded() {
    let event = parse(0x1004, &message(4, b"WTS \xff"), false, &CHANNELS)
        .unwrap()
        .unwrap();
    assert_eq!(event.opcode, 0x1004);
    assert_eq!(event.channel, 4);
    assert_eq!(event.channel_name, ChannelName::Auction);
    assert_eq!(event.sender, "Sender");
    assert_eq!(event.target.as_deref(), Some("Target"));
    assert_eq!(event.text, "WTS \u{fffd}");
    assert!(event.raw.is_none());
}

#[test]
fn channels_are_named_by_the_table_of_the_host() {
    assert_eq!(channel_named(&CHANNELS, 4), ChannelName::Auction);
    assert_eq!(channel_named(&CHANNELS, 5), ChannelName::Ooc);
    assert_eq!(channel_named(&CHANNELS, 6), ChannelName::Unknown);
    assert_eq!(channel_named(&[], 4), ChannelName::Unknown);
    let event = parse(0x1004, &message(5, "caf\u{e9}".as_bytes()), false, &CHANNELS)
        .unwrap()
        .unwrap();
    assert_eq!(event.channel_name, ChannelName::Ooc);
    assert_eq!(event.text, "caf\u{e9}");
}

#[test]
fn raw_bytes_are_kept_on_request() {
    let body = message(999, b"hi");
    let event = parse(0x1004, &body, true, &CHANNELS).unwrap().unwrap();
    assert_eq!(event.channel_name, ChannelName::Unknown);
    let raw = event.raw.unwrap();
    assert_eq!(raw.payload_hex, hex::encode(&body));
    assert_eq!(raw.message, "hi");
    assert_eq!(raw.message_hex, "6869");
}

#[test]
fn other_packets_are_no_communications_and_short_ones_are_malformed() {
    assert!(parse(0x1005, &[], false, &CHANNELS).unwrap().is_none());
    let error = parse(0x1004, &[0; 147], false, &CHANNELS).unwrap_err();
    assert_eq!(error, ChatError::Truncated);
    assert_eq!(error.message(), "truncated channel message");
}

#[test]
fn channel_names_and_their_aliases_are_read() {
    for name in [
        "guild",
        "group",
        "shout",
        "auction",
        "ooc",
        "broadcast",
        "tell",
        "say",
        "gm_say",
        "raid",
        "emote",
        "motd",
        "system",
        "guild_motd",
        "unknown",
    ] {
        assert_eq!(ChannelName::from_name(name).unwrap().name(), name);
    }
    assert_eq!(ChannelName::from_name("auc"), Some(ChannelName::Auction));
    assert_eq!(ChannelName::from_name("gu"), Some(ChannelName::Guild));
    assert_eq!(ChannelName::from_name("nonsense"), None);
}

#[test]
fn captured_packets_are_decoded_from_hexadecimal() {
    let body = message(5, b"hello");
    let payload = hex::encode(&body);
    let event = captured("server", 0x1004, &payload, &CHANNELS)
        .unwrap()
        .unwrap();
    assert_eq!(event.text, "hello");
    assert_eq!(event.channel_name, ChannelName::Ooc);
    assert_eq!(event.raw.unwrap().payload_hex, payload);
    let capitals = payload.to_uppercase();
    let event = captured("server", 0x1004, &capitals, &CHANNELS).unwrap();
    assert_eq!(event.unwrap().sender, "Sender");
    assert!(captured("client", 0x1004, "no digits", &CHANNELS)
        .unwrap()
        .is_none());
    assert!(captured("server", 0x1005, "00", &CHANNELS)
        .unwrap()
        .is_none());
}

#[test]
fn captured_packets_that_cannot_be_decoded_say_why() {
    let error = captured("server", 0x1005, "abc", &CHANNELS).unwrap_err();
    assert!(matches!(error, CaptureError::Payload(HexError::OddLength)));
    assert_eq!(error.message(), "Odd number of digits");
    let error = captured("server", 0x1005, "0a0gzz", &CHANNELS).unwrap_err();
    assert!(matches!(
        error,
        CaptureError::Payload(HexError::Character('g', 3))
    ));
    assert_eq!(error.message(), "Invalid character 'g' at position 3");
    let error = captured("server", 0x1004, "00ff", &CHANNELS).unwrap_err();
    assert!(matches!(error, CaptureError::Chat(ChatError::Truncated)));
    assert_eq!(error.message(), "truncated channel message");
}

//! The Titanium/P99-V62 sequences, with the server's part played here.

use p99_logger_client::assets::{AssetFile, Assets, FileChecksum};
use p99_logger_client::bytes::cstr;
use p99_logger_client::client::session::{
    crc1, decode_chat, file_response, login_ciphertext, login_credentials, with_opcode, ChatOutcome,
    Credentials, Login, LoginAid, ServerEntry, World, WorldContext, WorldDone, Zone, ZoneContext,
};
use p99_logger_client::client::step::{
    Action, Actions, Events, Notice, Outcome, Refusal, SessionError, Stamp,
};
use p99_logger_client::client::{
    ClientConfig, ClientEvent, ClientIdentity, ConnectionStage, ConnectionState, LoginError,
    RecordEvent,
};
use p99_logger_client::p99::{self, CodecError};
use p99_logger_client::transport::Application;

const SECOND: u64 = 1_000_000_000;

const NOW: u64 = 1_000 * SECOND;

const KEY: [u8; 10] = *b"EXAMPLEKEY";

fn config() -> ClientConfig {
    ClientConfig::new(
        "EXAMPLE_ACCOUNT",
        "EXAMPLE_PASSWORD",
        "Test Server",
        "ExampleCharacter",
    )
}

fn identity() -> ClientIdentity {
    ClientIdentity {
        hostname: "TEST-DEVICE".into(),
        username: "test-user".into(),
    }
}

/// An inventory with these files.
fn inventory(files: &[(&str, Option<FileChecksum>)]) -> Assets {
    Assets {
        client: "test".into(),
        files: files
            .iter()
            .map(|(name, checksum)| AssetFile {
                name: (*name).into(),
                checksum: *checksum,
            })
            .collect(),
    }
}

fn spells() -> Assets {
    inventory(&[(
        "spells_us.txt",
        Some(FileChecksum {
            crc32: 1234,
            size: 5678,
        }),
    )])
}

fn packet(opcode: u16, body: &[u8]) -> Application {
    Application {
        opcode,
        body: body.to_vec(),
    }
}

fn sent(actions: &Actions) -> Vec<(u16, Vec<u8>)> {
    actions
        .list
        .iter()
        .filter_map(|action| match action {
            Action::Send { opcode, body } => Some((*opcode, body.clone())),
            _ => None,
        })
        .collect()
}

fn stages(actions: &Actions) -> Vec<ConnectionStage> {
    actions
        .list
        .iter()
        .filter_map(|action| match action {
            Action::Notify(Notice::Progress(stage)) => Some(*stage),
            _ => None,
        })
        .collect()
}

fn refusal(error: SessionError) -> Refusal {
    match error {
        SessionError::Refused(refusal) => refusal,
        _ => panic!("unexpected kind of error"),
    }
}

#[test]
fn unknown_asset_warning_reaches_the_host_without_aborting_the_response() {
    let assets = inventory(&[("absent.eqg", None)]);
    let config = config();
    let mut events = Events::new();
    let mut actions = Actions::new();
    let manifest = b"\x11\x00\x01unknown.eqg\0\x12\x00\x01absent.eqg\0";
    let response = file_response(&assets, manifest, &mut actions).unwrap();
    let mut received = Vec::new();
    for action in actions.list {
        let Action::Notify(notice) = action else {
            panic!("unexpected action");
        };
        received.extend(events.notify(
            &config,
            notice,
            Stamp {
                seconds: 0,
                rfc3339: String::new(),
            },
        ));
    }
    let mut expected = crc32fast::hash(manifest).to_le_bytes().to_vec();
    expected.extend(b"\x11\x00\x00\x00\x00\x00\x12\x00\x00\x00\x00\x00");
    assert_eq!(response, expected);
    assert_eq!(received.len(), 1);
    let ClientEvent::Diagnostic(message) = &received[0] else {
        panic!("expected diagnostic event");
    };
    assert!(message.contains("unknown.eqg") && message.contains("checksum 0"));
    assert!(!message.contains("absent.eqg"));
}

#[test]
fn validation_uses_host_metadata_and_the_current_session_key() {
    let assets = spells();
    let identity = identity();
    let ip = Some([192, 0, 2, 10]);
    let first = crc1(&assets, ip, &identity, b"0123456789").unwrap();
    let mut second = crc1(&assets, ip, &identity, b"abcdefghij").unwrap();
    assert_ne!(first, second);
    p99::session_xor(&mut second[..2048], b"abcdefghij").unwrap();
    assert_eq!(second.len(), 2056);
    assert_eq!(&second[..4], &(!1234u32).to_le_bytes());
    assert_eq!(&second[4..8], &5678u32.to_le_bytes());
    assert_eq!(cstr(&second[50..66]), b"TEST-DEVICE");
    assert_eq!(cstr(&second[66..82]), b"test-user");
    assert_eq!(&second[82..90], &[127, 0, 0, 1, 192, 0, 2, 10]);
}

#[test]
fn validation_names_no_loopback_address() {
    for ip in [None, Some([127, 0, 0, 5])] {
        let mut body = crc1(&spells(), ip, &identity(), &KEY).unwrap();
        p99::session_xor(&mut body[..2048], &KEY).unwrap();
        assert_eq!(&body[82..90], &[127, 0, 0, 1, 0, 0, 0, 0]);
        assert_eq!(&body[8..12], &[0xff; 4]);
        assert_eq!(&body[45..47], &[1, 27]);
    }
}

#[test]
fn validation_needs_a_spell_file_that_fits() {
    let large = inventory(&[(
        "spells_us.txt",
        Some(FileChecksum {
            crc32: 0,
            size: 1 << 32,
        }),
    )]);
    assert_eq!(
        refusal(crc1(&large, None, &identity(), &KEY).unwrap_err()),
        Refusal::SpellSize
    );
    assert_eq!(
        crc1(&inventory(&[]), None, &identity(), &KEY)
            .unwrap_err()
            .message(),
        "spells_us.txt missing from asset inventory"
    );
    let mut long = identity();
    long.username = "x".repeat(16);
    assert_eq!(
        refusal(crc1(&spells(), None, &long, &KEY).unwrap_err()),
        Refusal::FieldSize
    );
    assert!(matches!(
        crc1(&spells(), None, &identity(), &[]),
        Err(SessionError::Codec(CodecError::SessionKey))
    ));
}

/// A deciphered login response.
fn clear() -> Vec<u8> {
    let mut clear = vec![0; 32];
    clear[0] = 1;
    clear[8..12].copy_from_slice(&12345u32.to_le_bytes());
    clear[12..22].copy_from_slice(b"EXAMPLEKEY");
    clear
}

#[test]
fn valid_session_keys_and_malformed_responses_are_not_bad_passwords() {
    let mut body = vec![0; 10];
    body[0] = 3;
    body[5] = 2;
    body.extend([0x5c; 32]);
    assert_eq!(login_ciphertext(&body).unwrap(), [0x5c; 32]);
    let credentials = login_credentials(&body, false, &Some(clear())).unwrap();
    assert_eq!(credentials.account, 12345);
    assert_eq!(&credentials.key, b"EXAMPLEKEY");
    for length in [0, 10, 18, 26] {
        assert!(login_ciphertext(&body[..length]).is_none());
        let error = login_credentials(&body[..length], false, &None)
            .err()
            .unwrap();
        assert!(!matches!(error, SessionError::Login(_)));
    }
}

#[test]
fn login_responses_are_refused_for_what_is_wrong_with_them() {
    let body = [0; 42];
    let change = |change: fn(&mut Vec<u8>)| {
        let mut data = clear();
        change(&mut data);
        refusal(login_credentials(&body, false, &Some(data)).unwrap_err())
    };
    assert_eq!(change(|d| d.truncate(22)), Refusal::LoginResponse);
    assert_eq!(change(|d| d[0] = 0), Refusal::LoginRejected);
    assert_eq!(change(|d| d[8..12].fill(0)), Refusal::LoginRejected);
    assert_eq!(change(|d| d[8..12].fill(255)), Refusal::LoginRejected);
    assert_eq!(change(|d| d[21] = 0), Refusal::SessionKey);
    assert_eq!(change(|d| d[22] = b'!'), Refusal::SessionKey);
    assert_eq!(
        refusal(login_credentials(&body, false, &None).unwrap_err()),
        Refusal::LoginCipher
    );
    assert!(matches!(
        login_credentials(&[], true, &None),
        Err(SessionError::Login(LoginError::InvalidCredentials))
    ));
    // Whole blocks only, and the opcode in front for the other parsers.
    assert_eq!(login_ciphertext(&[1; 41]).unwrap().len(), 24);
    assert_eq!(with_opcode(0x17, &[5]), [0x17, 0, 5]);
}

fn aid() -> LoginAid {
    LoginAid {
        bad_password: false,
        clear: Some(clear()),
        servers: Some(vec![
            ServerEntry {
                name: "Other".into(),
                status: 0,
                runtime_id: 1,
                ip: "192.0.2.1".into(),
            },
            ServerEntry {
                name: "TEST server".into(),
                status: 2,
                runtime_id: 0x0403_0201,
                ip: "192.0.2.2".into(),
            },
        ]),
        encrypted: vec![0xee; 16],
    }
}

#[test]
fn login_goes_from_credentials_to_a_selected_server() {
    let config = config();
    let (mut login, actions) = Login::start(NOW);
    assert_eq!(
        sent(&actions),
        [(1, vec![2, 0, 0, 0, 0, 0, 0, 0, 0, 8, 0, 0])]
    );
    assert_eq!(login.deadline, NOW + 45 * SECOND);

    let (actions, _) = login.receive(&config, &packet(0x16, &[]), aid());
    let mut credentials = vec![3, 0, 0, 0, 0, 2, 0, 0, 0, 0];
    credentials.extend([0xee; 16]);
    assert_eq!(sent(&actions), [(2, credentials)]);
    let (actions, _) = login.receive(&config, &packet(0x16, &[]), aid());
    assert!(actions.list.is_empty());

    let (actions, _) = login.receive(&config, &packet(0x17, &[0; 42]), aid());
    assert_eq!(stages(&actions), [ConnectionStage::SelectingServer]);
    assert_eq!(sent(&actions), [(4, vec![4, 0, 0, 0, 0, 0, 0, 0, 0, 0])]);

    let (actions, _) = login.receive(&config, &packet(0x18, &[0; 20]), aid());
    assert_eq!(
        sent(&actions),
        [(0x0d, vec![5, 0, 0, 0, 0, 0, 0, 0, 0, 0, 1, 2, 3, 4])]
    );

    let mut play = [0; 20];
    play[10] = 1;
    let (actions, outcome) = login.receive(&config, &packet(0x21, &play), aid());
    assert!(matches!(actions.list[0], Action::Close));
    assert_eq!(stages(&actions), [ConnectionStage::ConnectingWorld]);
    let Outcome::Done(done) = outcome else {
        panic!("the login is not finished");
    };
    assert_eq!(done.ip, "192.0.2.2");
    assert_eq!(done.credentials.account, 12345);
}

#[test]
fn logins_are_refused_for_what_is_wrong_with_them() {
    let mut play = [0; 20];
    play[10] = 1;
    let mut other = config();
    other.server = "Absent".into();
    let mut locked = aid();
    locked.servers.as_mut().unwrap()[1].status = 1;
    let mut unparsed = aid();
    unparsed.servers = None;
    for (config, packet, aid, expected) in [
        (
            config(),
            packet(0x18, &[0; 19]),
            aid(),
            Refusal::ServerListTruncated,
        ),
        (
            config(),
            packet(0x18, &[0; 20]),
            unparsed,
            Refusal::ServerListInvalid,
        ),
        (
            other,
            packet(0x18, &[0; 20]),
            aid(),
            Refusal::ServerAbsent,
        ),
        (
            config(),
            packet(0x18, &[0; 20]),
            locked,
            Refusal::ServerLocked,
        ),
        (
            config(),
            packet(0x21, &[0; 20]),
            aid(),
            Refusal::WorldDenied,
        ),
        (
            config(),
            packet(0x21, &play),
            aid(),
            Refusal::PlayBeforeLogin,
        ),
    ] {
        let (mut login, _) = Login::start(NOW);
        let (_, outcome) = login.receive(&config, &packet, aid);
        let Outcome::Fail(error) = outcome else {
            panic!("the login goes on");
        };
        assert_eq!(refusal(error), expected);
    }
    let (mut login, _) = Login::start(NOW);
    login.receive(&config(), &packet(0x17, &[0; 42]), aid());
    let (_, outcome) = login.receive(&config(), &packet(0x21, &play), aid());
    let Outcome::Fail(error) = outcome else {
        panic!("the login goes on");
    };
    assert_eq!(refusal(error), Refusal::PlayBeforeSelection);
}

/// A challenge with a modulus of nine bytes and an exponent of one.
fn challenge() -> Vec<u8> {
    let mut data = vec![0; 544];
    data[16] = 1;
    data[268..272].copy_from_slice(&3u32.to_le_bytes());
    data[280] = 1;
    data[540..544].copy_from_slice(&1u32.to_le_bytes());
    data
}

/// The seed that both sides derive from an approval.
fn manifest_seed(answer: &[u8]) -> [u8; 16] {
    let mut body = answer.to_vec();
    body[..8].fill(0xff);
    body[8] = 1;
    p99::packet_digest(0x52a4, &body).unwrap()
}

const MANIFEST: &[u8] = b"\x11\x00\x01spells_us.txt\0";

#[test]
fn the_world_validates_selects_and_hands_off() {
    let config = config();
    let identity = identity();
    let assets = spells();
    let credentials = Credentials {
        account: 12345,
        key: KEY,
    };
    let context = WorldContext {
        config: &config,
        identity: &identity,
        assets: &assets,
        credentials: &credentials,
        world_only: false,
        local_ip: Some([192, 0, 2, 10]),
    };
    let (mut world, actions) = World::start(&credentials, NOW).unwrap();
    let start = sent(&actions);
    assert_eq!(start[0].0, 0x4dd0);
    let login_info = &start[0].1;
    assert_eq!(login_info.len(), 464);
    assert_eq!(&login_info[..16], b"12345\0EXAMPLEKEY");
    assert_eq!(login_info[192], 0xcc);
    let key = md5::compute(login_info).0;

    let (actions, _) = world.receive(
        &context,
        &packet(0x3c25, &challenge()),
        ChatOutcome::Nothing,
    );
    let answer = sent(&actions).remove(0);
    assert_eq!(answer.0, 0x3c25);
    assert_eq!(answer.1.len(), 272);

    let mut manifest = MANIFEST.to_vec();
    p99::encode(&mut manifest, &key, &manifest_seed(&answer.1));
    let (actions, _) = world.receive(
        &context,
        &packet(0x52a4, &manifest),
        ChatOutcome::Nothing,
    );
    let answers = sent(&actions);
    assert_eq!(
        answers[0],
        (
            0x5072,
            crc1(&assets, Some([192, 0, 2, 10]), &identity, &KEY).unwrap()
        )
    );
    let mut response = answers[1].1.clone();
    p99::decode(
        &mut response,
        &key,
        &p99::packet_digest(0x1251, MANIFEST).unwrap(),
    );
    assert_eq!(answers[1].0, 0x1251);
    assert_eq!(response, assets.file_response(MANIFEST).unwrap());

    // Characters are not selected before validation.
    let list = b"....examplecharacter\0....";
    let (actions, _) = world.receive(&context, &packet(0x4513, list), ChatOutcome::Nothing);
    assert!(sent(&actions).is_empty());
    let (actions, _) = world.receive(&context, &packet(0x1251, &[0]), ChatOutcome::Nothing);
    assert_eq!(sent(&actions), [(0x7752, vec![0; 4]), (0x5e99, vec![])]);
    let (actions, _) = world.receive(&context, &packet(0x4513, list), ChatOutcome::Nothing);
    let mut enter = b"ExampleCharacter".to_vec();
    enter.resize(72, 0);
    assert_eq!(sent(&actions), [(0x7cba, enter)]);

    let mut handoff = vec![0; 130];
    handoff[..9].copy_from_slice(b"192.0.2.7");
    handoff[128..].copy_from_slice(&7000u16.to_le_bytes());
    let mut seeded = handoff.clone();
    seeded.resize(130 + MANIFEST.len(), 0);
    let seed = p99::packet_digest(0x61b6, &seeded).unwrap();
    let mut body = MANIFEST.to_vec();
    p99::encode(&mut body, &key, &seed);
    handoff.extend(body);
    let (actions, outcome) =
        world.receive(&context, &packet(0x61b6, &handoff), ChatOutcome::Nothing);
    assert_eq!(sent(&actions), [(0x509d, vec![])]);
    assert!(matches!(actions.list.last(), Some(Action::Close)));
    let Outcome::Done(WorldDone::Zone {
        host,
        port,
        checksums,
    }) = outcome
    else {
        panic!("no zone");
    };
    assert_eq!((host.as_str(), port), ("192.0.2.7", 7000));
    assert_eq!(checksums, assets.file_response(MANIFEST).unwrap());
}

#[test]
fn world_sessions_are_refused_for_what_is_wrong_with_them() {
    let config = config();
    let identity = identity();
    let assets = spells();
    let credentials = Credentials {
        account: 12345,
        key: KEY,
    };
    let context = WorldContext {
        config: &config,
        identity: &identity,
        assets: &assets,
        credentials: &credentials,
        world_only: true,
        local_ip: None,
    };
    let fail = |opcode: u16, body: &[u8], chat: ChatOutcome| {
        let (mut world, _) = World::start(&credentials, NOW).unwrap();
        let (_, outcome) = world.receive_with(1, &context, &packet(opcode, body), chat);
        match outcome {
            Outcome::Fail(error) => error.message(),
            _ => panic!("the world goes on"),
        }
    };
    assert_eq!(
        fail(0x1251, &[1, 0xab], ChatOutcome::Nothing),
        "world client validation returned 01ab"
    );
    assert_eq!(
        fail(0x52a4, MANIFEST, ChatOutcome::Nothing),
        "manifest arrived before approval"
    );
    assert_eq!(
        fail(0x61b6, &[0; 200], ChatOutcome::Nothing),
        "invalid zone handoff"
    );
    assert_eq!(
        fail(0x3c25, &[], ChatOutcome::Nothing),
        "unexpected world approval challenge size"
    );

    let (mut world, _) = World::start(&credentials, NOW).unwrap();
    let (actions, outcome) =
        world.receive(&context, &packet(0x1251, &[0]), ChatOutcome::Nothing);
    assert!(matches!(outcome, Outcome::Done(WorldDone::Validated)));
    assert!(matches!(actions.list.last(), Some(Action::Close)));
    let (mut world, _) = World::start(&credentials, NOW).unwrap();
    world.accepted = true;
    let (_, outcome) = world.receive(
        &context,
        &packet(0x4513, b"ExampleCharacters\0"),
        ChatOutcome::Nothing,
    );
    let Outcome::Fail(error) = outcome else {
        panic!("the world goes on");
    };
    assert_eq!(refusal(error), Refusal::CharacterAbsent);
}

#[test]
fn malformed_messages_in_the_world_are_recorded_and_the_sequence_goes_on() {
    let config = config();
    let identity = identity();
    let assets = spells();
    let credentials = Credentials {
        account: 12345,
        key: KEY,
    };
    let context = WorldContext {
        config: &config,
        identity: &identity,
        assets: &assets,
        credentials: &credentials,
        world_only: false,
        local_ip: None,
    };
    let (mut world, _) = World::start(&credentials, NOW).unwrap();
    let body = [0xab, 0xcd];
    let (actions, outcome) = world.receive(
        &context,
        &packet(0x1004, &body),
        decode_chat(0x1004, &body, false, &[]),
    );
    assert!(matches!(outcome, Outcome::Continue));
    assert_eq!(actions.list.len(), 2);
    let Action::Notify(Notice::Record { zone, event }) = &actions.list[0] else {
        panic!("no record");
    };
    assert_eq!(zone, "");
    let RecordEvent::DecodeError(error) = event else {
        panic!("no decode error");
    };
    assert_eq!(error.opcode, 0x1004);
    assert_eq!(error.payload_hex, "abcd");
    assert_eq!(error.error, "truncated channel message");
}

/// A player profile with a saved position.
fn profile() -> Vec<u8> {
    let mut body = vec![0; 19592];
    body[13116..13120].copy_from_slice(&10.5f32.to_le_bytes());
    body[13120..13124].copy_from_slice(&(-20.25f32).to_le_bytes());
    body[13124..13128].copy_from_slice(&3.0f32.to_le_bytes());
    body[13128..13132].copy_from_slice(&128.0f32.to_le_bytes());
    body
}

/// A player spawn of the configured character.
fn spawn(id: u32) -> Vec<u8> {
    let mut body = vec![0; 385];
    body[7..23].copy_from_slice(b"ExampleCharacter");
    body[340..344].copy_from_slice(&id.to_le_bytes());
    body
}

/// A spawn as it comes over the wire.
fn mixed_spawn(id: u32) -> Vec<u8> {
    let mut body = spawn(id);
    p99::session_xor(&mut body, &KEY).unwrap();
    body
}

fn zone(config: &ClientConfig) -> (Zone, Vec<(u16, Vec<u8>)>) {
    let credentials = Credentials {
        account: 12345,
        key: KEY,
    };
    let (world, _) = World::start(&credentials, NOW).unwrap();
    let (actions, zone) = Zone::start(world.codec, config, vec![9, 8, 7, 6], NOW);
    (zone.unwrap(), sent(&actions))
}

#[test]
fn a_zone_is_entered_once_and_the_character_stays_put() {
    let config = config();
    let credentials = Credentials {
        account: 12345,
        key: KEY,
    };
    let context = ZoneContext {
        config: &config,
        credentials: &credentials,
        filters: &[0xf1, 0xf2],
        last_received_seconds: 0,
    };
    let (mut zone, entry) = zone(&config);
    assert_eq!(entry[0], (0x7752, vec![0; 4]));
    assert_eq!(entry[1].0, 0x7213);
    assert_eq!(&entry[1].1[4..20], b"ExampleCharacter");
    let mut receive = |zone: &mut Zone, opcode: u16, body: &[u8]| {
        let (actions, result) =
            zone.receive(&context, packet(opcode, body), 1024, ChatOutcome::Nothing);
        result.unwrap();
        actions
    };

    assert!(sent(&receive(&mut zone, 0x75df, &profile())).is_empty());
    assert!(sent(&receive(&mut zone, 0x254d, &[])).is_empty());
    let actions = receive(&mut zone, 0x7213, &mixed_spawn(77));
    let requests = sent(&actions);
    let opcodes: Vec<u16> = requests.iter().map(|r| r.0).collect();
    assert_eq!(opcodes, [0x1251, 0x7ac5, 0x367d, 0x5966]);
    let mut checksums = requests[0].1.clone();
    p99::decode(
        &mut checksums,
        &md5::compute(&entry[1].1).0,
        &p99::packet_digest(0x7213, &spawn(77)).unwrap(),
    );
    assert_eq!(checksums, [9, 8, 7, 6]);
    assert!(sent(&receive(&mut zone, 0x254d, &[])).is_empty());

    let mut description = vec![0; 96];
    description[64..72].copy_from_slice(b"ecommons");
    let actions = receive(&mut zone, 0x0920, &description);
    assert!(matches!(
        &actions.list[1],
        Action::Notify(Notice::Zone(name)) if name == "ecommons"
    ));
    assert_eq!(
        sent(&actions),
        [
            (0x067a, vec![0; 4]),
            (0x5e3a, vec![0; 4]),
            (0x7752, vec![0; 4]),
            (0x0322, vec![])
        ]
    );
    let (actions, _) = zone.tick(false, None, 0, NOW + 10 * SECOND);
    assert!(actions.list.is_empty());
    assert_eq!(
        sent(&receive(&mut zone, 0x0587, &[])),
        [(0x0587, vec![])]
    );
    let actions = receive(&mut zone, 0x0587, &[]);
    assert_eq!(stages(&actions), [ConnectionStage::Ready]);
    assert_eq!(
        sent(&actions),
        [
            (0x6563, vec![0xf1, 0xf2]),
            (0x5e20, vec![]),
            (0x0c11, vec![1, 0, 0, 0])
        ]
    );
    assert!(sent(&receive(&mut zone, 0x0587, &[])).is_empty());

    let heartbeat = |zone: &mut Zone, now: u64| {
        let (actions, _) = zone.tick(false, None, 0, now);
        actions.list.into_iter().find_map(|action| match action {
            Action::SendUnreliable { opcode, body } => Some((opcode, body)),
            _ => None,
        })
    };
    let (opcode, first) = heartbeat(&mut zone, NOW + 11 * SECOND).unwrap();
    assert_eq!(opcode, 0x14cb);
    assert_eq!(&first[..4], &[77, 0, 0, 0]);
    assert_eq!(&first[4..8], &(-20.25f32).to_le_bytes());
    assert_eq!(&first[8..24], &[0; 16]);
    assert_eq!(&first[24..28], &10.5f32.to_le_bytes());
    assert_eq!(&first[28..32], &3.0f32.to_le_bytes());
    assert_eq!(&first[32..36], &[0, 4, 0, 0]);
    assert!(heartbeat(&mut zone, NOW + 12 * SECOND).is_none());
    let (_, second) = heartbeat(&mut zone, NOW + 13 * SECOND).unwrap();
    assert_eq!(&second[2..4], &[1, 0]);
    assert_eq!(first[4..], second[4..]);
}

#[test]
fn zone_sessions_are_refused_for_what_is_wrong_with_them() {
    let config = config();
    let credentials = Credentials {
        account: 12345,
        key: KEY,
    };
    let context = ZoneContext {
        config: &config,
        credentials: &credentials,
        filters: &[],
        last_received_seconds: 0,
    };
    let mut nan = profile();
    nan[13116..13120].copy_from_slice(&f32::NAN.to_le_bytes());
    let mut infinite = profile();
    infinite[13128..13132].copy_from_slice(&f32::NEG_INFINITY.to_le_bytes());
    let mut largest = profile();
    largest[13128..13132].copy_from_slice(&f32::MAX.to_le_bytes());
    let mut other = spawn(1);
    other[7] = b'X';
    p99::session_xor(&mut other, &KEY).unwrap();
    for (opcode, body, expected) in [
        (0x75df, vec![0; 19591], Refusal::ProfileSize),
        (0x75df, nan, Refusal::Position),
        (0x75df, infinite, Refusal::Position),
        (0x7213, vec![0; 384], Refusal::Spawn),
        (0x7213, other, Refusal::Spawn),
        (0x7213, mixed_spawn(65536), Refusal::SpawnId),
        (0x0920, vec![0; 95], Refusal::ZoneDescription),
        (0x1252, vec![], Refusal::ZoneRejected),
        (0x3cdc, vec![], Refusal::LoggedOut),
        (0x61b6, vec![], Refusal::NewZone),
    ] {
        let (mut zone, _) = self::zone(&config);
        let (_, result) =
            zone.receive(&context, packet(opcode, &body), 0, ChatOutcome::Nothing);
        assert_eq!(refusal(result.unwrap_err()), expected);
    }
    let (mut zone, _) = self::zone(&config);
    let (_, result) =
        zone.receive(&context, packet(0x75df, &largest), 0, ChatOutcome::Nothing);
    assert!(result.is_ok());

    let mut long = config.clone();
    long.character = "x".repeat(64);
    let (world, _) = World::start(&credentials, NOW).unwrap();
    let (actions, zone) = Zone::start(world.codec, &long, Vec::new(), NOW);
    assert_eq!(sent(&actions).len(), 1);
    assert_eq!(refusal(zone.unwrap_err()), Refusal::FieldSize);
}

#[test]
fn zone_sessions_report_end_and_time_out() {
    let config = config();
    let (mut zone, _) = zone(&config);
    let (actions, outcome) = zone.tick(false, None, 3, NOW + 30 * SECOND);
    assert!(matches!(outcome, Outcome::Continue));
    assert!(matches!(
        actions.list[0],
        Action::Notify(Notice::Status {
            state: ConnectionState::Zoning,
            packets: 0,
            last_received_seconds: Some(3),
        })
    ));
    let (actions, outcome) = zone.tick(false, None, 3, NOW + 60 * SECOND);
    assert_eq!(actions.list.len(), 2);
    let Outcome::Fail(error) = outcome else {
        panic!("admission goes on");
    };
    assert_eq!(refusal(error), Refusal::Admission);
    let (actions, outcome) = zone.tick(false, Some(SECOND), 3, NOW + SECOND);
    assert!(matches!(actions.list[..], [Action::Close]));
    assert!(matches!(outcome, Outcome::Done(())));
}

#[test]
fn zone_communications_are_recorded_decoded_or_not() {
    let config = config();
    let credentials = Credentials {
        account: 12345,
        key: KEY,
    };
    let context = ZoneContext {
        config: &config,
        credentials: &credentials,
        filters: &[],
        last_received_seconds: 0,
    };
    let (mut zone, _) = zone(&config);
    zone.ready = true;
    let mut body = vec![0; 148];
    body[132] = 4;
    body.extend(b"hello\0");
    let (actions, _) = zone.receive(
        &context,
        packet(0x1004, &body),
        0,
        decode_chat(0x1004, &body, false, &[]),
    );
    assert_eq!(actions.list.len(), 1);
    let mut events = Events::new();
    let stamp = || Stamp {
        seconds: 0,
        rfc3339: "now".into(),
    };
    for action in actions.list {
        let Action::Notify(notice) = action else {
            panic!("unexpected action");
        };
        assert!(matches!(
            events.notify(&config, notice, stamp()),
            Some(ClientEvent::Record(_))
        ));
    }
    let (actions, _) = zone.receive(
        &context,
        packet(0x1004, &[0xab, 0xcd]),
        0,
        decode_chat(0x1004, &[0xab, 0xcd], false, &[]),
    );
    assert!(matches!(
        decode_chat(0x1005, &[], false, &[]),
        ChatOutcome::Nothing
    ));
    let printed = format!("{:?}", actions.list);
    assert!(printed.contains("abcd") && printed.contains("truncated channel message"));
}

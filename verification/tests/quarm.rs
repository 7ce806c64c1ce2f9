//! The TAKP/EQMac sequences that Project Quarm speaks.

use p99_logger_client::bytes::{cstr, put_string};
use p99_logger_client::client::quarm::{
    character_exists, dll_version_message, dll_version_reply, login_account, login_fields,
    parse_server_list, server_filters, session_key, world_login, zone_destination, Credentials,
    Login, World, WorldDone, Zone,
};
use p99_logger_client::client::session::ChatOutcome;
use p99_logger_client::client::step::{
    Action, Actions, Notice, Outcome, Refusal, SessionError,
};
use p99_logger_client::client::{
    ClientConfig, ConnectionStage, ConnectionState, LoginError, ServerProtocol,
};
use p99_logger_client::transport::Application;

const SECOND: u64 = 1_000_000_000;

const NOW: u64 = 1_000 * SECOND;

fn config() -> ClientConfig {
    ClientConfig::for_protocol(
        ServerProtocol::Quarm,
        "EXAMPLE_ACCOUNT",
        "EXAMPLE_PASSWORD",
        "The Project Quarm Server",
        "ExampleCharacter",
    )
}

fn packet(opcode: u16, body: &[u8]) -> Application {
    Application {
        opcode,
        body: body.to_vec(),
    }
}

/// What is sent, by opcode and body.
fn sent(actions: &Actions) -> Vec<(u16, Vec<u8>)> {
    actions
        .list
        .iter()
        .filter_map(|action| match action {
            Action::Send { opcode, body } => Some((*opcode, body.clone())),
            Action::SendEncrypted { opcode, clear } => Some((*opcode, clear.clone())),
            _ => None,
        })
        .collect()
}

/// The stages that are reported.
fn stages(actions: &Actions) -> Vec<ConnectionStage> {
    actions
        .list
        .iter()
        .filter_map(|action| match action {
            Action::Notify(Notice::Progress(stage)) => Some(*stage),
            _ => None,
        })
        .collect()
}

fn refusal(error: SessionError) -> Refusal {
    match error {
        SessionError::Refused(refusal) => refusal,
        _ => panic!("unexpected kind of error"),
    }
}

#[test]
fn dll_version_ignores_other_features_responses_and_malformed_messages() {
    let request = [0, 0, 0, 1, 0, 0, 4, 0];
    for length in 0..8 {
        assert!(dll_version_reply(&request[..length]).is_none());
    }
    let mut oversized = request.to_vec();
    oversized.push(0);
    assert!(dll_version_reply(&oversized).is_none());
    for (offset, value) in [
        (0, 1),
        (2, 1),
        (3, 0),
        (6, 2),
        (6, 3),
        (6, 5),
        (6, 7),
        (6, 255),
        (7, 128),
    ] {
        let mut other = request;
        other[offset] = value;
        assert!(dll_version_reply(&other).is_none());
    }
    let mut arbitrary_value = request;
    arbitrary_value[4..6].fill(255);
    assert_eq!(
        dll_version_reply(&arbitrary_value),
        Some([0, 0, 0, 1, 7, 0, 4, 128])
    );
}

#[test]
fn a_reply_is_never_answered() {
    assert_eq!(dll_version_message(false), [0, 0, 0, 1, 7, 0, 4, 0]);
    let reply = dll_version_reply(&dll_version_message(false)).unwrap();
    assert_eq!(reply, dll_version_message(true));
    assert!(dll_version_reply(&reply).is_none());
}

#[test]
fn zone_handoff_uses_network_byte_order_for_the_port() {
    // EQMacEmu world/client.cpp serializes ntohs(GetCPort()) in this field.
    let mut body = [0; 130];
    put_string(&mut body[..128], "203.0.113.20").unwrap();
    body[128..].copy_from_slice(&7000u16.to_be_bytes());
    assert_eq!(
        zone_destination(&body).unwrap(),
        ("203.0.113.20".into(), 7000)
    );
    assert!(zone_destination(&body[..129]).is_err());
    body[128..].fill(0);
    assert!(zone_destination(&body).is_err());
}

#[test]
fn pc_login_uses_fixed_20_byte_fields() {
    let clear = login_fields(&config()).unwrap();
    assert_eq!(clear.len(), 40);
    assert_eq!(cstr(&clear[..20]), b"EXAMPLE_ACCOUNT");
    assert_eq!(cstr(&clear[20..]), b"EXAMPLE_PASSWORD");
    let mut long = config();
    long.user = "x".repeat(20);
    assert_eq!(
        refusal(login_fields(&long).unwrap_err()),
        Refusal::FieldSize
    );
}

fn server_list() -> Vec<u8> {
    let mut body = vec![2, 0, 0, 0, 0];
    for (name, ip, id) in [
        ("The Al'Kabor Project Server", "198.51.100.10", 1u32),
        ("The Project Quarm Server", "203.0.113.20", 2u32),
    ] {
        body.extend_from_slice(name.as_bytes());
        body.push(0);
        body.extend_from_slice(ip.as_bytes());
        body.push(0);
        body.push(0);
        body.extend_from_slice(&1u32.to_le_bytes());
        body.extend_from_slice(&id.to_le_bytes());
        body.extend_from_slice(&123u32.to_le_bytes());
    }
    body
}

#[test]
fn old_server_list_layout_selects_names_and_addresses() {
    let mut body = server_list();
    body.extend_from_slice(&[0; 26]);
    let servers = parse_server_list(&body).unwrap();
    assert_eq!(servers.len(), 2);
    assert_eq!(servers[1].name, "The Project Quarm Server");
    assert_eq!(servers[1].ip, "203.0.113.20");
}

#[test]
fn damaged_server_lists_are_refused() {
    let body = server_list();
    for (data, expected) in [
        (&body[..4], Refusal::LegacyList),
        (&body[..10], Refusal::LegacyStringEnd),
        (&body[..40], Refusal::LegacyStringEnd),
        (&body[..body.len() - 1], Refusal::LegacyFlags),
    ] {
        assert_eq!(refusal(parse_server_list(data).unwrap_err()), expected);
    }
}

#[test]
fn world_login_is_the_200_byte_windows_eqmac_form() {
    let credentials = Credentials {
        account: "LS#12345".into(),
        key: *b"ABCDEFGHIJ",
    };
    let body = world_login(&credentials).unwrap();
    assert_eq!(body.len(), 200);
    assert_eq!(cstr(&body[..127]), b"LS#12345");
    assert_eq!(&body[9..19], b"ABCDEFGHIJ");
    assert!(body[19..].iter().all(|&byte| byte == 0));
}

#[test]
fn world_login_fields_have_limits() {
    let credentials = |length: usize| Credentials {
        account: "x".repeat(length),
        key: *b"ABCDEFGHIJ",
    };
    assert!(world_login(&credentials(116)).is_ok());
    assert_eq!(
        refusal(world_login(&credentials(117)).unwrap_err()),
        Refusal::LegacyFields
    );
    assert_eq!(
        refusal(world_login(&credentials(127)).unwrap_err()),
        Refusal::FieldSize
    );
}

#[test]
fn character_list_uses_ten_fixed_64_byte_name_fields() {
    let mut body = vec![0; 1620];
    put_string(&mut body[3 * 64..4 * 64], "ExampleCharacter").unwrap();
    assert!(character_exists(&body, "examplecharacter").unwrap());
    assert!(!character_exists(&body, "MissingCharacter").unwrap());
    assert!(character_exists(&body[..639], "ExampleCharacter").is_err());
}

#[test]
fn mac_filters_enable_every_chat_and_combat_category() {
    let filters = server_filters();
    for index in 0..17 {
        let value = u32::from_le_bytes(filters[index * 4..index * 4 + 4].try_into().unwrap());
        assert_eq!(value, u32::from((5..=14).contains(&index)));
    }
    assert_eq!(filters.len(), 68);
}

#[test]
fn account_sessions_and_keys_are_checked() {
    let mut body = vec![0; 21];
    body[..6].copy_from_slice(b"LS#123");
    assert_eq!(login_account(&body).unwrap(), "LS#123");
    assert_eq!(
        refusal(login_account(&body[..20]).unwrap_err()),
        Refusal::LegacyLogin
    );
    body[..4].copy_from_slice(b"LS#\0");
    assert_eq!(
        refusal(login_account(&body).unwrap_err()),
        Refusal::LegacyAccount
    );
    body[0] = 0xff;
    assert_eq!(
        refusal(login_account(&body).unwrap_err()),
        Refusal::LegacyAccountEncoding
    );

    assert_eq!(session_key(b"\0ABCDEFGHIJ").unwrap(), *b"ABCDEFGHIJ");
    assert_eq!(
        refusal(session_key(b"\0ABCDEFGHI").unwrap_err()),
        Refusal::LegacyPlay
    );
    assert_eq!(
        refusal(session_key(b"\0ABCDEFGHI!").unwrap_err()),
        Refusal::LegacyKey
    );
}

#[test]
fn login_goes_from_greeting_to_session_key() {
    let config = config();
    let (mut login, actions) = Login::start(NOW);
    assert_eq!(sent(&actions), [(0x5900, vec![])]);
    assert_eq!(login.deadline, NOW + 45 * SECOND);

    // Nothing is answered out of order.
    for opcode in [0x8800, 0x4600, 0x4700, 0x1234] {
        let (actions, outcome) = login.receive(&config, &packet(opcode, &[]));
        assert!(actions.list.is_empty());
        assert!(matches!(outcome, Outcome::Continue));
    }

    let (actions, _) = login.receive(&config, &packet(0x5900, &[]));
    assert_eq!(stages(&actions), [ConnectionStage::Authenticating]);
    assert!(matches!(
        &actions.list[1],
        Action::SendEncrypted { opcode: 0x0100, clear } if *clear == login_fields(&config).unwrap()
    ));
    let (actions, _) = login.receive(&config, &packet(0x5900, &[]));
    assert!(actions.list.is_empty());

    let mut accepted = vec![0; 21];
    accepted[..6].copy_from_slice(b"LS#123");
    let (actions, _) = login.receive(&config, &packet(0x0400, &accepted));
    assert_eq!(sent(&actions), [(0x8800, vec![])]);

    let (actions, _) = login.receive(&config, &packet(0x8800, &[]));
    assert_eq!(stages(&actions), [ConnectionStage::SelectingServer]);
    assert_eq!(sent(&actions), [(0x4600, vec![])]);

    let (actions, _) = login.receive(&config, &packet(0x4600, &server_list()));
    assert_eq!(sent(&actions), [(0x4700, b"203.0.113.20\0".to_vec())]);

    let (actions, outcome) = login.receive(&config, &packet(0x4700, b"\0ABCDEFGHIJ"));
    assert!(matches!(actions.list[0], Action::Close));
    assert_eq!(stages(&actions), [ConnectionStage::ConnectingWorld]);
    let Outcome::Done(done) = outcome else {
        panic!("the login is not finished");
    };
    assert_eq!(done.ip, "203.0.113.20");
    assert_eq!(done.credentials.account, "LS#123");
    assert_eq!(&done.credentials.key, b"ABCDEFGHIJ");
}

#[test]
fn login_errors_depend_on_when_they_come() {
    let config = config();
    let (mut login, _) = Login::start(NOW);
    let (_, outcome) = login.receive(&config, &packet(0x0200, b"no such account\0"));
    assert!(matches!(
        outcome,
        Outcome::Fail(SessionError::Login(LoginError::InvalidCredentials))
    ));
    let mut accepted = vec![0; 21];
    accepted[..6].copy_from_slice(b"LS#123");
    login.receive(&config, &packet(0x0400, &accepted));
    let (_, outcome) = login.receive(&config, &packet(0x0200, b"world is locked\0..."));
    let Outcome::Fail(error) = outcome else {
        panic!("the login goes on");
    };
    assert_eq!(
        error.message(),
        "TAKP login server rejected world entry: world is locked"
    );
    login.receive(&config, &packet(0x8800, &[]));
    let mut other = config.clone();
    other.server = "Another Server".into();
    let (_, outcome) = login.receive(&other, &packet(0x4600, &server_list()));
    let Outcome::Fail(error) = outcome else {
        panic!("the login goes on");
    };
    assert_eq!(refusal(error), Refusal::LegacyServerAbsent);
}

#[test]
fn the_world_is_entered_with_a_listed_character() {
    let config = config();
    let credentials = Credentials {
        account: "LS#12345".into(),
        key: *b"ABCDEFGHIJ",
    };
    let (mut world, actions) = World::start(&credentials, NOW).unwrap();
    assert_eq!(
        sent(&actions),
        [(0x5818, world_login(&credentials).unwrap())]
    );
    let mut handoff = [0; 130];
    put_string(&mut handoff[..128], "203.0.113.20").unwrap();
    handoff[128..].copy_from_slice(&7000u16.to_be_bytes());
    let (actions, outcome) =
        world.receive(&config, false, &packet(0x0480, &handoff), ChatOutcome::Nothing);
    assert!(sent(&actions).is_empty());
    assert!(matches!(outcome, Outcome::Continue));

    let mut list = vec![0; 640];
    put_string(&mut list[..64], "EXAMPLEcharacter").unwrap();
    let mut only = world;
    let (actions, outcome) =
        only.receive(&config, true, &packet(0x4740, &list), ChatOutcome::Nothing);
    assert!(matches!(outcome, Outcome::Done(WorldDone::Selected)));
    assert!(matches!(actions.list.last(), Some(Action::Close)));

    let (actions, _) =
        world.receive(&config, false, &packet(0x4740, &list), ChatOutcome::Nothing);
    let mut enter = vec![0; 64];
    put_string(&mut enter, "ExampleCharacter").unwrap();
    assert_eq!(sent(&actions), [(0x0180, enter)]);
    assert_eq!(
        stages(&actions),
        [
            ConnectionStage::SelectingCharacter,
            ConnectionStage::ConnectingZone
        ]
    );
    let (_, outcome) =
        world.receive(&config, false, &packet(0x0480, &handoff), ChatOutcome::Nothing);
    let Outcome::Done(WorldDone::Zone { host, port }) = outcome else {
        panic!("no zone");
    };
    assert_eq!((host.as_str(), port), ("203.0.113.20", 7000));
}

#[test]
fn an_absent_character_is_refused() {
    let credentials = Credentials {
        account: "LS#12345".into(),
        key: *b"ABCDEFGHIJ",
    };
    let (mut world, _) = World::start(&credentials, NOW).unwrap();
    let (actions, outcome) = world.receive(
        &config(),
        false,
        &packet(0x4740, &[0; 640]),
        ChatOutcome::Error("malformed".into()),
    );
    let Outcome::Fail(error) = outcome else {
        panic!("the world goes on");
    };
    assert_eq!(refusal(error), Refusal::CharacterAbsent);
    assert!(matches!(
        &actions.list[0],
        Action::Notify(Notice::Record { zone, .. }) if zone.is_empty()
    ));
    assert!(matches!(
        &actions.list[1],
        Action::Notify(Notice::Diagnostic(text))
            if text == "Quarm world received 0x4740 (640 bytes)"
    ));
}

#[test]
fn dll_version_precedes_zone_ready_and_answers_requests() {
    for request_during_connection in [false, true] {
        let config = config();
        let (actions, zone) = Zone::start(&config, NOW);
        let mut zone = zone.unwrap();
        let entry = sent(&actions);
        assert_eq!(entry[0], (0xe841, 10.0f32.to_le_bytes().to_vec()));
        assert_eq!(entry[1].0, 0x2840);
        assert_eq!(entry[1].1.len(), 68);
        let mut receive = |opcode: u16, body: &[u8]| {
            let (actions, result) =
                zone.receive(&packet(opcode, body), 0, ChatOutcome::Nothing);
            result.unwrap();
            sent(&actions)
        };

        if request_during_connection {
            assert_eq!(
                receive(0xf540, &[0, 0, 0, 1, 0, 0, 4, 0]),
                [(0xf540, vec![0, 0, 0, 1, 7, 0, 4, 0x80])]
            );
        }
        // The state machine only observes the profile opcode.
        assert!(receive(0x3640, &[]).is_empty());
        assert_eq!(receive(0x3641, &[]), [(0x5d40, vec![])]);
        let mut description = [0; 96];
        description[64..71].copy_from_slice(b"example");
        assert_eq!(receive(0x5b40, &description), [(0x0a40, vec![])]);
        assert_eq!(receive(0xd840, &[]), [(0xd840, vec![])]);
        let ready = receive(0x6f40, &[]);
        assert_eq!(ready[0].0, 0xff41);
        assert_eq!(ready[0].1.len(), 68);
        // Quarm checks the version when ClientUpdate completes zone entry.
        assert_eq!(ready[1], (0xf540, vec![0, 0, 0, 1, 7, 0, 4, 0]));
        assert_eq!(ready[2], (0xf340, vec![0; 15]));
        assert_eq!(ready.len(), 3);

        // Responses, unrelated features, and repeated readiness must not
        // generate more announcements or enable unsupported capabilities.
        assert!(receive(0xf540, &[0, 0, 0, 1, 7, 0, 4, 0x80]).is_empty());
        assert!(receive(0xf540, &[0, 0, 0, 1, 30, 0, 5, 0]).is_empty());
        assert!(receive(0x6f40, &[]).is_empty());
        assert_eq!(
            receive(0xf540, &[0, 0, 0, 1, 0, 0, 4, 0]),
            [(0xf540, vec![0, 0, 0, 1, 7, 0, 4, 0x80])]
        );
    }
}

#[test]
fn zone_sessions_end_by_cancellation_duration_or_a_failed_admission() {
    let (_, zone) = Zone::start(&config(), NOW);
    let mut zone = zone.unwrap();
    let (actions, outcome) = zone.tick(true, None, 0, NOW);
    assert!(matches!(actions.list[..], [Action::Close]));
    assert!(matches!(outcome, Outcome::Done(())));
    let (_, outcome) = zone.tick(false, Some(5 * SECOND), 0, NOW + 5 * SECOND);
    assert!(matches!(outcome, Outcome::Done(())));
    let (_, outcome) = zone.tick(false, None, 0, NOW + 60 * SECOND);
    let Outcome::Fail(error) = outcome else {
        panic!("admission goes on");
    };
    assert_eq!(refusal(error), Refusal::Admission);
    for (opcode, expected) in [
        (0x5041, Refusal::LoggedOut),
        (0x4d41, Refusal::NewZone),
        (0x5b40, Refusal::LegacyDescription),
    ] {
        let (_, result) = zone.receive(&packet(opcode, &[]), 0, ChatOutcome::Nothing);
        assert_eq!(refusal(result.unwrap_err()), expected);
    }
}

#[test]
fn the_profile_has_to_come_before_readiness() {
    let (_, zone) = Zone::start(&config(), NOW);
    let mut zone = zone.unwrap();
    zone.replied_experience = true;
    let (_, result) = zone.receive(&packet(0x6f40, &[]), 0, ChatOutcome::Nothing);
    assert_eq!(refusal(result.unwrap_err()), Refusal::ReadyBeforeProfile);
}

#[test]
fn status_is_reported_every_half_minute_and_commands_wait_for_admission() {
    let (_, zone) = Zone::start(&config(), NOW);
    let mut zone = zone.unwrap();
    assert_eq!(zone.commands_due(), 0);
    let (actions, _) = zone.tick(false, None, 0, NOW + 29 * SECOND);
    assert!(actions.list.is_empty());
    zone.ready = true;
    assert_eq!(zone.commands_due(), 64);
    let (actions, outcome) = zone.tick(false, None, 59, NOW + 30 * SECOND);
    assert!(matches!(outcome, Outcome::Continue));
    assert!(matches!(
        actions.list[0],
        Action::Notify(Notice::Status {
            state: ConnectionState::Connected,
            packets: 0,
            last_received_seconds: Some(59),
        })
    ));
    assert!(matches!(
        actions.list[1],
        Action::Notify(Notice::Traffic {
            heading: "Quarm zone session: ",
            packets: 0,
        })
    ));
    let (actions, _) = zone.tick(false, None, 60, NOW + 60 * SECOND);
    assert!(matches!(
        actions.list[0],
        Action::Notify(Notice::Status {
            state: ConnectionState::Zoning,
            ..
        })
    ));

    assert_eq!(sent(&zone.command(Ok(vec![1, 2]))), [(0x0741, vec![1, 2])]);
    let rejected = zone.command(Err("text is empty".into()));
    assert!(matches!(
        &rejected.list[0],
        Action::Notify(Notice::Diagnostic(text))
            if text == "Rejected invalid outbound chat command: text is empty"
    ));
}

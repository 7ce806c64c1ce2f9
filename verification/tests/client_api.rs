//! The engine behind its public interface, with the host's part played here.

use p99_logger_client::assets::Assets;
use p99_logger_client::chat::{self, ChannelName, ChannelNumber, ChatEvent, OutboundChat};
use p99_logger_client::client::run::{AttemptEnd, Phase, Run, RunAction, RunEnd};
use p99_logger_client::client::session::{awaiting, Login, LoginAid};
use p99_logger_client::client::step::{
    Action, Actions, Events, Notice, Outcome, Refusal, SessionError, Stamp,
};
use p99_logger_client::client::{
    healthy, CancellationToken, Client, ClientCommand, ClientConfig, ClientEvent, ClientIdentity,
    ConfigError, ConnectionStage, ConnectionState, DecodeError, LoginError, Record, RecordEvent,
    RunOptions, ServerProtocol,
};
use p99_logger_client::transport::{Handshake, Session, TransportError};
use std::sync::atomic::{AtomicBool, Ordering};
use std::sync::Arc;

const SECOND: u64 = 1_000_000_000;

const NOW: u64 = 1_000 * SECOND;

const CHANNELS: [ChannelNumber; 2] = [
    ChannelNumber {
        number: 4,
        name: ChannelName::Auction,
    },
    ChannelNumber {
        number: 8,
        name: ChannelName::Say,
    },
];

/// Seconds since the epoch, as the host's calendar has it.
const TODAY: i64 = 1_700_000_000;

fn stamp() -> Stamp {
    Stamp {
        seconds: TODAY,
        rfc3339: "2023-11-14T22:13:20.000Z".into(),
    }
}

fn config(port: u16) -> ClientConfig {
    let mut config = ClientConfig::new(
        "EXAMPLE_ACCOUNT",
        "EXAMPLE_PASSWORD",
        "Test Server",
        "ExampleCharacter",
    );
    config.host = "127.0.0.1".into();
    config.port = port;
    config
}

fn assets() -> Assets {
    Assets {
        client: "test".into(),
        files: Vec::new(),
    }
}

fn client(config: ClientConfig) -> Client {
    Client::new(
        config,
        ClientIdentity {
            hostname: "test-device".into(),
            username: "test-user".into(),
        },
        assets(),
    )
    .unwrap()
}

/// The states that a handler was told of.
fn states(events: &[ClientEvent]) -> Vec<ConnectionState> {
    events
        .iter()
        .filter_map(|event| match event {
            ClientEvent::Status(status) => Some(status.state),
            _ => None,
        })
        .collect()
}

/// Deliver events to a handler that keeps them, up to the next other action.
fn deliver(run: &mut Run, cancelled: bool, events: &mut Vec<ClientEvent>) -> RunAction {
    loop {
        match run.next(cancelled, NOW, TODAY) {
            RunAction::Deliver(event) => {
                events.push(event);
                run.delivered(None);
            }
            other => return other,
        }
    }
}

/// A negotiated session, the request's id, and the server's view of both.
fn negotiate(handshake: &mut Handshake) -> (Session, Vec<u8>) {
    let request = handshake.poll(false, NOW).unwrap().unwrap();
    assert_eq!(&request[..6], &[0, 1, 0, 0, 0, 2]);
    let id = request[6..10].to_vec();
    let mut response = vec![0, 2];
    response.extend(&id);
    response.extend(1234u32.to_be_bytes());
    response.extend([2, 0, 0]);
    response.extend(512u32.to_be_bytes());
    let session = handshake
        .receive(&response, false, NOW)
        .unwrap()
        .unwrap();
    (session, id)
}

fn sealed(mut packet: Vec<u8>) -> Vec<u8> {
    let mut crc = crc32fast::Hasher::new();
    crc.update(&1234u32.to_le_bytes());
    crc.update(&packet);
    packet.extend(&crc.finalize().to_be_bytes()[2..]);
    packet
}

fn closed_packet(id: &[u8]) -> Vec<u8> {
    let mut packet = vec![0, 5];
    packet.extend(id);
    sealed(packet)
}

fn application_packet(sequence: u16, opcode: u16, body: &[u8]) -> Vec<u8> {
    let mut packet = vec![0, 9];
    packet.extend(sequence.to_be_bytes());
    packet.extend(opcode.to_le_bytes());
    packet.extend(body);
    sealed(packet)
}

/// Do what a stage asks for.
fn perform(
    actions: Actions,
    config: &ClientConfig,
    session: &mut Session,
    run: &mut Run,
    events: &mut Vec<ClientEvent>,
) {
    for action in actions.list {
        match action {
            Action::Send { opcode, body } => session.send(opcode, &body, NOW).unwrap(),
            Action::SendUnreliable { opcode, body } => {
                session.send_unreliable(opcode, &body).unwrap()
            }
            Action::SendEncrypted { .. } => panic!("no cipher here"),
            Action::Close => session.close(),
            Action::Notify(notice) => events.extend(run.events.notify(config, notice, stamp())),
        }
    }
}

#[test]
fn cancellation_before_start_never_resolves_or_connects() {
    let mut settings = config(1);
    settings.host = "this host cannot resolve".into();
    let cancel = CancellationToken::default();
    cancel.cancel();
    let mut run = client(settings).run(RunOptions::default());
    let mut events = Vec::new();
    assert!(matches!(
        deliver(&mut run, cancel.is_cancelled(), &mut events),
        RunAction::Finish
    ));
    assert!(matches!(run.phase, Phase::End(RunEnd::Stopped)));
    assert_eq!(states(&events), [ConnectionState::Stopped]);
    assert_eq!(events.len(), 1);
}

#[test]
fn handler_failure_is_returned_without_reconnecting_or_calling_it_again() {
    let mut settings = config(1);
    settings.host = "this host cannot resolve".into();
    let mut run = client(settings).run(RunOptions::default());
    let mut calls = 0;
    loop {
        match run.next(CancellationToken::default().is_cancelled(), NOW, TODAY) {
            RunAction::Deliver(_) => {
                calls += 1;
                run.delivered(Some("UI event receiver closed".into()));
            }
            RunAction::Finish => break,
            RunAction::Connect | RunAction::Sleep(_) => panic!("the run went on"),
        }
    }
    let Phase::End(end) = &run.phase else {
        panic!("the run is not over");
    };
    assert_eq!(calls, 1);
    assert!(end.message().unwrap().contains("UI event receiver closed"));
}

#[test]
fn cancellation_interrupts_udp_negotiation() {
    let mut run = client(config(1)).run(RunOptions::default());
    let mut events = Vec::new();
    assert!(matches!(
        deliver(&mut run, false, &mut events),
        RunAction::Connect
    ));
    let cancel = CancellationToken::default();
    let mut handshake = Handshake::new(NOW);
    let request = handshake.poll(cancel.is_cancelled(), NOW).unwrap().unwrap();
    assert_eq!(&request[..2], &[0, 1]);
    cancel.cancel();
    let error = handshake.poll(cancel.is_cancelled(), NOW).unwrap_err();
    assert_eq!(error, TransportError::Cancelled);
    run.ended(
        AttemptEnd::Failed(error.message().into()),
        cancel.is_cancelled(),
        TODAY,
    );
    assert!(matches!(
        deliver(&mut run, cancel.is_cancelled(), &mut events),
        RunAction::Finish
    ));
    assert!(matches!(run.phase, Phase::End(RunEnd::Stopped)));
}

#[test]
fn cancellation_during_login_closes_the_session_and_stops_without_retry() {
    let settings = config(1);
    let mut run = client(config(1)).run(RunOptions::default());
    let mut events = Vec::new();
    assert!(matches!(
        deliver(&mut run, false, &mut events),
        RunAction::Connect
    ));
    let mut handshake = Handshake::new(NOW);
    let (mut session, id) = negotiate(&mut handshake);
    let (login, actions) = Login::start(NOW);
    perform(actions, &settings, &mut session, &mut run, &mut events);
    let ready = session.take_outbox().remove(0);
    assert_eq!(&ready[..6], &[0, 9, 0, 0, 1, 0]);

    let error = awaiting(true, NOW, login.deadline).unwrap_err();
    session.close();
    assert_eq!(session.take_outbox(), [closed_packet(&id)]);
    run.ended(AttemptEnd::Failed(error.message()), true, TODAY);
    assert!(matches!(
        deliver(&mut run, true, &mut events),
        RunAction::Finish
    ));
    assert_eq!(
        states(&events),
        [ConnectionState::Connecting, ConnectionState::Stopped]
    );
}

#[test]
fn server_disconnect_retries_only_when_requested_and_retry_wait_is_cancellable() {
    for reconnect in [false, true] {
        let mut run = client(config(1)).run(RunOptions {
            reconnect,
            ..RunOptions::default()
        });
        let mut events = Vec::new();
        assert!(matches!(
            deliver(&mut run, false, &mut events),
            RunAction::Connect
        ));
        let mut handshake = Handshake::new(NOW);
        let (mut session, id) = negotiate(&mut handshake);
        assert!(session
            .receive(&closed_packet(&id), NOW)
            .unwrap()
            .is_none());
        let error = session.poll(NOW).unwrap_err();
        run.ended(AttemptEnd::Failed(error.message().into()), false, TODAY);

        let mut retries = 0;
        let mut cancelled = false;
        let mut sleeps = 0;
        loop {
            match run.next(cancelled, NOW + sleeps * SECOND / 5, TODAY) {
                RunAction::Deliver(event) => {
                    if let ClientEvent::Reconnecting { delay_seconds, .. } = &event {
                        retries += 1;
                        assert_eq!(*delay_seconds, 30);
                    }
                    events.push(event);
                    run.delivered(None);
                }
                RunAction::Sleep(nanos) => {
                    assert!(nanos <= SECOND / 5);
                    sleeps += 1;
                    cancelled = sleeps == 3;
                }
                RunAction::Connect => panic!("a new attempt before the delay"),
                RunAction::Finish => break,
            }
        }
        let states = states(&events);
        assert_eq!(retries, usize::from(reconnect));
        assert_eq!(
            &states[..2],
            &[ConnectionState::Connecting, ConnectionState::Disconnected]
        );
        let Phase::End(end) = &run.phase else {
            panic!("the run is not over");
        };
        if reconnect {
            assert!(end.message().is_none());
            assert_eq!(states.last(), Some(&ConnectionState::Stopped));
        } else {
            assert_eq!(end.message().unwrap(), "server closed session");
        }
        assert_eq!(sleeps, if reconnect { 3 } else { 0 });
    }
}

#[test]
fn an_attempt_follows_the_whole_delay() {
    let mut run = client(config(1)).run(RunOptions::default());
    let mut events = Vec::new();
    deliver(&mut run, false, &mut events);
    run.ended(AttemptEnd::Failed("gone".into()), false, TODAY);
    let mut now = NOW;
    loop {
        match run.next(false, now, TODAY) {
            RunAction::Deliver(_) => run.delivered(None),
            RunAction::Sleep(nanos) => now += nanos,
            RunAction::Connect => break,
            RunAction::Finish => panic!("the run is over"),
        }
    }
    assert_eq!(now, NOW + 30 * SECOND);
}

#[test]
fn a_delay_beyond_the_clock_ends_the_run() {
    let mut settings = config(1);
    settings.reconnect_delay = u64::MAX;
    let mut run = client(settings).run(RunOptions::default());
    let mut events = Vec::new();
    deliver(&mut run, false, &mut events);
    run.ended(AttemptEnd::Failed("gone".into()), false, TODAY);
    deliver(&mut run, false, &mut events);
    let Phase::End(end) = &run.phase else {
        panic!("the run is not over");
    };
    assert_eq!(
        end.message().unwrap(),
        "reconnect delay exceeds clock range"
    );
}

#[test]
fn invalid_settings_fail_before_start_without_disclosing_credentials() {
    let mut settings = config(1);
    settings.character = "x".repeat(64);
    let result = Client::new(
        settings,
        ClientIdentity {
            hostname: "test".into(),
            username: "test".into(),
        },
        assets(),
    );
    let error = result.err().unwrap().message().to_string();
    assert!(error.contains("character name"));
    assert!(!error.contains("EXAMPLE_ACCOUNT") && !error.contains("EXAMPLE_PASSWORD"));
}

#[test]
fn settings_are_refused_for_what_is_wrong_with_them() {
    let check = |change: fn(&mut ClientConfig)| {
        let mut settings = config(1);
        change(&mut settings);
        settings.validate()
    };
    assert_eq!(check(|_| ()), Ok(()));
    assert_eq!(
        check(|c| c.user.clear()),
        Err(ConfigError::RequiredField)
    );
    assert_eq!(
        check(|c| c.server.push('\0')),
        Err(ConfigError::RequiredField)
    );
    assert_eq!(check(|c| c.port = 0), Err(ConfigError::Port));
    assert_eq!(
        check(|c| {
            c.protocol = ServerProtocol::Quarm;
            c.pass = "x".repeat(20);
        }),
        Err(ConfigError::QuarmField)
    );
    assert_eq!(check(|c| c.pass = "x".repeat(20)), Ok(()));
    assert_eq!(
        check(|c| c.reconnect_delay = 10 * SECOND - 1),
        Err(ConfigError::ReconnectDelay)
    );
}

#[test]
fn identity_is_uppercased_and_limited() {
    assert_eq!(client(config(1)).identity.hostname, "TEST-DEVICE");
    for (hostname, username) in [("", "u"), ("h", ""), ("sixteen-bytes-xx", "u"), ("h\0", "u")] {
        let result = Client::new(
            config(1),
            ClientIdentity {
                hostname: hostname.into(),
                username: username.into(),
            },
            assets(),
        );
        assert_eq!(result.err(), Some(ConfigError::Identity));
    }
    assert!(client(config(1)).with_assets(assets()).is_err());
}

#[test]
fn rejected_credentials_close_login_and_never_enter_the_retry_loop() {
    for reconnect in [true, false] {
        let settings = config(1);
        let mut run = client(config(1)).run(RunOptions {
            reconnect,
            ..RunOptions::default()
        });
        let mut events = Vec::new();
        assert!(matches!(
            deliver(&mut run, false, &mut events),
            RunAction::Connect
        ));
        let mut handshake = Handshake::new(NOW);
        let (mut session, id) = negotiate(&mut handshake);
        let (mut login, actions) = Login::start(NOW);
        perform(actions, &settings, &mut session, &mut run, &mut events);
        let aid = |bad_password| LoginAid {
            bad_password,
            clear: None,
            servers: None,
            encrypted: vec![9; 40],
        };

        let packet = session
            .receive(&application_packet(0, 0x16, &[]), NOW)
            .unwrap()
            .unwrap();
        let (actions, outcome) = login.receive(&settings, &packet, aid(false));
        assert!(matches!(outcome, Outcome::Continue));
        perform(actions, &settings, &mut session, &mut run, &mut events);
        assert!(session
            .take_outbox()
            .iter()
            .any(|wire| wire.starts_with(&[0, 9, 0, 1, 2, 0])));

        let packet = session
            .receive(&application_packet(1, 0x17, &[0; 42]), NOW)
            .unwrap()
            .unwrap();
        let (actions, outcome) = login.receive(&settings, &packet, aid(true));
        assert!(actions.list.is_empty());
        let Outcome::Fail(error) = outcome else {
            panic!("credential rejection must end immediately");
        };
        assert!(
            !error.message().contains("EXAMPLE_ACCOUNT")
                && !error.message().contains("EXAMPLE_PASSWORD")
        );
        let SessionError::Login(error) = error else {
            panic!("not a credential rejection");
        };
        assert_eq!(error, LoginError::InvalidCredentials);
        session.close();
        run.ended(AttemptEnd::Login(error), false, TODAY);
        assert!(matches!(
            deliver(&mut run, false, &mut events),
            RunAction::Finish
        ));
        assert!(matches!(
            run.phase,
            Phase::End(RunEnd::Login(LoginError::InvalidCredentials))
        ));
        assert!(!events
            .iter()
            .any(|event| matches!(event, ClientEvent::Reconnecting { .. })));
        let stages: Vec<ConnectionStage> = events
            .iter()
            .filter_map(|event| match event {
                ClientEvent::Progress(stage) => Some(*stage),
                _ => None,
            })
            .collect();
        assert_eq!(
            stages,
            [
                ConnectionStage::ConnectingLogin,
                ConnectionStage::Authenticating
            ]
        );
        // No server-list or world request follows the rejected login.
        assert_eq!(session.take_outbox(), [closed_packet(&id)]);
    }
}

#[test]
fn waiting_ends_by_cancellation_or_at_the_deadline() {
    assert!(awaiting(false, NOW, NOW + 1).is_ok());
    assert!(matches!(
        awaiting(true, NOW, NOW + 1),
        Err(SessionError::Refused(Refusal::Shutdown))
    ));
    assert!(matches!(
        awaiting(false, NOW, NOW),
        Err(SessionError::Refused(Refusal::Timeout))
    ));
}

#[test]
fn protocol_names_are_stable_and_p99_aliases_remain_readable() {
    assert_eq!(ServerProtocol::Project1999.name(), "project1999");
    for name in ["project1999", "p99", "project_1999"] {
        assert_eq!(
            ServerProtocol::parse(name).unwrap(),
            ServerProtocol::Project1999
        );
    }
    assert_eq!(
        "QUARM".parse::<ServerProtocol>().unwrap(),
        ServerProtocol::Quarm
    );
    assert_eq!(
        ServerProtocol::parse("other").unwrap_err().message(),
        "unknown server protocol \"other\""
    );
    assert_eq!(ServerProtocol::default(), ServerProtocol::Project1999);
}

#[test]
fn each_protocol_has_its_login_endpoint() {
    assert_eq!(
        ServerProtocol::Project1999.default_endpoint(),
        ("login.eqemulator.net", 5998)
    );
    assert_eq!(
        ServerProtocol::Quarm.default_endpoint(),
        ("loginserver.takproject.net", 6000)
    );
    let quarm = ClientConfig::for_protocol(ServerProtocol::Quarm, "u", "p", "s", "c");
    assert_eq!(quarm.host, "loginserver.takproject.net");
    assert_eq!(quarm.port, 6000);
    assert_eq!(quarm.reconnect_delay, 30 * SECOND);
    assert!(quarm.channels.is_none() && !quarm.include_raw);
}

fn chat(channel: u32) -> ChatEvent {
    let mut packet = vec![0; 148];
    packet[64..70].copy_from_slice(b"Sender");
    packet[132..136].copy_from_slice(&channel.to_le_bytes());
    packet.extend(b"Example message\0");
    chat::parse(0x1004, &packet, false, &CHANNELS).unwrap().unwrap()
}

#[test]
fn records_preserve_flat_json_filtering_and_per_session_ids() {
    let mut config = ClientConfig::new(
        "EXAMPLE_ACCOUNT",
        "EXAMPLE_PASSWORD",
        "Test Server",
        "ExampleCharacter",
    );
    config.channels = Some(vec![ChannelName::Auction]);
    let mut events = Events::new();
    let mut received: Vec<ClientEvent> = Vec::new();
    let record = |events: &mut Events, event| {
        events.record(&config, "testzone".into(), event, stamp().rfc3339)
    };
    events.reset();
    received.extend(record(&mut events, RecordEvent::Chat(chat(8))));
    received.extend(record(&mut events, RecordEvent::Chat(chat(4))));
    received.extend(record(
        &mut events,
        RecordEvent::DecodeError(DecodeError {
            opcode: 0x1004,
            payload_hex: "00".into(),
            error: "synthetic truncation".into(),
        }),
    ));
    assert_eq!(events.messages, 2);
    events.reset();
    received.extend(record(&mut events, RecordEvent::Chat(chat(4))));

    let records: Vec<Box<Record>> = received
        .into_iter()
        .map(|event| match event {
            ClientEvent::Record(record) => record,
            _ => panic!("unexpected event"),
        })
        .collect();
    assert_eq!(records.len(), 3);
    let record = &records[0];
    let RecordEvent::Chat(event) = &record.event else {
        panic!("expected chat");
    };
    assert_eq!(event.channel_name.name(), "auction");
    assert_eq!(event.channel, 4);
    assert_eq!(event.text, "Example message");
    assert_eq!(event.sender, "Sender");
    assert!(event.raw.is_none());
    assert_eq!(record.server, "Test Server");
    assert_eq!(record.character, "ExampleCharacter");
    assert_eq!(record.zone, "testzone");
    assert_eq!(record.message_id, 1);
    assert_eq!(record.timestamp, stamp().rfc3339);
    assert_eq!(record.session_id.len(), 16);
    let RecordEvent::DecodeError(error) = &records[1].event else {
        panic!("expected decode error");
    };
    assert_eq!(records[1].message_id, 2);
    assert_eq!(error.payload_hex, "00");
    assert_eq!(records[1].session_id, record.session_id);
    assert_eq!(records[2].message_id, 1);
    assert_ne!(records[2].session_id, record.session_id);
    let printed = format!("{records:?}");
    assert!(!printed.contains("EXAMPLE_ACCOUNT") && !printed.contains("EXAMPLE_PASSWORD"));
}

#[test]
fn default_channels_include_unknown_and_empty_filter_suppresses_chat() {
    let mut config = ClientConfig::new(
        "EXAMPLE_ACCOUNT",
        "EXAMPLE_PASSWORD",
        "Test Server",
        "ExampleCharacter",
    );
    assert!(config.logs(&chat(999)));
    config.channels = Some(Vec::new());
    assert!(!config.logs(&chat(999)) && !config.logs(&chat(4)));
}

#[test]
fn channel_filter_accepts_canonical_names_and_chat_aliases() {
    let channels: Vec<ChannelName> = ["auc", "ooc", "gu"]
        .iter()
        .map(|name| ChannelName::from_name(name).unwrap())
        .collect();
    assert_eq!(channels.len(), 3);
    assert!(channels.contains(&ChannelName::Auction));
    assert!(channels.contains(&ChannelName::Ooc));
    assert!(channels.contains(&ChannelName::Guild));

    let mut config = config(1);
    config.channels = Some(channels);
    let event = |channel| {
        let mut body = vec![0; 148];
        body[132..136].copy_from_slice(&u32::to_le_bytes(channel));
        body.push(0);
        chat::parse(0x1004, &body, false, &CHANNELS).unwrap().unwrap()
    };
    assert!(config.logs(&event(4)));
    assert!(!config.logs(&event(8)));
}

#[test]
fn session_ids_are_sixteen_hexadecimal_digits() {
    let mut events = Events::new();
    events.reset_with(0x0123_4567_89ab_cdef);
    assert_eq!(events.session_id, "0123456789abcdef");
    events.reset_with(1);
    assert_eq!(events.session_id, "0000000000000001");
}

#[test]
fn notices_become_events() {
    let settings = config(1);
    let mut events = Events::new();
    assert!(events
        .notify(&settings, Notice::Zone("ecommons".into()), stamp())
        .is_none());
    let Some(ClientEvent::Status(status)) = events.notify(
        &settings,
        Notice::Status {
            state: ConnectionState::Zoning,
            packets: 3,
            last_received_seconds: Some(1),
        },
        stamp(),
    ) else {
        panic!("expected a status");
    };
    assert_eq!(status.zone, "ecommons");
    assert_eq!(status.timestamp, TODAY);
    assert_eq!(status.packets, 3);
    let Some(ClientEvent::Diagnostic(text)) = events.notify(
        &settings,
        Notice::Traffic {
            heading: "Zone session: ",
            packets: 12,
        },
        stamp(),
    ) else {
        panic!("expected a diagnostic");
    };
    assert_eq!(
        text,
        "Zone session: 12 application packets, 0 communication records"
    );
}

#[test]
fn health_needs_zone_entry_and_recent_traffic() {
    assert!(healthy(ConnectionState::Connected, 10, Some(49)));
    assert!(!healthy(ConnectionState::Connected, 10, Some(50)));
    assert!(!healthy(ConnectionState::Zoning, 0, Some(0)));
    assert!(!healthy(ConnectionState::Connected, -1, Some(0)));
    assert!(!healthy(ConnectionState::Connected, 61, Some(0)));
    assert!(!healthy(ConnectionState::Connected, 0, None));
    assert!(!healthy(ConnectionState::Connected, 60, Some(u64::MAX)));
}

#[test]
fn limited_runs_do_not_reconnect() {
    let unlimited = RunOptions::limited(Some(0), false);
    assert!(unlimited.reconnect && unlimited.zone_duration.is_none());
    let limited = RunOptions::limited(Some(90), false);
    assert!(!limited.reconnect);
    assert_eq!(limited.zone_duration, Some(90 * SECOND));
    let world = RunOptions::limited(None, true);
    assert!(!world.reconnect && world.world_only);
    assert_eq!(
        RunOptions::limited(Some(u64::MAX), false).zone_duration,
        Some(u64::MAX)
    );
}

#[test]
fn tokens_share_their_flag() {
    let flag = Arc::new(AtomicBool::new(false));
    let token = CancellationToken::from(Arc::clone(&flag));
    let worker = token.clone();
    assert!(!worker.is_cancelled());
    flag.store(true, Ordering::Relaxed);
    assert!(token.is_cancelled() && worker.is_cancelled());
}

#[test]
fn commands_are_plain_values() {
    let command = ClientCommand::SendChat(OutboundChat::Say("ok".into()));
    assert_eq!(command.clone(), command);
    assert!(client(config(1))
        .run_with_commands(RunOptions::default())
        .takes_commands);
}

//! Settings with what may be left out.

use p99_logger_client::chat::ChannelName;
use p99_logger_client::client::settings::{Settings, SettingsError};
use p99_logger_client::client::ServerProtocol;

const SECOND: u64 = 1_000_000_000;

fn settings(server: &str) -> Settings {
    Settings {
        protocol: None,
        host: None,
        port: None,
        user: "EXAMPLE_LOGIN_ACCOUNT".into(),
        pass: "EXAMPLE_PASSWORD".into(),
        server: server.into(),
        character: "ExampleCharacter".into(),
        include_raw: None,
        channels: None,
        reconnect_seconds: None,
    }
}

fn error(settings: &Settings) -> SettingsError {
    match settings.client_config() {
        Ok(_) => panic!("the settings were accepted"),
        Err(error) => error,
    }
}

#[test]
fn connection_defaults_require_only_account_server_and_character() {
    let config = settings("Project 1999: Green (Velious, PvE)")
        .client_config()
        .unwrap_or_else(|_| panic!("the settings were refused"));
    assert_eq!(config.host, "login.eqemulator.net");
    assert_eq!(config.port, 5998);
    assert_eq!(config.reconnect_delay, 30 * SECOND);
    assert!(!config.include_raw);
    assert_eq!(config.channels, None);
    assert_eq!(config.protocol, ServerProtocol::Project1999);
    assert_eq!(config.user, "EXAMPLE_LOGIN_ACCOUNT");
    assert_eq!(config.pass, "EXAMPLE_PASSWORD");
    assert_eq!(config.server, "Project 1999: Green (Velious, PvE)");
    assert_eq!(config.character, "ExampleCharacter");
}

#[test]
fn raw_packet_logging_is_opt_in() {
    let mut settings = settings("Project 1999: Blue (Velious, PvE)");
    settings.include_raw = Some(true);
    let config = settings
        .client_config()
        .unwrap_or_else(|_| panic!("the settings were refused"));
    assert!(config.include_raw);
}

#[test]
fn settings_override_the_defaults_of_their_protocol() {
    let mut settings = settings("The Project Quarm Server Server");
    settings.protocol = Some("Quarm".into());
    let config = settings
        .client_config()
        .unwrap_or_else(|_| panic!("the settings were refused"));
    assert_eq!(config.host, "loginserver.takproject.net");
    assert_eq!(config.port, 6000);
    settings.host = Some("example.test".into());
    settings.port = Some(7);
    settings.channels = Some(vec!["auc".into(), "ooc".into(), "gu".into()]);
    settings.reconnect_seconds = Some(45);
    let config = settings
        .client_config()
        .unwrap_or_else(|_| panic!("the settings were refused"));
    assert_eq!(config.host, "example.test");
    assert_eq!(config.port, 7);
    assert_eq!(
        config.channels,
        Some(vec![
            ChannelName::Auction,
            ChannelName::Ooc,
            ChannelName::Guild
        ])
    );
    assert_eq!(config.reconnect_delay, 45 * SECOND);
    settings.reconnect_seconds = Some(u64::MAX);
    let config = settings
        .client_config()
        .unwrap_or_else(|_| panic!("the settings were refused"));
    assert_eq!(config.reconnect_delay, u64::MAX);
}

#[test]
fn unknown_names_are_refused() {
    let mut settings = settings("Test Server");
    settings.channels = Some(vec!["auction".into(), "nonsense".into(), "other".into()]);
    let refused = error(&settings);
    assert!(matches!(&refused, SettingsError::Channel(name) if name == "nonsense"));
    assert_eq!(refused.message(), "unknown channel \"nonsense\"");
    settings.protocol = Some("other".into());
    let refused = error(&settings);
    assert!(matches!(refused, SettingsError::Protocol(_)));
    assert_eq!(refused.message(), "unknown server protocol \"other\"");
}

use hussh::addr::SocketAddr;
use hussh::config::{Config, Destination, Honeypot, Rule};
use hussh::session::{AuthDecision, SshSession};
use hussh::shared::{Relay, Shared};

fn shared(log: bool) -> Shared {
    Shared::from_config(Config {
        honeypot: Honeypot { log_bruteforce_passwords: log, ..Honeypot::default() },
        rules: vec![Rule {
            username: Some("proxy".to_string()),
            ssh_keys: vec![b"key".to_vec()],
            permit: vec![Destination::from_str("*:22").unwrap()],
        }],
        ..Config::default()
    })
}

#[test]
fn public_key_authentication_sets_what_is_permitted() {
    let shared = shared(false);
    let mut s: SshSession<&str> = SshSession::new(None);
    assert_eq!(s.auth_publickey_offered(&shared, "proxy", b"key"), AuthDecision::Accept);
    assert_eq!(s.auth_publickey_offered(&shared, "other", b"key"), AuthDecision::Reject);
    assert_eq!(s.channel_open_direct_tcpip(&shared, "example.com", 22), None);
    assert_eq!(s.auth_publickey(&shared, "other", b"key"), AuthDecision::Reject);
    assert_eq!(s.channel_open_direct_tcpip(&shared, "example.com", 22), None);
    assert_eq!(s.auth_publickey(&shared, "proxy", b"key"), AuthDecision::Accept);
    assert_eq!(
        s.channel_open_direct_tcpip(&shared, "example.com", 22),
        Some(Relay { host: "example.com".to_string(), port: 22 })
    );
    assert_eq!(s.channel_open_direct_tcpip(&shared, "example.com", 23), None);
    // The port travels as 32 bits and is taken modulo 65536.
    assert_eq!(
        s.channel_open_direct_tcpip(&shared, "example.com", 65536 + 22),
        Some(Relay { host: "example.com".to_string(), port: 22 })
    );
}

#[test]
fn passwords_are_never_accepted() {
    let addr = SocketAddr::parse("192.0.2.34:56789").unwrap();
    let s: SshSession<()> = SshSession::new(Some(addr));
    let (decision, attempt) = s.auth_password("root", "123456");
    assert_eq!(decision, AuthDecision::Reject);
    assert_eq!(attempt.username, "root");
    assert_eq!(attempt.password, "123456");
    assert_eq!(attempt.src, Some(addr));
    let anonymous: SshSession<()> = SshSession::new(None);
    let (decision, attempt) = anonymous.auth_password("", "");
    assert_eq!(decision, AuthDecision::Reject);
    assert_eq!(attempt.src, None);
}

#[test]
fn pending_channels_are_taken_once() {
    let mut s: SshSession<String> = SshSession::new(None);
    s.channel_open_session(1, "one".to_string());
    s.channel_open_session(2, "two".to_string());
    assert_eq!(s.take_pending_channel(1), Some("one".to_string()));
    assert_eq!(s.take_pending_channel(1), None);
    s.channel_open_session(2, "again".to_string());
    assert_eq!(s.take_pending_channel(2), Some("again".to_string()));
    assert_eq!(s.take_pending_channel(3), None);
}

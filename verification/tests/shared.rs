use russh::keys::PublicKey;
use hussh::config::{Config, Destination, Rule};
use hussh::shared::{Relay, Shared};

fn rule(username: Option<&str>, keys: &[&[u8]], permit: &[&str]) -> Rule {
    Rule {
        username: username.map(|u| u.to_string()),
        ssh_keys: keys.iter().map(|k| k.to_vec()).collect(),
        permit: permit.iter().map(|p| Destination::from_str(p).unwrap()).collect(),
    }
}

fn config(rules: Vec<Rule>) -> Config {
    Config { rules, ..Config::default() }
}

const KEY_A: &[u8] = b"key-a";
const KEY_B: &[u8] = b"key-b";

#[test]
fn the_first_admitting_rule_decides() {
    let shared = Shared::from_config(config(vec![
        rule(Some("proxy"), &[KEY_A], &["example.com:*", "*:443"]),
        rule(None, &[KEY_A, KEY_B], &["127.0.0.1:8080"]),
        rule(None, &[KEY_B], &["*"]),
    ]));
    // Both the first and the second rule admit "proxy" with KEY_A: only the first counts.
    assert_eq!(
        shared.auth("proxy", KEY_A),
        vec![
            Destination::from_str("example.com:*").unwrap(),
            Destination::from_str("*:443").unwrap(),
        ]
    );
    // The first rule does not match another user, so the next one is tried.
    assert_eq!(
        shared.auth("other", KEY_A),
        vec![Destination::from_str("127.0.0.1:8080").unwrap()]
    );
    assert_eq!(
        shared.auth("other", KEY_B),
        vec![Destination::from_str("127.0.0.1:8080").unwrap()]
    );
    assert!(shared.may_auth("proxy", KEY_A));
    assert!(shared.may_auth("x", KEY_B));
}

#[test]
fn a_rule_that_permits_nothing_is_skipped() {
    let shared = Shared::from_config(config(vec![
        rule(None, &[KEY_A], &[]),
        rule(None, &[KEY_A], &["*:22"]),
    ]));
    assert_eq!(shared.auth("u", KEY_A), vec![Destination::PortAnywhere(22)]);
}

#[test]
fn unknown_keys_and_empty_permits_do_not_authenticate() {
    let shared = Shared::from_config(config(vec![
        rule(None, &[KEY_A], &[]),
        rule(Some("proxy"), &[KEY_B], &["*"]),
    ]));
    assert!(!shared.may_auth("proxy", KEY_A));
    assert!(shared.auth("proxy", KEY_A).is_empty());
    assert!(!shared.may_auth("someone", KEY_B));
    assert!(shared.auth("someone", KEY_B).is_empty());
    assert!(!shared.may_auth("proxy", b"key-c"));
    assert_eq!(shared.auth("proxy", KEY_B), vec![Destination::Anything]);
}

#[test]
fn may_auth_holds_exactly_when_auth_grants_something() {
    let shared = Shared::from_config(config(vec![
        rule(Some("a"), &[KEY_A], &["*:22"]),
        rule(None, &[KEY_B], &[]),
    ]));
    for user in ["a", "b"] {
        for key in [KEY_A, KEY_B, b"zz".as_slice()] {
            assert_eq!(shared.may_auth(user, key), !shared.auth(user, key).is_empty());
        }
    }
}

#[test]
fn replacing_the_config_changes_the_decisions() {
    let mut shared = Shared::from_config(Config::default());
    assert!(!shared.may_auth("a", KEY_A));
    shared.replace_config(config(vec![rule(None, &[KEY_A], &["*"])]));
    assert!(shared.may_auth("a", KEY_A));
    assert_eq!(shared.config().rules.len(), 1);
}

#[test]
fn relay_is_decided_by_address_or_host_name() {
    let shared = Shared::from_config(Config::default());
    let permitted = vec![
        Destination::from_str("127.0.0.1:22").unwrap(),
        Destination::from_str("example.com:*").unwrap(),
    ];
    let r = Relay { host: "127.0.0.1".to_string(), port: 22 };
    assert_eq!(shared.relay(r.clone(), &permitted), Some(r));
    let r = Relay { host: "127.0.0.1".to_string(), port: 23 };
    assert_eq!(shared.relay(r, &permitted), None);
    let r = Relay { host: "example.com".to_string(), port: 9 };
    assert_eq!(shared.relay(r.clone(), &permitted), Some(r));
    let r = Relay { host: "www.example.com".to_string(), port: 9 };
    assert_eq!(shared.relay(r, &permitted), None);
    let r = Relay { host: "127.000.0.1".to_string(), port: 22 };
    assert_eq!(shared.relay(r, &permitted), None);
    assert_eq!(shared.relay(Relay { host: "x".to_string(), port: 1 }, &[]), None);
}

#[test]
fn anything_permits_every_relay() {
    let shared = Shared::from_config(Config::default());
    let permitted = vec![Destination::Anything];
    for host in ["example.com", "::1", "10.0.0.1", ""] {
        let r = Relay { host: host.to_string(), port: 65535 };
        assert_eq!(shared.relay(r.clone(), &permitted), Some(r));
    }
}

#[test]
fn rule_keys_are_a_set() {
    let r = Rule::new(
        Some("u".to_string()),
        vec![KEY_B.to_vec(), KEY_A.to_vec(), KEY_B.to_vec(), KEY_A.to_vec()],
        vec![Destination::Anything],
    );
    assert_eq!(r.ssh_keys, vec![KEY_B.to_vec(), KEY_A.to_vec()]);
    assert_eq!(r.username.as_deref(), Some("u"));
    assert_eq!(r.permit, vec![Destination::Anything]);
    let empty = Rule::new(None, vec![], vec![]);
    assert!(empty.ssh_keys.is_empty());
}

#[test]
fn key_comments_play_no_part() {
    let with_comment = PublicKey::from_openssh(
        "ssh-ed25519 AAAAC3NzaC1lZDI1NTE5AAAAIAbVfiAAAAAAAAAAAAAAAAAAAAAAAAAAAAAAAAAAAAAA asdf",
    )
    .unwrap();
    let without = PublicKey::from_openssh(
        "ssh-ed25519 AAAAC3NzaC1lZDI1NTE5AAAAIAbVfiAAAAAAAAAAAAAAAAAAAAAAAAAAAAAAAAAAAAAA",
    )
    .unwrap();
    let other = PublicKey::from_openssh(
        "ssh-ed25519 AAAAC3NzaC1lZDI1NTE5AAAAIAbVfiBBBBBBBBBBBBBBBBBBBBBBBBBBBBBBBBBBBBBB",
    )
    .unwrap();
    let shared = Shared::from_config(config(vec![Rule::new(
        None,
        vec![with_comment.to_bytes().unwrap()],
        vec![Destination::Anything],
    )]));
    assert!(shared.may_auth("anyone", &without.to_bytes().unwrap()));
    assert!(!shared.may_auth("anyone", &other.to_bytes().unwrap()));
}

use hussh::addr::SocketAddr;
use hussh::config::{Config, Honeypot, Sshd};
use hussh::honeypot::{submit_step, SubmitStep, MAX_SUBMIT_ATTEMPTS};
use hussh::server::{default_bind_addr, log_filter, AuthMethod, SERVER_ID};

#[test]
fn log_filters_by_verbosity() {
    assert_eq!(log_filter(0), "hussh=info");
    assert_eq!(log_filter(1), "hussh=debug");
    assert_eq!(log_filter(2), "debug");
    assert_eq!(log_filter(3), "hussh=trace,debug");
    assert_eq!(log_filter(4), "trace");
    assert_eq!(log_filter(255), "trace");
}

#[test]
fn command_line_bind_address_wins() {
    let configured = SocketAddr::parse("[::]:22").unwrap();
    let cli = SocketAddr::parse("127.0.0.1:2222").unwrap();
    let sshd = Sshd { bind_addr: Some(configured) };
    assert_eq!(sshd.bind_addr(Some(cli)), Some(cli));
    assert_eq!(sshd.bind_addr(None), Some(configured));
    assert_eq!(Sshd::default().bind_addr(None), None);
    assert_eq!(default_bind_addr(), SocketAddr::parse("[::]:2").unwrap());
}

#[test]
fn server_identification_and_methods() {
    let plain = Honeypot::default();
    assert_eq!(plain.server_id(), SERVER_ID);
    assert_eq!(plain.auth_methods(), vec![AuthMethod::PublicKey]);
    let bait = Honeypot {
        spoof_server_id: Some("SSH-2.0-anything".to_string()),
        bait_password_bruteforce: true,
        ..Honeypot::default()
    };
    assert_eq!(bait.server_id(), "SSH-2.0-anything");
    assert_eq!(bait.auth_methods(), vec![AuthMethod::Password, AuthMethod::PublicKey]);
}

#[test]
fn password_attempts_are_discarded_unless_configured() {
    let h = Config::default().honeypot.attempt_handling();
    assert!(!h.log);
    assert_eq!(h.report_url, None);
    let h = Honeypot {
        log_bruteforce_passwords: true,
        report_url_bruteforce_passwords: Some("https://example.com/report".to_string()),
        ..Honeypot::default()
    }
    .attempt_handling();
    assert!(h.log);
    assert_eq!(h.report_url.as_deref(), Some("https://example.com/report"));
}

#[test]
fn reports_are_posted_at_most_twice() {
    assert_eq!(MAX_SUBMIT_ATTEMPTS, 2);
    assert_eq!(submit_step(0, false), SubmitStep::Post { after_delay: false });
    assert_eq!(submit_step(1, true), SubmitStep::Delivered);
    assert_eq!(submit_step(1, false), SubmitStep::Post { after_delay: true });
    assert_eq!(submit_step(2, true), SubmitStep::Delivered);
    assert_eq!(submit_step(2, false), SubmitStep::GiveUp);
}

#[test]
fn default_config_is_empty() {
    let c = Config::default();
    assert_eq!(c.sshd, Sshd::default());
    assert_eq!(c.honeypot, Honeypot::default());
    assert!(c.rules.is_empty());
}

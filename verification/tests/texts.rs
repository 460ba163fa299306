use hussh::addr::{IpAddr, SocketAddr};
use hussh::config::Destination;
use hussh::honeypot::{attempt_text, PasswordAttempt};
use hussh::shared::{relay_text, Relay};

#[test]
fn ipv4_address_text() {
    let ip = IpAddr::parse("192.0.2.99").unwrap();
    assert_eq!(ip.to_text(), "192.0.2.99");
    assert_eq!(IpAddr::V4(0).to_text(), "0.0.0.0");
    assert_eq!(IpAddr::V4(u32::MAX).to_text(), "255.255.255.255");
}

#[test]
fn ipv6_address_text_is_compressed() {
    for (text, written) in [
        ("2001:db8::1", "2001:db8::1"),
        ("2001:DB8:0:0:0:0:0:1", "2001:db8::1"),
        ("::", "::"),
        ("::1", "::1"),
        ("1::", "1::"),
        ("ffff:ffff:ffff:ffff:ffff:ffff:ffff:ffff", "ffff:ffff:ffff:ffff:ffff:ffff:ffff:ffff"),
        ("1:0:0:2:0:0:0:3", "1:0:0:2::3"),
        ("1:0:0:2:0:0:3:4", "1::2:0:0:3:4"),
        ("1:0:2:3:4:5:6:7", "1:0:2:3:4:5:6:7"),
        ("0:0:0:0:0:0:1.2.3.4", "::102:304"),
        ("::ffff:10.0.0.1", "::ffff:10.0.0.1"),
        ("0:0:0:0:0:ffff:0:0", "::ffff:0.0.0.0"),
    ] {
        let ip = IpAddr::parse(text).unwrap();
        assert_eq!(ip.to_text(), written, "{text:?}");
        assert_eq!(IpAddr::parse(&ip.to_text()).unwrap(), ip, "{text:?}");
    }
    assert_eq!(IpAddr::V6(0).to_text(), "::");
    assert_eq!(IpAddr::V6(u128::MAX).to_text(), "ffff:ffff:ffff:ffff:ffff:ffff:ffff:ffff");
}

#[test]
fn socket_address_text() {
    let a = SocketAddr::parse("127.0.0.1:22").unwrap();
    assert_eq!(a.to_text(), "127.0.0.1:22");
    let b = SocketAddr::parse("[::1]:2222").unwrap();
    assert_eq!(b.to_text(), "[::1]:2222");
    assert_eq!(SocketAddr::parse(&b.to_text()).unwrap(), b);
    let c = SocketAddr::parse("[fe80::1%3]:65535").unwrap();
    assert_eq!(c.to_text(), "[fe80::1%3]:65535");
    assert_eq!(SocketAddr::parse(&c.to_text()).unwrap(), c);
    let d = SocketAddr::V6 { ip: 1, port: 0, flowinfo: 0, scope_id: 0 };
    assert_eq!(d.to_text(), "[::1]:0");
}

#[test]
fn destination_texts_read_back() {
    for (text, written) in [
        ("*", "*"),
        ("*:*", "*"),
        ("*:22", "*:22"),
        ("*:+22", "*:22"),
        ("192.0.2.99:*", "192.0.2.99:*"),
        ("example.com:*", "example.com:*"),
        ("example.com:443", "example.com:443"),
        ("192.0.2.99:22", "192.0.2.99:22"),
        ("[2001:db8::1]:22", "[2001:db8::1]:22"),
        ("[fe80::1%7]:22", "[fe80::1%7]:22"),
        (":22", ":22"),
    ] {
        let dest = Destination::from_str(text).unwrap();
        assert_eq!(dest.to_text(), written, "{text:?}");
        assert_eq!(Destination::from_str(&dest.to_text()).unwrap(), dest, "{text:?}");
    }
}

#[test]
fn a_signed_port_after_an_address_is_written_as_a_socket_address() {
    let dest = Destination::from_str("1.2.3.4:+22").unwrap();
    assert_eq!(dest, Destination::ExactHost(("1.2.3.4".to_string(), 22)));
    assert_eq!(dest.to_text(), "1.2.3.4:22");
    let again = Destination::from_str(&dest.to_text()).unwrap();
    assert_eq!(again, Destination::ExactAddr(SocketAddr::parse("1.2.3.4:22").unwrap()));
}

#[test]
fn any_port_of_an_ipv6_address_is_written_without_brackets() {
    let dest = Destination::from_str("[2001:db8::1]:*").unwrap();
    assert_eq!(dest, Destination::IpAnyPort(IpAddr::parse("2001:db8::1").unwrap()));
    assert_eq!(dest.to_text(), "2001:db8::1:*");
    let again = Destination::from_str(&dest.to_text()).unwrap();
    assert_eq!(again, Destination::HostAnyPort("2001:db8::1".to_string()));
}

#[test]
fn relay_text_quotes_the_host() {
    let relay = Relay { host: "example.com".to_string(), port: 443 };
    assert_eq!(relay.to_text(), "\"example.com\":443");
    let odd = Relay { host: "a\"b\\c\n".to_string(), port: 0 };
    assert_eq!(odd.to_text(), "\"a\\\"b\\\\c\\n\":0");
    assert_eq!(relay_text("[q]", 65535), "[q]:65535");
}

#[test]
fn password_attempt_text() {
    let attempt = PasswordAttempt {
        username: "root".to_string(),
        password: "hunter\"2".to_string(),
        src: Some(SocketAddr::parse("[2001:db8::7]:40022").unwrap()),
    };
    assert_eq!(
        attempt.to_text(),
        "password attempt from [2001:db8::7]:40022 for user \"root\" with password \"hunter\\\"2\""
    );
    let anonymous = PasswordAttempt {
        username: String::new(),
        password: "x".to_string(),
        src: None,
    };
    assert_eq!(anonymous.to_text(), "password attempt for user \"\" with password \"x\"");
    assert_eq!(
        attempt_text(SocketAddr::parse("10.0.0.1:22").ok(), "U", "P"),
        "password attempt from 10.0.0.1:22 for user U with password P"
    );
}

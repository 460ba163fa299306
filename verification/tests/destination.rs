use hussh::config::Destination;

#[test]
fn test_destination_anything() {
    assert_eq!(Destination::from_str("*").unwrap(), Destination::Anything);
    assert_eq!(Destination::from_str("*:*").unwrap(), Destination::Anything);

    assert!(Destination::Anything.permits_host("example.com", 443));
    assert!(Destination::Anything.permits_ip("127.0.0.1".parse().unwrap(), 22));
    assert!(Destination::Anything.permits_ip("2001:db8::1".parse().unwrap(), 22));
}

#[test]
fn test_destination_port_anywhere() {
    let dest = Destination::from_str("*:22").unwrap();
    assert_eq!(dest, Destination::PortAnywhere(22));

    assert!(dest.permits_host("example.com", 22));
    assert!(!dest.permits_host("example.com", 443));

    assert!(dest.permits_ip("127.0.0.1".parse().unwrap(), 22));
    assert!(!dest.permits_ip("127.0.0.1".parse().unwrap(), 443));

    assert!(dest.permits_ip("2001:db8::1".parse().unwrap(), 22));
    assert!(!dest.permits_ip("2001:db8::1".parse().unwrap(), 443));
}

#[test]
fn test_destination_ipv4_any_port() {
    let dest = Destination::from_str("192.0.2.99:*").unwrap();
    assert_eq!(dest, Destination::IpAnyPort("192.0.2.99".parse().unwrap()));

    assert!(!dest.permits_host("example.com", 22));
    assert!(!dest.permits_host("example.com", 443));

    assert!(!dest.permits_ip("127.0.0.1".parse().unwrap(), 22));
    assert!(!dest.permits_ip("127.0.0.1".parse().unwrap(), 443));

    assert!(dest.permits_ip("192.0.2.99".parse().unwrap(), 22));
    assert!(dest.permits_ip("192.0.2.99".parse().unwrap(), 443));

    assert!(!dest.permits_ip("2001:db8::1".parse().unwrap(), 22));
    assert!(!dest.permits_ip("2001:db8::1".parse().unwrap(), 443));
}

#[test]
fn test_destination_ipv6_any_port() {
    let dest = Destination::from_str("[2001:db8::1]:*").unwrap();
    assert_eq!(dest, Destination::IpAnyPort("2001:db8::1".parse().unwrap()));

    assert!(!dest.permits_host("example.com", 22));
    assert!(!dest.permits_host("example.com", 443));

    assert!(!dest.permits_ip("127.0.0.1".parse().unwrap(), 22));
    assert!(!dest.permits_ip("127.0.0.1".parse().unwrap(), 443));

    assert!(dest.permits_ip("2001:db8::1".parse().unwrap(), 22));
    assert!(dest.permits_ip("2001:db8::1".parse().unwrap(), 443));

    assert!(dest.permits_ip(
        "2001:0db8:0000:0000:0000:0000:0000:0001".parse().unwrap(),
        22
    ));
    assert!(dest.permits_ip(
        "2001:0db8:0000:0000:0000:0000:0000:0001".parse().unwrap(),
        443
    ));

    assert!(!dest.permits_ip("2001:db8::2".parse().unwrap(), 22));
    assert!(!dest.permits_ip("2001:db8::2".parse().unwrap(), 443));
}

#[test]
fn test_destination_host_any_port() {
    let dest = Destination::from_str("example.com:*").unwrap();
    assert_eq!(dest, Destination::HostAnyPort("example.com".to_string()));

    assert!(dest.permits_host("example.com", 22));
    assert!(dest.permits_host("example.com", 443));

    assert!(!dest.permits_host(".com", 22));
    assert!(!dest.permits_host(".com", 443));

    assert!(!dest.permits_host("www.example.com", 22));
    assert!(!dest.permits_host("www.example.com", 443));

    assert!(!dest.permits_ip("127.0.0.1".parse().unwrap(), 22));
    assert!(!dest.permits_ip("127.0.0.1".parse().unwrap(), 443));

    assert!(!dest.permits_ip("192.0.2.99".parse().unwrap(), 22));
    assert!(!dest.permits_ip("192.0.2.99".parse().unwrap(), 443));

    assert!(!dest.permits_ip("2001:db8::1".parse().unwrap(), 22));
    assert!(!dest.permits_ip("2001:db8::1".parse().unwrap(), 443));
}

#[test]
fn test_destination_exact_ipv4_port() {
    let dest = Destination::from_str("127.0.0.1:22").unwrap();
    assert_eq!(
        dest,
        Destination::ExactAddr("127.0.0.1:22".parse().unwrap())
    );

    assert!(!dest.permits_host("example.com", 22));
    assert!(!dest.permits_host("example.com", 443));

    assert!(dest.permits_ip("127.0.0.1".parse().unwrap(), 22));
    assert!(!dest.permits_ip("127.0.0.1".parse().unwrap(), 443));
    assert!(!dest.permits_ip("127.0.0.2".parse().unwrap(), 22));

    assert!(!dest.permits_ip("2001:db8::1".parse().unwrap(), 22));
    assert!(!dest.permits_ip("2001:db8::1".parse().unwrap(), 443));
}

#[test]
fn test_destination_exact_ipv6_port() {
    let dest = Destination::from_str("[2001:db8::1]:22").unwrap();
    assert_eq!(
        dest,
        Destination::ExactAddr("[2001:db8::1]:22".parse().unwrap())
    );

    assert!(!dest.permits_host("example.com", 22));
    assert!(!dest.permits_host("example.com", 443));

    assert!(!dest.permits_ip("127.0.0.1".parse().unwrap(), 22));
    assert!(!dest.permits_ip("127.0.0.1".parse().unwrap(), 443));

    assert!(dest.permits_ip("2001:db8::1".parse().unwrap(), 22));
    assert!(dest.permits_ip(
        "2001:0db8:0000:0000:0000:0000:0000:0001".parse().unwrap(),
        22
    ));
    assert!(!dest.permits_ip("2001:db8::1".parse().unwrap(), 443));
    assert!(!dest.permits_ip("2001:db8::2".parse().unwrap(), 22));
}

#[test]
fn test_destination_exact_host_port() {
    let dest = Destination::from_str("example.com:443").unwrap();
    assert_eq!(
        dest,
        Destination::ExactHost(("example.com".to_string(), 443))
    );

    assert!(!dest.permits_host("example.com", 22));
    assert!(dest.permits_host("example.com", 443));
    assert!(!dest.permits_host("com", 443));
    assert!(!dest.permits_host("www.example.com", 443));

    assert!(!dest.permits_ip("127.0.0.1".parse().unwrap(), 22));
    assert!(!dest.permits_ip("127.0.0.1".parse().unwrap(), 443));

    assert!(!dest.permits_ip("2001:db8::1".parse().unwrap(), 22));
    assert!(!dest.permits_ip("2001:db8::1".parse().unwrap(), 443));
}

use hussh::addr::{IpAddr, SocketAddr};
use hussh::config::{Destination, DestinationError};

#[test]
fn bad_ipv6_in_brackets_is_an_address_error() {
    assert_eq!(Destination::from_str("[nope]:*"), Err(DestinationError::InvalidIpv6Address));
    assert_eq!(Destination::from_str("[]:*"), Err(DestinationError::InvalidIpv6Address));
}

#[test]
fn bad_ports_are_port_errors() {
    assert_eq!(Destination::from_str("*:65536"), Err(DestinationError::InvalidPort));
    assert_eq!(Destination::from_str("*:http"), Err(DestinationError::InvalidPort));
    assert_eq!(Destination::from_str("example.com:x"), Err(DestinationError::InvalidPort));
    assert_eq!(Destination::from_str("example.com:"), Err(DestinationError::InvalidPort));
}

#[test]
fn text_without_colon_is_not_a_destination() {
    assert_eq!(Destination::from_str("example.com"), Err(DestinationError::InvalidDestination));
    assert_eq!(Destination::from_str(""), Err(DestinationError::InvalidDestination));
}

#[test]
fn edge_forms() {
    assert_eq!(Destination::from_str("*:+22"), Ok(Destination::PortAnywhere(22)));
    assert_eq!(Destination::from_str(":*"), Ok(Destination::HostAnyPort(String::new())));
    assert_eq!(Destination::from_str("1.2.3:*"), Ok(Destination::HostAnyPort("1.2.3".to_string())));
    assert_eq!(
        Destination::from_str("::1:22"),
        Ok(Destination::ExactHost(("::1".to_string(), 22)))
    );
    assert_eq!(
        Destination::from_str("[fe80::1%3]:22"),
        Ok(Destination::ExactAddr(SocketAddr::V6 {
            ip: 0xfe80 << 112 | 1,
            port: 22,
            flowinfo: 0,
            scope_id: 3
        }))
    );
    assert_eq!(
        Destination::from_str("[::]:*"),
        Ok(Destination::IpAnyPort(IpAddr::V6(0)))
    );
    let parsed: Destination = "*:443".parse().unwrap();
    assert_eq!(parsed, Destination::PortAnywhere(443));
}

#[test]
fn scoped_exact_address_never_matches_an_unscoped_connection() {
    let dest = Destination::from_str("[fe80::1%3]:22").unwrap();
    assert!(!dest.permits_ip("fe80::1".parse().unwrap(), 22));
}

#[test]
fn clone_keeps_the_destination() {
    let dest = Destination::from_str("example.com:443").unwrap();
    assert_eq!(dest.clone(), dest);
}

use hussh::addr::{IpAddr, SocketAddr};

fn v4(a: u8, b: u8, c: u8, d: u8) -> Option<IpAddr> {
    Some(IpAddr::V4(u32::from_be_bytes([a, b, c, d])))
}

fn v6(g: [u16; 8]) -> Option<IpAddr> {
    Some(IpAddr::V6(g.iter().fold(0u128, |acc, x| acc << 16 | *x as u128)))
}

#[test]
fn ipv4_texts() {
    assert_eq!(IpAddr::parse("127.0.0.1").ok(), v4(127, 0, 0, 1));
    assert_eq!(IpAddr::parse("0.0.0.0").ok(), v4(0, 0, 0, 0));
    assert_eq!(IpAddr::parse("255.255.255.255").ok(), v4(255, 255, 255, 255));
    for bad in [
        "256.0.0.1", "01.2.3.4", "1.2.3", "1.2.3.4.5", "1.2.3.04", "1..2.3", "", ".", "1.2.3.4 ",
        " 1.2.3.4", "+1.2.3.4", "1234.1.1.1", "1.2.3.-4",
    ] {
        assert_eq!(IpAddr::parse(bad).ok(), None, "{bad:?}");
    }
}

#[test]
fn ipv6_texts() {
    assert_eq!(IpAddr::parse("::").ok(), v6([0; 8]));
    assert_eq!(IpAddr::parse("::1").ok(), v6([0, 0, 0, 0, 0, 0, 0, 1]));
    assert_eq!(IpAddr::parse("1::").ok(), v6([1, 0, 0, 0, 0, 0, 0, 0]));
    assert_eq!(IpAddr::parse("1:2:3:4:5:6:7:8").ok(), v6([1, 2, 3, 4, 5, 6, 7, 8]));
    assert_eq!(IpAddr::parse("1:2:3:4:5:6:7::").ok(), v6([1, 2, 3, 4, 5, 6, 7, 0]));
    assert_eq!(IpAddr::parse("::1:2:3:4:5:6:7").ok(), v6([0, 1, 2, 3, 4, 5, 6, 7]));
    assert_eq!(IpAddr::parse("::ffff:1.2.3.4").ok(), v6([0, 0, 0, 0, 0, 0xffff, 0x0102, 0x0304]));
    assert_eq!(IpAddr::parse("::1.2.3.4").ok(), v6([0, 0, 0, 0, 0, 0, 0x0102, 0x0304]));
    assert_eq!(IpAddr::parse("1:2:3:4:5:6:1.2.3.4").ok(), v6([1, 2, 3, 4, 5, 6, 0x0102, 0x0304]));
    assert_eq!(IpAddr::parse("1:2:3:4:5::1.2.3.4").ok(), v6([1, 2, 3, 4, 5, 0, 0x0102, 0x0304]));
    assert_eq!(IpAddr::parse("ABCD:ef01::").ok(), v6([0xabcd, 0xef01, 0, 0, 0, 0, 0, 0]));
    assert_eq!(IpAddr::parse("0:0:0:0:0:0:0:0").ok(), v6([0; 8]));
    assert_eq!(
        IpAddr::parse("abcd:ABCD:0:1:2:3:4:ffff").ok(),
        v6([0xabcd, 0xabcd, 0, 1, 2, 3, 4, 0xffff])
    );
    assert_eq!(
        IpAddr::parse("0001:0002:0003:0004:0005:0006:0007:0008").ok(),
        v6([1, 2, 3, 4, 5, 6, 7, 8])
    );
    for bad in [
        "1:2:3:4:5:6:7", "1:2:3:4:5:6:7:8:9", "1::2::3", ":::", ":1::2", "1:::2", "12345::",
        "1:2:3:4:5:6:7:1.2.3.4", "1.2.3.4::", "1:2:3:4:5:6::1.2.3.4", "g::1", "::1.2.3",
        "fe80::1%2", "[::1]", "1:2:3:4:5:6:7:8::", "::1.2.3.4:5", "::01.2.3.4", ":", "1:",
    ] {
        assert_eq!(IpAddr::parse(bad).ok(), None, "{bad:?}");
    }
}

#[test]
fn socket_texts() {
    let s4 = |ip: u32, port: u16| Some(SocketAddr::V4 { ip, port });
    let s6 = |ip: u128, port: u16, scope_id: u32| {
        Some(SocketAddr::V6 { ip, port, flowinfo: 0, scope_id })
    };
    assert_eq!(SocketAddr::parse("127.0.0.1:22").ok(), s4(0x7f00_0001, 22));
    assert_eq!(SocketAddr::parse("127.0.0.1:65535").ok(), s4(0x7f00_0001, 65535));
    assert_eq!(SocketAddr::parse("127.0.0.1:0022").ok(), s4(0x7f00_0001, 22));
    assert_eq!(SocketAddr::parse("[::1]:22").ok(), s6(1, 22, 0));
    assert_eq!(
        SocketAddr::parse("[2001:db8::1]:22").ok(),
        s6(0x2001_0db8_0000_0000_0000_0000_0000_0001, 22, 0)
    );
    assert_eq!(SocketAddr::parse("[fe80::1%2]:22").ok(), s6(0xfe80 << 112 | 1, 22, 2));
    assert_eq!(
        SocketAddr::parse("[fe80::1%4294967295]:1").ok(),
        s6(0xfe80 << 112 | 1, 1, u32::MAX)
    );
    for bad in [
        "127.0.0.1:65536", "127.0.0.1:", "127.0.0.1:+22", "127.0.0.1", "[::1]", "[::1]:", "::1:22",
        "[fe80::1%]:22", "[fe80::1%4294967296]:1", "[::1]:22:", "[1.2.3.4]:22", "example.com:443",
        "[::1]x:22", "[::1%x]:22",
    ] {
        assert_eq!(SocketAddr::parse(bad).ok(), None, "{bad:?}");
    }
}

#[test]
fn ipv4_value_is_big_endian() {
    assert_eq!(IpAddr::parse("192.0.2.99"), Ok(IpAddr::V4(0xc000_0263)));
    assert_eq!(IpAddr::parse("01.0.0.0").is_err(), true);
}

#[test]
fn ipv6_compressed_and_full_forms_agree() {
    let a = IpAddr::parse("2001:db8::1").unwrap();
    let b = IpAddr::parse("2001:0db8:0000:0000:0000:0000:0000:0001").unwrap();
    assert_eq!(a, b);
    assert_eq!(a, IpAddr::V6(0x2001_0db8_0000_0000_0000_0000_0000_0001));
    assert_eq!(IpAddr::parse("::ffff:1.2.3.4"), Ok(IpAddr::V6(0xffff_0102_0304)));
}

#[test]
fn socket_addr_parts() {
    let a = SocketAddr::parse("[fe80::1%2]:22").unwrap();
    assert_eq!(a.port(), 22);
    assert_eq!(a.ip(), IpAddr::V6(0xfe80_0000_0000_0000_0000_0000_0000_0001));
    assert_eq!(a, SocketAddr::V6 { ip: 0xfe80 << 112 | 1, port: 22, flowinfo: 0, scope_id: 2 });
    assert_ne!(a, SocketAddr::new(a.ip(), 22));
    assert_eq!(
        SocketAddr::new(IpAddr::V4(0x7f00_0001), 22),
        SocketAddr::parse("127.0.0.1:22").unwrap()
    );
    assert!(IpAddr::V4(1).is_ipv4());
    assert!(!IpAddr::V6(1).is_ipv4());
}

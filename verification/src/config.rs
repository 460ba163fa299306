//! The daemon's configuration: SSH daemon settings, honeypot settings and the
//! ordered list of access rules, each permitting a set of relay destinations.
use crate::addr::{
    ip_text, ipv4_octets, ipv4_text, ipv6_text, lemma_ipv4_and_ipv6_texts_are_disjoint,
    lemma_ipv4_text_roundtrip, lemma_ipv6_text_roundtrip,
    lemma_socket_text_roundtrip, parse_ipv4_range, parse_ipv6_range, parse_socket_range,
    parse_u16_range, socket_text, spec_parse_ipv4, spec_parse_ipv6, spec_parse_socket,
    spec_parse_u16, spec_socket_of, IpAddr, SocketAddr,
};
use crate::text::{
    chars_of, dec_text, ends_with, is_dec_digit, is_hex_digit, lemma_dec_text, lemma_digits_text_chars,
    lemma_rfind_char, lemma_rfind_char_before, push_digits, push_str, rfind_char, rfind_in_range, starts_with,
    str_eq,
};
use vstd::prelude::*;
use vstd::string::*;

verus! {

/// A destination that a rule permits relaying to.
#[derive(Debug, PartialEq, Eq)]
pub enum Destination {
    /// One socket address.
    ExactAddr(SocketAddr),
    /// One host name and port.
    ExactHost((String, u16)),
    /// Any port of one IP address.
    IpAnyPort(IpAddr),
    /// Any port of one host name.
    HostAnyPort(String),
    /// One port of any host.
    PortAnywhere(u16),
    /// Anything at all.
    Anything,
}

/// A destination as a mathematical value.
pub enum DestinationView {
    ExactAddr(SocketAddr),
    ExactHost(Seq<char>, u16),
    IpAnyPort(IpAddr),
    HostAnyPort(Seq<char>),
    PortAnywhere(u16),
    Anything,
}

impl View for Destination {
    type V = DestinationView;

    open spec fn view(&self) -> DestinationView {
        match self {
            Destination::ExactAddr(a) => DestinationView::ExactAddr(*a),
            Destination::ExactHost((h, p)) => DestinationView::ExactHost(h@, *p),
            Destination::IpAnyPort(ip) => DestinationView::IpAnyPort(*ip),
            Destination::HostAnyPort(h) => DestinationView::HostAnyPort(h@),
            Destination::PortAnywhere(p) => DestinationView::PortAnywhere(*p),
            Destination::Anything => DestinationView::Anything,
        }
    }
}

/// Why a text is not a destination.
#[derive(Clone, Copy, Debug, PartialEq, Eq, Structural)]
pub enum DestinationError {
    /// `[...]:*` with something between the brackets that is not an IPv6 address.
    InvalidIpv6Address,
    /// `*:port` or `host:port` with a port that is not a number from 0 to 65535.
    InvalidPort,
    /// Text of none of the destination forms.
    InvalidDestination,
}

/// The destination that the text `s` denotes, or why it denotes none.
///
/// `*` and `*:*` permit anything; `X:*` permits any port of `X`, an IPv6
/// address in brackets, an IPv4 address, or else a host name; `*:P` permits
/// port `P` anywhere; a socket address permits exactly itself; any other
/// `host:P` (split at the last colon) permits port `P` of that host name.
pub open spec fn spec_parse_destination(s: Seq<char>) -> Result<DestinationView, DestinationError> {
    if s == seq!['*'] || s == seq!['*', ':', '*'] {
        Ok(DestinationView::Anything)
    } else if ends_with(s, seq![':', '*']) {
        let t = s.subrange(0, s.len() - 2);
        if t.len() >= 2 && t[0] == '[' && t[t.len() - 1] == ']' {
            match spec_parse_ipv6(t.subrange(1, t.len() - 1)) {
                Some(v) => Ok(DestinationView::IpAnyPort(IpAddr::V6(v))),
                None => Err(DestinationError::InvalidIpv6Address),
            }
        } else {
            match spec_parse_ipv4(t) {
                Some(v) => Ok(DestinationView::IpAnyPort(IpAddr::V4(v))),
                None => Ok(DestinationView::HostAnyPort(t)),
            }
        }
    } else if starts_with(s, seq!['*', ':']) {
        match spec_parse_u16(s.subrange(2, s.len() as int)) {
            Some(p) => Ok(DestinationView::PortAnywhere(p)),
            None => Err(DestinationError::InvalidPort),
        }
    } else {
        match spec_parse_socket(s) {
            Some(a) => Ok(DestinationView::ExactAddr(a)),
            None => match rfind_char(s, ':') {
                Some(i) => match spec_parse_u16(s.subrange(i + 1, s.len() as int)) {
                    Some(p) => Ok(DestinationView::ExactHost(s.subrange(0, i), p)),
                    None => Err(DestinationError::InvalidPort),
                },
                None => Err(DestinationError::InvalidDestination),
            },
        }
    }
}

/// Whether destination `d` permits a connection to `ip` at `port`.
pub open spec fn spec_permits_ip(d: DestinationView, ip: IpAddr, port: u16) -> bool {
    match d {
        DestinationView::ExactAddr(a) => a == spec_socket_of(ip, port),
        DestinationView::ExactHost(_, _) => false,
        DestinationView::IpAnyPort(dest_ip) => dest_ip == ip,
        DestinationView::HostAnyPort(_) => false,
        DestinationView::PortAnywhere(p) => p == port,
        DestinationView::Anything => true,
    }
}

/// Whether destination `d` permits a connection to the host name `host` at `port`.
pub open spec fn spec_permits_host(d: DestinationView, host: Seq<char>, port: u16) -> bool {
    match d {
        DestinationView::ExactAddr(_) => false,
        DestinationView::ExactHost(h, p) => h == host && p == port,
        DestinationView::IpAnyPort(_) => false,
        DestinationView::HostAnyPort(h) => h == host,
        DestinationView::PortAnywhere(p) => p == port,
        DestinationView::Anything => true,
    }
}

impl Clone for Destination {
    fn clone(&self) -> (r: Destination)
        ensures
            r@ == self@,
    {
        match self {
            Destination::ExactAddr(a) => Destination::ExactAddr(*a),
            Destination::ExactHost((h, p)) => Destination::ExactHost((h.clone(), *p)),
            Destination::IpAnyPort(ip) => Destination::IpAnyPort(*ip),
            Destination::HostAnyPort(h) => Destination::HostAnyPort(h.clone()),
            Destination::PortAnywhere(p) => Destination::PortAnywhere(*p),
            Destination::Anything => Destination::Anything,
        }
    }
}

impl Destination {
    /// Reads a destination from its text.
    pub fn from_str(s: &str) -> (r: Result<Destination, DestinationError>)
        ensures
            match spec_parse_destination(s@) {
                Ok(d) => r is Ok && r->Ok_0@ == d,
                Err(e) => r == Err::<Destination, DestinationError>(e),
            },
    {
        let v = chars_of(s);
        let n = v.len();
        proof {
            assert(v@.subrange(0, n as int) =~= s@);
        }
        if (n == 1 && v[0] == '*') || (n == 3 && v[0] == '*' && v[1] == ':' && v[2] == '*') {
            assert(s@ =~= seq!['*'] || s@ =~= seq!['*', ':', '*']);
            return Ok(Destination::Anything);
        }
        assert(s@ != seq!['*'] && s@ != seq!['*', ':', '*']) by {
            if s@ == seq!['*'] {
                assert(s@[0] == '*');
            }
            if s@ == seq!['*', ':', '*'] {
                assert(s@[0] == '*' && s@[1] == ':' && s@[2] == '*');
            }
        }
        if n >= 2 && v[n - 2] == ':' && v[n - 1] == '*' {
            assert(s@.subrange(n - 2, n as int) =~= seq![':', '*']);
            let ghost t = s@.subrange(0, n - 2);
            let m = n - 2;
            if m >= 2 && v[0] == '[' && v[m - 1] == ']' {
                assert(t.subrange(1, t.len() - 1) =~= v@.subrange(1, m - 1));
                return match parse_ipv6_range(&v, 1, m - 1) {
                    Some(ip) => Ok(Destination::IpAnyPort(IpAddr::V6(ip))),
                    None => Err(DestinationError::InvalidIpv6Address),
                };
            }
            assert(!(t.len() >= 2 && t[0] == '[' && t[t.len() - 1] == ']'));
            assert(t =~= v@.subrange(0, m as int));
            return match parse_ipv4_range(&v, 0, m) {
                Some(ip) => Ok(Destination::IpAnyPort(IpAddr::V4(ip))),
                None => {
                    let host = String::from_str(s.substring_char(0, m));
                    Ok(Destination::HostAnyPort(host))
                },
            };
        }
        assert(!ends_with(s@, seq![':', '*'])) by {
            if ends_with(s@, seq![':', '*']) {
                assert(s@.subrange(n - 2, n as int)[0] == ':');
                assert(s@.subrange(n - 2, n as int)[1] == '*');
            }
        }
        if n >= 2 && v[0] == '*' && v[1] == ':' {
            assert(s@.subrange(0, 2) =~= seq!['*', ':']);
            return match parse_u16_range(&v, 2, n) {
                Some(p) => Ok(Destination::PortAnywhere(p)),
                None => Err(DestinationError::InvalidPort),
            };
        }
        assert(!starts_with(s@, seq!['*', ':'])) by {
            if starts_with(s@, seq!['*', ':']) {
                assert(s@.subrange(0, 2)[0] == '*');
                assert(s@.subrange(0, 2)[1] == ':');
            }
        }
        if let Some(a) = parse_socket_range(&v, 0, n) {
            return Ok(Destination::ExactAddr(a));
        }
        match rfind_in_range(&v, 0, n, ':') {
            Some(i) => {
                assert(v@.subrange(i + 1, n as int) =~= s@.subrange(i + 1, s@.len() as int));
                match parse_u16_range(&v, i + 1, n) {
                    Some(p) => {
                        let host = String::from_str(s.substring_char(0, i));
                        Ok(Destination::ExactHost((host, p)))
                    },
                    None => Err(DestinationError::InvalidPort),
                }
            },
            None => Err(DestinationError::InvalidDestination),
        }
    }

    /// Whether this destination permits a connection to `ip` at `port`.
    pub fn permits_ip(&self, ip: IpAddr, port: u16) -> (r: bool)
        ensures
            r == spec_permits_ip(self@, ip, port),
    {
        match self {
            Destination::ExactAddr(addr) => *addr == SocketAddr::new(ip, port),
            Destination::ExactHost(_) => false,
            Destination::IpAnyPort(dest_ip) => *dest_ip == ip,
            Destination::HostAnyPort(_) => false,
            Destination::PortAnywhere(dest_port) => *dest_port == port,
            Destination::Anything => true,
        }
    }

    /// Whether this destination permits a connection to the host name `host` at `port`.
    pub fn permits_host(&self, host: &str, port: u16) -> (r: bool)
        ensures
            r == spec_permits_host(self@, host@, port),
    {
        match self {
            Destination::ExactAddr(_) => false,
            Destination::ExactHost((dest_host, dest_port)) => str_eq(dest_host.as_str(), host)
                && *dest_port == port,
            Destination::IpAnyPort(_) => false,
            Destination::HostAnyPort(dest_host) => str_eq(dest_host.as_str(), host),
            Destination::PortAnywhere(dest_port) => *dest_port == port,
            Destination::Anything => true,
        }
    }
}

impl core::str::FromStr for Destination {
    type Err = DestinationError;

    fn from_str(s: &str) -> (r: Result<Destination, DestinationError>)
        ensures
            match spec_parse_destination(s@) {
                Ok(d) => r is Ok && r->Ok_0@ == d,
                Err(e) => r == Err::<Destination, DestinationError>(e),
            },
    {
        Destination::from_str(s)
    }
}


/// The text of a destination: a socket address; `host:port`; `ip:*` (an IPv6
/// address too is written without brackets); `host:*`; `*:port`; `*`.
pub open spec fn spec_destination_text(d: DestinationView) -> Seq<char> {
    match d {
        DestinationView::ExactAddr(a) => socket_text(a),
        DestinationView::ExactHost(h, p) => h + seq![':'] + dec_text(p as nat),
        DestinationView::IpAnyPort(ip) => ip_text(ip) + seq![':', '*'],
        DestinationView::HostAnyPort(h) => h + seq![':', '*'],
        DestinationView::PortAnywhere(p) => seq!['*', ':'] + dec_text(p as nat),
        DestinationView::Anything => seq!['*'],
    }
}

impl Destination {
    /// The text of this destination.
    pub fn to_text(&self) -> (r: String)
        ensures
            r@ == spec_destination_text(self@),
    {
        proof {
            reveal_strlit(":");
            reveal_strlit(":*");
            reveal_strlit("*:");
            reveal_strlit("*");
        }
        let mut out = String::new();
        match self {
            Destination::ExactAddr(a) => {
                let t = a.to_text();
                push_str(&mut out, t.as_str());
            },
            Destination::ExactHost((h, p)) => {
                push_str(&mut out, h.as_str());
                push_str(&mut out, ":");
                push_digits(&mut out, *p as u64, 10);
            },
            Destination::IpAnyPort(ip) => {
                let t = ip.to_text();
                push_str(&mut out, t.as_str());
                push_str(&mut out, ":*");
            },
            Destination::HostAnyPort(h) => {
                push_str(&mut out, h.as_str());
                push_str(&mut out, ":*");
            },
            Destination::PortAnywhere(p) => {
                push_str(&mut out, "*:");
                push_digits(&mut out, *p as u64, 10);
            },
            Destination::Anything => {
                push_str(&mut out, "*");
            },
        }
        assert(out@ =~= spec_destination_text(self@));
        out
    }
}

/// Neither of the whole-text forms `*` and `*:*`, nor ending in `:*`, nor
/// opening with `*:`.
spec fn plain_form(t: Seq<char>) -> bool {
    &&& t != seq!['*']
    &&& t != seq!['*', ':', '*']
    &&& !ends_with(t, seq![':', '*'])
    &&& !starts_with(t, seq!['*', ':'])
}

/// Text that opens with neither `*` nor `:` and closes with a digit has the
/// plain form.
proof fn lemma_plain_form(t: Seq<char>)
    requires
        t.len() >= 2,
        t[0] != '*',
        is_dec_digit(t.last()),
    ensures
        plain_form(t),
{
    assert(t != seq!['*'] && t != seq!['*', ':', '*']) by {
        if t == seq!['*'] || t == seq!['*', ':', '*'] {
            assert(t[0] == '*');
        }
    }
    assert(!ends_with(t, seq![':', '*'])) by {
        if ends_with(t, seq![':', '*']) {
            assert(t.subrange(t.len() - 2, t.len() as int)[1] == t.last());
        }
    }
    assert(!starts_with(t, seq!['*', ':'])) by {
        if starts_with(t, seq!['*', ':']) {
            assert(t.subrange(0, 2)[0] == t[0]);
        }
    }
}

proof fn lemma_exact_addr_text(a: SocketAddr)
    requires
        a matches SocketAddr::V6 { flowinfo, .. } ==> flowinfo == 0,
    ensures
        spec_parse_destination(socket_text(a)) == Ok::<DestinationView, DestinationError>(
            DestinationView::ExactAddr(a),
        ),
{
    let t = socket_text(a);
    lemma_socket_text_roundtrip(a);
    lemma_plain_form(t);
}

proof fn lemma_exact_host_text(s: Seq<char>, h: Seq<char>, p: u16)
    requires
        plain_form(s),
        rfind_char(s, ':') is Some,
        h == s.subrange(0, rfind_char(s, ':')->0),
    ensures
        ({
            let t = h + seq![':'] + dec_text(p as nat);
            spec_parse_destination(t) == Ok::<DestinationView, DestinationError>(
                DestinationView::ExactHost(h, p),
            ) || spec_parse_socket(t) is Some
        }),
{
    let t = h + seq![':'] + dec_text(p as nat);
    let dd = dec_text(p as nat);
    let i = rfind_char(s, ':')->0;
    lemma_rfind_char(s, ':');
    lemma_dec_text(p as nat);
    assert(is_dec_digit(dd[0]) && is_dec_digit(dd[dd.len() - 1]));
    assert(t.last() == dd.last());
    assert(t != seq!['*'] && t != seq!['*', ':', '*']) by {
        if t == seq!['*'] {
            assert(t.len() == 1);
        }
        if t == seq!['*', ':', '*'] {
            assert(t[2] == '*');
        }
    }
    assert(!ends_with(t, seq![':', '*'])) by {
        if ends_with(t, seq![':', '*']) {
            assert(t.subrange(t.len() - 2, t.len() as int)[1] == t.last());
        }
    }
    assert(!starts_with(t, seq!['*', ':'])) by {
        if starts_with(t, seq!['*', ':']) {
            assert(t.subrange(0, 2)[0] == t[0] && t.subrange(0, 2)[1] == t[1]);
            if h.len() >= 1 {
                assert(s[0] == h[0]);
                if h.len() >= 2 {
                    assert(s[1] == h[1]);
                } else {
                    assert(s[1] == ':');
                }
                assert(s.subrange(0, 2) =~= seq!['*', ':']);
            } else {
                assert(t[0] == ':');
            }
        }
    }
    if spec_parse_socket(t) is None {
        lemma_digits_text_chars(p as nat, 10, ':');
        lemma_rfind_char_before(h, ':', dd);
        assert(t.subrange(0, h.len() as int) =~= h);
        assert(t.subrange(h.len() as int + 1, t.len() as int) =~= dd);
        assert(dd[0] != '+');
    }
}

proof fn lemma_ip_any_port_text(ip: IpAddr)
    ensures
        spec_parse_destination(spec_destination_text(DestinationView::IpAnyPort(ip))) == match ip {
            IpAddr::V4(_) => Ok::<DestinationView, DestinationError>(DestinationView::IpAnyPort(ip)),
            IpAddr::V6(v) => Ok::<DestinationView, DestinationError>(
                DestinationView::HostAnyPort(ipv6_text(v)),
            ),
        },
{
    let t = spec_destination_text(DestinationView::IpAnyPort(ip));
    match ip {
        IpAddr::V4(v) => {
            let x = ipv4_text(v);
            lemma_ipv4_text_roundtrip(v);
            lemma_dec_text(ipv4_octets(v)[0]);
            assert(t[0] == x[0]);
            assert(x[0] == dec_text(ipv4_octets(v)[0])[0]);
            assert(t != seq!['*'] && t != seq!['*', ':', '*']) by {
                if t == seq!['*'] || t == seq!['*', ':', '*'] {
                    assert(t[0] == '*');
                }
            }
            assert(t.subrange(t.len() - 2, t.len() as int) =~= seq![':', '*']);
            assert(t.subrange(0, t.len() - 2) =~= x);
        },
        IpAddr::V6(v) => {
            let x = ipv6_text(v);
            lemma_ipv6_text_roundtrip(v);
            lemma_ipv4_and_ipv6_texts_are_disjoint(x);
            assert(t[0] != '*') by {
                if x.len() > 0 {
                    assert(t[0] == x[0]);
                    assert(x[0] == ':' || x[0] == '.' || is_hex_digit(x[0]));
                } else {
                    assert(t[0] == ':');
                }
            }
            assert(t != seq!['*'] && t != seq!['*', ':', '*']) by {
                if t == seq!['*'] || t == seq!['*', ':', '*'] {
                    assert(t[0] == '*');
                }
            }
            assert(t.subrange(t.len() - 2, t.len() as int) =~= seq![':', '*']);
            let y = t.subrange(0, t.len() - 2);
            assert(y =~= x);
            if y.len() >= 2 {
                assert(y[0] == ':' || y[0] == '.' || is_hex_digit(y[0]));
            }
        },
    }
}

proof fn lemma_port_anywhere_text(p: u16)
    ensures
        spec_parse_destination(seq!['*', ':'] + dec_text(p as nat)) == Ok::<
            DestinationView,
            DestinationError,
        >(DestinationView::PortAnywhere(p)),
{
    let dd = dec_text(p as nat);
    let t = seq!['*', ':'] + dd;
    lemma_dec_text(p as nat);
    assert(is_dec_digit(dd[0]) && is_dec_digit(dd[dd.len() - 1]));
    assert(t[2] == dd[0]);
    assert(t.last() == dd.last());
    assert(t != seq!['*'] && t != seq!['*', ':', '*']) by {
        if t == seq!['*'] {
            assert(t.len() == 1);
        }
        if t == seq!['*', ':', '*'] {
            assert(t[2] == '*');
        }
    }
    assert(!ends_with(t, seq![':', '*'])) by {
        if ends_with(t, seq![':', '*']) {
            assert(t.subrange(t.len() - 2, t.len() as int)[1] == t.last());
        }
    }
    assert(t.subrange(0, 2) =~= seq!['*', ':']);
    assert(t.subrange(2, t.len() as int) =~= dd);
    assert(dd[0] != '+');
}

/// A destination read from a text is written as a text that reads back as the
/// same destination, with two exceptions. A host and port whose text is a
/// socket address: a host that is itself an address, with a port written with
/// a sign, as in `1.2.3.4:+22`, is written `1.2.3.4:22`, which names the
/// socket address. And any port of an IPv6 address, written without brackets
/// as in `2001:db8::1:*`, which reads as any port of that host name.
pub proof fn lemma_destination_text_roundtrip(s: Seq<char>, d: DestinationView)
    requires
        spec_parse_destination(s) == Ok::<DestinationView, DestinationError>(d),
    ensures
        spec_parse_destination(spec_destination_text(d)) == Ok::<DestinationView, DestinationError>(d)
            || (d is ExactHost && spec_parse_socket(spec_destination_text(d)) is Some) || (
        d matches DestinationView::IpAnyPort(IpAddr::V6(v)) && spec_parse_destination(
            spec_destination_text(d),
        ) == Ok::<DestinationView, DestinationError>(DestinationView::HostAnyPort(ipv6_text(v)))),
{
    match d {
        DestinationView::Anything => {
            assert(spec_destination_text(d) =~= seq!['*']);
        },
        DestinationView::ExactAddr(a) => {
            assert(spec_parse_socket(s) == Some(a));
            lemma_exact_addr_text(a);
        },
        DestinationView::ExactHost(h, p) => {
            assert(plain_form(s));
            lemma_exact_host_text(s, h, p);
        },
        DestinationView::IpAnyPort(ip) => {
            lemma_ip_any_port_text(ip);
        },
        DestinationView::HostAnyPort(h) => {
            assert(ends_with(s, seq![':', '*']));
            assert(spec_destination_text(d) =~= s);
        },
        DestinationView::PortAnywhere(p) => {
            lemma_port_anywhere_text(p);
        },
    }
}

proof fn lemma_any_port_of_an_ipv6_address(x: Seq<char>)
    requires
        spec_parse_ipv6(x) is Some,
    ensures
        spec_parse_destination(seq!['['] + x + seq![']', ':', '*']) == Ok::<
            DestinationView,
            DestinationError,
        >(DestinationView::IpAnyPort(IpAddr::V6(spec_parse_ipv6(x)->0))),
{
    let s6 = seq!['['] + x + seq![']', ':', '*'];
    assert(s6[0] == '[');
    assert(s6 != seq!['*'] && s6 != seq!['*', ':', '*']) by {
        if s6 == seq!['*'] || s6 == seq!['*', ':', '*'] {
            assert(s6[0] == '*');
        }
    }
    assert(s6.subrange(s6.len() - 2, s6.len() as int) =~= seq![':', '*']);
    let t = s6.subrange(0, s6.len() - 2);
    assert(t =~= seq!['['] + x + seq![']']);
    assert(t[t.len() - 1] == ']');
    assert(t.subrange(1, t.len() - 1) =~= x);
}

proof fn lemma_any_port_of_an_ipv4_address(x: Seq<char>)
    requires
        spec_parse_ipv4(x) is Some,
    ensures
        spec_parse_destination(x + seq![':', '*']) == Ok::<DestinationView, DestinationError>(
            DestinationView::IpAnyPort(IpAddr::V4(spec_parse_ipv4(x)->0)),
        ),
{
    let s4 = x + seq![':', '*'];
    crate::addr::lemma_ipv4_chars(x);
    assert(x.len() > 0) by {
        if x.len() == 0 {
            assert(crate::text::split(x, '.') =~= seq![Seq::<char>::empty()]);
        }
    }
    assert(s4[0] == x[0]);
    assert(x[0] == '.' || is_dec_digit(x[0]));
    assert(s4 != seq!['*'] && s4 != seq!['*', ':', '*']) by {
        if s4 == seq!['*'] || s4 == seq!['*', ':', '*'] {
            assert(s4[0] == '*');
        }
    }
    assert(s4.subrange(s4.len() - 2, s4.len() as int) =~= seq![':', '*']);
    assert(s4.subrange(0, s4.len() - 2) =~= x);
}

/// `[X]:*` with an IPv6 address `X` in the brackets is any port of that IPv6
/// address, and `X:*` with an IPv4 address `X` any port of that IPv4
/// address: which kind of address it is follows the text's form, whatever
/// the address's value.
pub proof fn lemma_any_port_of_an_address(x: Seq<char>)
    ensures
        spec_parse_ipv6(x) matches Some(v) ==> spec_parse_destination(
            seq!['['] + x + seq![']', ':', '*'],
        ) == Ok::<DestinationView, DestinationError>(DestinationView::IpAnyPort(IpAddr::V6(v))),
        spec_parse_ipv4(x) matches Some(v) ==> spec_parse_destination(x + seq![':', '*']) == Ok::<
            DestinationView,
            DestinationError,
        >(DestinationView::IpAnyPort(IpAddr::V4(v))),
{
    if spec_parse_ipv6(x) is Some {
        lemma_any_port_of_an_ipv6_address(x);
    }
    if spec_parse_ipv4(x) is Some {
        lemma_any_port_of_an_ipv4_address(x);
    }
}

/// What each kind of destination permits of a connection to an IP address:
/// a socket address only its own address and port (an IPv6 one only with no
/// flow information and no scope); any port of an address only that same
/// address, on every port; one port anywhere only that port, at every
/// address; anything everything; a host name no address at all.
pub proof fn lemma_permits_ip_by_kind(d: DestinationView, ip: IpAddr, port: u16)
    ensures
        d matches DestinationView::ExactAddr(SocketAddr::V4 { ip: w, port: p }) ==> (spec_permits_ip(
            d,
            ip,
            port,
        ) <==> ip == IpAddr::V4(w) && port == p),
        d matches DestinationView::ExactAddr(SocketAddr::V6 { ip: w, port: p, flowinfo, scope_id })
            ==> (spec_permits_ip(d, ip, port) <==> ip == IpAddr::V6(w) && port == p && flowinfo == 0
            && scope_id == 0),
        d matches DestinationView::IpAnyPort(a) ==> (spec_permits_ip(d, ip, port) <==> ip == a),
        d matches DestinationView::PortAnywhere(p) ==> (spec_permits_ip(d, ip, port) <==> port == p),
        d is Anything ==> spec_permits_ip(d, ip, port),
        d is ExactHost || d is HostAnyPort ==> !spec_permits_ip(d, ip, port),
{
}

/// What each kind of destination permits of a connection to a host name: a
/// host and port only that host at that port; any port of a host only that
/// host, on every port; one port anywhere only that port; anything
/// everything; an address-based destination no host name at all.
pub proof fn lemma_permits_host_by_kind(d: DestinationView, host: Seq<char>, port: u16)
    ensures
        d matches DestinationView::ExactHost(h, p) ==> (spec_permits_host(d, host, port) <==> host
            == h && port == p),
        d matches DestinationView::HostAnyPort(h) ==> (spec_permits_host(d, host, port) <==> host
            == h),
        d matches DestinationView::PortAnywhere(p) ==> (spec_permits_host(d, host, port) <==> port
            == p),
        d is Anything ==> spec_permits_host(d, host, port),
        d is ExactAddr || d is IpAnyPort ==> !spec_permits_host(d, host, port),
{
}

/// A rule admits a login exactly when the rule names no user or names this
/// one, however many keys it lists, when one of its keys is the key offered,
/// and when it permits something.
pub proof fn lemma_rule_admits(rule: Rule, username: Seq<char>, key: Seq<u8>)
    ensures
        rule.admits(username, key) <==> ((rule.username is None || rule.username->0@ == username)
            && (exists|i: int| 0 <= i < rule.ssh_keys.len() && (#[trigger] rule.ssh_keys@[i])@ == key)
            && rule.permit.len() > 0),
{
}

/// Settings of the SSH daemon.
#[derive(Debug, PartialEq, Eq)]
pub struct Sshd {
    /// The address to listen on, when the configuration names one.
    pub bind_addr: Option<SocketAddr>,
}

impl Sshd {
    /// The address to listen on: the one given on the command line wins over
    /// the configured one.
    pub fn bind_addr(&self, cli_bind: Option<SocketAddr>) -> (r: Option<SocketAddr>)
        ensures
            r == if cli_bind is Some {
                cli_bind
            } else {
                self.bind_addr
            },
    {
        match cli_bind {
            Some(a) => Some(a),
            None => self.bind_addr,
        }
    }
}

impl Clone for Sshd {
    fn clone(&self) -> (r: Sshd)
        ensures
            r == *self,
    {
        Sshd { bind_addr: self.bind_addr }
    }
}

impl Default for Sshd {
    fn default() -> (r: Sshd)
        ensures
            r.bind_addr is None,
    {
        Sshd { bind_addr: None }
    }
}

/// Settings of the low-interaction honeypot.
#[derive(Debug, PartialEq, Eq)]
pub struct Honeypot {
    /// A server identification string sent in place of the standard one.
    pub spoof_server_id: Option<String>,
    /// Whether unsolicited password attempts are logged.
    pub log_bruteforce_passwords: bool,
    /// Where unsolicited password attempts are reported, when anywhere.
    pub report_url_bruteforce_passwords: Option<String>,
    /// Whether password authentication is advertised although never accepted.
    pub bait_password_bruteforce: bool,
}

/// A copy of an optional text.
fn clone_text(t: &Option<String>) -> (r: Option<String>)
    ensures
        r == *t,
{
    match t {
        Some(s) => Some(s.clone()),
        None => None,
    }
}

impl Clone for Honeypot {
    fn clone(&self) -> (r: Honeypot)
        ensures
            r == *self,
    {
        Honeypot {
            spoof_server_id: clone_text(&self.spoof_server_id),
            log_bruteforce_passwords: self.log_bruteforce_passwords,
            report_url_bruteforce_passwords: clone_text(&self.report_url_bruteforce_passwords),
            bait_password_bruteforce: self.bait_password_bruteforce,
        }
    }
}

impl Default for Honeypot {
    fn default() -> (r: Honeypot)
        ensures
            r.spoof_server_id is None,
            !r.log_bruteforce_passwords,
            r.report_url_bruteforce_passwords is None,
            !r.bait_password_bruteforce,
    {
        Honeypot {
            spoof_server_id: None,
            log_bruteforce_passwords: false,
            report_url_bruteforce_passwords: None,
            bait_password_bruteforce: false,
        }
    }
}

/// An access rule: who may authenticate with which keys, and where they may
/// then relay to. Keys are the encodings of their public key data, so two
/// keys that differ only in their comment are the same key.
#[derive(Debug, PartialEq, Eq)]
pub struct Rule {
    /// The only user name the rule admits, or any when absent.
    pub username: Option<String>,
    /// The public keys the rule admits.
    pub ssh_keys: Vec<Vec<u8>>,
    /// The destinations the rule permits, in order.
    pub permit: Vec<Destination>,
}

/// Whether two byte strings are equal.
pub fn bytes_equal(a: &Vec<u8>, b: &[u8]) -> (r: bool)
    ensures
        r == (a@ == b@),
{
    if a.len() != b.len() {
        return false;
    }
    for i in 0..a.len()
        invariant
            a.len() == b.len(),
            forall|j: int| 0 <= j < i ==> a@[j] == b@[j],
    {
        if a[i] != b[i] {
            return false;
        }
    }
    assert(a@ =~= b@);
    true
}

/// Whether `key` is one of `keys`.
pub open spec fn has_key(keys: Seq<Vec<u8>>, key: Seq<u8>) -> bool {
    exists|i: int| 0 <= i < keys.len() && (#[trigger] keys[i])@ == key
}

/// The destinations of a list, as mathematical values.
pub open spec fn destinations_view(ds: Seq<Destination>) -> Seq<DestinationView> {
    ds.map_values(|d: Destination| d@)
}

/// No key occurs twice in `keys`.
pub open spec fn distinct_keys(keys: Seq<Vec<u8>>) -> bool {
    forall|i: int, j: int| 0 <= i < j < keys.len() ==> (#[trigger] keys[i])@ != (#[trigger] keys[j])@
}

proof fn lemma_destinations_view_push(s: Seq<Destination>, d: Destination)
    ensures
        destinations_view(s.push(d)) == destinations_view(s).push(d@),
{
    assert(destinations_view(s.push(d)) =~= destinations_view(s).push(d@));
}

/// A copy of a list of destinations.
pub fn clone_destinations(ds: &Vec<Destination>) -> (r: Vec<Destination>)
    ensures
        destinations_view(r@) == destinations_view(ds@),
{
    let mut out: Vec<Destination> = Vec::new();
    for j in 0..ds.len()
        invariant
            destinations_view(out@) == destinations_view(ds@.subrange(0, j as int)),
    {
        let d = ds[j].clone();
        let ghost prev = out@;
        out.push(d);
        proof {
            assert(ds@.subrange(0, j + 1) =~= ds@.subrange(0, j as int).push(ds@[j as int]));
            lemma_destinations_view_push(prev, d);
            lemma_destinations_view_push(ds@.subrange(0, j as int), ds@[j as int]);
        }
    }
    proof {
        assert(ds@.subrange(0, ds.len() as int) =~= ds@);
    }
    out
}

impl Rule {
    /// A rule with the given user name, keys and destinations; the keys are
    /// kept as a set, each first occurrence in order and no key twice.
    pub fn new(username: Option<String>, ssh_keys: Vec<Vec<u8>>, permit: Vec<Destination>) -> (r:
        Rule)
        ensures
            r.username == username,
            r.permit == permit,
            forall|k: Seq<u8>| has_key(r.ssh_keys@, k) <==> has_key(ssh_keys@, k),
            distinct_keys(r.ssh_keys@),
    {
        let mut keys: Vec<Vec<u8>> = Vec::new();
        for i in 0..ssh_keys.len()
            invariant
                forall|k: Seq<u8>|
                    has_key(keys@, k) <==> has_key(ssh_keys@.subrange(0, i as int), k),
                distinct_keys(keys@),
        {
            let key = &ssh_keys[i];
            let mut seen = false;
            for j in 0..keys.len()
                invariant
                    seen <==> exists|m: int| 0 <= m < j && (#[trigger] keys@[m])@ == key@,
            {
                if bytes_equal(&keys[j], key) {
                    seen = true;
                }
            }
            let ghost before = keys@;
            if !seen {
                let copy = key.clone();
                assert(copy@ =~= key@);
                keys.push(copy);
            }
            proof {
                assert(ssh_keys@.subrange(0, i + 1) =~= ssh_keys@.subrange(0, i as int).push(
                    ssh_keys@[i as int],
                ));
                assert forall|k: Seq<u8>|
                    has_key(keys@, k) <==> has_key(ssh_keys@.subrange(0, i + 1), k) by {
                    let prefix = ssh_keys@.subrange(0, i as int);
                    let next = ssh_keys@.subrange(0, i + 1);
                    if has_key(next, k) {
                        let m = choose|m: int| 0 <= m < next.len() && (#[trigger] next[m])@ == k;
                        if m < i {
                            assert(prefix[m] == next[m]);
                            assert(has_key(prefix, k));
                            assert(has_key(before, k));
                            let w = choose|w: int| 0 <= w < before.len() && (#[trigger] before[w])@
                                == k;
                            assert(keys@[w] == before[w]);
                        } else if seen {
                            let w = choose|w: int| 0 <= w < before.len() && (#[trigger] before[w])@
                                == key@;
                            assert(keys@[w] == before[w]);
                        } else {
                            assert(keys@[keys.len() - 1]@ == k);
                        }
                    }
                    if has_key(keys@, k) {
                        let m = choose|m: int| 0 <= m < keys@.len() && (#[trigger] keys@[m])@ == k;
                        if m < before.len() {
                            assert(keys@[m] == before[m]);
                            assert(has_key(before, k));
                            assert(has_key(prefix, k));
                            let w = choose|w: int| 0 <= w < prefix.len() && (#[trigger] prefix[w])@
                                == k;
                            assert(next[w] == prefix[w]);
                        } else {
                            assert(next[i as int] == ssh_keys@[i as int]);
                        }
                    }
                }
            }
        }
        proof {
            assert(ssh_keys@.subrange(0, ssh_keys.len() as int) =~= ssh_keys@);
        }
        Rule { username, ssh_keys: keys, permit }
    }

    /// Whether the rule admits `username` with `key` and permits anything at all.
    pub open spec fn admits(&self, username: Seq<char>, key: Seq<u8>) -> bool {
        &&& match self.username {
            Some(u) => u@ == username,
            None => true,
        }
        &&& has_key(self.ssh_keys@, key)
        &&& self.permit.len() > 0
    }
}

/// A rule as a mathematical value.
pub struct RuleView {
    pub username: Option<Seq<char>>,
    pub ssh_keys: Seq<Seq<u8>>,
    pub permit: Seq<DestinationView>,
}

/// The keys of a list, as byte sequences.
pub open spec fn keys_view(keys: Seq<Vec<u8>>) -> Seq<Seq<u8>> {
    keys.map_values(|k: Vec<u8>| k@)
}

impl View for Rule {
    type V = RuleView;

    open spec fn view(&self) -> RuleView {
        RuleView {
            username: match self.username {
                Some(u) => Some(u@),
                None => None,
            },
            ssh_keys: keys_view(self.ssh_keys@),
            permit: destinations_view(self.permit@),
        }
    }
}

/// Two rules that are the same value admit the same users with the same keys.
pub proof fn lemma_admits_by_view(a: Rule, b: Rule, username: Seq<char>, key: Seq<u8>)
    requires
        a@ == b@,
    ensures
        a.admits(username, key) == b.admits(username, key),
        destinations_view(a.permit@) == destinations_view(b.permit@),
{
    assert(a.ssh_keys@.len() == keys_view(a.ssh_keys@).len());
    assert(b.ssh_keys@.len() == keys_view(b.ssh_keys@).len());
    if has_key(a.ssh_keys@, key) {
        let i = choose|i: int| 0 <= i < a.ssh_keys@.len() && (#[trigger] a.ssh_keys@[i])@ == key;
        assert(keys_view(a.ssh_keys@)[i] == keys_view(b.ssh_keys@)[i]);
        assert(b.ssh_keys@[i]@ == key);
    }
    if has_key(b.ssh_keys@, key) {
        let i = choose|i: int| 0 <= i < b.ssh_keys@.len() && (#[trigger] b.ssh_keys@[i])@ == key;
        assert(keys_view(a.ssh_keys@)[i] == keys_view(b.ssh_keys@)[i]);
        assert(a.ssh_keys@[i]@ == key);
    }
    assert(a.permit@.len() == destinations_view(a.permit@).len());
    assert(a.permit.len() == b.permit.len());
}

/// A copy of a byte string.
fn copy_bytes(b: &Vec<u8>) -> (r: Vec<u8>)
    ensures
        r@ == b@,
{
    let mut out: Vec<u8> = Vec::new();
    for i in 0..b.len()
        invariant
            out@ == b@.subrange(0, i as int),
    {
        out.push(b[i]);
        assert(out@ =~= b@.subrange(0, i + 1));
    }
    assert(b@.subrange(0, b.len() as int) =~= b@);
    out
}

impl Clone for Rule {
    fn clone(&self) -> (r: Rule)
        ensures
            r@ == self@,
    {
        let mut keys: Vec<Vec<u8>> = Vec::new();
        for i in 0..self.ssh_keys.len()
            invariant
                keys_view(keys@) == keys_view(self.ssh_keys@.subrange(0, i as int)),
        {
            let k = copy_bytes(&self.ssh_keys[i]);
            let ghost prev = keys@;
            keys.push(k);
            proof {
                assert(keys_view(keys@) =~= keys_view(prev).push(k@));
                assert(keys_view(self.ssh_keys@.subrange(0, i + 1)) =~= keys_view(
                    self.ssh_keys@.subrange(0, i as int),
                ).push(self.ssh_keys@[i as int]@));
            }
        }
        proof {
            assert(self.ssh_keys@.subrange(0, self.ssh_keys.len() as int) =~= self.ssh_keys@);
        }
        Rule {
            username: clone_text(&self.username),
            ssh_keys: keys,
            permit: clone_destinations(&self.permit),
        }
    }
}

/// The whole configuration as a mathematical value.
pub struct ConfigView {
    pub sshd: Sshd,
    pub honeypot: Honeypot,
    pub rules: Seq<RuleView>,
}

/// The rules of a list, as mathematical values.
pub open spec fn rules_view(rules: Seq<Rule>) -> Seq<RuleView> {
    rules.map_values(|r: Rule| r@)
}

/// The whole configuration.
#[derive(Debug, PartialEq, Eq)]
pub struct Config {
    pub sshd: Sshd,
    pub honeypot: Honeypot,
    /// The access rules, tried in order.
    pub rules: Vec<Rule>,
}

impl View for Config {
    type V = ConfigView;

    open spec fn view(&self) -> ConfigView {
        ConfigView { sshd: self.sshd, honeypot: self.honeypot, rules: rules_view(self.rules@) }
    }
}

impl Clone for Config {
    fn clone(&self) -> (r: Config)
        ensures
            r@ == self@,
    {
        let mut rules: Vec<Rule> = Vec::new();
        for i in 0..self.rules.len()
            invariant
                rules_view(rules@) == rules_view(self.rules@.subrange(0, i as int)),
        {
            let rule = self.rules[i].clone();
            let ghost prev = rules@;
            rules.push(rule);
            proof {
                assert(rules_view(rules@) =~= rules_view(prev).push(rule@));
                assert(rules_view(self.rules@.subrange(0, i + 1)) =~= rules_view(
                    self.rules@.subrange(0, i as int),
                ).push(self.rules@[i as int]@));
            }
        }
        proof {
            assert(self.rules@.subrange(0, self.rules.len() as int) =~= self.rules@);
        }
        Config { sshd: self.sshd.clone(), honeypot: self.honeypot.clone(), rules }
    }
}

impl Default for Config {
    fn default() -> (r: Config)
        ensures
            r.sshd.bind_addr is None,
            r.honeypot.spoof_server_id is None,
            !r.honeypot.log_bruteforce_passwords,
            r.honeypot.report_url_bruteforce_passwords is None,
            !r.honeypot.bait_password_bruteforce,
            r.rules.len() == 0,
    {
        Config { sshd: Sshd::default(), honeypot: Honeypot::default(), rules: Vec::new() }
    }
}

} // verus!

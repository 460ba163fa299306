//! IP and socket addresses as plain values, and the textual forms in which
//! destinations and relay targets name them.
//!
//! An IPv4 address is its 32-bit number, an IPv6 address its 128-bit number.
//! The textual grammar accepted here is the one of Rust's standard address
//! parsers: four dotted decimal octets without leading zeros; eight colon
//! separated groups of one to four hex digits, where one `::` may stand for one
//! or more zero groups and the last two groups may be written as an IPv4
//! address; `ipv4:port`, and `[ipv6]:port` with an optional `%scope` before the
//! closing bracket. Addresses are written back in the forms std writes them.
use crate::text::{
    all_dec_digits, all_hex_digits, chars_of, decimal_value, find_char, find_in_range, hex_digit_value, hex_value,
    is_dec_digit, is_hex_digit, lemma_split_keeps_characters, lemma_split_without_separator,
    dec_text, hex_text, lemma_dec_text, lemma_hex_text, lemma_digits_text_chars, lemma_split_concat,
    lemma_find_char_after, lemma_find_char_absent, lemma_find_char_from, parse_decimal, split,
    push_digits, push_str, split_ranges,
};
use vstd::prelude::*;
use vstd::string::*;

verus! {

/// An IP address.
#[derive(Clone, Copy, PartialEq, Eq, Structural, Debug, Hash)]
pub enum IpAddr {
    V4(u32),
    V6(u128),
}

/// A socket address: an IP address and a port (with, for IPv6, the flow
/// information and scope id that are part of its identity).
#[derive(Clone, Copy, PartialEq, Eq, Structural, Debug, Hash)]
pub enum SocketAddr {
    V4 { ip: u32, port: u16 },
    V6 { ip: u128, port: u16, flowinfo: u32, scope_id: u32 },
}

/// Text that does not name an address.
#[derive(Clone, Copy, PartialEq, Eq, Structural, Debug)]
pub struct AddrParseError;

/// The number of an IPv4 address with the given octets, most significant first.
pub open spec fn ipv4_value(a: nat, b: nat, c: nat, d: nat) -> nat {
    a * 16777216 + b * 65536 + c * 256 + d
}

/// One decimal octet of a dotted IPv4 address: one to three digits, no
/// leading zero unless the octet is `0`, at most 255.
pub open spec fn spec_octet(p: Seq<char>) -> Option<nat> {
    if 1 <= p.len() <= 3 && all_dec_digits(p) && !(p.len() > 1 && p[0] == '0')
        && decimal_value(p) <= 255 {
        Some(decimal_value(p))
    } else {
        None
    }
}

/// The number that the dotted text `s` gives for an IPv4 address, if it is one.
pub open spec fn spec_parse_ipv4(s: Seq<char>) -> Option<u32> {
    let parts = split(s, '.');
    if parts.len() == 4 && spec_octet(parts[0]) is Some && spec_octet(parts[1]) is Some
        && spec_octet(parts[2]) is Some && spec_octet(parts[3]) is Some {
        Some(
            ipv4_value(
                spec_octet(parts[0])->0,
                spec_octet(parts[1])->0,
                spec_octet(parts[2])->0,
                spec_octet(parts[3])->0,
            ) as u32,
        )
    } else {
        None
    }
}

/// One group of an IPv6 address: one to four hex digits.
pub open spec fn spec_hex_group(p: Seq<char>) -> Option<u16> {
    if 1 <= p.len() <= 4 && all_hex_digits(p) {
        Some(hex_value(p) as u16)
    } else {
        None
    }
}

/// The groups that a list of pieces gives when each is one hex group.
pub open spec fn hex_groups(ps: Seq<Seq<char>>) -> Option<Seq<u16>>
    decreases ps.len(),
{
    if ps.len() == 0 {
        Some(Seq::<u16>::empty())
    } else {
        match (hex_groups(ps.drop_last()), spec_hex_group(ps.last())) {
            (Some(g), Some(h)) => Some(g.push(h)),
            _ => None,
        }
    }
}

/// The groups that the last piece of an IPv6 address gives: one hex group,
/// or two from an embedded IPv4 address.
pub open spec fn last_piece_groups(p: Seq<char>) -> Option<Seq<u16>> {
    match spec_hex_group(p) {
        Some(h) => Some(seq![h]),
        None => match spec_parse_ipv4(p) {
            Some(v) => Some(seq![(v / 65536) as u16, (v % 65536) as u16]),
            None => None,
        },
    }
}

/// The groups that a non-empty list of pieces gives when all but the last
/// are hex groups.
pub open spec fn groups_of(ps: Seq<Seq<char>>) -> Option<Seq<u16>> {
    if ps.len() == 0 {
        None
    } else {
        match (hex_groups(ps.drop_last()), last_piece_groups(ps.last())) {
            (Some(a), Some(b)) => Some(a + b),
            _ => None,
        }
    }
}

/// The first index at which `::` occurs in `s`, searching from `from`.
pub open spec fn find_double_colon_from(s: Seq<char>, from: int) -> Option<int>
    decreases s.len() - from,
{
    if from < 0 || from + 1 >= s.len() {
        None
    } else if s[from] == ':' && s[from + 1] == ':' {
        Some(from)
    } else {
        find_double_colon_from(s, from + 1)
    }
}

/// The number that a sequence of 16-bit groups gives, most significant first.
pub open spec fn groups_value(g: Seq<u16>) -> nat
    decreases g.len(),
{
    if g.len() == 0 {
        0
    } else {
        groups_value(g.drop_last()) * 65536 + g.last() as nat
    }
}

/// `n` zero groups.
pub open spec fn zero_groups(n: int) -> Seq<u16> {
    Seq::new(n as nat, |i: int| 0u16)
}

/// The eight groups that the text `s` gives for an IPv6 address, if it is one.
pub open spec fn spec_ipv6_groups(s: Seq<char>) -> Option<Seq<u16>> {
    match find_double_colon_from(s, 0) {
        Some(i) => {
            let head = s.subrange(0, i);
            let tail = s.subrange(i + 2, s.len() as int);
            let hg = if head.len() == 0 {
                Some(Seq::<u16>::empty())
            } else {
                hex_groups(split(head, ':'))
            };
            let tg = if tail.len() == 0 {
                Some(Seq::<u16>::empty())
            } else {
                groups_of(split(tail, ':'))
            };
            match (hg, tg) {
                (Some(h), Some(t)) => if h.len() + t.len() <= 7 {
                    Some(h + zero_groups(8 - h.len() - t.len()) + t)
                } else {
                    None
                },
                _ => None,
            }
        },
        None => match groups_of(split(s, ':')) {
            Some(g) => if g.len() == 8 {
                Some(g)
            } else {
                None
            },
            None => None,
        },
    }
}

/// The number that the text `s` gives for an IPv6 address, if it is one.
pub open spec fn spec_parse_ipv6(s: Seq<char>) -> Option<u128> {
    match spec_ipv6_groups(s) {
        Some(g) => Some(groups_value(g) as u128),
        None => None,
    }
}

/// The address that `s` names, IPv4 or IPv6, if any.
pub open spec fn spec_parse_ip(s: Seq<char>) -> Option<IpAddr> {
    match spec_parse_ipv4(s) {
        Some(v) => Some(IpAddr::V4(v)),
        None => match spec_parse_ipv6(s) {
            Some(v) => Some(IpAddr::V6(v)),
            None => None,
        },
    }
}

/// A port in a socket address: one or more decimal digits, at most 65535.
pub open spec fn spec_parse_port(s: Seq<char>) -> Option<u16> {
    if s.len() > 0 && all_dec_digits(s) && decimal_value(s) <= 65535 {
        Some(decimal_value(s) as u16)
    } else {
        None
    }
}

/// A port written as a bare number: an optional `+`, then a port.
pub open spec fn spec_parse_u16(s: Seq<char>) -> Option<u16> {
    if s.len() > 0 && s[0] == '+' {
        spec_parse_port(s.drop_first())
    } else {
        spec_parse_port(s)
    }
}

/// A scope id: one or more decimal digits, at most `u32::MAX`.
pub open spec fn spec_parse_scope(s: Seq<char>) -> Option<u32> {
    if s.len() > 0 && all_dec_digits(s) && decimal_value(s) <= 0xffff_ffff {
        Some(decimal_value(s) as u32)
    } else {
        None
    }
}

/// `a.b.c.d:port`.
pub open spec fn spec_parse_socket_v4(s: Seq<char>) -> Option<SocketAddr> {
    match find_char(s, ':') {
        Some(i) => match (
            spec_parse_ipv4(s.subrange(0, i)),
            spec_parse_port(s.subrange(i + 1, s.len() as int)),
        ) {
            (Some(ip), Some(port)) => Some(SocketAddr::V4 { ip, port }),
            _ => None,
        },
        None => None,
    }
}

/// `[ipv6]:port` or `[ipv6%scope]:port`.
pub open spec fn spec_parse_socket_v6(s: Seq<char>) -> Option<SocketAddr> {
    if s.len() == 0 || s[0] != '[' {
        None
    } else {
        match find_char(s, ']') {
            None => None,
            Some(j) => {
                let inner = s.subrange(1, j);
                let rest = s.subrange(j + 1, s.len() as int);
                let (ip_text, scope) = match find_char(inner, '%') {
                    Some(k) => (
                        inner.subrange(0, k),
                        spec_parse_scope(inner.subrange(k + 1, inner.len() as int)),
                    ),
                    None => (inner, Some(0u32)),
                };
                if rest.len() >= 1 && rest[0] == ':' {
                    match (
                        spec_parse_ipv6(ip_text),
                        scope,
                        spec_parse_port(rest.drop_first()),
                    ) {
                        (Some(ip), Some(scope_id), Some(port)) => Some(
                            SocketAddr::V6 { ip, port, flowinfo: 0, scope_id },
                        ),
                        _ => None,
                    }
                } else {
                    None
                }
            },
        }
    }
}

/// The socket address that `s` names, if any.
pub open spec fn spec_parse_socket(s: Seq<char>) -> Option<SocketAddr> {
    match spec_parse_socket_v4(s) {
        Some(a) => Some(a),
        None => spec_parse_socket_v6(s),
    }
}

/// The socket address of an IP address and a port.
pub open spec fn spec_socket_of(ip: IpAddr, port: u16) -> SocketAddr {
    match ip {
        IpAddr::V4(v) => SocketAddr::V4 { ip: v, port },
        IpAddr::V6(v) => SocketAddr::V6 { ip: v, port, flowinfo: 0, scope_id: 0 },
    }
}


/// No text is both an IPv4 and an IPv6 address, so the order in which an IP
/// address is tried as one and the other does not matter.
pub proof fn lemma_ipv4_and_ipv6_texts_are_disjoint(s: Seq<char>)
    ensures
        !(spec_parse_ipv4(s) is Some && spec_parse_ipv6(s) is Some),
{
    if spec_parse_ipv4(s) is Some {
        let parts = split(s, '.');
        // Every character is a digit or a dot, so there is no colon.
        assert forall|p: int| 0 <= p < s.len() implies s[p] != ':' by {
            if s[p] == ':' {
                lemma_split_keeps_characters(s, '.', p);
                let (k, j) = choose|k: int, j: int|
                    0 <= k < parts.len() && 0 <= j < parts[k].len() && #[trigger] parts[k][j]
                        == s[p];
                assert(is_dec_digit(parts[k][j]));
            }
        }
        // There is a dot, as there is more than one piece.
        assert(exists|p: int| 0 <= p < s.len() && s[p] == '.') by {
            if forall|p: int| 0 <= p < s.len() ==> s[p] != '.' {
                lemma_split_without_separator(s, '.');
            }
        }
        let p = choose|p: int| 0 <= p < s.len() && s[p] == '.';
        lemma_no_double_colon(s, 0);
        lemma_split_without_separator(s, ':');
        let pieces = split(s, ':');
        assert(pieces.drop_last() =~= Seq::<Seq<char>>::empty());
        assert(pieces.last() == s);
        assert(!is_hex_digit(s[p]));
        assert(spec_hex_group(s) is None);
    }
}

/// Text in which no two colons stand side by side has no `::`.
proof fn lemma_no_double_colon(s: Seq<char>, from: int)
    requires
        forall|p: int| 0 <= p < s.len() - 1 ==> !(#[trigger] s[p] == ':' && s[p + 1] == ':'),
    ensures
        find_double_colon_from(s, from) is None,
    decreases s.len() - from,
{
    if !(from < 0 || from + 1 >= s.len()) {
        lemma_no_double_colon(s, from + 1);
    }
}

/// `16` to the power `n`.
pub open spec fn pow16(n: nat) -> nat
    decreases n,
{
    if n == 0 {
        1
    } else {
        16 * pow16((n - 1) as nat)
    }
}

proof fn lemma_groups_value_8(g: Seq<u16>)
    requires
        g.len() == 8,
    ensures
        groups_value(g) == g[0] * 0x1_0000_0000_0000_0000_0000_0000_0000nat + g[1]
            * 0x1_0000_0000_0000_0000_0000_0000nat + g[2] * 0x1_0000_0000_0000_0000_0000nat + g[3]
            * 0x1_0000_0000_0000_0000nat + g[4] * 0x1_0000_0000_0000nat + g[5] * 0x1_0000_0000nat
            + g[6] * 0x1_0000nat + g[7],
{
    assert forall|k: int| 1 <= k <= 8 implies #[trigger] g.subrange(0, k).drop_last() =~= g.subrange(0, k - 1)
        && g.subrange(0, k).last() == g[k - 1] by {}
    assert(g.subrange(0, 0).len() == 0);
    assert(groups_value(g.subrange(0, 1)) == groups_value(g.subrange(0, 0)) * 65536 + g[0]);
    assert(groups_value(g.subrange(0, 2)) == groups_value(g.subrange(0, 1)) * 65536 + g[1]);
    assert(groups_value(g.subrange(0, 3)) == groups_value(g.subrange(0, 2)) * 65536 + g[2]);
    assert(groups_value(g.subrange(0, 4)) == groups_value(g.subrange(0, 3)) * 65536 + g[3]);
    assert(groups_value(g.subrange(0, 5)) == groups_value(g.subrange(0, 4)) * 65536 + g[4]);
    assert(groups_value(g.subrange(0, 6)) == groups_value(g.subrange(0, 5)) * 65536 + g[5]);
    assert(groups_value(g.subrange(0, 7)) == groups_value(g.subrange(0, 6)) * 65536 + g[6]);
    assert(groups_value(g.subrange(0, 8)) == groups_value(g.subrange(0, 7)) * 65536 + g[7]);
    assert(g.subrange(0, 8) =~= g);
}

/// One octet of a dotted IPv4 address in `s[lo..hi]`.
fn parse_octet(s: &Vec<char>, lo: usize, hi: usize) -> (r: Option<u32>)
    requires
        lo <= hi <= s.len(),
    ensures
        match spec_octet(s@.subrange(lo as int, hi as int)) {
            Some(v) => r == Some(v as u32),
            None => r is None,
        },
{
    if hi - lo < 1 || hi - lo > 3 {
        return None;
    }
    if hi - lo > 1 && s[lo] == '0' {
        assert(s@.subrange(lo as int, hi as int)[0] == '0');
        return None;
    }
    assert(hi - lo > 1 ==> s@.subrange(lo as int, hi as int)[0] != '0');
    parse_decimal(s, lo, hi, 255)
}

/// The IPv4 address that `s[lo..hi]` names.
pub fn parse_ipv4_range(s: &Vec<char>, lo: usize, hi: usize) -> (r: Option<u32>)
    requires
        lo <= hi <= s.len(),
    ensures
        r == spec_parse_ipv4(s@.subrange(lo as int, hi as int)),
{
    let parts = split_ranges(s, lo, hi, '.');
    if parts.len() != 4 {
        return None;
    }
    let ghost ps = split(s@.subrange(lo as int, hi as int), '.');
    let (a0, a1) = parts[0];
    let (b0, b1) = parts[1];
    let (c0, c1) = parts[2];
    let (d0, d1) = parts[3];
    assert(parts@[0] == (a0, a1) && parts@[1] == (b0, b1));
    assert(parts@[2] == (c0, c1) && parts@[3] == (d0, d1));
    let a = match parse_octet(s, a0, a1) {
        Some(v) => v,
        None => return None,
    };
    let b = match parse_octet(s, b0, b1) {
        Some(v) => v,
        None => return None,
    };
    let c = match parse_octet(s, c0, c1) {
        Some(v) => v,
        None => return None,
    };
    let d = match parse_octet(s, d0, d1) {
        Some(v) => v,
        None => return None,
    };
    Some(a * 16777216 + b * 65536 + c * 256 + d)
}

/// One hex group of an IPv6 address in `s[lo..hi]`.
fn parse_hex_group(s: &Vec<char>, lo: usize, hi: usize) -> (r: Option<u16>)
    requires
        lo <= hi <= s.len(),
    ensures
        r == spec_hex_group(s@.subrange(lo as int, hi as int)),
{
    let ghost t = s@.subrange(lo as int, hi as int);
    if hi - lo < 1 || hi - lo > 4 {
        return None;
    }
    let mut v: u32 = 0;
    let mut i = lo;
    proof {
        assert(t.subrange(0, 0) =~= Seq::<char>::empty());
    }
    while i < hi
        invariant
            lo < hi <= s.len(),
            hi - lo <= 4,
            lo <= i <= hi,
            t == s@.subrange(lo as int, hi as int),
            all_hex_digits(t.subrange(0, i - lo)),
            v == hex_value(t.subrange(0, i - lo)),
            v < pow16((i - lo) as nat),
        decreases hi - i,
    {
        let c = s[i];
        proof {
            assert(t.subrange(0, i - lo + 1).drop_last() =~= t.subrange(0, i - lo));
            assert(t[i - lo] == c);
        }
        let d: u32 = if '0' <= c && c <= '9' {
            (c as u32) - ('0' as u32)
        } else if 'a' <= c && c <= 'f' {
            (c as u32) - ('a' as u32) + 10
        } else if 'A' <= c && c <= 'F' {
            (c as u32) - ('A' as u32) + 10
        } else {
            assert(!is_hex_digit(t[i - lo]));
            return None;
        };
        proof {
            reveal_with_fuel(pow16, 5);
        }
        v = v * 16 + d;
        proof {
            assert(all_hex_digits(t.subrange(0, i - lo + 1)));
        }
        i = i + 1;
    }
    proof {
        assert(t.subrange(0, hi - lo) =~= t);
        reveal_with_fuel(pow16, 5);
    }
    Some(v as u16)
}

/// The groups of the first `n` pieces, each a hex group.
fn hex_groups_exec(
    s: &Vec<char>,
    ranges: &Vec<(usize, usize)>,
    n: usize,
    Ghost(pieces): Ghost<Seq<Seq<char>>>,
) -> (r: Option<Vec<u16>>)
    requires
        n <= ranges.len() == pieces.len(),
        forall|k: int|
            0 <= k < ranges.len() ==> (#[trigger] ranges@[k]).0 <= ranges@[k].1 <= s.len()
                && s@.subrange(ranges@[k].0 as int, ranges@[k].1 as int) == pieces[k],
    ensures
        match hex_groups(pieces.subrange(0, n as int)) {
            Some(g) => r is Some && r->0@ == g,
            None => r is None,
        },
{
    let mut acc: Vec<u16> = Vec::new();
    let mut k: usize = 0;
    proof {
        assert(pieces.subrange(0, 0) =~= Seq::<Seq<char>>::empty());
    }
    while k < n
        invariant
            n <= ranges.len() == pieces.len(),
            forall|j: int|
                0 <= j < ranges.len() ==> (#[trigger] ranges@[j]).0 <= ranges@[j].1 <= s.len()
                    && s@.subrange(ranges@[j].0 as int, ranges@[j].1 as int) == pieces[j],
            k <= n,
            hex_groups(pieces.subrange(0, k as int)) == Some(acc@),
        decreases n - k,
    {
        let (a, b) = ranges[k];
        assert(ranges@[k as int] == (a, b));
        proof {
            assert(pieces.subrange(0, k + 1).drop_last() =~= pieces.subrange(0, k as int));
        }
        match parse_hex_group(s, a, b) {
            Some(h) => {
                acc.push(h);
            },
            None => {
                proof {
                    lemma_hex_groups_none_extends(pieces, (k + 1) as int, n as int);
                }
                return None;
            },
        }
        k = k + 1;
    }
    Some(acc)
}

proof fn lemma_hex_groups_none_extends(pieces: Seq<Seq<char>>, k: int, n: int)
    requires
        0 <= k <= n <= pieces.len(),
        hex_groups(pieces.subrange(0, k)) is None,
    ensures
        hex_groups(pieces.subrange(0, n)) is None,
    decreases n - k,
{
    if k < n {
        assert(pieces.subrange(0, k + 1).drop_last() =~= pieces.subrange(0, k));
        lemma_hex_groups_none_extends(pieces, k + 1, n);
    }
}

/// The groups of all the pieces, the last of which may be an IPv4 address.
fn groups_of_exec(s: &Vec<char>, ranges: &Vec<(usize, usize)>, Ghost(pieces): Ghost<Seq<Seq<char>>>) -> (r:
    Option<Vec<u16>>)
    requires
        ranges.len() == pieces.len(),
        ranges.len() >= 1,
        forall|k: int|
            0 <= k < ranges.len() ==> (#[trigger] ranges@[k]).0 <= ranges@[k].1 <= s.len()
                && s@.subrange(ranges@[k].0 as int, ranges@[k].1 as int) == pieces[k],
    ensures
        match groups_of(pieces) {
            Some(g) => r is Some && r->0@ == g,
            None => r is None,
        },
{
    let n = ranges.len();
    let head = hex_groups_exec(s, ranges, n - 1, Ghost(pieces));
    proof {
        assert(pieces.subrange(0, n - 1) =~= pieces.drop_last());
    }
    let mut head = match head {
        Some(h) => h,
        None => return None,
    };
    let (a, b) = ranges[n - 1];
    assert(ranges@[n - 1] == (a, b));
    assert(pieces.last() == pieces[n - 1]);
    match parse_hex_group(s, a, b) {
        Some(h) => {
            head.push(h);
            proof {
                assert(head@ =~= hex_groups(pieces.drop_last())->0 + seq![h]);
            }
            Some(head)
        },
        None => match parse_ipv4_range(s, a, b) {
            Some(v) => {
                let hi = (v / 65536) as u16;
                let lo = (v % 65536) as u16;
                head.push(hi);
                head.push(lo);
                proof {
                    assert(head@ =~= hex_groups(pieces.drop_last())->0 + seq![hi, lo]);
                }
                Some(head)
            },
            None => None,
        },
    }
}

/// The number of eight groups.
fn groups_to_u128(g: &Vec<u16>) -> (r: u128)
    requires
        g.len() == 8,
    ensures
        r == groups_value(g@),
{
    proof {
        lemma_groups_value_8(g@);
    }
    (g[0] as u128) * 0x1_0000_0000_0000_0000_0000_0000_0000u128 + (g[1] as u128)
        * 0x1_0000_0000_0000_0000_0000_0000u128 + (g[2] as u128) * 0x1_0000_0000_0000_0000_0000u128
        + (g[3] as u128) * 0x1_0000_0000_0000_0000u128 + (g[4] as u128) * 0x1_0000_0000_0000u128
        + (g[5] as u128) * 0x1_0000_0000u128 + (g[6] as u128) * 0x1_0000u128 + (g[7] as u128)
}


proof fn lemma_find_double_colon_from(s: Seq<char>, from: int)
    ensures
        match find_double_colon_from(s, from) {
            Some(k) => 0 <= from <= k && k + 2 <= s.len(),
            None => true,
        },
    decreases s.len() - from,
{
    if !(from < 0 || from + 1 >= s.len()) && !(s[from] == ':' && s[from + 1] == ':') {
        lemma_find_double_colon_from(s, from + 1);
    }
}

/// The first index in `lo..hi` at which `::` starts.
fn find_double_colon(s: &Vec<char>, lo: usize, hi: usize) -> (r: Option<usize>)
    requires
        lo <= hi <= s.len(),
    ensures
        match find_double_colon_from(s@.subrange(lo as int, hi as int), 0) {
            Some(k) => 0 <= k && lo + k + 2 <= hi && r == Some((lo + k) as usize),
            None => r is None,
        },
        r matches Some(i) ==> lo <= i && i + 2 <= hi,
{
    proof {
        lemma_find_double_colon_from(s@.subrange(lo as int, hi as int), 0);
    }
    let ghost t = s@.subrange(lo as int, hi as int);
    let mut i = lo;
    while hi - i >= 2
        invariant
            lo <= i <= hi <= s.len(),
            t == s@.subrange(lo as int, hi as int),
            find_double_colon_from(t, 0) == find_double_colon_from(t, i - lo),
        decreases hi - i,
    {
        if s[i] == ':' && s[i + 1] == ':' {
            return Some(i);
        }
        i = i + 1;
    }
    None
}

/// Appends `zeros` zero groups and then the groups of `tail` to `g`.
fn extend_groups(g: &mut Vec<u16>, zeros: usize, tail: &Vec<u16>)
    requires
        old(g).len() + zeros + tail.len() <= 8,
    ensures
        final(g)@ == old(g)@ + zero_groups(zeros as int) + tail@,
{
    let ghost start = g@;
    for k in 0..zeros
        invariant
            g@ == start + zero_groups(k as int),
            start.len() + zeros + tail.len() <= 8,
    {
        g.push(0u16);
        assert(g@ =~= start + zero_groups(k + 1));
    }
    let ghost mid = g@;
    for k in 0..tail.len()
        invariant
            g@ == mid + tail@.subrange(0, k as int),
            mid == start + zero_groups(zeros as int),
    {
        g.push(tail[k]);
        assert(g@ =~= mid + tail@.subrange(0, k + 1));
    }
    assert(tail@.subrange(0, tail.len() as int) =~= tail@);
}

/// The IPv6 address that `s[lo..hi]` names.
pub fn parse_ipv6_range(s: &Vec<char>, lo: usize, hi: usize) -> (r: Option<u128>)
    requires
        lo <= hi <= s.len(),
    ensures
        r == spec_parse_ipv6(s@.subrange(lo as int, hi as int)),
{
    let ghost t = s@.subrange(lo as int, hi as int);
    match find_double_colon(s, lo, hi) {
        Some(j) => {
            let ghost head = t.subrange(0, j - lo);
            let ghost tail = t.subrange(j - lo + 2, t.len() as int);
            assert(head =~= s@.subrange(lo as int, j as int));
            assert(tail =~= s@.subrange(j + 2, hi as int));
            let h: Vec<u16> = if j == lo {
                Vec::new()
            } else {
                let rs = split_ranges(s, lo, j, ':');
                let ghost ps = split(head, ':');
                let r = hex_groups_exec(s, &rs, rs.len(), Ghost(ps));
                assert(ps.subrange(0, rs.len() as int) =~= ps);
                match r {
                    Some(h) => h,
                    None => return None,
                }
            };
            let tl: Vec<u16> = if j + 2 == hi {
                Vec::new()
            } else {
                let rs = split_ranges(s, j + 2, hi, ':');
                match groups_of_exec(s, &rs, Ghost(split(tail, ':'))) {
                    Some(g) => g,
                    None => return None,
                }
            };
            if h.len() > 7 || tl.len() > 7 - h.len() {
                return None;
            }
            let mut g = h;
            let zeros = 8 - g.len() - tl.len();
            extend_groups(&mut g, zeros, &tl);
            Some(groups_to_u128(&g))
        },
        None => {
            let rs = split_ranges(s, lo, hi, ':');
            match groups_of_exec(s, &rs, Ghost(split(t, ':'))) {
                Some(g) => {
                    if g.len() == 8 {
                        Some(groups_to_u128(&g))
                    } else {
                        None
                    }
                },
                None => None,
            }
        },
    }
}

/// The IP address that `s[lo..hi]` names.
pub fn parse_ip_range(s: &Vec<char>, lo: usize, hi: usize) -> (r: Option<IpAddr>)
    requires
        lo <= hi <= s.len(),
    ensures
        r == spec_parse_ip(s@.subrange(lo as int, hi as int)),
{
    match parse_ipv4_range(s, lo, hi) {
        Some(v) => Some(IpAddr::V4(v)),
        None => match parse_ipv6_range(s, lo, hi) {
            Some(v) => Some(IpAddr::V6(v)),
            None => None,
        },
    }
}

/// The port that `s[lo..hi]` names inside a socket address.
pub fn parse_port_range(s: &Vec<char>, lo: usize, hi: usize) -> (r: Option<u16>)
    requires
        lo <= hi <= s.len(),
    ensures
        r == spec_parse_port(s@.subrange(lo as int, hi as int)),
{
    match parse_decimal(s, lo, hi, 65535) {
        Some(v) => Some(v as u16),
        None => None,
    }
}

/// The number that `s[lo..hi]` names as a bare `u16`.
pub fn parse_u16_range(s: &Vec<char>, lo: usize, hi: usize) -> (r: Option<u16>)
    requires
        lo <= hi <= s.len(),
    ensures
        r == spec_parse_u16(s@.subrange(lo as int, hi as int)),
{
    if lo < hi && s[lo] == '+' {
        assert(s@.subrange(lo as int, hi as int).drop_first() =~= s@.subrange(lo + 1, hi as int));
        parse_port_range(s, lo + 1, hi)
    } else {
        parse_port_range(s, lo, hi)
    }
}

/// The socket address `a.b.c.d:port` in `s[lo..hi]`.
fn parse_socket_v4_range(s: &Vec<char>, lo: usize, hi: usize) -> (r: Option<SocketAddr>)
    requires
        lo <= hi <= s.len(),
    ensures
        r == spec_parse_socket_v4(s@.subrange(lo as int, hi as int)),
{
    let ghost t = s@.subrange(lo as int, hi as int);
    match find_in_range(s, lo, hi, ':') {
        Some(i) => {
            assert(t.subrange(0, i - lo) =~= s@.subrange(lo as int, i as int));
            assert(t.subrange(i - lo + 1, t.len() as int) =~= s@.subrange(i + 1, hi as int));
            match (parse_ipv4_range(s, lo, i), parse_port_range(s, i + 1, hi)) {
                (Some(ip), Some(port)) => Some(SocketAddr::V4 { ip, port }),
                _ => None,
            }
        },
        None => None,
    }
}

/// The socket address `[ipv6]:port` or `[ipv6%scope]:port` in `s[lo..hi]`.
fn parse_socket_v6_range(s: &Vec<char>, lo: usize, hi: usize) -> (r: Option<SocketAddr>)
    requires
        lo <= hi <= s.len(),
    ensures
        r == spec_parse_socket_v6(s@.subrange(lo as int, hi as int)),
{
    let ghost t = s@.subrange(lo as int, hi as int);
    if lo == hi || s[lo] != '[' {
        return None;
    }
    assert(t[0] == s@[lo as int]);
    let j = match find_in_range(s, lo, hi, ']') {
        Some(j) => j,
        None => return None,
    };
    assert(t[j - lo] == ']');
    assert(j > lo);
    let ghost inner = t.subrange(1, j - lo);
    let ghost rest = t.subrange(j - lo + 1, t.len() as int);
    assert(inner =~= s@.subrange(lo + 1, j as int));
    assert(rest =~= s@.subrange(j + 1, hi as int));
    let (ip_lo, ip_hi, scope) = match find_in_range(s, lo + 1, j, '%') {
        Some(k) => {
            assert(inner.subrange(0, k - lo - 1) =~= s@.subrange(lo + 1, k as int));
            assert(inner.subrange(k - lo, inner.len() as int) =~= s@.subrange(k + 1, j as int));
            let sc = parse_decimal(s, k + 1, j, 0xffff_ffff);
            (lo + 1, k, sc)
        },
        None => (lo + 1, j, Some(0u32)),
    };
    if !(j + 1 < hi && s[j + 1] == ':') {
        assert(rest.len() >= 1 ==> rest[0] == s@[j + 1]);
        return None;
    }
    assert(rest[0] == ':');
    assert(rest.drop_first() =~= s@.subrange(j + 2, hi as int));
    match (parse_ipv6_range(s, ip_lo, ip_hi), scope, parse_port_range(s, j + 2, hi)) {
        (Some(ip), Some(scope_id), Some(port)) => Some(
            SocketAddr::V6 { ip, port, flowinfo: 0, scope_id },
        ),
        _ => None,
    }
}

/// The socket address that `s[lo..hi]` names.
pub fn parse_socket_range(s: &Vec<char>, lo: usize, hi: usize) -> (r: Option<SocketAddr>)
    requires
        lo <= hi <= s.len(),
    ensures
        r == spec_parse_socket(s@.subrange(lo as int, hi as int)),
{
    match parse_socket_v4_range(s, lo, hi) {
        Some(a) => Some(a),
        None => parse_socket_v6_range(s, lo, hi),
    }
}

impl IpAddr {
    /// Reads an IPv4 address in dotted form or an IPv6 address.
    pub fn parse(s: &str) -> (r: Result<IpAddr, AddrParseError>)
        ensures
            match spec_parse_ip(s@) {
                Some(a) => r == Ok::<IpAddr, AddrParseError>(a),
                None => r is Err,
            },
    {
        let v = chars_of(s);
        assert(v@.subrange(0, v@.len() as int) =~= s@);
        match parse_ip_range(&v, 0, v.len()) {
            Some(a) => Ok(a),
            None => Err(AddrParseError),
        }
    }

    /// Whether this is an IPv4 address.
    pub fn is_ipv4(&self) -> (r: bool)
        ensures
            r == (self is V4),
    {
        match self {
            IpAddr::V4(_) => true,
            IpAddr::V6(_) => false,
        }
    }
}

impl SocketAddr {
    /// Reads `a.b.c.d:port`, `[ipv6]:port` or `[ipv6%scope]:port`.
    pub fn parse(s: &str) -> (r: Result<SocketAddr, AddrParseError>)
        ensures
            match spec_parse_socket(s@) {
                Some(a) => r == Ok::<SocketAddr, AddrParseError>(a),
                None => r is Err,
            },
    {
        let v = chars_of(s);
        assert(v@.subrange(0, v@.len() as int) =~= s@);
        match parse_socket_range(&v, 0, v.len()) {
            Some(a) => Ok(a),
            None => Err(AddrParseError),
        }
    }

    /// The socket address of `ip` and `port`, with no flow information and no scope.
    pub fn new(ip: IpAddr, port: u16) -> (r: SocketAddr)
        ensures
            r == spec_socket_of(ip, port),
    {
        match ip {
            IpAddr::V4(v) => SocketAddr::V4 { ip: v, port },
            IpAddr::V6(v) => SocketAddr::V6 { ip: v, port, flowinfo: 0, scope_id: 0 },
        }
    }

    /// The IP address.
    pub fn ip(&self) -> (r: IpAddr)
        ensures
            r == match *self {
                SocketAddr::V4 { ip, .. } => IpAddr::V4(ip),
                SocketAddr::V6 { ip, .. } => IpAddr::V6(ip),
            },
    {
        match *self {
            SocketAddr::V4 { ip, .. } => IpAddr::V4(ip),
            SocketAddr::V6 { ip, .. } => IpAddr::V6(ip),
        }
    }

    /// The port.
    pub fn port(&self) -> (r: u16)
        ensures
            r == match *self {
                SocketAddr::V4 { port, .. } => port,
                SocketAddr::V6 { port, .. } => port,
            },
    {
        match *self {
            SocketAddr::V4 { port, .. } => port,
            SocketAddr::V6 { port, .. } => port,
        }
    }
}

impl core::str::FromStr for IpAddr {
    type Err = AddrParseError;

    fn from_str(s: &str) -> (r: Result<IpAddr, AddrParseError>)
        ensures
            match spec_parse_ip(s@) {
                Some(a) => r == Ok::<IpAddr, AddrParseError>(a),
                None => r is Err,
            },
    {
        IpAddr::parse(s)
    }
}

impl core::str::FromStr for SocketAddr {
    type Err = AddrParseError;

    fn from_str(s: &str) -> (r: Result<SocketAddr, AddrParseError>)
        ensures
            match spec_parse_socket(s@) {
                Some(a) => r == Ok::<SocketAddr, AddrParseError>(a),
                None => r is Err,
            },
    {
        SocketAddr::parse(s)
    }
}


/// The octets of an IPv4 address, most significant first.
pub open spec fn ipv4_octets(v: u32) -> Seq<nat> {
    seq![((v >> 24u32) & 0xff) as nat, ((v >> 16u32) & 0xff) as nat, ((v >> 8u32) & 0xff) as nat, (v & 0xff) as nat]
}

/// The dotted text of an IPv4 address.
pub open spec fn ipv4_text(v: u32) -> Seq<char> {
    let o = ipv4_octets(v);
    dec_text(o[0]) + seq!['.'] + dec_text(o[1]) + seq!['.'] + dec_text(o[2]) + seq!['.']
        + dec_text(o[3])
}

/// The eight groups of an IPv6 address, most significant first.
pub open spec fn ipv6_groups(v: u128) -> Seq<u16> {
    Seq::new(8, |i: int| (v >> ((112 - 16 * i) as u128)) as u16)
}

/// Texts joined by colons.
pub open spec fn join_colon(ps: Seq<Seq<char>>) -> Seq<char>
    decreases ps.len(),
{
    if ps.len() == 0 {
        Seq::empty()
    } else if ps.len() == 1 {
        ps[0]
    } else {
        join_colon(ps.drop_last()) + seq![':'] + ps.last()
    }
}

/// The lowercase hex texts of groups.
pub open spec fn group_pieces(g: Seq<u16>) -> Seq<Seq<char>> {
    g.map_values(|x: u16| hex_text(x as nat))
}

/// Groups in lowercase hex without leading zeros, separated by colons.
pub open spec fn groups_text(g: Seq<u16>) -> Seq<char> {
    join_colon(group_pieces(g))
}

/// The groups `g[s..s + l]` are all zero.
pub open spec fn zero_run(g: Seq<u16>, s: int, l: int) -> bool {
    &&& 0 <= s
    &&& 0 <= l
    &&& s + l <= g.len()
    &&& forall|k: int| s <= k < s + l ==> g[k] == 0
}

/// `g[s..s + l]` is the first of the longest runs of zero groups.
pub open spec fn first_longest_zero_run(g: Seq<u16>, s: int, l: int) -> bool {
    &&& zero_run(g, s, l)
    &&& forall|s2: int, l2: int| #[trigger] zero_run(g, s2, l2) ==> l2 <= l
    &&& forall|s2: int| 0 <= s2 < s ==> !#[trigger] zero_run(g, s2, l)
}

/// The start and length of the first of the longest runs of zero groups.
pub open spec fn longest_zero_run(g: Seq<u16>) -> (int, int) {
    choose|s: int, l: int| first_longest_zero_run(g, s, l)
}

/// Whether the groups are those of an IPv4-mapped address `::ffff:a.b.c.d`.
pub open spec fn is_ipv4_mapped(g: Seq<u16>) -> bool {
    g[0] == 0 && g[1] == 0 && g[2] == 0 && g[3] == 0 && g[4] == 0 && g[5] == 0xffff
}

/// The text of an IPv6 address, as std writes it: `::ffff:` and the dotted
/// IPv4 address for an IPv4-mapped address; else the groups in lowercase hex
/// without leading zeros, separated by colons, where the first of the longest
/// runs of two or more zero groups is written `::`.
pub open spec fn ipv6_text(v: u128) -> Seq<char> {
    let g = ipv6_groups(v);
    if is_ipv4_mapped(g) {
        seq![':', ':', 'f', 'f', 'f', 'f', ':'] + ipv4_text(v as u32)
    } else {
        let (s, l) = longest_zero_run(g);
        if l > 1 {
            groups_text(g.subrange(0, s)) + seq![':', ':'] + groups_text(g.subrange(s + l, 8))
        } else {
            groups_text(g)
        }
    }
}

/// The text of a socket address: `a.b.c.d:port`, or `[ipv6]:port` with
/// `%scope` before the bracket when the scope id is not 0. The flow
/// information is not written.
pub open spec fn socket_text(a: SocketAddr) -> Seq<char> {
    match a {
        SocketAddr::V4 { ip, port } => ipv4_text(ip) + seq![':'] + dec_text(port as nat),
        SocketAddr::V6 { ip, port, scope_id, .. } => seq!['['] + ipv6_text(ip) + (if scope_id
            == 0 {
            Seq::<char>::empty()
        } else {
            seq!['%'] + dec_text(scope_id as nat)
        }) + seq![']'] + seq![':'] + dec_text(port as nat),
    }
}

proof fn lemma_dec_octet(n: nat)
    requires
        n <= 255,
    ensures
        spec_octet(dec_text(n)) == Some(n),
        split(dec_text(n), '.') == seq![dec_text(n)],
{
    lemma_dec_text(n);
    lemma_digits_text_chars(n, 10, '.');
    lemma_split_without_separator(dec_text(n), '.');
}

/// The dotted text of an IPv4 address reads back as that address.
pub proof fn lemma_ipv4_text_roundtrip(v: u32)
    ensures
        spec_parse_ipv4(ipv4_text(v)) == Some(v),
        forall|i: int| 0 <= i < ipv4_text(v).len() ==> #[trigger] ipv4_text(v)[i] == '.'
            || is_dec_digit(ipv4_text(v)[i]),
{
    let o = ipv4_octets(v);
    assert((v >> 24u32) & 0xff <= 255 && (v >> 16u32) & 0xff <= 255 && (v >> 8u32) & 0xff <= 255
        && v & 0xff <= 255) by (bit_vector);
    assert(v == ((v >> 24u32) & 0xff) * 16777216 + ((v >> 16u32) & 0xff) * 65536 + ((v >> 8u32)
        & 0xff) * 256 + (v & 0xff)) by (bit_vector);
    let (a, b, c, d) = (dec_text(o[0]), dec_text(o[1]), dec_text(o[2]), dec_text(o[3]));
    lemma_dec_octet(o[0]);
    lemma_dec_octet(o[1]);
    lemma_dec_octet(o[2]);
    lemma_dec_octet(o[3]);
    lemma_split_concat(a, b, '.');
    lemma_split_concat(a + seq!['.'] + b, c, '.');
    lemma_split_concat(a + seq!['.'] + b + seq!['.'] + c, d, '.');
    let parts = split(ipv4_text(v), '.');
    assert(parts =~= seq![a, b, c, d]);
    let t = ipv4_text(v);
    assert forall|i: int| 0 <= i < t.len() implies #[trigger] t[i] == '.' || is_dec_digit(t[i]) by {
        lemma_dec_text(o[0]);
        lemma_dec_text(o[1]);
        lemma_dec_text(o[2]);
        lemma_dec_text(o[3]);
        if i < a.len() {
            assert(t[i] == a[i]);
        } else if i == a.len() {
        } else if i < a.len() + 1 + b.len() {
            assert(t[i] == b[i - a.len() - 1]);
        } else if i == a.len() + 1 + b.len() {
        } else if i < a.len() + 2 + b.len() + c.len() {
            assert(t[i] == c[i - a.len() - b.len() - 2]);
        } else if i == a.len() + 2 + b.len() + c.len() {
        } else {
            assert(t[i] == d[i - a.len() - b.len() - c.len() - 3]);
        }
    }
}

/// Every character of an IPv4 address text is a digit or a dot.
pub proof fn lemma_ipv4_chars(p: Seq<char>)
    requires
        spec_parse_ipv4(p) is Some,
    ensures
        forall|i: int| 0 <= i < p.len() ==> #[trigger] p[i] == '.' || is_dec_digit(p[i]),
{
    let parts = split(p, '.');
    assert forall|i: int| 0 <= i < p.len() implies #[trigger] p[i] == '.' || is_dec_digit(p[i]) by {
        if p[i] != '.' {
            lemma_split_keeps_characters(p, '.', i);
            let (k, j) = choose|k: int, j: int|
                0 <= k < parts.len() && 0 <= j < parts[k].len() && #[trigger] parts[k][j] == p[i];
            assert(is_dec_digit(parts[k][j]));
        }
    }
}

/// Every character of colon-joined texts is a colon or a character of one
/// of the texts.
proof fn lemma_join_colon_chars(ps: Seq<Seq<char>>, p: spec_fn(char) -> bool)
    requires
        p(':'),
        forall|k: int, j: int| 0 <= k < ps.len() && 0 <= j < ps[k].len() ==> p(#[trigger] ps[k][j]),
    ensures
        forall|i: int| 0 <= i < join_colon(ps).len() ==> p(#[trigger] join_colon(ps)[i]),
    decreases ps.len(),
{
    if ps.len() == 1 {
        assert forall|i: int| 0 <= i < join_colon(ps).len() implies p(#[trigger] join_colon(ps)[i]) by {
            assert(join_colon(ps)[i] == ps[0][i]);
        }
    } else if ps.len() > 1 {
        let init = ps.drop_last();
        assert forall|k: int, j: int| 0 <= k < init.len() && 0 <= j < init[k].len() implies p(
            #[trigger] init[k][j],
        ) by {
            assert(init[k] == ps[k]);
        }
        lemma_join_colon_chars(init, p);
        let a = join_colon(init);
        let b = ps.last();
        assert forall|i: int| 0 <= i < join_colon(ps).len() implies p(#[trigger] join_colon(ps)[i]) by {
            if i < a.len() {
                assert(join_colon(ps)[i] == a[i]);
            } else if i > a.len() {
                assert(join_colon(ps)[i] == b[i - a.len() - 1]);
                assert(b == ps[ps.len() - 1]);
            }
        }
    }
}

/// Colon-joined non-empty texts without colons have no two colons side by
/// side, and neither begin nor end with one.
proof fn lemma_join_colon_shape(ps: Seq<Seq<char>>)
    requires
        ps.len() >= 1,
        forall|k: int| 0 <= k < ps.len() ==> (#[trigger] ps[k]).len() >= 1,
        forall|k: int, j: int| 0 <= k < ps.len() && 0 <= j < ps[k].len() ==> #[trigger] ps[k][j] != ':',
    ensures
        join_colon(ps).len() >= 1,
        join_colon(ps).last() != ':',
        join_colon(ps)[0] != ':',
        forall|i: int| 0 <= i < join_colon(ps).len() - 1 ==> !(#[trigger] join_colon(ps)[i] == ':'
            && join_colon(ps)[i + 1] == ':'),
    decreases ps.len(),
{
    let s = join_colon(ps);
    if ps.len() == 1 {
        assert(s == ps[0]);
        assert(s[s.len() - 1] != ':');
        assert(s[0] != ':');
    } else {
        let init = ps.drop_last();
        assert forall|k: int| 0 <= k < init.len() implies (#[trigger] init[k]).len() >= 1 by {
            assert(init[k] == ps[k]);
        }
        assert forall|k: int, j: int| 0 <= k < init.len() && 0 <= j < init[k].len() implies #[trigger] init[k][j]
            != ':' by {
            assert(init[k] == ps[k]);
        }
        lemma_join_colon_shape(init);
        let a = join_colon(init);
        let b = ps.last();
        assert(b == ps[ps.len() - 1]);
        assert(b.len() >= 1);
        assert(b[0] != ':' && b[b.len() - 1] != ':');
        assert(s[0] == a[0]);
        assert(s[s.len() - 1] == b[b.len() - 1]);
        assert forall|i: int| 0 <= i < s.len() - 1 implies !(#[trigger] s[i] == ':' && s[i + 1]
            == ':') by {
            if i < a.len() - 1 {
                assert(s[i] == a[i] && s[i + 1] == a[i + 1]);
            } else if i == a.len() - 1 {
                assert(s[i] == a[a.len() - 1]);
            } else if i == a.len() {
                assert(s[i + 1] == b[0]);
            } else {
                assert(s[i] == b[i - a.len() - 1]);
            }
        }
    }
}

/// Texts without colons come back from their colon-joined text.
proof fn lemma_join_colon_split(ps: Seq<Seq<char>>)
    requires
        ps.len() >= 1,
        forall|k: int, j: int| 0 <= k < ps.len() && 0 <= j < ps[k].len() ==> #[trigger] ps[k][j] != ':',
    ensures
        split(join_colon(ps), ':') == ps,
    decreases ps.len(),
{
    let b = ps.last();
    assert(b == ps[ps.len() - 1]);
    assert forall|i: int| 0 <= i < b.len() implies b[i] != ':' by {
        assert(b[i] == ps[ps.len() - 1][i]);
    }
    lemma_split_without_separator(b, ':');
    if ps.len() == 1 {
        assert(seq![b] =~= ps);
    } else {
        let init = ps.drop_last();
        assert forall|k: int, j: int| 0 <= k < init.len() && 0 <= j < init[k].len() implies #[trigger] init[k][j]
            != ':' by {
            assert(init[k] == ps[k]);
        }
        lemma_join_colon_split(init);
        lemma_split_concat(join_colon(init), b, ':');
        assert(init + seq![b] =~= ps);
    }
}

/// Pieces that are each one hex group give those groups.
proof fn lemma_hex_groups_of(ps: Seq<Seq<char>>, g: Seq<u16>)
    requires
        ps.len() == g.len(),
        forall|k: int| 0 <= k < ps.len() ==> spec_hex_group(#[trigger] ps[k]) == Some(g[k]),
    ensures
        hex_groups(ps) == Some(g),
    decreases ps.len(),
{
    if ps.len() == 0 {
        assert(g =~= Seq::<u16>::empty());
    } else {
        let (pi, gi) = (ps.drop_last(), g.drop_last());
        assert forall|k: int| 0 <= k < pi.len() implies spec_hex_group(#[trigger] pi[k]) == Some(gi[k]) by {
            assert(pi[k] == ps[k]);
        }
        lemma_hex_groups_of(pi, gi);
        assert(ps.last() == ps[ps.len() - 1]);
        assert(gi.push(g.last()) =~= g);
    }
}

/// The value of the eight groups of an address is the address.
proof fn lemma_ipv6_groups_value(v: u128)
    ensures
        groups_value(ipv6_groups(v)) == v,
{
    let g = ipv6_groups(v);
    lemma_groups_value_8(g);
    assert(g[0] == (v >> 112u128) as u16);
    assert(g[1] == (v >> 96u128) as u16);
    assert(g[2] == (v >> 80u128) as u16);
    assert(g[3] == (v >> 64u128) as u16);
    assert(g[4] == (v >> 48u128) as u16);
    assert(g[5] == (v >> 32u128) as u16);
    assert(g[6] == (v >> 16u128) as u16);
    assert(g[7] == (v >> 0u128) as u16);
    assert(v == ((v >> 112u128) as u16) * 0x1_0000_0000_0000_0000_0000_0000_0000nat + ((v
        >> 96u128) as u16) * 0x1_0000_0000_0000_0000_0000_0000nat + ((v >> 80u128) as u16)
        * 0x1_0000_0000_0000_0000_0000nat + ((v >> 64u128) as u16) * 0x1_0000_0000_0000_0000nat
        + ((v >> 48u128) as u16) * 0x1_0000_0000_0000nat + ((v >> 32u128) as u16)
        * 0x1_0000_0000nat + ((v >> 16u128) as u16) * 0x1_0000nat + ((v >> 0u128) as u16))
        by (bit_vector);
}

/// Groups written in hex and joined by colons split back into their pieces,
/// which give the groups back; the text has no two colons side by side,
/// neither begins nor ends with one, and holds only hex digits and colons.
proof fn lemma_groups_text(g: Seq<u16>)
    requires
        g.len() >= 1,
    ensures
        split(groups_text(g), ':') == group_pieces(g),
        hex_groups(group_pieces(g)) == Some(g),
        groups_of(group_pieces(g)) == Some(g),
        groups_text(g).len() >= 1,
        groups_text(g)[0] != ':',
        groups_text(g).last() != ':',
        forall|p: int| 0 <= p < groups_text(g).len() - 1 ==> !(#[trigger] groups_text(g)[p] == ':'
            && groups_text(g)[p + 1] == ':'),
        forall|i: int| 0 <= i < groups_text(g).len() ==> #[trigger] groups_text(g)[i] == ':'
            || is_hex_digit(groups_text(g)[i]),
{
    let ps = group_pieces(g);
    let t = groups_text(g);
    assert forall|k: int| 0 <= k < ps.len() implies spec_hex_group(#[trigger] ps[k]) == Some(g[k])
        && ps[k].len() >= 1 && all_hex_digits(ps[k]) && (forall|j: int| 0 <= j < ps[k].len() ==> ps[k][j] != ':') by {
        assert(ps[k] == hex_text(g[k] as nat));
        lemma_hex_text(g[k] as nat);
        lemma_digits_text_chars(g[k] as nat, 16, ':');
    }
    assert forall|k: int, j: int| 0 <= k < ps.len() && 0 <= j < ps[k].len() implies #[trigger] ps[k][j] != ':'
        && is_hex_digit(ps[k][j]) by {
        assert(all_hex_digits(ps[k]));
        assert(forall|j: int| 0 <= j < ps[k].len() ==> ps[k][j] != ':');
    }
    assert forall|k: int| 0 <= k < ps.len() implies (#[trigger] ps[k]).len() >= 1 by {
        assert(spec_hex_group(ps[k]) == Some(g[k]));
    }
    lemma_join_colon_split(ps);
    lemma_join_colon_shape(ps);
    lemma_hex_groups_of(ps, g);
    lemma_hex_groups_of(ps.drop_last(), g.drop_last());
    assert(spec_hex_group(ps.last()) == Some(g.last())) by {
        assert(ps.last() == ps[ps.len() - 1]);
    }
    assert(g.drop_last() + seq![g.last()] =~= g);
    let p = |c: char| c == ':' || is_hex_digit(c);
    lemma_join_colon_chars(ps, p);
    assert forall|i: int| 0 <= i < t.len() implies #[trigger] t[i] == ':' || is_hex_digit(t[i]) by {
        assert(p(t[i]));
    }
}

/// A longest length of a zero run exists, at most `l` when no run is longer.
proof fn lemma_longest_length(g: Seq<u16>, l: int) -> (r: int)
    requires
        0 <= l,
        forall|s2: int, l2: int| #[trigger] zero_run(g, s2, l2) ==> l2 <= l,
    ensures
        exists|s: int| zero_run(g, s, r),
        forall|s2: int, l2: int| #[trigger] zero_run(g, s2, l2) ==> l2 <= r,
    decreases l,
{
    assert(zero_run(g, 0, 0));
    if exists|s: int| zero_run(g, s, l) {
        l
    } else {
        assert forall|s2: int, l2: int| #[trigger] zero_run(g, s2, l2) implies l2 <= l - 1 by {
            if l2 == l {
                assert(zero_run(g, s2, l));
            }
        }
        lemma_longest_length(g, l - 1)
    }
}

/// A first zero run of length `l` exists where one exists at `s`.
proof fn lemma_first_run(g: Seq<u16>, l: int, s: int) -> (r: int)
    requires
        zero_run(g, s, l),
    ensures
        zero_run(g, r, l),
        forall|s2: int| 0 <= s2 < r ==> !#[trigger] zero_run(g, s2, l),
    decreases s,
{
    if exists|s2: int| 0 <= s2 < s && zero_run(g, s2, l) {
        let s2 = choose|s2: int| 0 <= s2 < s && zero_run(g, s2, l);
        lemma_first_run(g, l, s2)
    } else {
        s
    }
}

/// Every sequence of groups has a first longest zero run.
proof fn lemma_longest_zero_run_exists(g: Seq<u16>)
    ensures
        first_longest_zero_run(g, longest_zero_run(g).0, longest_zero_run(g).1),
{
    let l = lemma_longest_length(g, g.len() as int);
    let s0 = choose|s: int| zero_run(g, s, l);
    let s = lemma_first_run(g, l, s0);
    assert(first_longest_zero_run(g, s, l));
    assert(exists|s1: int, l1: int| first_longest_zero_run(g, s1, l1));
}

/// The first longest zero run is the only one that is first and longest.
proof fn lemma_longest_zero_run_unique(g: Seq<u16>, s: int, l: int)
    requires
        first_longest_zero_run(g, s, l),
    ensures
        longest_zero_run(g) == (s, l),
{
    assert(exists|s1: int, l1: int| first_longest_zero_run(g, s1, l1));
    let p = longest_zero_run(g);
    assert(first_longest_zero_run(g, p.0, p.1));
    assert(p.1 <= l && l <= p.1);
    if p.0 < s {
        assert(zero_run(g, p.0, l));
    } else if s < p.0 {
        assert(zero_run(g, s, p.1));
    }
}

/// The first `::` of `a + "::" + b`, when `a` has none and does not end with a
/// colon.
proof fn lemma_find_double_colon_at(a: Seq<char>, b: Seq<char>, from: int)
    requires
        0 <= from <= a.len(),
        forall|p: int| 0 <= p < a.len() - 1 ==> !(#[trigger] a[p] == ':' && a[p + 1] == ':'),
        a.len() > 0 ==> a.last() != ':',
    ensures
        find_double_colon_from(a + seq![':', ':'] + b, from) == Some(a.len() as int),
    decreases a.len() - from,
{
    let t = a + seq![':', ':'] + b;
    if from < a.len() {
        assert(t[from] == a[from]);
        if from < a.len() - 1 {
            assert(t[from + 1] == a[from + 1]);
        } else {
            assert(a[from] == a.last());
        }
        lemma_find_double_colon_at(a, b, from + 1);
    } else {
        assert(t[from] == ':' && t[from + 1] == ':');
    }
}

/// The text of an IPv6 address reads back as that address, and holds only
/// hex digits, colons and dots.
pub proof fn lemma_ipv6_text_roundtrip(v: u128)
    ensures
        spec_parse_ipv6(ipv6_text(v)) == Some(v),
        forall|i: int| 0 <= i < ipv6_text(v).len() ==> #[trigger] ipv6_text(v)[i] == ':'
            || ipv6_text(v)[i] == '.' || is_hex_digit(ipv6_text(v)[i]),
{
    let g = ipv6_groups(v);
    let t = ipv6_text(v);
    lemma_ipv6_groups_value(v);
    if is_ipv4_mapped(g) {
        lemma_ipv4_mapped_text(v);
    } else {
        lemma_longest_zero_run_exists(g);
        let (s, l) = longest_zero_run(g);
        if l > 1 {
            lemma_compressed_text(g, s, l);
        } else {
            lemma_groups_text(g);
            lemma_no_double_colon(t, 0);
            assert(spec_ipv6_groups(t) == Some(g));
        }
    }
}

/// The groups with the zero run `g[s..s + l]` written `::` read back as
/// the groups.
proof fn lemma_compressed_text(g: Seq<u16>, s: int, l: int)
    requires
        g.len() == 8,
        zero_run(g, s, l),
        l > 1,
    ensures
        ({
            let t = groups_text(g.subrange(0, s)) + seq![':', ':'] + groups_text(
                g.subrange(s + l, 8),
            );
            &&& spec_ipv6_groups(t) == Some(g)
            &&& forall|i: int| 0 <= i < t.len() ==> #[trigger] t[i] == ':' || is_hex_digit(t[i])
        }),
{
    let (gh, gt) = (g.subrange(0, s), g.subrange(s + l, 8));
    let (a, b) = (groups_text(gh), groups_text(gt));
    let t = a + seq![':', ':'] + b;
    if gh.len() == 0 {
        assert(group_pieces(gh) =~= Seq::<Seq<char>>::empty());
        assert(a =~= Seq::<char>::empty());
    } else {
        lemma_groups_text(gh);
    }
    if gt.len() == 0 {
        assert(group_pieces(gt) =~= Seq::<Seq<char>>::empty());
        assert(b =~= Seq::<char>::empty());
    } else {
        lemma_groups_text(gt);
    }
    lemma_find_double_colon_at(a, b, 0);
    assert(t.subrange(0, a.len() as int) =~= a);
    assert(t.subrange(a.len() as int + 2, t.len() as int) =~= b);
    assert(gh + zero_groups(8 - gh.len() - gt.len()) + gt =~= g);
    assert(spec_ipv6_groups(t) == Some(g));
    assert forall|i: int| 0 <= i < t.len() implies #[trigger] t[i] == ':' || is_hex_digit(t[i]) by {
        if i < a.len() {
            assert(t[i] == a[i]);
        } else if i >= a.len() + 2 {
            assert(t[i] == b[i - a.len() - 2]);
        }
    }
}

/// An IPv4-mapped address written `::ffff:a.b.c.d` reads back as itself.
proof fn lemma_ipv4_mapped_text(v: u128)
    requires
        is_ipv4_mapped(ipv6_groups(v)),
    ensures
        spec_parse_ipv6(ipv6_text(v)) == Some(v),
        forall|i: int| 0 <= i < ipv6_text(v).len() ==> #[trigger] ipv6_text(v)[i] == ':'
            || ipv6_text(v)[i] == '.' || is_hex_digit(ipv6_text(v)[i]),
{
    let g = ipv6_groups(v);
    let w = v as u32;
    let x = ipv4_text(w);
    let f = seq!['f', 'f', 'f', 'f'];
    let t = ipv6_text(v);
    assert(t == seq![':', ':'] + (f + seq![':'] + x));
    lemma_ipv4_text_roundtrip(w);
    lemma_ipv4_chars(x);
    assert(find_double_colon_from(t, 0) == Some(0int));
    let tail = t.subrange(2, t.len() as int);
    assert(tail =~= f + seq![':'] + x);
    assert forall|i: int| 0 <= i < x.len() implies x[i] != ':' by {
        assert(x[i] == '.' || is_dec_digit(x[i]));
    }
    lemma_split_without_separator(x, ':');
    lemma_split_without_separator(f, ':');
    lemma_split_concat(f, x, ':');
    let ps = split(tail, ':');
    assert(ps =~= seq![f, x]);
    assert(hex_value(f) == 0xffff) by {
        reveal_with_fuel(hex_value, 5);
        assert(hex_digit_value('f') == 15);
        assert(f.drop_last() =~= seq!['f', 'f', 'f']);
        assert(f.drop_last().drop_last() =~= seq!['f', 'f']);
        assert(f.drop_last().drop_last().drop_last() =~= seq!['f']);
        assert(f.drop_last().drop_last().drop_last().drop_last() =~= Seq::<char>::empty());
    }
    assert(spec_hex_group(f) == Some(0xffffu16));
    assert(ps.drop_last() =~= seq![f]);
    assert(seq![f].drop_last() =~= Seq::<Seq<char>>::empty());
    assert(seq![f].last() == f);
    assert(hex_groups(Seq::<Seq<char>>::empty()) == Some(Seq::<u16>::empty()));
    assert(Seq::<u16>::empty().push(0xffffu16) =~= seq![0xffffu16]);
    assert(hex_groups(seq![f]) == Some(seq![0xffffu16]));
    // The dotted text is no hex group: it has a dot.
    let o = ipv4_octets(w);
    lemma_dec_text(o[0]);
    assert(x[dec_text(o[0]).len() as int] == '.');
    assert(spec_hex_group(x) is None);
    let hi = (w / 65536) as u16;
    let lo = (w % 65536) as u16;
    assert(last_piece_groups(x) == Some(seq![hi, lo]));
    assert(g[6] == (v >> 16u128) as u16 && g[7] == (v >> 0u128) as u16);
    assert(((v >> 16u128) as u16) == (((v as u32) / 65536) as u16) && ((v >> 0u128) as u16) == (((
        v as u32) % 65536) as u16)) by (bit_vector);
    assert(seq![0xffffu16] + seq![hi, lo] =~= seq![0xffffu16, hi, lo]);
    assert(zero_groups(5) + seq![0xffffu16, hi, lo] =~= g);
    assert(Seq::<u16>::empty() + zero_groups(8 - 0 - 3) + seq![0xffffu16, hi, lo] =~= g);
    assert(spec_ipv6_groups(t) == Some(g));
    lemma_ipv6_groups_value(v);
    assert forall|i: int| 0 <= i < t.len() implies #[trigger] t[i] == ':' || t[i] == '.'
        || is_hex_digit(t[i]) by {
        if i >= 7 {
            assert(t[i] == x[i - 7]);
        }
    }
}

/// The text of a socket address reads back as that address (the text does
/// not carry the flow information, which reads back as 0). It opens with a
/// digit or `[` and closes with a digit of the port.
pub proof fn lemma_socket_text_roundtrip(a: SocketAddr)
    requires
        a matches SocketAddr::V6 { flowinfo, .. } ==> flowinfo == 0,
    ensures
        spec_parse_socket(socket_text(a)) == Some(a),
        socket_text(a).len() >= 2,
        is_dec_digit(socket_text(a)[0]) || socket_text(a)[0] == '[',
        is_dec_digit(socket_text(a).last()),
{
    let s = socket_text(a);
    match a {
        SocketAddr::V4 { ip, port } => {
            let t = ipv4_text(ip);
            let d = dec_text(port as nat);
            lemma_ipv4_text_roundtrip(ip);
            lemma_dec_text(port as nat);
            assert forall|i: int| 0 <= i < t.len() implies t[i] != ':' by {
                assert(t[i] == '.' || is_dec_digit(t[i]));
            }
            lemma_find_char_after(t, ':', d, 0);
            assert(s.subrange(0, t.len() as int) =~= t);
            assert(s.subrange(t.len() as int + 1, s.len() as int) =~= d);
            assert(spec_parse_socket_v4(s) == Some(a));
            let o = ipv4_octets(ip);
            lemma_dec_text(o[0]);
            assert(s[0] == dec_text(o[0])[0]);
            assert(is_dec_digit(dec_text(o[0])[0]));
            assert(s.last() == d.last());
            assert(is_dec_digit(d[d.len() - 1]));
        },
        SocketAddr::V6 { ip, port, flowinfo, scope_id } => {
            let t = ipv6_text(ip);
            let d = dec_text(port as nat);
            let m = if scope_id == 0 {
                Seq::<char>::empty()
            } else {
                seq!['%'] + dec_text(scope_id as nat)
            };
            let x = seq!['['] + t + m;
            lemma_ipv6_text_roundtrip(ip);
            lemma_dec_text(port as nat);
            lemma_dec_text(scope_id as nat);
            assert(s =~= x + seq![']'] + (seq![':'] + d));
            assert forall|i: int| 0 <= i < x.len() implies x[i] != ']' by {
                if 1 <= i < 1 + t.len() {
                    assert(x[i] == t[i - 1]);
                    assert(t[i - 1] == ':' || t[i - 1] == '.' || is_hex_digit(t[i - 1]));
                } else if i >= 1 + t.len() + 1 {
                    assert(x[i] == dec_text(scope_id as nat)[i - t.len() - 2]);
                    assert(is_dec_digit(dec_text(scope_id as nat)[i - t.len() - 2]));
                }
            }
            lemma_find_char_after(x, ']', seq![':'] + d, 0);
            let inner = s.subrange(1, x.len() as int);
            let rest = s.subrange(x.len() as int + 1, s.len() as int);
            assert(inner =~= t + m);
            assert(rest =~= seq![':'] + d);
            assert(rest.drop_first() =~= d);
            assert forall|i: int| 0 <= i < t.len() implies t[i] != '%' by {
                assert(t[i] == ':' || t[i] == '.' || is_hex_digit(t[i]));
            }
            if scope_id == 0 {
                assert(inner =~= t);
                lemma_find_char_absent(inner, '%', 0);
            } else {
                let e = dec_text(scope_id as nat);
                assert(inner =~= t + seq!['%'] + e);
                lemma_find_char_after(t, '%', e, 0);
                assert(inner.subrange(0, t.len() as int) =~= t);
                assert(inner.subrange(t.len() as int + 1, inner.len() as int) =~= e);
            }
            assert(spec_parse_socket_v6(s) == Some(a));
            // No IPv4 text starts with `[`.
            match find_char(s, ':') {
                Some(i) => {
                    lemma_find_char_from(s, ':', 0);
                    assert(s[0] == '[');
                    if spec_parse_ipv4(s.subrange(0, i)) is Some {
                        lemma_ipv4_chars(s.subrange(0, i));
                        assert(s.subrange(0, i)[0] == '[');
                    }
                },
                None => {},
            }
            assert(spec_parse_socket_v4(s) is None);
            assert(s.last() == d.last());
            assert(is_dec_digit(d[d.len() - 1]));
        },
    }
}

/// The text of an IP address, as std writes it: dotted decimal for IPv4, the
/// compressed colon separated hex groups for IPv6.
pub open spec fn ip_text(ip: IpAddr) -> Seq<char> {
    match ip {
        IpAddr::V4(v) => ipv4_text(v),
        IpAddr::V6(v) => ipv6_text(v),
    }
}

/// Appends the dotted text of an IPv4 address to `out`.
fn push_ipv4(out: &mut String, v: u32)
    ensures
        final(out)@ == old(out)@ + ipv4_text(v),
{
    proof {
        reveal_strlit(".");
    }
    push_digits(out, ((v >> 24u32) & 0xff) as u64, 10);
    push_str(out, ".");
    push_digits(out, ((v >> 16u32) & 0xff) as u64, 10);
    push_str(out, ".");
    push_digits(out, ((v >> 8u32) & 0xff) as u64, 10);
    push_str(out, ".");
    push_digits(out, (v & 0xff) as u64, 10);
    assert(final(out)@ =~= old(out)@ + ipv4_text(v));
}

/// The eight groups of an IPv6 address.
fn groups_exec(v: u128) -> (g: Vec<u16>)
    ensures
        g@ == ipv6_groups(v),
{
    let mut g: Vec<u16> = Vec::new();
    let mut i: u32 = 0;
    while i < 8
        invariant
            i <= 8,
            g@ == ipv6_groups(v).take(i as int),
        decreases 8 - i,
    {
        let sh: u128 = (112 - 16 * i) as u128;
        g.push((v >> sh) as u16);
        assert(g@ =~= ipv6_groups(v).take(i + 1));
        i = i + 1;
    }
    assert(ipv6_groups(v).take(8) =~= ipv6_groups(v));
    g
}

/// The start and length of the first of the longest runs of zero groups.
fn longest_zero_run_exec(g: &Vec<u16>) -> (r: (usize, usize))
    ensures
        first_longest_zero_run(g@, r.0 as int, r.1 as int),
{
    let mut cs: usize = 0;
    let mut cl: usize = 0;
    let mut bs: usize = 0;
    let mut bl: usize = 0;
    let mut i: usize = 0;
    while i < g.len()
        invariant
            i <= g.len(),
            cs + cl == i,
            zero_run(g@, cs as int, cl as int),
            cs == 0 || g@[cs - 1] != 0,
            zero_run(g@, bs as int, bl as int),
            bs + bl <= i,
            forall|s2: int, l2: int| s2 + l2 <= i && #[trigger] zero_run(g@, s2, l2) ==> l2 <= bl,
            forall|s2: int| 0 <= s2 < bs ==> !#[trigger] zero_run(g@, s2, bl as int),
        decreases g.len() - i,
    {
        let ghost (ocs, ocl, obs, obl) = (cs as int, cl as int, bs as int, bl as int);
        if g[i] == 0 {
            cl = cl + 1;
            assert(zero_run(g@, cs as int, cl as int));
            assert forall|s2: int, l2: int| s2 + l2 <= i + 1 && #[trigger] zero_run(g@, s2, l2)
                implies l2 <= obl || l2 <= cl by {
                if s2 + l2 == i + 1 && l2 > cl {
                    assert(g@[cs - 1] == 0);
                }
            }
            if cl > bl {
                assert forall|s2: int| 0 <= s2 < cs implies !#[trigger] zero_run(g@, s2, cl as int) by {
                    if zero_run(g@, s2, cl as int) {
                        assert(s2 + cl <= i);
                    }
                }
                bs = cs;
                bl = cl;
            }
        } else {
            assert forall|s2: int, l2: int| s2 + l2 <= i + 1 && #[trigger] zero_run(g@, s2, l2)
                implies l2 <= bl by {
                if s2 + l2 == i + 1 && l2 > 0 {
                    assert(g@[i as int] == 0);
                }
            }
            cs = i + 1;
            cl = 0;
        }
        i = i + 1;
    }
    (bs, bl)
}

/// Appends the groups `g[lo..hi]` in hex, separated by colons, to `out`.
fn push_groups(out: &mut String, g: &Vec<u16>, lo: usize, hi: usize)
    requires
        lo <= hi <= g.len(),
    ensures
        final(out)@ == old(out)@ + groups_text(g@.subrange(lo as int, hi as int)),
{
    let ghost start = out@;
    let ghost ps = group_pieces(g@.subrange(lo as int, hi as int));
    let mut i: usize = lo;
    while i < hi
        invariant
            lo <= i <= hi <= g.len(),
            ps == group_pieces(g@.subrange(lo as int, hi as int)),
            out@ == start + join_colon(ps.take(i - lo)),
        decreases hi - i,
    {
        proof {
            reveal_strlit(":");
        }
        let ghost before = out@;
        if i > lo {
            push_str(out, ":");
        }
        push_digits(out, g[i] as u64, 16);
        proof {
            let t = ps.take(i - lo + 1);
            assert(ps[i - lo] == hex_text(g@[i as int] as nat));
            assert(t.drop_last() =~= ps.take(i - lo));
            assert(t.last() == ps[i - lo]);
            if i == lo {
                assert(join_colon(t) == t[0]);
                assert(out@ =~= start + join_colon(t));
            } else {
                assert(join_colon(t) == join_colon(t.drop_last()) + seq![':'] + t.last());
                assert(out@ =~= before + seq![':'] + hex_text(g@[i as int] as nat));
                assert(out@ =~= start + join_colon(t));
            }
        }
        i = i + 1;
    }
    assert(ps.take(hi - lo) =~= ps);
}

/// Appends the text of an IPv6 address to `out`.
fn push_ipv6(out: &mut String, v: u128)
    ensures
        final(out)@ == old(out)@ + ipv6_text(v),
{
    proof {
        reveal_strlit("::ffff:");
        reveal_strlit("::");
    }
    let g = groups_exec(v);
    if g[0] == 0 && g[1] == 0 && g[2] == 0 && g[3] == 0 && g[4] == 0 && g[5] == 0xffff {
        push_str(out, "::ffff:");
        push_ipv4(out, v as u32);
        assert(final(out)@ =~= old(out)@ + ipv6_text(v));
    } else {
        let (s, l) = longest_zero_run_exec(&g);
        proof {
            lemma_longest_zero_run_unique(g@, s as int, l as int);
        }
        if l > 1 {
            push_groups(out, &g, 0, s);
            push_str(out, "::");
            push_groups(out, &g, s + l, 8);
            assert(final(out)@ =~= old(out)@ + ipv6_text(v));
        } else {
            push_groups(out, &g, 0, 8);
            assert(g@.subrange(0, 8) =~= g@);
        }
    }
}

/// Appends the text of a socket address to `out`.
fn push_socket(out: &mut String, a: &SocketAddr)
    ensures
        final(out)@ == old(out)@ + socket_text(*a),
{
    proof {
        reveal_strlit(":");
        reveal_strlit("[");
        reveal_strlit("]");
        reveal_strlit("%");
    }
    match a {
        SocketAddr::V4 { ip, port } => {
            push_ipv4(out, *ip);
            push_str(out, ":");
            push_digits(out, *port as u64, 10);
        },
        SocketAddr::V6 { ip, port, scope_id, .. } => {
            push_str(out, "[");
            push_ipv6(out, *ip);
            if *scope_id != 0 {
                push_str(out, "%");
                push_digits(out, *scope_id as u64, 10);
            }
            push_str(out, "]");
            push_str(out, ":");
            push_digits(out, *port as u64, 10);
        },
    }
    assert(final(out)@ =~= old(out)@ + socket_text(*a));
}

/// The text of an IP address, IPv4 or IPv6, reads back as that address.
pub proof fn lemma_ip_text_roundtrip(ip: IpAddr)
    ensures
        spec_parse_ip(ip_text(ip)) == Some(ip),
{
    match ip {
        IpAddr::V4(v) => lemma_ipv4_text_roundtrip(v),
        IpAddr::V6(v) => {
            lemma_ipv6_text_roundtrip(v);
            lemma_ipv4_and_ipv6_texts_are_disjoint(ipv6_text(v));
        },
    }
}

impl IpAddr {
    /// The text of this address, which reads back as it.
    pub fn to_text(&self) -> (r: String)
        ensures
            r@ == ip_text(*self),
            spec_parse_ip(r@) == Some(*self),
    {
        let mut out = String::new();
        match self {
            IpAddr::V4(v) => push_ipv4(&mut out, *v),
            IpAddr::V6(v) => push_ipv6(&mut out, *v),
        }
        proof {
            assert(out@ =~= ip_text(*self));
            lemma_ip_text_roundtrip(*self);
        }
        out
    }
}

impl SocketAddr {
    /// The text of this socket address. It reads back as this address when
    /// the flow information is 0, which the text does not carry.
    pub fn to_text(&self) -> (r: String)
        ensures
            r@ == socket_text(*self),
            (self matches SocketAddr::V6 { flowinfo, .. } ==> flowinfo == 0) ==> spec_parse_socket(
                r@,
            ) == Some(*self),
    {
        let mut out = String::new();
        push_socket(&mut out, self);
        proof {
            assert(out@ =~= socket_text(*self));
            if self matches SocketAddr::V6 { flowinfo, .. } ==> flowinfo == 0 {
                lemma_socket_text_roundtrip(*self);
            }
        }
        out
    }
}

} // verus!

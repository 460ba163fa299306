//! The state that all sessions share: the configuration in force, and the
//! decisions taken against it (who may authenticate, where they may relay).
use crate::addr::{ip_text, lemma_ip_text_roundtrip, parse_ip_range, spec_parse_ip, spec_socket_of, IpAddr};
use crate::config::{
    bytes_equal, clone_destinations, destinations_view, has_key, lemma_admits_by_view, rules_view, spec_permits_host, spec_permits_ip, Config, Destination,
    DestinationView, Rule,
};
use crate::text::{
    all_plain, chars_of, debug_quoted, dec_text, lemma_plain_text_logged_as_is, log_quote, log_quoted,
    push_digits, push_str, str_eq,
};
use vstd::prelude::*;
use vstd::string::*;

verus! {

/// A request to relay a forwarded connection to `host` at `port`.
#[derive(Debug, PartialEq, Eq)]
pub struct Relay {
    pub host: String,
    pub port: u16,
}

impl Clone for Relay {
    fn clone(&self) -> (r: Relay)
        ensures
            r == *self,
    {
        Relay { host: self.host.clone(), port: self.port }
    }
}

/// The text of a relay target: the host as std's `Debug` quotes it, a colon
/// and the port.
pub open spec fn spec_relay_text(quoted_host: Seq<char>, port: u16) -> Seq<char> {
    quoted_host + seq![':'] + dec_text(port as nat)
}

/// The text of a relay target from its already quoted host.
pub fn relay_text(quoted_host: &str, port: u16) -> (r: String)
    ensures
        r@ == spec_relay_text(quoted_host@, port),
{
    proof {
        reveal_strlit(":");
    }
    let mut out = String::new();
    push_str(&mut out, quoted_host);
    push_str(&mut out, ":");
    push_digits(&mut out, port as u64, 10);
    assert(out@ =~= spec_relay_text(quoted_host@, port));
    out
}

impl Relay {
    /// The text of this relay target, as it is logged: `"host":port`.
    pub fn to_text(&self) -> (r: String)
        ensures
            r@ == spec_relay_text(debug_quoted(self.host@), self.port),
            r@ == spec_relay_text(log_quoted(self.host@), self.port),
    {
        let quoted = log_quote(self.host.as_str());
        relay_text(quoted.as_str(), self.port)
    }
}

/// A relay target whose host is printable ASCII other than `"` and `\` is
/// logged as the host between double quotes, as it is, a colon and the
/// port's digits.
pub proof fn lemma_plain_relay_logged_as_is(host: Seq<char>, port: u16)
    requires
        all_plain(host),
    ensures
        spec_relay_text(log_quoted(host), port) == seq!['"'] + host + seq!['"', ':'] + dec_text(
            port as nat,
        ),
        crate::text::decimal_value(spec_relay_text(log_quoted(host), port).subrange(
            host.len() as int + 3,
            spec_relay_text(log_quoted(host), port).len() as int,
        )) == port,
{
    lemma_plain_text_logged_as_is(host);
    crate::text::lemma_dec_text(port as nat);
    let t = spec_relay_text(log_quoted(host), port);
    assert(t =~= seq!['"'] + host + seq!['"', ':'] + dec_text(port as nat));
    assert(t.subrange(host.len() as int + 3, t.len() as int) =~= dec_text(port as nat));
}

/// The shared state: the configuration in force.
#[derive(Debug)]
pub struct Shared {
    config: Config,
}

impl Clone for Shared {
    fn clone(&self) -> (r: Shared)
        ensures
            r.config_in_force()@ == self.config_in_force()@,
    {
        Shared { config: self.config.clone() }
    }
}

/// Whether some rule admits `username` with `key`.
pub open spec fn spec_may_auth(rules: Seq<Rule>, username: Seq<char>, key: Seq<u8>) -> bool {
    exists|i: int| 0 <= i < rules.len() && (#[trigger] rules[i]).admits(username, key)
}

/// The destinations that `username` with `key` may relay to: those of the
/// first rule that admits them, or none when no rule does. A later rule is
/// tried only when no earlier rule admitted them.
pub open spec fn spec_auth(rules: Seq<Rule>, username: Seq<char>, key: Seq<u8>) -> Seq<
    DestinationView,
>
    decreases rules.len(),
{
    if rules.len() == 0 {
        Seq::empty()
    } else if rules[0].admits(username, key) {
        destinations_view(rules[0].permit@)
    } else {
        spec_auth(rules.drop_first(), username, key)
    }
}

/// Whether a relay to `host` at `port` is permitted by one of `permitted`: by
/// address when `host` is an IP address, else by host name.
pub open spec fn spec_relay_permitted(
    permitted: Seq<DestinationView>,
    host: Seq<char>,
    port: u16,
) -> bool {
    match spec_parse_ip(host) {
        Some(ip) => exists|i: int|
            0 <= i < permitted.len() && spec_permits_ip(#[trigger] permitted[i], ip, port),
        None => exists|i: int|
            0 <= i < permitted.len() && spec_permits_host(#[trigger] permitted[i], host, port),
    }
}

/// Whether `rule` admits `username` with `key`.
fn rule_admits(rule: &Rule, username: &str, key: &[u8]) -> (r: bool)
    ensures
        r == rule.admits(username@, key@),
{
    let user_ok = match &rule.username {
        Some(u) => str_eq(u.as_str(), username),
        None => true,
    };
    assert(user_ok == match rule.username {
        Some(u) => u@ == username@,
        None => true,
    });
    if !user_ok || rule.permit.len() == 0 {
        return false;
    }
    for i in 0..rule.ssh_keys.len()
        invariant
            forall|j: int| 0 <= j < i ==> rule.ssh_keys@[j]@ != key@,
            rule.permit.len() > 0,
            match rule.username {
                Some(u) => u@ == username@,
                None => true,
            },
    {
        if bytes_equal(&rule.ssh_keys[i], key) {
            assert(rule.ssh_keys@[i as int]@ == key@);
            assert(has_key(rule.ssh_keys@, key@));
            return true;
        }
    }
    false
}

impl Shared {
    /// Shared state with `config` in force.
    pub fn from_config(config: Config) -> (r: Shared)
        ensures
            r.config_in_force() == config,
    {
        Shared { config }
    }

    /// The configuration in force.
    pub closed spec fn config_in_force(&self) -> Config {
        self.config
    }

    /// The configuration in force.
    pub fn config(&self) -> (r: &Config)
        ensures
            *r == self.config_in_force(),
    {
        &self.config
    }

    /// Puts `config` in force in place of the current configuration.
    pub fn replace_config(&mut self, config: Config)
        ensures
            final(self).config_in_force() == config,
    {
        self.config = config;
    }

    /// Whether some rule admits `username` with `key` (and so a signature
    /// with that key would be accepted).
    pub fn may_auth(&self, username: &str, public_key: &[u8]) -> (r: bool)
        ensures
            r == spec_may_auth(self.config_in_force().rules@, username@, public_key@),
    {
        let rules = &self.config.rules;
        for i in 0..rules.len()
            invariant
                rules@ == self.config_in_force().rules@,
                forall|j: int| 0 <= j < i ==> !(#[trigger] rules@[j]).admits(username@, public_key@),
        {
            if rule_admits(&rules[i], username, public_key) {
                return true;
            }
        }
        false
    }

    /// The destinations that `username` with `public_key` may relay to: those
    /// of the first rule that admits them; empty when no rule admits them.
    pub fn auth(&self, username: &str, public_key: &[u8]) -> (r: Vec<Destination>)
        ensures
            destinations_view(r@) == spec_auth(self.config_in_force().rules@, username@, public_key@),
    {
        let rules = &self.config.rules;
        proof {
            assert(rules@.subrange(0, rules@.len() as int) =~= rules@);
        }
        for i in 0..rules.len()
            invariant
                rules@ == self.config_in_force().rules@,
                spec_auth(rules@, username@, public_key@) == spec_auth(
                    rules@.subrange(i as int, rules@.len() as int),
                    username@,
                    public_key@,
                ),
        {
            let ghost rest = rules@.subrange(i as int, rules@.len() as int);
            proof {
                assert(rest[0] == rules@[i as int]);
                assert(rest.drop_first() =~= rules@.subrange(i + 1, rules@.len() as int));
            }
            if rule_admits(&rules[i], username, public_key) {
                return clone_destinations(&rules[i].permit);
            }
        }
        proof {
            assert(rules@.subrange(rules.len() as int, rules@.len() as int) =~= Seq::<Rule>::empty());
        }
        Vec::new()
    }

    /// Decides a relay request against the destinations that the session was
    /// permitted: the request comes back, to be queued, exactly when one of
    /// them permits it.
    pub fn relay(&self, relay: Relay, permitted: &[Destination]) -> (r: Option<Relay>)
        ensures
            r is Some <==> spec_relay_permitted(destinations_view(permitted@), relay.host@, relay.port),
            r matches Some(q) ==> q == relay,
    {
        let ghost pv = destinations_view(permitted@);
        let host = chars_of(relay.host.as_str());
        proof {
            assert(host@.subrange(0, host.len() as int) =~= relay.host@);
        }
        let allowed = match parse_ip_range(&host, 0, host.len()) {
            Some(ip) => {
                let mut found = false;
                for i in 0..permitted.len()
                    invariant
                        pv == destinations_view(permitted@),
                        found <==> exists|j: int|
                            0 <= j < i && spec_permits_ip(#[trigger] pv[j], ip, relay.port),
                {
                    assert(pv[i as int] == permitted@[i as int]@);
                    if permitted[i].permits_ip(ip, relay.port) {
                        found = true;
                    }
                }
                found
            },
            None => {
                let mut found = false;
                for i in 0..permitted.len()
                    invariant
                        pv == destinations_view(permitted@),
                        found <==> exists|j: int|
                            0 <= j < i && spec_permits_host(
                                #[trigger] pv[j],
                                relay.host@,
                                relay.port,
                            ),
                {
                    assert(pv[i as int] == permitted@[i as int]@);
                    if permitted[i].permits_host(relay.host.as_str(), relay.port) {
                        found = true;
                    }
                }
                found
            },
        };
        if allowed {
            Some(relay)
        } else {
            None
        }
    }
}


/// A user with a key may authenticate exactly when there is somewhere they
/// may then relay to: `may_auth` holds exactly when `auth` is not empty.
pub proof fn lemma_may_auth_iff_auth_nonempty(rules: Seq<Rule>, username: Seq<char>, key: Seq<u8>)
    ensures
        spec_may_auth(rules, username, key) <==> spec_auth(rules, username, key).len() > 0,
    decreases rules.len(),
{
    if rules.len() > 0 {
        let rest = rules.drop_first();
        lemma_may_auth_iff_auth_nonempty(rest, username, key);
        if rules[0].admits(username, key) {
            assert(spec_may_auth(rules, username, key));
        } else {
            if spec_may_auth(rules, username, key) {
                let i = choose|i: int| 0 <= i < rules.len() && (#[trigger] rules[i]).admits(username, key);
                assert(rest[i - 1] == rules[i]);
            }
            if spec_may_auth(rest, username, key) {
                let i = choose|i: int| 0 <= i < rest.len() && (#[trigger] rest[i]).admits(username, key);
                assert(rules[i + 1] == rest[i]);
            }
        }
    }
}

/// Rules are tried in order: `auth` gives the destinations of the first rule
/// that admits the user with the key, and no earlier rule admits them; when
/// no rule admits them, it gives nothing.
pub proof fn lemma_auth_is_first_admitting_rule(
    rules: Seq<Rule>,
    username: Seq<char>,
    key: Seq<u8>,
)
    ensures
        spec_auth(rules, username, key).len() == 0 && (forall|j: int|
            0 <= j < rules.len() ==> !(#[trigger] rules[j]).admits(username, key)) || exists|i: int|
            0 <= i < rules.len() && (#[trigger] rules[i]).admits(username, key) && (forall|j: int|
                0 <= j < i ==> !(#[trigger] rules[j]).admits(username, key)) && spec_auth(
                rules,
                username,
                key,
            ) == destinations_view(rules[i].permit@),
    decreases rules.len(),
{
    if rules.len() > 0 {
        let rest = rules.drop_first();
        if rules[0].admits(username, key) {
            assert(rules[0].admits(username, key));
        } else {
            lemma_auth_is_first_admitting_rule(rest, username, key);
            if spec_auth(rest, username, key).len() == 0 && (forall|j: int|
                0 <= j < rest.len() ==> !(#[trigger] rest[j]).admits(username, key)) {
                assert forall|j: int| 0 <= j < rules.len() implies !(#[trigger] rules[j]).admits(
                    username,
                    key,
                ) by {
                    if j > 0 {
                        assert(rules[j] == rest[j - 1]);
                    }
                }
            } else {
                let i = choose|i: int|
                    0 <= i < rest.len() && (#[trigger] rest[i]).admits(username, key) && (forall|j: int|
                        0 <= j < i ==> !(#[trigger] rest[j]).admits(username, key)) && spec_auth(
                        rest,
                        username,
                        key,
                    ) == destinations_view(rest[i].permit@);
                assert(rules[i + 1] == rest[i]);
                assert forall|j: int| 0 <= j < i + 1 implies !(#[trigger] rules[j]).admits(
                    username,
                    key,
                ) by {
                    if j > 0 {
                        assert(rules[j] == rest[j - 1]);
                    }
                }
            }
        }
    }
}

/// Two configurations that are the same value take the same decisions: after
/// `replace_config(c)`, `auth` and `may_auth` answer as they would for state
/// built by `from_config` from a clone of `c`.
pub proof fn lemma_same_config_same_decisions(
    a: Config,
    b: Config,
    username: Seq<char>,
    key: Seq<u8>,
)
    requires
        a@ == b@,
    ensures
        spec_auth(a.rules@, username, key) == spec_auth(b.rules@, username, key),
        spec_may_auth(a.rules@, username, key) == spec_may_auth(b.rules@, username, key),
{
    assert(a.rules@.len() == rules_view(a.rules@).len());
    assert(b.rules@.len() == rules_view(b.rules@).len());
    lemma_rules_same_decisions(a.rules@, b.rules@, username, key);
}

proof fn lemma_rules_same_decisions(
    a: Seq<Rule>,
    b: Seq<Rule>,
    username: Seq<char>,
    key: Seq<u8>,
)
    requires
        rules_view(a) == rules_view(b),
        a.len() == b.len(),
    ensures
        spec_auth(a, username, key) == spec_auth(b, username, key),
        spec_may_auth(a, username, key) == spec_may_auth(b, username, key),
    decreases a.len(),
{
    assert forall|i: int| 0 <= i < a.len() implies (#[trigger] a[i]).admits(username, key)
        == b[i].admits(username, key) by {
        assert(rules_view(a)[i] == rules_view(b)[i]);
        assert(rules_view(a)[i] == a[i]@);
        assert(rules_view(b)[i] == b[i]@);
        lemma_admits_by_view(a[i], b[i], username, key);
    }
    if spec_may_auth(a, username, key) {
        let i = choose|i: int| 0 <= i < a.len() && (#[trigger] a[i]).admits(username, key);
        assert(b[i].admits(username, key));
    }
    if spec_may_auth(b, username, key) {
        let i = choose|i: int| 0 <= i < b.len() && (#[trigger] b[i]).admits(username, key);
        assert(a[i].admits(username, key));
    }
    if a.len() > 0 {
        assert(rules_view(a)[0] == rules_view(b)[0]);
        assert(rules_view(a)[0] == a[0]@);
        assert(rules_view(b)[0] == b[0]@);
        lemma_admits_by_view(a[0], b[0], username, key);
        assert(rules_view(a.drop_first()) =~= rules_view(a).drop_first());
        assert(rules_view(b.drop_first()) =~= rules_view(b).drop_first());
        lemma_rules_same_decisions(a.drop_first(), b.drop_first(), username, key);
    }
}

/// A destination list that holds `Anything` permits every relay.
pub proof fn lemma_anything_permits_every_relay(
    permitted: Seq<DestinationView>,
    i: int,
    host: Seq<char>,
    port: u16,
)
    requires
        0 <= i < permitted.len(),
        permitted[i] == DestinationView::Anything,
    ensures
        spec_relay_permitted(permitted, host, port),
{
    match spec_parse_ip(host) {
        Some(ip) => assert(spec_permits_ip(permitted[i], ip, port)),
        None => assert(spec_permits_host(permitted[i], host, port)),
    }
}

/// A relay to a host written as an IP address, IPv4 or IPv6 alike, is
/// permitted exactly when a permitted destination permits that address at
/// that port. So any port of an address, or the socket address of an address
/// and port, permits a relay to the text of that address.
pub proof fn lemma_relay_to_an_address(
    permitted: Seq<DestinationView>,
    host: Seq<char>,
    ip: IpAddr,
    port: u16,
)
    requires
        spec_parse_ip(host) == Some(ip),
    ensures
        spec_relay_permitted(permitted, host, port) <==> exists|i: int|
            0 <= i < permitted.len() && spec_permits_ip(#[trigger] permitted[i], ip, port),
        spec_relay_permitted(permitted, ip_text(ip), port) <==> spec_relay_permitted(
            permitted,
            host,
            port,
        ),
        permitted.contains(DestinationView::IpAnyPort(ip)) ==> spec_relay_permitted(
            permitted,
            host,
            port,
        ),
        permitted.contains(DestinationView::ExactAddr(spec_socket_of(ip, port)))
            ==> spec_relay_permitted(permitted, host, port),
{
    lemma_ip_text_roundtrip(ip);
    if permitted.contains(DestinationView::IpAnyPort(ip)) {
        let i = choose|i: int| 0 <= i < permitted.len() && permitted[i] == DestinationView::IpAnyPort(ip);
        assert(spec_permits_ip(permitted[i], ip, port));
    }
    if permitted.contains(DestinationView::ExactAddr(spec_socket_of(ip, port))) {
        let i = choose|i: int|
            0 <= i < permitted.len() && permitted[i] == DestinationView::ExactAddr(
                spec_socket_of(ip, port),
            );
        assert(spec_permits_ip(permitted[i], ip, port));
    }
}

/// Keys open only the rules that name no user or name the user logging in:
/// when authentication grants anything, it grants the destinations of a rule
/// that lists the key, permits something, and names no user or this user.
pub proof fn lemma_auth_needs_the_named_user(rules: Seq<Rule>, username: Seq<char>, key: Seq<u8>)
    ensures
        spec_auth(rules, username, key).len() > 0 || spec_may_auth(rules, username, key) ==> exists|
            i: int,
        |
            0 <= i < rules.len() && ((#[trigger] rules[i]).username is None || rules[i].username->0@
                == username) && (exists|k: int|
                0 <= k < rules[i].ssh_keys.len() && (#[trigger] rules[i].ssh_keys@[k])@ == key)
                && rules[i].permit.len() > 0 && spec_auth(rules, username, key)
                == destinations_view(rules[i].permit@),
{
    lemma_auth_is_first_admitting_rule(rules, username, key);
    lemma_may_auth_iff_auth_nonempty(rules, username, key);
    if spec_auth(rules, username, key).len() > 0 {
        let i = choose|i: int|
            0 <= i < rules.len() && (#[trigger] rules[i]).admits(username, key) && (forall|j: int|
                0 <= j < i ==> !(#[trigger] rules[j]).admits(username, key)) && spec_auth(
                rules,
                username,
                key,
            ) == destinations_view(rules[i].permit@);
        crate::config::lemma_rule_admits(rules[i], username, key);
    }
}

} // verus!

//! One client session: what it was permitted at authentication, the session
//! channels it opened and has not used yet, and the decisions taken on its
//! requests. Channels are held as opaque values of type `C`.
use crate::addr::SocketAddr;
use crate::config::{destinations_view, Destination, DestinationView};
use crate::honeypot::PasswordAttempt;
use crate::shared::{spec_auth, spec_may_auth, spec_relay_permitted, Relay, Shared};
use std::collections::BTreeMap;
use vstd::prelude::*;
use vstd::string::*;

verus! {

broadcast use vstd::std_specs::btree::group_btree_axioms;

/// The answer to an authentication request.
#[derive(Debug, Clone, Copy, PartialEq, Eq, Structural)]
pub enum AuthDecision {
    Accept,
    Reject,
}

/// The state of one client session.
pub struct SshSession<C> {
    addr: Option<SocketAddr>,
    permitted: Vec<Destination>,
    pending_channels: BTreeMap<u32, C>,
    authenticated: Ghost<bool>,
}

impl<C> SshSession<C> {
    /// A session permits nothing until a public key was accepted.
    #[verifier::type_invariant]
    spec fn permits_only_when_authenticated(&self) -> bool {
        !self.authenticated@ ==> self.permitted@.len() == 0
    }

    /// Whether a public key has been accepted in this session.
    pub closed spec fn authenticated(&self) -> bool {
        self.authenticated@
    }

    /// Where the client connected from, when known.
    pub closed spec fn peer(&self) -> Option<SocketAddr> {
        self.addr
    }

    /// The destinations the session may relay to.
    pub closed spec fn permitted(&self) -> Seq<DestinationView> {
        destinations_view(self.permitted@)
    }

    /// The session channels opened and not yet used, by channel id.
    pub closed spec fn pending(&self) -> Map<u32, C> {
        self.pending_channels@
    }

    /// A fresh session of a client at `addr`: nothing permitted, no channel pending.
    pub fn new(addr: Option<SocketAddr>) -> (r: SshSession<C>)
        ensures
            r.peer() == addr,
            r.permitted() == Seq::<DestinationView>::empty(),
            r.pending() == Map::<u32, C>::empty(),
            !r.authenticated(),
    {
        let r = SshSession {
            addr,
            permitted: Vec::new(),
            pending_channels: BTreeMap::new(),
            authenticated: Ghost(false),
        };
        assert(destinations_view(r.permitted@) =~= Seq::<DestinationView>::empty());
        r
    }

    /// Takes the pending channel `channel_id` out of the session, if there is one.
    pub fn take_pending_channel(&mut self, channel_id: u32) -> (r: Option<C>)
        ensures
            r == (if old(self).pending().contains_key(channel_id) {
                Some(old(self).pending()[channel_id])
            } else {
                None
            }),
            final(self).pending() == old(self).pending().remove(channel_id),
            final(self).permitted() == old(self).permitted(),
            final(self).peer() == old(self).peer(),
            final(self).authenticated() == old(self).authenticated(),
    {
        proof {
            use_type_invariant(&*self);
        }
        let mut pending = BTreeMap::new();
        std::mem::swap(&mut pending, &mut self.pending_channels);
        let r = pending.remove(&channel_id);
        self.pending_channels = pending;
        r
    }

    /// Keeps the newly opened session channel `channel` under `channel_id`
    /// until a request uses it.
    pub fn channel_open_session(&mut self, channel_id: u32, channel: C)
        ensures
            final(self).pending() == old(self).pending().insert(channel_id, channel),
            final(self).permitted() == old(self).permitted(),
            final(self).peer() == old(self).peer(),
            final(self).authenticated() == old(self).authenticated(),
    {
        proof {
            use_type_invariant(&*self);
        }
        let mut pending = BTreeMap::new();
        std::mem::swap(&mut pending, &mut self.pending_channels);
        pending.insert(channel_id, channel);
        self.pending_channels = pending;
    }

    /// A client asks whether `username` with `public_key` would be accepted:
    /// yes exactly when some rule admits them.
    pub fn auth_publickey_offered(&self, shared: &Shared, username: &str, public_key: &[u8]) -> (r:
        AuthDecision)
        ensures
            (r == AuthDecision::Accept) == spec_may_auth(
                shared.config_in_force().rules@,
                username@,
                public_key@,
            ),
    {
        if shared.may_auth(username, public_key) {
            AuthDecision::Accept
        } else {
            AuthDecision::Reject
        }
    }

    /// A password attempt: always rejected. The attempt comes back, to be
    /// handed to the honeypot, which logs or reports it as configured.
    pub fn auth_password(&self, user: &str, password: &str) -> (r: (AuthDecision, PasswordAttempt))
        ensures
            r.0 == AuthDecision::Reject,
            r.1.username@ == user@,
            r.1.password@ == password@,
            r.1.src == self.peer(),
    {
        let attempt = PasswordAttempt {
            username: String::from_str(user),
            password: String::from_str(password),
            src: self.addr,
        };
        (AuthDecision::Reject, attempt)
    }

    /// A verified public key: accepted exactly when it grants some destination,
    /// and then the session may relay to all the destinations granted.
    pub fn auth_publickey(&mut self, shared: &Shared, username: &str, public_key: &[u8]) -> (r:
        AuthDecision)
        ensures
            ({
                let granted = spec_auth(shared.config_in_force().rules@, username@, public_key@);
                if granted.len() > 0 {
                    r == AuthDecision::Accept && final(self).permitted() == granted
                } else {
                    r == AuthDecision::Reject && final(self).permitted() == old(self).permitted()
                }
            }),
            final(self).pending() == old(self).pending(),
            final(self).peer() == old(self).peer(),
            final(self).authenticated() == (old(self).authenticated() || r == AuthDecision::Accept),
    {
        let permitted = shared.auth(username, public_key);
        if permitted.len() > 0 {
            self.authenticated = Ghost(true);
            self.permitted = permitted;
            AuthDecision::Accept
        } else {
            AuthDecision::Reject
        }
    }

    /// A request to forward a connection to `host` at `port`: the relay to
    /// queue, when one of the session's permitted destinations permits it. The
    /// port is taken modulo 65536, as the protocol carries 32 bits.
    pub fn channel_open_direct_tcpip(&self, shared: &Shared, host: &str, port: u32) -> (r: Option<
        Relay,
    >)
        ensures
            r is Some <==> spec_relay_permitted(self.permitted(), host@, (port % 65536) as u16),
            r matches Some(q) ==> q.host@ == host@ && q.port == (port % 65536) as u16,
            !self.authenticated() ==> r is None,
    {
        proof {
            use_type_invariant(self);
            assert(!self.authenticated() ==> self.permitted() =~= Seq::<DestinationView>::empty());
        }
        let relay = Relay { host: String::from_str(host), port: (port % 65536) as u16 };
        shared.relay(relay, self.permitted.as_slice())
    }
}

/// An empty list of permitted destinations relays nowhere; with the type
/// invariant of `SshSession`, a session in which no public key was accepted
/// (whatever else it was asked) relays nowhere.
pub proof fn lemma_nothing_permitted_relays_nowhere(host: Seq<char>, port: u16)
    ensures
        !spec_relay_permitted(Seq::<DestinationView>::empty(), host, port),
{
}

/// A channel that was just opened is the one that taking it gives back, and
/// taking it leaves the other pending channels as they were.
pub proof fn lemma_take_returns_opened<C>(pending: Map<u32, C>, channel_id: u32, channel: C)
    ensures
        pending.insert(channel_id, channel).contains_key(channel_id),
        pending.insert(channel_id, channel)[channel_id] == channel,
        pending.insert(channel_id, channel).remove(channel_id) == pending.remove(channel_id),
{
    assert(pending.insert(channel_id, channel).remove(channel_id) =~= pending.remove(channel_id));
}

} // verus!

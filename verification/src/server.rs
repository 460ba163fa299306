//! Decisions taken when the daemon starts: logging, the address to listen on,
//! and what the SSH server announces.
use crate::addr::SocketAddr;
use crate::config::Honeypot;
use vstd::prelude::*;
use vstd::string::*;

verus! {

/// The identification string that the server sends unless spoofed.
pub const SERVER_ID: &'static str = "SSH-2.0-flowers-are-blooming-in-antarctica";

/// An authentication method that the server advertises.
#[derive(Debug, Clone, Copy, PartialEq, Eq, Structural)]
pub enum AuthMethod {
    Password,
    PublicKey,
}

impl Honeypot {
    /// The identification string to send: the spoofed one when configured.
    pub fn server_id(&self) -> (r: String)
        ensures
            match self.spoof_server_id {
                Some(id) => r@ == id@,
                None => r@ == SERVER_ID@,
            },
    {
        match &self.spoof_server_id {
            Some(id) => id.clone(),
            None => String::from_str(SERVER_ID),
        }
    }

    /// The authentication methods to advertise: public keys only, unless the
    /// honeypot baits password guessers, in which case passwords too (though
    /// no password is ever accepted).
    pub fn auth_methods(&self) -> (r: Vec<AuthMethod>)
        ensures
            r@ == if self.bait_password_bruteforce {
                seq![AuthMethod::Password, AuthMethod::PublicKey]
            } else {
                seq![AuthMethod::PublicKey]
            },
    {
        let mut methods: Vec<AuthMethod> = Vec::new();
        if self.bait_password_bruteforce {
            methods.push(AuthMethod::Password);
        }
        methods.push(AuthMethod::PublicKey);
        proof {
            if self.bait_password_bruteforce {
                assert(methods@ =~= seq![AuthMethod::Password, AuthMethod::PublicKey]);
            } else {
                assert(methods@ =~= seq![AuthMethod::PublicKey]);
            }
        }
        methods
    }
}

/// The log filter for the number of times `-v` was given.
pub fn log_filter(verbose: u8) -> (r: &'static str)
    ensures
        verbose == 0 ==> r@ == "hussh=info"@,
        verbose == 1 ==> r@ == "hussh=debug"@,
        verbose == 2 ==> r@ == "debug"@,
        verbose == 3 ==> r@ == "hussh=trace,debug"@,
        verbose > 3 ==> r@ == "trace"@,
{
    match verbose {
        0 => "hussh=info",
        1 => "hussh=debug",
        2 => "debug",
        3 => "hussh=trace,debug",
        _ => "trace",
    }
}

/// The address the SSH daemon listens on when neither the command line nor
/// the configuration names one: port 2 on every IPv6 (and IPv4) address.
pub fn default_bind_addr() -> (r: SocketAddr)
    ensures
        r == (SocketAddr::V6 { ip: 0, port: 2, flowinfo: 0, scope_id: 0 }),
{
    SocketAddr::V6 { ip: 0, port: 2, flowinfo: 0, scope_id: 0 }
}

} // verus!

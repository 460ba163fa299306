//! The honeypot: what becomes of an unsolicited password attempt, and how a
//! report of one is retried.
use crate::addr::{socket_text, SocketAddr};
use crate::text::{
    all_plain, debug_quoted, lemma_plain_text_logged_as_is, log_quote, log_quoted, push_str,
};
use crate::config::Honeypot;
use vstd::prelude::*;

verus! {

/// An unsolicited password authentication attempt.
#[derive(Debug, PartialEq, Eq)]
pub struct PasswordAttempt {
    pub username: String,
    pub password: String,
    /// Where the attempt came from, when known.
    pub src: Option<SocketAddr>,
}

/// The text of a password attempt, as it is logged, from its user name and
/// password as std's `Debug` quotes them: `password attempt`, then ` from `
/// and the source address when it is known, then ` for user `, the user name,
/// ` with password ` and the password.
pub open spec fn spec_attempt_text(
    src: Option<SocketAddr>,
    quoted_user: Seq<char>,
    quoted_password: Seq<char>,
) -> Seq<char> {
    "password attempt"@ + match src {
        Some(a) => " from "@ + socket_text(a),
        None => Seq::<char>::empty(),
    } + " for user "@ + quoted_user + " with password "@ + quoted_password
}

/// The text of a password attempt from its already quoted user name and password.
pub fn attempt_text(src: Option<SocketAddr>, quoted_user: &str, quoted_password: &str) -> (r:
    String)
    ensures
        r@ == spec_attempt_text(src, quoted_user@, quoted_password@),
{
    let mut out = String::new();
    push_str(&mut out, "password attempt");
    if let Some(a) = src {
        push_str(&mut out, " from ");
        let t = a.to_text();
        push_str(&mut out, t.as_str());
    }
    push_str(&mut out, " for user ");
    push_str(&mut out, quoted_user);
    push_str(&mut out, " with password ");
    push_str(&mut out, quoted_password);
    assert(out@ =~= spec_attempt_text(src, quoted_user@, quoted_password@));
    out
}

impl PasswordAttempt {
    /// The text of this attempt, as it is logged.
    pub fn to_text(&self) -> (r: String)
        ensures
            r@ == spec_attempt_text(self.src, debug_quoted(self.username@), debug_quoted(
                self.password@,
            )),
            r@ == spec_attempt_text(self.src, log_quoted(self.username@), log_quoted(
                self.password@,
            )),
    {
        let user = log_quote(self.username.as_str());
        let password = log_quote(self.password.as_str());
        attempt_text(self.src, user.as_str(), password.as_str())
    }
}

/// A password attempt whose user name and password are printable ASCII other
/// than `"` and `\` is logged with both as they are, letters in their case,
/// each between double quotes, after where it came from.
pub proof fn lemma_plain_attempt_logged_as_is(
    src: Option<SocketAddr>,
    username: Seq<char>,
    password: Seq<char>,
)
    requires
        all_plain(username),
        all_plain(password),
    ensures
        spec_attempt_text(src, log_quoted(username), log_quoted(password)) == "password attempt"@
            + match src {
            Some(a) => " from "@ + socket_text(a),
            None => Seq::<char>::empty(),
        } + " for user "@ + seq!['"'] + username + seq!['"'] + " with password "@ + seq!['"']
            + password + seq!['"'],
{
    lemma_plain_text_logged_as_is(username);
    lemma_plain_text_logged_as_is(password);
    assert(log_quoted(username) =~= seq!['"'] + username + seq!['"']);
    assert(log_quoted(password) =~= seq!['"'] + password + seq!['"']);
    assert(spec_attempt_text(src, log_quoted(username), log_quoted(password)) =~= "password attempt"@
        + match src {
        Some(a) => " from "@ + socket_text(a),
        None => Seq::<char>::empty(),
    } + " for user "@ + seq!['"'] + username + seq!['"'] + " with password "@ + seq!['"'] + password
        + seq!['"']);
}

/// What to do with a password attempt under the honeypot settings.
#[derive(Debug, PartialEq, Eq)]
pub struct AttemptHandling {
    /// Whether to log the attempt, password included.
    pub log: bool,
    /// Where to report the attempt, when anywhere.
    pub report_url: Option<String>,
}

impl Clone for PasswordAttempt {
    fn clone(&self) -> (r: PasswordAttempt)
        ensures
            r == *self,
    {
        PasswordAttempt {
            username: self.username.clone(),
            password: self.password.clone(),
            src: self.src,
        }
    }
}

impl Clone for AttemptHandling {
    fn clone(&self) -> (r: AttemptHandling)
        ensures
            r == *self,
    {
        let report_url = match &self.report_url {
            Some(u) => Some(u.clone()),
            None => None,
        };
        AttemptHandling { log: self.log, report_url }
    }
}

/// How often a report is posted at most.
pub const MAX_SUBMIT_ATTEMPTS: usize = 2;

/// The next step in reporting one attempt.
#[derive(Debug, Clone, Copy, PartialEq, Eq, Structural)]
pub enum SubmitStep {
    /// Post the report, after a short delay when `after_delay` holds.
    Post { after_delay: bool },
    /// The report was delivered; nothing more to do.
    Delivered,
    /// Every attempt failed; give up on this report.
    GiveUp,
}

impl Honeypot {
    /// What to do with an unsolicited password attempt: log it when so
    /// configured, report it when a report URL is configured, and otherwise
    /// discard it.
    pub fn attempt_handling(&self) -> (r: AttemptHandling)
        ensures
            r.log == self.log_bruteforce_passwords,
            r.report_url is Some <==> self.report_url_bruteforce_passwords is Some,
            r.report_url matches Some(u) ==> u@ == self.report_url_bruteforce_passwords->0@,
    {
        let report_url = match &self.report_url_bruteforce_passwords {
            Some(u) => Some(u.clone()),
            None => None,
        };
        AttemptHandling { log: self.log_bruteforce_passwords, report_url }
    }
}

/// The next step in reporting an attempt after `posts_made` posts, the last of
/// which was delivered when `delivered` holds: stop once a post is delivered,
/// post again (after a delay, unless it is the first post) while fewer than
/// `MAX_SUBMIT_ATTEMPTS` posts were made, and give up after that.
pub fn submit_step(posts_made: usize, delivered: bool) -> (r: SubmitStep)
    ensures
        posts_made > 0 && delivered ==> r == SubmitStep::Delivered,
        !(posts_made > 0 && delivered) && posts_made < MAX_SUBMIT_ATTEMPTS ==> r
            == (SubmitStep::Post { after_delay: posts_made > 0 }),
        !(posts_made > 0 && delivered) && posts_made >= MAX_SUBMIT_ATTEMPTS ==> r
            == SubmitStep::GiveUp,
{
    if posts_made > 0 && delivered {
        SubmitStep::Delivered
    } else if posts_made < MAX_SUBMIT_ATTEMPTS {
        SubmitStep::Post { after_delay: posts_made > 0 }
    } else {
        SubmitStep::GiveUp
    }
}

} // verus!

//! The built-in telnet cluster server's login exchange: what one input
//! line does to a session, and what a credential verdict does. The
//! sockets, the fan-out and the password check are the application's.

use crate::text::{chars_of, eq_lit, extend_chars, string_of, to_upper, unicode_upper, words, words_vec};
use vstd::prelude::*;

verus! {

/// The banner sent on connect.
pub const WELCOME: &'static str = "DX Cluster Server - DXCA\r\n";

/// Failed logins tolerated before the connection is dropped.
pub const MAX_LOGIN_FAILURES: u32 = 3;

/// Who a telnet session turned out to be.
#[derive(Clone, Debug, PartialEq, Eq)]
pub struct TelnetIdentity {
    pub user_id: i64,
    pub callsign: String,
    pub role: String,
}

/// Where a session is in the login exchange.
pub enum SessionState {
    /// The default, and the only state a plain logger ever occupies.
    Anonymous,
    /// `LOGIN <call>` seen; the next line is the password.
    AwaitingPassword { callsign: String },
    /// Authenticated.
    Authed(TelnetIdentity),
}

/// What a line asks of the server.
pub enum LineAction {
    /// Send nothing.
    Silent,
    /// Send this text.
    Reply(String),
    /// Check these credentials, then report the verdict.
    Authenticate { callsign: String, password: String },
}

/// The state as values.
pub enum StateV {
    Anonymous,
    AwaitingPassword(Seq<char>),
    Authed(i64, Seq<char>, Seq<char>),
}

pub open spec fn state_view(s: SessionState) -> StateV {
    match s {
        SessionState::Anonymous => StateV::Anonymous,
        SessionState::AwaitingPassword { callsign } => StateV::AwaitingPassword(callsign@),
        SessionState::Authed(id) => StateV::Authed(id.user_id, id.callsign@, id.role@),
    }
}

/// The action as values.
pub enum ActionV {
    Silent,
    Reply(Seq<char>),
    Authenticate(Seq<char>, Seq<char>),
}

pub open spec fn action_view(a: LineAction) -> ActionV {
    match a {
        LineAction::Silent => ActionV::Silent,
        LineAction::Reply(t) => ActionV::Reply(t@),
        LineAction::Authenticate { callsign, password } => ActionV::Authenticate(callsign@, password@),
    }
}

/// What one (trimmed, non-empty) input line does: the next state and the
/// action. Awaiting a password, the line is the password. Otherwise only
/// two verbs are understood, case-insensitively: `LOGIN <call>` asks for a
/// password (or for usage when the call is missing), and `BYE`/`QUIT`
/// logs an authenticated session out; everything else is ignored.
pub open spec fn line_step(st: StateV, line: Seq<char>) -> (StateV, ActionV) {
    match st {
        StateV::AwaitingPassword(call) => (st, ActionV::Authenticate(call, line)),
        _ => {
            let w = words(line);
            let verb = if w.len() > 0 { unicode_upper(w[0]) } else { Seq::empty() };
            if verb == "LOGIN"@ {
                if w.len() > 1 {
                    (StateV::AwaitingPassword(unicode_upper(w[1])), ActionV::Reply("Password: "@))
                } else {
                    (st, ActionV::Reply("Usage: LOGIN <callsign>\r\n"@))
                }
            } else if verb == "BYE"@ || verb == "QUIT"@ {
                match st {
                    StateV::Authed(_, call, _) => (
                        StateV::Anonymous,
                        ActionV::Reply("73 "@ + call + "; logged out, the spot feed continues.\r\n"@),
                    ),
                    _ => (st, ActionV::Silent),
                }
            } else {
                (st, ActionV::Silent)
            }
        },
    }
}

/// Process one input line.
pub fn on_line(state: &mut SessionState, line: &str) -> (a: LineAction)
    ensures
        (state_view(*final(state)), action_view(a)) == line_step(state_view(*old(state)), line@),
{
    if let SessionState::AwaitingPassword { callsign } = state {
        return LineAction::Authenticate { callsign: callsign.clone(), password: line.to_owned() };
    }
    let w = words_vec(chars_of(line).as_slice());
    let verb: String = if w.len() > 0 {
        to_upper(string_of(w[0].as_slice()).as_str())
    } else {
        String::new()
    };
    let vv = chars_of(verb.as_str());
    if eq_lit(vv.as_slice(), "LOGIN") {
        if w.len() > 1 {
            let call = to_upper(string_of(w[1].as_slice()).as_str());
            *state = SessionState::AwaitingPassword { callsign: call };
            let reply = "Password: ";
            return LineAction::Reply(reply.to_owned());
        }
        let usage = "Usage: LOGIN <callsign>\r\n";
        return LineAction::Reply(usage.to_owned());
    }
    if eq_lit(vv.as_slice(), "BYE") || eq_lit(vv.as_slice(), "QUIT") {
        let msg = match state {
            SessionState::Authed(id) => {
                let mut m = chars_of("73 ");
                extend_chars(&mut m, chars_of(id.callsign.as_str()).as_slice());
                extend_chars(&mut m, chars_of("; logged out, the spot feed continues.\r\n").as_slice());
                Some(string_of(m.as_slice()))
            },
            _ => None,
        };
        match msg {
            Some(m) => {
                *state = SessionState::Anonymous;
                return LineAction::Reply(m);
            },
            None => return LineAction::Silent,
        }
    }
    LineAction::Silent
}

/// The greeting for an accepted login.
pub open spec fn greeting(id_call: Seq<char>, role: Seq<char>) -> Seq<char> {
    "Welcome "@ + id_call + (if role == "admin"@ { " (admin)"@ } else { Seq::empty() })
        + ". Commands arrive in a later release.\r\n"@
}

/// Apply a credential verdict to a session awaiting it: an identity
/// authenticates the session and clears the failure count; none sends it
/// back to anonymous and counts a failure. The reply never says which
/// half of the credentials was wrong.
pub fn on_verdict(state: &mut SessionState, failures: &mut u32, verdict: Option<TelnetIdentity>) -> (reply: String)
    requires
        *old(failures) < u32::MAX,
    ensures
        match verdict {
            Some(id) => {
                &&& state_view(*final(state)) == StateV::Authed(id.user_id, id.callsign@, id.role@)
                &&& *final(failures) == 0
                &&& reply@ == greeting(id.callsign@, id.role@)
            },
            None => {
                &&& state_view(*final(state)) == StateV::Anonymous
                &&& *final(failures) == *old(failures) + 1
                &&& reply@ == "Login failed.\r\n"@
            },
        },
{
    match verdict {
        Some(id) => {
            let mut m = chars_of("Welcome ");
            extend_chars(&mut m, chars_of(id.callsign.as_str()).as_slice());
            let rv = chars_of(id.role.as_str());
            if eq_lit(rv.as_slice(), "admin") {
                extend_chars(&mut m, chars_of(" (admin)").as_slice());
            }
            extend_chars(&mut m, chars_of(". Commands arrive in a later release.\r\n").as_slice());
            *state = SessionState::Authed(id);
            *failures = 0;
            string_of(m.as_slice())
        },
        None => {
            *state = SessionState::Anonymous;
            *failures = *failures + 1;
            let msg = "Login failed.\r\n";
            msg.to_owned()
        },
    }
}

/// A session that never sends `LOGIN` is a plain logger: whatever else it
/// sends is answered with silence and leaves it anonymous.
pub proof fn law_anonymous_input_is_ignored(line: Seq<char>)
    requires
        words(line).len() == 0 || unicode_upper(words(line)[0]) != "LOGIN"@,
    ensures
        line_step(StateV::Anonymous, line) == (StateV::Anonymous, ActionV::Silent),
{
    reveal_strlit("LOGIN");
    let w = words(line);
    if w.len() == 0 {
        assert(Seq::<char>::empty().len() != "LOGIN"@.len());
    }
}

// --- input framing --------------------------------------------------------------

/// The longest unterminated input kept; a longer one is dropped rather than
/// buffered forever.
pub const MAX_LINE: usize = 512;

/// Whether a byte ends an input line.
pub open spec fn is_eol(b: u8) -> bool {
    b == 10u8 || b == 13u8
}

/// Position of the first line end in `s` (its length when there is none).
pub open spec fn first_eol(s: Seq<u8>) -> int
    decreases s.len(),
{
    if s.len() == 0 {
        0
    } else if is_eol(s[0]) {
        0
    } else {
        1 + first_eol(s.drop_first())
    }
}

proof fn lemma_first_eol(s: Seq<u8>, r: int)
    requires
        0 <= r <= s.len(),
        forall|j: int| 0 <= j < r ==> !is_eol(#[trigger] s[j]),
        r < s.len() ==> is_eol(s[r]),
    ensures
        first_eol(s) == r,
    decreases s.len(),
{
    if r > 0 {
        lemma_first_eol(s.drop_first(), r - 1);
    }
}

/// Split the next line off the input: the bytes before the first CR or LF,
/// the terminator consumed with them. With no terminator buffered, nothing
/// changes.
pub fn take_line(pending: &mut Vec<u8>) -> (r: Option<Vec<u8>>)
    ensures
        first_eol(old(pending)@) < old(pending)@.len() ==> (r matches Some(l)
            && l@ == old(pending)@.take(first_eol(old(pending)@))
            && final(pending)@ == old(pending)@.skip(first_eol(old(pending)@) + 1)),
        first_eol(old(pending)@) == old(pending)@.len() ==> r is None && final(pending)@ == old(pending)@,
{
    let ghost s = pending@;
    let mut i: usize = 0;
    while i < pending.len()
        invariant
            i <= pending@.len(),
            pending@ == s,
            s == old(pending)@,
            forall|j: int| 0 <= j < i ==> !is_eol(#[trigger] s[j]),
        decreases pending@.len() - i,
    {
        if pending[i] == 10u8 || pending[i] == 13u8 {
            proof {
                lemma_first_eol(s, i as int);
            }
            let mut line: Vec<u8> = Vec::new();
            let mut rest: Vec<u8> = Vec::new();
            let mut k: usize = 0;
            while k < pending.len()
                invariant
                    i < pending@.len(),
                    k <= pending@.len(),
                    pending@ == s,
                    s == old(pending)@,
                    line@ == s.take(if k < i { k as int } else { i as int }),
                    rest@ == (if k <= i + 1 { Seq::<u8>::empty() } else { s.subrange(i + 1, k as int) }),
                decreases pending@.len() - k,
            {
                if k < i {
                    line.push(pending[k]);
                    assert(line@ =~= s.take(k + 1));
                } else if k > i {
                    rest.push(pending[k]);
                    assert(rest@ =~= s.subrange(i + 1, k + 1));
                }
                k = k + 1;
            }
            assert(rest@ =~= s.skip(i + 1));
            *pending = rest;
            return Some(line);
        }
        i = i + 1;
    }
    proof {
        lemma_first_eol(s, i as int);
    }
    None
}

/// The command text of one input line: its bytes taken as UTF-8 (invalid
/// sequences replaced), surrounding whitespace removed.
pub fn line_text(raw: &[u8]) -> (r: String)
    ensures
        r@ == crate::text::trim(crate::text::utf8_lossy(raw@)),
{
    let t = crate::text::lossy_text(raw);
    let v = crate::text::trimmed_chars(t.as_str());
    string_of(v.as_slice())
}

/// Once every line has been taken: an unterminated tail longer than
/// `MAX_LINE` is dropped.
pub fn bound_input(pending: &mut Vec<u8>)
    ensures
        final(pending)@ == (if old(pending)@.len() > MAX_LINE { Seq::<u8>::empty() } else { old(pending)@ }),
{
    if pending.len() > MAX_LINE {
        pending.clear();
    }
}

/// Whether a session has failed to log in often enough to be dropped.
pub fn must_hang_up(failures: u32) -> (r: bool)
    ensures
        r == (failures >= MAX_LOGIN_FAILURES),
{
    failures >= MAX_LOGIN_FAILURES
}

} // verus!

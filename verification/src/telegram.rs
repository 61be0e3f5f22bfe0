//! Telegram Bot API notifier: its settings, the request it makes, the
//! retry policy after each attempt, and the HTML escaping applied to message
//! text. The application moves the bytes.

use crate::spot::strip_trail;
use crate::text::{chars_of, extend_chars, string_of};
use vstd::prelude::*;

verus! {

/// Where the Bot API lives, and how long to pause before the single retry
/// after a transport failure.
pub struct Telegram {
    /// API base; `https://api.telegram.org` by default.
    pub base: String,
    /// Pause before the transport-error retry; zero in tests.
    pub retry_delay: std::time::Duration,
}

/// Calls `Duration::from_secs`. `Duration` is opaque here, so nothing is
/// claimed of the value it returns.
#[verifier::external_body]
fn seconds(secs: u64) -> std::time::Duration {
    std::time::Duration::from_secs(secs)
}

impl Default for Telegram {
    fn default() -> (t: Telegram)
        ensures
            t.base@ == "https://api.telegram.org"@,
    {
        let base = "https://api.telegram.org";
        Telegram { base: base.to_owned(), retry_delay: seconds(2) }
    }
}

impl Telegram {
    /// Settings for a given API base, trailing slashes removed; the retry
    /// pause keeps its default.
    pub fn with_base(base: &str) -> (t: Telegram)
        ensures
            t.base@ == strip_trail(base@, '/'),
    {
        let v = chars_of(base);
        let mut n: usize = v.len();
        assert(v@.take(n as int) =~= v@);
        while n > 0 && v[n - 1] == '/'
            invariant
                n <= v.len(),
                strip_trail(v@, '/') == strip_trail(v@.take(n as int), '/'),
            decreases n,
        {
            assert(v@.take(n as int).drop_last() =~= v@.take(n - 1));
            n = n - 1;
        }
        assert(n == v.len() ==> v@.take(n as int) =~= v@);
        let s = crate::text::string_of_range(v.as_slice(), 0, n);
        assert(v@.subrange(0, n as int) =~= v@.take(n as int));
        Telegram { base: s, retry_delay: seconds(2) }
    }
}

impl Telegram {
    /// The `sendMessage` address for a bot.
    pub fn send_url(&self, bot_token: &str) -> (r: String)
        ensures
            r@ == self.base@ + "/bot"@ + bot_token@ + "/sendMessage"@,
    {
        let mut out = chars_of(self.base.as_str());
        extend_chars(&mut out, chars_of("/bot").as_slice());
        extend_chars(&mut out, chars_of(bot_token).as_slice());
        extend_chars(&mut out, chars_of("/sendMessage").as_slice());
        string_of(out.as_slice())
    }
}

/// The refusal given before any request when a bot token or a chat id is
/// missing.
pub open spec fn not_configured() -> Seq<char> {
    "bot token / chat id not configured"@
}

/// Whether a message can be sent at all: both the bot token and the chat id
/// must be set.
pub fn configured(bot_token: &str, chat_id: &str) -> (r: Result<(), String>)
    ensures
        r is Ok <==> bot_token@.len() > 0 && chat_id@.len() > 0,
        r matches Err(e) ==> e@ == not_configured(),
{
    let t = chars_of(bot_token);
    let c = chars_of(chat_id);
    if t.len() == 0 || c.len() == 0 {
        Err(string_of(chars_of("bot token / chat id not configured").as_slice()))
    } else {
        Ok(())
    }
}

/// How one attempt at delivering a message ended, with the transport's own
/// description of a failure.
pub enum Attempt {
    /// Telegram accepted the message.
    Delivered,
    /// Telegram answered with an HTTP rejection (bad token, unknown chat).
    Refused(String),
    /// The request never got an answer (connect, TLS or response timeout).
    Transport(String),
}

/// What follows an attempt.
pub enum NextStep {
    /// Sending is over, with this outcome.
    Finish(Result<(), String>),
    /// Pause for the retry delay, then make the second and last attempt.
    RetryAfterPause,
}

/// The error reported when an attempt fails for good: `failure` is the
/// transport's description, `first` that of the failed first attempt when
/// this was the retry.
pub open spec fn send_error(failure: Seq<char>, first: Option<Seq<char>>) -> Seq<char> {
    match first {
        None => "telegram send: "@ + failure,
        Some(f) => "telegram send: "@ + failure + " (retried; first attempt: "@ + f + ")"@,
    }
}

/// The first attempt's failure, as text.
pub open spec fn first_view(first: Option<&str>) -> Option<Seq<char>> {
    match first {
        None => None,
        Some(f) => Some(f@),
    }
}

/// The retry policy. After the first attempt (`first` is `None`) a transport
/// failure earns one retry, since on a flaky uplink it is usually momentary;
/// an HTTP rejection ends at once, since Telegram would only refuse again.
/// After the retry (`first` holds the first attempt's failure) every
/// failure is final and names both attempts.
pub fn after_attempt(first: Option<&str>, outcome: Attempt) -> (r: NextStep)
    ensures
        match outcome {
            Attempt::Delivered => r matches NextStep::Finish(Ok(())),
            Attempt::Refused(e) => r matches NextStep::Finish(Err(m))
                && m@ == send_error(e@, first_view(first)),
            Attempt::Transport(e) => match first {
                None => r is RetryAfterPause,
                Some(f) => r matches NextStep::Finish(Err(m)) && m@ == send_error(e@, Some(f@)),
            },
        },
{
    match outcome {
        Attempt::Delivered => NextStep::Finish(Ok(())),
        Attempt::Refused(e) => NextStep::Finish(Err(failure_text(e.as_str(), first))),
        Attempt::Transport(e) => match first {
            None => NextStep::RetryAfterPause,
            Some(f) => NextStep::Finish(Err(failure_text(e.as_str(), Some(f)))),
        },
    }
}

fn failure_text(failure: &str, first: Option<&str>) -> (r: String)
    ensures
        r@ == send_error(failure@, first_view(first)),
{
    let mut out = chars_of("telegram send: ");
    extend_chars(&mut out, chars_of(failure).as_slice());
    match first {
        None => {},
        Some(f) => {
            extend_chars(&mut out, chars_of(" (retried; first attempt: ").as_slice());
            extend_chars(&mut out, chars_of(f).as_slice());
            extend_chars(&mut out, chars_of(")").as_slice());
        },
    }
    string_of(out.as_slice())
}

/// What one character becomes in message text.
pub open spec fn html_escape_char(c: char) -> Seq<char> {
    if c == '&' {
        "&amp;"@
    } else if c == '<' {
        "&lt;"@
    } else if c == '>' {
        "&gt;"@
    } else {
        seq![c]
    }
}

/// `s` with `&`, `<` and `>` written as HTML entities.
pub open spec fn html_escape(s: Seq<char>) -> Seq<char>
    decreases s.len(),
{
    if s.len() == 0 {
        s
    } else {
        html_escape(s.drop_last()) + html_escape_char(s.last())
    }
}

/// Escape message text for Telegram's HTML parse mode.
pub fn escape_html(s: &str) -> (r: String)
    ensures
        r@ == html_escape(s@),
{
    let v = chars_of(s);
    let mut out: Vec<char> = Vec::new();
    let mut i: usize = 0;
    while i < v.len()
        invariant
            i <= v.len(),
            out@ == html_escape(v@.take(i as int)),
        decreases v.len() - i,
    {
        assert(v@.take(i + 1).drop_last() =~= v@.take(i as int));
        let c = v[i];
        if c == '&' {
            out.push('&');
            out.push('a');
            out.push('m');
            out.push('p');
            out.push(';');
        } else if c == '<' {
            out.push('&');
            out.push('l');
            out.push('t');
            out.push(';');
        } else if c == '>' {
            out.push('&');
            out.push('g');
            out.push('t');
            out.push(';');
        } else {
            out.push(c);
        }
        proof {
            reveal_strlit("&amp;");
            reveal_strlit("&lt;");
            reveal_strlit("&gt;");
        }
        assert(out@ =~= html_escape(v@.take(i + 1)));
        i = i + 1;
    }
    assert(v@.take(v.len() as int) =~= v@);
    string_of(out.as_slice())
}

} // verus!

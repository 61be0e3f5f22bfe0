//! The cluster client's protocol state: a session driven by received text
//! and clock ticks, producing lines to send and events for its consumer.
//! The socket, the reconnect supervisor and the clock are the
//! application's.

use crate::dxcluster::wire::{classify_line, dx_command, line_class, ClusterSpot, LineClass, LineClassV, SpotLine, SpotLineV, spot_line_view, dx_remarks};
use crate::dxcluster::{texts_of, ClientConfig};
use crate::text::{
    chars_of, contains_seq, extend_chars, find, find_char, slice_vec, string_of, to_lower, trim, trim_end, trim_vec,
    unicode_lower, vec_contains,
};
use vstd::prelude::*;

verus! {

/// Give up waiting for a prompt after this long and treat the stream as
/// live (some feeds never prompt).
pub const LOGIN_TIMEOUT_S: u64 = 30;

/// Pacing between init commands when the node never shows a prompt.
pub const INIT_PACING_S: u64 = 2;

/// Cap on re-sending the callsign when the node re-prompts.
pub const MAX_LOGIN_ATTEMPTS: u8 = 3;

/// Characters of unterminated input kept.
pub const MAX_BUFFER: usize = 65536;

/// Where the login exchange stands.
#[derive(Debug, Clone, Copy, PartialEq, Eq, Structural)]
pub enum State {
    /// Waiting for a login-prompt substring (or the timeout).
    AwaitLoginPrompt,
    /// Callsign sent; waiting for a prompt or the first data line.
    AwaitPrompt,
    /// Logged in; streaming.
    Ready,
}

/// What a session reports to its consumer.
#[derive(Debug, Clone, PartialEq)]
pub enum ClientEvent {
    /// TCP established (login not yet done).
    Connected,
    /// Login handshake complete (prompt seen, data flowing, or timeout).
    LoggedIn,
    /// Real evidence the session works: a node prompt, a welcome line or
    /// actual data. At most once per connection.
    Proven,
    /// A `DX de` line, parsed.
    Spot { spot: SpotLine, raw: String },
    /// A WWV/WCY solar line (raw).
    Wwv(String),
    /// A `To ALL de …` announcement (raw).
    Announce(String),
    /// Any other non-empty line (raw).
    Line(String),
    /// Connection lost.
    Disconnected { reason: String },
}

pub enum EventV {
    Connected,
    LoggedIn,
    Proven,
    Spot(SpotLineV, Seq<char>),
    Wwv(Seq<char>),
    Announce(Seq<char>),
    Line(Seq<char>),
    Disconnected(Seq<char>),
}

pub open spec fn event_view(e: ClientEvent) -> EventV {
    match e {
        ClientEvent::Connected => EventV::Connected,
        ClientEvent::LoggedIn => EventV::LoggedIn,
        ClientEvent::Proven => EventV::Proven,
        ClientEvent::Spot { spot, raw } => EventV::Spot(spot_line_view(spot), raw@),
        ClientEvent::Wwv(t) => EventV::Wwv(t@),
        ClientEvent::Announce(t) => EventV::Announce(t@),
        ClientEvent::Line(t) => EventV::Line(t@),
        ClientEvent::Disconnected { reason } => EventV::Disconnected(reason@),
    }
}

pub open spec fn events_view(v: Seq<ClientEvent>) -> Seq<EventV> {
    v.map_values(|e: ClientEvent| event_view(e))
}

/// The configuration as values.
pub struct ConfigV {
    pub login_call: Seq<char>,
    pub password: Seq<char>,
    pub login_prompts: Seq<Seq<char>>,
    pub password_prompts: Seq<Seq<char>>,
    pub init_commands: Seq<Seq<char>>,
    pub keepalive_secs: u64,
}

pub open spec fn config_view(c: ClientConfig) -> ConfigV {
    ConfigV {
        login_call: c.login_call@,
        password: c.password@,
        login_prompts: texts_of(c.login_prompts@),
        password_prompts: texts_of(c.password_prompts@),
        init_commands: texts_of(c.init_commands@),
        keepalive_secs: c.keepalive_secs,
    }
}

/// A session as values.
pub struct SessionV {
    pub state: State,
    pub state_since: u64,
    pub buf: Seq<char>,
    pub out: Seq<Seq<char>>,
    pub init_idx: nat,
    pub last_send: u64,
    pub login_attempts: u8,
    pub sent_password: bool,
    pub proven: bool,
}

// --- the steps, as values ----------------------------------------------------------

pub open spec fn crlf(line: Seq<char>) -> Seq<char> {
    line + "\r\n"@
}

pub open spec fn queue(s: SessionV, line: Seq<char>, now: u64) -> SessionV {
    SessionV { out: s.out.push(line), last_send: now, ..s }
}

pub open spec fn enter(s: SessionV, st: State, now: u64) -> SessionV {
    SessionV { state: st, state_since: now, ..s }
}

/// Does `text`, lowercased, hold one of the prompt substrings?
pub open spec fn matches_prompt(prompts: Seq<Seq<char>>, text: Seq<char>) -> bool {
    exists|i: int| 0 <= i < prompts.len() && contains_seq(unicode_lower(text), #[trigger] prompts[i])
}

/// Send the login callsign and wait for a prompt.
pub open spec fn send_login(c: ConfigV, s: SessionV, now: u64) -> SessionV {
    let s1 = SessionV { login_attempts: (s.login_attempts + 1) as u8, ..s };
    enter(queue(s1, crlf(c.login_call), now), State::AwaitPrompt, now)
}

/// Answer a password prompt (only when a password is configured), and
/// never again this connection.
pub open spec fn send_password(c: ConfigV, s: SessionV, now: u64) -> SessionV {
    let s1 = if c.password.len() > 0 { queue(s, crlf(c.password), now) } else { s };
    SessionV { sent_password: true, ..s1 }
}

/// The next init command, if any remain.
pub open spec fn advance_init(c: ConfigV, s: SessionV, now: u64) -> SessionV {
    if s.init_idx < c.init_commands.len() {
        SessionV { init_idx: s.init_idx + 1, ..queue(s, crlf(c.init_commands[s.init_idx as int]), now) }
    } else {
        s
    }
}

pub open spec fn mark_proven(s: SessionV, ev: Seq<EventV>) -> (SessionV, Seq<EventV>) {
    if s.proven {
        (s, ev)
    } else {
        (SessionV { proven: true, ..s }, ev.push(EventV::Proven))
    }
}

/// Login complete: report it, start the init script, and (with evidence)
/// mark the session proven.
pub open spec fn ready_and_proven(c: ConfigV, s: SessionV, now: u64, ev: Seq<EventV>) -> (SessionV, Seq<EventV>) {
    mark_proven(advance_init(c, enter(s, State::Ready, now), now), ev.push(EventV::LoggedIn))
}

/// The welcome words that acknowledge a login on nodes that never prompt.
pub open spec fn welcome_line(line: Seq<char>) -> bool {
    let l = unicode_lower(line);
    contains_seq(l, "hello"@) || contains_seq(l, "welcome"@) || contains_seq(l, "connected"@) || contains_seq(
        l,
        "cluster"@,
    )
}

/// What one complete, cleaned, non-blank line does.
pub open spec fn line_step(c: ConfigV, s: SessionV, line: Seq<char>, now: u64, ev: Seq<EventV>) -> (SessionV, Seq<EventV>) {
    match s.state {
        State::AwaitLoginPrompt => if matches_prompt(c.login_prompts, line) {
            (send_login(c, s, now), ev)
        } else {
            match line_class(line) {
                LineClassV::Spot(p) => {
                    let (s2, e2) = ready_and_proven(c, s, now, ev);
                    (s2, e2.push(EventV::Spot(p, line)))
                },
                LineClassV::Wwv => {
                    let (s2, e2) = ready_and_proven(c, s, now, ev);
                    (s2, e2.push(EventV::Wwv(line)))
                },
                _ => (s, ev),
            }
        },
        State::AwaitPrompt => if !s.sent_password && matches_prompt(c.password_prompts, line) {
            (send_password(c, s, now), ev)
        } else if matches_prompt(c.login_prompts, line) {
            if s.login_attempts < MAX_LOGIN_ATTEMPTS {
                (send_login(c, s, now), ev)
            } else {
                (s, ev)
            }
        } else {
            match line_class(line) {
                LineClassV::Prompt => ready_and_proven(c, s, now, ev),
                LineClassV::Spot(p) => {
                    let (s2, e2) = ready_and_proven(c, s, now, ev);
                    (s2, e2.push(EventV::Spot(p, line)))
                },
                LineClassV::Wwv => {
                    let (s2, e2) = ready_and_proven(c, s, now, ev);
                    (s2, e2.push(EventV::Wwv(line)))
                },
                LineClassV::Announce => {
                    let (s2, e2) = ready_and_proven(c, s, now, ev);
                    (s2, e2.push(EventV::Announce(line)))
                },
                LineClassV::Other => if welcome_line(line) {
                    ready_and_proven(c, s, now, ev)
                } else {
                    (s, ev)
                },
            }
        },
        State::Ready => match line_class(line) {
            LineClassV::Spot(p) => {
                let (s2, e2) = mark_proven(s, ev);
                (s2, e2.push(EventV::Spot(p, line)))
            },
            LineClassV::Wwv => {
                let (s2, e2) = mark_proven(s, ev);
                (s2, e2.push(EventV::Wwv(line)))
            },
            LineClassV::Announce => {
                let (s2, e2) = mark_proven(s, ev);
                (s2, e2.push(EventV::Announce(line)))
            },
            LineClassV::Prompt => {
                let (s2, e2) = mark_proven(s, ev);
                (advance_init(c, s2, now), e2)
            },
            LineClassV::Other => (s, ev.push(EventV::Line(line))),
        },
    }
}

/// A line with its trailing CR/LF characters removed.
pub open spec fn strip_crlf(s: Seq<char>) -> Seq<char>
    decreases s.len(),
{
    if s.len() > 0 && (s.last() == '\r' || s.last() == '\n') {
        strip_crlf(s.drop_last())
    } else {
        s
    }
}

/// A C0 control character other than tab (bells and the like).
pub open spec fn is_c0(c: char) -> bool {
    c < ' ' && c != '\t'
}

/// A line without its C0 control characters.
pub open spec fn strip_c0(s: Seq<char>) -> Seq<char>
    decreases s.len(),
{
    if s.len() == 0 {
        s
    } else if is_c0(s.last()) {
        strip_c0(s.drop_last())
    } else {
        strip_c0(s.drop_last()).push(s.last())
    }
}

/// Handle every complete line in the buffer, in order.
pub open spec fn drain_lines(c: ConfigV, s: SessionV, now: u64, ev: Seq<EventV>) -> (SessionV, Seq<EventV>)
    decreases s.buf.len(),
{
    let pos = find(s.buf, '\n');
    if pos < s.buf.len() {
        proof {
            crate::text::lemma_find_props(s.buf, '\n');
        }
        let line = strip_c0(strip_crlf(s.buf.take(pos + 1)));
        let s1 = SessionV { buf: s.buf.skip(pos + 1), ..s };
        let (s2, e2) = if trim(line).len() > 0 { line_step(c, s1, line, now, ev) } else { (s1, ev) };
        if s2.buf == s1.buf {
            drain_lines(c, s2, now, e2)
        } else {
            (s2, e2)
        }
    } else {
        (s, ev)
    }
}

/// The buffer after appending `data`: its last `MAX_BUFFER` characters.
pub open spec fn appended(buf: Seq<char>, data: Seq<char>) -> Seq<char> {
    let b = buf + data;
    if b.len() > MAX_BUFFER { b.skip(b.len() - MAX_BUFFER) } else { b }
}

/// What one read's worth of text does: complete lines are handled, then a
/// login (or password) prompt left unterminated in the buffer is answered.
pub open spec fn bytes_step(c: ConfigV, s: SessionV, data: Seq<char>, now: u64) -> (SessionV, Seq<EventV>) {
    let (s1, ev) = drain_lines(c, SessionV { buf: appended(s.buf, data), ..s }, now, Seq::empty());
    let s2 = if s1.state == State::AwaitLoginPrompt && matches_prompt(c.login_prompts, s1.buf) {
        send_login(c, SessionV { buf: Seq::empty(), ..s1 }, now)
    } else {
        s1
    };
    let s3 = if s2.state == State::AwaitPrompt && !s2.sent_password && matches_prompt(c.password_prompts, s2.buf) {
        send_password(c, SessionV { buf: Seq::empty(), ..s2 }, now)
    } else {
        s2
    };
    (s3, ev)
}

/// What a clock tick does: the login timeout readies (but does not
/// prove) the session; once ready, init commands are paced out, then the
/// keepalive is sent when the line has been idle long enough.
pub open spec fn tick_step(c: ConfigV, s: SessionV, now: u64) -> (SessionV, Seq<EventV>) {
    let since = if now >= s.state_since { now - s.state_since } else { 0 };
    let idle = if now >= s.last_send { now - s.last_send } else { 0 };
    match s.state {
        State::AwaitLoginPrompt | State::AwaitPrompt => if since >= LOGIN_TIMEOUT_S {
            (advance_init(c, enter(s, State::Ready, now), now), seq![EventV::LoggedIn])
        } else {
            (s, Seq::empty())
        },
        State::Ready => if s.init_idx < c.init_commands.len() && idle >= INIT_PACING_S {
            (advance_init(c, s, now), Seq::empty())
        } else if s.init_idx >= c.init_commands.len() && c.keepalive_secs > 0 && idle >= c.keepalive_secs {
            (queue(s, "\r\n"@, now), Seq::empty())
        } else {
            (s, Seq::empty())
        },
    }
}

/// How many `Proven` reports `ev` holds.
pub open spec fn proven_count(ev: Seq<EventV>) -> nat
    decreases ev.len(),
{
    if ev.len() == 0 {
        0
    } else {
        proven_count(ev.drop_last()) + (if ev.last() is Proven { 1nat } else { 0nat })
    }
}

proof fn lemma_proven_push(ev: Seq<EventV>, e: EventV)
    ensures
        proven_count(ev.push(e)) == proven_count(ev) + (if e is Proven { 1nat } else { 0nat }),
{
    assert(ev.push(e).drop_last() =~= ev);
}

/// One line keeps the session's latches and reports proof of life only on
/// the step that sets it.
proof fn lemma_line_step_latches(c: ConfigV, s: SessionV, line: Seq<char>, now: u64, ev: Seq<EventV>)
    ensures
        s.proven ==> line_step(c, s, line, now, ev).0.proven,
        s.sent_password ==> line_step(c, s, line, now, ev).0.sent_password,
        proven_count(line_step(c, s, line, now, ev).1) == proven_count(ev) + (if !s.proven && line_step(
            c,
            s,
            line,
            now,
            ev,
        ).0.proven {
            1nat
        } else {
            0nat
        }),
{
    let ev1 = ev.push(EventV::LoggedIn);
    lemma_proven_push(ev, EventV::LoggedIn);
    lemma_proven_push(ev1, EventV::Proven);
    lemma_proven_push(ev, EventV::Proven);
    lemma_proven_push(ev, EventV::Line(line));
    match line_class(line) {
        LineClassV::Spot(p) => {
            let (_, e2) = ready_and_proven(c, s, now, ev);
            lemma_proven_push(e2, EventV::Spot(p, line));
            let (_, e3) = mark_proven(s, ev);
            lemma_proven_push(e3, EventV::Spot(p, line));
        },
        LineClassV::Wwv => {
            let (_, e2) = ready_and_proven(c, s, now, ev);
            lemma_proven_push(e2, EventV::Wwv(line));
            let (_, e3) = mark_proven(s, ev);
            lemma_proven_push(e3, EventV::Wwv(line));
        },
        LineClassV::Announce => {
            let (_, e2) = ready_and_proven(c, s, now, ev);
            lemma_proven_push(e2, EventV::Announce(line));
            let (_, e3) = mark_proven(s, ev);
            lemma_proven_push(e3, EventV::Announce(line));
        },
        _ => {},
    }
}

proof fn lemma_drain_latches(c: ConfigV, s: SessionV, now: u64, ev: Seq<EventV>)
    ensures
        s.proven ==> drain_lines(c, s, now, ev).0.proven,
        s.sent_password ==> drain_lines(c, s, now, ev).0.sent_password,
        proven_count(drain_lines(c, s, now, ev).1) == proven_count(ev) + (if !s.proven && drain_lines(
            c,
            s,
            now,
            ev,
        ).0.proven {
            1nat
        } else {
            0nat
        }),
    decreases s.buf.len(),
{
    let pos = find(s.buf, '\n');
    if pos < s.buf.len() {
        crate::text::lemma_find_props(s.buf, '\n');
        let line = strip_c0(strip_crlf(s.buf.take(pos + 1)));
        let s1 = SessionV { buf: s.buf.skip(pos + 1), ..s };
        if trim(line).len() > 0 {
            lemma_line_step_latches(c, s1, line, now, ev);
            lemma_line_step_keeps_buf(c, s1, line, now, ev);
        }
        let (s2, e2) = if trim(line).len() > 0 { line_step(c, s1, line, now, ev) } else { (s1, ev) };
        if s2.buf == s1.buf {
            lemma_drain_latches(c, s2, now, e2);
        }
    }
}

/// Proof of life is reported at most once per connection, and the password
/// is answered at most once: whatever text and ticks arrive, a proven
/// session stays proven and an answered password stays answered; a read
/// reports `Proven` exactly when it is the one that proves the session; a
/// tick never does.
pub proof fn law_proof_of_life_is_reported_once(c: ConfigV, s: SessionV, data: Seq<char>, now: u64)
    ensures
        s.proven ==> bytes_step(c, s, data, now).0.proven,
        s.sent_password ==> bytes_step(c, s, data, now).0.sent_password,
        proven_count(bytes_step(c, s, data, now).1) == (if !s.proven && bytes_step(c, s, data, now).0.proven {
            1nat
        } else {
            0nat
        }),
        tick_step(c, s, now).0.proven == s.proven,
        tick_step(c, s, now).0.sent_password == s.sent_password,
        proven_count(tick_step(c, s, now).1) == 0,
{
    let s0 = SessionV { buf: appended(s.buf, data), ..s };
    lemma_drain_latches(c, s0, now, Seq::empty());
    reveal_with_fuel(proven_count, 2);
}

proof fn lemma_line_step_keeps_buf(c: ConfigV, s: SessionV, line: Seq<char>, now: u64, ev: Seq<EventV>)
    ensures
        line_step(c, s, line, now, ev).0.buf == s.buf,
{
}

// --- the session -------------------------------------------------------------------

/// One connection's protocol state.
pub struct ClientSession {
    cfg: ClientConfig,
    state: State,
    state_since: u64,
    buf: Vec<char>,
    out: Vec<String>,
    init_idx: usize,
    last_send: u64,
    login_attempts: u8,
    sent_password: bool,
    proven: bool,
}

fn copy_strings(v: &Vec<String>) -> (r: Vec<String>)
    ensures
        texts_of(r@) == texts_of(v@),
{
    let mut out: Vec<String> = Vec::new();
    let mut i: usize = 0;
    while i < v.len()
        invariant
            i <= v.len(),
            out@.len() == i,
            forall|k: int| 0 <= k < i ==> #[trigger] out@[k]@ == v@[k]@,
        decreases v.len() - i,
    {
        out.push(string_of(chars_of(v[i].as_str()).as_slice()));
        i = i + 1;
    }
    assert(texts_of(out@) =~= texts_of(v@));
    out
}

fn copy_config(c: &ClientConfig) -> (r: ClientConfig)
    ensures
        config_view(r) == config_view(*c),
{
    let mut sched: Vec<u64> = Vec::new();
    let mut i: usize = 0;
    while i < c.reconnect_schedule_s.len()
        invariant
            i <= c.reconnect_schedule_s.len(),
        decreases c.reconnect_schedule_s.len() - i,
    {
        sched.push(c.reconnect_schedule_s[i]);
        i = i + 1;
    }
    ClientConfig {
        host: string_of(chars_of(c.host.as_str()).as_slice()),
        port: c.port,
        login_call: string_of(chars_of(c.login_call.as_str()).as_slice()),
        password: string_of(chars_of(c.password.as_str()).as_slice()),
        login_prompts: copy_strings(&c.login_prompts),
        password_prompts: copy_strings(&c.password_prompts),
        init_commands: copy_strings(&c.init_commands),
        keepalive_secs: c.keepalive_secs,
        reconnect_schedule_s: sched,
        auth_timeout_s: c.auth_timeout_s,
        silence_timeout_s: c.silence_timeout_s,
    }
}

fn with_crlf(v: &[char]) -> (r: String)
    ensures
        r@ == crlf(v@),
{
    let mut out: Vec<char> = Vec::new();
    extend_chars(&mut out, v);
    extend_chars(&mut out, chars_of("\r\n").as_slice());
    string_of(out.as_slice())
}

fn prompt_in(prompts: &Vec<String>, text: &[char]) -> (r: bool)
    ensures
        r == matches_prompt(texts_of(prompts@), text@),
{
    let t = string_of(text);
    let lower = to_lower(t.as_str());
    let lv = chars_of(lower.as_str());
    let mut i: usize = 0;
    while i < prompts.len()
        invariant
            i <= prompts.len(),
            lv@ == unicode_lower(text@),
            forall|j: int| 0 <= j < i ==> !contains_seq(unicode_lower(text@), #[trigger] texts_of(prompts@)[j]),
        decreases prompts.len() - i,
    {
        let p = chars_of(prompts[i].as_str());
        if vec_contains(lv.as_slice(), p.as_slice()) {
            assert(texts_of(prompts@)[i as int] == p@);
            return true;
        }
        i = i + 1;
    }
    false
}

fn push_event(events: &mut Vec<ClientEvent>, e: ClientEvent)
    ensures
        events_view(final(events)@) == events_view(old(events)@).push(event_view(e)),
{
    let ghost ev = event_view(e);
    events.push(e);
    assert(events_view(events@) =~= events_view(old(events)@).push(ev));
}

impl ClientSession {
    pub closed spec fn view(&self) -> SessionV {
        SessionV {
            state: self.state,
            state_since: self.state_since,
            buf: self.buf@,
            out: texts_of(self.out@),
            init_idx: self.init_idx as nat,
            last_send: self.last_send,
            login_attempts: self.login_attempts,
            sent_password: self.sent_password,
            proven: self.proven,
        }
    }

    pub closed spec fn config(&self) -> ConfigV {
        config_view(self.cfg)
    }

    /// Login attempts stay at most three, none before the first prompt,
    /// and the init script's position stays within it.
    pub closed spec fn wf(&self) -> bool {
        &&& self.login_attempts <= MAX_LOGIN_ATTEMPTS
        &&& (self.state == State::AwaitLoginPrompt ==> self.login_attempts == 0)
        &&& self.init_idx <= self.cfg.init_commands.len()
    }

    /// A fresh session, waiting for a login prompt.
    pub fn new(cfg: &ClientConfig, now: u64) -> (s: ClientSession)
        ensures
            s.wf(),
            s.config() == config_view(*cfg),
            s.view() == (SessionV {
                state: State::AwaitLoginPrompt,
                state_since: now,
                buf: Seq::empty(),
                out: Seq::empty(),
                init_idx: 0,
                last_send: now,
                login_attempts: 0,
                sent_password: false,
                proven: false,
            }),
    {
        let s = ClientSession {
            cfg: copy_config(cfg),
            state: State::AwaitLoginPrompt,
            state_since: now,
            buf: Vec::new(),
            out: Vec::new(),
            init_idx: 0,
            last_send: now,
            login_attempts: 0,
            sent_password: false,
            proven: false,
        };
        assert(s.view().out =~= Seq::<Seq<char>>::empty());
        s
    }

    /// Logged in (by a prompt, data, or the timeout)?
    pub fn ready(&self) -> (r: bool)
        ensures
            r == (self.view().state == State::Ready),
    {
        self.state == State::Ready
    }

    /// Has real evidence arrived this connection?
    pub fn proven(&self) -> (r: bool)
        ensures
            r == self.view().proven,
    {
        self.proven
    }

    /// The lines queued since the last call, for the caller to send.
    pub fn take_output(&mut self) -> (r: Vec<String>)
        ensures
            texts_of(r@) == old(self).view().out,
            final(self).view() == (SessionV { out: Seq::empty(), ..old(self).view() }),
            final(self).config() == old(self).config(),
            final(self).wf() == old(self).wf(),
    {
        let mut taken: Vec<String> = Vec::new();
        std::mem::swap(&mut taken, &mut self.out);
        assert(self.view().out =~= Seq::<Seq<char>>::empty());
        assert(self.view() =~= (SessionV { out: Seq::empty(), ..old(self).view() }));
        taken
    }

    fn queue_line(&mut self, line: String, now: u64)
        ensures
            final(self).view() == queue(old(self).view(), line@, now),
            final(self).cfg == old(self).cfg,
            final(self).wf() == old(self).wf(),
    {
        let ghost lv = line@;
        self.out.push(line);
        self.last_send = now;
        assert(texts_of(self.out@) =~= texts_of(old(self).out@).push(lv));
    }

    fn enter(&mut self, st: State, now: u64)
        requires
            st == State::AwaitLoginPrompt ==> old(self).login_attempts == 0,
            old(self).wf(),
        ensures
            final(self).view() == enter(old(self).view(), st, now),
            final(self).cfg == old(self).cfg,
            final(self).wf(),
    {
        self.state = st;
        self.state_since = now;
    }

    fn send_login(&mut self, now: u64)
        requires
            old(self).wf(),
            old(self).login_attempts < MAX_LOGIN_ATTEMPTS,
        ensures
            final(self).view() == send_login(old(self).config(), old(self).view(), now),
            final(self).cfg == old(self).cfg,
            final(self).wf(),
    {
        let line = with_crlf(chars_of(self.cfg.login_call.as_str()).as_slice());
        self.queue_line(line, now);
        self.enter(State::AwaitPrompt, now);
        self.login_attempts = self.login_attempts + 1;
    }

    fn send_password(&mut self, now: u64)
        requires
            old(self).wf(),
        ensures
            final(self).view() == send_password(old(self).config(), old(self).view(), now),
            final(self).cfg == old(self).cfg,
            final(self).wf(),
    {
        let pw = chars_of(self.cfg.password.as_str());
        if pw.len() > 0 {
            let line = with_crlf(pw.as_slice());
            self.queue_line(line, now);
        }
        self.sent_password = true;
    }

    fn advance_init(&mut self, now: u64)
        requires
            old(self).wf(),
        ensures
            final(self).view() == advance_init(old(self).config(), old(self).view(), now),
            final(self).cfg == old(self).cfg,
            final(self).wf(),
    {
        if self.init_idx < self.cfg.init_commands.len() {
            let cmd = with_crlf(chars_of(self.cfg.init_commands[self.init_idx].as_str()).as_slice());
            assert(texts_of(self.cfg.init_commands@)[self.init_idx as int] == self.cfg.init_commands@[self.init_idx as int]@);
            self.queue_line(cmd, now);
            self.init_idx = self.init_idx + 1;
        }
    }

    fn mark_proven(&mut self, events: &mut Vec<ClientEvent>)
        ensures
            (final(self).view(), events_view(final(events)@)) == mark_proven(old(self).view(), events_view(old(events)@)),
            final(self).cfg == old(self).cfg,
            final(self).wf() == old(self).wf(),
    {
        if !self.proven {
            self.proven = true;
            push_event(events, ClientEvent::Proven);
        }
    }

    fn ready_and_proven(&mut self, now: u64, events: &mut Vec<ClientEvent>)
        requires
            old(self).wf(),
        ensures
            (final(self).view(), events_view(final(events)@)) == ready_and_proven(
                old(self).config(),
                old(self).view(),
                now,
                events_view(old(events)@),
            ),
            final(self).cfg == old(self).cfg,
            final(self).wf(),
    {
        self.enter(State::Ready, now);
        push_event(events, ClientEvent::LoggedIn);
        self.advance_init(now);
        self.mark_proven(events);
    }

    fn on_line(&mut self, line: &[char], now: u64, events: &mut Vec<ClientEvent>)
        requires
            old(self).wf(),
        ensures
            (final(self).view(), events_view(final(events)@)) == line_step(
                old(self).config(),
                old(self).view(),
                line@,
                now,
                events_view(old(events)@),
            ),
            final(self).cfg == old(self).cfg,
            final(self).wf(),
    {
        let text = string_of(line);
        match self.state {
            State::AwaitLoginPrompt => {
                if prompt_in(&self.cfg.login_prompts, line) {
                    self.send_login(now);
                    return;
                }
                match classify_line(text.as_str()) {
                    LineClass::Spot(p) => {
                        self.ready_and_proven(now, events);
                        push_event(events, ClientEvent::Spot { spot: p, raw: string_of(line) });
                    },
                    LineClass::Wwv => {
                        self.ready_and_proven(now, events);
                        push_event(events, ClientEvent::Wwv(string_of(line)));
                    },
                    _ => {},
                }
            },
            State::AwaitPrompt => {
                if !self.sent_password && prompt_in(&self.cfg.password_prompts, line) {
                    self.send_password(now);
                    return;
                }
                if prompt_in(&self.cfg.login_prompts, line) {
                    if self.login_attempts < MAX_LOGIN_ATTEMPTS {
                        self.send_login(now);
                    }
                    return;
                }
                match classify_line(text.as_str()) {
                    LineClass::Prompt => {
                        self.ready_and_proven(now, events);
                    },
                    LineClass::Spot(p) => {
                        self.ready_and_proven(now, events);
                        push_event(events, ClientEvent::Spot { spot: p, raw: string_of(line) });
                    },
                    LineClass::Wwv => {
                        self.ready_and_proven(now, events);
                        push_event(events, ClientEvent::Wwv(string_of(line)));
                    },
                    LineClass::Announce => {
                        self.ready_and_proven(now, events);
                        push_event(events, ClientEvent::Announce(string_of(line)));
                    },
                    LineClass::Other => {
                        let lower = to_lower(text.as_str());
                        let lv = chars_of(lower.as_str());
                        if vec_contains(lv.as_slice(), chars_of("hello").as_slice()) || vec_contains(
                            lv.as_slice(),
                            chars_of("welcome").as_slice(),
                        ) || vec_contains(lv.as_slice(), chars_of("connected").as_slice()) || vec_contains(
                            lv.as_slice(),
                            chars_of("cluster").as_slice(),
                        ) {
                            self.ready_and_proven(now, events);
                        }
                    },
                }
            },
            State::Ready => {
                match classify_line(text.as_str()) {
                    LineClass::Spot(p) => {
                        self.mark_proven(events);
                        push_event(events, ClientEvent::Spot { spot: p, raw: string_of(line) });
                    },
                    LineClass::Wwv => {
                        self.mark_proven(events);
                        push_event(events, ClientEvent::Wwv(string_of(line)));
                    },
                    LineClass::Announce => {
                        self.mark_proven(events);
                        push_event(events, ClientEvent::Announce(string_of(line)));
                    },
                    LineClass::Prompt => {
                        self.mark_proven(events);
                        self.advance_init(now);
                    },
                    LineClass::Other => {
                        push_event(events, ClientEvent::Line(string_of(line)));
                    },
                }
            },
        }
    }

    /// Feed one read's worth of text: each complete line (CR/LF and C0
    /// control characters removed, blank lines skipped) is handled in
    /// order, then an unterminated login or password prompt is answered.
    pub fn on_bytes(&mut self, data: &str, now: u64) -> (r: Vec<ClientEvent>)
        requires
            old(self).wf(),
        ensures
            (final(self).view(), events_view(r@)) == bytes_step(old(self).config(), old(self).view(), data@, now),
            final(self).config() == old(self).config(),
            final(self).wf(),
    {
        let mut events: Vec<ClientEvent> = Vec::new();
        extend_chars(&mut self.buf, chars_of(data).as_slice());
        if self.buf.len() > MAX_BUFFER {
            let n = self.buf.len();
            self.buf = slice_vec(self.buf.as_slice(), n - MAX_BUFFER, n);
            assert(self.buf@ =~= appended(old(self).buf@, data@));
        }
        assert(self.view() =~= (SessionV { buf: appended(old(self).view().buf, data@), ..old(self).view() }));
        let ghost c = self.config();
        let ghost target = drain_lines(c, self.view(), now, Seq::empty());
        assert(events_view(events@) =~= Seq::<EventV>::empty());
        loop
            invariant
                self.wf(),
                self.config() == c,
                c == old(self).config(),
                self.cfg == old(self).cfg,
                drain_lines(c, self.view(), now, events_view(events@)) == target,
            ensures
                target == (self.view(), events_view(events@)),
                self.wf(),
                self.cfg == old(self).cfg,
            decreases self.buf.len(),
        {
            let n = self.buf.len();
            let pos = find_char(self.buf.as_slice(), 0, n, '\n');
            assert(self.buf@.subrange(0, n as int) =~= self.buf@);
            if pos == n {
                break;
            }
            let raw = slice_vec(self.buf.as_slice(), 0, pos + 1);
            assert(raw@ =~= self.buf@.take(pos + 1));
            let ghost s0 = self.view();
            self.buf = slice_vec(self.buf.as_slice(), pos + 1, n);
            assert(self.buf@ =~= s0.buf.skip(pos + 1));
            assert(self.view() =~= (SessionV { buf: s0.buf.skip(pos + 1), ..s0 }));
            let cleaned = strip_c0_vec(&strip_crlf_vec(&raw));
            let t = trim_vec(cleaned.as_slice());
            proof {
                lemma_line_step_keeps_buf(c, self.view(), cleaned@, now, events_view(events@));
            }
            if t.len() > 0 {
                self.on_line(cleaned.as_slice(), now, &mut events);
            }
        }
        if self.state == State::AwaitLoginPrompt && prompt_in(&self.cfg.login_prompts, self.buf.as_slice()) {
            self.buf = Vec::new();
            self.send_login(now);
        }
        if self.state == State::AwaitPrompt && !self.sent_password && prompt_in(
            &self.cfg.password_prompts,
            self.buf.as_slice(),
        ) {
            self.buf = Vec::new();
            self.send_password(now);
        }
        events
    }

    /// Drive the timeouts: the login fallback, init pacing, the keepalive.
    pub fn on_tick(&mut self, now: u64) -> (r: Vec<ClientEvent>)
        requires
            old(self).wf(),
        ensures
            (final(self).view(), events_view(r@)) == tick_step(old(self).config(), old(self).view(), now),
            final(self).config() == old(self).config(),
            final(self).wf(),
    {
        let mut events: Vec<ClientEvent> = Vec::new();
        let since = if now >= self.state_since { now - self.state_since } else { 0 };
        let idle = if now >= self.last_send { now - self.last_send } else { 0 };
        match self.state {
            State::AwaitLoginPrompt | State::AwaitPrompt => {
                if since >= LOGIN_TIMEOUT_S {
                    self.enter(State::Ready, now);
                    push_event(&mut events, ClientEvent::LoggedIn);
                    self.advance_init(now);
                }
            },
            State::Ready => {
                if self.init_idx < self.cfg.init_commands.len() && idle >= INIT_PACING_S {
                    self.advance_init(now);
                } else if self.init_idx >= self.cfg.init_commands.len() && self.cfg.keepalive_secs > 0
                    && idle >= self.cfg.keepalive_secs {
                    let ka = chars_of("\r\n");
                    self.queue_line(string_of(ka.as_slice()), now);
                }
            },
        }
        assert(events_view(events@) =~= tick_step(old(self).config(), old(self).view(), now).1);
        events
    }

    /// Queue a raw command line (trailing whitespace removed, CRLF added);
    /// dropped unless logged in.
    pub fn send_line(&mut self, line: &str, now: u64) -> (r: bool)
        requires
            old(self).wf(),
        ensures
            r == (old(self).view().state == State::Ready),
            r ==> final(self).view() == queue(old(self).view(), crlf(trim_end(line@)), now),
            !r ==> final(self).view() == old(self).view(),
            final(self).config() == old(self).config(),
            final(self).wf(),
    {
        if !self.ready() {
            return false;
        }
        let v = chars_of(line);
        let t = strip_trailing_ws(v.as_slice());
        self.queue_line(with_crlf(t.as_slice()), now);
        true
    }

    /// Queue a `dx` submission for `spot` at `freq_khz`; dropped unless
    /// logged in.
    pub fn submit_spot(&mut self, spot: &ClusterSpot, freq_khz: &str, now: u64) -> (r: bool)
        requires
            old(self).wf(),
        ensures
            r == (old(self).view().state == State::Ready),
            r ==> final(self).view() == queue(
                old(self).view(),
                "dx "@ + freq_khz@ + seq![' '] + spot.call@ + seq![' '] + dx_remarks(*spot) + "\r\n"@,
                now,
            ),
            !r ==> final(self).view() == old(self).view(),
            final(self).config() == old(self).config(),
            final(self).wf(),
    {
        if !self.ready() {
            return false;
        }
        self.queue_line(dx_command(spot, freq_khz), now);
        true
    }
}

fn strip_trailing_ws(v: &[char]) -> (r: Vec<char>)
    ensures
        r@ == trim_end(v@),
{
    let mut hi = v.len();
    while hi > 0 && crate::text::is_ws_char(v[hi - 1])
        invariant
            hi <= v.len(),
            forall|j: int| hi <= j < v.len() ==> crate::text::is_ws(v@[j]),
        decreases hi,
    {
        hi = hi - 1;
    }
    proof {
        crate::text::lemma_trail_ws(v@, v.len() - hi);
    }
    let r = slice_vec(v, 0, hi);
    assert(r@ =~= trim_end(v@));
    r
}

fn strip_crlf_vec(v: &Vec<char>) -> (r: Vec<char>)
    ensures
        r@ == strip_crlf(v@),
{
    let mut n = v.len();
    assert(v@.take(n as int) =~= v@);
    while n > 0 && (v[n - 1] == '\r' || v[n - 1] == '\n')
        invariant
            n <= v.len(),
            strip_crlf(v@) == strip_crlf(v@.take(n as int)),
        decreases n,
    {
        assert(v@.take(n as int).drop_last() =~= v@.take(n - 1));
        n = n - 1;
    }
    let r = slice_vec(v.as_slice(), 0, n);
    assert(r@ =~= v@.take(n as int));
    r
}

fn strip_c0_vec(v: &Vec<char>) -> (r: Vec<char>)
    ensures
        r@ == strip_c0(v@),
{
    let mut out: Vec<char> = Vec::new();
    let mut i: usize = 0;
    while i < v.len()
        invariant
            i <= v.len(),
            out@ == strip_c0(v@.take(i as int)),
        decreases v.len() - i,
    {
        assert(v@.take(i + 1).drop_last() =~= v@.take(i as int));
        let ch = v[i];
        if !(ch < ' ' && ch != '\t') {
            out.push(ch);
        }
        i = i + 1;
    }
    assert(v@.take(v.len() as int) =~= v@);
    out
}

} // verus!

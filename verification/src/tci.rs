//! TCI spot injection for ExpertSDR3: the `SPOT` and `SPOT_DELETE`
//! commands, the panorama text, and the deletions owed for spots whose
//! lifetime has passed. The WebSocket link and its worker thread are the
//! application's.

use crate::assoc::{get, key_index, lemma_key_index, lemma_key_index_props, upsert};
use crate::flex::opt_view;
use crate::spot::strip_trail;
use crate::text::{chars_of, decimal, extend_chars, is_ws, is_ws_char, lower_char, push_decimal, string_of, trim, trimmed_chars};
use vstd::prelude::*;

verus! {

/// ExpertSDR3's default TCI port.
pub const DEFAULT_PORT: u16 = 40001;

/// The text field, in characters.
pub const TEXT_MAX: usize = 40;

/// One spot to place on the panorama.
pub struct TciSpot {
    pub callsign: String,
    pub freq_hz: u64,
    pub mode: String,
    /// Free text; `:` `,` `;` are stripped and it is clipped to `TEXT_MAX`.
    pub text: String,
    /// `0xAARRGGBB`, sent as the decimal integer the protocol wants.
    pub color_argb: u32,
    /// Seconds before this call is removed with `SPOT_DELETE`; 0 never.
    pub lifetime_secs: u64,
}

/// Whitespace and the three reserved delimiters.
pub open spec fn blank(c: char) -> bool {
    is_ws(c) || c == ':' || c == ',' || c == ';'
}

/// One step of the sanitiser: the text so far and whether it ends in a
/// space that stands for a blank run.
pub open spec fn tci_step(st: (Seq<char>, bool), ch: char, max: nat) -> (Seq<char>, bool) {
    if st.0.len() >= max {
        st
    } else if blank(ch) {
        if !st.1 && st.0.len() > 0 {
            (st.0.push(' '), true)
        } else {
            st
        }
    } else {
        (st.0.push(ch), false)
    }
}

pub open spec fn tci_run(s: Seq<char>, max: nat) -> (Seq<char>, bool)
    decreases s.len(),
{
    if s.len() == 0 {
        (Seq::empty(), false)
    } else {
        tci_step(tci_run(s.drop_last(), max), s.last(), max)
    }
}

/// Reserved characters and whitespace out: each run of them becomes one
/// space, never at the start, characters stop being taken once `max` are
/// kept, and a trailing space is dropped.
pub open spec fn tci_sanitize(s: Seq<char>, max: nat) -> Seq<char> {
    strip_trail(tci_run(s, max).0, ' ')
}

proof fn lemma_tci_run_len(s: Seq<char>, max: nat)
    ensures
        tci_run(s, max).0.len() <= s.len(),
    decreases s.len(),
{
    if s.len() > 0 {
        lemma_tci_run_len(s.drop_last(), max);
    }
}

proof fn lemma_tci_saturated(s: Seq<char>, i: int, max: nat)
    requires
        0 <= i <= s.len(),
        tci_run(s.take(i), max).0.len() >= max,
    ensures
        tci_run(s, max) == tci_run(s.take(i), max),
    decreases s.len() - i,
{
    if i < s.len() {
        assert(s.take(i + 1).drop_last() =~= s.take(i));
        lemma_tci_saturated(s, i + 1, max);
    } else {
        assert(s.take(i) =~= s);
    }
}

proof fn lemma_tci_run_clean(s: Seq<char>, max: nat)
    ensures
        forall|i: int| 0 <= i < tci_run(s, max).0.len() ==> {
            let c = #[trigger] tci_run(s, max).0[i];
            c != ':' && c != ',' && c != ';'
        },
        tci_run(s, max).0.len() <= max,
    decreases s.len(),
{
    if s.len() > 0 {
        lemma_tci_run_clean(s.drop_last(), max);
    }
}

proof fn lemma_strip_trail_prefix(s: Seq<char>, c: char)
    ensures
        strip_trail(s, c).len() <= s.len(),
        forall|i: int| 0 <= i < strip_trail(s, c).len() ==> #[trigger] strip_trail(s, c)[i] == s[i],
    decreases s.len(),
{
    if s.len() > 0 && s.last() == c {
        lemma_strip_trail_prefix(s.drop_last(), c);
    }
}

/// No sanitised value can break the command apart: it holds none of the
/// protocol's delimiters `:` `,` `;`, and at most `max` characters.
pub proof fn law_sanitized_text_holds_no_delimiter(s: Seq<char>, max: nat)
    ensures
        forall|i: int| 0 <= i < tci_sanitize(s, max).len() ==> {
            let c = #[trigger] tci_sanitize(s, max)[i];
            c != ':' && c != ',' && c != ';'
        },
        tci_sanitize(s, max).len() <= max,
{
    lemma_tci_run_clean(s, max);
    let r = tci_run(s, max).0;
    lemma_strip_trail_prefix(r, ' ');
}

fn sanitize_chars(v: &[char], max: usize) -> (r: Vec<char>)
    ensures
        r@ == tci_sanitize(v@, max as nat),
{
    let mut out: Vec<char> = Vec::new();
    let mut last_was_space = false;
    let mut i: usize = 0;
    while i < v.len()
        invariant
            i <= v.len(),
            (out@, last_was_space) == tci_run(v@.take(i as int), max as nat),
            i == v.len() ==> v@.take(i as int) == v@,
        ensures
            (out@, last_was_space) == tci_run(v@, max as nat),
        decreases v.len() - i,
    {
        assert(v@.take(i + 1).drop_last() =~= v@.take(i as int));
        if out.len() >= max {
            proof {
                lemma_tci_saturated(v@, i as int, max as nat);
            }
            break;
        }
        let ch = v[i];
        if is_ws_char(ch) || ch == ':' || ch == ',' || ch == ';' {
            if !last_was_space && out.len() > 0 {
                out.push(' ');
                last_was_space = true;
            }
        } else {
            out.push(ch);
            last_was_space = false;
        }
        i = i + 1;
        assert(i == v.len() ==> v@.take(i as int) =~= v@);
    }
    let ghost run = out@;
    assert(run == tci_run(v@, max as nat).0);
    let mut n: usize = out.len();
    assert(run.take(n as int) =~= run);
    while n > 0 && out[n - 1] == ' '
        invariant
            n <= out.len(),
            out@ == run,
            strip_trail(run, ' ') == strip_trail(run.take(n as int), ' '),
        decreases n,
    {
        assert(run.take(n as int).drop_last() =~= run.take(n - 1));
        n = n - 1;
    }
    let r = crate::text::slice_vec(out.as_slice(), 0, n);
    assert(r@ =~= run.take(n as int));
    r
}

/// Reserved characters out, and short enough to sit on a panorama.
pub fn sanitize(s: &str, max: usize) -> (r: String)
    ensures
        r@ == tci_sanitize(s@, max as nat),
{
    let v = chars_of(s);
    let out = sanitize_chars(v.as_slice(), max);
    string_of(out.as_slice())
}

/// The panorama text for one alert: `"<level> <entity>"`, or the level
/// alone when there is no (or an empty) entity.
pub open spec fn text_spec(level: Seq<char>, entity: Option<Seq<char>>) -> Seq<char> {
    match entity {
        Some(e) => if e.len() == 0 {
            level
        } else {
            level + seq![' '] + e
        },
        None => level,
    }
}

pub fn text_for(level_label: &str, entity: Option<&str>) -> (r: String)
    ensures
        r@ == text_spec(level_label@, opt_view(entity)),
{
    match entity {
        Some(e) => {
            let ev = chars_of(e);
            if ev.len() == 0 {
                return level_label.to_owned();
            }
            let mut out = chars_of(level_label);
            out.push(' ');
            extend_chars(&mut out, ev.as_slice());
            assert(out@ =~= level_label@ + seq![' '] + e@);
            string_of(out.as_slice())
        },
        None => level_label.to_owned(),
    }
}

/// `SPOT:<call>,<mode>,<Hz>,<ARGB>,<text>;`
pub open spec fn spot_spec(s: TciSpot) -> Seq<char> {
    "SPOT:"@ + tci_sanitize(s.callsign@, 32) + seq![','] + tci_sanitize(s.mode@, 16) + seq![','] + decimal(
        s.freq_hz as nat,
    ) + seq![','] + decimal(s.color_argb as nat) + seq![','] + tci_sanitize(s.text@, TEXT_MAX as nat)
        + seq![';']
}

/// Build one `SPOT` command.
pub fn spot_command(s: &TciSpot) -> (r: String)
    ensures
        r@ == spot_spec(*s),
{
    let mut out = chars_of("SPOT:");
    extend_chars(&mut out, sanitize_chars(chars_of(s.callsign.as_str()).as_slice(), 32).as_slice());
    out.push(',');
    extend_chars(&mut out, sanitize_chars(chars_of(s.mode.as_str()).as_slice(), 16).as_slice());
    out.push(',');
    push_decimal(&mut out, s.freq_hz);
    out.push(',');
    push_decimal(&mut out, s.color_argb as u64);
    out.push(',');
    extend_chars(&mut out, sanitize_chars(chars_of(s.text.as_str()).as_slice(), TEXT_MAX).as_slice());
    out.push(';');
    string_of(out.as_slice())
}

/// `SPOT_DELETE:<call>;`
pub fn delete_command(callsign: &str) -> (r: String)
    ensures
        r@ == "SPOT_DELETE:"@ + tci_sanitize(callsign@, 32) + seq![';'],
{
    let mut out = chars_of("SPOT_DELETE:");
    extend_chars(&mut out, sanitize_chars(chars_of(callsign).as_slice(), 32).as_slice());
    out.push(';');
    string_of(out.as_slice())
}

// --- deletions owed -----------------------------------------------------------------

/// A spot placed on the panorama and owed a `SPOT_DELETE`, with the
/// millisecond clock reading at which it falls due.
pub struct Pending {
    pub callsign: String,
    pub due_ms: u64,
}

/// The deletions owed, in the order their calls were first placed. A
/// spot is the radio's state and outlives the link, so these survive a
/// reconnect; only ones long overdue are let go.
pub struct PendingDeletions {
    items: Vec<Pending>,
}

pub open spec fn pending_model(v: Seq<Pending>) -> Seq<(Seq<char>, u64)> {
    v.map_values(|p: Pending| (p.callsign@, p.due_ms))
}

/// The entries still worth keeping at `now`: due less than `grace` ago.
pub open spec fn live_entries(s: Seq<(Seq<char>, u64)>, now: u64, grace: u64) -> Seq<(Seq<char>, u64)>
    decreases s.len(),
{
    if s.len() == 0 {
        s
    } else if (now as int) < s.last().1 + grace {
        live_entries(s.drop_last(), now, grace).push(s.last())
    } else {
        live_entries(s.drop_last(), now, grace)
    }
}

/// Index of the first entry due at `now` (the length when none is).
pub open spec fn first_due(s: Seq<(Seq<char>, u64)>, now: u64) -> int
    decreases s.len(),
{
    if s.len() == 0 {
        0
    } else if s[0].1 <= now {
        0
    } else {
        1 + first_due(s.drop_first(), now)
    }
}

proof fn lemma_first_due(s: Seq<(Seq<char>, u64)>, now: u64, r: int)
    requires
        0 <= r <= s.len(),
        forall|j: int| 0 <= j < r ==> s[j].1 > now,
        r < s.len() ==> s[r].1 <= now,
    ensures
        first_due(s, now) == r,
    decreases s.len(),
{
    if r > 0 {
        lemma_first_due(s.drop_first(), now, r - 1);
    }
}

impl PendingDeletions {
    pub closed spec fn model(&self) -> Seq<(Seq<char>, u64)> {
        pending_model(self.items@)
    }

    pub fn new() -> (p: PendingDeletions)
        ensures
            p.model() == Seq::<(Seq<char>, u64)>::empty(),
    {
        let p = PendingDeletions { items: Vec::new() };
        assert(p.model() =~= Seq::<(Seq<char>, u64)>::empty());
        p
    }

    pub fn len(&self) -> (n: usize)
        ensures
            n == self.model().len(),
    {
        self.items.len()
    }

    pub fn is_empty(&self) -> (r: bool)
        ensures
            r == (self.model().len() == 0),
    {
        self.items.len() == 0
    }

    /// Owe a deletion for `callsign` at `due_ms`: one deadline per call, so
    /// a re-spotted call's deadline moves to the latest placement.
    pub fn schedule(&mut self, callsign: &str, due_ms: u64)
        ensures
            final(self).model() == upsert(old(self).model(), callsign@, due_ms),
    {
        let ghost m = self.model();
        let k = chars_of(callsign);
        let mut i: usize = 0;
        while i < self.items.len()
            invariant
                i <= self.items.len(),
                m == pending_model(self.items@),
                m == old(self).model(),
                k@ == callsign@,
                forall|j: int| 0 <= j < i ==> m[j].0 != k@,
            decreases self.items.len() - i,
        {
            let c = chars_of(self.items[i].callsign.as_str());
            if crate::text::chars_eq(c.as_slice(), k.as_slice()) {
                proof {
                    lemma_key_index(m, callsign@, i as int);
                }
                let name = string_of(k.as_slice());
                self.items.set(i, Pending { callsign: name, due_ms });
                assert(self.model() =~= upsert(m, callsign@, due_ms));
                return;
            }
            i = i + 1;
        }
        proof {
            lemma_key_index(m, callsign@, i as int);
        }
        self.items.push(Pending { callsign: string_of(k.as_slice()), due_ms });
        assert(self.model() =~= upsert(m, callsign@, due_ms));
    }

    /// Let go of deletions overdue by `grace_ms` or more at `now_ms`.
    pub fn retain_live(&mut self, now_ms: u64, grace_ms: u64)
        ensures
            final(self).model() == live_entries(old(self).model(), now_ms, grace_ms),
    {
        let ghost m = self.model();
        let mut kept: Vec<Pending> = Vec::new();
        let mut taken: Vec<Pending> = Vec::new();
        std::mem::swap(&mut taken, &mut self.items);
        assert(pending_model(taken@) == m);
        let mut i: usize = 0;
        while i < taken.len()
            invariant
                i <= taken.len(),
                m == pending_model(taken@),
                pending_model(kept@) == live_entries(m.take(i as int), now_ms, grace_ms),
            decreases taken.len() - i,
        {
            assert(m.take(i + 1).drop_last() =~= m.take(i as int));
            assert(m.take(i + 1).last() == m[i as int]);
            let live = (now_ms as u128) < (taken[i].due_ms as u128) + (grace_ms as u128);
            if live {
                let p = Pending { callsign: string_of(chars_of(taken[i].callsign.as_str()).as_slice()), due_ms: taken[i].due_ms };
                let ghost before = pending_model(kept@);
                kept.push(p);
                assert(pending_model(kept@) =~= before.push(m[i as int]));
            }
            i = i + 1;
        }
        assert(m.take(taken.len() as int) =~= m);
        self.items = kept;
    }

    /// Position of the first deletion due at `now_ms`, if any.
    pub fn next_due(&self, now_ms: u64) -> (r: Option<usize>)
        ensures
            match r {
                Some(i) => i == first_due(self.model(), now_ms) && i < self.model().len(),
                None => first_due(self.model(), now_ms) == self.model().len(),
            },
    {
        let ghost m = self.model();
        let mut i: usize = 0;
        while i < self.items.len()
            invariant
                i <= self.items.len(),
                m == pending_model(self.items@),
                forall|j: int| 0 <= j < i ==> m[j].1 > now_ms,
            decreases self.items.len() - i,
        {
            if self.items[i].due_ms <= now_ms {
                proof {
                    lemma_first_due(m, now_ms, i as int);
                }
                return Some(i);
            }
            i = i + 1;
        }
        proof {
            lemma_first_due(m, now_ms, i as int);
        }
        None
    }

    /// The call of the deletion at `i`.
    pub fn callsign_at(&self, i: usize) -> (r: &str)
        requires
            i < self.model().len(),
        ensures
            r@ == self.model()[i as int].0,
    {
        self.items[i].callsign.as_str()
    }

    /// Forget the deletion at `i` once it has been sent.
    pub fn remove_at(&mut self, i: usize)
        requires
            i < old(self).model().len(),
        ensures
            final(self).model() == old(self).model().remove(i as int),
    {
        let ghost m = self.model();
        self.items.remove(i);
        assert(self.model() =~= m.remove(i as int));
    }

    /// The soonest deadline, if any deletion is owed.
    pub fn soonest(&self) -> (r: Option<u64>)
        ensures
            match r {
                Some(d) => (exists|j: int| 0 <= j < self.model().len() && self.model()[j].1 == d) && forall|j: int|
                    0 <= j < self.model().len() ==> d <= #[trigger] self.model()[j].1,
                None => self.model().len() == 0,
            },
    {
        let ghost m = self.model();
        if self.items.len() == 0 {
            return None;
        }
        let mut best: u64 = self.items[0].due_ms;
        let mut i: usize = 1;
        assert(m[0].1 == best);
        while i < self.items.len()
            invariant
                1 <= i <= self.items.len(),
                m == pending_model(self.items@),
                exists|j: int| 0 <= j < i && m[j].1 == best,
                forall|j: int| 0 <= j < i ==> best <= #[trigger] m[j].1,
            decreases self.items.len() - i,
        {
            if self.items[i].due_ms < best {
                best = self.items[i].due_ms;
                assert(m[i as int].1 == best);
            }
            i = i + 1;
        }
        Some(best)
    }
}

// --- the link's pacing -----------------------------------------------------------

/// One dial per this many milliseconds, so a burst of alerts at a dark
/// radio is not a burst of connection attempts.
pub const RECONNECT_AFTER_MS: u64 = 30_000;

/// The longest the worker waits on its queue while connected: the cadence
/// at which the radio's own traffic is drained.
pub const READ_TIMEOUT_MS: u64 = 250;

/// How long, after connecting, the worker waits for the radio's `READY;`.
pub const READY_TIMEOUT_MS: u64 = 3_000;

/// Whether a message from the radio is the `READY;` that ends its
/// initialization block: surrounding whitespace aside, and in any case.
pub open spec fn ready_message(text: Seq<char>) -> bool {
    trim(text).map_values(|c: char| lower_char(c)) == "ready;"@
}

pub fn is_ready(text: &str) -> (r: bool)
    ensures
        r == ready_message(text@),
{
    let v = trimmed_chars(text);
    let ghost t = trim(text@);
    if v.len() != 6 {
        proof {
            reveal_strlit("ready;");
            assert(t.map_values(|c: char| lower_char(c)).len() == t.len());
        }
        return false;
    }
    let mut lowered: Vec<char> = Vec::new();
    let mut i: usize = 0;
    while i < v.len()
        invariant
            i <= v@.len(),
            v@ == t,
            lowered@ == t.take(i as int).map_values(|c: char| lower_char(c)),
        decreases v@.len() - i,
    {
        lowered.push(crate::text::ascii_lower_char(v[i]));
        i = i + 1;
        assert(lowered@ =~= t.take(i as int).map_values(|c: char| lower_char(c)));
    }
    assert(t.take(t.len() as int) =~= t);
    crate::text::eq_lit(lowered.as_slice(), "ready;")
}

/// Deletions are owed across reconnects, but not once overdue this long.
pub const PENDING_GRACE_MS: u64 = 1_800_000;

/// Milliseconds from `from` to `now`; none when the clock reads earlier.
pub open spec fn elapsed(from: u64, now: u64) -> nat {
    if now >= from {
        (now - from) as nat
    } else {
        0
    }
}

/// Whether a dial may be made: never dialled, or the last attempt was at
/// least `interval` ago.
pub open spec fn dial_due(last_attempt: Option<u64>, now: u64, interval: u64) -> bool {
    match last_attempt {
        None => true,
        Some(t) => elapsed(t, now) >= interval,
    }
}

/// Whether a dial may be made at `now`; the radio links share this pacing.
pub fn may_dial(last_attempt: Option<u64>, now: u64, interval: u64) -> (r: bool)
    ensures
        r == dial_due(last_attempt, now, interval),
{
    match last_attempt {
        None => true,
        Some(t) => {
            let e: u64 = if now >= t { now - t } else { 0 };
            e >= interval
        },
    }
}

/// `a - b`, or 0 when `b` is larger.
pub open spec fn minus(a: nat, b: nat) -> nat {
    if a >= b {
        (a - b) as nat
    } else {
        0
    }
}

/// The link to one radio as the worker sees it: whether it is up, when it
/// was last dialled, and the deletions it owes.
pub struct TciLink {
    pending: PendingDeletions,
    connected: bool,
    last_attempt: Option<u64>,
}

impl TciLink {
    pub closed spec fn owed(&self) -> Seq<(Seq<char>, u64)> {
        self.pending.model()
    }

    pub closed spec fn connected(&self) -> bool {
        self.connected
    }

    pub closed spec fn last_attempt(&self) -> Option<u64> {
        self.last_attempt
    }

    /// Down, never dialled, owing nothing.
    pub fn new() -> (l: TciLink)
        ensures
            l.owed() == Seq::<(Seq<char>, u64)>::empty(),
            !l.connected(),
            l.last_attempt() is None,
    {
        TciLink { pending: PendingDeletions::new(), connected: false, last_attempt: None }
    }

    pub fn is_connected(&self) -> (r: bool)
        ensures
            r == self.connected(),
    {
        self.connected
    }

    pub fn owes(&self) -> (n: usize)
        ensures
            n == self.owed().len(),
    {
        self.pending.len()
    }

    /// How long to wait on the queue at `now`: `None` to block until a spot
    /// arrives, which is right only when the link is down and nothing is
    /// owed. While down, wait for the next permitted dial (not for an
    /// overdue deadline, which would spin); while up, for the soonest
    /// deadline, but no longer than the drain cadence.
    pub fn wait(&self, now: u64) -> (r: Option<u64>)
        ensures
            !self.connected() && self.owed().len() == 0 ==> r is None,
            !self.connected() && self.owed().len() > 0 ==> r == Some(
                match self.last_attempt() {
                    None => 0u64,
                    Some(t) => minus(RECONNECT_AFTER_MS as nat, elapsed(t, now)) as u64,
                },
            ),
            self.connected() && self.owed().len() == 0 ==> r == Some(READ_TIMEOUT_MS),
            self.connected() && self.owed().len() > 0 ==> exists|j: int|
                0 <= j < self.owed().len() && (forall|k: int|
                    0 <= k < self.owed().len() ==> self.owed()[j].1 <= #[trigger] self.owed()[k].1)
                    && r == Some(
                    (if minus(self.owed()[j].1 as nat, now as nat) < READ_TIMEOUT_MS {
                        minus(self.owed()[j].1 as nat, now as nat)
                    } else {
                        READ_TIMEOUT_MS as nat
                    }) as u64,
                ),
    {
        if !self.connected {
            if self.pending.is_empty() {
                return None;
            }
            match self.last_attempt {
                None => Some(0),
                Some(t) => {
                    let e: u64 = if now >= t { now - t } else { 0 };
                    Some(RECONNECT_AFTER_MS.saturating_sub(e))
                },
            }
        } else {
            match self.pending.soonest() {
                None => Some(READ_TIMEOUT_MS),
                Some(d) => {
                    let left = d.saturating_sub(now);
                    Some(if left < READ_TIMEOUT_MS { left } else { READ_TIMEOUT_MS })
                },
            }
        }
    }

    /// The start of each pass at `now`: let go of deletions overdue past
    /// the grace period, then decide whether to dial. A dial is made only
    /// while down, only with a spot in hand or a deletion owed, and only
    /// when the last attempt is old enough; deciding to dial records the
    /// attempt.
    pub fn begin_pass(&mut self, now: u64, have_spot: bool) -> (dial: bool)
        ensures
            final(self).owed() == live_entries(old(self).owed(), now, PENDING_GRACE_MS),
            final(self).connected() == old(self).connected(),
            dial == (!old(self).connected() && (have_spot || final(self).owed().len() > 0) && dial_due(
                old(self).last_attempt(),
                now,
                RECONNECT_AFTER_MS,
            )),
            final(self).last_attempt() == (if dial { Some(now) } else { old(self).last_attempt() }),
    {
        self.pending.retain_live(now, PENDING_GRACE_MS);
        if self.connected || !(have_spot || !self.pending.is_empty()) {
            return false;
        }
        let due = may_dial(self.last_attempt, now, RECONNECT_AFTER_MS);
        if due {
            self.last_attempt = Some(now);
        }
        due
    }

    /// The outcome of a dial. What is owed stays owed: a spot is the
    /// radio's state and outlives the link that placed it.
    pub fn dialled(&mut self, ok: bool)
        ensures
            final(self).connected() == ok,
            final(self).owed() == old(self).owed(),
            final(self).last_attempt() == old(self).last_attempt(),
    {
        self.connected = ok;
    }

    /// A spot was written at `now` (or the write failed). A placed spot
    /// with a lifetime owes its call's deletion a lifetime from now, one
    /// deadline per call; a failed write takes the link down.
    pub fn placed(&mut self, callsign: &str, lifetime_secs: u64, now: u64, ok: bool)
        ensures
            final(self).owed() == (if ok && lifetime_secs > 0 {
                upsert(old(self).owed(), callsign@, (if now + lifetime_secs * 1000 <= u64::MAX {
                    now + lifetime_secs * 1000
                } else {
                    u64::MAX as int
                }) as u64)
            } else {
                old(self).owed()
            }),
            final(self).connected() == (old(self).connected() && ok),
            final(self).last_attempt() == old(self).last_attempt(),
    {
        if ok {
            if lifetime_secs > 0 {
                let due: u64 = if lifetime_secs <= (u64::MAX - now) / 1000 {
                    now + lifetime_secs * 1000
                } else {
                    u64::MAX
                };
                self.pending.schedule(callsign, due);
            }
        } else {
            self.connected = false;
        }
    }

    /// The first deletion due at `now`, if any.
    pub fn next_due(&self, now: u64) -> (r: Option<usize>)
        ensures
            match r {
                Some(i) => i == first_due(self.owed(), now) && i < self.owed().len(),
                None => first_due(self.owed(), now) == self.owed().len(),
            },
    {
        self.pending.next_due(now)
    }

    /// The call of the deletion at `i`.
    pub fn callsign_at(&self, i: usize) -> (r: &str)
        requires
            i < self.owed().len(),
        ensures
            r@ == self.owed()[i as int].0,
    {
        self.pending.callsign_at(i)
    }

    /// The deletion at `i` was written (or the write failed): a sent one
    /// is settled, a failed one stays owed and takes the link down.
    pub fn deleted(&mut self, i: usize, ok: bool)
        requires
            i < old(self).owed().len(),
        ensures
            final(self).owed() == (if ok { old(self).owed().remove(i as int) } else { old(self).owed() }),
            final(self).connected() == (old(self).connected() && ok),
            final(self).last_attempt() == old(self).last_attempt(),
    {
        if ok {
            self.pending.remove_at(i);
        } else {
            self.connected = false;
        }
    }

    /// The link dropped (the radio closed it, or a read failed).
    pub fn lost(&mut self)
        ensures
            !final(self).connected(),
            final(self).owed() == old(self).owed(),
            final(self).last_attempt() == old(self).last_attempt(),
    {
        self.connected = false;
    }
}

} // verus!

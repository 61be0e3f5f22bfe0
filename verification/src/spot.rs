//! The aggregated spot: one decode, or a cluster spot turned into a
//! synthetic decode, carried through dedupe, the telnet feed, broadcast and
//! classification.

use crate::bands::{band_rows, first_row};
use crate::text::{
    chars_of, eq_lit, extend_chars, is_alphabetic, is_numeric, slice_vec, split_nonempty,
    split_nonempty_vec, starts_with, string_of, to_upper, unicode_alphabetic, unicode_numeric,
    unicode_upper, upper, upper_vec, views,
};
use vstd::prelude::*;

verus! {

/// One spot. A decode's time offset is the raw bits of its IEEE double.
#[derive(Debug, Clone, PartialEq, Eq)]
pub struct Spot {
    /// Unix seconds: today's UTC date with the decode's time of day, or the
    /// receive time for cluster spots.
    pub time_unix: i64,
    pub snr_db: i32,
    pub delta_time_bits: u64,
    pub delta_frequency_hz: u32,
    /// Raw mode exactly as the decoder sent it.
    pub mode: String,
    /// True when `mode` was guessed from the frequency.
    pub mode_inferred: bool,
    pub message: String,
    /// Does this spot report a station calling CQ?
    pub is_cq: bool,
    /// The spotter's free-text comment, for cluster spots.
    pub comment: String,
    pub low_confidence: bool,
    pub off_air: bool,
    pub dial_frequency_hz: u64,
    /// The feed that carried this spot (a decoder or a cluster node).
    pub source_name: String,
    /// The spotting station, for relayed cluster spots.
    pub spotter: Option<String>,
}

/// Characters with all leading `c` removed.
pub open spec fn strip_lead(s: Seq<char>, c: char) -> Seq<char>
    decreases s.len(),
{
    if s.len() > 0 && s[0] == c {
        strip_lead(s.drop_first(), c)
    } else {
        s
    }
}

/// Characters with all trailing `c` removed.
pub open spec fn strip_trail(s: Seq<char>, c: char) -> Seq<char>
    decreases s.len(),
{
    if s.len() > 0 && s.last() == c {
        strip_trail(s.drop_last(), c)
    } else {
        s
    }
}

/// A token without the `<…>` WSJT-X puts around hashed calls.
pub open spec fn undecorated(s: Seq<char>) -> Seq<char> {
    strip_trail(strip_lead(s, '<'), '>')
}

/// FT8 tokens that are never callsigns.
pub open spec fn not_calls() -> Seq<&'static str> {
    seq!["RR73", "RRR", "73", "TU", "TNX", "QSL", "DE", "TEST", "CQ"]
}

/// Whether an FT8 message token looks like a callsign: 3–11 characters
/// (uppercased, `<>` stripped), not a sign-off, signal report or 4-character
/// grid, with both a letter and a digit, and only letters, digits and `/`.
pub open spec fn callsign_shape(s: Seq<char>) -> bool {
    let core = undecorated(unicode_upper(s));
    let n = core.len();
    if n == 0 || core == "..."@ || n < 3 || n > 11 {
        false
    } else if views(not_calls()).contains(core) {
        false
    } else if starts_with(core, "R+"@) || starts_with(core, "R-"@) {
        false
    } else if (core[0] == '+' || core[0] == '-') && (forall|j: int|
        1 <= j < n ==> unicode_numeric(#[trigger] core[j])) {
        false
    } else if n == 4 && unicode_alphabetic(core[0]) && unicode_alphabetic(core[1]) && unicode_numeric(
        core[2],
    ) && unicode_numeric(core[3]) {
        false
    } else {
        (exists|j: int| 0 <= j < n && unicode_numeric(#[trigger] core[j])) && (exists|j: int|
            0 <= j < n && unicode_alphabetic(#[trigger] core[j])) && (forall|j: int|
            0 <= j < n ==> unicode_alphabetic(#[trigger] core[j]) || unicode_numeric(core[j])
                || core[j] == '/')
    }
}

/// The DX callsign of an FT8/FT4 message: after `CQ` (skipping a directed
/// `CQ NA`), else the transmitting station in slot 1, else slot 0; `<>`
/// unwrapped.
pub open spec fn dx_call_spec(message: Seq<char>) -> Option<Seq<char>> {
    let p = split_nonempty(message, ' ');
    if p.len() < 2 {
        None
    } else if upper(p[0]) == "CQ"@ {
        if p.len() >= 3 && !callsign_shape(p[1]) {
            if callsign_shape(p[2]) {
                Some(undecorated(p[2]))
            } else {
                None
            }
        } else if callsign_shape(p[1]) {
            Some(undecorated(p[1]))
        } else {
            None
        }
    } else if callsign_shape(p[1]) {
        Some(undecorated(p[1]))
    } else if callsign_shape(p[0]) {
        Some(undecorated(p[0]))
    } else {
        None
    }
}

/// `n` as two decimal digits (`n` below 100).
pub open spec fn two_digits(n: int) -> Seq<char> {
    seq![crate::text::digit_char((n / 10) as nat), crate::text::digit_char((n % 10) as nat)]
}

/// `HHmm` of a unix time, in UTC.
pub open spec fn hhmm_spec(t: int) -> Seq<char> {
    let secs = t % 86400;
    two_digits(secs / 3600) + two_digits((secs % 3600) / 60)
}

/// Unix seconds of the UTC midnight on or before `t`.
pub open spec fn midnight(t: int) -> int {
    t - t % 86400
}

fn strip_decoration(v: &[char]) -> (r: Vec<char>)
    ensures
        r@ == undecorated(v@),
{
    let mut lo: usize = 0;
    assert(v@.skip(0) =~= v@);
    while lo < v.len() && v[lo] == '<'
        invariant
            lo <= v.len(),
            strip_lead(v@, '<') == strip_lead(v@.skip(lo as int), '<'),
        decreases v.len() - lo,
    {
        assert(v@.skip(lo as int).drop_first() =~= v@.skip(lo + 1));
        lo = lo + 1;
    }
    let ghost lead = v@.skip(lo as int);
    let mut hi: usize = v.len();
    assert(lead.take(lead.len() as int) =~= lead);
    while hi > lo && v[hi - 1] == '>'
        invariant
            lo <= hi <= v.len(),
            lead == v@.skip(lo as int),
            strip_trail(lead, '>') == strip_trail(v@.subrange(lo as int, hi as int), '>'),
        decreases hi - lo,
    {
        assert(v@.subrange(lo as int, hi as int).drop_last() =~= v@.subrange(lo as int, hi - 1));
        hi = hi - 1;
    }
    proof {
        if lo < v.len() {
            assert(v@.skip(lo as int)[0] == v@[lo as int]);
        }
        if hi > lo {
            assert(v@.subrange(lo as int, hi as int).last() == v@[hi - 1]);
        }
        assert(lead =~= v@.subrange(lo as int, v.len() as int));
    }
    slice_vec(v, lo, hi)
}

fn not_call_table() -> (v: Vec<&'static str>)
    ensures
        v@ == not_calls(),
{
    let v = vec!["RR73", "RRR", "73", "TU", "TNX", "QSL", "DE", "TEST", "CQ"];
    assert(v@ =~= not_calls());
    v
}

/// Whether an FT8 message token looks like a callsign (see
/// [`callsign_shape`]).
pub fn looks_like_callsign(s: &[char]) -> (r: bool)
    ensures
        r == callsign_shape(s@),
{
    let up = to_upper(string_of(s).as_str());
    let core = strip_decoration(chars_of(up.as_str()).as_slice());
    let n = core.len();
    proof {
        reveal_strlit("...");
        reveal_strlit("R+");
        reveal_strlit("R-");
    }
    if n == 0 || eq_lit(core.as_slice(), "...") || n < 3 || n > 11 {
        return false;
    }
    let table = not_call_table();
    if crate::text::is_one_of(table.as_slice(), core.as_slice()) {
        return false;
    }
    let r_sign = core[0] == 'R' && (core[1] == '+' || core[1] == '-');
    assert(r_sign == (starts_with(core@, "R+"@) || starts_with(core@, "R-"@))) by {
        if starts_with(core@, "R+"@) || starts_with(core@, "R-"@) {
            assert(core@.take(2)[0] == core@[0] && core@.take(2)[1] == core@[1]);
        }
        if r_sign {
            if core[1] == '+' {
                assert(core@.take(2) =~= "R+"@);
            } else {
                assert(core@.take(2) =~= "R-"@);
            }
        }
    }
    if r_sign {
        return false;
    }
    if core[0] == '+' || core[0] == '-' {
        let mut all = true;
        let mut i: usize = 1;
        while i < n
            invariant
                1 <= i <= n,
                n == core@.len(),
                all == (forall|j: int| 1 <= j < i ==> unicode_numeric(#[trigger] core@[j])),
            decreases n - i,
        {
            if !is_numeric(core[i]) {
                all = false;
            }
            i = i + 1;
        }
        if all {
            return false;
        }
    }
    if n == 4 && is_alphabetic(core[0]) && is_alphabetic(core[1]) && is_numeric(core[2])
        && is_numeric(core[3]) {
        return false;
    }
    let mut digit = false;
    let mut letter = false;
    let mut allowed = true;
    let mut i: usize = 0;
    while i < n
        invariant
            i <= n,
            n == core@.len(),
            digit == (exists|j: int| 0 <= j < i && unicode_numeric(#[trigger] core@[j])),
            letter == (exists|j: int| 0 <= j < i && unicode_alphabetic(#[trigger] core@[j])),
            allowed == (forall|j: int|
                0 <= j < i ==> unicode_alphabetic(#[trigger] core@[j]) || unicode_numeric(core@[j])
                    || core@[j] == '/'),
        decreases n - i,
    {
        let a = is_alphabetic(core[i]);
        let d = is_numeric(core[i]);
        if d {
            digit = true;
        }
        if a {
            letter = true;
        }
        if !(a || d || core[i] == '/') {
            allowed = false;
        }
        i = i + 1;
    }
    digit && letter && allowed
}

/// Which message tokens are callsigns, stated on the token uppercased with
/// `<>` stripped: one of 3 to 11 characters, each a letter, a digit or a
/// `/` (so compound calls such as `PJ4/K1ABC` count), with at least one
/// letter and one digit, is a callsign unless it is a sign-off (`RR73`,
/// `RRR`, `73`, `TU`, `TNX`, `QSL`, `DE`, `TEST`, `CQ`), `...`, a signal
/// report (`R+…`, `R-…`, or a sign followed by digits only) or a
/// two-letter, two-digit grid square. No token outside 3 to 11
/// characters, without a letter or a digit, or holding another character
/// is a callsign.
pub proof fn law_callsign_tokens(s: Seq<char>)
    ensures
        ({
            let core = undecorated(unicode_upper(s));
            let n = core.len();
            let chars_ok = forall|j: int|
                0 <= j < n ==> core[j] == '/' || unicode_alphabetic(#[trigger] core[j]) || unicode_numeric(core[j]);
            let has_letter = exists|j: int| 0 <= j < n && unicode_alphabetic(#[trigger] core[j]);
            let has_digit = exists|j: int| 0 <= j < n && unicode_numeric(#[trigger] core[j]);
            let sign_off = core == "RR73"@ || core == "RRR"@ || core == "73"@ || core == "TU"@ || core == "TNX"@
                || core == "QSL"@ || core == "DE"@ || core == "TEST"@ || core == "CQ"@ || core == "..."@;
            let report = starts_with(core, "R+"@) || starts_with(core, "R-"@) || (n > 0 && (core[0] == '+'
                || core[0] == '-') && forall|j: int| 1 <= j < n ==> unicode_numeric(#[trigger] core[j]));
            let grid = n == 4 && unicode_alphabetic(core[0]) && unicode_alphabetic(core[1]) && unicode_numeric(
                core[2],
            ) && unicode_numeric(core[3]);
            &&& (3 <= n <= 11 && chars_ok && has_letter && has_digit && !sign_off && !report && !grid
                ==> callsign_shape(s))
            &&& (callsign_shape(s) ==> 3 <= n <= 11 && chars_ok && has_letter && has_digit && !sign_off
                && !report && !grid)
        }),
{
    reveal_strlit("RR73");
    reveal_strlit("RRR");
    reveal_strlit("73");
    reveal_strlit("TU");
    reveal_strlit("TNX");
    reveal_strlit("QSL");
    reveal_strlit("DE");
    reveal_strlit("TEST");
    reveal_strlit("CQ");
    reveal_strlit("...");
    let core = undecorated(unicode_upper(s));
    let names = views(not_calls());
    assert(names.len() == 9);
    assert(names[0] == "RR73"@);
    assert(names[1] == "RRR"@);
    assert(names[2] == "73"@);
    assert(names[3] == "TU"@);
    assert(names[4] == "TNX"@);
    assert(names[5] == "QSL"@);
    assert(names[6] == "DE"@);
    assert(names[7] == "TEST"@);
    assert(names[8] == "CQ"@);
    if names.contains(core) {
        let i = choose|i: int| 0 <= i < names.len() && names[i] == core;
        assert(i == 0 || i == 1 || i == 2 || i == 3 || i == 4 || i == 5 || i == 6 || i == 7 || i == 8);
    }
    if core == "RR73"@ {
        assert(names[0] == core);
    } else if core == "RRR"@ {
        assert(names[1] == core);
    } else if core == "73"@ {
        assert(names[2] == core);
    } else if core == "TU"@ {
        assert(names[3] == core);
    } else if core == "TNX"@ {
        assert(names[4] == core);
    } else if core == "QSL"@ {
        assert(names[5] == core);
    } else if core == "DE"@ {
        assert(names[6] == core);
    } else if core == "TEST"@ {
        assert(names[7] == core);
    } else if core == "CQ"@ {
        assert(names[8] == core);
    }
}

impl Spot {
    /// Dial frequency plus the audio offset.
    pub fn frequency_hz(&self) -> (r: u64)
        requires
            self.dial_frequency_hz + self.delta_frequency_hz <= u64::MAX,
        ensures
            r == self.dial_frequency_hz + self.delta_frequency_hz,
    {
        self.dial_frequency_hz + self.delta_frequency_hz as u64
    }

    /// `HHmm` in UTC, for the cluster line.
    pub fn hhmm(&self) -> (r: String)
        ensures
            r@ == hhmm_spec(self.time_unix as int),
    {
        let secs = match self.time_unix.checked_rem_euclid(86_400) {
            Some(s) => s,
            None => 0,
        };
        let h = secs / 3600;
        let m = (secs % 3600) / 60;
        let mut out: Vec<char> = Vec::new();
        out.push(('0' as u8 + (h / 10) as u8) as char);
        out.push(('0' as u8 + (h % 10) as u8) as char);
        out.push(('0' as u8 + (m / 10) as u8) as char);
        out.push(('0' as u8 + (m % 10) as u8) as char);
        assert(out@ =~= hhmm_spec(self.time_unix as int));
        string_of(out.as_slice())
    }

    /// The spotted (DX) callsign in the FT8/FT4 message text.
    pub fn dx_callsign(&self) -> (r: Option<String>)
        ensures
            match r {
                Some(c) => dx_call_spec(self.message@) == Some(c@),
                None => dx_call_spec(self.message@) is None,
            },
    {
        let parts = split_nonempty_vec(chars_of(self.message.as_str()).as_slice(), ' ');
        if parts.len() < 2 {
            return None;
        }
        let head = upper_vec(parts[0].as_slice());
        proof {
            reveal_strlit("CQ");
        }
        if eq_lit(head.as_slice(), "CQ") {
            if parts.len() >= 3 && !looks_like_callsign(parts[1].as_slice()) {
                if looks_like_callsign(parts[2].as_slice()) {
                    return Some(string_of(strip_decoration(parts[2].as_slice()).as_slice()));
                }
                return None;
            }
            if looks_like_callsign(parts[1].as_slice()) {
                return Some(string_of(strip_decoration(parts[1].as_slice()).as_slice()));
            }
            return None;
        }
        if looks_like_callsign(parts[1].as_slice()) {
            return Some(string_of(strip_decoration(parts[1].as_slice()).as_slice()));
        }
        if looks_like_callsign(parts[0].as_slice()) {
            return Some(string_of(strip_decoration(parts[0].as_slice()).as_slice()));
        }
        None
    }

    /// Dedupe key `CALL-BAND-MODE`; `None` when no callsign can be
    /// extracted (such spots always pass).
    pub fn duplicate_key(&self) -> (r: Option<String>)
        requires
            self.dial_frequency_hz + self.delta_frequency_hz <= u64::MAX,
        ensures
            match r {
                Some(k) => dx_call_spec(self.message@) is Some && k@ == unicode_upper(
                    dx_call_spec(self.message@)->0,
                ) + seq!['-'] + (match first_row(
                    band_rows(),
                    self.dial_frequency_hz + self.delta_frequency_hz,
                    true,
                ) {
                    Some(b) => b@,
                    None => Seq::empty(),
                }) + seq!['-'] + unicode_upper(self.mode@),
                None => dx_call_spec(self.message@) is None,
            },
    {
        let call = match self.dx_callsign() {
            Some(c) => to_upper(c.as_str()),
            None => return None,
        };
        let band = match crate::bands::band_from_hz(self.frequency_hz()) {
            Some(b) => b,
            None => "",
        };
        let mut out = chars_of(call.as_str());
        out.push('-');
        extend_chars(&mut out, chars_of(band).as_slice());
        out.push('-');
        extend_chars(&mut out, chars_of(to_upper(self.mode.as_str()).as_str()).as_slice());
        proof {
            reveal_strlit("");
        }
        Some(string_of(out.as_slice()))
    }
}

/// Does a decoded message announce a CQ (`CQ ` at its start, case
/// ignored)?
pub fn message_is_cq(message: &str) -> (r: bool)
    ensures
        r == starts_with(unicode_upper(message@), "CQ "@),
{
    let up = chars_of(to_upper(message).as_str());
    let p = chars_of("CQ ");
    crate::text::vec_starts_with(up.as_slice(), p.as_slice())
}

/// A WSJT-X decode time (milliseconds since midnight UTC) on the UTC date
/// of `now_unix`.
pub fn time_from_decode_ms(now_unix: i64, decode_ms: u32) -> (r: i64)
    requires
        midnight(now_unix as int) >= i64::MIN,
        midnight(now_unix as int) + decode_ms / 1000 <= i64::MAX,
    ensures
        r == midnight(now_unix as int) + decode_ms / 1000,
{
    let rem = match now_unix.checked_rem_euclid(86_400) {
        Some(r) => r,
        None => 0,
    };
    let m = now_unix - rem;
    m + (decode_ms / 1000) as i64
}

} // verus!

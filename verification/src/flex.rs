//! SmartSDR (FlexRadio) spot injection: the `spot add` command and the
//! comment that fits the radio's twenty-character field. The TCP link is
//! the application's; the frequency, a floating-point MHz value, is
//! rendered by the application too.

use crate::text::{chars_of, extend_chars, is_ws, is_ws_char, push_decimal, push_signed, string_of, decimal, signed_decimal};
use vstd::prelude::*;

verus! {

/// SmartSDR's default API port.
pub const DEFAULT_PORT: u16 = 4992;

/// The radio's comment field, in characters.
pub const COMMENT_MAX: usize = 20;

/// One step of the sanitiser over `ch`: the text so far and whether it
/// ends in an underscore that stands for whitespace.
pub open spec fn flex_step(st: (Seq<char>, bool), ch: char, max: nat) -> (Seq<char>, bool) {
    if st.0.len() >= max {
        st
    } else if is_ws(ch) {
        if !st.1 {
            (st.0.push('_'), true)
        } else {
            st
        }
    } else {
        (st.0.push(ch), false)
    }
}

pub open spec fn flex_run(s: Seq<char>, max: nat) -> (Seq<char>, bool)
    decreases s.len(),
{
    if s.len() == 0 {
        (Seq::empty(), false)
    } else {
        flex_step(flex_run(s.drop_last(), max), s.last(), max)
    }
}

/// Space-free and at most `max` characters: every run of whitespace
/// becomes one `_`, and characters stop being taken once `max` are kept.
pub open spec fn flex_sanitize(s: Seq<char>, max: nat) -> Seq<char> {
    flex_run(s, max).0
}

pub proof fn lemma_flex_run_len(s: Seq<char>, max: nat)
    ensures
        flex_run(s, max).0.len() <= s.len(),
        flex_run(s, max).0.len() <= max,
    decreases s.len(),
{
    if s.len() > 0 {
        lemma_flex_run_len(s.drop_last(), max);
    }
}

proof fn lemma_flex_run_clean(s: Seq<char>, max: nat)
    ensures
        forall|i: int| 0 <= i < flex_run(s, max).0.len() ==> !is_ws(#[trigger] flex_run(s, max).0[i]),
    decreases s.len(),
{
    if s.len() > 0 {
        lemma_flex_run_clean(s.drop_last(), max);
        assert(!is_ws('_'));
        let prev = flex_run(s.drop_last(), max).0;
        let r = flex_run(s, max).0;
        assert forall|i: int| 0 <= i < r.len() implies !is_ws(#[trigger] r[i]) by {
            if i < prev.len() {
                assert(r[i] == prev[i]);
            }
        }
    }
}

/// No sanitised value can break the command apart: it holds no whitespace
/// (so no space) and at most `max` characters.
pub proof fn law_sanitized_values_hold_no_space(s: Seq<char>, max: nat)
    ensures
        forall|i: int| 0 <= i < flex_sanitize(s, max).len() ==> !is_ws(#[trigger] flex_sanitize(s, max)[i]),
        flex_sanitize(s, max).len() <= max,
{
    lemma_flex_run_clean(s, max);
    lemma_flex_run_len(s, max);
}

fn sanitize_chars(v: &[char], max: usize) -> (r: Vec<char>)
    ensures
        r@ == flex_sanitize(v@, max as nat),
{
    let mut out: Vec<char> = Vec::new();
    let mut last_was_us = false;
    let mut i: usize = 0;
    while i < v.len()
        invariant
            i <= v.len(),
            (out@, last_was_us) == flex_run(v@.take(i as int), max as nat),
        decreases v.len() - i,
    {
        assert(v@.take(i + 1).drop_last() =~= v@.take(i as int));
        proof {
            lemma_flex_run_len(v@.take(i as int), max as nat);
        }
        if out.len() >= max {
            proof {
                lemma_flex_saturated(v@, i as int, max as nat);
            }
            assert(v@.take(v.len() as int) =~= v@);
            return out;
        }
        let ch = v[i];
        if is_ws_char(ch) {
            if !last_was_us {
                out.push('_');
                last_was_us = true;
            }
        } else {
            out.push(ch);
            last_was_us = false;
        }
        i = i + 1;
    }
    assert(v@.take(v.len() as int) =~= v@);
    out
}

/// Once `max` characters are kept, the rest of the input changes nothing.
proof fn lemma_flex_saturated(s: Seq<char>, i: int, max: nat)
    requires
        0 <= i <= s.len(),
        flex_run(s.take(i), max).0.len() >= max,
    ensures
        flex_run(s, max) == flex_run(s.take(i), max),
    decreases s.len() - i,
{
    if i < s.len() {
        assert(s.take(i + 1).drop_last() =~= s.take(i));
        lemma_flex_saturated(s, i + 1, max);
    } else {
        assert(s.take(i) =~= s);
    }
}

/// Whitespace runs to one `_` each, clipped to `max` characters.
pub fn sanitize(s: &str, max: usize) -> (r: String)
    ensures
        r@ == flex_sanitize(s@, max as nat),
{
    let v = chars_of(s);
    let out = sanitize_chars(v.as_slice(), max);
    string_of(out.as_slice())
}

/// The comment for one alert: `"<level> <entity>"` when that fits the
/// comment field once sanitised, otherwise the entity alone; the level
/// alone when there is no (or an empty) entity.
pub open spec fn comment_spec(level: Seq<char>, entity: Option<Seq<char>>) -> Seq<char> {
    match entity {
        Some(e) => if e.len() == 0 {
            level
        } else if flex_sanitize(level + seq![' '] + e, usize::MAX as nat).len() <= COMMENT_MAX {
            level + seq![' '] + e
        } else {
            e
        },
        None => level,
    }
}

pub open spec fn opt_view(o: Option<&str>) -> Option<Seq<char>> {
    match o {
        Some(s) => Some(s@),
        None => None,
    }
}

pub fn comment_for(level_label: &str, entity: Option<&str>) -> (r: String)
    ensures
        r@ == comment_spec(level_label@, opt_view(entity)),
{
    match entity {
        Some(e) => {
            let ev = chars_of(e);
            if ev.len() == 0 {
                return level_label.to_owned();
            }
            let mut both = chars_of(level_label);
            both.push(' ');
            extend_chars(&mut both, ev.as_slice());
            assert(both@ =~= level_label@ + seq![' '] + e@);
            let clean = sanitize_chars(both.as_slice(), usize::MAX);
            if clean.len() <= COMMENT_MAX {
                string_of(both.as_slice())
            } else {
                e.to_owned()
            }
        },
        None => level_label.to_owned(),
    }
}

/// One spot to place on the panadapter (its frequency travels separately,
/// rendered by the caller).
pub struct FlexSpot {
    pub callsign: String,
    pub mode: String,
    /// Free text; whitespace becomes underscores and it is clipped to 20.
    pub comment: String,
    pub spotter: String,
    pub timestamp_unix: i64,
    /// `0xAARRGGBB`, as SmartSDR expects.
    pub color: String,
    pub lifetime_secs: u64,
}

/// The `spot add` command, newline-terminated.
pub open spec fn flex_command(seq: u64, s: FlexSpot, rx_freq: Seq<char>) -> Seq<char> {
    "C"@ + decimal(seq as nat) + "|spot add rx_freq="@ + rx_freq + " callsign="@ + flex_sanitize(s.callsign@, 32)
        + " mode="@ + flex_sanitize(s.mode@, 16) + " comment="@ + flex_sanitize(s.comment@, COMMENT_MAX as nat)
        + " spotter_callsign="@ + flex_sanitize(s.spotter@, 32) + " timestamp="@ + signed_decimal(
        s.timestamp_unix as int,
    ) + " color="@ + flex_sanitize(s.color@, 16) + " priority=2 lifetime_seconds="@ + decimal(
        s.lifetime_secs as nat,
    ) + " source=DXCA\n"@
}

/// Build one `spot add` command with sequence number `seq` and the
/// frequency already rendered in MHz.
pub fn spot_command(seq: u64, s: &FlexSpot, rx_freq_mhz: &str) -> (r: String)
    ensures
        r@ == flex_command(seq, *s, rx_freq_mhz@),
{
    let mut out = chars_of("C");
    push_decimal(&mut out, seq);
    extend_chars(&mut out, chars_of("|spot add rx_freq=").as_slice());
    extend_chars(&mut out, chars_of(rx_freq_mhz).as_slice());
    extend_chars(&mut out, chars_of(" callsign=").as_slice());
    extend_chars(&mut out, sanitize_chars(chars_of(s.callsign.as_str()).as_slice(), 32).as_slice());
    extend_chars(&mut out, chars_of(" mode=").as_slice());
    extend_chars(&mut out, sanitize_chars(chars_of(s.mode.as_str()).as_slice(), 16).as_slice());
    extend_chars(&mut out, chars_of(" comment=").as_slice());
    extend_chars(&mut out, sanitize_chars(chars_of(s.comment.as_str()).as_slice(), COMMENT_MAX).as_slice());
    extend_chars(&mut out, chars_of(" spotter_callsign=").as_slice());
    extend_chars(&mut out, sanitize_chars(chars_of(s.spotter.as_str()).as_slice(), 32).as_slice());
    extend_chars(&mut out, chars_of(" timestamp=").as_slice());
    push_signed(&mut out, s.timestamp_unix);
    extend_chars(&mut out, chars_of(" color=").as_slice());
    extend_chars(&mut out, sanitize_chars(chars_of(s.color.as_str()).as_slice(), 16).as_slice());
    extend_chars(&mut out, chars_of(" priority=2 lifetime_seconds=").as_slice());
    push_decimal(&mut out, s.lifetime_secs);
    extend_chars(&mut out, chars_of(" source=DXCA\n").as_slice());
    string_of(out.as_slice())
}

} // verus!

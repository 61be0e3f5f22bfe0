//! The DX-cluster announcement line, in the DX-Spider layout every cluster
//! client tokenises:
//!
//! ```text
//! DX de MSHV:      14074.0  K1JT          FT8 -10 dB             1428Z
//! ```

use crate::spot::{dx_call_spec, hhmm_spec, Spot};
use crate::text::{
    chars_of, extend_chars, is_digit, pad_to, push_padded, push_signed, signed_decimal, string_of,
    to_upper, unicode_upper,
};
use vstd::prelude::*;

verus! {

/// What may stand in the spotter token: ASCII capitals, digits, `/`, `-`.
pub open spec fn spotter_char(c: char) -> bool {
    ('A' <= c && c <= 'Z') || is_digit(c) || c == '/' || c == '-'
}

/// The characters of `s` that may stand in the spotter token, in order.
pub open spec fn keep_spotter(s: Seq<char>) -> Seq<char>
    decreases s.len(),
{
    if s.len() == 0 {
        s
    } else if spotter_char(s.last()) {
        keep_spotter(s.drop_last()).push(s.last())
    } else {
        keep_spotter(s.drop_last())
    }
}

/// The spotter token: the feed name uppercased and stripped to one token
/// (`NOCALL` when nothing is left), at most 13 characters.
pub open spec fn spotter_token(source: Seq<char>) -> Seq<char> {
    let cleaned = keep_spotter(unicode_upper(source));
    let raw = if cleaned.len() == 0 {
        "NOCALL"@
    } else {
        cleaned
    };
    if raw.len() > 13 {
        raw.take(13)
    } else {
        raw
    }
}

proof fn lemma_keep_spotter(s: Seq<char>)
    ensures
        forall|i: int| 0 <= i < keep_spotter(s).len() ==> spotter_char(#[trigger] keep_spotter(s)[i]),
    decreases s.len(),
{
    if s.len() > 0 {
        lemma_keep_spotter(s.drop_last());
        let prev = keep_spotter(s.drop_last());
        let r = keep_spotter(s);
        assert forall|i: int| 0 <= i < r.len() implies spotter_char(#[trigger] r[i]) by {
            if i < prev.len() {
                assert(r[i] == prev[i]);
            }
        }
    }
}

/// The spotter is one token on every line, whatever the feed is called:
/// one to thirteen characters, each an ASCII capital, a digit, `/` or `-`.
pub proof fn law_the_spotter_is_one_token(source: Seq<char>)
    ensures
        1 <= spotter_token(source).len() <= 13,
        forall|i: int| 0 <= i < spotter_token(source).len() ==> spotter_char(#[trigger] spotter_token(source)[i]),
{
    reveal_strlit("NOCALL");
    let cleaned = keep_spotter(unicode_upper(source));
    lemma_keep_spotter(unicode_upper(source));
    let raw = if cleaned.len() == 0 { "NOCALL"@ } else { cleaned };
    assert forall|i: int| 0 <= i < raw.len() implies spotter_char(#[trigger] raw[i]) by {
        if cleaned.len() == 0 {
            assert("NOCALL"@ =~= seq!['N', 'O', 'C', 'A', 'L', 'L']);
        }
    }
    let t = spotter_token(source);
    assert forall|i: int| 0 <= i < t.len() implies spotter_char(#[trigger] t[i]) by {
        assert(t[i] == raw[i]);
    }
}

/// The announcement line for `s`, with its frequency already rendered in
/// kHz as `freq`.
pub open spec fn line_spec(s: Spot, freq: Seq<char>) -> Seq<char> {
    let call = unicode_upper(
        match dx_call_spec(s.message@) {
            Some(c) => c,
            None => "UNKNOWN"@,
        },
    );
    let comment = s.mode@ + " "@ + signed_decimal(s.snr_db as int) + " dB"@;
    "DX de "@ + pad_to(spotter_token(s.source_name@) + ":"@, 14) + " "@ + pad_to(freq, 9) + " "@
        + pad_to(call, 14) + pad_to(comment, 28) + " "@ + hhmm_spec(s.time_unix as int) + "Z"@
}

fn spotter_of(source: &str) -> (r: Vec<char>)
    ensures
        r@ == spotter_token(source@),
{
    let up = chars_of(to_upper(source).as_str());
    let mut cleaned: Vec<char> = Vec::new();
    let mut i: usize = 0;
    assert(up@.take(0) =~= Seq::<char>::empty());
    while i < up.len()
        invariant
            i <= up@.len(),
            up@ == unicode_upper(source@),
            cleaned@ == keep_spotter(up@.take(i as int)),
        decreases up@.len() - i,
    {
        assert(up@.take(i + 1).drop_last() =~= up@.take(i as int));
        let c = up[i];
        if ('A' <= c && c <= 'Z') || ('0' <= c && c <= '9') || c == '/' || c == '-' {
            cleaned.push(c);
        }
        i = i + 1;
    }
    assert(up@.take(up@.len() as int) =~= up@);
    let raw = if cleaned.len() == 0 {
        chars_of("NOCALL")
    } else {
        cleaned
    };
    if raw.len() > 13 {
        crate::text::slice_vec(raw.as_slice(), 0, 13)
    } else {
        raw
    }
}

/// The announcement line for `s`, its frequency rendered by the caller
/// (one decimal, kHz).
pub fn format_with_frequency(s: &Spot, frequency_khz: &str) -> (r: String)
    ensures
        r@ == line_spec(*s, frequency_khz@),
{
    let call = match s.dx_callsign() {
        Some(c) => to_upper(c.as_str()),
        None => to_upper("UNKNOWN"),
    };
    let mut spotter = spotter_of(s.source_name.as_str());
    spotter.push(':');
    let mut comment = chars_of(s.mode.as_str());
    comment.push(' ');
    push_signed(&mut comment, s.snr_db as i64);
    extend_chars(&mut comment, chars_of(" dB").as_slice());
    let mut out = chars_of("DX de ");
    push_padded(&mut out, spotter.as_slice(), 14);
    out.push(' ');
    push_padded(&mut out, chars_of(frequency_khz).as_slice(), 9);
    out.push(' ');
    push_padded(&mut out, chars_of(call.as_str()).as_slice(), 14);
    push_padded(&mut out, comment.as_slice(), 28);
    out.push(' ');
    extend_chars(&mut out, chars_of(s.hhmm().as_str()).as_slice());
    out.push('Z');
    proof {
        reveal_strlit(" ");
        reveal_strlit(":");
        reveal_strlit("Z");
    }
    assert(out@ =~= line_spec(*s, frequency_khz@));
    string_of(out.as_slice())
}

} // verus!

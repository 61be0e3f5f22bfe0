//! ADIF mode string → award bucket ("CW" / "PHONE" / "DATA"). FT8, FT4,
//! RTTY, JT65 and the rest collapse to DATA so digital modes share one
//! DXCC slot, matching DXCC/LoTW/ClubLog rules.

use crate::bands::{mode_from_hz, mode_from_hz_spec};
use crate::text::{
    chars_of, eq_lit, string_of, trim, trim_vec, trimmed_chars, upper, upper_vec, views,
};
use vstd::prelude::*;

verus! {

/// The three award buckets, in the order the UI shows them.
pub open spec fn classes_spec() -> Seq<&'static str> {
    seq!["CW", "PHONE", "DATA"]
}

pub fn classes() -> (v: Vec<&'static str>)
    ensures
        v@ == classes_spec(),
{
    let v = vec!["CW", "PHONE", "DATA"];
    assert(v@ =~= classes_spec());
    v
}

/// The mode name WSJT-X's single decode-window marker stands for.
pub open spec fn decoder_char_mode(c: char) -> Option<&'static str> {
    if c == '~' {
        Some("FT8")
    } else if c == '+' {
        Some("FT4")
    } else if c == '#' {
        Some("JT65")
    } else if c == '@' {
        Some("JT9")
    } else if c == '&' {
        Some("MSK144")
    } else if c == ':' {
        Some("Q65")
    } else {
        None
    }
}

/// WSJT-X reports a decode's mode as the single character it prints in its
/// decode window (`~` is FT8, `+` is FT4, …). Only the markers worth being
/// sure about are mapped; a real name or an unknown marker gives `None`.
pub fn from_decoder_char(reported: &str) -> (r: Option<&'static str>)
    ensures
        r == (if trim(reported@).len() == 1 {
            decoder_char_mode(trim(reported@)[0])
        } else {
            None
        }),
{
    let t = trimmed_chars(reported);
    if t.len() != 1 {
        return None;
    }
    let c = t[0];
    if c == '~' {
        Some("FT8")
    } else if c == '+' {
        Some("FT4")
    } else if c == '#' {
        Some("JT65")
    } else if c == '@' {
        Some("JT9")
    } else if c == '&' {
        Some("MSK144")
    } else if c == ':' {
        Some("Q65")
    } else {
        None
    }
}

/// The modes that bucket as PHONE.
pub open spec fn phone_modes() -> Seq<&'static str> {
    seq!["SSB", "USB", "LSB", "AM", "FM", "PHONE", "VOICE", "DIGITALVOICE", "C4FM", "DMR", "DSTAR"]
}

fn phone_table() -> (v: Vec<&'static str>)
    ensures
        v@ == phone_modes(),
{
    let v = vec![
        "SSB", "USB", "LSB", "AM", "FM", "PHONE", "VOICE", "DIGITALVOICE", "C4FM", "DMR", "DSTAR",
    ];
    assert(v@ =~= phone_modes());
    v
}

/// The award bucket of an already trimmed and uppercased mode name.
pub open spec fn bucket(m: Seq<char>) -> &'static str {
    if m.len() == 0 {
        "DATA"
    } else if m == "CW"@ {
        "CW"
    } else if views(phone_modes()).contains(m) {
        "PHONE"
    } else {
        "DATA"
    }
}

/// What `canonical` answers for a raw mode string.
pub open spec fn canonical_spec(raw: Seq<char>) -> &'static str {
    bucket(upper(trim(raw)))
}

/// Award bucket for an ADIF mode string: trimmed, ASCII-uppercased, then
/// CW, one of the phone names, or DATA. Empty input returns DATA (right for
/// a logged QSO; spot callers use [`canonical_opt`]).
pub fn canonical(raw: &str) -> (r: &'static str)
    ensures
        r == canonical_spec(raw@),
{
    let t = trimmed_chars(raw);
    let m = upper_vec(t.as_slice());
    if m.len() == 0 {
        return "DATA";
    }
    if eq_lit(m.as_slice(), "CW") {
        return "CW";
    }
    let phones = phone_table();
    if crate::text::is_one_of(phones.as_slice(), m.as_slice()) {
        "PHONE"
    } else {
        "DATA"
    }
}

/// Award bucket, or `None` when the mode is blank — the spot path uses
/// this so an unknown mode is never silently scored as DATA.
pub fn canonical_opt(raw: &str) -> (r: Option<&'static str>)
    ensures
        r == (if trim(raw@).len() == 0 {
            None
        } else {
            Some(canonical_spec(raw@))
        }),
{
    let t = trimmed_chars(raw);
    if t.len() == 0 {
        return None;
    }
    Some(canonical(raw))
}

/// Settle a spot's mode: a reported mode (trimmed) wins; otherwise infer it
/// from the frequency. Returns the mode and whether it was inferred; an
/// empty mode means the frequency was in no segment worth guessing about.
pub fn resolve(reported: &str, freq_hz: u64) -> (r: (String, bool))
    ensures
        trim(reported@).len() > 0 ==> r.0@ == trim(reported@) && !r.1,
        trim(reported@).len() == 0 ==> match mode_from_hz_spec(freq_hz as int) {
            Some(m) => r.0@ == m@ && r.1,
            None => r.0@ == Seq::<char>::empty() && !r.1,
        },
{
    let t = trimmed_chars(reported);
    if t.len() > 0 {
        return (string_of(t.as_slice()), false);
    }
    match mode_from_hz(freq_hz) {
        Some(m) => {
            let v = chars_of(m);
            (string_of(v.as_slice()), true)
        },
        None => (String::new(), false),
    }
}

/// Every bucket `canonical` can return is one of the three classes.
pub proof fn law_canonical_is_a_class(raw: Seq<char>)
    ensures
        classes_spec().contains(canonical_spec(raw)),
{
    let c = canonical_spec(raw);
    if c == "CW" {
        assert(classes_spec()[0] == c);
    } else if c == "PHONE" {
        assert(classes_spec()[1] == c);
    } else {
        assert(classes_spec()[2] == c);
    }
}

/// How a mode name buckets, stated name by name: after trimming and ASCII
/// uppercasing, `CW` is CW; SSB, USB, LSB, AM, FM, PHONE, VOICE,
/// DIGITALVOICE, C4FM, DMR and DSTAR are PHONE; everything else, the empty
/// name included, is DATA.
pub proof fn law_mode_buckets_by_name(raw: Seq<char>)
    ensures
        ({
            let u = upper(trim(raw));
            let phone = u == "SSB"@ || u == "USB"@ || u == "LSB"@ || u == "AM"@ || u == "FM"@
                || u == "PHONE"@ || u == "VOICE"@ || u == "DIGITALVOICE"@ || u == "C4FM"@
                || u == "DMR"@ || u == "DSTAR"@;
            &&& (u == "CW"@ ==> canonical_spec(raw) == "CW")
            &&& (phone ==> canonical_spec(raw) == "PHONE")
            &&& (u != "CW"@ && !phone ==> canonical_spec(raw) == "DATA")
        }),
{
    reveal_strlit("CW");
    reveal_strlit("SSB");
    reveal_strlit("USB");
    reveal_strlit("LSB");
    reveal_strlit("AM");
    reveal_strlit("FM");
    reveal_strlit("PHONE");
    reveal_strlit("VOICE");
    reveal_strlit("DIGITALVOICE");
    reveal_strlit("C4FM");
    reveal_strlit("DMR");
    reveal_strlit("DSTAR");
    let u = upper(trim(raw));
    let names = views(phone_modes());
    assert(names.len() == 11);
    assert(names[0] == "SSB"@);
    assert(names[1] == "USB"@);
    assert(names[2] == "LSB"@);
    assert(names[3] == "AM"@);
    assert(names[4] == "FM"@);
    assert(names[5] == "PHONE"@);
    assert(names[6] == "VOICE"@);
    assert(names[7] == "DIGITALVOICE"@);
    assert(names[8] == "C4FM"@);
    assert(names[9] == "DMR"@);
    assert(names[10] == "DSTAR"@);
    if names.contains(u) {
        let i = choose|i: int| 0 <= i < names.len() && names[i] == u;
        assert(u.len() > 0);
        assert(u != "CW"@) by {
            if u == "CW"@ {
                assert(u[0] == 'C' && u.len() == 2);
            }
        }
    }
    if u == "SSB"@ {
        assert(names[0] == u);
    } else if u == "USB"@ {
        assert(names[1] == u);
    } else if u == "LSB"@ {
        assert(names[2] == u);
    } else if u == "AM"@ {
        assert(names[3] == u);
    } else if u == "FM"@ {
        assert(names[4] == u);
    } else if u == "PHONE"@ {
        assert(names[5] == u);
    } else if u == "VOICE"@ {
        assert(names[6] == u);
    } else if u == "DIGITALVOICE"@ {
        assert(names[7] == u);
    } else if u == "C4FM"@ {
        assert(names[8] == u);
    } else if u == "DMR"@ {
        assert(names[9] == u);
    } else if u == "DSTAR"@ {
        assert(names[10] == u);
    }
}

} // verus!

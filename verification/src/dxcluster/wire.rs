//! Cluster wire formats: the `DX de` spot line, the classification of
//! inbound lines, the `dx` submission command, and Telnet IAC stripping
//! for the inbound byte stream.

pub use crate::grid::looks_like_grid;
use crate::dxcluster::SpotKind;
use crate::grid::{grid_shape, shape_ok};
use crate::text::{
    all_digits, chars_of, digits_value, eq_lit, extend_chars, find, find_char, is_digit, is_digit_char,
    lower_char, parse_digits, parse_signed, parse_unsigned, slice_vec, starts_with, string_of, trim, trimmed_chars,
    vec_starts_with, words, words_vec, ascii_lower_char, contains_seq, vec_contains, to_upper, unicode_upper,
    ends_with, vec_ends_with, push_signed, push_decimal, decimal, signed_decimal,
};
use vstd::prelude::*;

verus! {

/// Where a subnegotiation that starts at `j` ends: just past the first
/// `IAC SE` at or after `j`, or, when there is none, the last byte (or
/// `j` itself when fewer than two bytes remain).
pub open spec fn sb_end(d: Seq<u8>, j: int) -> int
    decreases d.len() - j,
{
    if j + 1 < d.len() {
        if d[j] == 0xFF && d[j + 1] == 0xF0 {
            j + 2
        } else {
            sb_end(d, j + 1)
        }
    } else {
        j
    }
}

pub proof fn lemma_sb_end_ge(d: Seq<u8>, j: int)
    ensures
        sb_end(d, j) >= j,
        j <= d.len() ==> sb_end(d, j) <= d.len(),
    decreases d.len() - j,
{
    if j + 1 < d.len() && !(d[j] == 0xFF && d[j + 1] == 0xF0) {
        lemma_sb_end_ge(d, j + 1);
    }
}

/// The bytes from `i` on with Telnet commands removed: `IAC IAC` is a
/// literal `0xFF`; `IAC` WILL/WONT/DO/DONT and its option byte go; a
/// subnegotiation goes up to its `IAC SE`; any other `IAC` pair goes; a
/// lone `IAC` at the very end ends the data.
pub open spec fn iac_from(d: Seq<u8>, i: int) -> Seq<u8>
    decreases d.len() + 3 - i,
{
    if i < 0 || i >= d.len() {
        Seq::empty()
    } else if d[i] != 0xFF {
        seq![d[i]] + iac_from(d, i + 1)
    } else if i + 1 >= d.len() {
        Seq::empty()
    } else {
        let next = d[i + 1];
        if next == 0xFF {
            seq![0xFFu8] + iac_from(d, i + 2)
        } else if 0xFB <= next && next <= 0xFE {
            iac_from(d, i + 3)
        } else if next == 0xFA {
            proof {
                lemma_sb_end_ge(d, i + 2);
            }
            iac_from(d, sb_end(d, i + 2))
        } else {
            iac_from(d, i + 2)
        }
    }
}

/// The text of one read from a node: Telnet option negotiation dropped,
/// the rest taken as UTF-8 with invalid sequences replaced.
pub fn received_text(data: &[u8]) -> (r: String)
    ensures
        r@ == crate::text::utf8_lossy(iac_from(data@, 0)),
{
    let clean = strip_telnet_iac(data);
    crate::text::lossy_text(clean.as_slice())
}

/// Drop Telnet option negotiation from received bytes.
pub fn strip_telnet_iac(data: &[u8]) -> (out: Vec<u8>)
    ensures
        out@ == iac_from(data@, 0),
{
    let mut out: Vec<u8> = Vec::new();
    let mut i: usize = 0;
    assert(out@ + iac_from(data@, 0) =~= iac_from(data@, 0));
    while i < data.len()
        invariant
            i <= data.len() + 2,
            out@ + iac_from(data@, i as int) == iac_from(data@, 0),
        decreases data.len() + 2 - i,
    {
        let ghost before = out@;
        let b = data[i];
        if b == 0xFF {
            if i + 1 >= data.len() {
                assert(iac_from(data@, i as int) =~= Seq::<u8>::empty());
                assert(out@ =~= out@ + iac_from(data@, i as int));
                return out;
            }
            let next = data[i + 1];
            if next == 0xFF {
                out.push(0xFF);
                assert(out@ + iac_from(data@, i + 2) =~= before + iac_from(data@, i as int));
                i = i + 2;
            } else if 0xFB <= next && next <= 0xFE {
                if data.len() - i < 3 {
                    assert(iac_from(data@, (i + 3) as int) =~= iac_from(data@, data.len() as int));
                    i = data.len();
                } else {
                    i = i + 3;
                }
            } else if next == 0xFA {
                let mut j: usize = i + 2;
                while data.len() - j > 1
                    invariant_except_break
                        sb_end(data@, i + 2) == sb_end(data@, j as int),
                    invariant
                        i + 2 <= j <= data.len(),
                    ensures
                        j == sb_end(data@, i + 2),
                    decreases data.len() - j,
                {
                    if data[j] == 0xFF && data[j + 1] == 0xF0 {
                        j = j + 2;
                        break;
                    }
                    j = j + 1;
                }
                i = j;
            } else {
                i = i + 2;
            }
        } else {
            out.push(b);
            assert(out@ + iac_from(data@, i + 1) =~= before + iac_from(data@, i as int));
            i = i + 1;
        }
    }
    assert(iac_from(data@, i as int) =~= Seq::<u8>::empty());
    assert(out@ =~= out@ + iac_from(data@, i as int));
    out
}

// --- numbers as `str::parse` reads them ------------------------------------------

/// ASCII-lowercased text.
pub open spec fn lower_ascii(s: Seq<char>) -> Seq<char> {
    s.map_values(|c: char| lower_char(c))
}

/// The digits-and-point part of a decimal number: one or more digits with
/// at most one `.` among them, and at least one digit.
pub open spec fn mantissa_ok(m: Seq<char>) -> bool {
    let d = find(m, '.');
    if d == m.len() {
        m.len() > 0 && all_digits(m)
    } else {
        all_digits(m.take(d)) && all_digits(m.skip(d + 1)) && (d > 0 || m.len() - d - 1 > 0)
    }
}

/// An exponent after the `e`: an optional sign and one or more digits.
pub open spec fn exponent_ok(x: Seq<char>) -> bool {
    let y = if x.len() > 0 && (x[0] == '+' || x[0] == '-') { x.drop_first() } else { x };
    y.len() > 0 && all_digits(y)
}

/// The text `f64::from_str` accepts, per its documented grammar (letters
/// in any case): an optional sign, then `inf`, `infinity`, `nan`, or a
/// decimal number with an optional exponent.
pub open spec fn float_text(s: Seq<char>) -> bool {
    let t = lower_ascii(if s.len() > 0 && (s[0] == '+' || s[0] == '-') { s.drop_first() } else { s });
    if t == "inf"@ || t == "infinity"@ || t == "nan"@ {
        true
    } else {
        let e = find(t, 'e');
        if e == t.len() {
            mantissa_ok(t)
        } else {
            mantissa_ok(t.take(e)) && exponent_ok(t.skip(e + 1))
        }
    }
}

fn all_digit_range(v: &[char], lo: usize, hi: usize) -> (r: bool)
    requires
        lo <= hi <= v.len(),
    ensures
        r == all_digits(v@.subrange(lo as int, hi as int)),
{
    let mut i = lo;
    while i < hi
        invariant
            lo <= i <= hi <= v.len(),
            forall|j: int| lo <= j < i ==> is_digit(v@[j]),
        decreases hi - i,
    {
        if !is_digit_char(v[i]) {
            assert(v@.subrange(lo as int, hi as int)[i - lo] == v@[i as int]);
            return false;
        }
        i = i + 1;
    }
    assert forall|j: int| 0 <= j < v@.subrange(lo as int, hi as int).len() implies is_digit(#[trigger] v@.subrange(lo as int, hi as int)[j]) by {
        assert(v@.subrange(lo as int, hi as int)[j] == v@[lo + j]);
    }
    true
}

fn mantissa_check(v: &[char], lo: usize, hi: usize) -> (r: bool)
    requires
        lo <= hi <= v.len(),
    ensures
        r == mantissa_ok(v@.subrange(lo as int, hi as int)),
{
    let ghost m = v@.subrange(lo as int, hi as int);
    let d = find_char(v, lo, hi, '.');
    proof {
        crate::text::lemma_find_props(m, '.');
    }
    if d == hi {
        assert(find(m, '.') == m.len());
        hi > lo && all_digit_range(v, lo, hi)
    } else {
        assert(find(m, '.') == d - lo);
        assert(m.take(d - lo) =~= v@.subrange(lo as int, d as int));
        assert(m.skip(d - lo + 1) =~= v@.subrange(d + 1, hi as int));
        all_digit_range(v, lo, d) && all_digit_range(v, d + 1, hi) && (d > lo || hi - d - 1 > 0)
    }
}

/// Does `s` parse as an `f64`?
pub fn is_float_text(s: &[char]) -> (r: bool)
    ensures
        r == float_text(s@),
{
    let start: usize = if s.len() > 0 && (s[0] == '+' || s[0] == '-') { 1 } else { 0 };
    let mut t: Vec<char> = Vec::new();
    let mut i = start;
    while i < s.len()
        invariant
            start <= i <= s.len(),
            t@ == lower_ascii(s@.subrange(start as int, i as int)),
        decreases s.len() - i,
    {
        t.push(ascii_lower_char(s[i]));
        assert(t@ =~= lower_ascii(s@.subrange(start as int, i + 1)));
        i = i + 1;
    }
    assert(s@.subrange(start as int, s.len() as int) =~= (if s@.len() > 0 && (s@[0] == '+' || s@[0] == '-') {
        s@.drop_first()
    } else {
        s@
    }));
    if eq_lit(t.as_slice(), "inf") || eq_lit(t.as_slice(), "infinity") || eq_lit(t.as_slice(), "nan") {
        return true;
    }
    let n = t.len();
    let e = find_char(t.as_slice(), 0, n, 'e');
    assert(t@.subrange(0, n as int) =~= t@);
    if e == n {
        mantissa_check(t.as_slice(), 0, n)
    } else {
        assert(t@.take(e as int) =~= t@.subrange(0, e as int));
        let m = mantissa_check(t.as_slice(), 0, e);
        let x = slice_vec(t.as_slice(), e + 1, n);
        assert(x@ =~= t@.skip(e + 1));
        let xs: usize = if x.len() > 0 && (x[0] == '+' || x[0] == '-') { 1 } else { 0 };
        assert(x@.subrange(xs as int, x.len() as int) =~= (if x@.len() > 0 && (x@[0] == '+' || x@[0] == '-') {
            x@.drop_first()
        } else {
            x@
        }));
        m && x.len() > xs && all_digit_range(x.as_slice(), xs, x.len())
    }
}

/// `str::parse::<i32>`.
pub open spec fn parse_i32_text(s: Seq<char>) -> Option<i32> {
    match parse_signed(s, 2147483648, 2147483647) {
        Some(v) => Some(v as i32),
        None => None,
    }
}

/// `str::parse::<u32>`.
pub open spec fn parse_u32_text(s: Seq<char>) -> Option<u32> {
    match parse_unsigned(s, u32::MAX as nat) {
        Some(v) => Some(v as u32),
        None => None,
    }
}

fn parse_i32_chars(v: &[char]) -> (r: Option<i32>)
    ensures
        r == parse_i32_text(v@),
{
    let s = string_of(v);
    crate::adif::parse_i32(s.as_str())
}

fn parse_u32_chars(v: &[char]) -> (r: Option<u32>)
    ensures
        r == parse_u32_text(v@),
{
    let lo: usize = if v.len() > 0 && v[0] == '+' { 1 } else { 0 };
    assert(v@.subrange(lo as int, v.len() as int) =~= (if v@.len() > 0 && v@[0] == '+' {
        v@.drop_first()
    } else {
        v@
    }));
    match parse_digits(v, lo, v.len(), u32::MAX as u64) {
        Some(x) => Some(x as u32),
        None => None,
    }
}

// --- the `DX de` spot line -------------------------------------------------------

/// The mode names recognised as comment tokens.
pub open spec fn mode_tokens() -> Seq<Seq<char>> {
    seq!["CW"@, "RTTY"@, "FT8"@, "FT4"@, "WSPR"@, "PSK31"@, "PSK63"@, "JT65"@, "JT9"@, "MSK144"@]
}

/// A spot line's fields as values; the frequency is the kHz token as sent.
pub struct SpotLineV {
    pub spotter: Seq<char>,
    pub spotter_is_skimmer: bool,
    pub freq_khz: Seq<char>,
    pub call: Seq<char>,
    pub comment: Seq<char>,
    pub hour: u8,
    pub minute: u8,
    pub snr_db: Option<i32>,
    pub wpm: Option<u32>,
    pub mode: Option<Seq<char>>,
    pub kind: SpotKind,
    pub grid: Option<Seq<char>>,
    pub spotter_grid: Option<Seq<char>>,
}

/// `HHMMZ` with a valid time of day.
pub open spec fn time_token(t: Seq<char>) -> bool {
    t.len() == 5 && t[4] == 'Z' && all_digits(t.take(4)) && digits_value(t.take(2)) < 24 && digits_value(
        t.subrange(2, 4),
    ) < 60
}

/// Index of the last time token, or -1.
pub open spec fn last_time(toks: Seq<Seq<char>>) -> int
    decreases toks.len(),
{
    if toks.len() == 0 {
        -1
    } else if time_token(toks.last()) {
        toks.len() - 1
    } else {
        last_time(toks.drop_last())
    }
}

/// `s` without all its trailing `c`.
pub open spec fn strip_all_trailing(s: Seq<char>, c: char) -> Seq<char>
    decreases s.len(),
{
    if s.len() > 0 && s.last() == c {
        strip_all_trailing(s.drop_last(), c)
    } else {
        s
    }
}

/// Tokens joined with single spaces.
pub open spec fn join_spaced(toks: Seq<Seq<char>>) -> Seq<char>
    decreases toks.len(),
{
    if toks.len() == 0 {
        Seq::empty()
    } else if toks.len() == 1 {
        toks[0]
    } else {
        join_spaced(toks.drop_last()) + seq![' '] + toks.last()
    }
}

/// The signal report, speed and mode read from the first `n` comment
/// tokens: the number before the first `dB`; the number before the first
/// `WPM` or `BPS`; and the first of `WPM` (CW), `BPS` (RTTY) or a mode
/// name.
pub open spec fn comment_fields(toks: Seq<Seq<char>>, n: int) -> (Option<i32>, Option<u32>, Option<Seq<char>>)
    decreases n,
{
    if n <= 0 {
        (None, None, None)
    } else {
        let (snr, wpm, mode) = comment_fields(toks, n - 1);
        let i = n - 1;
        let t = toks[i];
        if t == "dB"@ && i > 0 {
            (if snr is Some { snr } else { parse_i32_text(toks[i - 1]) }, wpm, mode)
        } else if t == "WPM"@ && i > 0 {
            (snr, if wpm is Some { wpm } else { parse_u32_text(toks[i - 1]) }, if mode is Some { mode } else { Some("CW"@) })
        } else if t == "BPS"@ && i > 0 {
            (snr, if wpm is Some { wpm } else { parse_u32_text(toks[i - 1]) }, if mode is Some { mode } else { Some("RTTY"@) })
        } else if mode_tokens().contains(t) {
            (snr, wpm, if mode is Some { mode } else { Some(t) })
        } else {
            (snr, wpm, mode)
        }
    }
}

/// The kind a type token names.
pub open spec fn kind_of(t: Seq<char>) -> Option<SpotKind> {
    if t == "CQ"@ {
        Some(SpotKind::Cq)
    } else if t == "DX"@ {
        Some(SpotKind::Dx)
    } else if t == "BCN"@ || t == "BEACON"@ {
        Some(SpotKind::Bcn)
    } else if t == "NCDXF"@ {
        Some(SpotKind::Ncdxf)
    } else {
        None
    }
}

/// The first kind named by a token other than `DX`.
pub open spec fn first_kind(toks: Seq<Seq<char>>) -> Option<SpotKind>
    decreases toks.len(),
{
    if toks.len() == 0 {
        None
    } else if toks[0] != "DX"@ && kind_of(toks[0]) is Some {
        kind_of(toks[0])
    } else {
        first_kind(toks.drop_first())
    }
}

/// The transmission kind a comment reports: its last token (a trailing
/// grid set aside) when that names a kind, else the first unambiguous
/// marker anywhere (`DX` only counts last), else unknown.
pub open spec fn comment_kind(toks: Seq<Seq<char>>) -> SpotKind {
    let typed = if toks.len() > 0 && grid_shape(toks.last()) { toks.drop_last() } else { toks };
    if typed.len() > 0 && kind_of(typed.last()) is Some {
        kind_of(typed.last())->0
    } else {
        match first_kind(typed) {
            Some(k) => k,
            None => SpotKind::Unknown,
        }
    }
}

/// What `parse_spot_line` makes of a line.
pub open spec fn spot_line_spec(line: Seq<char>) -> Option<SpotLineV> {
    let t = trim(line);
    if !starts_with(t, "DX de "@) {
        None
    } else {
        let toks = words(t.skip(6));
        if toks.len() < 3 || !float_text(toks[1]) {
            None
        } else {
            let rem = toks.skip(3);
            let tp = last_time(rem);
            if tp < 0 {
                None
            } else {
                let stok = strip_all_trailing(toks[0], ':');
                let skimmer = stok.len() >= 2 && stok.skip(stok.len() - 2) == "-#"@;
                let ctoks = rem.take(tp);
                let tt = rem[tp];
                let f = comment_fields(ctoks, ctoks.len() as int);
                Some(SpotLineV {
                    spotter: if skimmer { stok.take(stok.len() - 2) } else { stok },
                    spotter_is_skimmer: skimmer,
                    freq_khz: toks[1],
                    call: toks[2],
                    comment: join_spaced(ctoks),
                    hour: digits_value(tt.take(2)) as u8,
                    minute: digits_value(tt.subrange(2, 4)) as u8,
                    snr_db: f.0,
                    wpm: f.1,
                    mode: f.2,
                    kind: comment_kind(ctoks),
                    grid: if ctoks.len() > 0 && grid_shape(ctoks.last()) { Some(ctoks.last()) } else { None },
                    spotter_grid: if tp + 1 < rem.len() && grid_shape(rem[tp + 1]) { Some(rem[tp + 1]) } else { None },
                })
            }
        }
    }
}

/// One `DX de` line, parsed. The frequency is the kHz token as sent (it
/// parses as an `f64`).
#[derive(Debug, Clone, PartialEq)]
pub struct SpotLine {
    /// Spotting station, `-#` skimmer suffix stripped.
    pub spotter: String,
    pub spotter_is_skimmer: bool,
    /// Frequency in kHz, as the node wrote it.
    pub freq_khz: String,
    /// The spotted DX callsign.
    pub call: String,
    /// Free-text comment, tokens joined by single spaces.
    pub comment: String,
    /// Spot time of day, UTC.
    pub hour: u8,
    pub minute: u8,
    pub snr_db: Option<i32>,
    /// WPM for CW; baud for RTTY.
    pub wpm: Option<u32>,
    pub mode: Option<String>,
    pub kind: SpotKind,
    /// The spotted station's locator (the comment's last token).
    pub grid: Option<String>,
    /// The spotting station's own grid (after the time).
    pub spotter_grid: Option<String>,
}

pub open spec fn opt_string(o: Option<String>) -> Option<Seq<char>> {
    match o {
        Some(s) => Some(s@),
        None => None,
    }
}

pub open spec fn spot_line_view(p: SpotLine) -> SpotLineV {
    SpotLineV {
        spotter: p.spotter@,
        spotter_is_skimmer: p.spotter_is_skimmer,
        freq_khz: p.freq_khz@,
        call: p.call@,
        comment: p.comment@,
        hour: p.hour,
        minute: p.minute,
        snr_db: p.snr_db,
        wpm: p.wpm,
        mode: opt_string(p.mode),
        kind: p.kind,
        grid: opt_string(p.grid),
        spotter_grid: opt_string(p.spotter_grid),
    }
}

pub open spec fn token_views(v: Seq<Vec<char>>) -> Seq<Seq<char>> {
    v.map_values(|t: Vec<char>| t@)
}

fn is_time_token(t: &[char]) -> (r: bool)
    ensures
        r == time_token(t@),
{
    if t.len() != 5 || t[4] != 'Z' {
        return false;
    }
    assert(t@.subrange(0, 4) =~= t@.take(4));
    if !all_digit_range(t, 0, 4) {
        return false;
    }
    assert(t@.subrange(0, 2) =~= t@.take(2));
    let h = parse_digits(t, 0, 2, 99);
    let m = parse_digits(t, 2, 4, 99);
    proof {
        assert(all_digits(t@.take(2))) by {
            assert forall|j: int| 0 <= j < 2 implies is_digit(#[trigger] t@.take(2)[j]) by {
                assert(t@.take(2)[j] == t@.take(4)[j]);
            }
        }
        assert(all_digits(t@.subrange(2, 4))) by {
            assert forall|j: int| 0 <= j < 2 implies is_digit(#[trigger] t@.subrange(2, 4)[j]) by {
                assert(t@.subrange(2, 4)[j] == t@.take(4)[j + 2]);
            }
        }
        crate::text::lemma_digits_value_grows(t@.take(2), 1);
        crate::text::lemma_digits_value_grows(t@.subrange(2, 4), 1);
        assert(t@.take(2).drop_last() =~= t@.take(2).take(1));
        assert(t@.subrange(2, 4).drop_last() =~= t@.subrange(2, 4).take(1));
    }
    match (h, m) {
        (Some(hh), Some(mm)) => hh < 24 && mm < 60,
        _ => false,
    }
}

fn last_time_index(toks: &Vec<Vec<char>>, from: usize) -> (r: Option<usize>)
    requires
        from <= toks.len(),
    ensures
        ({
            let rem = token_views(toks@).skip(from as int);
            match r {
                Some(i) => from <= i < toks.len() && last_time(rem) == i - from,
                None => last_time(rem) < 0,
            }
        }),
{
    let ghost all = token_views(toks@);
    let mut k = toks.len();
    while k > from
        invariant
            from <= k <= toks.len(),
            all == token_views(toks@),
            last_time(all.skip(from as int)) == last_time(all.subrange(from as int, k as int)),
        decreases k,
    {
        let ghost part = all.subrange(from as int, k as int);
        assert(part.last() == toks@[k - 1]@);
        assert(part.drop_last() =~= all.subrange(from as int, k - 1));
        if is_time_token(toks[k - 1].as_slice()) {
            return Some(k - 1);
        }
        k = k - 1;
    }
    None
}

fn strip_colons(v: &[char]) -> (r: Vec<char>)
    ensures
        r@ == strip_all_trailing(v@, ':'),
{
    let mut n = v.len();
    assert(v@.take(n as int) =~= v@);
    while n > 0 && v[n - 1] == ':'
        invariant
            n <= v.len(),
            strip_all_trailing(v@, ':') == strip_all_trailing(v@.take(n as int), ':'),
        decreases n,
    {
        assert(v@.take(n as int).drop_last() =~= v@.take(n - 1));
        n = n - 1;
    }
    let r = slice_vec(v, 0, n);
    assert(r@ =~= v@.take(n as int));
    r
}

fn join_tokens(toks: &Vec<Vec<char>>, lo: usize, hi: usize) -> (r: Vec<char>)
    requires
        lo <= hi <= toks.len(),
    ensures
        r@ == join_spaced(token_views(toks@).subrange(lo as int, hi as int)),
{
    let ghost all = token_views(toks@);
    let mut out: Vec<char> = Vec::new();
    let mut i = lo;
    assert(all.subrange(lo as int, lo as int) =~= Seq::<Seq<char>>::empty());
    while i < hi
        invariant
            lo <= i <= hi <= toks.len(),
            all == token_views(toks@),
            out@ == join_spaced(all.subrange(lo as int, i as int)),
        decreases hi - i,
    {
        let ghost part = all.subrange(lo as int, i + 1);
        assert(part.drop_last() =~= all.subrange(lo as int, i as int));
        assert(part.last() == toks@[i as int]@);
        if i > lo {
            out.push(' ');
        } else {
            assert(part =~= seq![toks@[i as int]@]);
        }
        extend_chars(&mut out, toks[i].as_slice());
        i = i + 1;
    }
    out
}

fn is_mode_token(t: &[char]) -> (r: bool)
    ensures
        r == mode_tokens().contains(t@),
{
    let names = ["CW", "RTTY", "FT8", "FT4", "WSPR", "PSK31", "PSK63", "JT65", "JT9", "MSK144"];
    let r = crate::text::is_one_of(&names, t);
    proof {
        assert(crate::text::views(names@) =~= mode_tokens());
    }
    r
}

/// The comment fields over tokens `lo..hi`.
fn scan_comment(toks: &Vec<Vec<char>>, lo: usize, hi: usize) -> (r: (Option<i32>, Option<u32>, Option<String>))
    requires
        lo <= hi <= toks.len(),
    ensures
        ({
            let f = comment_fields(token_views(toks@).subrange(lo as int, hi as int), (hi - lo) as int);
            r.0 == f.0 && r.1 == f.1 && opt_string(r.2) == f.2
        }),
{
    let ghost c = token_views(toks@).subrange(lo as int, hi as int);
    let mut snr: Option<i32> = None;
    let mut wpm: Option<u32> = None;
    let mut mode: Option<String> = None;
    let mut i = lo;
    while i < hi
        invariant
            lo <= i <= hi <= toks.len(),
            c == token_views(toks@).subrange(lo as int, hi as int),
            ({
                let f = comment_fields(c, (i - lo) as int);
                snr == f.0 && wpm == f.1 && opt_string(mode) == f.2
            }),
        decreases hi - i,
    {
        let t = toks[i].as_slice();
        assert(c[i - lo] == toks@[i as int]@);
        if i > lo {
            assert(c[i - lo - 1] == toks@[i - 1]@);
        }
        if eq_lit(t, "dB") && i > lo {
            if snr.is_none() {
                snr = parse_i32_chars(toks[i - 1].as_slice());
            }
        } else if eq_lit(t, "WPM") && i > lo {
            if wpm.is_none() {
                wpm = parse_u32_chars(toks[i - 1].as_slice());
            }
            if mode.is_none() {
                mode = Some(string_of(chars_of("CW").as_slice()));
            }
        } else if eq_lit(t, "BPS") && i > lo {
            if wpm.is_none() {
                wpm = parse_u32_chars(toks[i - 1].as_slice());
            }
            if mode.is_none() {
                mode = Some(string_of(chars_of("RTTY").as_slice()));
            }
        } else if is_mode_token(t) {
            if mode.is_none() {
                mode = Some(string_of(t));
            }
        }
        i = i + 1;
    }
    (snr, wpm, mode)
}

fn kind_of_token(t: &[char]) -> (r: Option<SpotKind>)
    ensures
        r == kind_of(t@),
{
    if eq_lit(t, "CQ") {
        Some(SpotKind::Cq)
    } else if eq_lit(t, "DX") {
        Some(SpotKind::Dx)
    } else if eq_lit(t, "BCN") || eq_lit(t, "BEACON") {
        Some(SpotKind::Bcn)
    } else if eq_lit(t, "NCDXF") {
        Some(SpotKind::Ncdxf)
    } else {
        None
    }
}

/// The kind the comment tokens `lo..hi` report.
fn kind_of_comment(toks: &Vec<Vec<char>>, lo: usize, hi: usize) -> (r: SpotKind)
    requires
        lo <= hi <= toks.len(),
    ensures
        r == comment_kind(token_views(toks@).subrange(lo as int, hi as int)),
{
    let ghost c = token_views(toks@).subrange(lo as int, hi as int);
    let end = if hi > lo && shape_ok(toks[hi - 1].as_slice()) { hi - 1 } else { hi };
    proof {
        if hi > lo {
            assert(c.last() == toks@[hi - 1]@);
        }
    }
    let ghost typed = token_views(toks@).subrange(lo as int, end as int);
    assert(typed =~= (if c.len() > 0 && grid_shape(c.last()) { c.drop_last() } else { c }));
    if end > lo {
        assert(typed.last() == toks@[end - 1]@);
        match kind_of_token(toks[end - 1].as_slice()) {
            Some(k) => return k,
            None => {},
        }
    }
    let mut i = lo;
    assert(typed.skip(0) =~= typed);
    while i < end
        invariant
            lo <= i <= end <= hi <= toks.len(),
            typed == token_views(toks@).subrange(lo as int, end as int),
            c == token_views(toks@).subrange(lo as int, hi as int),
            typed == (if c.len() > 0 && grid_shape(c.last()) { c.drop_last() } else { c }),
            typed.len() > 0 ==> kind_of(typed.last()) is None,
            first_kind(typed) == first_kind(typed.skip(i - lo)),
        decreases end - i,
    {
        assert(typed.skip(i - lo)[0] == toks@[i as int]@);
        let t = toks[i].as_slice();
        if !eq_lit(t, "DX") {
            match kind_of_token(t) {
                Some(k) => return k,
                None => {},
            }
        }
        assert(typed.skip(i - lo).drop_first() =~= typed.skip(i - lo + 1));
        i = i + 1;
    }
    assert(typed.skip(end - lo).len() == 0);
    SpotKind::Unknown
}

proof fn lemma_last_time(toks: Seq<Seq<char>>)
    ensures
        -1 <= last_time(toks) < toks.len(),
        last_time(toks) >= 0 ==> time_token(toks[last_time(toks)]),
    decreases toks.len(),
{
    if toks.len() > 0 && !time_token(toks.last()) {
        lemma_last_time(toks.drop_last());
    }
}

fn two_digits(t: &[char], lo: usize) -> (r: u8)
    requires
        lo + 2 <= t.len(),
        all_digits(t@.subrange(lo as int, lo + 2)),
    ensures
        r == digits_value(t@.subrange(lo as int, lo + 2)) as u8,
        digits_value(t@.subrange(lo as int, lo + 2)) < 100,
{
    proof {
        let d = t@.subrange(lo as int, lo + 2);
        assert(d.drop_last().drop_last() =~= Seq::<char>::empty());
        assert(d.drop_last().last() == d[0]);
        assert(is_digit(d[0]) && is_digit(d[1]));
        assert(crate::text::digit_value(d[0]) <= 9 && crate::text::digit_value(d[1]) <= 9);
        assert(digits_value(d.drop_last().drop_last()) == 0);
        assert(digits_value(d.drop_last()) == crate::text::digit_value(d[0]));
        assert(digits_value(d.drop_last()) <= 9);
        assert(digits_value(d) < 100);
    }
    match parse_digits(t, lo, lo + 2, 99) {
        Some(x) => x as u8,
        None => 0,
    }
}

/// Parse one `DX de …` line: the spotter (a trailing `:` and the skimmer
/// suffix `-#` removed), a frequency token that parses as a number, the
/// DX call, then the comment up to the last `HHMMZ` token, which is the
/// time; a grid right after the time is the spotter's. `None` when the
/// line is not a well-formed spot.
pub fn parse_spot_line(line: &str) -> (r: Option<SpotLine>)
    ensures
        match r {
            Some(p) => spot_line_spec(line@) == Some(spot_line_view(p)),
            None => spot_line_spec(line@) is None,
        },
{
    let t = trimmed_chars(line);
    let pre = chars_of("DX de ");
    proof {
        reveal_strlit("DX de ");
    }
    if !vec_starts_with(t.as_slice(), pre.as_slice()) {
        return None;
    }
    let rest = slice_vec(t.as_slice(), 6, t.len());
    assert(rest@ =~= t@.skip(6));
    let toks = words_vec(rest.as_slice());
    let ghost w = words(t@.skip(6));
    assert(token_views(toks@) =~= w);
    if toks.len() < 3 {
        return None;
    }
    assert(toks@[1]@ == w[1]);
    if !is_float_text(toks[1].as_slice()) {
        return None;
    }
    let ghost rem = w.skip(3);
    assert(token_views(toks@).skip(3) =~= rem);
    let tp = match last_time_index(&toks, 3) {
        Some(i) => i,
        None => return None,
    };
    proof {
        lemma_last_time(rem);
        assert(rem[tp - 3] == toks@[tp as int]@);
    }
    let stok = strip_colons(toks[0].as_slice());
    assert(toks@[0]@ == w[0]);
    let n = stok.len();
    let skimmer = n >= 2 && stok[n - 2] == '-' && stok[n - 1] == '#';
    proof {
        reveal_strlit("-#");
        if n >= 2 {
            assert(skimmer == (stok@.skip(n - 2) == "-#"@)) by {
                if skimmer {
                    assert(stok@.skip(n - 2) =~= "-#"@);
                } else if stok@.skip(n - 2) == "-#"@ {
                    assert(stok@.skip(n - 2)[0] == stok@[n - 2]);
                    assert(stok@.skip(n - 2)[1] == stok@[n - 1]);
                }
            }
        }
    }
    let spotter = if skimmer {
        slice_vec(stok.as_slice(), 0, n - 2)
    } else {
        slice_vec(stok.as_slice(), 0, n)
    };
    assert(spotter@ =~= (if skimmer { stok@.take(n - 2) } else { stok@ }));
    let (snr, wpm, mode) = scan_comment(&toks, 3, tp);
    let kind = kind_of_comment(&toks, 3, tp);
    let comment = join_tokens(&toks, 3, tp);
    let ghost ctoks = rem.take(tp - 3);
    assert(token_views(toks@).subrange(3, tp as int) =~= ctoks);
    let tt = toks[tp].as_slice();
    proof {
        assert(tt@.take(2) =~= tt@.subrange(0, 2));
        assert(all_digits(tt@.subrange(0, 2))) by {
            assert forall|j: int| 0 <= j < 2 implies is_digit(#[trigger] tt@.subrange(0, 2)[j]) by {
                assert(tt@.subrange(0, 2)[j] == tt@.take(4)[j]);
            }
        }
        assert(all_digits(tt@.subrange(2, 4))) by {
            assert forall|j: int| 0 <= j < 2 implies is_digit(#[trigger] tt@.subrange(2, 4)[j]) by {
                assert(tt@.subrange(2, 4)[j] == tt@.take(4)[j + 2]);
            }
        }
    }
    let hour = two_digits(tt, 0);
    let minute = two_digits(tt, 2);
    let grid = if tp > 3 && shape_ok(toks[tp - 1].as_slice()) {
        Some(string_of(toks[tp - 1].as_slice()))
    } else {
        None
    };
    proof {
        if tp > 3 {
            assert(ctoks.last() == toks@[tp - 1]@);
        }
    }
    let spotter_grid = if tp + 1 < toks.len() && shape_ok(toks[tp + 1].as_slice()) {
        Some(string_of(toks[tp + 1].as_slice()))
    } else {
        None
    };
    proof {
        if tp + 1 < toks.len() {
            assert(rem[tp - 3 + 1] == toks@[tp + 1]@);
        }
    }
    Some(SpotLine {
        spotter: string_of(spotter.as_slice()),
        spotter_is_skimmer: skimmer,
        freq_khz: string_of(toks[1].as_slice()),
        call: string_of(toks[2].as_slice()),
        comment: string_of(comment.as_slice()),
        hour,
        minute,
        snr_db: snr,
        wpm,
        mode,
        kind,
        grid,
        spotter_grid,
    })
}

// --- line classes ---------------------------------------------------------------

/// What kind of line an inbound cluster stream produced.
#[derive(Debug, Clone, PartialEq)]
pub enum LineClass {
    Spot(SpotLine),
    /// WWV / WCY solar-propagation report.
    Wwv,
    /// `To ALL de …` announcement.
    Announce,
    /// A node prompt (`… de NODE … >`).
    Prompt,
    Other,
}

pub enum LineClassV {
    Spot(SpotLineV),
    Wwv,
    Announce,
    Prompt,
    Other,
}

pub open spec fn class_view(c: LineClass) -> LineClassV {
    match c {
        LineClass::Spot(p) => LineClassV::Spot(spot_line_view(p)),
        LineClass::Wwv => LineClassV::Wwv,
        LineClass::Announce => LineClassV::Announce,
        LineClass::Prompt => LineClassV::Prompt,
        LineClass::Other => LineClassV::Other,
    }
}

/// The class of a line (trimmed first): a spot when it parses as one;
/// otherwise, uppercased, a `WWV de`/`WCY de` report, a `To ALL de`/`To
/// LOCAL de` announcement, or a prompt (ends in `>` and names a node with
/// ` DE `); anything else is other.
pub open spec fn line_class(line: Seq<char>) -> LineClassV {
    let t = trim(line);
    let up = unicode_upper(t);
    match spot_line_spec(t) {
        Some(p) => LineClassV::Spot(p),
        None => if starts_with(up, "WWV DE "@) || starts_with(up, "WCY DE "@) {
            LineClassV::Wwv
        } else if starts_with(up, "TO ALL DE "@) || starts_with(up, "TO LOCAL DE "@) {
            LineClassV::Announce
        } else if ends_with(t, ">"@) && contains_seq(up, " DE "@) {
            LineClassV::Prompt
        } else {
            LineClassV::Other
        },
    }
}

/// Classify one inbound line.
pub fn classify_line(line: &str) -> (r: LineClass)
    ensures
        class_view(r) == line_class(line@),
{
    let tv = trimmed_chars(line);
    let t = string_of(tv.as_slice());
    proof {
        crate::text::lemma_trim_twice(line@);
    }
    match parse_spot_line(t.as_str()) {
        Some(p) => return LineClass::Spot(p),
        None => {},
    }
    let upper = to_upper(t.as_str());
    let up = chars_of(upper.as_str());
    if vec_starts_with(up.as_slice(), chars_of("WWV DE ").as_slice()) || vec_starts_with(
        up.as_slice(),
        chars_of("WCY DE ").as_slice(),
    ) {
        return LineClass::Wwv;
    }
    if vec_starts_with(up.as_slice(), chars_of("TO ALL DE ").as_slice()) || vec_starts_with(
        up.as_slice(),
        chars_of("TO LOCAL DE ").as_slice(),
    ) {
        return LineClass::Announce;
    }
    if vec_ends_with(tv.as_slice(), chars_of(">").as_slice()) && vec_contains(up.as_slice(), chars_of(" DE ").as_slice()) {
        return LineClass::Prompt;
    }
    LineClass::Other
}

// --- the `dx` submission ---------------------------------------------------------

/// One spot as the client submits it upstream; its frequency travels
/// separately, rendered in kHz by the caller.
#[derive(Debug, Clone, PartialEq)]
pub struct ClusterSpot {
    pub call: String,
    pub mode: String,
    pub snr_db: i32,
    /// WPM for CW; baud for RTTY; 0 = unknown.
    pub wpm: u32,
    pub grid: Option<String>,
    pub kind: SpotKind,
}

/// The remarks of a `dx` command: report, speed or mode, then the kind
/// token and a locator-shaped grid, each after a space when present.
pub open spec fn dx_remarks(s: ClusterSpot) -> Seq<char> {
    let kind = kind_suffix(s.kind);
    let grid = grid_suffix(s.grid);
    if s.mode@ == "CW"@ {
        signed_decimal(s.snr_db as int) + " dB "@ + decimal(s.wpm as nat) + " WPM"@ + kind + grid
    } else if s.mode@ == "RTTY"@ {
        signed_decimal(s.snr_db as int) + " dB "@ + decimal(s.wpm as nat) + " BPS"@ + kind + grid
    } else {
        signed_decimal(s.snr_db as int) + " dB "@ + s.mode@ + kind + grid
    }
}

pub open spec fn kind_suffix(k: SpotKind) -> Seq<char> {
    match crate::dxcluster::kind_token(k) {
        Some(t) => seq![' '] + t,
        None => Seq::empty(),
    }
}

pub open spec fn grid_suffix(g: Option<String>) -> Seq<char> {
    match g {
        Some(g) => if grid_shape(g@) { seq![' '] + g@ } else { Seq::empty() },
        None => Seq::empty(),
    }
}

fn push_kind(out: &mut Vec<char>, k: SpotKind)
    ensures
        final(out)@ == old(out)@ + kind_suffix(k),
{
    match k.token() {
        Some(t) => {
            out.push(' ');
            extend_chars(out, chars_of(t).as_slice());
            assert(out@ =~= old(out)@ + kind_suffix(k));
        },
        None => {
            assert(out@ =~= old(out)@ + kind_suffix(k));
        },
    }
}

fn push_grid(out: &mut Vec<char>, g: &Option<String>)
    ensures
        final(out)@ == old(out)@ + grid_suffix(*g),
{
    match g {
        Some(g) => {
            let gv = chars_of(g.as_str());
            if shape_ok(gv.as_slice()) {
                out.push(' ');
                extend_chars(out, gv.as_slice());
            }
        },
        None => {},
    }
    assert(out@ =~= old(out)@ + grid_suffix(*g));
}

fn push_remarks(out: &mut Vec<char>, spot: &ClusterSpot)
    ensures
        final(out)@ == old(out)@ + dx_remarks(*spot),
{
    push_signed(out, spot.snr_db as i64);
    extend_chars(out, chars_of(" dB ").as_slice());
    let mode = chars_of(spot.mode.as_str());
    if eq_lit(mode.as_slice(), "CW") {
        push_decimal(out, spot.wpm as u64);
        extend_chars(out, chars_of(" WPM").as_slice());
    } else if eq_lit(mode.as_slice(), "RTTY") {
        push_decimal(out, spot.wpm as u64);
        extend_chars(out, chars_of(" BPS").as_slice());
    } else {
        extend_chars(out, mode.as_slice());
    }
    let ghost mid = out@;
    push_kind(out, spot.kind);
    push_grid(out, &spot.grid);
    assert(out@ =~= old(out)@ + dx_remarks(*spot));
}

/// `dx <freq-kHz> <call> <remarks>` with CRLF.
pub fn dx_command(spot: &ClusterSpot, freq_khz: &str) -> (r: String)
    ensures
        r@ == "dx "@ + freq_khz@ + seq![' '] + spot.call@ + seq![' '] + dx_remarks(*spot) + "\r\n"@,
{
    let mut out = chars_of("dx ");
    extend_chars(&mut out, chars_of(freq_khz).as_slice());
    out.push(' ');
    extend_chars(&mut out, chars_of(spot.call.as_str()).as_slice());
    out.push(' ');
    push_remarks(&mut out, spot);
    extend_chars(&mut out, chars_of("\r\n").as_slice());
    string_of(out.as_slice())
}

/// Once read, a comment's report, speed and mode are never changed by the
/// tokens after them.
proof fn lemma_comment_fields_settle(toks: Seq<Seq<char>>, k: int, n: int)
    requires
        0 <= k <= n <= toks.len(),
    ensures
        comment_fields(toks, k).0 is Some ==> comment_fields(toks, n).0 == comment_fields(toks, k).0,
        comment_fields(toks, k).1 is Some ==> comment_fields(toks, n).1 == comment_fields(toks, k).1,
        comment_fields(toks, k).2 is Some ==> comment_fields(toks, n).2 == comment_fields(toks, k).2,
    decreases n - k,
{
    if n > k {
        lemma_comment_fields_settle(toks, k, n - 1);
    }
}

/// A speed marker names the mode: where the comment tokens before position
/// `k` (not the first) named no mode, a `BPS` token at `k` makes the mode
/// RTTY and a `WPM` token makes it CW, for the whole comment; and when no
/// speed was read before, a number just before the marker is the speed.
pub proof fn law_speed_marker_names_the_mode(toks: Seq<Seq<char>>, k: int, n: int)
    requires
        0 < k < n <= toks.len(),
        comment_fields(toks, k).2 is None,
    ensures
        toks[k] == "BPS"@ ==> (comment_fields(toks, n).2 matches Some(md) && md == "RTTY"@),
        toks[k] == "WPM"@ ==> (comment_fields(toks, n).2 matches Some(md) && md == "CW"@),
        (toks[k] == "BPS"@ || toks[k] == "WPM"@) && comment_fields(toks, k).1 is None && parse_u32_text(
            toks[k - 1],
        ) is Some ==> comment_fields(toks, n).1 == parse_u32_text(toks[k - 1]),
{
    reveal_strlit("dB");
    reveal_strlit("WPM");
    reveal_strlit("BPS");
    if toks[k] == "BPS"@ || toks[k] == "WPM"@ {
        assert(toks[k] != "dB"@) by {
            if toks[k] == "dB"@ {
                assert(toks[k][0] == 'd');
            }
        }
        assert("BPS"@ != "WPM"@) by {
            assert("BPS"@[0] == 'B');
        }
        assert(comment_fields(toks, k + 1).2 is Some);
        lemma_comment_fields_settle(toks, k + 1, n);
        if comment_fields(toks, k).1 is None && parse_u32_text(toks[k - 1]) is Some {
            assert(comment_fields(toks, k + 1).1 == parse_u32_text(toks[k - 1]));
        }
    }
}

/// The signal report is the number before the first `dB` marker: where no
/// report was read before position `k` (not the first), a `dB` token at `k`
/// preceded by a number makes that number the report for the whole
/// comment.
pub proof fn law_report_precedes_db(toks: Seq<Seq<char>>, k: int, n: int)
    requires
        0 < k < n <= toks.len(),
        comment_fields(toks, k).0 is None,
        toks[k] == "dB"@,
        parse_i32_text(toks[k - 1]) is Some,
    ensures
        comment_fields(toks, n).0 == parse_i32_text(toks[k - 1]),
{
    assert(comment_fields(toks, k + 1).0 == parse_i32_text(toks[k - 1]));
    lemma_comment_fields_settle(toks, k + 1, n);
}

/// A mode name in the comment is the mode when no earlier token named one:
/// CW, RTTY, FT8, FT4, WSPR, PSK31, PSK63, JT65, JT9 and MSK144.
pub proof fn law_mode_names_are_read(toks: Seq<Seq<char>>, k: int, n: int)
    requires
        0 <= k < n <= toks.len(),
        comment_fields(toks, k).2 is None,
        toks[k] == "CW"@ || toks[k] == "RTTY"@ || toks[k] == "FT8"@ || toks[k] == "FT4"@ || toks[k] == "WSPR"@
            || toks[k] == "PSK31"@ || toks[k] == "PSK63"@ || toks[k] == "JT65"@ || toks[k] == "JT9"@
            || toks[k] == "MSK144"@,
    ensures
        comment_fields(toks, n).2 matches Some(md) && md == toks[k],
{
    reveal_strlit("dB");
    reveal_strlit("WPM");
    reveal_strlit("BPS");
    reveal_strlit("CW");
    reveal_strlit("RTTY");
    reveal_strlit("FT8");
    reveal_strlit("FT4");
    reveal_strlit("WSPR");
    reveal_strlit("PSK31");
    reveal_strlit("PSK63");
    reveal_strlit("JT65");
    reveal_strlit("JT9");
    reveal_strlit("MSK144");
    let t = toks[k];
    let names = mode_tokens();
    assert(names.contains(t)) by {
        if t == "CW"@ {
            assert(names[0] == t);
        } else if t == "RTTY"@ {
            assert(names[1] == t);
        } else if t == "FT8"@ {
            assert(names[2] == t);
        } else if t == "FT4"@ {
            assert(names[3] == t);
        } else if t == "WSPR"@ {
            assert(names[4] == t);
        } else if t == "PSK31"@ {
            assert(names[5] == t);
        } else if t == "PSK63"@ {
            assert(names[6] == t);
        } else if t == "JT65"@ {
            assert(names[7] == t);
        } else if t == "JT9"@ {
            assert(names[8] == t);
        } else {
            assert(names[9] == t);
        }
    }
    assert(t != "dB"@ && t != "WPM"@ && t != "BPS"@) by {
        if t == "dB"@ || t == "WPM"@ || t == "BPS"@ {
            assert(t.len() == 2 || t.len() == 3);
            assert(t[0] == 'd' || t[0] == 'W' || t[0] == 'B');
        }
    }
    assert(comment_fields(toks, k + 1).2 == Some(t));
    lemma_comment_fields_settle(toks, k + 1, n);
}

} // verus!

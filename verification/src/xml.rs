//! A minimal XML scanner: start, end and text events, character entities
//! decoded, attributes, prolog, doctype and comments skipped — what a
//! data file such as cty.xml needs and nothing more.

use crate::dxcc::utf8_width;
use crate::text::{find, is_ws, is_ws_char, parse_unsigned, starts_with, trim};
use vstd::prelude::*;

verus! {

/// One scanner event, as values.
pub enum EventV {
    Start(Seq<char>),
    End(Seq<char>),
    Text(Seq<char>),
}

/// One scanner event.
pub enum Event {
    Start(String),
    End(String),
    Text(String),
}

pub open spec fn event_view(e: Event) -> EventV {
    match e {
        Event::Start(s) => EventV::Start(s@),
        Event::End(s) => EventV::End(s@),
        Event::Text(s) => EventV::Text(s@),
    }
}

pub open spec fn events_view(v: Seq<Event>) -> Seq<EventV> {
    v.map_values(|e: Event| event_view(e))
}

// ---------------------------------------------------------------------------
// Searching
// ---------------------------------------------------------------------------

/// Index of the first `c` at or after `i` (the length when there is none).
pub open spec fn find_from(s: Seq<char>, i: int, c: char) -> int {
    i + find(s.skip(i), c)
}

pub proof fn lemma_find_from(s: Seq<char>, i: int, c: char)
    requires
        0 <= i <= s.len(),
    ensures
        i <= find_from(s, i, c) <= s.len(),
        forall|j: int| i <= j < find_from(s, i, c) ==> s[j] != c,
        find_from(s, i, c) < s.len() ==> s[find_from(s, i, c)] == c,
{
    crate::text::lemma_find_props(s.skip(i), c);
    assert forall|j: int| i <= j < find_from(s, i, c) implies s[j] != c by {
        assert(s.skip(i)[j - i] == s[j]);
    }
    if find_from(s, i, c) < s.len() {
        assert(s.skip(i)[find(s.skip(i), c)] == s[find_from(s, i, c)]);
    }
}

fn find_char_from(s: &[char], i: usize, c: char) -> (r: usize)
    requires
        i <= s.len(),
    ensures
        r == find_from(s@, i as int, c),
        i <= r <= s.len(),
{
    let r = crate::text::find_char(s, i, s.len(), c);
    assert(s@.subrange(i as int, s.len() as int) =~= s@.skip(i as int));
    r
}

/// Index of the first occurrence of `p` at or after `i` (the length when
/// there is none).
pub open spec fn find_seq_from(s: Seq<char>, i: int, p: Seq<char>) -> int
    decreases s.len() - i,
{
    if i < 0 || i >= s.len() || i + p.len() > s.len() {
        s.len() as int
    } else if s.subrange(i, i + p.len()) == p {
        i
    } else {
        find_seq_from(s, i + 1, p)
    }
}

pub proof fn lemma_find_seq_from(s: Seq<char>, i: int, p: Seq<char>)
    requires
        0 <= i <= s.len(),
    ensures
        i <= find_seq_from(s, i, p) <= s.len(),
        find_seq_from(s, i, p) < s.len() ==> find_seq_from(s, i, p) + p.len() <= s.len(),
    decreases s.len() - i,
{
    if i < s.len() && i + p.len() <= s.len() && s.subrange(i, i + p.len()) != p {
        lemma_find_seq_from(s, i + 1, p);
    }
}

fn find_close_comment(s: &[char], i: usize) -> (r: usize)
    requires
        i <= s.len(),
    ensures
        r == find_seq_from(s@, i as int, "-->"@),
{
    proof {
        reveal_strlit("-->");
    }
    let mut j = i;
    while s.len() - j >= 3 && !(s[j] == '-' && s[j + 1] == '-' && s[j + 2] == '>')
        invariant
            i <= j <= s.len(),
            find_seq_from(s@, i as int, "-->"@) == find_seq_from(s@, j as int, "-->"@),
        decreases s.len() - j,
    {
        proof {
            reveal_strlit("-->");
        }
        assert(s@.subrange(j as int, j + 3) != "-->"@) by {
            if s@.subrange(j as int, j + 3) == "-->"@ {
                assert(s@.subrange(j as int, j + 3)[0] == s@[j as int]);
                assert(s@.subrange(j as int, j + 3)[1] == s@[j + 1]);
                assert(s@.subrange(j as int, j + 3)[2] == s@[j + 2]);
            }
        }
        j = j + 1;
    }
    proof {
        reveal_strlit("-->");
    }
    if s.len() - j >= 3 {
        assert(s@.subrange(j as int, j + 3) =~= "-->"@);
        j
    } else {
        s.len()
    }
}

/// Index of the first whitespace character of `s` (its length if none).
pub open spec fn ws_index(s: Seq<char>) -> int
    decreases s.len(),
{
    if s.len() == 0 {
        0
    } else if is_ws(s[0]) {
        0
    } else {
        1 + ws_index(s.drop_first())
    }
}

proof fn lemma_ws_index(s: Seq<char>, r: int)
    requires
        0 <= r <= s.len(),
        forall|j: int| 0 <= j < r ==> !is_ws(s[j]),
        r < s.len() ==> is_ws(s[r]),
    ensures
        ws_index(s) == r,
    decreases s.len(),
{
    if r > 0 {
        lemma_ws_index(s.drop_first(), r - 1);
    }
}

// ---------------------------------------------------------------------------
// Character entities
// ---------------------------------------------------------------------------

pub open spec fn hex_digit(c: char) -> bool {
    ('0' <= c && c <= '9') || ('a' <= c && c <= 'f') || ('A' <= c && c <= 'F')
}

pub open spec fn hex_digit_value(c: char) -> int {
    if '0' <= c && c <= '9' {
        (c as u32) - ('0' as u32)
    } else if 'a' <= c && c <= 'f' {
        (c as u32) - ('a' as u32) + 10
    } else {
        (c as u32) - ('A' as u32) + 10
    }
}

pub open spec fn hex_value(s: Seq<char>) -> nat
    decreases s.len(),
{
    if s.len() == 0 {
        0
    } else {
        (16 * hex_value(s.drop_last()) + hex_digit_value(s.last())) as nat
    }
}

/// `u32::from_str_radix(h, 16)`: an optional `+`, then one or more hex
/// digits, the value fitting in 32 bits.
pub open spec fn hex_parse(h: Seq<char>) -> Option<nat> {
    let d = plus_stripped(h);
    if d.len() > 0 && all_hex(d) && hex_value(d) <= u32::MAX {
        Some(hex_value(d))
    } else {
        None
    }
}

/// `h` without one leading `+`.
pub open spec fn plus_stripped(h: Seq<char>) -> Seq<char> {
    if h.len() > 0 && h[0] == '+' {
        h.drop_first()
    } else {
        h
    }
}

pub open spec fn all_hex(d: Seq<char>) -> bool {
    forall|j: int| 0 <= j < d.len() ==> hex_digit(#[trigger] d[j])
}

/// A Unicode scalar value: what `char::from_u32` accepts.
pub open spec fn valid_scalar(n: nat) -> bool {
    n <= 0x10FFFF && !(0xD800 <= n && n <= 0xDFFF)
}

/// The character an entity name (the text between `&` and `;`) stands
/// for: the five XML names, `#x…` / `#X…` hexadecimal or `#…` decimal
/// references to a valid character; `None` otherwise.
pub open spec fn entity_char(ent: Seq<char>) -> Option<char> {
    if ent == "amp"@ {
        Some('&')
    } else if ent == "lt"@ {
        Some('<')
    } else if ent == "gt"@ {
        Some('>')
    } else if ent == "quot"@ {
        Some('"')
    } else if ent == "apos"@ {
        Some('\'')
    } else {
        let code = if (starts_with(ent, "#x"@) || starts_with(ent, "#X"@)) && hex_parse(ent.skip(2)) is Some {
            hex_parse(ent.skip(2))
        } else if ent.len() > 0 && ent[0] == '#' {
            parse_unsigned(ent.skip(1), u32::MAX as nat)
        } else {
            None
        };
        match code {
            Some(n) => if valid_scalar(n) {
                Some(n as char)
            } else {
                None
            },
            None => None,
        }
    }
}

/// How many leading characters of `r` fit in `budget` bytes of UTF-8.
pub open spec fn fitting(r: Seq<char>, budget: int) -> nat
    decreases r.len(),
{
    if r.len() == 0 {
        0
    } else if utf8_width(r[0]) <= budget {
        1 + fitting(r.drop_first(), budget - utf8_width(r[0]))
    } else {
        0
    }
}

/// The entity window after an `&`: the characters wholly inside its first
/// twelve bytes.
pub open spec fn window(r: Seq<char>) -> Seq<char> {
    r.take(fitting(r, 12) as int)
}

pub proof fn lemma_fitting(r: Seq<char>, budget: int)
    ensures
        fitting(r, budget) <= r.len(),
        r.len() > 0 && utf8_width(r[0]) <= budget ==> fitting(r, budget) >= 1,
    decreases r.len(),
{
    if r.len() > 0 && utf8_width(r[0]) <= budget {
        lemma_fitting(r.drop_first(), budget - utf8_width(r[0]));
    }
}

/// `s[i..]` with character entities decoded; an `&` that starts no
/// recognised entity (or whose `;` lies beyond the window) is kept as is.
pub open spec fn decode_from(s: Seq<char>, i: int) -> Seq<char>
    decreases s.len() - i,
{
    if !(0 <= i < s.len()) {
        Seq::empty()
    } else {
        proof {
            lemma_find_from(s, i, '&');
        }
        let a = find_from(s, i, '&');
        if a >= s.len() {
            s.skip(i)
        } else {
            let pre = s.subrange(i, a);
            let w = window(s.skip(a));
            proof {
                lemma_fitting(s.skip(a), 12);
                crate::text::lemma_find_props(w, ';');
                assert(s.skip(a)[0] == '&');
                assert(w[0] == '&');
            }
            let semi = find(w, ';');
            if semi >= w.len() {
                pre + seq!['&'] + decode_from(s, a + 1)
            } else {
                match entity_char(s.subrange(a + 1, a + semi)) {
                    Some(c) => pre + seq![c] + decode_from(s, a + semi + 1),
                    None => pre + seq!['&'] + decode_from(s, a + 1),
                }
            }
        }
    }
}

pub open spec fn decode(s: Seq<char>) -> Seq<char> {
    decode_from(s, 0)
}

/// `char::from_u32`: the character with scalar value `n`, or `None` for a
/// surrogate or a value past `0x10FFFF`.
#[verifier::external_body]
fn char_from_u32(n: u32) -> (r: Option<char>)
    ensures
        r == (if valid_scalar(n as nat) {
            Some(n as char)
        } else {
            None
        }),
{
    char::from_u32(n)
}

fn hex_digit_of(c: char) -> (r: Option<u32>)
    ensures
        match r {
            Some(v) => hex_digit(c) && v == hex_digit_value(c),
            None => !hex_digit(c),
        },
{
    if '0' <= c && c <= '9' {
        Some(c as u32 - '0' as u32)
    } else if 'a' <= c && c <= 'f' {
        Some(c as u32 - 'a' as u32 + 10)
    } else if 'A' <= c && c <= 'F' {
        Some(c as u32 - 'A' as u32 + 10)
    } else {
        None
    }
}

fn hex_parse_exec(s: &[char], lo: usize, hi: usize) -> (r: Option<u32>)
    requires
        lo <= hi <= s.len(),
    ensures
        match r {
            Some(v) => hex_parse(s@.subrange(lo as int, hi as int)) == Some(v as nat),
            None => hex_parse(s@.subrange(lo as int, hi as int)) is None,
        },
{
    let ghost h = s@.subrange(lo as int, hi as int);
    let mut start = lo;
    if lo < hi && s[lo] == '+' {
        start = lo + 1;
    }
    let ghost d = s@.subrange(start as int, hi as int);
    assert(d == plus_stripped(h)) by {
        if lo < hi && s@[lo as int] == '+' {
            assert(h.drop_first() =~= d);
        } else {
            assert(h =~= d);
        }
    }
    if start == hi {
        return None;
    }
    let mut acc: u64 = 0;
    let mut i = start;
    while i < hi
        invariant
            start <= i <= hi <= s.len(),
            lo <= start,
            d == s@.subrange(start as int, hi as int),
            h == s@.subrange(lo as int, hi as int),
            d == plus_stripped(h),
            all_hex(d.take(i - start)),
            acc == hex_value(d.take(i - start)),
            acc <= u32::MAX,
        decreases hi - i,
    {
        assert(d.take(i - start + 1).drop_last() =~= d.take(i - start));
        assert(d[i - start] == s@[i as int]);
        let v = match hex_digit_of(s[i]) {
            Some(v) => v,
            None => {
                proof {
                    lemma_hex_parse_bad_digit(h, d, i - start);
                }
                return None;
            },
        };
        if acc > (u32::MAX as u64 - v as u64) / 16 {
            proof {
                assert(hex_value(d.take(i - start + 1)) == 16 * acc + v);
                assert(hex_value(d.take(i - start + 1)) > u32::MAX);
                lemma_hex_grows(d, i - start + 1);
                lemma_hex_parse_too_big(h, d, i - start + 1);
            }
            return None;
        }
        acc = acc * 16 + v as u64;
        i = i + 1;
    }
    assert(d.take(hi - start) =~= d);
    Some(acc as u32)
}

proof fn lemma_hex_parse_bad_digit(h: Seq<char>, d: Seq<char>, k: int)
    requires
        d == plus_stripped(h),
        0 <= k < d.len(),
        !hex_digit(d[k]),
    ensures
        hex_parse(h) is None,
{
}

proof fn lemma_hex_parse_too_big(h: Seq<char>, d: Seq<char>, k: int)
    requires
        d == plus_stripped(h),
        0 <= k <= d.len(),
        hex_value(d.take(k)) > u32::MAX,
        all_hex(d) ==> hex_value(d) >= hex_value(d.take(k)),
    ensures
        hex_parse(h) is None,
{
}

proof fn lemma_hex_grows(s: Seq<char>, i: int)
    requires
        0 <= i <= s.len(),
    ensures
        all_hex(s) ==> hex_value(s) >= hex_value(s.take(i)),
    decreases s.len(),
{
    if i < s.len() {
        assert(s.drop_last().take(i) =~= s.take(i));
        lemma_hex_grows(s.drop_last(), i);
        if all_hex(s) {
            assert(all_hex(s.drop_last())) by {
                assert forall|j: int| 0 <= j < s.drop_last().len() implies hex_digit(#[trigger] s.drop_last()[j]) by {
                    assert(s.drop_last()[j] == s[j]);
                }
            }
        }
    } else {
        assert(s.take(i) =~= s);
    }
}

/// Where the `;` closing an entity lies, counted from `r[0]`, when it is
/// inside the first `budget` bytes.
pub open spec fn semi_in(r: Seq<char>, budget: int) -> Option<nat>
    decreases r.len(),
{
    if r.len() == 0 {
        None
    } else if utf8_width(r[0]) > budget {
        None
    } else if r[0] == ';' {
        Some(0)
    } else {
        match semi_in(r.drop_first(), budget - utf8_width(r[0])) {
            Some(k) => Some(k + 1),
            None => None,
        }
    }
}

proof fn lemma_semi_in(r: Seq<char>, budget: int)
    ensures
        ({
            let w = r.take(fitting(r, budget) as int);
            semi_in(r, budget) == (if find(w, ';') < w.len() {
                Some(find(w, ';') as nat)
            } else {
                None
            })
        }),
    decreases r.len(),
{
    lemma_fitting(r, budget);
    let w = r.take(fitting(r, budget) as int);
    if r.len() > 0 && utf8_width(r[0]) <= budget {
        let b2 = budget - utf8_width(r[0]);
        let rest = r.drop_first();
        lemma_semi_in(rest, b2);
        lemma_fitting(rest, b2);
        let w2 = rest.take(fitting(rest, b2) as int);
        assert(fitting(r, budget) == 1 + fitting(rest, b2));
        assert(w.drop_first() =~= w2);
        assert(w[0] == r[0]);
        assert(w.len() == 1 + w2.len());
        if r[0] == ';' {
            assert(find(w, ';') == 0);
            assert(semi_in(r, budget) == Some(0nat));
        } else {
            assert(find(w, ';') == 1 + find(w2, ';'));
            assert(semi_in(r, budget) == (match semi_in(rest, b2) {
                Some(k) => Some(k + 1),
                None => None::<nat>,
            }));
            crate::text::lemma_find_props(w2, ';');
            if find(w2, ';') < w2.len() {
                assert(semi_in(rest, b2) == Some(find(w2, ';') as nat));
                assert(semi_in(r, budget) == Some(find(w, ';') as nat));
            } else {
                assert(semi_in(rest, b2) is None);
                assert(semi_in(r, budget) is None);
            }
        }
    } else {
        assert(fitting(r, budget) == 0);
        assert(w.len() == 0);
        assert(find(w, ';') == 0);
        assert(semi_in(r, budget) is None);
    }
}

fn width_of(c: char) -> (w: u32)
    ensures
        w == utf8_width(c),
{
    let u = c as u32;
    if u < 0x80 {
        1
    } else if u < 0x800 {
        2
    } else if u < 0x10000 {
        3
    } else {
        4
    }
}

/// The offset of the `;` closing the entity at `s[a]`, when it lies in
/// the entity window.
fn entity_end(s: &[char], a: usize) -> (r: Option<usize>)
    requires
        a < s.len(),
    ensures
        ({
            let w = window(s@.skip(a as int));
            match r {
                Some(k) => find(w, ';') < w.len() && k == find(w, ';'),
                None => find(w, ';') >= w.len(),
            }
        }),
{
    proof {
        lemma_semi_in(s@.skip(a as int), 12);
    }
    let mut j = a;
    let mut budget: u32 = 12;
    while j < s.len() && s[j] != ';' && width_of(s[j]) <= budget
        invariant
            a <= j <= s.len(),
            budget <= 12,
            semi_in(s@.skip(a as int), 12) == (match semi_in(s@.skip(j as int), budget as int) {
                Some(k) => Some(k + (j - a) as nat),
                None => None::<nat>,
            }),
        decreases s.len() - j,
    {
        assert(s@.skip(j as int).drop_first() =~= s@.skip(j + 1));
        assert(s@.skip(j as int)[0] == s@[j as int]);
        budget = budget - width_of(s[j]);
        j = j + 1;
    }
    proof {
        lemma_semi_in(s@.skip(a as int), 12);
        crate::text::lemma_find_props(window(s@.skip(a as int)), ';');
    }
    assert(utf8_width(';') == 1);
    if j < s.len() && s[j] == ';' && budget >= 1 {
        assert(s@.skip(j as int)[0] == s@[j as int]);
        assert(semi_in(s@.skip(j as int), budget as int) == Some(0nat));
        Some(j - a)
    } else {
        proof {
            if j < s.len() {
                assert(s@.skip(j as int)[0] == s@[j as int]);
            }
            assert(semi_in(s@.skip(j as int), budget as int) is None);
        }
        None
    }
}

/// The value of `s[lo..hi]` as `str::parse::<u32>` reads it.
fn decimal_u32(s: &[char], lo: usize, hi: usize) -> (r: Option<u32>)
    requires
        lo <= hi <= s.len(),
    ensures
        match r {
            Some(v) => parse_unsigned(s@.subrange(lo as int, hi as int), u32::MAX as nat) == Some(v as nat),
            None => parse_unsigned(s@.subrange(lo as int, hi as int), u32::MAX as nat) is None,
        },
{
    let ghost t = s@.subrange(lo as int, hi as int);
    if lo < hi && s[lo] == '+' {
        assert(t.drop_first() =~= s@.subrange(lo + 1, hi as int));
        match crate::text::parse_digits(s, lo + 1, hi, u32::MAX as u64) {
            Some(v) => Some(v as u32),
            None => None,
        }
    } else {
        match crate::text::parse_digits(s, lo, hi, u32::MAX as u64) {
            Some(v) => Some(v as u32),
            None => None,
        }
    }
}

/// The character the entity name `s[lo..hi]` stands for.
fn entity_char_exec(s: &[char], lo: usize, hi: usize) -> (r: Option<char>)
    requires
        lo <= hi <= s.len(),
    ensures
        r == entity_char(s@.subrange(lo as int, hi as int)),
{
    let ent = crate::text::slice_vec(s, lo, hi);
    let e = ent.as_slice();
    if crate::text::eq_lit(e, "amp") {
        return Some('&');
    }
    if crate::text::eq_lit(e, "lt") {
        return Some('<');
    }
    if crate::text::eq_lit(e, "gt") {
        return Some('>');
    }
    if crate::text::eq_lit(e, "quot") {
        return Some('"');
    }
    if crate::text::eq_lit(e, "apos") {
        return Some('\'');
    }
    proof {
        reveal_strlit("#x");
        reveal_strlit("#X");
    }
    let n = e.len();
    let mut code: Option<u32> = None;
    if n >= 2 && e[0] == '#' && (e[1] == 'x' || e[1] == 'X') {
        assert(starts_with(ent@, "#x"@) || starts_with(ent@, "#X"@)) by {
            reveal_strlit("#x");
            reveal_strlit("#X");
            if ent@[1] == 'x' {
                assert(ent@.take(2) =~= "#x"@);
            } else {
                assert(ent@.take(2) =~= "#X"@);
            }
        }
        code = hex_parse_exec(e, 2, n);
        assert(e@.subrange(2, n as int) =~= ent@.skip(2));
    } else {
        assert(!(starts_with(ent@, "#x"@) || starts_with(ent@, "#X"@))) by {
            if starts_with(ent@, "#x"@) {
                assert(ent@.take(2)[0] == ent@[0] && ent@.take(2)[1] == ent@[1]);
            }
            if starts_with(ent@, "#X"@) {
                assert(ent@.take(2)[0] == ent@[0] && ent@.take(2)[1] == ent@[1]);
            }
        }
    }
    if code.is_none() && n >= 1 && e[0] == '#' {
        code = decimal_u32(e, 1, n);
        assert(e@.subrange(1, n as int) =~= ent@.skip(1));
    }
    match code {
        Some(v) => char_from_u32(v),
        None => None,
    }
}

/// `s` with its character entities decoded (see [`decode_from`]).
pub fn decode_entities(s: &[char]) -> (r: Vec<char>)
    ensures
        r@ == decode(s@),
{
    let mut out: Vec<char> = Vec::new();
    let mut i: usize = 0;
    while i < s.len()
        invariant
            i <= s.len(),
            out@ + decode_from(s@, i as int) == decode(s@),
        decreases s.len() - i,
    {
        proof {
            lemma_find_from(s@, i as int, '&');
        }
        let a = find_char_from(s, i, '&');
        if a >= s.len() {
            let ghost before = out@;
            crate::text::extend_chars(&mut out, crate::text::slice_vec(s, i, s.len()).as_slice());
            assert(s@.subrange(i as int, s.len() as int) =~= s@.skip(i as int));
            assert(out@ + decode_from(s@, s.len() as int) =~= before + decode_from(s@, i as int));
            i = s.len();
        } else {
            let ghost before = out@;
            crate::text::extend_chars(&mut out, crate::text::slice_vec(s, i, a).as_slice());
            proof {
                lemma_fitting(s@.skip(a as int), 12);
                crate::text::lemma_find_props(window(s@.skip(a as int)), ';');
                assert(s@.skip(a as int)[0] == '&');
            }
            match entity_end(s, a) {
                None => {
                    out.push('&');
                    assert(out@ + decode_from(s@, a + 1) =~= before + decode_from(s@, i as int));
                    i = a + 1;
                },
                Some(k) => {
                    assert(window(s@.skip(a as int))[0] == '&');
                    match entity_char_exec(s, a + 1, a + k) {
                        Some(c) => {
                            out.push(c);
                            assert(out@ + decode_from(s@, (a + k + 1) as int) =~= before + decode_from(s@, i as int));
                            i = a + k + 1;
                        },
                        None => {
                            out.push('&');
                            assert(out@ + decode_from(s@, a + 1) =~= before + decode_from(s@, i as int));
                            i = a + 1;
                        },
                    }
                },
            }
        }
    }
    assert(out@ =~= out@ + decode_from(s@, i as int));
    out
}

// ---------------------------------------------------------------------------
// The scanner
// ---------------------------------------------------------------------------

/// The tag name in the text between `<` and `>` of a start tag: up to the
/// first whitespace, after dropping a trailing `/`.
pub open spec fn tag_name(inner: Seq<char>) -> Seq<char> {
    let body = if inner.len() > 0 && inner.last() == '/' {
        inner.drop_last()
    } else {
        inner
    };
    body.take(ws_index(body))
}

/// The events `s[i..]` scans to. Comments, `<?…>` and `<!…>` are skipped;
/// `</name>` ends an element; `<name …/>` starts and ends one; text that
/// is not all whitespace is an event with its entities decoded. Scanning
/// stops quietly at an unterminated tag or comment.
pub open spec fn scan_from(s: Seq<char>, i: int) -> Seq<EventV>
    decreases s.len() - i,
{
    if !(0 <= i < s.len()) {
        Seq::empty()
    } else if s[i] == '<' {
        if starts_with(s.skip(i + 1), "!--"@) {
            proof {
                lemma_find_seq_from(s, i, "-->"@);
                reveal_strlit("-->");
            }
            let e = find_seq_from(s, i, "-->"@);
            if e >= s.len() {
                Seq::empty()
            } else {
                scan_from(s, e + 3)
            }
        } else {
            proof {
                lemma_find_from(s, i, '>');
            }
            let e = find_from(s, i, '>');
            if e >= s.len() {
                Seq::empty()
            } else if i + 1 < s.len() && (s[i + 1] == '?' || s[i + 1] == '!') {
                scan_from(s, e + 1)
            } else {
                let inner = s.subrange(i + 1, e);
                if inner.len() > 0 && inner[0] == '/' {
                    seq![EventV::End(trim(inner.skip(1)))] + scan_from(s, e + 1)
                } else if inner.len() > 0 && inner.last() == '/' {
                    seq![EventV::Start(tag_name(inner)), EventV::End(tag_name(inner))] + scan_from(s, e + 1)
                } else {
                    seq![EventV::Start(tag_name(inner))] + scan_from(s, e + 1)
                }
            }
        }
    } else {
        proof {
            lemma_find_from(s, i, '<');
        }
        let lt = find_from(s, i, '<');
        let text = s.subrange(i, lt);
        if trim(text).len() > 0 {
            seq![EventV::Text(decode(text))] + scan_from(s, lt)
        } else {
            scan_from(s, lt)
        }
    }
}

pub open spec fn scan_spec(s: Seq<char>) -> Seq<EventV> {
    scan_from(s, 0)
}

/// Whether `s[i..]` scans to its end: no tag or comment is left
/// unterminated. (Where one is, [`scan_from`] stops there.)
pub open spec fn scan_complete(s: Seq<char>, i: int) -> bool
    decreases s.len() - i,
{
    if !(0 <= i < s.len()) {
        true
    } else if s[i] == '<' {
        if starts_with(s.skip(i + 1), "!--"@) {
            proof {
                lemma_find_seq_from(s, i, "-->"@);
                reveal_strlit("-->");
            }
            let e = find_seq_from(s, i, "-->"@);
            if e >= s.len() {
                false
            } else {
                scan_complete(s, e + 3)
            }
        } else {
            proof {
                lemma_find_from(s, i, '>');
            }
            let e = find_from(s, i, '>');
            if e >= s.len() {
                false
            } else {
                scan_complete(s, e + 1)
            }
        }
    } else {
        proof {
            lemma_find_from(s, i, '<');
        }
        scan_complete(s, find_from(s, i, '<'))
    }
}

fn tag_name_of(s: &[char], lo: usize, hi: usize) -> (r: String)
    requires
        lo <= hi <= s.len(),
    ensures
        r@ == tag_name(s@.subrange(lo as int, hi as int)),
{
    let ghost inner = s@.subrange(lo as int, hi as int);
    let mut end = hi;
    if lo < hi && s[hi - 1] == '/' {
        end = hi - 1;
        assert(inner.drop_last() =~= s@.subrange(lo as int, end as int));
    } else {
        assert(inner =~= s@.subrange(lo as int, end as int));
    }
    let ghost body = s@.subrange(lo as int, end as int);
    let mut k = lo;
    while k < end && !is_ws_char(s[k])
        invariant
            lo <= k <= end <= hi <= s.len(),
            body == s@.subrange(lo as int, end as int),
            forall|q: int| lo <= q < k ==> !is_ws(s@[q]),
        decreases end - k,
    {
        k = k + 1;
    }
    proof {
        lemma_ws_index(body, k - lo);
    }
    assert(body.take(k - lo) =~= s@.subrange(lo as int, k as int));
    crate::text::string_of_range(s, lo, k)
}

/// The events `s` scans to (see [`scan_from`]), and whether it scanned to
/// its end (see [`scan_complete`]).
pub fn scan(s: &[char]) -> (r: (Vec<Event>, bool))
    ensures
        events_view(r.0@) == scan_spec(s@),
        r.1 == scan_complete(s@, 0),
{
    let mut out: Vec<Event> = Vec::new();
    let mut i: usize = 0;
    assert(events_view(out@) =~= Seq::<EventV>::empty());
    while i < s.len()
        invariant
            i <= s.len(),
            events_view(out@) + scan_from(s@, i as int) == scan_spec(s@),
            scan_complete(s@, i as int) == scan_complete(s@, 0),
        decreases s.len() - i,
    {
        let ghost before = events_view(out@);
        if s[i] == '<' {
            proof {
                reveal_strlit("!--");
                reveal_strlit("-->");
            }
            let comment = s.len() - i >= 4 && s[i + 1] == '!' && s[i + 2] == '-' && s[i + 3] == '-';
            assert(comment == starts_with(s@.skip(i + 1), "!--"@)) by {
                reveal_strlit("!--");
                if s.len() - i >= 4 {
                    if comment {
                        assert(s@.skip(i + 1).take(3) =~= "!--"@);
                    } else if starts_with(s@.skip(i + 1), "!--"@) {
                        assert(s@.skip(i + 1).take(3)[0] == s@[i + 1]);
                        assert(s@.skip(i + 1).take(3)[1] == s@[i + 2]);
                        assert(s@.skip(i + 1).take(3)[2] == s@[i + 3]);
                    }
                }
            }
            if comment {
                proof {
                    lemma_find_seq_from(s@, i as int, "-->"@);
                }
                let e = find_close_comment(s, i);
                if e >= s.len() {
                    assert(scan_from(s@, i as int) =~= Seq::<EventV>::empty());
                    assert(events_view(out@) =~= events_view(out@) + scan_from(s@, i as int));
                    return (out, false);
                }
                i = e + 3;
            } else {
                proof {
                    lemma_find_from(s@, i as int, '>');
                }
                let e = find_char_from(s, i, '>');
                if e >= s.len() {
                    assert(events_view(out@) =~= events_view(out@) + scan_from(s@, i as int));
                    return (out, false);
                }
                if i + 1 < s.len() && (s[i + 1] == '?' || s[i + 1] == '!') {
                    i = e + 1;
                } else if i + 1 < e && s[i + 1] == '/' {
                    let (lo, hi) = crate::text::trim_range(s, i + 2, e);
                    assert(s@.subrange(i + 1, e as int).skip(1) =~= s@.subrange(i + 2, e as int));
                    let name = crate::text::string_of_range(s, lo, hi);
                    let ghost nv = name@;
                    out.push(Event::End(name));
                    assert(events_view(out@) =~= before.push(EventV::End(nv)));
                    i = e + 1;
                } else if i + 1 < e && s[e - 1] == '/' {
                    let name = tag_name_of(s, i + 1, e);
                    let ghost nv = name@;
                    let end = name.clone();
                    out.push(Event::Start(name));
                    out.push(Event::End(end));
                    assert(events_view(out@) =~= before.push(EventV::Start(nv)).push(EventV::End(nv)));
                    assert(s@.subrange(i + 1, e as int).last() == s@[e - 1]);
                    i = e + 1;
                } else {
                    let name = tag_name_of(s, i + 1, e);
                    let ghost nv = name@;
                    out.push(Event::Start(name));
                    assert(events_view(out@) =~= before.push(EventV::Start(nv)));
                    proof {
                        if i + 1 < e {
                            assert(s@.subrange(i + 1, e as int).last() == s@[e - 1]);
                        }
                    }
                    i = e + 1;
                }
            }
        } else {
            proof {
                lemma_find_from(s@, i as int, '<');
            }
            let lt = find_char_from(s, i, '<');
            let (lo, hi) = crate::text::trim_range(s, i, lt);
            if hi > lo {
                let text = crate::text::slice_vec(s, i, lt);
                let dec = decode_entities(text.as_slice());
                let t = crate::text::string_of(dec.as_slice());
                let ghost tv = t@;
                out.push(Event::Text(t));
                assert(events_view(out@) =~= before.push(EventV::Text(tv)));
            }
            i = lt;
        }
    }
    assert(scan_from(s@, i as int) =~= Seq::<EventV>::empty());
    assert(events_view(out@) =~= events_view(out@) + scan_from(s@, i as int));
    (out, true)
}

} // verus!

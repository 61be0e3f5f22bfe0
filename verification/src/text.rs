//! Character-level text helpers shared by every parser in the crate.
//!
//! Text is handled as sequences of `char`: `&str` arguments are turned into
//! `Vec<char>` once, scanned by index, and turned back into `String` at the
//! edge. The spec functions here are the vocabulary the other modules'
//! contracts are written in.

use vstd::prelude::*;

verus! {

/// `String::push` appends one character.
pub assume_specification[ String::push ](s: &mut String, ch: char)
    ensures
        final(s)@ == old(s)@.push(ch),
;

/// What `str::to_uppercase` returns: the Unicode uppercase mapping of a
/// whole string (which may change its length, `ß` → `SS`).
pub uninterp spec fn unicode_upper(s: Seq<char>) -> Seq<char>;

/// What `str::to_lowercase` returns: the Unicode lowercase mapping.
pub uninterp spec fn unicode_lower(s: Seq<char>) -> Seq<char>;

/// What `char::is_alphabetic` answers (Unicode `Alphabetic`).
pub uninterp spec fn unicode_alphabetic(c: char) -> bool;

/// What `char::is_numeric` answers (Unicode general categories Nd/Nl/No).
pub uninterp spec fn unicode_numeric(c: char) -> bool;

/// What `String::from_utf8_lossy` makes of bytes: their UTF-8 text, each
/// invalid sequence replaced by U+FFFD.
pub uninterp spec fn utf8_lossy(b: Seq<u8>) -> Seq<char>;

/// Calls `String::from_utf8_lossy`. The result is named by `utf8_lossy`;
/// bytes that are valid UTF-8 give exactly their decoded text, as the
/// documentation says. How invalid sequences are replaced is not restated.
#[verifier::external_body]
pub(crate) fn lossy_text(b: &[u8]) -> (r: String)
    ensures
        r@ == utf8_lossy(b@),
        vstd::utf8::valid_utf8(b@) ==> r@ == vstd::utf8::decode_utf8(b@),
{
    String::from_utf8_lossy(b).into_owned()
}

/// Calls `str::to_uppercase`. Claims only that the result is a function of
/// the input characters; the Unicode case tables are not restated.
#[verifier::external_body]
pub(crate) fn to_upper(s: &str) -> (r: String)
    ensures
        r@ == unicode_upper(s@),
{
    s.to_uppercase()
}

/// Calls `str::to_lowercase`. Claims only that the result is a function of
/// the input characters.
#[verifier::external_body]
pub(crate) fn to_lower(s: &str) -> (r: String)
    ensures
        r@ == unicode_lower(s@),
{
    s.to_lowercase()
}

/// Calls `char::is_alphabetic`; the answer is a function of `c` alone.
#[verifier::external_body]
pub(crate) fn is_alphabetic(c: char) -> (b: bool)
    ensures
        b == unicode_alphabetic(c),
{
    c.is_alphabetic()
}

/// Calls `char::is_numeric`; the answer is a function of `c` alone.
#[verifier::external_body]
pub(crate) fn is_numeric(c: char) -> (b: bool)
    ensures
        b == unicode_numeric(c),
{
    c.is_numeric()
}

// ---------------------------------------------------------------------------
// Conversions
// ---------------------------------------------------------------------------

/// The characters of `s`, in order.
pub fn chars_of(s: &str) -> (v: Vec<char>)
    ensures
        v@ == s@,
{
    broadcast use vstd::string::group_string_axioms;

    let mut v: Vec<char> = Vec::new();
    for c in it: s.chars()
        invariant
            v@ == it.seq().take(it.index()),
    {
        v.push(c);
    }
    v
}

/// A `String` holding exactly the characters `v`.
pub fn string_of(v: &[char]) -> (s: String)
    ensures
        s@ == v@,
{
    let mut s = String::new();
    let mut i: usize = 0;
    while i < v.len()
        invariant
            i <= v.len(),
            s@ == v@.take(i as int),
        decreases v.len() - i,
    {
        s.push(v[i]);
        i = i + 1;
        assert(v@.take(i as int) =~= v@.take((i - 1) as int).push(v@[i - 1]));
    }
    assert(v@.take(v.len() as int) =~= v@);
    s
}

/// A `String` holding `v[lo..hi]`.
pub fn string_of_range(v: &[char], lo: usize, hi: usize) -> (s: String)
    requires
        lo <= hi <= v.len(),
    ensures
        s@ == v@.subrange(lo as int, hi as int),
{
    let mut s = String::new();
    let mut i: usize = lo;
    while i < hi
        invariant
            lo <= i <= hi <= v.len(),
            s@ == v@.subrange(lo as int, i as int),
        decreases hi - i,
    {
        s.push(v[i]);
        i = i + 1;
        assert(v@.subrange(lo as int, i as int) =~= v@.subrange(lo as int, (i - 1) as int).push(
            v@[i - 1],
        ));
    }
    s
}

/// A copy of `v[lo..hi]`.
pub fn slice_vec(v: &[char], lo: usize, hi: usize) -> (r: Vec<char>)
    requires
        lo <= hi <= v.len(),
    ensures
        r@ == v@.subrange(lo as int, hi as int),
{
    let mut r: Vec<char> = Vec::new();
    let mut i: usize = lo;
    while i < hi
        invariant
            lo <= i <= hi <= v.len(),
            r@ == v@.subrange(lo as int, i as int),
        decreases hi - i,
    {
        r.push(v[i]);
        i = i + 1;
        assert(v@.subrange(lo as int, i as int) =~= v@.subrange(lo as int, (i - 1) as int).push(
            v@[i - 1],
        ));
    }
    r
}

/// Append every character of `v` to `s`.
pub fn push_all(s: &mut String, v: &[char])
    ensures
        final(s)@ == old(s)@ + v@,
{
    let mut i: usize = 0;
    while i < v.len()
        invariant
            i <= v.len(),
            s@ == old(s)@ + v@.take(i as int),
        decreases v.len() - i,
    {
        s.push(v[i]);
        i = i + 1;
        assert(v@.take(i as int) =~= v@.take((i - 1) as int).push(v@[i - 1]));
    }
    assert(v@.take(v.len() as int) =~= v@);
}

/// Append every character of `t` to `s`.
pub fn push_str(s: &mut String, t: &str)
    ensures
        final(s)@ == old(s)@ + t@,
{
    let v = chars_of(t);
    push_all(s, v.as_slice());
}

/// Append `v` to the end of `out`.
pub fn extend_chars(out: &mut Vec<char>, v: &[char])
    ensures
        final(out)@ == old(out)@ + v@,
{
    let mut i: usize = 0;
    while i < v.len()
        invariant
            i <= v.len(),
            out@ == old(out)@ + v@.take(i as int),
        decreases v.len() - i,
    {
        out.push(v[i]);
        i = i + 1;
        assert(v@.take(i as int) =~= v@.take((i - 1) as int).push(v@[i - 1]));
    }
    assert(v@.take(v.len() as int) =~= v@);
}

/// Whether two character sequences are equal.
pub fn chars_eq(a: &[char], b: &[char]) -> (r: bool)
    ensures
        r == (a@ == b@),
{
    if a.len() != b.len() {
        return false;
    }
    let mut i: usize = 0;
    while i < a.len()
        invariant
            a.len() == b.len(),
            i <= a.len(),
            forall|j: int| 0 <= j < i ==> a@[j] == b@[j],
        decreases a.len() - i,
    {
        if a[i] != b[i] {
            return false;
        }
        i = i + 1;
    }
    assert(a@ =~= b@);
    true
}

/// Whether `s` equals the text `t`.
pub fn str_eq(s: &str, t: &str) -> (r: bool)
    ensures
        r == (s@ == t@),
{
    let a = chars_of(s);
    let b = chars_of(t);
    chars_eq(a.as_slice(), b.as_slice())
}

// ---------------------------------------------------------------------------
// ASCII case
// ---------------------------------------------------------------------------

pub open spec fn is_lower_ascii(c: char) -> bool {
    'a' <= c && c <= 'z'
}

pub open spec fn is_upper_ascii(c: char) -> bool {
    'A' <= c && c <= 'Z'
}

pub open spec fn is_digit(c: char) -> bool {
    '0' <= c && c <= '9'
}

/// `char::to_ascii_uppercase`.
pub open spec fn upper_char(c: char) -> char {
    if is_lower_ascii(c) {
        ((c as u32) - 32) as char
    } else {
        c
    }
}

/// `char::to_ascii_lowercase`.
pub open spec fn lower_char(c: char) -> char {
    if is_upper_ascii(c) {
        ((c as u32) + 32) as char
    } else {
        c
    }
}

/// `str::to_ascii_uppercase`.
pub open spec fn upper(s: Seq<char>) -> Seq<char> {
    s.map_values(|c: char| upper_char(c))
}

pub fn ascii_upper_char(c: char) -> (r: char)
    ensures
        r == upper_char(c),
{
    if 'a' <= c && c <= 'z' {
        let b: u8 = (c as u32 - 32) as u8;
        b as char
    } else {
        c
    }
}

pub fn ascii_lower_char(c: char) -> (r: char)
    ensures
        r == lower_char(c),
{
    if 'A' <= c && c <= 'Z' {
        let b: u8 = (c as u32 + 32) as u8;
        b as char
    } else {
        c
    }
}

pub fn is_digit_char(c: char) -> (r: bool)
    ensures
        r == is_digit(c),
{
    '0' <= c && c <= '9'
}

pub fn is_upper_char(c: char) -> (r: bool)
    ensures
        r == is_upper_ascii(c),
{
    'A' <= c && c <= 'Z'
}

/// ASCII-uppercased copy of `v`.
pub fn upper_vec(v: &[char]) -> (r: Vec<char>)
    ensures
        r@ == upper(v@),
{
    let mut r: Vec<char> = Vec::new();
    let mut i: usize = 0;
    while i < v.len()
        invariant
            i <= v.len(),
            r@ == upper(v@.take(i as int)),
        decreases v.len() - i,
    {
        r.push(ascii_upper_char(v[i]));
        i = i + 1;
        assert(upper(v@.take(i as int)) =~= upper(v@.take((i - 1) as int)).push(
            upper_char(v@[i - 1]),
        ));
    }
    assert(v@.take(v.len() as int) =~= v@);
    r
}

/// `s.to_ascii_uppercase()` as characters.
pub fn upper_chars_of(s: &str) -> (r: Vec<char>)
    ensures
        r@ == upper(s@),
{
    let v = chars_of(s);
    upper_vec(v.as_slice())
}

// ---------------------------------------------------------------------------
// Whitespace and trimming
// ---------------------------------------------------------------------------

/// Unicode `White_Space`, the property `char::is_whitespace` tests.
pub open spec fn is_ws(c: char) -> bool {
    let u = c as u32;
    (0x09 <= u && u <= 0x0D) || u == 0x20 || u == 0x85 || u == 0xA0 || u == 0x1680 || (0x2000
        <= u && u <= 0x200A) || u == 0x2028 || u == 0x2029 || u == 0x202F || u == 0x205F || u
        == 0x3000
}

pub fn is_ws_char(c: char) -> (r: bool)
    ensures
        r == is_ws(c),
{
    let u = c as u32;
    (0x09 <= u && u <= 0x0D) || u == 0x20 || u == 0x85 || u == 0xA0 || u == 0x1680 || (0x2000
        <= u && u <= 0x200A) || u == 0x2028 || u == 0x2029 || u == 0x202F || u == 0x205F || u
        == 0x3000
}

/// Index of the first non-whitespace character of `s` (its length if none).
pub open spec fn lead_ws(s: Seq<char>) -> int
    decreases s.len(),
{
    if s.len() > 0 && is_ws(s[0]) {
        1 + lead_ws(s.drop_first())
    } else {
        0
    }
}

/// Number of whitespace characters at the end of `s`.
pub open spec fn trail_ws(s: Seq<char>) -> int
    decreases s.len(),
{
    if s.len() > 0 && is_ws(s.last()) {
        1 + trail_ws(s.drop_last())
    } else {
        0
    }
}

/// `str::trim_start`.
pub open spec fn trim_start(s: Seq<char>) -> Seq<char> {
    s.skip(lead_ws(s))
}

/// `str::trim_end`.
pub open spec fn trim_end(s: Seq<char>) -> Seq<char> {
    s.take(s.len() - trail_ws(s))
}

/// `str::trim`.
pub open spec fn trim(s: Seq<char>) -> Seq<char> {
    trim_end(trim_start(s))
}

pub proof fn lemma_lead_ws(s: Seq<char>, r: int)
    requires
        0 <= r <= s.len(),
        forall|j: int| 0 <= j < r ==> is_ws(s[j]),
        r < s.len() ==> !is_ws(s[r]),
    ensures
        lead_ws(s) == r,
    decreases s.len(),
{
    if r > 0 {
        lemma_lead_ws(s.drop_first(), r - 1);
    }
}

pub proof fn lemma_trail_ws(s: Seq<char>, r: int)
    requires
        0 <= r <= s.len(),
        forall|j: int| s.len() - r <= j < s.len() ==> is_ws(s[j]),
        r < s.len() ==> !is_ws(s[s.len() - r - 1]),
    ensures
        trail_ws(s) == r,
    decreases s.len(),
{
    if r > 0 {
        lemma_trail_ws(s.drop_last(), r - 1);
    }
}

pub proof fn lemma_lead_ws_props(s: Seq<char>)
    ensures
        0 <= lead_ws(s) <= s.len(),
        lead_ws(s) < s.len() ==> !is_ws(s[lead_ws(s)]),
    decreases s.len(),
{
    if s.len() > 0 && is_ws(s[0]) {
        lemma_lead_ws_props(s.drop_first());
    }
}

pub proof fn lemma_trail_ws_props(s: Seq<char>)
    ensures
        0 <= trail_ws(s) <= s.len(),
        trail_ws(s) < s.len() ==> !is_ws(s[s.len() - trail_ws(s) - 1]),
    decreases s.len(),
{
    if s.len() > 0 && is_ws(s.last()) {
        lemma_trail_ws_props(s.drop_last());
    }
}

/// Trimming twice is trimming once.
pub proof fn lemma_trim_twice(s: Seq<char>)
    ensures
        trim(trim(s)) == trim(s),
{
    let u = trim_start(s);
    let t = trim(s);
    lemma_lead_ws_props(s);
    lemma_trail_ws_props(u);
    if t.len() > 0 {
        assert(t[0] == u[0]);
        assert(u[0] == s[lead_ws(s)]);
        assert(t[t.len() - 1] == u[u.len() - trail_ws(u) - 1]);
    }
    lemma_lead_ws(t, 0);
    assert(t.skip(0) =~= t);
    lemma_trail_ws(t, 0);
    assert(t.take(t.len() as int) =~= t);
}

/// Bounds `[lo, hi)` of `trim(v[from..to])` inside `v`.
pub fn trim_range(v: &[char], from: usize, to: usize) -> (r: (usize, usize))
    requires
        from <= to <= v.len(),
    ensures
        from <= r.0 <= r.1 <= to,
        v@.subrange(r.0 as int, r.1 as int) == trim(v@.subrange(from as int, to as int)),
{
    let ghost s = v@.subrange(from as int, to as int);
    let mut lo = from;
    while lo < to && is_ws_char(v[lo])
        invariant
            from <= lo <= to <= v.len(),
            forall|j: int| from <= j < lo ==> is_ws(v@[j]),
        decreases to - lo,
    {
        lo = lo + 1;
    }
    proof {
        lemma_lead_ws(s, lo - from);
    }
    let ghost t = trim_start(s);
    assert(t =~= v@.subrange(lo as int, to as int));
    let mut hi = to;
    while hi > lo && is_ws_char(v[hi - 1])
        invariant
            from <= lo <= hi <= to <= v.len(),
            forall|j: int| hi <= j < to ==> is_ws(v@[j]),
        decreases hi - lo,
    {
        hi = hi - 1;
    }
    proof {
        lemma_trail_ws(t, to - hi);
    }
    assert(v@.subrange(lo as int, hi as int) =~= trim_end(t));
    (lo, hi)
}

/// `s.trim()` as characters.
pub fn trim_vec(v: &[char]) -> (r: Vec<char>)
    ensures
        r@ == trim(v@),
{
    let (lo, hi) = trim_range(v, 0, v.len());
    assert(v@.subrange(0, v@.len() as int) =~= v@);
    slice_vec(v, lo, hi)
}

/// `s.trim()` as characters.
pub fn trimmed_chars(s: &str) -> (r: Vec<char>)
    ensures
        r@ == trim(s@),
{
    let v = chars_of(s);
    trim_vec(v.as_slice())
}

// ---------------------------------------------------------------------------
// Searching and splitting on one character
// ---------------------------------------------------------------------------

/// Index of the first `c` in `s`, or `s.len()` when there is none.
pub open spec fn find(s: Seq<char>, c: char) -> int
    decreases s.len(),
{
    if s.len() == 0 {
        0
    } else if s[0] == c {
        0
    } else {
        1 + find(s.drop_first(), c)
    }
}

pub proof fn lemma_find(s: Seq<char>, c: char, r: int)
    requires
        0 <= r <= s.len(),
        forall|j: int| 0 <= j < r ==> s[j] != c,
        r < s.len() ==> s[r] == c,
    ensures
        find(s, c) == r,
    decreases s.len(),
{
    if r > 0 {
        lemma_find(s.drop_first(), c, r - 1);
    }
}

pub proof fn lemma_find_props(s: Seq<char>, c: char)
    ensures
        0 <= find(s, c) <= s.len(),
        forall|j: int| 0 <= j < find(s, c) ==> s[j] != c,
        find(s, c) < s.len() ==> s[find(s, c)] == c,
    decreases s.len(),
{
    if s.len() > 0 && s[0] != c {
        lemma_find_props(s.drop_first(), c);
        assert forall|j: int| 0 <= j < find(s, c) implies s[j] != c by {
            if j > 0 {
                assert(s[j] == s.drop_first()[j - 1]);
            }
        }
    }
}

/// Whether `s` contains `c`.
pub open spec fn contains_char(s: Seq<char>, c: char) -> bool {
    exists|j: int| 0 <= j < s.len() && s[j] == c
}

/// First index `>= from` in `v[..to]` holding `c`, or `to`.
pub fn find_char(v: &[char], from: usize, to: usize, c: char) -> (r: usize)
    requires
        from <= to <= v.len(),
    ensures
        from <= r <= to,
        r - from == find(v@.subrange(from as int, to as int), c),
        forall|j: int| from <= j < r ==> v@[j] != c,
        r < to ==> v@[r as int] == c,
{
    let mut i = from;
    while i < to && v[i] != c
        invariant
            from <= i <= to <= v.len(),
            forall|j: int| from <= j < i ==> v@[j] != c,
        decreases to - i,
    {
        i = i + 1;
    }
    proof {
        lemma_find(v@.subrange(from as int, to as int), c, i - from);
    }
    i
}

/// `str::split_once(c)`.
pub open spec fn split_once(s: Seq<char>, c: char) -> Option<(Seq<char>, Seq<char>)> {
    let i = find(s, c);
    if i < s.len() {
        Some((s.take(i), s.skip(i + 1)))
    } else {
        None
    }
}

/// `str::split(c)`: the pieces between occurrences of `c`, empty ones kept.
pub open spec fn split(s: Seq<char>, c: char) -> Seq<Seq<char>>
    decreases s.len(),
{
    let i = find(s, c);
    if i < s.len() {
        proof {
            lemma_find_props(s, c);
        }
        seq![s.take(i)] + split(s.skip(i + 1), c)
    } else {
        seq![s]
    }
}

/// The non-empty members of `parts`, in order.
pub open spec fn keep_nonempty(parts: Seq<Seq<char>>) -> Seq<Seq<char>>
    decreases parts.len(),
{
    if parts.len() == 0 {
        parts
    } else if parts.last().len() > 0 {
        keep_nonempty(parts.drop_last()).push(parts.last())
    } else {
        keep_nonempty(parts.drop_last())
    }
}

/// The non-empty pieces of `split(s, c)` — `s.split(c).filter(|p| !p.is_empty())`.
pub open spec fn split_nonempty(s: Seq<char>, c: char) -> Seq<Seq<char>> {
    keep_nonempty(split(s, c))
}

/// Two non-empty pieces free of `c`, joined by one `c`, split back into
/// those two pieces.
pub proof fn lemma_split_two(a: Seq<char>, b: Seq<char>, c: char)
    requires
        a.len() > 0,
        b.len() > 0,
        !contains_char(a, c),
        !contains_char(b, c),
    ensures
        contains_char(a + seq![c] + b, c),
        split_nonempty(a + seq![c] + b, c) == seq![a, b],
{
    let s = a + seq![c] + b;
    assert(s[a.len() as int] == c);
    assert forall|j: int| 0 <= j < a.len() implies s[j] != c by {
        assert(s[j] == a[j]);
    }
    lemma_find(s, c, a.len() as int);
    lemma_find(b, c, b.len() as int);
    assert(s.take(a.len() as int) =~= a);
    assert(s.skip(a.len() + 1int) =~= b);
    assert(split(b, c) =~= seq![b]);
    assert(split(s, c) =~= seq![a, b]);
    let p = seq![a, b];
    assert(p.drop_last() =~= seq![a]);
    let one = seq![a];
    assert(one.drop_last() =~= Seq::<Seq<char>>::empty());
    assert(one.last() == a);
    assert(keep_nonempty(one.drop_last()) =~= Seq::<Seq<char>>::empty());
    assert(keep_nonempty(one) =~= seq![a]);
    assert(p.last() == b);
    assert(keep_nonempty(p) =~= seq![a, b]);
}

/// `split_nonempty(v, c)` as owned character vectors.
pub fn split_nonempty_vec(v: &[char], c: char) -> (r: Vec<Vec<char>>)
    ensures
        r@.len() == split_nonempty(v@, c).len(),
        forall|k: int| 0 <= k < r@.len() ==> #[trigger] r@[k]@ == split_nonempty(v@, c)[k],
{
    let parts = split_vec(v, c);
    let ghost all = split(v@, c);
    let mut out: Vec<Vec<char>> = Vec::new();
    let mut i: usize = 0;
    let n = parts.len();
    assert(all.take(0) =~= Seq::<Seq<char>>::empty());
    while i < n
        invariant
            n == parts@.len(),
            n == all.len(),
            forall|k: int| 0 <= k < n ==> #[trigger] parts@[k]@ == all[k],
            i <= n,
            out@.len() == keep_nonempty(all.take(i as int)).len(),
            forall|k: int| 0 <= k < out@.len() ==> #[trigger] out@[k]@ == keep_nonempty(all.take(i as int))[k],
        decreases n - i,
    {
        assert(all.take(i + 1).drop_last() =~= all.take(i as int));
        assert(all.take(i + 1).last() == all[i as int]);
        if parts[i].len() > 0 {
            let p = slice_vec(parts[i].as_slice(), 0, parts[i].len());
            assert(p@ =~= all[i as int]);
            out.push(p);
        }
        i = i + 1;
    }
    assert(all.take(n as int) =~= all);
    out
}

/// `split(s, c)` as owned character vectors.
pub fn split_vec(v: &[char], c: char) -> (r: Vec<Vec<char>>)
    ensures
        r@.len() == split(v@, c).len(),
        forall|k: int| 0 <= k < r@.len() ==> #[trigger] r@[k]@ == split(v@, c)[k],
{
    let mut out: Vec<Vec<char>> = Vec::new();
    let mut start: usize = 0;
    let ghost mut done: Seq<Seq<char>> = seq![];
    assert(v@.skip(0) =~= v@);
    assert(split(v@, c) =~= done + split(v@.skip(0), c));
    loop
        invariant
            start <= v.len(),
            out@.len() == done.len(),
            forall|k: int| 0 <= k < out@.len() ==> #[trigger] out@[k]@ == done[k],
            split(v@, c) == done + split(v@.skip(start as int), c),
        decreases v.len() - start,
    {
        let j = find_char(v, start, v.len(), c);
        let ghost rest = v@.skip(start as int);
        assert(rest =~= v@.subrange(start as int, v.len() as int));
        let piece = slice_vec(v, start, j);
        if j < v.len() {
            assert(rest.take(j - start) =~= piece@);
            assert(rest.skip(j - start + 1) =~= v@.skip(j + 1));
            proof {
                done = done.push(piece@);
            }
            out.push(piece);
            assert(split(v@, c) =~= done + split(v@.skip((j + 1) as int), c));
            start = j + 1;
        } else {
            assert(rest =~= piece@);
            proof {
                done = done.push(piece@);
            }
            out.push(piece);
            assert(split(v@, c) =~= done);
            return out;
        }
    }
}

/// `s` with every whitespace character written as a space.
pub open spec fn spaced(s: Seq<char>) -> Seq<char> {
    s.map_values(|c: char| if is_ws(c) { ' ' } else { c })
}

/// `str::split_whitespace`: the non-empty runs between whitespace.
pub open spec fn words(s: Seq<char>) -> Seq<Seq<char>> {
    split_nonempty(spaced(s), ' ')
}

/// `words(v)` as owned character vectors.
pub fn words_vec(v: &[char]) -> (r: Vec<Vec<char>>)
    ensures
        r@.len() == words(v@).len(),
        forall|k: int| 0 <= k < r@.len() ==> #[trigger] r@[k]@ == words(v@)[k],
{
    let mut sp: Vec<char> = Vec::new();
    let mut i: usize = 0;
    while i < v.len()
        invariant
            i <= v.len(),
            sp@ == spaced(v@.take(i as int)),
        decreases v.len() - i,
    {
        let c = v[i];
        sp.push(if is_ws_char(c) { ' ' } else { c });
        assert(sp@ =~= spaced(v@.take(i + 1)));
        i = i + 1;
    }
    assert(v@.take(v.len() as int) =~= v@);
    split_nonempty_vec(sp.as_slice(), ' ')
}

// ---------------------------------------------------------------------------
// Prefixes and suffixes
// ---------------------------------------------------------------------------

pub open spec fn starts_with(s: Seq<char>, p: Seq<char>) -> bool {
    p.len() <= s.len() && s.take(p.len() as int) == p
}

pub open spec fn ends_with(s: Seq<char>, p: Seq<char>) -> bool {
    p.len() <= s.len() && s.skip(s.len() - p.len()) == p
}

/// Whether `v[from..]` starts with `p`.
pub fn starts_with_at(v: &[char], from: usize, p: &[char]) -> (r: bool)
    requires
        from <= v.len(),
    ensures
        r == starts_with(v@.skip(from as int), p@),
{
    if p.len() > v.len() - from {
        return false;
    }
    let mut i: usize = 0;
    while i < p.len()
        invariant
            from + p.len() <= v.len(),
            i <= p.len(),
            forall|j: int| 0 <= j < i ==> v@[from + j] == p@[j],
        decreases p.len() - i,
    {
        if v[from + i] != p[i] {
            assert(v@.skip(from as int).take(p.len() as int)[i as int] != p@[i as int]);
            return false;
        }
        i = i + 1;
    }
    assert(v@.skip(from as int).take(p.len() as int) =~= p@);
    true
}

pub fn vec_starts_with(v: &[char], p: &[char]) -> (r: bool)
    ensures
        r == starts_with(v@, p@),
{
    let r = starts_with_at(v, 0, p);
    assert(v@.skip(0) =~= v@);
    r
}

pub fn vec_ends_with(v: &[char], p: &[char]) -> (r: bool)
    ensures
        r == ends_with(v@, p@),
{
    if p.len() > v.len() {
        return false;
    }
    let r = starts_with_at(v, v.len() - p.len(), p);
    assert(v@.skip(v.len() - p.len()).take(p.len() as int) =~= v@.skip(v.len() - p.len()));
    r
}

/// Whether `p` occurs anywhere in `s`.
pub open spec fn contains_seq(s: Seq<char>, p: Seq<char>) -> bool {
    exists|i: int| 0 <= i <= s.len() - p.len() && #[trigger] s.subrange(i, i + p.len()) == p
}

pub fn vec_contains(v: &[char], p: &[char]) -> (r: bool)
    ensures
        r == contains_seq(v@, p@),
{
    if p.len() > v.len() {
        return false;
    }
    if p.len() == 0 {
        assert(v@.subrange(0, 0 + p@.len() as int) =~= p@);
        return true;
    }
    let mut i: usize = 0;
    while i <= v.len() - p.len()
        invariant
            1 <= p.len() <= v.len(),
            i <= v.len() - p.len() + 1,
            forall|k: int| 0 <= k < i ==> #[trigger] v@.subrange(k, k + p.len()) != p@,
        decreases v.len() - p.len() + 1 - i,
    {
        if starts_with_at(v, i, p) {
            assert(v@.skip(i as int).take(p.len() as int) =~= v@.subrange(
                i as int,
                i + p.len(),
            ));
            return true;
        }
        assert(v@.skip(i as int).take(p.len() as int) =~= v@.subrange(i as int, i + p.len()));
        i = i + 1;
    }
    false
}

// ---------------------------------------------------------------------------
// Decimal numbers
// ---------------------------------------------------------------------------

pub open spec fn all_digits(s: Seq<char>) -> bool {
    forall|j: int| 0 <= j < s.len() ==> is_digit(#[trigger] s[j])
}

pub open spec fn digit_value(c: char) -> int {
    (c as u32) - ('0' as u32)
}

/// The number the decimal digits `s` spell.
pub open spec fn digits_value(s: Seq<char>) -> nat
    decreases s.len(),
{
    if s.len() == 0 {
        0
    } else {
        (10 * digits_value(s.drop_last()) + digit_value(s.last())) as nat
    }
}

/// What `str::parse` accepts for an unsigned integer no larger than `max`:
/// an optional `+`, then one or more ASCII digits.
pub open spec fn parse_unsigned(s: Seq<char>, max: nat) -> Option<nat> {
    let d = if s.len() > 0 && s[0] == '+' {
        s.drop_first()
    } else {
        s
    };
    if d.len() > 0 && all_digits(d) && digits_value(d) <= max {
        Some(digits_value(d))
    } else {
        None
    }
}

/// What `str::parse` accepts for a signed integer in `[-max_neg, max_pos]`:
/// an optional sign, then one or more ASCII digits.
pub open spec fn parse_signed(s: Seq<char>, max_neg: nat, max_pos: nat) -> Option<int> {
    if s.len() > 0 && s[0] == '-' {
        let d = s.drop_first();
        if d.len() > 0 && all_digits(d) && digits_value(d) <= max_neg {
            Some(-digits_value(d))
        } else {
            None
        }
    } else {
        match parse_unsigned(s, max_pos) {
            Some(v) => Some(v as int),
            None => None,
        }
    }
}

pub proof fn lemma_digits_value_grows(s: Seq<char>, i: int)
    requires
        0 <= i <= s.len(),
        all_digits(s),
    ensures
        digits_value(s) >= digits_value(s.take(i)),
    decreases s.len(),
{
    if i < s.len() {
        assert(s.drop_last().take(i) =~= s.take(i));
        lemma_digits_value_grows(s.drop_last(), i);
    } else {
        assert(s.take(i) =~= s);
    }
}

/// The value of the digits `v[lo..hi]` when they are all digits, the range
/// is non-empty and the value is at most `max`; `None` otherwise.
pub fn parse_digits(v: &[char], lo: usize, hi: usize, max: u64) -> (r: Option<u64>)
    requires
        lo <= hi <= v.len(),
    ensures
        ({
            let d = v@.subrange(lo as int, hi as int);
            match r {
                Some(x) => d.len() > 0 && all_digits(d) && digits_value(d) == x && x <= max,
                None => !(d.len() > 0 && all_digits(d) && digits_value(d) <= max),
            }
        }),
{
    let ghost d = v@.subrange(lo as int, hi as int);
    if lo == hi {
        return None;
    }
    let mut acc: u64 = 0;
    let mut i = lo;
    while i < hi
        invariant
            lo <= i <= hi <= v.len(),
            d == v@.subrange(lo as int, hi as int),
            all_digits(d.take(i - lo)),
            acc == digits_value(d.take(i - lo)),
            acc <= max,
        decreases hi - i,
    {
        let c = v[i];
        if !is_digit_char(c) {
            assert(d[i - lo] == c);
            return None;
        }
        let dv = (c as u32 - '0' as u32) as u64;
        assert(d.take(i - lo + 1).drop_last() =~= d.take(i - lo));
        if dv > max || acc > max / 10 || acc * 10 > max - dv {
            proof {
                assert(all_digits(d.take(i - lo + 1)));
                assert(digits_value(d.take(i - lo + 1)) > max) by (nonlinear_arith)
                    requires
                        digits_value(d.take(i - lo + 1)) == 10 * acc + dv,
                        acc > max / 10 || (acc <= max / 10 && dv <= max && acc * 10 > max - dv)
                            || dv > max,
                ;
                if all_digits(d) {
                    lemma_digits_value_grows(d, i - lo + 1);
                }
            }
            return None;
        }
        acc = acc * 10 + dv;
        i = i + 1;
    }
    assert(d.take(hi - lo) =~= d);
    Some(acc)
}

// ---------------------------------------------------------------------------
// Rendering numbers
// ---------------------------------------------------------------------------

pub open spec fn digit_char(d: nat) -> char {
    (('0' as u32) + d) as char
}

/// Decimal digits of `n`, most significant first, no leading zeros.
pub open spec fn decimal(n: nat) -> Seq<char>
    decreases n,
{
    if n < 10 {
        seq![digit_char(n)]
    } else {
        decimal(n / 10).push(digit_char(n % 10))
    }
}

/// Append the decimal digits of `n`.
pub fn push_decimal(out: &mut Vec<char>, n: u64)
    ensures
        final(out)@ == old(out)@ + decimal(n as nat),
    decreases n,
{
    if n >= 10 {
        push_decimal(out, n / 10);
    }
    let d: u8 = (n % 10) as u8;
    let c: char = ('0' as u8 + d) as char;
    out.push(c);
    assert(c == digit_char((n % 10) as nat));
}

/// Decimal text of a signed number: a `-` in front when negative.
pub open spec fn signed_decimal(n: int) -> Seq<char> {
    if n < 0 {
        seq!['-'] + decimal((-n) as nat)
    } else {
        decimal(n as nat)
    }
}

pub fn push_signed(out: &mut Vec<char>, n: i64)
    ensures
        final(out)@ == old(out)@ + signed_decimal(n as int),
{
    if n < 0 {
        out.push('-');
        let m: u64 = if n == i64::MIN {
            9_223_372_036_854_775_808u64
        } else {
            (-n) as u64
        };
        push_decimal(out, m);
        assert(out@ =~= old(out)@ + signed_decimal(n as int));
    } else {
        push_decimal(out, n as u64);
    }
}

/// `v` followed by spaces up to `len` characters, or its first `len`
/// characters when longer.
pub open spec fn pad_to(v: Seq<char>, len: nat) -> Seq<char> {
    if v.len() >= len {
        v.take(len as int)
    } else {
        v + Seq::new((len - v.len()) as nat, |i: int| ' ')
    }
}

pub fn push_padded(out: &mut Vec<char>, v: &[char], len: usize)
    ensures
        final(out)@ == old(out)@ + pad_to(v@, len as nat),
{
    let mut i: usize = 0;
    while i < len
        invariant
            i <= len,
            out@ == old(out)@ + pad_to(v@, len as nat).take(i as int),
        decreases len - i,
    {
        let c = if i < v.len() {
            v[i]
        } else {
            ' '
        };
        out.push(c);
        i = i + 1;
        assert(pad_to(v@, len as nat).take(i as int) =~= pad_to(v@, len as nat).take(
            (i - 1) as int,
        ).push(c));
    }
    assert(pad_to(v@, len as nat).take(len as int) =~= pad_to(v@, len as nat));
}

} // verus!

verus! {

/// Whether the characters `v` spell the text `t`.
pub fn eq_lit(v: &[char], t: &str) -> (r: bool)
    ensures
        r == (v@ == t@),
{
    let b = chars_of(t);
    chars_eq(v, b.as_slice())
}

/// The texts of `names`, as character sequences.
pub open spec fn views(names: Seq<&str>) -> Seq<Seq<char>> {
    names.map_values(|n: &str| n@)
}

/// Index of the first entry of `names` spelling `v`.
pub open spec fn index_in(names: Seq<Seq<char>>, v: Seq<char>) -> int
    decreases names.len(),
{
    if names.len() == 0 {
        0
    } else if names[0] == v {
        0
    } else {
        1 + index_in(names.drop_first(), v)
    }
}

pub proof fn lemma_index_in(names: Seq<Seq<char>>, v: Seq<char>, r: int)
    requires
        0 <= r <= names.len(),
        forall|j: int| 0 <= j < r ==> names[j] != v,
        r < names.len() ==> names[r] == v,
    ensures
        index_in(names, v) == r,
    decreases names.len(),
{
    if r > 0 {
        lemma_index_in(names.drop_first(), v, r - 1);
    }
}

/// Position of the first of `names` that spells `v` (`names.len()` if none).
pub fn position_of(names: &[&str], v: &[char]) -> (r: usize)
    ensures
        r <= names.len(),
        r == index_in(views(names@), v@),
        forall|j: int| 0 <= j < r ==> names@[j]@ != v@,
        r < names.len() ==> names@[r as int]@ == v@,
{
    let mut i: usize = 0;
    while i < names.len()
        invariant
            i <= names.len(),
            forall|j: int| 0 <= j < i ==> names@[j]@ != v@,
        decreases names.len() - i,
    {
        if eq_lit(v, names[i]) {
            proof {
                lemma_index_in(views(names@), v@, i as int);
            }
            return i;
        }
        i = i + 1;
    }
    proof {
        lemma_index_in(views(names@), v@, i as int);
    }
    i
}

/// Whether some entry of `names` spells `v`.
pub fn is_one_of(names: &[&str], v: &[char]) -> (r: bool)
    ensures
        r == views(names@).contains(v@),
{
    let i = position_of(names, v);
    if i < names.len() {
        assert(views(names@)[i as int] == v@);
        true
    } else {
        assert forall|j: int| 0 <= j < views(names@).len() implies views(names@)[j] != v@ by {
            assert(views(names@)[j] == names@[j]@);
        }
        false
    }
}

} // verus!

//! The LoTW user-activity list: the callsigns that upload to LoTW, read
//! from ARRL's CSV, and the slash-tolerant "is this call a LoTW user?"
//! question. The download is made by the application.

use crate::assoc::{add_new, StrSet};
use crate::text::{
    chars_of, is_alphabetic, is_numeric, split, split_nonempty, split_nonempty_vec, split_once, split_vec,
    string_of, to_upper, trim, trim_vec, unicode_alphabetic, unicode_numeric, unicode_upper, find,
    find_char,
};
use vstd::prelude::*;

verus! {

/// The default list address.
pub open spec fn default_url_spec() -> Seq<char> {
    "https://lotw.arrl.org/lotw-user-activity.csv"@
}

pub fn default_url() -> (r: &'static str)
    ensures
        r@ == default_url_spec(),
{
    "https://lotw.arrl.org/lotw-user-activity.csv"
}

/// `s` with `from` written as `to`.
pub open spec fn replace_char(s: Seq<char>, from: char, to: char) -> Seq<char> {
    s.map_values(|c: char| if c == from { to } else { c })
}

/// The lines of a text: pieces between `\n` or `\r` characters.
pub open spec fn csv_lines(text: Seq<char>) -> Seq<Seq<char>> {
    split(replace_char(text, '\r', '\n'), '\n')
}

/// The non-empty pieces of a line between `,`, tab and space.
pub open spec fn csv_tokens(line: Seq<char>) -> Seq<Seq<char>> {
    split_nonempty(replace_char(replace_char(line, ',', ' '), '\t', ' '), ' ')
}

/// Shaped like a callsign: at least three characters, one of them numeric
/// and one alphabetic (Unicode classes).
pub open spec fn callsign_shaped(call: Seq<char>) -> bool {
    &&& call.len() >= 3
    &&& exists|i: int| 0 <= i < call.len() && unicode_numeric(#[trigger] call[i])
    &&& exists|i: int| 0 <= i < call.len() && unicode_alphabetic(#[trigger] call[i])
}

/// The user a line contributes: its first token, uppercased, when the
/// trimmed line is not empty, not a `#` comment, and the token is
/// callsign-shaped.
pub open spec fn user_of_line(raw: Seq<char>) -> Option<Seq<char>> {
    let line = trim(raw);
    if line.len() == 0 || line[0] == '#' {
        None
    } else {
        let toks = csv_tokens(line);
        if toks.len() == 0 {
            None
        } else if callsign_shaped(unicode_upper(toks[0])) {
            Some(unicode_upper(toks[0]))
        } else {
            None
        }
    }
}

/// The users of the first lines, each once, in order of first appearance.
pub open spec fn users_of_lines(lines: Seq<Seq<char>>) -> Seq<Seq<char>>
    decreases lines.len(),
{
    if lines.len() == 0 {
        Seq::empty()
    } else {
        match user_of_line(lines.last()) {
            Some(u) => add_new(users_of_lines(lines.drop_last()), u),
            None => users_of_lines(lines.drop_last()),
        }
    }
}

fn replaced(v: &[char], from: char, to: char) -> (r: Vec<char>)
    ensures
        r@ == replace_char(v@, from, to),
{
    let mut out: Vec<char> = Vec::new();
    let mut i: usize = 0;
    while i < v.len()
        invariant
            i <= v.len(),
            out@ == replace_char(v@.take(i as int), from, to),
        decreases v.len() - i,
    {
        let c = v[i];
        out.push(if c == from { to } else { c });
        assert(out@ =~= replace_char(v@.take(i + 1), from, to));
        i = i + 1;
    }
    assert(v@.take(v.len() as int) =~= v@);
    out
}

fn shaped(call: &[char]) -> (r: bool)
    ensures
        r == callsign_shaped(call@),
{
    if call.len() < 3 {
        return false;
    }
    let mut num = false;
    let mut alpha = false;
    let mut i: usize = 0;
    while i < call.len()
        invariant
            i <= call.len(),
            num == exists|j: int| 0 <= j < i && unicode_numeric(#[trigger] call@[j]),
            alpha == exists|j: int| 0 <= j < i && unicode_alphabetic(#[trigger] call@[j]),
        decreases call.len() - i,
    {
        if is_numeric(call[i]) {
            num = true;
        }
        if is_alphabetic(call[i]) {
            alpha = true;
        }
        i = i + 1;
    }
    num && alpha
}

fn line_user(raw: &[char]) -> (r: Option<String>)
    ensures
        match r {
            Some(u) => user_of_line(raw@) == Some(u@),
            None => user_of_line(raw@) is None,
        },
{
    let line = trim_vec(raw);
    if line.len() == 0 || line[0] == '#' {
        return None;
    }
    let a = replaced(line.as_slice(), ',', ' ');
    let b = replaced(a.as_slice(), '\t', ' ');
    let toks = split_nonempty_vec(b.as_slice(), ' ');
    if toks.len() == 0 {
        return None;
    }
    let tok = string_of(toks[0].as_slice());
    let call = to_upper(tok.as_str());
    let cv = chars_of(call.as_str());
    if shaped(cv.as_slice()) {
        Some(call)
    } else {
        None
    }
}

/// The set of LoTW users in the activity CSV: for each line (split at `\n`
/// and `\r`), the first comma/tab/space token, uppercased, when the line is
/// not blank or a `#` comment and the token is callsign-shaped.
pub fn parse_users(text: &str) -> (users: StrSet)
    ensures
        users.wf(),
        users.model() == users_of_lines(csv_lines(text@)),
{
    let v = chars_of(text);
    let nl = replaced(v.as_slice(), '\r', '\n');
    let lines = split_vec(nl.as_slice(), '\n');
    let ghost ls = csv_lines(text@);
    let mut set = StrSet::new();
    let mut i: usize = 0;
    assert(ls.take(0) =~= Seq::<Seq<char>>::empty());
    while i < lines.len()
        invariant
            i <= lines.len(),
            lines@.len() == ls.len(),
            forall|k: int| 0 <= k < ls.len() ==> #[trigger] lines@[k]@ == ls[k],
            set.wf(),
            set.model() == users_of_lines(ls.take(i as int)),
        decreases lines.len() - i,
    {
        assert(ls.take(i + 1).drop_last() =~= ls.take(i as int));
        assert(ls.take(i + 1).last() == ls[i as int]);
        match line_user(lines[i].as_slice()) {
            Some(u) => set.insert(u),
            None => {},
        }
        i = i + 1;
    }
    assert(ls.take(lines.len() as int) =~= ls);
    set
}

/// Is `callsign` a LoTW user? Never with an empty list; otherwise the
/// uppercased call itself, or either side of its first `/`, must be listed.
pub open spec fn is_user_spec(users: Seq<Seq<char>>, callsign: Seq<char>) -> bool {
    let upper = unicode_upper(callsign);
    if users.len() == 0 {
        false
    } else if users.contains(upper) {
        true
    } else {
        match split_once(upper, '/') {
            Some((bare, suffix)) => users.contains(bare) || users.contains(suffix),
            None => false,
        }
    }
}

pub fn is_user(users: &StrSet, callsign: &str) -> (r: bool)
    ensures
        r == is_user_spec(users.model(), callsign@),
{
    if users.is_empty() {
        return false;
    }
    let upper = to_upper(callsign);
    if users.contains(upper.as_str()) {
        return true;
    }
    let u = chars_of(upper.as_str());
    let k = find_char(u.as_slice(), 0, u.len(), '/');
    assert(u@.subrange(0, u.len() as int) =~= u@);
    if k < u.len() {
        let bare = crate::text::slice_vec(u.as_slice(), 0, k);
        let suffix = crate::text::slice_vec(u.as_slice(), k + 1, u.len());
        assert(bare@ =~= u@.take(k as int));
        assert(suffix@ =~= u@.skip(k + 1));
        users.contains_chars(bare.as_slice()) || users.contains_chars(suffix.as_slice())
    } else {
        false
    }
}

} // verus!

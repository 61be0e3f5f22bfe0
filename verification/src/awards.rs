//! Award reference data beyond DXCC: the WAS state vocabulary, IOTA
//! reference extraction, and the call → state table distilled from the FCC
//! amateur database.

use crate::text::{
    all_digits, chars_eq, chars_of, decimal, digits_value, eq_lit, find, is_one_of, is_ws,
    is_ws_char, parse_digits, position_of, push_decimal, slice_vec, split_nonempty,
    split_nonempty_vec, split_once, trim, trim_vec, upper, upper_vec, views,
};
use crate::fcc::lex_lt;
use vstd::prelude::*;

verus! {

/// The fifty WAS states, postal codes, alphabetical. District of Columbia
/// is not among them: WAS counts it for Maryland.
pub open spec fn us_states() -> Seq<&'static str> {
    seq![
        "AK", "AL", "AR", "AZ", "CA", "CO", "CT", "DE", "FL", "GA",
        "HI", "IA", "ID", "IL", "IN", "KS", "KY", "LA", "MA", "MD",
        "ME", "MI", "MN", "MO", "MS", "MT", "NC", "ND", "NE", "NH",
        "NJ", "NM", "NV", "NY", "OH", "OK", "OR", "PA", "RI", "SC",
        "SD", "TN", "TX", "UT", "VA", "VT", "WA", "WI", "WV", "WY",
    ]
}

/// The fifty states as a table.
pub fn us_state_table() -> (v: Vec<&'static str>)
    ensures
        v@ == us_states(),
{
    let v = vec![
        "AK", "AL", "AR", "AZ", "CA", "CO", "CT", "DE", "FL", "GA",
        "HI", "IA", "ID", "IL", "IN", "KS", "KY", "LA", "MA", "MD",
        "ME", "MI", "MN", "MO", "MS", "MT", "NC", "ND", "NE", "NH",
        "NJ", "NM", "NV", "NY", "OH", "OK", "OR", "PA", "RI", "SC",
        "SD", "TN", "TX", "UT", "VA", "VT", "WA", "WI", "WV", "WY",
    ];
    assert(v@ =~= us_states());
    v
}

/// The two letters of a postal code as one number, in alphabetical order.
spec fn code_rank(c: Seq<char>) -> int {
    (c[0] as int) * 0x110000 + (c[1] as int)
}

/// Ranks that rise from each entry to the next rise over the whole list.
proof fn lemma_rising_ranks(s: Seq<Seq<char>>)
    requires
        forall|i: int| 0 <= i < s.len() - 1 ==> code_rank(#[trigger] s[i]) < code_rank(s[i + 1]),
    ensures
        forall|i: int, j: int| 0 <= i < j < s.len() ==> code_rank(#[trigger] s[i]) < code_rank(#[trigger] s[j]),
    decreases s.len(),
{
    if s.len() > 1 {
        let t = s.drop_last();
        assert forall|i: int| 0 <= i < t.len() - 1 implies code_rank(#[trigger] t[i]) < code_rank(t[i + 1]) by {
            assert(t[i] == s[i] && t[i + 1] == s[i + 1]);
        }
        lemma_rising_ranks(t);
        assert forall|i: int, j: int| 0 <= i < j < s.len() implies code_rank(#[trigger] s[i]) < code_rank(#[trigger] s[j]) by {
            if j < s.len() - 1 {
                assert(t[i] == s[i] && t[j] == s[j]);
            } else if i < s.len() - 2 {
                assert(t[i] == s[i] && t[s.len() - 2] == s[s.len() - 2]);
                assert(code_rank(s[s.len() - 2]) < code_rank(s[s.len() - 1]));
            } else {
                assert(code_rank(s[s.len() - 2]) < code_rank(s[s.len() - 1]));
            }
        }
    }
}

/// No state appears twice in the list of fifty.
pub proof fn lemma_us_states_distinct()
    ensures
        views(us_states()).len() == 50,
        forall|i: int, j: int|
            0 <= i < j < views(us_states()).len() ==> #[trigger] views(us_states())[i] != #[trigger] views(us_states())[j],
{
    reveal_strlit("AK");
    reveal_strlit("AL");
    reveal_strlit("AR");
    reveal_strlit("AZ");
    reveal_strlit("CA");
    reveal_strlit("CO");
    reveal_strlit("CT");
    reveal_strlit("DE");
    reveal_strlit("FL");
    reveal_strlit("GA");
    reveal_strlit("HI");
    reveal_strlit("IA");
    reveal_strlit("ID");
    reveal_strlit("IL");
    reveal_strlit("IN");
    reveal_strlit("KS");
    reveal_strlit("KY");
    reveal_strlit("LA");
    reveal_strlit("MA");
    reveal_strlit("MD");
    reveal_strlit("ME");
    reveal_strlit("MI");
    reveal_strlit("MN");
    reveal_strlit("MO");
    reveal_strlit("MS");
    reveal_strlit("MT");
    reveal_strlit("NC");
    reveal_strlit("ND");
    reveal_strlit("NE");
    reveal_strlit("NH");
    reveal_strlit("NJ");
    reveal_strlit("NM");
    reveal_strlit("NV");
    reveal_strlit("NY");
    reveal_strlit("OH");
    reveal_strlit("OK");
    reveal_strlit("OR");
    reveal_strlit("PA");
    reveal_strlit("RI");
    reveal_strlit("SC");
    reveal_strlit("SD");
    reveal_strlit("TN");
    reveal_strlit("TX");
    reveal_strlit("UT");
    reveal_strlit("VA");
    reveal_strlit("VT");
    reveal_strlit("WA");
    reveal_strlit("WI");
    reveal_strlit("WV");
    reveal_strlit("WY");
    let us = views(us_states());
    assert(us.len() == 50);
    assert(us[0] == "AK"@);
    assert(us[1] == "AL"@);
    assert(us[2] == "AR"@);
    assert(us[3] == "AZ"@);
    assert(us[4] == "CA"@);
    assert(us[5] == "CO"@);
    assert(us[6] == "CT"@);
    assert(us[7] == "DE"@);
    assert(us[8] == "FL"@);
    assert(us[9] == "GA"@);
    assert(us[10] == "HI"@);
    assert(us[11] == "IA"@);
    assert(us[12] == "ID"@);
    assert(us[13] == "IL"@);
    assert(us[14] == "IN"@);
    assert(us[15] == "KS"@);
    assert(us[16] == "KY"@);
    assert(us[17] == "LA"@);
    assert(us[18] == "MA"@);
    assert(us[19] == "MD"@);
    assert(us[20] == "ME"@);
    assert(us[21] == "MI"@);
    assert(us[22] == "MN"@);
    assert(us[23] == "MO"@);
    assert(us[24] == "MS"@);
    assert(us[25] == "MT"@);
    assert(us[26] == "NC"@);
    assert(us[27] == "ND"@);
    assert(us[28] == "NE"@);
    assert(us[29] == "NH"@);
    assert(us[30] == "NJ"@);
    assert(us[31] == "NM"@);
    assert(us[32] == "NV"@);
    assert(us[33] == "NY"@);
    assert(us[34] == "OH"@);
    assert(us[35] == "OK"@);
    assert(us[36] == "OR"@);
    assert(us[37] == "PA"@);
    assert(us[38] == "RI"@);
    assert(us[39] == "SC"@);
    assert(us[40] == "SD"@);
    assert(us[41] == "TN"@);
    assert(us[42] == "TX"@);
    assert(us[43] == "UT"@);
    assert(us[44] == "VA"@);
    assert(us[45] == "VT"@);
    assert(us[46] == "WA"@);
    assert(us[47] == "WI"@);
    assert(us[48] == "WV"@);
    assert(us[49] == "WY"@);
    assert forall|i: int| 0 <= i < us.len() - 1 implies code_rank(#[trigger] us[i]) < code_rank(us[i + 1]) by {
        if i == 0 {
            assert(code_rank(us[0]) < code_rank(us[1]));
        } else if i == 1 {
            assert(code_rank(us[1]) < code_rank(us[2]));
        } else if i == 2 {
            assert(code_rank(us[2]) < code_rank(us[3]));
        } else if i == 3 {
            assert(code_rank(us[3]) < code_rank(us[4]));
        } else if i == 4 {
            assert(code_rank(us[4]) < code_rank(us[5]));
        } else if i == 5 {
            assert(code_rank(us[5]) < code_rank(us[6]));
        } else if i == 6 {
            assert(code_rank(us[6]) < code_rank(us[7]));
        } else if i == 7 {
            assert(code_rank(us[7]) < code_rank(us[8]));
        } else if i == 8 {
            assert(code_rank(us[8]) < code_rank(us[9]));
        } else if i == 9 {
            assert(code_rank(us[9]) < code_rank(us[10]));
        } else if i == 10 {
            assert(code_rank(us[10]) < code_rank(us[11]));
        } else if i == 11 {
            assert(code_rank(us[11]) < code_rank(us[12]));
        } else if i == 12 {
            assert(code_rank(us[12]) < code_rank(us[13]));
        } else if i == 13 {
            assert(code_rank(us[13]) < code_rank(us[14]));
        } else if i == 14 {
            assert(code_rank(us[14]) < code_rank(us[15]));
        } else if i == 15 {
            assert(code_rank(us[15]) < code_rank(us[16]));
        } else if i == 16 {
            assert(code_rank(us[16]) < code_rank(us[17]));
        } else if i == 17 {
            assert(code_rank(us[17]) < code_rank(us[18]));
        } else if i == 18 {
            assert(code_rank(us[18]) < code_rank(us[19]));
        } else if i == 19 {
            assert(code_rank(us[19]) < code_rank(us[20]));
        } else if i == 20 {
            assert(code_rank(us[20]) < code_rank(us[21]));
        } else if i == 21 {
            assert(code_rank(us[21]) < code_rank(us[22]));
        } else if i == 22 {
            assert(code_rank(us[22]) < code_rank(us[23]));
        } else if i == 23 {
            assert(code_rank(us[23]) < code_rank(us[24]));
        } else if i == 24 {
            assert(code_rank(us[24]) < code_rank(us[25]));
        } else if i == 25 {
            assert(code_rank(us[25]) < code_rank(us[26]));
        } else if i == 26 {
            assert(code_rank(us[26]) < code_rank(us[27]));
        } else if i == 27 {
            assert(code_rank(us[27]) < code_rank(us[28]));
        } else if i == 28 {
            assert(code_rank(us[28]) < code_rank(us[29]));
        } else if i == 29 {
            assert(code_rank(us[29]) < code_rank(us[30]));
        } else if i == 30 {
            assert(code_rank(us[30]) < code_rank(us[31]));
        } else if i == 31 {
            assert(code_rank(us[31]) < code_rank(us[32]));
        } else if i == 32 {
            assert(code_rank(us[32]) < code_rank(us[33]));
        } else if i == 33 {
            assert(code_rank(us[33]) < code_rank(us[34]));
        } else if i == 34 {
            assert(code_rank(us[34]) < code_rank(us[35]));
        } else if i == 35 {
            assert(code_rank(us[35]) < code_rank(us[36]));
        } else if i == 36 {
            assert(code_rank(us[36]) < code_rank(us[37]));
        } else if i == 37 {
            assert(code_rank(us[37]) < code_rank(us[38]));
        } else if i == 38 {
            assert(code_rank(us[38]) < code_rank(us[39]));
        } else if i == 39 {
            assert(code_rank(us[39]) < code_rank(us[40]));
        } else if i == 40 {
            assert(code_rank(us[40]) < code_rank(us[41]));
        } else if i == 41 {
            assert(code_rank(us[41]) < code_rank(us[42]));
        } else if i == 42 {
            assert(code_rank(us[42]) < code_rank(us[43]));
        } else if i == 43 {
            assert(code_rank(us[43]) < code_rank(us[44]));
        } else if i == 44 {
            assert(code_rank(us[44]) < code_rank(us[45]));
        } else if i == 45 {
            assert(code_rank(us[45]) < code_rank(us[46]));
        } else if i == 46 {
            assert(code_rank(us[46]) < code_rank(us[47]));
        } else if i == 47 {
            assert(code_rank(us[47]) < code_rank(us[48]));
        } else if i == 48 {
            assert(code_rank(us[48]) < code_rank(us[49]));
        }
    }
    lemma_rising_ranks(us);
    assert forall|i: int, j: int| 0 <= i < j < us.len() implies #[trigger] us[i] != #[trigger] us[j] by {
        assert(code_rank(us[i]) < code_rank(us[j]));
    }
}

/// ADIF ids of the entities whose subdivisions are WAS states: the
/// contiguous USA, Alaska and Hawaii.
pub open spec fn was_entity(dxcc: i32) -> bool {
    dxcc == 291 || dxcc == 6 || dxcc == 110
}

/// Whether a contact with this DXCC entity can carry a WAS state. Other
/// entities' subdivision codes collide with US ones (China's Shandong is
/// `SD`), so only these three may.
pub fn counts_for_was(dxcc: i32) -> (r: bool)
    ensures
        r == was_entity(dxcc),
{
    dxcc == 291 || dxcc == 6 || dxcc == 110
}

/// The code a raw state value stands for before validation: trimmed,
/// ASCII-uppercased, `DC` folded into `MD`.
pub open spec fn state_code(raw: Seq<char>) -> Seq<char> {
    let up = upper(trim(raw));
    if up == "DC"@ {
        "MD"@
    } else {
        up
    }
}

/// A WAS-countable state code from a raw value, or `None` for territories
/// (PR, GU, VI…) and noise.
pub fn normalize_state(raw: &str) -> (r: Option<&'static str>)
    ensures
        match r {
            Some(s) => views(us_states()).contains(state_code(raw@)) && s@ == state_code(raw@),
            None => !views(us_states()).contains(state_code(raw@)),
        },
{
    let t = chars_of(raw);
    let tt = trim_vec(t.as_slice());
    let up = upper_vec(tt.as_slice());
    let code = if eq_lit(up.as_slice(), "DC") {
        chars_of("MD")
    } else {
        up
    };
    proof {
        reveal_strlit("DC");
        reveal_strlit("MD");
    }
    assert(code@ == state_code(raw@));
    let table = us_state_table();
    let i = position_of(table.as_slice(), code.as_slice());
    if i < table.len() {
        assert(views(us_states())[i as int] == code@);
        Some(table[i])
    } else {
        proof {
            assert forall|j: int| 0 <= j < views(us_states()).len() implies views(us_states())[j]
                != code@ by {
                assert(views(us_states())[j] == table@[j]@);
            }
        }
        None
    }
}

/// The IOTA continents.
pub open spec fn continents() -> Seq<&'static str> {
    seq!["AF", "AN", "AS", "EU", "NA", "OC", "SA"]
}

/// `n` in decimal, zero-padded to at least three digits.
pub open spec fn pad3(n: nat) -> Seq<char> {
    if n < 10 {
        "00"@ + decimal(n)
    } else if n < 100 {
        "0"@ + decimal(n)
    } else {
        decimal(n)
    }
}

/// The IOTA reference one token spells — `AS-003`; continent
/// case-insensitive, one to three digits zero-padded to three (`as-3` →
/// `AS-003`).
pub open spec fn iota_spec(token: Seq<char>) -> Option<Seq<char>> {
    match split_once(token, '-') {
        Some((cont, num)) => if views(continents()).contains(upper(cont)) && num.len() > 0
            && num.len() <= 3 && all_digits(num) {
            Some(upper(cont) + "-"@ + pad3(digits_value(num)))
        } else {
            None
        },
        None => None,
    }
}

/// The IOTA reference in `token`, normalised; `None` when it is not
/// continent-dash-number shaped.
pub fn normalize_iota(token: &str) -> (r: Option<String>)
    ensures
        match r {
            Some(s) => iota_spec(token@) == Some(s@),
            None => iota_spec(token@) is None,
        },
{
    let v = chars_of(token);
    match iota_of(v.as_slice()) {
        Some(out) => Some(crate::text::string_of(out.as_slice())),
        None => None,
    }
}

fn iota_of(v: &[char]) -> (r: Option<Vec<char>>)
    ensures
        match r {
            Some(s) => iota_spec(v@) == Some(s@),
            None => iota_spec(v@) is None,
        },
{
    let dash = crate::text::find_char(v, 0, v.len(), '-');
    assert(v@.subrange(0, v.len() as int) =~= v@);
    if dash >= v.len() {
        return None;
    }
    assert(v@.subrange(0, dash as int) =~= v@.take(dash as int));
    assert(v@.subrange(dash + 1, v.len() as int) =~= v@.skip(dash + 1));
    let cont = upper_vec(slice_vec(v, 0, dash).as_slice());
    let table = continent_table();
    if !is_one_of(table.as_slice(), cont.as_slice()) {
        return None;
    }
    let n = v.len() - (dash + 1);
    if n == 0 || n > 3 {
        return None;
    }
    let value = match parse_digits(v, dash + 1, v.len(), 999) {
        Some(x) => x,
        None => {
            proof {
                let num = v@.skip(dash + 1);
                if all_digits(num) {
                    lemma_three_digits(num);
                }
            }
            return None;
        },
    };
    let mut out = cont;
    out.push('-');
    if value < 10 {
        out.push('0');
        out.push('0');
    } else if value < 100 {
        out.push('0');
    }
    push_decimal(&mut out, value);
    proof {
        reveal_strlit("-");
        reveal_strlit("0");
        reveal_strlit("00");
    }
    assert(out@ =~= upper(v@.take(dash as int)) + "-"@ + pad3(value as nat));
    Some(out)
}

proof fn lemma_three_digits(num: Seq<char>)
    requires
        num.len() <= 3,
        all_digits(num),
    ensures
        digits_value(num) <= 999,
{
    lemma_small_digits(num);
}

proof fn lemma_small_digits(num: Seq<char>)
    requires
        all_digits(num),
    ensures
        num.len() <= 1 ==> digits_value(num) <= 9,
        num.len() <= 2 ==> digits_value(num) <= 99,
        num.len() <= 3 ==> digits_value(num) <= 999,
    decreases num.len(),
{
    if num.len() > 0 {
        assert(all_digits(num.drop_last()));
        lemma_small_digits(num.drop_last());
        assert(crate::text::is_digit(num.last()));
    }
}

fn continent_table() -> (v: Vec<&'static str>)
    ensures
        v@ == continents(),
{
    let v = vec!["AF", "AN", "AS", "EU", "NA", "OC", "SA"];
    assert(v@ =~= continents());
    v
}

/// What separates tokens of a spot comment.
pub open spec fn is_sep(c: char) -> bool {
    is_ws(c) || c == ',' || c == ';' || c == '(' || c == ')'
}

/// Index of the first separator in `s` (its length when there is none).
pub open spec fn sep_index(s: Seq<char>) -> int
    decreases s.len(),
{
    if s.len() == 0 {
        0
    } else if is_sep(s[0]) {
        0
    } else {
        1 + sep_index(s.drop_first())
    }
}

proof fn lemma_sep_index(s: Seq<char>, r: int)
    requires
        0 <= r <= s.len(),
        forall|j: int| 0 <= j < r ==> !is_sep(s[j]),
        r < s.len() ==> is_sep(s[r]),
    ensures
        sep_index(s) == r,
    decreases s.len(),
{
    if r > 0 {
        lemma_sep_index(s.drop_first(), r - 1);
    }
}

/// The first token of `s` (split at separators, left to right) that is an
/// IOTA reference, normalised.
pub open spec fn iota_in_text(s: Seq<char>) -> Option<Seq<char>>
    decreases s.len(),
{
    let i = sep_index(s);
    if 0 <= i < s.len() {
        match iota_spec(s.take(i)) {
            Some(r) => Some(r),
            None => iota_in_text(s.skip(i + 1)),
        }
    } else {
        iota_spec(s)
    }
}

/// The first IOTA reference in free text ("CQ IOTA as-153" → `AS-153`).
/// Token-based, so `NA-1234` (too long) and `DATA-15` (not a continent)
/// stay out.
pub fn find_iota_ref(text: &str) -> (r: Option<String>)
    ensures
        match r {
            Some(s) => iota_in_text(text@) == Some(s@),
            None => iota_in_text(text@) is None,
        },
{
    let v = chars_of(text);
    let mut start: usize = 0;
    assert(v@.skip(0) =~= v@);
    loop
        invariant
            start <= v.len(),
            iota_in_text(text@) == iota_in_text(v@.skip(start as int)),
            v@ == text@,
        decreases v.len() - start,
    {
        let ghost rest = v@.skip(start as int);
        let mut j = start;
        while j < v.len() && !(is_ws_char(v[j]) || v[j] == ',' || v[j] == ';' || v[j] == '('
            || v[j] == ')')
            invariant
                start <= j <= v.len(),
                rest == v@.skip(start as int),
                forall|q: int| start <= q < j ==> !is_sep(v@[q]),
            decreases v.len() - j,
        {
            j = j + 1;
        }
        proof {
            lemma_sep_index(rest, j - start);
        }
        let tok = slice_vec(v.as_slice(), start, j);
        assert(tok@ =~= rest.take(j - start));
        match iota_of(tok.as_slice()) {
            Some(out) => {
                if j >= v.len() {
                    assert(rest.take(j - start) =~= rest);
                }
                return Some(crate::text::string_of(out.as_slice()));
            },
            None => {},
        }
        if j >= v.len() {
            assert(rest.take(j - start) =~= rest);
            return None;
        }
        assert(rest.skip(j - start + 1) =~= v@.skip(j + 1));
        start = j + 1;
    }
}

// ---------------------------------------------------------------------------
// Call → state table
// ---------------------------------------------------------------------------

/// The call a table line starts with: up to its first space.
pub open spec fn line_call(line: Seq<char>) -> Seq<char> {
    line.take(find(line, ' '))
}

/// The state a table line gives: after its first space, trimmed; `None`
/// when there is no space or nothing after it.
pub open spec fn line_state(line: Seq<char>) -> Option<Seq<char>> {
    match split_once(line, ' ') {
        Some((_, st)) => if trim(st).len() > 0 {
            Some(trim(st))
        } else {
            None
        },
        None => None,
    }
}

/// The state of the first line whose call is `call`; `None` when no line
/// has it or that line gives no state.
pub open spec fn exact_state(lines: Seq<Seq<char>>, call: Seq<char>) -> Option<Seq<char>>
    decreases lines.len(),
{
    if lines.len() == 0 {
        None
    } else if line_call(lines[0]) == call {
        line_state(lines[0])
    } else {
        exact_state(lines.drop_first(), call)
    }
}

/// A call's state: exact, then the part before the first `/`, then the
/// part after it — on the trimmed, ASCII-uppercased call.
pub open spec fn state_of(lines: Seq<Seq<char>>, callsign: Seq<char>) -> Option<Seq<char>> {
    let up = upper(trim(callsign));
    match exact_state(lines, up) {
        Some(s) => Some(s),
        None => match split_once(up, '/') {
            Some((bare, suffix)) => match exact_state(lines, bare) {
                Some(s) => Some(s),
                None => exact_state(lines, suffix),
            },
            None => None,
        },
    }
}

/// The first line naming `call` decides its state.
proof fn lemma_exact_state_at(lines: Seq<Seq<char>>, call: Seq<char>, i: int)
    requires
        0 <= i < lines.len(),
        line_call(lines[i]) == call,
        forall|j: int| 0 <= j < i ==> line_call(#[trigger] lines[j]) != call,
    ensures
        exact_state(lines, call) == line_state(lines[i]),
    decreases i,
{
    if i > 0 {
        assert forall|j: int| 0 <= j < i - 1 implies line_call(#[trigger] lines.drop_first()[j]) != call by {
            assert(lines.drop_first()[j] == lines[j + 1]);
        }
        lemma_exact_state_at(lines.drop_first(), call, i - 1);
    }
}

/// No line names `call`: no state.
proof fn lemma_exact_state_none(lines: Seq<Seq<char>>, call: Seq<char>)
    requires
        forall|j: int| 0 <= j < lines.len() ==> line_call(#[trigger] lines[j]) != call,
    ensures
        exact_state(lines, call) is None,
    decreases lines.len(),
{
    if lines.len() > 0 {
        assert forall|j: int| 0 <= j < lines.len() - 1 implies line_call(#[trigger] lines.drop_first()[j]) != call by {
            assert(lines.drop_first()[j] == lines[j + 1]);
        }
        lemma_exact_state_none(lines.drop_first(), call);
    }
}

/// A table entry holds its line's call and state.
pub open spec fn entry_ok(e: (String, Option<String>), line: Seq<char>) -> bool {
    &&& e.0@ == line_call(line)
    &&& match e.1 {
        Some(s) => line_state(line) == Some(s@),
        None => line_state(line) is None,
    }
}

/// No two lines name the same call.
pub open spec fn distinct_calls(lines: Seq<Seq<char>>) -> bool {
    forall|i: int, j: int| 0 <= i < j < lines.len() ==> line_call(#[trigger] lines[i]) != line_call(#[trigger] lines[j])
}

/// With distinct calls, a line's own call finds that line.
proof fn lemma_exact_state_distinct(lines: Seq<Seq<char>>, i: int)
    requires
        distinct_calls(lines),
        0 <= i < lines.len(),
    ensures
        exact_state(lines, line_call(lines[i])) == line_state(lines[i]),
{
    assert forall|j: int| 0 <= j < i implies line_call(#[trigger] lines[j]) != line_call(lines[i]) by {}
    lemma_exact_state_at(lines, line_call(lines[i]), i);
}

/// A state table does not depend on the order of its lines: where no two
/// lines name the same call, every line's call looks up that line's state,
/// and two tables holding the same lines in any order answer every lookup
/// alike.
pub proof fn law_state_table_ignores_line_order(a: Seq<Seq<char>>, b: Seq<Seq<char>>, callsign: Seq<char>)
    requires
        distinct_calls(a),
        distinct_calls(b),
        forall|l: Seq<char>| a.contains(l) <==> b.contains(l),
    ensures
        forall|i: int| 0 <= i < a.len() ==> exact_state(a, line_call(#[trigger] a[i])) == line_state(a[i]),
        state_of(a, callsign) == state_of(b, callsign),
{
    assert forall|i: int| 0 <= i < a.len() implies exact_state(a, line_call(#[trigger] a[i])) == line_state(a[i]) by {
        lemma_exact_state_distinct(a, i);
    }
    assert forall|c: Seq<char>| #[trigger] exact_state(a, c) == exact_state(b, c) by {
        lemma_same_lines_same_state(a, b, c);
    }
}

proof fn lemma_same_lines_same_state(a: Seq<Seq<char>>, b: Seq<Seq<char>>, c: Seq<char>)
    requires
        distinct_calls(a),
        distinct_calls(b),
        forall|l: Seq<char>| a.contains(l) <==> b.contains(l),
    ensures
        exact_state(a, c) == exact_state(b, c),
{
    if exists|i: int| 0 <= i < a.len() && line_call(#[trigger] a[i]) == c {
        let i = choose|i: int| 0 <= i < a.len() && line_call(#[trigger] a[i]) == c;
        assert(a.contains(a[i]));
        assert(b.contains(a[i]));
        let j = choose|j: int| 0 <= j < b.len() && b[j] == a[i];
        lemma_exact_state_distinct(a, i);
        lemma_exact_state_distinct(b, j);
    } else if exists|j: int| 0 <= j < b.len() && line_call(#[trigger] b[j]) == c {
        let j = choose|j: int| 0 <= j < b.len() && line_call(#[trigger] b[j]) == c;
        assert(b.contains(b[j]));
        assert(a.contains(b[j]));
        let i = choose|i: int| 0 <= i < a.len() && a[i] == b[j];
        assert(line_call(a[i]) == c);
    } else {
        lemma_exact_state_none(a, c);
        lemma_exact_state_none(b, c);
    }
}

/// The calls of the lines, strictly ascending.
pub open spec fn calls_ascending(lines: Seq<Seq<char>>) -> bool {
    forall|i: int, j: int| 0 <= i < j < lines.len() ==> lex_lt(line_call(#[trigger] lines[i]), line_call(#[trigger] lines[j]))
}

/// Call → US state over the distilled FCC text: one `CALL ST` per line.
/// The distilled text comes sorted by call, and is then searched by
/// halving; a table whose calls are out of order (edited by hand) is
/// searched line by line instead, with the same answers.
pub struct StateTable {
    entries: Vec<(String, Option<String>)>,
    ascending: bool,
    lines: Ghost<Seq<Seq<char>>>,
}

impl StateTable {
    /// The non-empty lines of the text it was built from, in order.
    pub closed spec fn lines(&self) -> Seq<Seq<char>> {
        self.lines@
    }

    #[verifier::type_invariant]
    closed spec fn inv(&self) -> bool {
        &&& self.entries@.len() == self.lines@.len()
        &&& forall|i: int| 0 <= i < self.entries@.len() ==> entry_ok(#[trigger] self.entries@[i], self.lines@[i])
        &&& self.ascending ==> calls_ascending(self.lines@)
    }

    /// Build from distilled text; every non-empty line is kept.
    #[verifier::spinoff_prover]
    #[verifier::rlimit(30)]
    pub fn parse(data: String) -> (t: StateTable)
        ensures
            t.lines() == split_nonempty(data@, '\n'),
    {
        let v = chars_of(data.as_str());
        let parts = split_nonempty_vec(v.as_slice(), '\n');
        let ghost lines = split_nonempty(data@, '\n');
        let mut entries: Vec<(String, Option<String>)> = Vec::new();
        let mut ascending = true;
        let mut prev: Vec<char> = Vec::new();
        let mut i: usize = 0;
        while i < parts.len()
            invariant
                i <= parts.len(),
                parts@.len() == lines.len(),
                forall|k: int| 0 <= k < parts@.len() ==> #[trigger] parts@[k]@ == lines[k],
                entries@.len() == i,
                forall|k: int| 0 <= k < i ==> entry_ok(#[trigger] entries@[k], lines[k]),
                i > 0 ==> prev@ == line_call(lines[i - 1]),
                ascending ==> calls_ascending(lines.take(i as int)),
            decreases parts.len() - i,
        {
            let line = parts[i].as_slice();
            let sp = crate::text::find_char(line, 0, line.len(), ' ');
            assert(line@.subrange(0, line.len() as int) =~= line@);
            assert(line@.subrange(0, sp as int) =~= line@.take(sp as int));
            let call_chars = slice_vec(line, 0, sp);
            let call = crate::text::string_of_range(line, 0, sp);
            let state: Option<String> = if sp < line.len() {
                let (lo, hi) = crate::text::trim_range(line, sp + 1, line.len());
                assert(line@.subrange(sp + 1, line.len() as int) =~= line@.skip(sp + 1));
                if hi > lo {
                    Some(crate::text::string_of_range(line, lo, hi))
                } else {
                    None
                }
            } else {
                None
            };
            if ascending && i > 0 {
                let c = crate::fcc::lex_compare(prev.as_slice(), call_chars.as_slice());
                if c < 0 {
                    proof {
                        let t = lines.take(i + 1);
                        assert forall|a: int, b: int| 0 <= a < b < t.len() implies lex_lt(
                            line_call(#[trigger] t[a]),
                            line_call(#[trigger] t[b]),
                        ) by {
                            assert(t[a] == lines[a] && t[b] == lines[b]);
                            if b < i {
                                assert(lines.take(i as int)[a] == lines[a] && lines.take(i as int)[b] == lines[b]);
                            } else if a < i - 1 {
                                assert(lines.take(i as int)[a] == lines[a]);
                                assert(lines.take(i as int)[i - 1] == lines[i - 1]);
                                crate::fcc::lemma_lex_transitive(
                                    line_call(lines[a]),
                                    line_call(lines[i - 1]),
                                    line_call(lines[b]),
                                );
                            }
                        }
                    }
                } else {
                    ascending = false;
                }
            } else if ascending {
                assert(calls_ascending(lines.take(1)));
            }
            proof {
                assert(parts@[i as int]@ == lines[i as int]);
            }
            let e = (call, state);
            assert(entry_ok(e, lines[i as int]));
            let ghost before = entries@;
            entries.push(e);
            proof {
                assert forall|k: int| 0 <= k < i + 1 implies entry_ok(#[trigger] entries@[k], lines[k]) by {
                    if k < i {
                        assert(entries@[k] == before[k]);
                    }
                }
            }
            prev = call_chars;
            i = i + 1;
        }
        assert(lines.take(parts.len() as int) =~= lines);
        assert(ascending ==> calls_ascending(lines));
        StateTable { entries, ascending, lines: Ghost(lines) }
    }

    pub fn len(&self) -> (n: usize)
        ensures
            n == self.lines().len(),
    {
        proof {
            use_type_invariant(self);
        }
        self.entries.len()
    }

    pub fn is_empty(&self) -> (r: bool)
        ensures
            r == (self.lines().len() == 0),
    {
        proof {
            use_type_invariant(self);
        }
        self.entries.len() == 0
    }

    /// The state for a call — exact, then bare-before-slash, then
    /// after-slash.
    pub fn lookup(&self, callsign: &str) -> (r: Option<&str>)
        ensures
            match r {
                Some(s) => state_of(self.lines(), callsign@) == Some(s@),
                None => state_of(self.lines(), callsign@) is None,
            },
    {
        let v = chars_of(callsign);
        let t = trim_vec(v.as_slice());
        let up = upper_vec(t.as_slice());
        match self.lookup_exact(up.as_slice()) {
            Some(s) => return Some(s),
            None => {},
        }
        let slash = crate::text::find_char(up.as_slice(), 0, up.len(), '/');
        assert(up@.subrange(0, up.len() as int) =~= up@);
        if slash >= up.len() {
            return None;
        }
        let bare = slice_vec(up.as_slice(), 0, slash);
        let suffix = slice_vec(up.as_slice(), slash + 1, up.len());
        assert(bare@ =~= up@.take(slash as int));
        assert(suffix@ =~= up@.skip(slash + 1));
        match self.lookup_exact(bare.as_slice()) {
            Some(s) => Some(s),
            None => self.lookup_exact(suffix.as_slice()),
        }
    }

    fn state_at(&self, i: usize) -> (r: Option<&str>)
        requires
            i < self.lines().len(),
        ensures
            match r {
                Some(s) => line_state(self.lines()[i as int]) == Some(s@),
                None => line_state(self.lines()[i as int]) is None,
            },
    {
        proof {
            use_type_invariant(self);
            assert(entry_ok(self.entries@[i as int], self.lines@[i as int]));
        }
        match &self.entries[i].1 {
            Some(s) => Some(s.as_str()),
            None => None,
        }
    }

    fn lookup_exact(&self, call: &[char]) -> (r: Option<&str>)
        ensures
            match r {
                Some(s) => exact_state(self.lines(), call@) == Some(s@),
                None => exact_state(self.lines(), call@) is None,
            },
    {
        proof {
            use_type_invariant(self);
        }
        if self.ascending {
            self.search_sorted(call)
        } else {
            self.search_lines(call)
        }
    }

    /// Halving search over calls known to ascend.
    fn search_sorted(&self, call: &[char]) -> (r: Option<&str>)
        requires
            calls_ascending(self.lines()),
        ensures
            match r {
                Some(s) => exact_state(self.lines(), call@) == Some(s@),
                None => exact_state(self.lines(), call@) is None,
            },
    {
        proof {
            use_type_invariant(self);
        }
        let ghost ls = self.lines@;
        let mut lo: usize = 0;
        let mut hi: usize = self.entries.len();
        while lo < hi
            invariant
                lo <= hi <= self.entries@.len(),
                self.entries@.len() == ls.len(),
                ls == self.lines@,
                calls_ascending(ls),
                forall|i: int| 0 <= i < self.entries@.len() ==> entry_ok(#[trigger] self.entries@[i], ls[i]),
                forall|j: int| 0 <= j < lo ==> lex_lt(line_call(#[trigger] ls[j]), call@),
                forall|j: int| hi <= j < ls.len() ==> lex_lt(call@, line_call(#[trigger] ls[j])),
            decreases hi - lo,
        {
            let mid = lo + (hi - lo) / 2;
            let key = chars_of(self.entries[mid].0.as_str());
            assert(entry_ok(self.entries@[mid as int], ls[mid as int]));
            let c = crate::fcc::lex_compare(key.as_slice(), call);
            if c == 0 {
                proof {
                    assert forall|j: int| 0 <= j < mid implies line_call(#[trigger] ls[j]) != call@ by {
                        crate::fcc::lemma_lex_irreflexive(call@);
                        assert(lex_lt(line_call(ls[j]), line_call(ls[mid as int])));
                    }
                    lemma_exact_state_at(ls, call@, mid as int);
                }
                return self.state_at(mid);
            } else if c < 0 {
                proof {
                    assert forall|j: int| 0 <= j < mid + 1 implies lex_lt(line_call(#[trigger] ls[j]), call@) by {
                        if j < mid {
                            assert(lex_lt(line_call(ls[j]), line_call(ls[mid as int])));
                            crate::fcc::lemma_lex_transitive(line_call(ls[j]), line_call(ls[mid as int]), call@);
                        }
                    }
                }
                lo = mid + 1;
            } else {
                proof {
                    assert forall|j: int| mid <= j < ls.len() implies lex_lt(call@, line_call(#[trigger] ls[j])) by {
                        if j > mid {
                            assert(lex_lt(line_call(ls[mid as int]), line_call(ls[j])));
                            crate::fcc::lemma_lex_transitive(call@, line_call(ls[mid as int]), line_call(ls[j]));
                        }
                    }
                }
                hi = mid;
            }
        }
        proof {
            assert forall|j: int| 0 <= j < ls.len() implies line_call(#[trigger] ls[j]) != call@ by {
                crate::fcc::lemma_lex_irreflexive(call@);
            }
            lemma_exact_state_none(ls, call@);
        }
        None
    }

    /// Line-by-line search, for calls out of order.
    fn search_lines(&self, call: &[char]) -> (r: Option<&str>)
        ensures
            match r {
                Some(s) => exact_state(self.lines(), call@) == Some(s@),
                None => exact_state(self.lines(), call@) is None,
            },
    {
        proof {
            use_type_invariant(self);
        }
        let mut i: usize = 0;
        assert(self.lines@.skip(0) =~= self.lines@);
        while i < self.entries.len()
            invariant
                i <= self.entries.len(),
                self.entries@.len() == self.lines@.len(),
                forall|k: int| 0 <= k < self.entries@.len() ==> entry_ok(#[trigger] self.entries@[k], self.lines@[k]),
                exact_state(self.lines@, call@) == exact_state(self.lines@.skip(i as int), call@),
            decreases self.entries.len() - i,
        {
            assert(self.lines@.skip(i as int).drop_first() =~= self.lines@.skip(i + 1));
            assert(self.lines@.skip(i as int)[0] == self.lines@[i as int]);
            let c = chars_of(self.entries[i].0.as_str());
            assert(entry_ok(self.entries@[i as int], self.lines@[i as int]));
            if chars_eq(c.as_slice(), call) {
                return match &self.entries[i].1 {
                    Some(s) => Some(s.as_str()),
                    None => None,
                };
            }
            i = i + 1;
        }
        None
    }
}

} // verus!

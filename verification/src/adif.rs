//! ADIF v1/v2 text parser.
//!
//! Format: `<TAG:length[:type]>value`, records terminated by `<eor>`, an
//! optional header ended by `<eoh>`. Two behaviours are kept on purpose:
//!  - lengths count **characters**, not bytes (matters for non-ASCII names);
//!  - header fields before `<eoh>` are not cleared and end up in the first
//!    record; harmless because headers carry no CALL/BAND/MODE.

use crate::cty::{civil_unix, civil_unix_spec};
use crate::text::{
    chars_of, digits_value, find, find_char, lemma_find_props, parse_digits, parse_signed,
    parse_unsigned, string_of_range, to_lower, to_upper, unicode_lower, unicode_upper, all_digits,
};
use vstd::prelude::*;

verus! {

/// One ADIF record: field name (uppercased) → value.
#[derive(Debug, Clone, Default, PartialEq)]
pub struct Record {
    fields: Vec<(String, String)>,
}

/// The pairs of a field list, as character sequences.
pub open spec fn pairs_view(v: Seq<(String, String)>) -> Seq<(Seq<char>, Seq<char>)> {
    v.map_values(|p: (String, String)| (p.0@, p.1@))
}

/// The value stored under `k` — the first pair with that name.
pub open spec fn lookup(v: Seq<(Seq<char>, Seq<char>)>, k: Seq<char>) -> Option<Seq<char>>
    decreases v.len(),
{
    if v.len() == 0 {
        None
    } else if v[0].0 == k {
        Some(v[0].1)
    } else {
        lookup(v.drop_first(), k)
    }
}

pub open spec fn map_of(v: Seq<(Seq<char>, Seq<char>)>) -> Map<Seq<char>, Seq<char>> {
    Map::new(|k: Seq<char>| lookup(v, k) is Some, |k: Seq<char>| lookup(v, k)->0)
}

impl View for Record {
    type V = Map<Seq<char>, Seq<char>>;

    closed spec fn view(&self) -> Map<Seq<char>, Seq<char>> {
        map_of(pairs_view(self.fields@))
    }
}

proof fn lemma_lookup_index(v: Seq<(Seq<char>, Seq<char>)>, k: Seq<char>, i: int)
    requires
        0 <= i < v.len(),
        v[i].0 == k,
        forall|j: int| 0 <= j < i ==> v[j].0 != k,
    ensures
        lookup(v, k) == Some(v[i].1),
    decreases v.len(),
{
    if i > 0 {
        lemma_lookup_index(v.drop_first(), k, i - 1);
    }
}

proof fn lemma_lookup_absent(v: Seq<(Seq<char>, Seq<char>)>, k: Seq<char>)
    requires
        forall|j: int| 0 <= j < v.len() ==> v[j].0 != k,
    ensures
        lookup(v, k) is None,
    decreases v.len(),
{
    if v.len() > 0 {
        lemma_lookup_absent(v.drop_first(), k);
    }
}

proof fn lemma_lookup_update(v: Seq<(Seq<char>, Seq<char>)>, i: int, val: Seq<char>, k: Seq<char>)
    requires
        0 <= i < v.len(),
        forall|j: int| 0 <= j < i ==> v[j].0 != v[i].0,
    ensures
        lookup(v.update(i, (v[i].0, val)), k) == (if k == v[i].0 {
            Some(val)
        } else {
            lookup(v, k)
        }),
    decreases v.len(),
{
    reveal_with_fuel(lookup, 2);
    if i > 0 {
        assert(v.update(i, (v[i].0, val)).drop_first() =~= v.drop_first().update(
            i - 1,
            (v[i].0, val),
        ));
        lemma_lookup_update(v.drop_first(), i - 1, val, k);
    } else {
        assert(v.update(i, (v[i].0, val)).drop_first() =~= v.drop_first());
    }
}

proof fn lemma_lookup_push(v: Seq<(Seq<char>, Seq<char>)>, p: (Seq<char>, Seq<char>), k: Seq<char>)
    ensures
        lookup(v.push(p), k) == (if lookup(v, k) is Some {
            lookup(v, k)
        } else if p.0 == k {
            Some(p.1)
        } else {
            None
        }),
    decreases v.len(),
{
    reveal_with_fuel(lookup, 2);
    if v.len() > 0 {
        assert(v.push(p).drop_first() =~= v.drop_first().push(p));
        lemma_lookup_push(v.drop_first(), p, k);
    } else {
        assert(v.push(p).drop_first() =~= Seq::<(Seq<char>, Seq<char>)>::empty());
        assert(v.push(p)[0] == p);
    }
}

impl Record {
    pub fn new() -> (r: Record)
        ensures
            r@ == Map::<Seq<char>, Seq<char>>::empty(),
    {
        let r = Record { fields: Vec::new() };
        assert(r@ =~= Map::<Seq<char>, Seq<char>>::empty());
        r
    }

    /// Number of fields held.
    pub fn len(&self) -> (n: usize)
        ensures
            (n == 0) == (self@ == Map::<Seq<char>, Seq<char>>::empty()),
    {
        if self.fields.len() > 0 {
            let ghost v = pairs_view(self.fields@);
            assert(v[0] == (self.fields@[0].0@, self.fields@[0].1@));
            proof {
                lemma_lookup_index(v, v[0].0, 0);
            }
            assert(self@.contains_key(v[0].0));
        } else {
            assert(self@ =~= Map::<Seq<char>, Seq<char>>::empty());
        }
        self.fields.len()
    }

    /// Store `value` under `name`, replacing any earlier value.
    pub fn insert(&mut self, name: String, value: String)
        ensures
            final(self)@ == old(self)@.insert(name@, value@),
    {
        let ghost old_v = pairs_view(self.fields@);
        let n = self.fields.len();
        let mut i: usize = 0;
        while i < n
            invariant
                n == self.fields.len(),
                self.fields@ == old(self).fields@,
                old_v == pairs_view(self.fields@),
                i <= n,
                forall|j: int| 0 <= j < i ==> self.fields@[j].0@ != name@,
            decreases n - i,
        {
            if crate::text::str_eq(self.fields[i].0.as_str(), name.as_str()) {
                let ghost before = self.fields@;
                let key = self.fields[i].0.clone();
                self.fields.set(i, (key, value));
                proof {
                    assert(pairs_view(self.fields@) =~= old_v.update(i as int, (old_v[i as int].0, value@)));
                    assert forall|k: Seq<char>| #[trigger] lookup(pairs_view(self.fields@), k) == (if k == name@ {
                        Some(value@)
                    } else {
                        lookup(old_v, k)
                    }) by {
                        lemma_lookup_update(old_v, i as int, value@, k);
                    }
                    assert(self@ =~= old(self)@.insert(name@, value@));
                }
                return;
            }
            i = i + 1;
        }
        let ghost nm = name@;
        let ghost vl = value@;
        self.fields.push((name, value));
        proof {
            assert(pairs_view(self.fields@) =~= old_v.push((nm, vl)));
            assert forall|k: Seq<char>| #[trigger] lookup(pairs_view(self.fields@), k) == (if k == nm {
                Some(vl)
            } else {
                lookup(old_v, k)
            }) by {
                lemma_lookup_push(old_v, (nm, vl), k);
                if k == nm {
                    lemma_lookup_absent(old_v, k);
                }
            }
            assert(self@ =~= old(self)@.insert(nm, vl));
        }
    }

    /// The raw value of field `key` (an uppercase ADIF name).
    pub fn field(&self, key: &str) -> (r: Option<&str>)
        ensures
            match r {
                Some(v) => self@.contains_key(key@) && v@ == self@[key@],
                None => !self@.contains_key(key@),
            },
    {
        let ghost v = pairs_view(self.fields@);
        let mut i: usize = 0;
        while i < self.fields.len()
            invariant
                i <= self.fields.len(),
                v == pairs_view(self.fields@),
                forall|j: int| 0 <= j < i ==> v[j].0 != key@,
            decreases self.fields.len() - i,
        {
            if crate::text::str_eq(self.fields[i].0.as_str(), key) {
                proof {
                    lemma_lookup_index(v, key@, i as int);
                }
                return Some(self.fields[i].1.as_str());
            }
            i = i + 1;
        }
        proof {
            lemma_lookup_absent(v, key@);
        }
        None
    }

    /// The value of `key`, Unicode-uppercased.
    fn upper(&self, key: &str) -> (r: Option<String>)
        ensures
            match r {
                Some(s) => self@.contains_key(key@) && s@ == unicode_upper(self@[key@]),
                None => !self@.contains_key(key@),
            },
    {
        match self.field(key) {
            Some(v) => Some(to_upper(v)),
            None => None,
        }
    }

    pub fn call(&self) -> (r: Option<String>)
        ensures
            r_upper(self@, "CALL"@, r),
    {
        self.upper("CALL")
    }

    pub fn band(&self) -> (r: Option<String>)
        ensures
            r_upper(self@, "BAND"@, r),
    {
        self.upper("BAND")
    }

    pub fn mode(&self) -> (r: Option<String>)
        ensures
            r_upper(self@, "MODE"@, r),
    {
        self.upper("MODE")
    }

    pub fn grid_square(&self) -> (r: Option<String>)
        ensures
            r_upper(self@, "GRIDSQUARE"@, r),
    {
        self.upper("GRIDSQUARE")
    }

    /// WAS subdivision code, uppercased.
    pub fn state(&self) -> (r: Option<String>)
        ensures
            r_upper(self@, "STATE"@, r),
    {
        self.upper("STATE")
    }

    /// IOTA reference as logged (normalised by whoever records it).
    pub fn iota(&self) -> (r: Option<&str>)
        ensures
            r_raw(self@, "IOTA"@, r),
    {
        self.field("IOTA")
    }

    /// `YYYYMMDD` as ADIF wrote it.
    pub fn qso_date(&self) -> (r: Option<&str>)
        ensures
            r_raw(self@, "QSO_DATE"@, r),
    {
        self.field("QSO_DATE")
    }

    /// `HHMMSS` or `HHMM` as ADIF wrote it.
    pub fn time_on(&self) -> (r: Option<&str>)
        ensures
            r_raw(self@, "TIME_ON"@, r),
    {
        self.field("TIME_ON")
    }

    /// The DXCC entity the logger recorded, when it parses as an `i32`.
    pub fn dxcc(&self) -> (r: Option<i32>)
        ensures
            r == field_i32(self@, "DXCC"@),
    {
        self.int_field("DXCC")
    }

    /// The CQ zone the logger recorded, when it parses as an `i32`.
    pub fn cqz(&self) -> (r: Option<i32>)
        ensures
            r == field_i32(self@, "CQZ"@),
    {
        self.int_field("CQZ")
    }

    fn int_field(&self, key: &str) -> (r: Option<i32>)
        ensures
            r == field_i32(self@, key@),
    {
        match self.field(key) {
            Some(v) => parse_i32(v),
            None => None,
        }
    }

    /// The calendar year of `QSO_DATE` (its first four characters).
    pub fn qso_year(&self) -> (r: Option<i32>)
        ensures
            r == qso_year_spec(self@),
    {
        match self.field("QSO_DATE") {
            Some(d) => {
                let v = chars_of(d);
                if v.len() < 4 {
                    return None;
                }
                proof {
                    crate::cty::lemma_digits_below(v@.subrange(0, 4));
                    assert(v@.subrange(0, 4) =~= v@.take(4));
                }
                match parse_digits(v.as_slice(), 0, 4, 9999) {
                    Some(y) => Some(y as i32),
                    None => None,
                }
            },
            None => None,
        }
    }

    /// Unix seconds of the contact: `QSO_DATE` (`YYYYMMDD`) plus `TIME_ON`
    /// (`HHMM` or `HHMMSS`, midnight when the field is absent). `None` when
    /// either is malformed or the date is missing.
    pub fn qso_datetime_unix(&self) -> (r: Option<i64>)
        ensures
            r == qso_unix_spec(self@),
    {
        let d = match self.field("QSO_DATE") {
            Some(d) => chars_of(d),
            None => return None,
        };
        if d.len() != 8 {
            return None;
        }
        proof {
            crate::cty::lemma_digits_below(d@.subrange(0, 4));
            crate::cty::lemma_digits_below(d@.subrange(4, 6));
            crate::cty::lemma_digits_below(d@.subrange(6, 8));
        }
        let y = match parse_digits(d.as_slice(), 0, 4, 9999) {
            Some(x) => x,
            None => return None,
        };
        let mo = match parse_digits(d.as_slice(), 4, 6, 99) {
            Some(x) => x,
            None => return None,
        };
        let dd = match parse_digits(d.as_slice(), 6, 8, 99) {
            Some(x) => x,
            None => return None,
        };
        if mo < 1 || mo > 12 || dd < 1 || dd > 31 {
            return None;
        }
        let (h, mi, s) = match self.field("TIME_ON") {
            None => (0u64, 0u64, 0u64),
            Some(t) => {
                let tv = chars_of(t);
                if tv.len() != 4 && tv.len() != 6 {
                    return None;
                }
                proof {
                    crate::cty::lemma_digits_below(tv@.subrange(0, 2));
                    crate::cty::lemma_digits_below(tv@.subrange(2, 4));
                    if tv.len() == 6 {
                        crate::cty::lemma_digits_below(tv@.subrange(4, 6));
                    }
                }
                let h = match parse_digits(tv.as_slice(), 0, 2, 99) {
                    Some(x) => x,
                    None => return None,
                };
                let mi = match parse_digits(tv.as_slice(), 2, 4, 99) {
                    Some(x) => x,
                    None => return None,
                };
                let s = if tv.len() == 6 {
                    match parse_digits(tv.as_slice(), 4, 6, 99) {
                        Some(x) => x,
                        None => return None,
                    }
                } else {
                    0
                };
                (h, mi, s)
            },
        };
        Some(civil_unix(y as i64, mo as i64, dd as i64, h as i64, mi as i64, s as i64))
    }

    /// Confirmed if LoTW/QSL/eQSL received is `Y` (or `V`, verified), or
    /// ClubLog's own matched flag is set. Values compared uppercased.
    pub fn is_confirmed(&self) -> (r: bool)
        ensures
            r == confirmed_spec(self@),
    {
        let keys = ["LOTW_QSL_RCVD", "QSL_RCVD", "EQSL_QSL_RCVD"];
        let mut i: usize = 0;
        while i < 3
            invariant
                i <= 3,
                keys@ == seq!["LOTW_QSL_RCVD", "QSL_RCVD", "EQSL_QSL_RCVD"],
                forall|j: int| 0 <= j < i ==> !yes_or_verified(self@, #[trigger] keys@[j]@),
            decreases 3 - i,
        {
            if let Some(v) = self.upper(keys[i]) {
                let c = chars_of(v.as_str());
                if crate::text::eq_lit(c.as_slice(), "Y") || crate::text::eq_lit(c.as_slice(), "V") {
                    return true;
                }
            }
            i = i + 1;
        }
        match self.upper("APP_CLUBLOG_QSO_QSL") {
            Some(v) => {
                let c = chars_of(v.as_str());
                crate::text::eq_lit(c.as_slice(), "Y")
            },
            None => false,
        }
    }
}

/// `r` is the uppercased value of field `k`, or `None` when it is absent.
pub open spec fn r_upper(m: Map<Seq<char>, Seq<char>>, k: Seq<char>, r: Option<String>) -> bool {
    match r {
        Some(s) => m.contains_key(k) && s@ == unicode_upper(m[k]),
        None => !m.contains_key(k),
    }
}

/// `r` is the raw value of field `k`, or `None` when it is absent.
pub open spec fn r_raw(m: Map<Seq<char>, Seq<char>>, k: Seq<char>, r: Option<&str>) -> bool {
    match r {
        Some(s) => m.contains_key(k) && s@ == m[k],
        None => !m.contains_key(k),
    }
}

/// `str::parse::<i32>`.
pub open spec fn parse_i32_spec(s: Seq<char>) -> Option<int> {
    parse_signed(s, 2147483648, 2147483647)
}

pub open spec fn field_i32(m: Map<Seq<char>, Seq<char>>, k: Seq<char>) -> Option<i32> {
    if m.contains_key(k) {
        match parse_i32_spec(m[k]) {
            Some(v) => Some(v as i32),
            None => None,
        }
    } else {
        None
    }
}

/// `s.parse::<i32>().ok()`.
pub fn parse_i32(s: &str) -> (r: Option<i32>)
    ensures
        r == (match parse_i32_spec(s@) {
            Some(v) => Some(v as i32),
            None => None,
        }),
{
    let v = chars_of(s);
    let n = v.len();
    if n > 0 && v[0] == '-' {
        assert(v@.subrange(1, n as int) =~= v@.drop_first());
        match parse_digits(v.as_slice(), 1, n, 2147483648) {
            Some(x) => Some((0 - (x as i64)) as i32),
            None => None,
        }
    } else if n > 0 && v[0] == '+' {
        assert(v@.subrange(1, n as int) =~= v@.drop_first());
        match parse_digits(v.as_slice(), 1, n, 2147483647) {
            Some(x) => Some(x as i32),
            None => None,
        }
    } else {
        assert(v@.subrange(0, n as int) =~= v@);
        match parse_digits(v.as_slice(), 0, n, 2147483647) {
            Some(x) => Some(x as i32),
            None => None,
        }
    }
}

pub open spec fn qso_year_spec(m: Map<Seq<char>, Seq<char>>) -> Option<i32> {
    if m.contains_key("QSO_DATE"@) && m["QSO_DATE"@].len() >= 4 && all_digits(
        m["QSO_DATE"@].take(4),
    ) {
        Some(digits_value(m["QSO_DATE"@].take(4)) as i32)
    } else {
        None
    }
}

/// Two-digit field `[lo, hi)` of `s`, when it is all digits.
pub open spec fn num_at(s: Seq<char>, lo: int, hi: int) -> Option<nat> {
    if all_digits(s.subrange(lo, hi)) {
        Some(digits_value(s.subrange(lo, hi)))
    } else {
        None
    }
}

/// The time of day `TIME_ON` gives, as (hour, minute, second).
pub open spec fn time_on_spec(m: Map<Seq<char>, Seq<char>>) -> Option<(nat, nat, nat)> {
    if !m.contains_key("TIME_ON"@) {
        Some((0, 0, 0))
    } else {
        let t = m["TIME_ON"@];
        if t.len() != 4 && t.len() != 6 {
            None
        } else {
            match (num_at(t, 0, 2), num_at(t, 2, 4)) {
                (Some(h), Some(mi)) => if t.len() == 6 {
                    match num_at(t, 4, 6) {
                        Some(s) => Some((h, mi, s)),
                        None => None,
                    }
                } else {
                    Some((h, mi, 0))
                },
                _ => None,
            }
        }
    }
}

pub open spec fn qso_unix_spec(m: Map<Seq<char>, Seq<char>>) -> Option<i64> {
    if !m.contains_key("QSO_DATE"@) || m["QSO_DATE"@].len() != 8 {
        None
    } else {
        let d = m["QSO_DATE"@];
        match (num_at(d, 0, 4), num_at(d, 4, 6), num_at(d, 6, 8)) {
            (Some(y), Some(mo), Some(dd)) => if 1 <= mo <= 12 && 1 <= dd <= 31 {
                match time_on_spec(m) {
                    Some((h, mi, s)) => Some(civil_unix_spec(y as int, mo as int, dd as int, h as int, mi as int, s as int) as i64),
                    None => None,
                }
            } else {
                None
            },
            _ => None,
        }
    }
}

pub open spec fn yes_or_verified(m: Map<Seq<char>, Seq<char>>, k: Seq<char>) -> bool {
    m.contains_key(k) && (unicode_upper(m[k]) == "Y"@ || unicode_upper(m[k]) == "V"@)
}

pub open spec fn confirmed_spec(m: Map<Seq<char>, Seq<char>>) -> bool {
    yes_or_verified(m, "LOTW_QSL_RCVD"@) || yes_or_verified(m, "QSL_RCVD"@) || yes_or_verified(
        m,
        "EQSL_QSL_RCVD"@,
    ) || (m.contains_key("APP_CLUBLOG_QSO_QSL"@) && unicode_upper(m["APP_CLUBLOG_QSO_QSL"@])
        == "Y"@)
}

// ---------------------------------------------------------------------------
// The parser
// ---------------------------------------------------------------------------

/// The field name of a tag: the text before its first `:`.
pub open spec fn tag_name(tag: Seq<char>) -> Seq<char> {
    tag.take(find(tag, ':'))
}

/// The declared value length of a tag: the text between its first and
/// second `:` parsed as a `usize`; `None` when missing or malformed.
pub open spec fn tag_length(tag: Seq<char>) -> Option<nat> {
    let f = find(tag, ':');
    if f < tag.len() {
        let after = tag.skip(f + 1);
        parse_unsigned(after.take(find(after, ':')), usize::MAX as nat)
    } else {
        None
    }
}

pub open spec fn flush(
    cur: Map<Seq<char>, Seq<char>>,
    done: Seq<Map<Seq<char>, Seq<char>>>,
) -> Seq<Map<Seq<char>, Seq<char>>> {
    if cur == Map::<Seq<char>, Seq<char>>::empty() {
        done
    } else {
        done.push(cur)
    }
}

/// The records parsed from `s[i..]`, given the record being assembled and
/// the records already finished.
pub open spec fn parse_from(
    s: Seq<char>,
    i: int,
    cur: Map<Seq<char>, Seq<char>>,
    done: Seq<Map<Seq<char>, Seq<char>>>,
) -> Seq<Map<Seq<char>, Seq<char>>>
    decreases s.len() - i,
{
    if i < 0 || i >= s.len() {
        flush(cur, done)
    } else {
        let lt = i + find(s.skip(i), '<');
        if lt >= s.len() {
            flush(cur, done)
        } else {
            let gt = lt + 1 + find(s.skip(lt + 1), '>');
            proof {
                lemma_find_props(s.skip(i), '<');
                lemma_find_props(s.skip(lt + 1), '>');
            }
            if gt >= s.len() {
                flush(cur, done)
            } else {
                let tag = s.subrange(lt + 1, gt);
                let low = unicode_lower(tag);
                if low == "eoh"@ {
                    parse_from(s, gt + 1, cur, done)
                } else if low == "eor"@ {
                    parse_from(s, gt + 1, Map::empty(), flush(cur, done))
                } else {
                    match tag_length(tag) {
                        None => parse_from(s, gt + 1, cur, done),
                        Some(len) => {
                            let end = if gt + 1 + len <= s.len() {
                                gt + 1 + len
                            } else {
                                s.len() as int
                            };
                            parse_from(
                                s,
                                end,
                                cur.insert(unicode_upper(tag_name(tag)), s.subrange(gt + 1, end)),
                                done,
                            )
                        },
                    }
                }
            }
        }
    }
}

/// Every record of an ADIF text, in order.
pub open spec fn adif_spec(s: Seq<char>) -> Seq<Map<Seq<char>, Seq<char>>> {
    parse_from(s, 0, Map::empty(), seq![])
}

pub open spec fn record_views(v: Seq<Record>) -> Seq<Map<Seq<char>, Seq<char>>> {
    v.map_values(|r: Record| r@)
}

/// Parse ADIF text into its records. A record left open at the end of the
/// text (no `<eor>`) is kept; tags that are not `NAME:len[:type]` are
/// skipped; a length running past the end takes what is there.
pub fn parse(content: &str) -> (records: Vec<Record>)
    ensures
        record_views(records@) == adif_spec(content@),
{
    let chars = chars_of(content);
    let v = chars.as_slice();
    let n = v.len();
    let mut records: Vec<Record> = Vec::new();
    let mut current = Record::new();
    let mut i: usize = 0;
    assert(record_views(records@) =~= seq![]);
    while i < n
        invariant
            n == v.len(),
            v@ == content@,
            i <= n,
            adif_spec(content@) == parse_from(v@, i as int, current@, record_views(records@)),
        ensures
            adif_spec(content@) == flush(current@, record_views(records@)),
        decreases n - i,
    {
        let ghost s = v@;
        assert(s.skip(i as int) =~= s.subrange(i as int, n as int));
        let lt = find_char(v, i, n, '<');
        if lt >= n {
            break;
        }
        assert(s.skip(lt + 1) =~= s.subrange(lt + 1, n as int));
        let gt = find_char(v, lt + 1, n, '>');
        if gt >= n {
            break;
        }
        let tag = string_of_range(v, lt + 1, gt);
        let lower = to_lower(tag.as_str());
        let lc = chars_of(lower.as_str());
        if crate::text::eq_lit(lc.as_slice(), "eoh") {
            i = gt + 1;
            continue;
        }
        if crate::text::eq_lit(lc.as_slice(), "eor") {
            let ghost before = record_views(records@);
            if current.len() > 0 {
                let mut done = Record::new();
                std::mem::swap(&mut done, &mut current);
                records.push(done);
                assert(record_views(records@) =~= before.push(done@));
            } else {
                current = Record::new();
            }
            i = gt + 1;
            continue;
        }
        let ghost tg = s.subrange(lt + 1, gt as int);
        let colon = find_char(v, lt + 1, gt, ':');
        assert(colon - (lt + 1) == find(tg, ':'));
        if colon >= gt {
            i = gt + 1;
            continue;
        }
        let colon2 = find_char(v, colon + 1, gt, ':');
        assert(tg.skip(colon - lt) =~= s.subrange(colon + 1, gt as int));
        let ghost after = tg.skip(colon - lt);
        assert(after.take(find(after, ':')) =~= s.subrange(colon + 1, colon2 as int));
        let len_opt = parse_len(v, colon + 1, colon2);
        let length = match len_opt {
            Some(l) => l,
            None => {
                i = gt + 1;
                continue;
            },
        };
        let name_raw = string_of_range(v, lt + 1, colon);
        assert(tg.take(find(tg, ':')) =~= s.subrange(lt + 1, colon as int));
        let name = to_upper(name_raw.as_str());
        let value_start = gt + 1;
        let value_end = if length <= n - value_start {
            value_start + length
        } else {
            n
        };
        let value = string_of_range(v, value_start, value_end);
        current.insert(name, value);
        i = value_end;
    }
    if current.len() > 0 {
        let ghost before = record_views(records@);
        let ghost cv = current@;
        records.push(current);
        assert(record_views(records@) =~= before.push(cv));
    }
    records
}

/// `s[lo..hi].parse::<usize>().ok()`.
fn parse_len(v: &[char], lo: usize, hi: usize) -> (r: Option<usize>)
    requires
        lo <= hi <= v.len(),
    ensures
        r == (match parse_unsigned(v@.subrange(lo as int, hi as int), usize::MAX as nat) {
            Some(x) => Some(x as usize),
            None => None,
        }),
{
    let ghost d = v@.subrange(lo as int, hi as int);
    if lo < hi && v[lo] == '+' {
        assert(v@.subrange(lo + 1, hi as int) =~= d.drop_first());
        match parse_digits(v, lo + 1, hi, usize::MAX as u64) {
            Some(x) => Some(x as usize),
            None => None,
        }
    } else {
        match parse_digits(v, lo, hi, usize::MAX as u64) {
            Some(x) => Some(x as usize),
            None => None,
        }
    }
}

} // verus!

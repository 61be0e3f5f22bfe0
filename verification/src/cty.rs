//! ClubLog `cty.xml`: DXCC entities, exact-call exceptions, prefix rules
//! and invalid operations, plus the ISO-8601 dates the file carries.

use crate::text::{chars_of, parse_digits, parse_signed};
use vstd::prelude::*;

verus! {

// ---------------------------------------------------------------------------
// Calendar arithmetic
// ---------------------------------------------------------------------------

/// Days since 1970-01-01 of a proleptic Gregorian date (Hinnant's
/// civil-days formula; `/` here is floor division).
pub open spec fn days_from_civil_spec(y: int, m: int, d: int) -> int {
    let y2 = if m <= 2 {
        y - 1
    } else {
        y
    };
    let era = y2 / 400;
    let yoe = y2 - era * 400;
    let mp = if m > 2 {
        m - 3
    } else {
        m + 9
    };
    let doy = (153 * mp + 2) / 5 + d - 1;
    let doe = yoe * 365 + yoe / 4 - yoe / 100 + doy;
    era * 146097 + doe - 719468
}

/// Unix seconds of a date and time of day, all in UTC.
pub open spec fn civil_unix_spec(y: int, mo: int, d: int, h: int, mi: int, s: int) -> int {
    days_from_civil_spec(y, mo, d) * 86400 + h * 3600 + mi * 60 + s
}

/// Days since 1970-01-01.
pub fn days_from_civil(y: i64, m: i64, d: i64) -> (r: i64)
    requires
        -10000 <= y <= 10000,
        1 <= m <= 12,
        -100 <= d <= 100,
    ensures
        r == days_from_civil_spec(y as int, m as int, d as int),
{
    let y2: i64 = if m <= 2 {
        y - 1
    } else {
        y
    };
    let era: i64 = if y2 >= 0 {
        y2 / 400
    } else {
        0 - ((399 - y2) / 400)
    };
    assert(era == y2 as int / 400) by (nonlinear_arith)
        requires
            era == (if y2 >= 0 {
                y2 / 400
            } else {
                0 - ((399 - y2) / 400)
            }),
            -10001 <= y2 <= 10000,
    ;
    let yoe: i64 = y2 - era * 400;
    assert(0 <= yoe < 400) by (nonlinear_arith)
        requires
            era == y2 as int / 400,
            yoe == y2 - era * 400,
    ;
    let mp: i64 = if m > 2 {
        m - 3
    } else {
        m + 9
    };
    let doy: i64 = (153 * mp + 2) / 5 + d - 1;
    let doe: i64 = yoe * 365 + yoe / 4 - yoe / 100 + doy;
    assert(-30 <= era <= 30) by (nonlinear_arith)
        requires
            era == y2 as int / 400,
            -10001 <= y2 <= 10000,
    ;
    era * 146097 + doe - 719468
}

/// Unix seconds of a date and a time of day.
pub fn civil_unix(y: i64, mo: i64, d: i64, h: i64, mi: i64, s: i64) -> (r: i64)
    requires
        -10000 <= y <= 10000,
        1 <= mo <= 12,
        -100 <= d <= 100,
        -100 <= h <= 100,
        -100 <= mi <= 100,
        -100 <= s <= 100,
    ensures
        r == civil_unix_spec(y as int, mo as int, d as int, h as int, mi as int, s as int),
{
    let days = days_from_civil(y, mo, d);
    assert(-10_000_000 <= days <= 10_000_000) by (nonlinear_arith)
        requires
            days == days_from_civil_spec(y as int, mo as int, d as int),
            -10000 <= y <= 10000,
            1 <= mo <= 12,
            -100 <= d <= 100,
    ;
    days * 86400 + h * 3600 + mi * 60 + s
}

// ---------------------------------------------------------------------------
// ISO-8601 internet date-time → unix seconds
// ---------------------------------------------------------------------------

/// `s[lo..hi].parse::<i64>()`.
pub open spec fn iso_num(s: Seq<char>, lo: int, hi: int) -> Option<int> {
    parse_signed(s.subrange(lo, hi), 9223372036854775808, 9223372036854775807)
}

/// The UTC offset a trailing zone designator stands for, in seconds:
/// empty or `Z` is UTC, else `±hh:mm`.
pub open spec fn tz_offset(t: Seq<char>) -> Option<int> {
    if t.len() == 0 || t == seq!['Z'] || t == seq!['z'] {
        Some(0)
    } else if t.len() == 6 && (t[0] == '+' || t[0] == '-') && t[3] == ':' {
        match (iso_num(t, 1, 3), iso_num(t, 4, 6)) {
            (Some(th), Some(tm)) => Some(
                if t[0] == '-' {
                    -(th * 3600 + tm * 60)
                } else {
                    th * 3600 + tm * 60
                },
            ),
            _ => None,
        }
    } else {
        None
    }
}

/// `YYYY-MM-DDThh:mm:ss` followed by an optional zone, as unix seconds.
/// Months must be 1–12 and days 1–31; nothing else is range-checked.
pub open spec fn parse_iso8601_spec(s: Seq<char>) -> Option<int> {
    if s.len() < 19 || s[4] != '-' || s[7] != '-' || s[10] != 'T' || s[13] != ':' || s[16]
        != ':' {
        None
    } else {
        match (
            iso_num(s, 0, 4),
            iso_num(s, 5, 7),
            iso_num(s, 8, 10),
            iso_num(s, 11, 13),
            iso_num(s, 14, 16),
            iso_num(s, 17, 19),
        ) {
            (Some(y), Some(mo), Some(d), Some(h), Some(mi), Some(sec)) => if 1 <= mo <= 12 && 1
                <= d <= 31 {
                match tz_offset(s.skip(19)) {
                    Some(off) => Some(civil_unix_spec(y, mo, d, h, mi, sec) - off),
                    None => None,
                }
            } else {
                None
            },
            _ => None,
        }
    }
}

/// A short signed field `v[lo..hi]` (at most four characters).
fn short_int(v: &[char], lo: usize, hi: usize) -> (r: Option<i64>)
    requires
        lo <= hi <= v.len(),
        hi - lo <= 4,
    ensures
        r == (match iso_num(v@, lo as int, hi as int) {
            Some(x) => Some(x as i64),
            None => None,
        }),
        r matches Some(x) ==> -10000 < x < 10000,
        r matches Some(x) ==> (hi - lo <= 2 ==> -100 < x < 100),
{
    proof {
        if lo < hi {
            lemma_digits_below(v@.subrange(lo + 1, hi as int));
        }
        lemma_digits_below(v@.subrange(lo as int, hi as int));
    }
    let ghost d = v@.subrange(lo as int, hi as int);
    if lo < hi && v[lo] == '-' {
        assert(v@.subrange(lo + 1, hi as int) =~= d.drop_first());
        match parse_digits(v, lo + 1, hi, 9999) {
            Some(x) => Some(0 - (x as i64)),
            None => {
                proof {
                    lemma_short_digits(v@.subrange(lo + 1, hi as int));
                }
                None
            },
        }
    } else if lo < hi && v[lo] == '+' {
        assert(v@.subrange(lo + 1, hi as int) =~= d.drop_first());
        match parse_digits(v, lo + 1, hi, 9999) {
            Some(x) => Some(x as i64),
            None => {
                proof {
                    lemma_short_digits(v@.subrange(lo + 1, hi as int));
                }
                None
            },
        }
    } else {
        match parse_digits(v, lo, hi, 9999) {
            Some(x) => Some(x as i64),
            None => {
                proof {
                    lemma_short_digits(d);
                }
                None
            },
        }
    }
}

/// At most four digits spell at most 9999.
pub proof fn lemma_short_digits(d: Seq<char>)
    requires
        d.len() <= 4,
    ensures
        crate::text::all_digits(d) ==> crate::text::digits_value(d) <= 9999,
{
    lemma_digits_below(d);
}

pub proof fn lemma_digits_below(d: Seq<char>)
    requires
        d.len() <= 4,
    ensures
        crate::text::all_digits(d) ==> crate::text::digits_value(d) < (if d.len() == 0 {
            1int
        } else if d.len() == 1 {
            10int
        } else if d.len() == 2 {
            100int
        } else if d.len() == 3 {
            1000int
        } else {
            10000int
        }),
    decreases d.len(),
{
    if d.len() > 0 && crate::text::all_digits(d) {
        assert(crate::text::all_digits(d.drop_last())) by {
            assert forall|j: int| 0 <= j < d.drop_last().len() implies crate::text::is_digit(
                #[trigger] d.drop_last()[j],
            ) by {
                assert(d.drop_last()[j] == d[j]);
            }
        }
        lemma_digits_below(d.drop_last());
        assert(crate::text::is_digit(d[d.len() - 1]));
    }
}

/// ISO-8601 internet date-time (`2019-01-31T23:59:59+00:00`, or a trailing
/// `Z`) to unix seconds; `None` for anything else.
#[verifier::spinoff_prover]
#[verifier::rlimit(40)]
pub fn parse_iso8601(s: &str) -> (r: Option<i64>)
    ensures
        r == (match parse_iso8601_spec(s@) {
            Some(x) => Some(x as i64),
            None => None,
        }),
{
    let v = chars_of(s);
    let b = v.as_slice();
    if b.len() < 19 || b[4] != '-' || b[7] != '-' || b[10] != 'T' || b[13] != ':' || b[16]
        != ':' {
        return None;
    }
    let y = match short_int(b, 0, 4) {
        Some(x) => x,
        None => return None,
    };
    let mo = match short_int(b, 5, 7) {
        Some(x) => x,
        None => return None,
    };
    let d = match short_int(b, 8, 10) {
        Some(x) => x,
        None => return None,
    };
    let h = match short_int(b, 11, 13) {
        Some(x) => x,
        None => return None,
    };
    let mi = match short_int(b, 14, 16) {
        Some(x) => x,
        None => return None,
    };
    let sec = match short_int(b, 17, 19) {
        Some(x) => x,
        None => return None,
    };
    if mo < 1 || mo > 12 || d < 1 || d > 31 {
        return None;
    }
    let n = b.len();
    let ghost tz = v@.skip(19);
    let off: i64 = if n == 19 {
        assert(tz.len() == 0);
        0
    } else if n == 20 && (b[19] == 'Z' || b[19] == 'z') {
        assert(tz =~= seq![b[19]]);
        0
    } else if n == 25 && (b[19] == '+' || b[19] == '-') && b[22] == ':' {
        assert(tz.subrange(1, 3) =~= v@.subrange(20, 22));
        assert(tz.subrange(4, 6) =~= v@.subrange(23, 25));
        let th = match short_int(b, 20, 22) {
            Some(x) => x,
            None => return None,
        };
        let tm = match short_int(b, 23, 25) {
            Some(x) => x,
            None => return None,
        };
        if b[19] == '-' {
            0 - (th * 3600 + tm * 60)
        } else {
            th * 3600 + tm * 60
        }
    } else {
        assert(!(tz.len() == 0 || tz == seq!['Z'] || tz == seq!['z'])) by {
            if n == 20 {
                assert(tz[0] == b[19]);
            }
        }
        return None;
    };
    Some(civil_unix(y, mo, d, h, mi, sec) - off)
}

} // verus!

verus! {

// ---------------------------------------------------------------------------
// The records cty.xml carries
// ---------------------------------------------------------------------------

/// One DXCC entity.
#[derive(Debug, Clone, Default, PartialEq)]
pub struct DxccEntity {
    pub adif: i32,
    pub name: String,
    pub prefix: String,
    pub cq_zone: i32,
    pub continent: String,
    /// ClubLog credits a QSO here only when the callsign is one it lists as
    /// an exception for the entity — the rare ones a pirate would pick.
    pub whitelist: bool,
    /// When the whitelist began to apply; `None` means always.
    pub whitelist_start_unix: Option<i64>,
    /// An ARRL deleted entity: still a worked contact, scores nothing
    /// toward current DXCC or the Challenge.
    pub deleted: bool,
}

/// A callsign or prefix → entity rule, optionally dated.
#[derive(Debug, Clone, PartialEq)]
pub struct PrefixRule {
    pub call: String,
    pub adif: i32,
    pub is_exact: bool,
    pub start_unix: Option<i64>,
    pub end_unix: Option<i64>,
    /// The CQ zone this rule gives calls it matches, when cty.xml has one.
    pub cq_zone: Option<i32>,
}

/// Whether a rule applies at `at`: missing bounds are open, present ones
/// inclusive.
pub open spec fn active(r: PrefixRule, at: int) -> bool {
    (r.start_unix matches Some(s) ==> at >= s) && (r.end_unix matches Some(e) ==> at <= e)
}

impl PrefixRule {
    pub fn is_active(&self, at_unix: i64) -> (r: bool)
        ensures
            r == active(*self, at_unix as int),
    {
        if let Some(start) = self.start_unix {
            if at_unix < start {
                return false;
            }
        }
        if let Some(end) = self.end_unix {
            if at_unix > end {
                return false;
            }
        }
        true
    }
}

/// A ClubLog invalid operation: an exact callsign, optionally bounded by a
/// date window, whose QSOs do not count for DXCC.
#[derive(Debug, Clone, PartialEq)]
pub struct InvalidOperation {
    pub call: String,
    pub start_unix: Option<i64>,
    pub end_unix: Option<i64>,
}

/// An entry with no window covers every contact, dated or not; a windowed
/// one covers only a dated contact inside it (bounds inclusive).
pub open spec fn covers(op: InvalidOperation, at: Option<i64>) -> bool {
    (op.start_unix is None && op.end_unix is None) || (at matches Some(a) && (op.start_unix matches Some(
        s,
    ) ==> a >= s) && (op.end_unix matches Some(e) ==> a <= e))
}

impl InvalidOperation {
    /// Whether this entry covers a contact made at `at_unix` (`None` when
    /// the contact's time is unknown).
    pub fn covers(&self, at_unix: Option<i64>) -> (r: bool)
        ensures
            r == covers(*self, at_unix),
    {
        if self.start_unix.is_none() && self.end_unix.is_none() {
            return true;
        }
        let at = match at_unix {
            Some(a) => a,
            None => return false,
        };
        let after_start = match self.start_unix {
            Some(s) => at >= s,
            None => true,
        };
        let before_end = match self.end_unix {
            Some(e) => at <= e,
            None => true,
        };
        after_start && before_end
    }
}

/// Everything the resolver needs from one cty.xml.
#[derive(Debug, Default)]
pub struct CtyData {
    pub entities: Vec<DxccEntity>,
    pub prefix_rules: Vec<PrefixRule>,
    /// Several entries can share one callsign — one per rejected period.
    pub invalid_operations: Vec<InvalidOperation>,
}

/// The first entity with ADIF id `adif`.
pub open spec fn entity_of(ents: Seq<DxccEntity>, adif: i32) -> Option<DxccEntity>
    decreases ents.len(),
{
    if ents.len() == 0 {
        None
    } else if ents[0].adif == adif {
        Some(ents[0])
    } else {
        entity_of(ents.drop_first(), adif)
    }
}

pub proof fn lemma_entity_of(ents: Seq<DxccEntity>, adif: i32, i: int)
    requires
        0 <= i <= ents.len(),
        forall|j: int| 0 <= j < i ==> ents[j].adif != adif,
        i < ents.len() ==> ents[i].adif == adif,
    ensures
        entity_of(ents, adif) == (if i < ents.len() {
            Some(ents[i])
        } else {
            None
        }),
    decreases ents.len(),
{
    if i > 0 {
        lemma_entity_of(ents.drop_first(), adif, i - 1);
    }
}

/// Position of the first entity with id `adif` in `ents` (`len` if none).
pub fn find_entity(ents: &Vec<DxccEntity>, adif: i32) -> (r: usize)
    ensures
        r <= ents.len(),
        entity_of(ents@, adif) == (if r < ents.len() {
            Some(ents@[r as int])
        } else {
            None
        }),
{
    let mut i: usize = 0;
    while i < ents.len() && ents[i].adif != adif
        invariant
            i <= ents.len(),
            forall|j: int| 0 <= j < i ==> ents@[j].adif != adif,
        decreases ents.len() - i,
    {
        i = i + 1;
    }
    proof {
        lemma_entity_of(ents@, adif, i as int);
    }
    i
}

impl CtyData {
    /// The entity with ADIF id `adif`.
    pub fn entity(&self, adif: i32) -> (r: Option<&DxccEntity>)
        ensures
            r == (match entity_of(self.entities@, adif) {
                Some(e) => Some(&e),
                None => None::<&DxccEntity>,
            }),
    {
        let i = find_entity(&self.entities, adif);
        if i < self.entities.len() {
            Some(&self.entities[i])
        } else {
            None
        }
    }
}

} // verus!

verus! {

// ---------------------------------------------------------------------------
// Reading cty.xml
// ---------------------------------------------------------------------------

/// One entity, as values.
pub struct EntityV {
    pub adif: i32,
    pub name: Seq<char>,
    pub prefix: Seq<char>,
    pub cq_zone: i32,
    pub continent: Seq<char>,
    pub whitelist: bool,
    pub whitelist_start_unix: Option<i64>,
    pub deleted: bool,
}

/// One rule, as values.
pub struct RuleV {
    pub call: Seq<char>,
    pub adif: i32,
    pub is_exact: bool,
    pub start_unix: Option<i64>,
    pub end_unix: Option<i64>,
    pub cq_zone: Option<i32>,
}

/// One invalid operation, as values.
pub struct OpV {
    pub call: Seq<char>,
    pub start_unix: Option<i64>,
    pub end_unix: Option<i64>,
}

pub open spec fn entity_view(e: DxccEntity) -> EntityV {
    EntityV {
        adif: e.adif,
        name: e.name@,
        prefix: e.prefix@,
        cq_zone: e.cq_zone,
        continent: e.continent@,
        whitelist: e.whitelist,
        whitelist_start_unix: e.whitelist_start_unix,
        deleted: e.deleted,
    }
}

pub open spec fn rule_view(r: PrefixRule) -> RuleV {
    RuleV {
        call: r.call@,
        adif: r.adif,
        is_exact: r.is_exact,
        start_unix: r.start_unix,
        end_unix: r.end_unix,
        cq_zone: r.cq_zone,
    }
}

pub open spec fn op_view(o: InvalidOperation) -> OpV {
    OpV { call: o.call@, start_unix: o.start_unix, end_unix: o.end_unix }
}

/// Everything read from one file, as values.
pub struct CtyV {
    pub entities: Seq<EntityV>,
    pub rules: Seq<RuleV>,
    pub ops: Seq<OpV>,
}

pub open spec fn cty_view(d: CtyData) -> CtyV {
    CtyV {
        entities: d.entities@.map_values(|e: DxccEntity| entity_view(e)),
        rules: d.prefix_rules@.map_values(|r: PrefixRule| rule_view(r)),
        ops: d.invalid_operations@.map_values(|o: InvalidOperation| op_view(o)),
    }
}

/// The fields of the record being read.
pub struct TmpV {
    pub adif: Option<i32>,
    pub name: Option<Seq<char>>,
    pub prefix: Option<Seq<char>>,
    pub cqz: Option<i32>,
    pub continent: Option<Seq<char>>,
    pub call: Option<Seq<char>>,
    pub deleted: bool,
    pub start: Option<i64>,
    pub end: Option<i64>,
    pub whitelist: bool,
    pub whitelist_start: Option<i64>,
}

pub open spec fn empty_tmp() -> TmpV {
    TmpV {
        adif: None,
        name: None,
        prefix: None,
        cqz: None,
        continent: None,
        call: None,
        deleted: false,
        start: None,
        end: None,
        whitelist: false,
        whitelist_start: None,
    }
}

/// The reader's state: what has been read, the open elements (lowercased),
/// the current leaf text, and the record being assembled.
pub struct ReadState {
    pub out: CtyV,
    pub path: Seq<Seq<char>>,
    pub buffer: Seq<char>,
    pub tmp: TmpV,
}

pub open spec fn parent_of(path: Seq<Seq<char>>) -> Seq<char> {
    if path.len() >= 2 {
        path[path.len() - 2]
    } else {
        Seq::empty()
    }
}

/// An element that opens a new record.
pub open spec fn opens_record(name: Seq<char>, parent: Seq<char>) -> bool {
    (name == "entity"@ && parent == "entities"@) || (name == "exception"@ && parent == "exceptions"@)
        || (name == "prefix"@ && parent == "prefixes"@) || (name == "invalid"@ && parent
        == "invalid_operations"@)
}

pub open spec fn int_of(value: Seq<char>) -> Option<i32> {
    match crate::adif::parse_i32_spec(value) {
        Some(v) => Some(v as i32),
        None => None,
    }
}

pub open spec fn date_of(value: Seq<char>) -> Option<i64> {
    match parse_iso8601_spec(value) {
        Some(v) => Some(v as i64),
        None => None,
    }
}

/// `true`, ASCII case ignored.
pub open spec fn is_true(value: Seq<char>) -> bool {
    crate::text::upper(value) == "TRUE"@
}

/// `e` bound under its ADIF id: replacing the first entity with that id,
/// appended when there is none.
pub open spec fn upsert_entity(ents: Seq<EntityV>, e: EntityV) -> Seq<EntityV> {
    let i = first_adif(ents, e.adif);
    if i < ents.len() {
        ents.update(i, e)
    } else {
        ents.push(e)
    }
}

pub open spec fn first_adif(ents: Seq<EntityV>, adif: i32) -> int
    decreases ents.len(),
{
    if ents.len() == 0 {
        0
    } else if ents[0].adif == adif {
        0
    } else {
        1 + first_adif(ents.drop_first(), adif)
    }
}

/// Letters in `s`.
pub open spec fn letter_count(s: Seq<char>) -> nat
    decreases s.len(),
{
    if s.len() == 0 {
        0
    } else {
        letter_count(s.drop_last()) + if crate::text::unicode_alphabetic(s.last()) {
            1nat
        } else {
            0nat
        }
    }
}

/// A canonical prefix that looks like a full callsign (a digit and at
/// least three letters — 4U1UN, 1A0KM) is an exact-call rule.
pub open spec fn callsign_like(p: Seq<char>) -> bool {
    (exists|j: int| 0 <= j < p.len() && crate::text::unicode_numeric(#[trigger] p[j])) && letter_count(p)
        >= 3
}

/// What closing element `name` (lowercased, with trimmed leaf text
/// `value`, inside `parent`) does to the output and the record.
pub open spec fn on_end(out: CtyV, t: TmpV, name: Seq<char>, value: Seq<char>, parent: Seq<char>) -> (CtyV, TmpV) {
    if name == "adif"@ {
        (out, TmpV { adif: int_of(value), ..t })
    } else if name == "name"@ {
        (out, TmpV { name: Some(value), ..t })
    } else if name == "prefix"@ {
        if parent == "entity"@ {
            (out, TmpV { prefix: Some(value), ..t })
        } else if parent == "prefixes"@ && t.adif is Some && t.call is Some {
            (
                CtyV {
                    rules: out.rules.push(
                        RuleV {
                            call: crate::text::unicode_upper(t.call->0),
                            adif: t.adif->0,
                            is_exact: false,
                            start_unix: t.start,
                            end_unix: t.end,
                            cq_zone: t.cqz,
                        },
                    ),
                    ..out
                },
                t,
            )
        } else {
            (out, t)
        }
    } else if name == "call"@ {
        (out, TmpV { call: Some(value), ..t })
    } else if name == "cqz"@ {
        (out, TmpV { cqz: int_of(value), ..t })
    } else if name == "cont"@ {
        (out, TmpV { continent: Some(value), ..t })
    } else if name == "deleted"@ {
        (out, TmpV { deleted: is_true(value), ..t })
    } else if name == "whitelist"@ {
        (out, TmpV { whitelist: is_true(value), ..t })
    } else if name == "whitelist_start"@ {
        (out, TmpV { whitelist_start: date_of(value), ..t })
    } else if name == "start"@ {
        (out, TmpV { start: date_of(value), ..t })
    } else if name == "end"@ {
        (out, TmpV { end: date_of(value), ..t })
    } else if name == "entity"@ {
        if parent == "entities"@ && t.adif is Some && t.name is Some {
            let prefix = match t.prefix {
                Some(p) => p,
                None => Seq::empty(),
            };
            let e = EntityV {
                adif: t.adif->0,
                name: t.name->0,
                prefix: prefix,
                cq_zone: match t.cqz {
                    Some(z) => z,
                    None => 0,
                },
                continent: match t.continent {
                    Some(c) => c,
                    None => Seq::empty(),
                },
                whitelist: t.whitelist,
                whitelist_start_unix: t.whitelist_start,
                deleted: t.deleted,
            };
            let ents = upsert_entity(out.entities, e);
            let up = crate::text::unicode_upper(prefix);
            let rules = if !t.deleted && prefix.len() > 0 {
                out.rules.push(
                    RuleV {
                        call: up,
                        adif: t.adif->0,
                        is_exact: callsign_like(up),
                        start_unix: t.start,
                        end_unix: t.end,
                        cq_zone: t.cqz,
                    },
                )
            } else {
                out.rules
            };
            (CtyV { entities: ents, rules: rules, ops: out.ops }, t)
        } else {
            (out, t)
        }
    } else if name == "invalid"@ {
        if parent == "invalid_operations"@ && t.call is Some {
            (
                CtyV {
                    ops: out.ops.push(
                        OpV {
                            call: crate::text::unicode_upper(t.call->0),
                            start_unix: t.start,
                            end_unix: t.end,
                        },
                    ),
                    ..out
                },
                t,
            )
        } else {
            (out, t)
        }
    } else if name == "exception"@ {
        if t.adif is Some && t.call is Some {
            (
                CtyV {
                    rules: out.rules.push(
                        RuleV {
                            call: crate::text::unicode_upper(t.call->0),
                            adif: t.adif->0,
                            is_exact: true,
                            start_unix: t.start,
                            end_unix: t.end,
                            cq_zone: t.cqz,
                        },
                    ),
                    ..out
                },
                t,
            )
        } else {
            (out, t)
        }
    } else {
        (out, t)
    }
}

/// One scanner event applied to the reader. The leaf-text buffer clears on
/// every element start and end, so only leaf text survives.
pub open spec fn read_step(st: ReadState, ev: crate::xml::EventV) -> ReadState {
    match ev {
        crate::xml::EventV::Start(name) => {
            let lower = crate::text::unicode_lower(name);
            let path = st.path.push(lower);
            ReadState {
                out: st.out,
                path: path,
                buffer: Seq::empty(),
                tmp: if opens_record(lower, parent_of(path)) {
                    empty_tmp()
                } else {
                    st.tmp
                },
            }
        },
        crate::xml::EventV::Text(t) => ReadState { buffer: st.buffer + t, ..st },
        crate::xml::EventV::End(name) => {
            let lower = crate::text::unicode_lower(name);
            let (out, tmp) = on_end(st.out, st.tmp, lower, crate::text::trim(st.buffer), parent_of(st.path));
            ReadState {
                out: out,
                path: if st.path.len() > 0 {
                    st.path.drop_last()
                } else {
                    st.path
                },
                buffer: Seq::empty(),
                tmp: tmp,
            }
        },
    }
}

pub open spec fn read_events(evs: Seq<crate::xml::EventV>) -> ReadState
    decreases evs.len(),
{
    if evs.len() == 0 {
        ReadState {
            out: CtyV { entities: Seq::empty(), rules: Seq::empty(), ops: Seq::empty() },
            path: Seq::empty(),
            buffer: Seq::empty(),
            tmp: empty_tmp(),
        }
    } else {
        read_step(read_events(evs.drop_last()), evs.last())
    }
}

/// What a cty.xml text reads to.
pub open spec fn cty_spec(content: Seq<char>) -> CtyV {
    read_events(crate::xml::scan_spec(content)).out
}

} // verus!

verus! {

/// The fields of the record being read.
struct RecordTmp {
    adif: Option<i32>,
    name: Option<String>,
    prefix: Option<String>,
    cqz: Option<i32>,
    continent: Option<String>,
    call: Option<String>,
    deleted: bool,
    start: Option<i64>,
    end: Option<i64>,
    whitelist: bool,
    whitelist_start: Option<i64>,
}

spec fn opt_chars(o: Option<String>) -> Option<Seq<char>> {
    match o {
        Some(s) => Some(s@),
        None => None,
    }
}

spec fn tmp_view(t: RecordTmp) -> TmpV {
    TmpV {
        adif: t.adif,
        name: opt_chars(t.name),
        prefix: opt_chars(t.prefix),
        cqz: t.cqz,
        continent: opt_chars(t.continent),
        call: opt_chars(t.call),
        deleted: t.deleted,
        start: t.start,
        end: t.end,
        whitelist: t.whitelist,
        whitelist_start: t.whitelist_start,
    }
}

fn empty_record() -> (t: RecordTmp)
    ensures
        tmp_view(t) == empty_tmp(),
{
    RecordTmp {
        adif: None,
        name: None,
        prefix: None,
        cqz: None,
        continent: None,
        call: None,
        deleted: false,
        start: None,
        end: None,
        whitelist: false,
        whitelist_start: None,
    }
}

fn int_value(value: &[char]) -> (r: Option<i32>)
    ensures
        r == int_of(value@),
{
    let s = crate::text::string_of(value);
    crate::adif::parse_i32(s.as_str())
}

fn date_value(value: &[char]) -> (r: Option<i64>)
    ensures
        r == date_of(value@),
{
    let s = crate::text::string_of(value);
    parse_iso8601(s.as_str())
}

fn true_value(value: &[char]) -> (r: bool)
    ensures
        r == is_true(value@),
{
    let up = crate::text::upper_vec(value);
    crate::text::eq_lit(up.as_slice(), "TRUE")
}

fn callsign_like_exec(p: &[char]) -> (r: bool)
    ensures
        r == callsign_like(p@),
{
    let mut digit = false;
    let mut letters: usize = 0;
    let mut i: usize = 0;
    assert(p@.take(0) =~= Seq::<char>::empty());
    while i < p.len()
        invariant
            i <= p.len(),
            digit == (exists|j: int| 0 <= j < i && crate::text::unicode_numeric(#[trigger] p@[j])),
            letters == letter_count(p@.take(i as int)),
            letters <= i,
        decreases p.len() - i,
    {
        assert(p@.take(i + 1).drop_last() =~= p@.take(i as int));
        if crate::text::is_numeric(p[i]) {
            digit = true;
        }
        if crate::text::is_alphabetic(p[i]) {
            letters = letters + 1;
        }
        i = i + 1;
    }
    assert(p@.take(p.len() as int) =~= p@);
    digit && letters >= 3
}

proof fn lemma_first_adif(ents: Seq<EntityV>, adif: i32, r: int)
    requires
        0 <= r <= ents.len(),
        forall|j: int| 0 <= j < r ==> ents[j].adif != adif,
        r < ents.len() ==> ents[r].adif == adif,
    ensures
        first_adif(ents, adif) == r,
    decreases ents.len(),
{
    if r > 0 {
        lemma_first_adif(ents.drop_first(), adif, r - 1);
    }
}

/// Bind `e` under its ADIF id in `ents` (see [`upsert_entity`]).
fn upsert_entity_exec(ents: &mut Vec<DxccEntity>, e: DxccEntity)
    ensures
        final(ents)@.map_values(|x: DxccEntity| entity_view(x)) == upsert_entity(
            old(ents)@.map_values(|x: DxccEntity| entity_view(x)),
            entity_view(e),
        ),
{
    let ghost ev = ents@.map_values(|x: DxccEntity| entity_view(x));
    let mut i: usize = 0;
    while i < ents.len() && ents[i].adif != e.adif
        invariant
            i <= ents@.len(),
            ev == ents@.map_values(|x: DxccEntity| entity_view(x)),
            forall|j: int| 0 <= j < i ==> ents@[j].adif != e.adif,
        decreases ents@.len() - i,
    {
        i = i + 1;
    }
    proof {
        lemma_first_adif(ev, e.adif, i as int);
    }
    let ghost ex = entity_view(e);
    if i < ents.len() {
        ents.set(i, e);
        assert(ents@.map_values(|x: DxccEntity| entity_view(x)) =~= ev.update(i as int, ex));
    } else {
        ents.push(e);
        assert(ents@.map_values(|x: DxccEntity| entity_view(x)) =~= ev.push(ex));
    }
}

fn push_rule(out: &mut CtyData, r: PrefixRule)
    ensures
        cty_view(*final(out)) == (CtyV {
            rules: cty_view(*old(out)).rules.push(rule_view(r)),
            ..cty_view(*old(out))
        }),
{
    let ghost before = cty_view(*out);
    let ghost rv = rule_view(r);
    out.prefix_rules.push(r);
    assert(cty_view(*out).rules =~= before.rules.push(rv));
}

/// What a closing element does (see [`on_end`]).
fn end_element(out: &mut CtyData, t: &mut RecordTmp, name: &[char], value: &[char], parent: &[char])
    ensures
        (cty_view(*final(out)), tmp_view(*final(t))) == on_end(cty_view(*old(out)), tmp_view(*old(t)), name@, value@, parent@),
{
    let val = crate::text::string_of(value);
    if crate::text::eq_lit(name, "adif") {
        t.adif = int_value(value);
    } else if crate::text::eq_lit(name, "name") {
        t.name = Some(val);
    } else if crate::text::eq_lit(name, "prefix") {
        if crate::text::eq_lit(parent, "entity") {
            t.prefix = Some(val);
        } else if crate::text::eq_lit(parent, "prefixes") && t.adif.is_some() && t.call.is_some() {
            let call = match &t.call {
                Some(c) => crate::text::to_upper(c.as_str()),
                None => String::new(),
            };
            let adif = match t.adif {
                Some(a) => a,
                None => 0,
            };
            push_rule(out, PrefixRule { call, adif, is_exact: false, start_unix: t.start, end_unix: t.end, cq_zone: t.cqz });
        }
    } else if crate::text::eq_lit(name, "call") {
        t.call = Some(val);
    } else if crate::text::eq_lit(name, "cqz") {
        t.cqz = int_value(value);
    } else if crate::text::eq_lit(name, "cont") {
        t.continent = Some(val);
    } else if crate::text::eq_lit(name, "deleted") {
        t.deleted = true_value(value);
    } else if crate::text::eq_lit(name, "whitelist") {
        t.whitelist = true_value(value);
    } else if crate::text::eq_lit(name, "whitelist_start") {
        t.whitelist_start = date_value(value);
    } else if crate::text::eq_lit(name, "start") {
        t.start = date_value(value);
    } else if crate::text::eq_lit(name, "end") {
        t.end = date_value(value);
    } else if crate::text::eq_lit(name, "entity") {
        if crate::text::eq_lit(parent, "entities") && t.adif.is_some() && t.name.is_some() {
            let adif = match t.adif {
                Some(a) => a,
                None => 0,
            };
            let ename = match &t.name {
                Some(n) => n.clone(),
                None => String::new(),
            };
            let prefix = match &t.prefix {
                Some(p) => p.clone(),
                None => String::new(),
            };
            let continent = match &t.continent {
                Some(c) => c.clone(),
                None => String::new(),
            };
            let cq = match t.cqz {
                Some(z) => z,
                None => 0,
            };
            let up = crate::text::to_upper(prefix.as_str());
            let nonempty = !prefix.as_str().is_empty();
            let e = DxccEntity {
                adif,
                name: ename,
                prefix,
                cq_zone: cq,
                continent,
                whitelist: t.whitelist,
                whitelist_start_unix: t.whitelist_start,
                deleted: t.deleted,
            };
            let ghost before = cty_view(*out);
            upsert_entity_exec(&mut out.entities, e);
            assert(cty_view(*out).rules == before.rules);
            assert(cty_view(*out).ops == before.ops);
            if !t.deleted && nonempty {
                let uc = crate::text::chars_of(up.as_str());
                let exact = callsign_like_exec(uc.as_slice());
                push_rule(out, PrefixRule { call: up, adif, is_exact: exact, start_unix: t.start, end_unix: t.end, cq_zone: t.cqz });
            }
        }
    } else if crate::text::eq_lit(name, "invalid") {
        if crate::text::eq_lit(parent, "invalid_operations") && t.call.is_some() {
            let call = match &t.call {
                Some(c) => crate::text::to_upper(c.as_str()),
                None => String::new(),
            };
            let ghost before = cty_view(*out);
            let op = InvalidOperation { call, start_unix: t.start, end_unix: t.end };
            let ghost ov = op_view(op);
            out.invalid_operations.push(op);
            assert(cty_view(*out).ops =~= before.ops.push(ov));
        }
    } else if crate::text::eq_lit(name, "exception") {
        if t.adif.is_some() && t.call.is_some() {
            let call = match &t.call {
                Some(c) => crate::text::to_upper(c.as_str()),
                None => String::new(),
            };
            let adif = match t.adif {
                Some(a) => a,
                None => 0,
            };
            push_rule(out, PrefixRule { call, adif, is_exact: true, start_unix: t.start, end_unix: t.end, cq_zone: t.cqz });
        }
    }
}

pub open spec fn path_view(p: Seq<Vec<char>>) -> Seq<Seq<char>> {
    p.map_values(|v: Vec<char>| v@)
}

/// Read cty.xml. Records missing what they need are skipped; `None` only
/// when the XML cannot be scanned (a tag or comment left unterminated).
pub fn parse(content: &str) -> (r: Option<CtyData>)
    ensures
        r is Some <==> crate::xml::scan_complete(content@, 0),
        r matches Some(d) ==> cty_view(d) == cty_spec(content@),
{
    let chars = chars_of(content);
    let (events, complete) = crate::xml::scan(chars.as_slice());
    if !complete {
        return None;
    }
    let ghost evs = crate::xml::events_view(events@);
    let mut out = CtyData { entities: Vec::new(), prefix_rules: Vec::new(), invalid_operations: Vec::new() };
    let mut path: Vec<Vec<char>> = Vec::new();
    let mut buffer: Vec<char> = Vec::new();
    let mut tmp = empty_record();
    let mut i: usize = 0;
    assert(evs.take(0) =~= Seq::<crate::xml::EventV>::empty());
    assert(cty_view(out).entities =~= Seq::<EntityV>::empty());
    assert(cty_view(out).rules =~= Seq::<RuleV>::empty());
    assert(cty_view(out).ops =~= Seq::<OpV>::empty());
    assert(path_view(path@) =~= Seq::<Seq<char>>::empty());
    while i < events.len()
        invariant
            i <= events@.len(),
            evs == crate::xml::events_view(events@),
            evs == crate::xml::scan_spec(content@),
            read_events(evs.take(i as int)) == (ReadState {
                out: cty_view(out),
                path: path_view(path@),
                buffer: buffer@,
                tmp: tmp_view(tmp),
            }),
        decreases events@.len() - i,
    {
        assert(evs.take(i + 1).drop_last() =~= evs.take(i as int));
        assert(evs.take(i + 1).last() == crate::xml::event_view(events@[i as int]));
        let ghost pv = path_view(path@);
        match &events[i] {
            crate::xml::Event::Start(name) => {
                let lower = crate::text::to_lower(name.as_str());
                let lc = chars_of(lower.as_str());
                let ghost lv = lc@;
                path.push(lc);
                assert(path_view(path@) =~= pv.push(lv));
                buffer = Vec::new();
                let n = path.len();
                let opens = if n >= 2 {
                    let p = path[n - 2].as_slice();
                    let l = path[n - 1].as_slice();
                    (crate::text::eq_lit(l, "entity") && crate::text::eq_lit(p, "entities"))
                        || (crate::text::eq_lit(l, "exception") && crate::text::eq_lit(p, "exceptions"))
                        || (crate::text::eq_lit(l, "prefix") && crate::text::eq_lit(p, "prefixes"))
                        || (crate::text::eq_lit(l, "invalid") && crate::text::eq_lit(p, "invalid_operations"))
                } else {
                    proof {
                        reveal_strlit("entities");
                        reveal_strlit("exceptions");
                        reveal_strlit("prefixes");
                        reveal_strlit("invalid_operations");
                    }
                    false
                };
                if opens {
                    tmp = empty_record();
                }
            },
            crate::xml::Event::Text(t) => {
                let tc = chars_of(t.as_str());
                crate::text::extend_chars(&mut buffer, tc.as_slice());
            },
            crate::xml::Event::End(name) => {
                let lower = crate::text::to_lower(name.as_str());
                let lc = chars_of(lower.as_str());
                let value = crate::text::trim_vec(buffer.as_slice());
                let n = path.len();
                let parent: Vec<char> = if n >= 2 {
                    crate::text::slice_vec(path[n - 2].as_slice(), 0, path[n - 2].len())
                } else {
                    Vec::new()
                };
                assert(parent@ =~= parent_of(pv));
                end_element(&mut out, &mut tmp, lc.as_slice(), value.as_slice(), parent.as_slice());
                if n > 0 {
                    path.pop();
                    assert(path_view(path@) =~= pv.drop_last());
                }
                buffer = Vec::new();
            },
        }
        i = i + 1;
    }
    assert(evs.take(events@.len() as int) =~= evs);
    Some(out)
}

} // verus!

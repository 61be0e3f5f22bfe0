//! Callsign → DXCC entity resolution. Exact-call exceptions win, then the
//! longest matching prefix; rules inactive at load time (historical
//! entities, expired exceptions) take no part in today's lookups.

use crate::assoc::{add_new, distinct_keys, get, key_index, lemma_get_at, lemma_key_index_props, IntSet, StrMap};
use crate::cty::{
    active, covers, entity_of, find_entity, CtyData, DxccEntity, InvalidOperation, PrefixRule,
};
use crate::text::{
    chars_eq, chars_of, eq_lit, extend_chars, contains_char, is_one_of, slice_vec, split_nonempty,
    split_nonempty_vec, string_of, to_upper, unicode_alphabetic, unicode_numeric, unicode_upper,
    views, is_alphabetic, is_numeric, find_char,
};
use vstd::prelude::*;

verus! {

/// ADIF id of the United States.
pub open spec fn usa() -> i32 {
    291
}

// ---------------------------------------------------------------------------
// What a loaded resolver answers, stated over the data it was loaded from
// ---------------------------------------------------------------------------

/// The entity of the **last** exact-call rule for `call` active at `now`
/// (a later rule for the same call replaces an earlier one).
pub open spec fn exact_adif(rules: Seq<PrefixRule>, now: int, call: Seq<char>) -> Option<i32>
    decreases rules.len(),
{
    if rules.len() == 0 {
        None
    } else {
        let r = rules.last();
        if r.is_exact && active(r, now) && r.call@ == call {
            Some(r.adif)
        } else {
            exact_adif(rules.drop_last(), now, call)
        }
    }
}

/// The zone of the last active exact-call rule for `call` that has one.
pub open spec fn exact_zone(rules: Seq<PrefixRule>, now: int, call: Seq<char>) -> Option<i32>
    decreases rules.len(),
{
    if rules.len() == 0 {
        None
    } else {
        let r = rules.last();
        if r.is_exact && active(r, now) && r.call@ == call && r.cq_zone is Some {
            r.cq_zone
        } else {
            exact_zone(rules.drop_last(), now, call)
        }
    }
}

/// The entity of the **first** prefix rule spelling `p` active at `now`.
pub open spec fn prefix_adif(rules: Seq<PrefixRule>, now: int, p: Seq<char>) -> Option<i32>
    decreases rules.len(),
{
    if rules.len() == 0 {
        None
    } else {
        match prefix_adif(rules.drop_last(), now, p) {
            Some(a) => Some(a),
            None => {
                let r = rules.last();
                if !r.is_exact && active(r, now) && r.call@ == p {
                    Some(r.adif)
                } else {
                    None
                }
            },
        }
    }
}

/// The zone of the first active prefix rule spelling `p` that has one.
pub open spec fn prefix_zone(rules: Seq<PrefixRule>, now: int, p: Seq<char>) -> Option<i32>
    decreases rules.len(),
{
    if rules.len() == 0 {
        None
    } else {
        match prefix_zone(rules.drop_last(), now, p) {
            Some(z) => Some(z),
            None => {
                let r = rules.last();
                if !r.is_exact && active(r, now) && r.call@ == p && r.cq_zone is Some {
                    r.cq_zone
                } else {
                    None
                }
            },
        }
    }
}

/// Length of the longest prefix of `clean` (at most `l` characters) that
/// is an active prefix rule.
pub open spec fn longest_len(rules: Seq<PrefixRule>, now: int, clean: Seq<char>, l: nat) -> Option<
    nat,
>
    decreases l,
{
    if prefix_adif(rules, now, clean.take(l as int)) is Some {
        Some(l)
    } else if l == 0 {
        None
    } else {
        longest_len(rules, now, clean, (l - 1) as nat)
    }
}

/// The location markers dropped from a `/`-portable call.
pub open spec fn portable_markers() -> Seq<&'static str> {
    seq!["P", "M", "MM", "AM", "QRP", "A", "B", "LH", "BCN"]
}

/// Bytes UTF-8 spends on one character.
pub open spec fn utf8_width(c: char) -> nat {
    if (c as u32) < 0x80 {
        1
    } else if (c as u32) < 0x800 {
        2
    } else if (c as u32) < 0x10000 {
        3
    } else {
        4
    }
}

/// UTF-8 byte length — what `str::len` counts.
pub open spec fn byte_len(s: Seq<char>) -> nat
    decreases s.len(),
{
    if s.len() == 0 {
        0
    } else {
        byte_len(s.drop_last()) + utf8_width(s.last())
    }
}

pub open spec fn is_alnum(c: char) -> bool {
    unicode_alphabetic(c) || unicode_numeric(c)
}

/// A numeric call-area suffix like `4` in `W1AW/4`: at most two bytes,
/// alphanumeric, with a digit.
pub open spec fn is_area_suffix(b: Seq<char>) -> bool {
    byte_len(b) <= 2 && (forall|j: int| 0 <= j < b.len() ==> is_alnum(#[trigger] b[j])) && (
    exists|j: int| 0 <= j < b.len() && unicode_numeric(#[trigger] b[j]))
}

/// Portable-call normalisation: portable suffixes drop (`K1JT/P` → K1JT),
/// call-area suffixes drop (`W1AW/4` → W1AW), and for a prefix override the
/// shorter side wins (`VP8/K1JT` → VP8). Empty pieces are skipped.
pub open spec fn normalize_spec(call: Seq<char>) -> Seq<char> {
    if !contains_char(call, '/') {
        call
    } else {
        let parts = split_nonempty(call, '/');
        if parts.len() != 2 {
            if parts.len() > 0 {
                parts[0]
            } else {
                call
            }
        } else {
            let a = parts[0];
            let b = parts[1];
            if views(portable_markers()).contains(b) {
                a
            } else if views(portable_markers()).contains(a) {
                b
            } else if is_area_suffix(b) {
                a
            } else if byte_len(a) <= byte_len(b) {
                a
            } else {
                b
            }
        }
    }
}

/// Portable markers drop: for a call `c` without `/`, a trailing `/P`,
/// `/M`, `/MM`, `/AM`, `/QRP`, `/A`, `/B`, `/LH` or `/BCN` is removed by
/// normalisation, so a call reading `c/S` once uppercased resolves, and
/// takes its CQ zone, exactly as one reading `c` does.
pub proof fn law_portable_marker_is_dropped(
    ents: Seq<DxccEntity>,
    rules: Seq<PrefixRule>,
    now: int,
    c: Seq<char>,
    s: Seq<char>,
    portable: Seq<char>,
    home: Seq<char>,
)
    requires
        c.len() > 0,
        !contains_char(c, '/'),
        s == "P"@ || s == "M"@ || s == "MM"@ || s == "AM"@ || s == "QRP"@ || s == "A"@ || s == "B"@
            || s == "LH"@ || s == "BCN"@,
        unicode_upper(portable) == c + seq!['/'] + s,
        unicode_upper(home) == c,
    ensures
        normalize_spec(c + seq!['/'] + s) == c,
        resolve_spec(ents, rules, now, portable) == resolve_spec(ents, rules, now, home),
        zone_spec(ents, rules, now, portable) == zone_spec(ents, rules, now, home),
{
    reveal_strlit("P");
    reveal_strlit("M");
    reveal_strlit("MM");
    reveal_strlit("AM");
    reveal_strlit("QRP");
    reveal_strlit("A");
    reveal_strlit("B");
    reveal_strlit("LH");
    reveal_strlit("BCN");
    let marks = views(portable_markers());
    assert(marks.contains(s)) by {
        if s == "P"@ {
            assert(marks[0] == s);
        } else if s == "M"@ {
            assert(marks[1] == s);
        } else if s == "MM"@ {
            assert(marks[2] == s);
        } else if s == "AM"@ {
            assert(marks[3] == s);
        } else if s == "QRP"@ {
            assert(marks[4] == s);
        } else if s == "A"@ {
            assert(marks[5] == s);
        } else if s == "B"@ {
            assert(marks[6] == s);
        } else if s == "LH"@ {
            assert(marks[7] == s);
        } else {
            assert(marks[8] == s);
        }
    }
    assert(!contains_char(s, '/'));
    crate::text::lemma_split_two(c, s, '/');
}

/// A leading portable marker drops too: `S/c`, for a marker `S` of the
/// same list and a call `c` without `/` that is not itself a marker,
/// normalises to `c`.
pub proof fn law_leading_portable_marker_is_dropped(c: Seq<char>, s: Seq<char>)
    requires
        c.len() > 0,
        !contains_char(c, '/'),
        s == "P"@ || s == "M"@ || s == "MM"@ || s == "AM"@ || s == "QRP"@ || s == "A"@ || s == "B"@
            || s == "LH"@ || s == "BCN"@,
        c != "P"@ && c != "M"@ && c != "MM"@ && c != "AM"@ && c != "QRP"@ && c != "A"@ && c != "B"@
            && c != "LH"@ && c != "BCN"@,
    ensures
        normalize_spec(s + seq!['/'] + c) == c,
{
    reveal_strlit("P");
    reveal_strlit("M");
    reveal_strlit("MM");
    reveal_strlit("AM");
    reveal_strlit("QRP");
    reveal_strlit("A");
    reveal_strlit("B");
    reveal_strlit("LH");
    reveal_strlit("BCN");
    let marks = views(portable_markers());
    assert(marks.len() == 9);
    assert(marks[0] == "P"@ && marks[1] == "M"@ && marks[2] == "MM"@ && marks[3] == "AM"@);
    assert(marks[4] == "QRP"@ && marks[5] == "A"@ && marks[6] == "B"@ && marks[7] == "LH"@);
    assert(marks[8] == "BCN"@);
    assert(!marks.contains(c)) by {
        if marks.contains(c) {
            let i = choose|i: int| 0 <= i < marks.len() && marks[i] == c;
            assert(i == 0 || i == 1 || i == 2 || i == 3 || i == 4 || i == 5 || i == 6 || i == 7 || i == 8);
        }
    }
    assert(marks.contains(s)) by {
        if s == "P"@ {
            assert(marks[0] == s);
        } else if s == "M"@ {
            assert(marks[1] == s);
        } else if s == "MM"@ {
            assert(marks[2] == s);
        } else if s == "AM"@ {
            assert(marks[3] == s);
        } else if s == "QRP"@ {
            assert(marks[4] == s);
        } else if s == "A"@ {
            assert(marks[5] == s);
        } else if s == "B"@ {
            assert(marks[6] == s);
        } else if s == "LH"@ {
            assert(marks[7] == s);
        } else {
            assert(marks[8] == s);
        }
    }
    assert(!contains_char(s, '/'));
    crate::text::lemma_split_two(s, c, '/');
}

/// `KG4` plus a three-letter suffix: an ordinary US station, not
/// Guantanamo Bay (only `KG4` + two letters is).
pub open spec fn is_us_kg4_spec(clean: Seq<char>) -> bool {
    clean.len() == 6 && clean.take(3) == "KG4"@ && (forall|j: int|
        3 <= j < 6 ==> crate::text::is_upper_ascii(#[trigger] clean[j]))
}

/// The entity a normalised call resolves to.
pub open spec fn resolve_clean(
    ents: Seq<DxccEntity>,
    rules: Seq<PrefixRule>,
    now: int,
    clean: Seq<char>,
) -> Option<i32> {
    match exact_adif(rules, now, clean) {
        Some(a) => if a > 0 {
            Some(a)
        } else {
            None
        },
        None => if is_us_kg4_spec(clean) && entity_of(ents, usa()) is Some {
            Some(usa())
        } else {
            match longest_len(rules, now, clean, clean.len()) {
                Some(l) => match prefix_adif(rules, now, clean.take(l as int)) {
                    Some(a) => if a > 0 {
                        Some(a)
                    } else {
                        None
                    },
                    None => None,
                },
                None => None,
            }
        },
    }
}

/// The entity a call resolves to: uppercased, normalised, then exact rule,
/// the US `KG4` rule, and the longest prefix in that order. Entity 0 (a
/// non-DX operation) resolves to nothing.
pub open spec fn resolve_spec(
    ents: Seq<DxccEntity>,
    rules: Seq<PrefixRule>,
    now: int,
    call: Seq<char>,
) -> Option<i32> {
    resolve_clean(ents, rules, now, normalize_spec(unicode_upper(call)))
}

/// The CQ zone of a call, before the 1–40 range check.
pub open spec fn raw_zone(
    ents: Seq<DxccEntity>,
    rules: Seq<PrefixRule>,
    now: int,
    call: Seq<char>,
) -> Option<i32> {
    let clean = normalize_spec(unicode_upper(call));
    match exact_zone(rules, now, clean) {
        Some(z) => Some(z),
        None => {
            let by_prefix = if is_us_kg4_spec(clean) {
                None
            } else {
                match longest_len(rules, now, clean, clean.len()) {
                    Some(l) => prefix_zone(rules, now, clean.take(l as int)),
                    None => None,
                }
            };
            match by_prefix {
                Some(z) => Some(z),
                None => match resolve_spec(ents, rules, now, call) {
                    Some(a) => match entity_of(ents, a) {
                        Some(e) => Some(e.cq_zone),
                        None => None,
                    },
                    None => None,
                },
            }
        },
    }
}

/// The CQ zone of a call — exact rule, longest prefix, then the resolved
/// entity's own zone — and `None` unless it lies in 1–40.
pub open spec fn zone_spec(
    ents: Seq<DxccEntity>,
    rules: Seq<PrefixRule>,
    now: int,
    call: Seq<char>,
) -> Option<i32> {
    match raw_zone(ents, rules, now, call) {
        Some(z) => if 1 <= z <= 40 {
            Some(z)
        } else {
            None
        },
        None => None,
    }
}

/// Positions of the exact rules that belong to a whitelisted entity — the
/// operations ClubLog accepts for it, whatever their dates.
pub open spec fn wl_indices(ents: Seq<DxccEntity>, rules: Seq<PrefixRule>) -> Seq<int>
    decreases rules.len(),
{
    if rules.len() == 0 {
        Seq::empty()
    } else {
        let r = rules.last();
        let rest = wl_indices(ents, rules.drop_last());
        if r.is_exact && (entity_of(ents, r.adif) matches Some(e) && e.whitelist) {
            rest.push(rules.len() - 1)
        } else {
            rest
        }
    }
}

/// `A/B` → `B/A` for a call of exactly two non-empty parts.
pub open spec fn swap_slash_spec(call: Seq<char>) -> Option<Seq<char>> {
    let parts = split_nonempty(call, '/');
    if parts.len() == 2 {
        Some(parts[1] + seq!['/'] + parts[0])
    } else {
        None
    }
}

/// Whether a whitelisted entity's list accepts `u` (or its slash-swapped
/// form) at `a`.
pub open spec fn wl_accepts(
    ents: Seq<DxccEntity>,
    rules: Seq<PrefixRule>,
    adif: i32,
    u: Seq<char>,
    a: int,
) -> bool {
    exists|i: int|
        0 <= i < wl_indices(ents, rules).len() && #[trigger] rules[wl_indices(ents, rules)[i]].adif
            == adif && (rules[wl_indices(ents, rules)[i]].call@ == u || swap_slash_spec(u) == Some(
            rules[wl_indices(ents, rules)[i]].call@,
        )) && active(rules[wl_indices(ents, rules)[i]], a)
}

proof fn lemma_wl_accepts(
    ents: Seq<DxccEntity>,
    rules: Seq<PrefixRule>,
    adif: i32,
    u: Seq<char>,
    a: int,
    i: int,
)
    requires
        0 <= i < wl_indices(ents, rules).len(),
        rules[wl_indices(ents, rules)[i]].adif == adif,
        rules[wl_indices(ents, rules)[i]].call@ == u || swap_slash_spec(u) == Some(
            rules[wl_indices(ents, rules)[i]].call@,
        ),
        active(rules[wl_indices(ents, rules)[i]], a),
    ensures
        wl_accepts(ents, rules, adif, u, a),
{
}

pub open spec fn whitelist_rejected_spec(
    ents: Seq<DxccEntity>,
    rules: Seq<PrefixRule>,
    adif: i32,
    call: Seq<char>,
    at: Option<i64>,
) -> bool {
    match entity_of(ents, adif) {
        Some(e) => e.whitelist && match at {
            None => false,
            Some(a) => if (e.whitelist_start_unix matches Some(s) && a < s) {
                false
            } else {
                !wl_accepts(ents, rules, adif, unicode_upper(call), a as int)
            },
        },
        None => false,
    }
}

/// Whether a whitelist governs a contact with `adif` at `at`: the entity
/// is known and whitelisted, the date is known, and it is not before the
/// whitelist began.
pub open spec fn whitelist_applies(ents: Seq<DxccEntity>, adif: i32, at: Option<i64>) -> bool {
    match entity_of(ents, adif) {
        Some(e) => e.whitelist && match at {
            Some(a) => !(e.whitelist_start_unix matches Some(s) && a < s),
            None => false,
        },
        None => false,
    }
}

/// Whether an active exact-call rule for `adif` names `u`, either way round
/// the slash, at `a`.
pub open spec fn listed_operation(rules: Seq<PrefixRule>, adif: i32, u: Seq<char>, a: int) -> bool {
    exists|i: int|
        0 <= i < rules.len() && #[trigger] rules[i].adif == adif && rules[i].is_exact && (rules[i].call@ == u
            || swap_slash_spec(u) == Some(rules[i].call@)) && active(rules[i], a)
}

/// A whitelist refuses only what it can place: a contact of unknown date,
/// a contact with an entity that is not whitelisted (or not known), and a
/// contact made before the entity's whitelist began are never refused by
/// it. A whitelisted entity credits only its listed operations: when the
/// whitelist applies, a call is refused exactly when no active listed
/// operation names it, whether or not the entity lists any operation at
/// all.
pub proof fn law_whitelist_refuses_only_what_it_can_place(
    ents: Seq<DxccEntity>,
    rules: Seq<PrefixRule>,
    adif: i32,
    call: Seq<char>,
    at: Option<i64>,
)
    ensures
        !whitelist_applies(ents, adif, at) ==> !whitelist_rejected_spec(ents, rules, adif, call, at),
        whitelist_applies(ents, adif, at) ==> match at {
            Some(a) => whitelist_rejected_spec(ents, rules, adif, call, at) == !listed_operation(
                rules,
                adif,
                unicode_upper(call),
                a as int,
            ),
            None => true,
        },
{
    if whitelist_applies(ents, adif, at) {
        let a = at->0;
        let u = unicode_upper(call);
        if listed_operation(rules, adif, u, a as int) {
            let j = choose|j: int|
                0 <= j < rules.len() && #[trigger] rules[j].adif == adif && rules[j].is_exact && (rules[j].call@ == u
                    || swap_slash_spec(u) == Some(rules[j].call@)) && active(rules[j], a as int);
            lemma_wl_indices_complete(ents, rules, j);
            let wl = wl_indices(ents, rules);
            let p = choose|p: int| 0 <= p < wl.len() && #[trigger] wl[p] == j;
            lemma_wl_accepts(ents, rules, adif, u, a as int, p);
        }
        if wl_accepts(ents, rules, adif, u, a as int) {
            let wl = wl_indices(ents, rules);
            let i = choose|i: int|
                0 <= i < wl.len() && #[trigger] rules[wl[i]].adif == adif && (rules[wl[i]].call@ == u
                    || swap_slash_spec(u) == Some(rules[wl[i]].call@)) && active(rules[wl[i]], a as int);
            lemma_wl_indices(ents, rules);
            assert(0 <= wl[i] < rules.len() && rules[wl[i]].is_exact);
            assert(rules[wl[i]].adif == adif);
        }
    }
}

/// Every position `wl_indices` lists is that of an exact rule.
proof fn lemma_wl_indices(ents: Seq<DxccEntity>, rules: Seq<PrefixRule>)
    ensures
        forall|i: int|
            0 <= i < wl_indices(ents, rules).len() ==> 0 <= #[trigger] wl_indices(ents, rules)[i] < rules.len()
                && rules[wl_indices(ents, rules)[i]].is_exact,
    decreases rules.len(),
{
    if rules.len() > 0 {
        let rest = rules.drop_last();
        lemma_wl_indices(ents, rest);
        let w = wl_indices(ents, rules);
        let wr = wl_indices(ents, rest);
        assert forall|i: int| 0 <= i < w.len() implies 0 <= #[trigger] w[i] < rules.len() && rules[w[i]].is_exact by {
            if i < wr.len() {
                assert(w[i] == wr[i]);
                assert(rules[wr[i]] == rest[wr[i]]);
            }
        }
    }
}

/// Every exact rule of a whitelisted entity has its position listed.
proof fn lemma_wl_indices_complete(ents: Seq<DxccEntity>, rules: Seq<PrefixRule>, j: int)
    requires
        0 <= j < rules.len(),
        rules[j].is_exact,
        entity_of(ents, rules[j].adif) matches Some(e) && e.whitelist,
    ensures
        exists|p: int| 0 <= p < wl_indices(ents, rules).len() && #[trigger] wl_indices(ents, rules)[p] == j,
    decreases rules.len(),
{
    let rest = rules.drop_last();
    let w = wl_indices(ents, rules);
    if j == rules.len() - 1 {
        assert(w[w.len() - 1] == j);
    } else {
        assert(rest[j] == rules[j]);
        lemma_wl_indices_complete(ents, rest, j);
        let wr = wl_indices(ents, rest);
        let p = choose|p: int| 0 <= p < wr.len() && #[trigger] wr[p] == j;
        assert(w[p] == wr[p]);
    }
}

/// The distinct values of `s`, in first-seen order.
pub open spec fn distinct(s: Seq<i32>) -> Seq<i32>
    decreases s.len(),
{
    if s.len() == 0 {
        s
    } else {
        add_new(distinct(s.drop_last()), s.last())
    }
}

pub open spec fn adifs_of(ents: Seq<DxccEntity>) -> Seq<i32> {
    ents.map_values(|e: DxccEntity| e.adif)
}

pub open spec fn wl_adifs(ents: Seq<DxccEntity>, rules: Seq<PrefixRule>) -> Seq<i32> {
    wl_indices(ents, rules).map_values(|i: int| rules[i].adif)
}

// ---------------------------------------------------------------------------
// The resolver
// ---------------------------------------------------------------------------

/// `m` files the position of every invalid operation under its call, and
/// files nothing else.
pub open spec fn ops_filed(m: Seq<(Seq<char>, Vec<usize>)>, ops: Seq<InvalidOperation>) -> bool {
    &&& forall|i: int|
        #![trigger ops[i]]
        0 <= i < ops.len() ==> (get(m, ops[i].call@) matches Some(ps) && ps@.contains(i as usize))
    &&& forall|e: int, j: int|
        #![trigger m[e].1@[j]]
        0 <= e < m.len() && 0 <= j < m[e].1@.len() ==> (m[e].1@[j] as int) < ops.len() && ops[m[e].1@[j] as int].call@
            == m[e].0
}

/// Filing operation `q` under its call, in the entry at `idx`.
proof fn lemma_file_op(
    m0: Seq<(Seq<char>, Vec<usize>)>,
    m1: Seq<(Seq<char>, Vec<usize>)>,
    m2: Seq<(Seq<char>, Vec<usize>)>,
    ops: Seq<InvalidOperation>,
    q: int,
    idx: int,
    ps: Vec<usize>,
    fresh: Vec<usize>,
)
    requires
        fresh@.len() == 0,
        0 <= q < ops.len(),
        q <= usize::MAX,
        distinct_keys(m0),
        distinct_keys(m1),
        ops_filed(m0, ops.take(q)),
        get(m0, ops[q].call@) is Some ==> m1 == m0,
        get(m0, ops[q].call@) is None ==> m1 == m0.push((ops[q].call@, fresh)),
        0 <= idx < m1.len(),
        m1[idx].0 == ops[q].call@,
        ps@ == m1[idx].1@.push(q as usize),
        m2 == m1.update(idx, (m1[idx].0, ps)),
    ensures
        distinct_keys(m2),
        ops_filed(m2, ops.take(q + 1)),
{
    let k = ops[q].call@;
    let t0 = ops.take(q);
    let t1 = ops.take(q + 1);
    assert forall|a: int, b: int| 0 <= a < b < m2.len() implies m2[a].0 != m2[b].0 by {
        assert(m2[a].0 == m1[a].0 && m2[b].0 == m1[b].0);
    }
    lemma_get_at(m1, idx);
    assert forall|i: int| #![trigger t1[i]] 0 <= i < t1.len() implies (get(m2, t1[i].call@) matches Some(p2)
        && p2@.contains(i as usize)) by {
        lemma_key_index_props(m2, t1[i].call@);
        lemma_key_index_props(m1, t1[i].call@);
        if i == q {
            lemma_get_at(m2, idx);
            assert(ps@[ps@.len() - 1] == q as usize);
        } else {
            assert(t1[i] == t0[i]);
            let c = t0[i].call@;
            lemma_key_index_props(m0, c);
            let p0 = get(m0, c)->0;
            let w = choose|w: int| 0 <= w < p0@.len() && p0@[w] == i as usize;
            let e = key_index(m1, c);
            if m1 == m0 {
                assert(e == key_index(m0, c));
            } else {
                lemma_get_at(m1, key_index(m0, c));
            }
            if e == idx {
                assert(ps@[w] == i as usize);
            } else {
                lemma_get_at(m2, e);
            }
        }
    }
    assert forall|e: int, j: int| #![trigger m2[e].1@[j]] 0 <= e < m2.len() && 0 <= j < m2[e].1@.len() implies (
    m2[e].1@[j] as int) < t1.len() && t1[m2[e].1@[j] as int].call@ == m2[e].0 by {
        if e == idx {
            if j < m1[idx].1@.len() {
                assert(ps@[j] == m1[idx].1@[j]);
                if m1 == m0 {
                    assert(m0[idx].1@[j] == m1[idx].1@[j]);
                } else if idx < m0.len() {
                    assert(m0[idx].1@[j] == m1[idx].1@[j]);
                }
            }
        } else {
            assert(m2[e] == m1[e]);
            if m1 != m0 && e == m0.len() {
                assert(m1[e].1@.len() == 0);
            } else {
                assert(m1[e] == m0[e]);
            }
        }
    }
}

pub struct DxccResolver {
    entities: Vec<DxccEntity>,
    rules: Vec<PrefixRule>,
    invalid: Vec<InvalidOperation>,
    /// Call → the positions of its invalid operations.
    invalid_calls: StrMap<Vec<usize>>,
    now: i64,
    entity_count: usize,
    exact: StrMap<i32>,
    prefix: StrMap<i32>,
    exact_zones: StrMap<i32>,
    prefix_zones: StrMap<i32>,
    whitelist: Vec<usize>,
}

impl DxccResolver {
    /// The entities it was loaded with.
    pub closed spec fn ents(&self) -> Seq<DxccEntity> {
        self.entities@
    }

    /// Every prefix/exception rule it was loaded with, active or not.
    pub closed spec fn rules(&self) -> Seq<PrefixRule> {
        self.rules@
    }

    /// The invalid-operation list it was loaded with.
    pub closed spec fn ops(&self) -> Seq<InvalidOperation> {
        self.invalid@
    }

    /// The load time rule activity was judged at.
    pub closed spec fn now(&self) -> int {
        self.now as int
    }

    #[verifier::type_invariant]
    closed spec fn inv(&self) -> bool {
        &&& self.exact.wf()
        &&& self.prefix.wf()
        &&& self.exact_zones.wf()
        &&& self.prefix_zones.wf()
        &&& self.invalid_calls.wf()
        &&& ops_filed(self.invalid_calls.model(), self.invalid@)
        &&& forall|k: Seq<char>| #[trigger]
            get(self.exact.model(), k) == exact_adif(self.rules@, self.now as int, k)
        &&& forall|k: Seq<char>| #[trigger]
            get(self.prefix.model(), k) == prefix_adif(self.rules@, self.now as int, k)
        &&& forall|k: Seq<char>| #[trigger]
            get(self.exact_zones.model(), k) == exact_zone(self.rules@, self.now as int, k)
        &&& forall|k: Seq<char>| #[trigger]
            get(self.prefix_zones.model(), k) == prefix_zone(self.rules@, self.now as int, k)
        &&& self.whitelist@.map_values(|i: usize| i as int) == wl_indices(
            self.entities@,
            self.rules@,
        )
        &&& forall|i: int| 0 <= i < self.whitelist@.len() ==> #[trigger] self.whitelist@[i]
            < self.rules@.len()
        &&& self.entity_count == distinct(adifs_of(self.entities@)).len()
    }

    /// An empty resolver: nothing loaded, nothing resolves.
    pub fn new() -> (r: DxccResolver)
        ensures
            r.ents() == Seq::<DxccEntity>::empty(),
            r.rules() == Seq::<PrefixRule>::empty(),
            r.ops() == Seq::<InvalidOperation>::empty(),
    {
        let entities: Vec<DxccEntity> = Vec::new();
        let rules: Vec<PrefixRule> = Vec::new();
        let whitelist: Vec<usize> = Vec::new();
        assert(whitelist@.map_values(|i: usize| i as int) =~= Seq::<int>::empty());
        assert(distinct(adifs_of(entities@)) =~= Seq::<i32>::empty());
        assert(wl_indices(entities@, rules@) =~= Seq::<int>::empty());
        DxccResolver {
            entities,
            rules,
            invalid: Vec::new(),
            invalid_calls: StrMap::new(),
            now: 0,
            entity_count: 0,
            exact: StrMap::new(),
            prefix: StrMap::new(),
            exact_zones: StrMap::new(),
            prefix_zones: StrMap::new(),
            whitelist,
        }
    }

    pub fn is_loaded(&self) -> (r: bool)
        ensures
            r == (self.ents().len() > 0),
    {
        self.entities.len() > 0
    }

    /// Number of distinct entities.
    pub fn entity_count(&self) -> (r: usize)
        ensures
            r == distinct(adifs_of(self.ents())).len(),
    {
        proof {
            use_type_invariant(self);
        }
        self.entity_count
    }

    /// Replace everything with `data`; rule activity is judged at
    /// `now_unix` (the caller supplies the clock).
    pub fn load(&mut self, data: CtyData, now_unix: i64)
        ensures
            final(self).ents() == data.entities@,
            final(self).rules() == data.prefix_rules@,
            final(self).ops() == data.invalid_operations@,
            final(self).now() == now_unix,
    {
        *self = Self::from_data(data, now_unix);
    }

    /// A resolver loaded with `data` at `now_unix`.
    pub fn from_data(data: CtyData, now_unix: i64) -> (r: DxccResolver)
        ensures
            r.ents() == data.entities@,
            r.rules() == data.prefix_rules@,
            r.ops() == data.invalid_operations@,
            r.now() == now_unix,
    {
        let CtyData { entities, prefix_rules: rules, invalid_operations: invalid } = data;
        let now = now_unix;
        // distinct entity count
        let mut seen = IntSet::new();
        let mut i: usize = 0;
        assert(adifs_of(entities@).take(0) =~= Seq::<i32>::empty());
        while i < entities.len()
            invariant
                i <= entities.len(),
                seen.wf(),
                seen.model() == distinct(adifs_of(entities@).take(i as int)),
            decreases entities.len() - i,
        {
            assert(adifs_of(entities@).take(i + 1).drop_last() =~= adifs_of(entities@).take(
                i as int,
            ));
            seen.insert(entities[i].adif);
            i = i + 1;
        }
        assert(adifs_of(entities@).take(entities.len() as int) =~= adifs_of(entities@));
        let entity_count = seen.len();
        // rule tables
        let mut exact: StrMap<i32> = StrMap::new();
        let mut prefix: StrMap<i32> = StrMap::new();
        let mut exact_zones: StrMap<i32> = StrMap::new();
        let mut prefix_zones: StrMap<i32> = StrMap::new();
        let mut whitelist: Vec<usize> = Vec::new();
        let mut j: usize = 0;
        assert(rules@.take(0) =~= Seq::<PrefixRule>::empty());
        assert(whitelist@.map_values(|i: usize| i as int) =~= Seq::<int>::empty());
        while j < rules.len()
            invariant
                j <= rules.len(),
                exact.wf(),
                prefix.wf(),
                exact_zones.wf(),
                prefix_zones.wf(),
                forall|k: Seq<char>| #[trigger]
                    get(exact.model(), k) == exact_adif(rules@.take(j as int), now as int, k),
                forall|k: Seq<char>| #[trigger]
                    get(prefix.model(), k) == prefix_adif(rules@.take(j as int), now as int, k),
                forall|k: Seq<char>| #[trigger]
                    get(exact_zones.model(), k) == exact_zone(rules@.take(j as int), now as int, k),
                forall|k: Seq<char>| #[trigger]
                    get(prefix_zones.model(), k) == prefix_zone(
                        rules@.take(j as int),
                        now as int,
                        k,
                    ),
                whitelist@.map_values(|i: usize| i as int) == wl_indices(
                    entities@,
                    rules@.take(j as int),
                ),
                forall|i: int| 0 <= i < whitelist@.len() ==> #[trigger] whitelist@[i] < j,
            decreases rules.len() - j,
        {
            let ghost pre = rules@.take(j as int);
            let ghost cur = rules@.take(j + 1);
            assert(cur.drop_last() =~= pre);
            assert(cur.last() == rules@[j as int]);
            let r = &rules[j];
            let ghost ek = exact.model();
            let ghost pk = prefix.model();
            let ghost ezk = exact_zones.model();
            let ghost pzk = prefix_zones.model();
            // whitelist (all dates)
            if r.is_exact {
                let ei = find_entity(&entities, r.adif);
                if ei < entities.len() && entities[ei].whitelist {
                    let ghost before = whitelist@;
                    whitelist.push(j);
                    assert(whitelist@.map_values(|i: usize| i as int) =~= before.map_values(
                        |i: usize| i as int,
                    ).push(j as int));
                }
            }
            let on = r.is_active(now);
            if on && r.is_exact {
                exact.insert(r.call.clone(), r.adif);
                proof {
                    assert forall|k: Seq<char>| #[trigger]
                        get(exact.model(), k) == exact_adif(cur, now as int, k) by {
                        crate::assoc::lemma_upsert_get(ek, r.call@, r.adif, k);
                    }
                }
                if let Some(z) = r.cq_zone {
                    exact_zones.insert(r.call.clone(), z);
                    proof {
                        assert forall|k: Seq<char>| #[trigger]
                            get(exact_zones.model(), k) == exact_zone(cur, now as int, k) by {
                            crate::assoc::lemma_upsert_get(ezk, r.call@, z, k);
                        }
                    }
                }
            } else if on {
                let rc = chars_of(r.call.as_str());
                if !prefix.contains(rc.as_slice()) {
                    prefix.insert(r.call.clone(), r.adif);
                    proof {
                        assert forall|k: Seq<char>| #[trigger]
                            get(prefix.model(), k) == prefix_adif(cur, now as int, k) by {
                            crate::assoc::lemma_upsert_get(pk, r.call@, r.adif, k);
                        }
                    }
                }
                if let Some(z) = r.cq_zone {
                    if !prefix_zones.contains(rc.as_slice()) {
                        prefix_zones.insert(r.call.clone(), z);
                        proof {
                            assert forall|k: Seq<char>| #[trigger]
                                get(prefix_zones.model(), k) == prefix_zone(cur, now as int, k) by {
                                crate::assoc::lemma_upsert_get(pzk, r.call@, z, k);
                            }
                        }
                    }
                }
            }
            j = j + 1;
        }
        assert(rules@.take(rules.len() as int) =~= rules@);
        // invalid operations, filed by call
        let mut invalid_calls: StrMap<Vec<usize>> = StrMap::new();
        let mut q: usize = 0;
        assert(invalid@.take(0) =~= Seq::<InvalidOperation>::empty());
        while q < invalid.len()
            invariant
                q <= invalid.len(),
                invalid_calls.wf(),
                ops_filed(invalid_calls.model(), invalid@.take(q as int)),
            decreases invalid.len() - q,
        {
            let ghost m0 = invalid_calls.model();
            let fresh: Vec<usize> = Vec::new();
            let ghost fv = fresh;
            let idx = invalid_calls.index_or_insert(invalid[q].call.clone(), fresh);
            let ghost m1 = invalid_calls.model();
            let mut ps = invalid_calls.replace_value(idx, Vec::new());
            ps.push(q);
            let ghost psv = ps;
            let _ = invalid_calls.replace_value(idx, ps);
            proof {
                assert(invalid_calls.model() =~= m1.update(idx as int, (m1[idx as int].0, psv)));
                lemma_file_op(m0, m1, invalid_calls.model(), invalid@, q as int, idx as int, psv, fv);
            }
            q = q + 1;
        }
        assert(invalid@.take(invalid.len() as int) =~= invalid@);
        DxccResolver {
            entities,
            rules,
            invalid,
            invalid_calls,
            now,
            entity_count,
            exact,
            prefix,
            exact_zones,
            prefix_zones,
            whitelist,
        }
    }
}


impl DxccResolver {
    /// The entity a call resolves to; `None` when unloaded, unmatched, or a
    /// ClubLog non-DX operation (an exact rule with entity 0).
    pub fn resolve(&self, callsign: &str) -> (r: Option<i32>)
        ensures
            r == resolve_spec(self.ents(), self.rules(), self.now(), callsign@),
    {
        let clean = clean_call(callsign);
        self.resolve_clean(clean.as_slice())
    }

    fn resolve_clean(&self, clean: &[char]) -> (r: Option<i32>)
        ensures
            r == resolve_clean(self.ents(), self.rules(), self.now(), clean@),
    {
        proof {
            use_type_invariant(self);
        }
        match self.exact.get(clean) {
            Some(a) => {
                return if *a > 0 {
                    Some(*a)
                } else {
                    None
                };
            },
            None => {},
        }
        if is_us_kg4(clean) && find_entity(&self.entities, 291) < self.entities.len() {
            return Some(291);
        }
        match self.longest_prefix(clean) {
            Some(l) => {
                let p = slice_vec(clean, 0, l);
                assert(p@ == clean@.take(l as int));
                match self.prefix.get(p.as_slice()) {
                    Some(a) => if *a > 0 {
                        Some(*a)
                    } else {
                        None
                    },
                    None => None,
                }
            },
            None => None,
        }
    }

    /// Length of the longest active prefix rule `clean` starts with.
    fn longest_prefix(&self, clean: &[char]) -> (r: Option<usize>)
        ensures
            r is None <==> longest_len(self.rules(), self.now(), clean@, clean@.len()) is None,
            r matches Some(l) ==> longest_len(self.rules(), self.now(), clean@, clean@.len())
                == Some(l as nat) && l <= clean@.len(),
    {
        proof {
            use_type_invariant(self);
        }
        let mut l: usize = clean.len();
        loop
            invariant
                l <= clean.len(),
                longest_len(self.rules(), self.now(), clean@, clean@.len()) == longest_len(
                    self.rules(),
                    self.now(),
                    clean@,
                    l as nat,
                ),
            decreases l,
        {
            proof {
                use_type_invariant(self);
            }
            let p = slice_vec(clean, 0, l);
            assert(p@ == clean@.take(l as int));
            if self.prefix.contains(p.as_slice()) {
                return Some(l);
            }
            if l == 0 {
                return None;
            }
            l = l - 1;
        }
    }

    /// The CQ zone for a callsign — exact rule, longest prefix (skipped for
    /// a US `KG4` call), then the resolved entity's zone; `None` outside
    /// 1–40.
    pub fn zone(&self, callsign: &str) -> (r: Option<i32>)
        ensures
            r == zone_spec(self.ents(), self.rules(), self.now(), callsign@),
    {
        proof {
            use_type_invariant(self);
        }
        let clean = clean_call(callsign);
        let c = clean.as_slice();
        let z: Option<i32> = match self.exact_zones.get(c) {
            Some(z) => Some(*z),
            None => {
                let by_prefix: Option<i32> = if is_us_kg4(c) {
                    None
                } else {
                    match self.longest_prefix(c) {
                        Some(l) => {
                            let p = slice_vec(c, 0, l);
                            assert(p@ == clean@.take(l as int));
                            match self.prefix_zones.get(p.as_slice()) {
                                Some(z) => Some(*z),
                                None => None,
                            }
                        },
                        None => None,
                    }
                };
                match by_prefix {
                    Some(z) => Some(z),
                    None => match self.resolve(callsign) {
                        Some(a) => {
                            let ei = find_entity(&self.entities, a);
                            if ei < self.entities.len() {
                                Some(self.entities[ei].cq_zone)
                            } else {
                                None
                            }
                        },
                        None => None,
                    },
                }
            },
        };
        match z {
            Some(z) => if 1 <= z && z <= 40 {
                Some(z)
            } else {
                None
            },
            None => None,
        }
    }

    /// True when ClubLog flags the call as a non-DX operation (beacons,
    /// satellites, gateways — exact records with entity 0).
    pub fn is_non_dx_operation(&self, callsign: &str) -> (r: bool)
        ensures
            r == (exact_adif(
                self.rules(),
                self.now(),
                normalize_spec(unicode_upper(callsign@)),
            ) == Some(0i32)),
    {
        proof {
            use_type_invariant(self);
        }
        let clean = clean_call(callsign);
        match self.exact.get(clean.as_slice()) {
            Some(a) => *a == 0,
            None => false,
        }
    }

    /// True when the call (uppercased, **not** normalised) is on the
    /// invalid-operation list with a window covering `at_unix`.
    pub fn is_invalid_operation(&self, callsign: &str, at_unix: Option<i64>) -> (r: bool)
        ensures
            r == (exists|i: int|
                0 <= i < self.ops().len() && #[trigger] self.ops()[i].call@ == unicode_upper(
                    callsign@,
                ) && covers(self.ops()[i], at_unix)),
    {
        proof {
            use_type_invariant(self);
        }
        let up = to_upper(callsign);
        let u = chars_of(up.as_str());
        let ghost m = self.invalid_calls.model();
        let ghost ops = self.invalid@;
        let e = self.invalid_calls.index_of(u.as_slice());
        proof {
            lemma_key_index_props(m, u@);
        }
        if e >= self.invalid_calls.len() {
            proof {
                assert forall|i: int| 0 <= i < ops.len() implies !(#[trigger] ops[i].call@ == u@ && covers(
                    ops[i],
                    at_unix,
                )) by {
                    if ops[i].call@ == u@ {
                        assert(get(m, ops[i].call@) is Some);
                    }
                }
            }
            return false;
        }
        let ps = self.invalid_calls.value_at(e);
        proof {
            lemma_get_at(m, e as int);
        }
        let mut j: usize = 0;
        while j < ps.len()
            invariant
                j <= ps@.len(),
                m == self.invalid_calls.model(),
                ops == self.invalid@,
                distinct_keys(m),
                ops_filed(m, ops),
                (e as int) < m.len(),
                m[e as int].0 == u@,
                *ps == m[e as int].1,
                get(m, u@) == Some(m[e as int].1),
                u@ == unicode_upper(callsign@),
                forall|t: int| 0 <= t < j ==> !covers(ops[ps@[t] as int], at_unix),
            decreases ps@.len() - j,
        {
            let p = ps[j];
            assert(m[e as int].1@[j as int] == p);
            assert(ops[p as int].call@ == u@);
            if self.invalid[p].covers(at_unix) {
                assert(self.ops()[p as int].call@ == unicode_upper(callsign@) && covers(self.ops()[p as int], at_unix));
                return true;
            }
            j = j + 1;
        }
        let n_ops = self.invalid.len();
        proof {
            assert(ops.len() == n_ops);
            assert forall|i: int| 0 <= i < ops.len() implies !(#[trigger] ops[i].call@ == u@ && covers(
                ops[i],
                at_unix,
            )) by {
                if ops[i].call@ == u@ {
                    assert(get(m, ops[i].call@) == Some(m[e as int].1));
                    assert(m[e as int].1@.contains(i as usize));
                    assert(ps@ == m[e as int].1@);
                    let t = choose|t: int| 0 <= t < ps@.len() && ps@[t] == i as usize;
                    assert(t < j);
                    assert(ps@[t] as int == i);
                    assert(!covers(ops[ps@[t] as int], at_unix));
                }
            }
        }
        false
    }

    /// How many invalid-operation entries are loaded.
    pub fn invalid_operation_count(&self) -> (r: usize)
        ensures
            r == self.ops().len(),
    {
        self.invalid.len()
    }

    /// How many entities are whitelisted and list at least one accepted
    /// operation.
    pub fn whitelisted_entity_count(&self) -> (r: usize)
        ensures
            r == distinct(wl_adifs(self.ents(), self.rules())).len(),
    {
        proof {
            use_type_invariant(self);
        }
        let ghost wl = wl_adifs(self.ents(), self.rules());
        let mut seen = IntSet::new();
        let mut i: usize = 0;
        assert(wl.take(0) =~= Seq::<i32>::empty());
        while i < self.whitelist.len()
            invariant
                i <= self.whitelist.len(),
                wl.len() == self.whitelist@.len(),
                forall|k: int| 0 <= k < wl.len() ==> #[trigger] wl[k] == self.rules@[self.whitelist@[k] as int].adif,
                forall|k: int| 0 <= k < self.whitelist@.len() ==> #[trigger] self.whitelist@[k] < self.rules@.len(),
                seen.wf(),
                seen.model() == distinct(wl.take(i as int)),
            decreases self.whitelist.len() - i,
        {
            assert(wl.take(i + 1).drop_last() =~= wl.take(i as int));
            let idx = self.whitelist[i];
            seen.insert(self.rules[idx].adif);
            i = i + 1;
        }
        assert(wl.take(self.whitelist.len() as int) =~= wl);
        seen.len()
    }

    /// True when `adif` is a whitelisted entity and `call` is not one of
    /// the operations ClubLog accepts for it at `at_unix` — either way round
    /// the slash; a whitelisted entity that lists no operation refuses
    /// every call. An unknown time, a date before the whitelist began, or an
    /// entity that is not whitelisted never rejects.
    pub fn is_whitelist_rejected(&self, adif: i32, call: &str, at_unix: Option<i64>) -> (r: bool)
        ensures
            r == whitelist_rejected_spec(self.ents(), self.rules(), adif, call@, at_unix),
    {
        proof {
            use_type_invariant(self);
        }
        let ghost wl = wl_indices(self.ents(), self.rules());
        assert(forall|k: int| 0 <= k < self.whitelist@.len() ==> #[trigger] wl[k] == self.whitelist@[k] as int);
        let ei = find_entity(&self.entities, adif);
        if ei >= self.entities.len() || !self.entities[ei].whitelist {
            return false;
        }
        let at = match at_unix {
            Some(a) => a,
            None => return false,
        };
        if let Some(s) = self.entities[ei].whitelist_start_unix {
            if at < s {
                return false;
            }
        }
        let up = to_upper(call);
        let u = chars_of(up.as_str());
        let alt = swap_slash(u.as_slice());
        let mut k: usize = 0;
        while k < self.whitelist.len()
            invariant
                k <= self.whitelist.len(),
                wl == wl_indices(self.ents(), self.rules()),
                at_unix == Some(at),
                entity_of(self.ents(), adif) matches Some(e) && e.whitelist,
                !(entity_of(self.ents(), adif) matches Some(e) && (e.whitelist_start_unix matches Some(
                    s,
                ) && at < s)),
                wl.len() == self.whitelist@.len(),
                forall|q: int| 0 <= q < self.whitelist@.len() ==> #[trigger] wl[q] == self.whitelist@[q] as int,
                forall|q: int| 0 <= q < self.whitelist@.len() ==> #[trigger] self.whitelist@[q] < self.rules@.len(),
                u@ == unicode_upper(call@),
                alt.is_some() == swap_slash_spec(u@).is_some(),
                alt matches Some(a) ==> swap_slash_spec(u@) == Some(a@),
                forall|q: int|
                    0 <= q < k ==> !(#[trigger] self.rules@[wl[q]].adif == adif && (
                    self.rules@[wl[q]].call@ == u@ || swap_slash_spec(u@) == Some(
                        self.rules@[wl[q]].call@,
                    )) && active(self.rules@[wl[q]], at as int)),
            decreases self.whitelist.len() - k,
        {
            let r = &self.rules[self.whitelist[k]];
            if r.adif == adif {
                let rc = chars_of(r.call.as_str());
                let same = chars_eq(rc.as_slice(), u.as_slice());
                let swapped = match &alt {
                    Some(a) => chars_eq(rc.as_slice(), a.as_slice()),
                    None => false,
                };
                if (same || swapped) && r.is_active(at) {
                    proof {
                        let w = wl[k as int];
                        assert(w == self.whitelist@[k as int] as int);
                        assert(self.rules()[w].adif == adif && (self.rules()[w].call@ == u@
                            || swap_slash_spec(u@) == Some(self.rules()[w].call@)) && active(
                            self.rules()[w],
                            at as int,
                        ));
                        lemma_wl_accepts(self.ents(), self.rules(), adif, u@, at as int, k as int);

                    }
                    return false;
                }
            }
            k = k + 1;
        }
        true
    }

    /// ADIF ids of every deleted entity.
    pub fn deleted_adifs(&self) -> (r: std::collections::HashSet<i32>)
        ensures
            r@ == Set::new(|a: i32| entity_of(self.ents(), a) matches Some(e) && e.deleted),
    {
        broadcast use vstd::std_specs::hash::group_hash_axioms;

        let mut out: std::collections::HashSet<i32> = std::collections::HashSet::new();
        let mut i: usize = 0;
        while i < self.entities.len()
            invariant
                i <= self.entities.len(),
                forall|a: i32| #[trigger]
                    out@.contains(a) == (entity_of(self.entities@, a) matches Some(e) && e.deleted
                        && exists|j: int| 0 <= j < i && self.entities@[j].adif == a),
            decreases self.entities.len() - i,
        {
            let a = self.entities[i].adif;
            let fi = find_entity(&self.entities, a);
            if fi < self.entities.len() && self.entities[fi].deleted {
                out.insert(a);
            }
            assert(self.entities@[i as int].adif == a);
            i = i + 1;
        }
        proof {
            assert forall|a: i32| #[trigger] out@.contains(a) == (entity_of(self.entities@, a) matches Some(e)
                && e.deleted) by {
                if entity_of(self.entities@, a) is Some {
                    lemma_entity_found(self.entities@, a);
                }
            }
        }
        assert(out@ =~= Set::new(|a: i32| entity_of(self.ents(), a) matches Some(e) && e.deleted));
        out
    }

    pub fn entity(&self, adif: i32) -> (r: Option<&DxccEntity>)
        ensures
            r == (match entity_of(self.ents(), adif) {
                Some(e) => Some(&e),
                None => None::<&DxccEntity>,
            }),
    {
        let i = find_entity(&self.entities, adif);
        if i < self.entities.len() {
            Some(&self.entities[i])
        } else {
            None
        }
    }

    /// The name of the entity a call resolves to.
    pub fn entity_name(&self, callsign: &str) -> (r: Option<&str>)
        ensures
            match resolve_spec(self.ents(), self.rules(), self.now(), callsign@) {
                Some(a) => match entity_of(self.ents(), a) {
                    Some(e) => r matches Some(n) && n@ == e.name@,
                    None => r is None,
                },
                None => r is None,
            },
    {
        match self.resolve(callsign) {
            Some(a) => match self.entity(a) {
                Some(e) => Some(e.name.as_str()),
                None => None,
            },
            None => None,
        }
    }
}

impl Default for DxccResolver {
    fn default() -> (r: DxccResolver)
        ensures
            r.ents() == Seq::<DxccEntity>::empty(),
            r.rules() == Seq::<PrefixRule>::empty(),
            r.ops() == Seq::<InvalidOperation>::empty(),
    {
        DxccResolver::new()
    }
}

proof fn lemma_entity_found(ents: Seq<DxccEntity>, a: i32)
    requires
        entity_of(ents, a) is Some,
    ensures
        exists|j: int| 0 <= j < ents.len() && ents[j].adif == a,
    decreases ents.len(),
{
    if ents[0].adif != a {
        lemma_entity_found(ents.drop_first(), a);
        let j = choose|j: int| 0 <= j < ents.drop_first().len() && ents.drop_first()[j].adif == a;
        assert(ents[j + 1].adif == a);
    }
}

/// `normalize_spec(upper(call))` as characters.
fn clean_call(callsign: &str) -> (r: Vec<char>)
    ensures
        r@ == normalize_spec(unicode_upper(callsign@)),
{
    let up = to_upper(callsign);
    let u = chars_of(up.as_str());
    normalize_call(u.as_slice())
}

fn portable_table() -> (v: Vec<&'static str>)
    ensures
        v@ == portable_markers(),
{
    let v = vec!["P", "M", "MM", "AM", "QRP", "A", "B", "LH", "BCN"];
    assert(v@ =~= portable_markers());
    v
}

/// UTF-8 byte length of `v`.
fn byte_length(v: &[char]) -> (n: u128)
    ensures
        n == byte_len(v@),
{
    let mut n: u128 = 0;
    let mut i: usize = 0;
    while i < v.len()
        invariant
            i <= v.len(),
            n == byte_len(v@.take(i as int)),
            n <= 4 * i,
        decreases v.len() - i,
    {
        assert(v@.take(i + 1).drop_last() =~= v@.take(i as int));
        let c = v[i] as u32;
        let w: u128 = if c < 0x80 {
            1
        } else if c < 0x800 {
            2
        } else if c < 0x10000 {
            3
        } else {
            4
        };
        n = n + w;
        i = i + 1;
    }
    assert(v@.take(v.len() as int) =~= v@);
    n
}

fn area_suffix(b: &[char]) -> (r: bool)
    ensures
        r == is_area_suffix(b@),
{
    if byte_length(b) > 2 {
        return false;
    }
    let mut all = true;
    let mut any = false;
    let mut i: usize = 0;
    while i < b.len()
        invariant
            i <= b.len(),
            all == (forall|j: int| 0 <= j < i ==> is_alnum(#[trigger] b@[j])),
            any == (exists|j: int| 0 <= j < i && unicode_numeric(#[trigger] b@[j])),
        decreases b.len() - i,
    {
        let alpha = is_alphabetic(b[i]);
        let num = is_numeric(b[i]);
        if !(alpha || num) {
            all = false;
        }
        if num {
            any = true;
        }
        i = i + 1;
    }
    all && any
}

/// Portable-call normalisation (see [`normalize_spec`]).
fn normalize_call(call: &[char]) -> (r: Vec<char>)
    ensures
        r@ == normalize_spec(call@),
{
    let slash = find_char(call, 0, call.len(), '/');
    if slash >= call.len() {
        return slice_vec(call, 0, call.len());
    }
    let parts = split_nonempty_vec(call, '/');
    if parts.len() != 2 {
        if parts.len() > 0 {
            return slice_vec(parts[0].as_slice(), 0, parts[0].len());
        }
        return slice_vec(call, 0, call.len());
    }
    let a = parts[0].as_slice();
    let b = parts[1].as_slice();
    let markers = portable_table();
    if is_one_of(markers.as_slice(), b) {
        return slice_vec(a, 0, a.len());
    }
    if is_one_of(markers.as_slice(), a) {
        return slice_vec(b, 0, b.len());
    }
    if area_suffix(b) {
        return slice_vec(a, 0, a.len());
    }
    if byte_length(a) <= byte_length(b) {
        slice_vec(a, 0, a.len())
    } else {
        slice_vec(b, 0, b.len())
    }
}

fn is_us_kg4(clean: &[char]) -> (r: bool)
    ensures
        r == is_us_kg4_spec(clean@),
{
    if clean.len() != 6 {
        return false;
    }
    let kg4 = chars_of("KG4");
    proof {
        reveal_strlit("KG4");
    }
    if !crate::text::vec_starts_with(clean, kg4.as_slice()) {
        return false;
    }
    crate::text::is_upper_char(clean[3]) && crate::text::is_upper_char(clean[4])
        && crate::text::is_upper_char(clean[5])
}

/// `A/B` → `B/A` for a call with exactly two non-empty parts.
fn swap_slash(call: &[char]) -> (r: Option<Vec<char>>)
    ensures
        r.is_some() == swap_slash_spec(call@).is_some(),
        r matches Some(v) ==> swap_slash_spec(call@) == Some(v@),
{
    let parts = split_nonempty_vec(call, '/');
    if parts.len() != 2 {
        return None;
    }
    let mut out: Vec<char> = Vec::new();
    extend_chars(&mut out, parts[1].as_slice());
    out.push('/');
    extend_chars(&mut out, parts[0].as_slice());
    assert(out@ =~= parts[1]@ + seq!['/'] + parts[0]@);
    Some(out)
}

} // verus!

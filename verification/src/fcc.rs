//! The FCC amateur licence dump distilled into a call → state table:
//! `HD.dat` gives the active licences, `EN.dat` the call and address of
//! each, and the result is the sorted `CALL ST` text the state lookup
//! reads. Fetching and unzipping the dump is the application's.

use crate::assoc::{distinct_keys, get, key_index, lemma_get_at, lemma_key_index, lemma_key_index_props, lemma_upsert_get, upsert};
use crate::awards::{normalize_state, state_code, us_states};
use crate::text::{
    all_digits, chars_of, digits_value, is_ws, is_ws_char, parse_digits, parse_unsigned, slice_vec, split,
    split_vec, string_of, trail_ws, trim, trim_end, trim_vec, upper_vec, upper, views, lemma_trail_ws,
    eq_lit, decimal,
};
use vstd::prelude::*;

verus! {

broadcast use vstd::std_specs::hash::group_hash_axioms;

// --- reading lines -------------------------------------------------------------

/// The records of a dump text: its `\n`-separated lines, each with
/// trailing whitespace removed.
pub open spec fn dump_lines(text: Seq<char>) -> Seq<Seq<char>> {
    split(text, '\n').map_values(|l: Seq<char>| trim_end(l))
}

/// `str::parse::<u64>`.
pub open spec fn parse_u64(s: Seq<char>) -> Option<u64> {
    match parse_unsigned(s, u64::MAX as nat) {
        Some(v) => Some(v as u64),
        None => None,
    }
}

fn parse_u64_chars(v: &[char]) -> (r: Option<u64>)
    ensures
        r == parse_u64(v@),
{
    let lo: usize = if v.len() > 0 && v[0] == '+' { 1 } else { 0 };
    let r = parse_digits(v, lo, v.len(), u64::MAX);
    assert(v@.subrange(lo as int, v.len() as int) =~= (if v@.len() > 0 && v@[0] == '+' {
        v@.drop_first()
    } else {
        v@
    }));
    r
}

fn trim_end_vec(v: &[char]) -> (r: Vec<char>)
    ensures
        r@ == trim_end(v@),
{
    let mut hi = v.len();
    while hi > 0 && is_ws_char(v[hi - 1])
        invariant
            hi <= v.len(),
            forall|j: int| hi <= j < v.len() ==> is_ws(v@[j]),
        decreases hi,
    {
        hi = hi - 1;
    }
    proof {
        lemma_trail_ws(v@, v.len() - hi);
    }
    let r = slice_vec(v, 0, hi);
    assert(r@ =~= trim_end(v@));
    r
}

/// The lines of a dump, as `dump_lines` describes them.
fn lines_of(text: &str) -> (r: Vec<Vec<char>>)
    ensures
        r@.len() == dump_lines(text@).len(),
        forall|k: int| 0 <= k < r@.len() ==> #[trigger] r@[k]@ == dump_lines(text@)[k],
{
    let v = chars_of(text);
    let parts = split_vec(v.as_slice(), '\n');
    let mut out: Vec<Vec<char>> = Vec::new();
    let mut i: usize = 0;
    while i < parts.len()
        invariant
            i <= parts.len(),
            parts@.len() == split(v@, '\n').len(),
            forall|k: int| 0 <= k < parts@.len() ==> #[trigger] parts@[k]@ == split(v@, '\n')[k],
            out@.len() == i,
            v@ == text@,
            dump_lines(text@).len() == parts@.len(),
            forall|k: int| 0 <= k < i ==> #[trigger] out@[k]@ == dump_lines(text@)[k],
        decreases parts.len() - i,
    {
        assert(dump_lines(text@)[i as int] == trim_end(split(v@, '\n')[i as int]));
        out.push(trim_end_vec(parts[i].as_slice()));
        i = i + 1;
    }
    out
}

// --- HD.dat -------------------------------------------------------------------

/// The licence an `HD` record marks active: `HD|usi|…|…|…|status|…` with
/// status `A` and a numeric unique system identifier.
pub open spec fn hd_active(line: Seq<char>) -> Option<u64> {
    let f = split(line, '|');
    if f.len() > 5 && f[5] == "A"@ {
        parse_u64(f[1])
    } else {
        None
    }
}

/// Every active licence in `HD.dat`.
pub open spec fn active_set(text: Seq<char>) -> Set<u64> {
    Set::new(|u: u64| exists|i: int| 0 <= i < dump_lines(text).len() && #[trigger] hd_active(dump_lines(text)[i]) == Some(u))
}

fn hd_line(line: &[char]) -> (r: Option<u64>)
    ensures
        r == hd_active(line@),
{
    let f = split_vec(line, '|');
    if f.len() > 5 && eq_lit(f[5].as_slice(), "A") {
        parse_u64_chars(f[1].as_slice())
    } else {
        None
    }
}

/// The unique system identifiers of the licences `HD.dat` marks active
/// (`A`); expired, cancelled and terminated ones are left out.
pub fn active_licenses(hd: &str) -> (r: std::collections::HashSet<u64>)
    ensures
        r@ == active_set(hd@),
{
    let lines = lines_of(hd);
    let ghost ls = dump_lines(hd@);
    let mut out: std::collections::HashSet<u64> = std::collections::HashSet::new();
    let mut i: usize = 0;
    while i < lines.len()
        invariant
            i <= lines.len(),
            lines@.len() == ls.len(),
            ls == dump_lines(hd@),
            forall|k: int| 0 <= k < ls.len() ==> #[trigger] lines@[k]@ == ls[k],
            forall|u: u64| #[trigger] out@.contains(u) == exists|j: int| 0 <= j < i && hd_active(ls[j]) == Some(u),
        decreases lines.len() - i,
    {
        let r = hd_line(lines[i].as_slice());
        assert(lines@[i as int]@ == ls[i as int]);
        match r {
            Some(u) => {
                out.insert(u);
            },
            None => {},
        }
        proof {
            assert forall|u: u64| #[trigger] out@.contains(u) == exists|j: int| 0 <= j < i + 1 && hd_active(ls[j]) == Some(u) by {
                if exists|j: int| 0 <= j < i + 1 && hd_active(ls[j]) == Some(u) {
                    let j = choose|j: int| 0 <= j < i + 1 && hd_active(ls[j]) == Some(u);
                    if j < i {
                        assert(exists|j2: int| 0 <= j2 < i && hd_active(ls[j2]) == Some(u));
                    }
                }
            }
        }
        i = i + 1;
    }
    assert(out@ =~= active_set(hd@));
    out
}

// --- ordering of calls ---------------------------------------------------------

/// The order of `String`: character by character (code point order, which
/// is also UTF-8 byte order), a proper prefix first.
pub open spec fn lex_lt(a: Seq<char>, b: Seq<char>) -> bool
    decreases a.len(),
{
    if b.len() == 0 {
        false
    } else if a.len() == 0 {
        true
    } else if a[0] != b[0] {
        a[0] < b[0]
    } else {
        lex_lt(a.drop_first(), b.drop_first())
    }
}

pub proof fn lemma_lex_irreflexive(a: Seq<char>)
    ensures
        !lex_lt(a, a),
    decreases a.len(),
{
    if a.len() > 0 {
        lemma_lex_irreflexive(a.drop_first());
    }
}

pub proof fn lemma_lex_total(a: Seq<char>, b: Seq<char>)
    ensures
        a != b ==> lex_lt(a, b) || lex_lt(b, a),
        !(lex_lt(a, b) && lex_lt(b, a)),
    decreases a.len(),
{
    if a.len() > 0 && b.len() > 0 {
        lemma_lex_total(a.drop_first(), b.drop_first());
        if a[0] == b[0] && a != b {
            assert(a =~= seq![a[0]] + a.drop_first());
            assert(b =~= seq![b[0]] + b.drop_first());
        }
    } else if a.len() == 0 && b.len() == 0 {
        assert(a =~= b);
    }
}

pub proof fn lemma_lex_transitive(a: Seq<char>, b: Seq<char>, c: Seq<char>)
    requires
        lex_lt(a, b),
        lex_lt(b, c),
    ensures
        lex_lt(a, c),
    decreases a.len(),
{
    if a.len() > 0 && b.len() > 0 && c.len() > 0 && a[0] == b[0] && b[0] == c[0] {
        lemma_lex_transitive(a.drop_first(), b.drop_first(), c.drop_first());
    }
}

/// Compare two calls: negative, zero or positive as `a` sorts before,
/// equal to, or after `b`.
pub(crate) fn lex_compare(a: &[char], b: &[char]) -> (r: i8)
    ensures
        r < 0 <==> lex_lt(a@, b@),
        r == 0 <==> a@ == b@,
        r > 0 <==> lex_lt(b@, a@),
{
    proof {
        lemma_lex_total(a@, b@);
        lemma_lex_irreflexive(a@);
    }
    let mut i: usize = 0;
    assert(a@.skip(0) =~= a@ && b@.skip(0) =~= b@);
    assert(a@.take(0) =~= b@.take(0));
    while i < a.len() && i < b.len()
        invariant
            i <= a.len() && i <= b.len(),
            a@.take(i as int) == b@.take(i as int),
            lex_lt(a@, b@) == lex_lt(a@.skip(i as int), b@.skip(i as int)),
            lex_lt(b@, a@) == lex_lt(b@.skip(i as int), a@.skip(i as int)),
        decreases a.len() - i,
    {
        if a[i] != b[i] {
            assert(a@.skip(i as int)[0] == a[i as int] && b@.skip(i as int)[0] == b[i as int]);
            if a[i] < b[i] {
                return -1;
            } else {
                return 1;
            }
        }
        assert(a@.skip(i as int).drop_first() =~= a@.skip(i + 1));
        assert(b@.skip(i as int).drop_first() =~= b@.skip(i + 1));
        assert(a@.take(i + 1) =~= a@.take(i as int).push(a[i as int]));
        assert(b@.take(i + 1) =~= b@.take(i as int).push(b[i as int]));
        i = i + 1;
    }
    if a.len() == b.len() {
        assert(a@ =~= a@.take(i as int));
        assert(b@ =~= b@.take(i as int));
        0
    } else if a.len() < b.len() {
        assert(a@.skip(i as int).len() == 0);
        -1
    } else {
        assert(b@.skip(i as int).len() == 0);
        1
    }
}

/// Strictly increasing keys.
pub open spec fn sorted_keys(e: Seq<(Seq<char>, Seq<char>)>) -> bool {
    forall|i: int, j: int| 0 <= i < j < e.len() ==> lex_lt(#[trigger] e[i].0, #[trigger] e[j].0)
}

/// `y` where it has a value, else `x`.
pub open spec fn prefer_right(x: Option<Seq<char>>, y: Option<Seq<char>>) -> Option<Seq<char>> {
    match y {
        Some(v) => Some(v),
        None => x,
    }
}

proof fn lemma_get_push(s: Seq<(Seq<char>, Seq<char>)>, p: (Seq<char>, Seq<char>), k: Seq<char>)
    ensures
        get(s.push(p), k) == (if get(s, k) is Some {
            get(s, k)
        } else if k == p.0 {
            Some(p.1)
        } else {
            None
        }),
{
    let t = s.push(p);
    lemma_key_index_props(s, k);
    let i = key_index(s, k);
    if i < s.len() {
        lemma_key_index(t, k, i);
    } else if p.0 == k {
        lemma_key_index(t, k, s.len() as int);
    } else {
        lemma_key_index(t, k, t.len() as int);
    }
}

/// Keys of `s` all sort before `x`, so `x` itself is not a key of `s`.
proof fn lemma_get_below(s: Seq<(Seq<char>, Seq<char>)>, x: Seq<char>)
    requires
        forall|i: int| 0 <= i < s.len() ==> lex_lt(#[trigger] s[i].0, x),
    ensures
        get(s, x) is None,
{
    lemma_key_index_props(s, x);
    if key_index(s, x) < s.len() {
        lemma_lex_irreflexive(x);
    }
}

/// In a sorted sequence, the entries before `i` hold exactly the keys that
/// sort before `e[i]`, each where it was.
proof fn lemma_sorted_get_take(e: Seq<(Seq<char>, Seq<char>)>, i: int, k: Seq<char>)
    requires
        sorted_keys(e),
        0 <= i < e.len(),
    ensures
        get(e.take(i + 1), k) == (if k == e[i].0 {
            Some(e[i].1)
        } else {
            get(e.take(i), k)
        }),
        get(e.take(i), e[i].0) is None,
{
    assert(e.take(i + 1) =~= e.take(i).push(e[i]));
    assert forall|j: int| 0 <= j < e.take(i).len() implies lex_lt(#[trigger] e.take(i)[j].0, e[i].0) by {
        assert(e.take(i)[j] == e[j]);
    }
    lemma_get_below(e.take(i), e[i].0);
    lemma_get_push(e.take(i), e[i], k);
}

/// Merge two key-sorted sequences; on a key in both, `b`'s entry wins.
fn merge_right(a: &Vec<(Vec<char>, &'static str)>, b: &Vec<(Vec<char>, &'static str)>) -> (out: Vec<(Vec<char>, &'static str)>)
    requires
        sorted_keys(entry_views(a@)),
        sorted_keys(entry_views(b@)),
    ensures
        sorted_keys(entry_views(out@)),
        forall|k: Seq<char>| #[trigger] get(entry_views(out@), k) == prefer_right(
            get(entry_views(a@), k),
            get(entry_views(b@), k),
        ),
{
    let ghost av = entry_views(a@);
    let ghost bv = entry_views(b@);
    let mut out: Vec<(Vec<char>, &'static str)> = Vec::new();
    let mut i: usize = 0;
    let mut j: usize = 0;
    assert(av.take(0) =~= Seq::<(Seq<char>, Seq<char>)>::empty());
    assert(bv.take(0) =~= Seq::<(Seq<char>, Seq<char>)>::empty());
    assert(entry_views(out@) =~= Seq::<(Seq<char>, Seq<char>)>::empty());
    while i < a.len() || j < b.len()
        invariant
            i <= a.len(),
            j <= b.len(),
            av == entry_views(a@),
            bv == entry_views(b@),
            sorted_keys(av),
            sorted_keys(bv),
            sorted_keys(entry_views(out@)),
            out@.len() > 0 && i < a.len() ==> lex_lt(entry_views(out@).last().0, av[i as int].0),
            out@.len() > 0 && j < b.len() ==> lex_lt(entry_views(out@).last().0, bv[j as int].0),
            forall|k: Seq<char>| #[trigger] get(entry_views(out@), k) == prefer_right(
                get(av.take(i as int), k),
                get(bv.take(j as int), k),
            ),
        decreases a.len() + b.len() - i - j,
    {
        let ghost ov = entry_views(out@);
        let c: i8 = if i < a.len() && j < b.len() {
            lex_compare(a[i].0.as_slice(), b[j].0.as_slice())
        } else if i < a.len() {
            -1
        } else {
            1
        };
        // The entry to take next, and which sides advance.
        let take_a = c < 0;
        let pick = if take_a { i } else { j };
        let (kv, sv) = if take_a {
            (slice_vec(a[i].0.as_slice(), 0, a[i].0.len()), a[i].1)
        } else {
            (slice_vec(b[j].0.as_slice(), 0, b[j].0.len()), b[j].1)
        };
        proof {
            let p: (Seq<char>, Seq<char>) = if take_a { av[i as int] } else { bv[j as int] };
            assert(a[i as int].0@.subrange(0, a[i as int].0@.len() as int) =~= a[i as int].0@);
            assert(b[j as int].0@.subrange(0, b[j as int].0@.len() as int) =~= b[j as int].0@);
            if i < a.len() && j < b.len() {
                lemma_lex_total(av[i as int].0, bv[j as int].0);
            }
            if ov.len() > 0 {
                assert forall|x: int| 0 <= x < ov.len() implies lex_lt(#[trigger] ov[x].0, p.0) by {
                    if x < ov.len() - 1 {
                        lemma_lex_transitive(ov[x].0, ov.last().0, p.0);
                    }
                }
            }
            assert forall|x: int| 0 <= x < ov.len() + 1 && 0 <= x < ov.len() implies lex_lt(#[trigger] ov[x].0, p.0) by {
                if ov.len() > 0 && x < ov.len() - 1 {
                    lemma_lex_transitive(ov[x].0, ov.last().0, p.0);
                }
            }
        }
        out.push((kv, sv));
        let ghost nv = entry_views(out@);
        proof {
            let p: (Seq<char>, Seq<char>) = if take_a { av[i as int] } else { bv[j as int] };
            assert(nv =~= ov.push(p));
            assert forall|x: int, y: int| 0 <= x < y < nv.len() implies lex_lt(#[trigger] nv[x].0, #[trigger] nv[y].0) by {
                if y == nv.len() - 1 {
                    assert(nv[x] == ov[x]);
                    if ov.len() > 0 && x < ov.len() - 1 {
                        lemma_lex_transitive(ov[x].0, ov.last().0, p.0);
                    }
                } else {
                    assert(nv[x] == ov[x] && nv[y] == ov[y]);
                }
            }
        }
        if take_a {
            proof {
                let x = av[i as int];
                lemma_sorted_get_take(av, i as int, x.0);
                assert forall|k: Seq<char>| #[trigger] get(nv, k) == prefer_right(
                    get(av.take(i + 1), k),
                    get(bv.take(j as int), k),
                ) by {
                    lemma_get_push(ov, x, k);
                    lemma_sorted_get_take(av, i as int, k);
                    if k == x.0 {
                        // Every key taken so far sorts before `x`, so `x` is new.
                        assert forall|y: int| 0 <= y < ov.len() implies lex_lt(#[trigger] ov[y].0, x.0) by {
                            if y < ov.len() - 1 {
                                lemma_lex_transitive(ov[y].0, ov.last().0, x.0);
                            }
                        }
                        lemma_get_below(ov, x.0);
                    }
                }
                if i + 1 < a.len() {
                    assert(lex_lt(av[i as int].0, av[i + 1].0));
                }
            }
            i = i + 1;
        } else {
            proof {
                let x = bv[j as int];
                assert forall|k: Seq<char>| #[trigger] get(nv, k) == prefer_right(
                    get(av.take(if c == 0 { i + 1 } else { i as int }), k),
                    get(bv.take(j + 1), k),
                ) by {
                    lemma_get_push(ov, x, k);
                    lemma_sorted_get_take(bv, j as int, k);
                    if c == 0 {
                        lemma_sorted_get_take(av, i as int, k);
                    }
                    if k == x.0 {
                        assert forall|y: int| 0 <= y < ov.len() implies lex_lt(#[trigger] ov[y].0, x.0) by {
                            if y < ov.len() - 1 {
                                lemma_lex_transitive(ov[y].0, ov.last().0, x.0);
                            }
                        }
                        lemma_get_below(ov, x.0);
                    }
                }
                if j + 1 < b.len() {
                    assert(lex_lt(bv[j as int].0, bv[j + 1].0));
                }
                if c == 0 && i + 1 < a.len() {
                    assert(lex_lt(av[i as int].0, av[i + 1].0));
                }
            }
            if c == 0 {
                i = i + 1;
            }
            j = j + 1;
        }
    }
    assert(av.take(a.len() as int) =~= av);
    assert(bv.take(b.len() as int) =~= bv);
    out
}

/// Entries as (key text, value text).
pub open spec fn entry_views(v: Seq<(Vec<char>, &'static str)>) -> Seq<(Seq<char>, Seq<char>)> {
    v.map_values(|p: (Vec<char>, &'static str)| (p.0@, p.1@))
}

// --- the call → state table ----------------------------------------------------

/// The table a sequence of entries builds: each entry binds its call to
/// its state, a later entry for a call replacing an earlier one.
pub open spec fn fcc_table(rows: Seq<(Seq<char>, Seq<char>)>) -> Seq<(Seq<char>, Seq<char>)>
    decreases rows.len(),
{
    if rows.len() == 0 {
        Seq::empty()
    } else {
        upsert(fcc_table(rows.drop_last()), rows.last().0, rows.last().1)
    }
}

proof fn lemma_table_distinct(rows: Seq<(Seq<char>, Seq<char>)>)
    ensures
        distinct_keys(fcc_table(rows)),
    decreases rows.len(),
{
    if rows.len() > 0 {
        lemma_table_distinct(rows.drop_last());
        lemma_upsert_get(fcc_table(rows.drop_last()), rows.last().0, rows.last().1, rows.last().0);
    }
}

/// The table of two runs of entries: the second run's bindings win.
proof fn lemma_table_concat(xs: Seq<(Seq<char>, Seq<char>)>, ys: Seq<(Seq<char>, Seq<char>)>, k: Seq<char>)
    ensures
        get(fcc_table(xs + ys), k) == prefer_right(get(fcc_table(xs), k), get(fcc_table(ys), k)),
    decreases ys.len(),
{
    if ys.len() == 0 {
        assert(xs + ys =~= xs);
    } else {
        let y = ys.last();
        assert((xs + ys).drop_last() =~= xs + ys.drop_last());
        assert((xs + ys).last() == y);
        lemma_table_concat(xs, ys.drop_last(), k);
        lemma_table_distinct(xs + ys.drop_last());
        lemma_table_distinct(ys.drop_last());
        lemma_upsert_get(fcc_table(xs + ys.drop_last()), y.0, y.1, k);
        lemma_upsert_get(fcc_table(ys.drop_last()), y.0, y.1, k);
    }
}

/// The entries `rows[lo..hi]`, key-sorted, a later entry for a key
/// replacing an earlier one.
fn sorted_table(rows: &Vec<(Vec<char>, &'static str)>, lo: usize, hi: usize) -> (out: Vec<(Vec<char>, &'static str)>)
    requires
        lo <= hi <= rows.len(),
    ensures
        sorted_keys(entry_views(out@)),
        forall|k: Seq<char>| #[trigger] get(entry_views(out@), k) == get(
            fcc_table(entry_views(rows@).subrange(lo as int, hi as int)),
            k,
        ),
    decreases hi - lo,
{
    let ghost rv = entry_views(rows@);
    if hi == lo {
        let out: Vec<(Vec<char>, &'static str)> = Vec::new();
        assert(rv.subrange(lo as int, hi as int) =~= Seq::<(Seq<char>, Seq<char>)>::empty());
        assert(entry_views(out@) =~= Seq::<(Seq<char>, Seq<char>)>::empty());
        return out;
    }
    if hi - lo == 1 {
        let key = slice_vec(rows[lo].0.as_slice(), 0, rows[lo].0.len());
        assert(rows[lo as int].0@.subrange(0, rows[lo as int].0@.len() as int) =~= rows[lo as int].0@);
        let out = vec![(key, rows[lo].1)];
        let ghost one = rv.subrange(lo as int, hi as int);
        assert(one.drop_last() =~= Seq::<(Seq<char>, Seq<char>)>::empty());
        assert(one.last() == rv[lo as int]);
        assert(fcc_table(one.drop_last()) == Seq::<(Seq<char>, Seq<char>)>::empty());
        assert(key_index(Seq::<(Seq<char>, Seq<char>)>::empty(), rv[lo as int].0) == 0);
        assert(fcc_table(one) =~= seq![rv[lo as int]]);
        assert(entry_views(out@) =~= seq![rv[lo as int]]);
        return out;
    }
    let mid = lo + (hi - lo) / 2;
    let left = sorted_table(rows, lo, mid);
    let right = sorted_table(rows, mid, hi);
    let out = merge_right(&left, &right);
    proof {
        assert(rv.subrange(lo as int, hi as int) =~= rv.subrange(lo as int, mid as int) + rv.subrange(
            mid as int,
            hi as int,
        ));
        assert forall|k: Seq<char>| #[trigger] get(entry_views(out@), k) == get(
            fcc_table(rv.subrange(lo as int, hi as int)),
            k,
        ) by {
            lemma_table_concat(rv.subrange(lo as int, mid as int), rv.subrange(mid as int, hi as int), k);
        }
    }
    out
}

// --- EN.dat ------------------------------------------------------------------

/// The `CALL ST` entry an `EN` record contributes: at least eighteen
/// `|`-fields, `EN` first, an active unique system identifier second, a
/// non-blank call in field 4 (ASCII-uppercased) and a WAS state in field
/// 17 (DC folded to MD, territories out).
pub open spec fn en_entry(line: Seq<char>, active: Set<u64>) -> Option<(Seq<char>, Seq<char>)> {
    let f = split(line, '|');
    if f.len() < 18 || f[0] != "EN"@ {
        None
    } else {
        match parse_u64(f[1]) {
            Some(u) => if active.contains(u) && trim(f[4]).len() > 0 && views(us_states()).contains(
                state_code(f[17]),
            ) {
                Some((upper(trim(f[4])), state_code(f[17])))
            } else {
                None
            },
            None => None,
        }
    }
}

/// The entries of the records, in order.
pub open spec fn en_rows(lines: Seq<Seq<char>>, active: Set<u64>) -> Seq<(Seq<char>, Seq<char>)>
    decreases lines.len(),
{
    if lines.len() == 0 {
        Seq::empty()
    } else {
        let r = en_rows(lines.drop_last(), active);
        match en_entry(lines.last(), active) {
            Some(e) => r.push(e),
            None => r,
        }
    }
}

/// `CALL ST` lines, one per entry.
pub open spec fn render(e: Seq<(Seq<char>, Seq<char>)>) -> Seq<char>
    decreases e.len(),
{
    if e.len() == 0 {
        Seq::empty()
    } else {
        render(e.drop_last()) + e.last().0 + seq![' '] + e.last().1 + seq!['\n']
    }
}

fn en_line(line: &[char], active: &std::collections::HashSet<u64>) -> (r: Option<(Vec<char>, &'static str)>)
    ensures
        match r {
            Some(p) => en_entry(line@, active@) == Some((p.0@, p.1@)),
            None => en_entry(line@, active@) is None,
        },
{
    let f = split_vec(line, '|');
    if f.len() < 18 || !eq_lit(f[0].as_slice(), "EN") {
        return None;
    }
    let u = match parse_u64_chars(f[1].as_slice()) {
        Some(u) => u,
        None => return None,
    };
    if !active.contains(&u) {
        return None;
    }
    let call = trim_vec(f[4].as_slice());
    if call.len() == 0 {
        return None;
    }
    let raw_state = string_of(f[17].as_slice());
    match normalize_state(raw_state.as_str()) {
        Some(st) => Some((upper_vec(call.as_slice()), st)),
        None => None,
    }
}

/// Distill `EN.dat` for the active licences: the `CALL ST` lines of the
/// resulting table, sorted by call, and how many there are. A later record
/// for a call replaces an earlier one.
pub fn distill(en: &str, active: &std::collections::HashSet<u64>) -> (r: (String, usize))
    ensures
        exists|e: Seq<(Seq<char>, Seq<char>)>|
            {
                &&& sorted_keys(e)
                &&& forall|k: Seq<char>| #[trigger] get(e, k) == get(fcc_table(en_rows(dump_lines(en@), active@)), k)
                &&& r.0@ == render(e)
                &&& r.1 == e.len()
            },
{
    let lines = lines_of(en);
    let ghost ls = dump_lines(en@);
    let mut rows: Vec<(Vec<char>, &'static str)> = Vec::new();
    let mut i: usize = 0;
    assert(ls.take(0) =~= Seq::<Seq<char>>::empty());
    assert(entry_views(rows@) =~= Seq::<(Seq<char>, Seq<char>)>::empty());
    while i < lines.len()
        invariant
            i <= lines.len(),
            lines@.len() == ls.len(),
            ls == dump_lines(en@),
            forall|k: int| 0 <= k < ls.len() ==> #[trigger] lines@[k]@ == ls[k],
            entry_views(rows@) == en_rows(ls.take(i as int), active@),
        decreases lines.len() - i,
    {
        assert(ls.take(i + 1).drop_last() =~= ls.take(i as int));
        assert(ls.take(i + 1).last() == ls[i as int]);
        let ghost before = entry_views(rows@);
        match en_line(lines[i].as_slice(), active) {
            Some(p) => {
                rows.push(p);
                assert(entry_views(rows@) =~= before.push((p.0@, p.1@)));
            },
            None => {},
        }
        i = i + 1;
    }
    assert(ls.take(lines.len() as int) =~= ls);
    let n = rows.len();
    let table = sorted_table(&rows, 0, n);
    assert(entry_views(rows@).subrange(0, n as int) =~= entry_views(rows@));
    let ghost tv = entry_views(table@);
    let mut out: Vec<char> = Vec::new();
    let mut j: usize = 0;
    assert(tv.take(0) =~= Seq::<(Seq<char>, Seq<char>)>::empty());
    while j < table.len()
        invariant
            j <= table.len(),
            tv == entry_views(table@),
            out@ == render(tv.take(j as int)),
        decreases table.len() - j,
    {
        assert(tv.take(j + 1).drop_last() =~= tv.take(j as int));
        assert(tv.take(j + 1).last() == tv[j as int]);
        crate::text::extend_chars(&mut out, table[j].0.as_slice());
        out.push(' ');
        crate::text::extend_chars(&mut out, chars_of(table[j].1).as_slice());
        out.push('\n');
        assert(out@ =~= render(tv.take(j + 1)));
        j = j + 1;
    }
    assert(tv.take(table.len() as int) =~= tv);
    (string_of(out.as_slice()), table.len())
}

/// The fewest calls a believable table holds; fewer means the wrong file.
pub const MIN_CALLS: usize = 100_000;

/// The refusal when `HD.dat` marks no licence active.
pub open spec fn no_active_text() -> Seq<char> {
    "FCC HD.dat: no active licenses found — wrong file?"@
}

/// The refusal of a table of `n` calls, too few to be the real dump.
pub open spec fn too_small_text(n: nat) -> Seq<char> {
    "FCC distill: only "@ + decimal(n) + " calls — refusing a suspiciously small table"@
}

/// Distill the two members of the dump, refusing one that marks no licence
/// active or yields fewer than `MIN_CALLS` calls.
pub fn distill_members(hd: &str, en: &str) -> (r: Result<(String, usize), String>)
    ensures
        active_set(hd@).is_empty() ==> (r matches Err(m) && m@ == no_active_text()),
        !active_set(hd@).is_empty() ==> exists|e: Seq<(Seq<char>, Seq<char>)>|
            {
                &&& sorted_keys(e)
                &&& forall|k: Seq<char>| #[trigger] get(e, k) == get(
                    fcc_table(en_rows(dump_lines(en@), active_set(hd@))),
                    k,
                )
                &&& e.len() >= MIN_CALLS ==> (r matches Ok(t) && t.0@ == render(e) && t.1 == e.len())
                &&& e.len() < MIN_CALLS ==> (r matches Err(m) && m@ == too_small_text(e.len()))
            },
{
    let active = active_licenses(hd);
    if active.is_empty() {
        return Err(string_of(chars_of("FCC HD.dat: no active licenses found — wrong file?").as_slice()));
    }
    let (table, count) = distill(en, &active);
    if count < MIN_CALLS {
        let mut m = chars_of("FCC distill: only ");
        crate::text::push_decimal(&mut m, count as u64);
        crate::text::extend_chars(&mut m, chars_of(" calls — refusing a suspiciously small table").as_slice());
        return Err(string_of(m.as_slice()));
    }
    Ok((table, count))
}

} // verus!

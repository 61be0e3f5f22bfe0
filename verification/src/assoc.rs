//! Insertion-ordered maps and sets keyed by text or by `i32`.
//!
//! The model of each is the sequence of its entries, in the order their
//! keys first arrived, with no key twice. Looking a key up, inserting
//! (replacing the value of a present key) and counting are all stated over
//! that sequence.

use crate::text::chars_eq;
use vstd::prelude::*;

verus! {

broadcast use vstd::std_specs::hash::group_hash_axioms;

/// Index of the first entry with key `k` (the length when there is none).
pub open spec fn key_index<K, V>(s: Seq<(K, V)>, k: K) -> int
    decreases s.len(),
{
    if s.len() == 0 {
        0
    } else if s[0].0 == k {
        0
    } else {
        1 + key_index(s.drop_first(), k)
    }
}

pub proof fn lemma_key_index<K, V>(s: Seq<(K, V)>, k: K, r: int)
    requires
        0 <= r <= s.len(),
        forall|j: int| 0 <= j < r ==> s[j].0 != k,
        r < s.len() ==> s[r].0 == k,
    ensures
        key_index(s, k) == r,
    decreases s.len(),
{
    if r > 0 {
        lemma_key_index(s.drop_first(), k, r - 1);
    }
}

/// The value stored under `k`.
pub open spec fn get<K, V>(s: Seq<(K, V)>, k: K) -> Option<V> {
    let i = key_index(s, k);
    if 0 <= i < s.len() {
        Some(s[i].1)
    } else {
        None
    }
}

/// No key occurs twice.
pub open spec fn distinct_keys<K, V>(s: Seq<(K, V)>) -> bool {
    forall|i: int, j: int| 0 <= i < j < s.len() ==> s[i].0 != s[j].0
}

/// `s` with `k` bound to `v`: replaced in place when present, appended
/// otherwise.
pub open spec fn upsert<K, V>(s: Seq<(K, V)>, k: K, v: V) -> Seq<(K, V)> {
    let i = key_index(s, k);
    if 0 <= i < s.len() {
        s.update(i, (k, v))
    } else {
        s.push((k, v))
    }
}

/// The keys of `s`, in order.
pub open spec fn keys_of<K, V>(s: Seq<(K, V)>) -> Seq<K> {
    s.map_values(|p: (K, V)| p.0)
}

pub proof fn lemma_upsert_get<K, V>(s: Seq<(K, V)>, k: K, v: V, q: K)
    requires
        distinct_keys(s),
    ensures
        distinct_keys(upsert(s, k, v)),
        get(upsert(s, k, v), q) == (if q == k {
            Some(v)
        } else {
            get(s, q)
        }),
{
    let i = key_index(s, k);
    lemma_key_index_props(s, k);
    lemma_key_index_props(s, q);
    let t = upsert(s, k, v);
    if 0 <= i < s.len() {
        assert forall|a: int, b: int| 0 <= a < b < t.len() implies t[a].0 != t[b].0 by {
            assert(t[a].0 == s[a].0 && t[b].0 == s[b].0);
        }
        let qi = key_index(s, q);
        if q == k {
            lemma_key_index(t, q, i);
        } else if qi < s.len() {
            lemma_key_index(t, q, qi);
        } else {
            lemma_key_index(t, q, t.len() as int);
        }
    } else {
        assert forall|a: int, b: int| 0 <= a < b < t.len() implies t[a].0 != t[b].0 by {
            if b == s.len() {
                assert(s[a].0 != k);
            }
        }
        let qi = key_index(s, q);
        if q == k {
            lemma_key_index(t, q, s.len() as int);
        } else if qi < s.len() {
            lemma_key_index(t, q, qi);
        } else {
            lemma_key_index(t, q, t.len() as int);
        }
    }
}

pub proof fn lemma_key_index_props<K, V>(s: Seq<(K, V)>, k: K)
    ensures
        0 <= key_index(s, k) <= s.len(),
        forall|j: int| 0 <= j < key_index(s, k) ==> s[j].0 != k,
        key_index(s, k) < s.len() ==> s[key_index(s, k)].0 == k,
    decreases s.len(),
{
    if s.len() > 0 && s[0].0 != k {
        lemma_key_index_props(s.drop_first(), k);
        assert forall|j: int| 0 <= j < key_index(s, k) implies s[j].0 != k by {
            if j > 0 {
                assert(s[j] == s.drop_first()[j - 1]);
            }
        }
    }
}

/// With distinct keys, the entry at `i` is the one `get` finds.
pub proof fn lemma_get_at<K, V>(s: Seq<(K, V)>, i: int)
    requires
        distinct_keys(s),
        0 <= i < s.len(),
    ensures
        key_index(s, s[i].0) == i,
        get(s, s[i].0) == Some(s[i].1),
{
    lemma_key_index(s, s[i].0, i);
}

// ---------------------------------------------------------------------------
// Text hashing, for the positional indexes below
// ---------------------------------------------------------------------------

/// The modulus of the text hash, the Mersenne prime 2^61 - 1.
pub const HASH_MOD: u64 = 0x1FFF_FFFF_FFFF_FFFF;

/// A polynomial hash of a text's characters.
pub open spec fn text_hash(s: Seq<char>) -> u64
    decreases s.len(),
{
    if s.len() == 0 {
        0
    } else {
        ((text_hash(s.drop_last()) as int * 31 + s.last() as u32 as int) % (HASH_MOD as int)) as u64
    }
}

pub fn hash_chars(v: &[char]) -> (h: u64)
    ensures
        h == text_hash(v@),
{
    let mut h: u64 = 0;
    let mut i: usize = 0;
    while i < v.len()
        invariant
            i <= v.len(),
            h == text_hash(v@.take(i as int)),
        decreases v.len() - i,
    {
        assert(v@.take(i + 1).drop_last() =~= v@.take(i as int));
        let c: u32 = v[i] as u32;
        let next: u128 = ((h as u128) * 31 + (c as u128)) % (HASH_MOD as u128);
        h = next as u64;
        i = i + 1;
    }
    assert(v@.take(v.len() as int) =~= v@);
    h
}

/// `index` files every position of `keys` under its key's hash, and files
/// no position past the end.
pub open spec fn index_files(index: Map<u64, Vec<usize>>, keys: Seq<Seq<char>>) -> bool {
    &&& forall|i: int|
        0 <= i < keys.len() ==> index.contains_key(text_hash(#[trigger] keys[i])) && index[text_hash(
            keys[i],
        )]@.contains(i as usize)
    &&& forall|h: u64, j: int|
        index.contains_key(h) && 0 <= j < index[h]@.len() ==> (#[trigger] index[h]@[j] as int) < keys.len()
}

/// Filing a new last key's position under its hash keeps the index whole.
proof fn lemma_file_new(index: Map<u64, Vec<usize>>, keys: Seq<Seq<char>>, k: Seq<char>, bucket: Seq<usize>, nb: Vec<usize>)
    requires
        index_files(index, keys),
        bucket == (if index.contains_key(text_hash(k)) { index[text_hash(k)]@ } else { Seq::<usize>::empty() }),
        keys.len() <= usize::MAX,
        nb@ == bucket.push(keys.len() as usize),
    ensures
        index_files(index.insert(text_hash(k), nb), keys.push(k)),
{
    let nk = keys.push(k);
    let h = text_hash(k);
    let ni = index.insert(h, nb);
    assert forall|i: int| 0 <= i < nk.len() implies ni.contains_key(text_hash(#[trigger] nk[i])) && ni[text_hash(
        nk[i],
    )]@.contains(i as usize) by {
        if i == keys.len() {
            assert(nk[i] == k);
            assert(nb@[bucket.len() as int] == i as usize);
        } else {
            assert(nk[i] == keys[i]);
            if text_hash(keys[i]) == h {
                let t = choose|t: int| 0 <= t < index[h]@.len() && index[h]@[t] == i as usize;
                assert(nb@[t] == i as usize);
            }
        }
    }
    assert forall|g: u64, j: int| ni.contains_key(g) && 0 <= j < ni[g]@.len() implies (#[trigger] ni[g]@[j]
        as int) < nk.len() by {
        if g == h {
            if j < bucket.len() {
                assert(nb@[j] == bucket[j]);
            }
        }
    }
}

// ---------------------------------------------------------------------------
// Text set
// ---------------------------------------------------------------------------

/// A set of texts, in arrival order, each member filed under its hash so
/// that membership is answered without a scan.
#[derive(Debug, PartialEq, Eq)]
pub struct StrSet {
    items: Vec<String>,
    index: std::collections::HashMap<u64, Vec<usize>>,
}

pub open spec fn texts(v: Seq<String>) -> Seq<Seq<char>> {
    v.map_values(|s: String| s@)
}

/// `s` with `x` appended unless already present.
pub open spec fn add_new<T>(s: Seq<T>, x: T) -> Seq<T> {
    if s.contains(x) {
        s
    } else {
        s.push(x)
    }
}

impl StrSet {
    /// The members, in arrival order, each once.
    pub closed spec fn model(&self) -> Seq<Seq<char>> {
        texts(self.items@)
    }

    #[verifier::type_invariant]
    closed spec fn filed(&self) -> bool {
        &&& self.model().no_duplicates()
        &&& index_files(self.index@, self.model())
    }

    pub open spec fn wf(&self) -> bool {
        self.model().no_duplicates()
    }

    pub fn new() -> (s: StrSet)
        ensures
            s.wf(),
            s.model() == Seq::<Seq<char>>::empty(),
    {
        let s = StrSet { items: Vec::new(), index: std::collections::HashMap::new() };
        assert(s.model() =~= Seq::<Seq<char>>::empty());
        s
    }

    pub fn len(&self) -> (n: usize)
        ensures
            n == self.model().len(),
    {
        self.items.len()
    }

    pub fn is_empty(&self) -> (r: bool)
        ensures
            r == (self.model().len() == 0),
    {
        self.items.len() == 0
    }

    pub fn get(&self, i: usize) -> (r: &String)
        requires
            i < self.model().len(),
        ensures
            r@ == self.model()[i as int],
    {
        &self.items[i]
    }

    /// Position of `k` among the members (the length when absent).
    fn position(&self, k: &[char], h: u64) -> (r: usize)
        requires
            h == text_hash(k@),
        ensures
            r <= self.model().len(),
            r < self.model().len() ==> self.model()[r as int] == k@,
            r == self.model().len() ==> !self.model().contains(k@),
    {
        proof {
            use_type_invariant(self);
        }
        let ghost m = self.model();
        match self.index.get(&h) {
            None => {
                proof {
                    if m.contains(k@) {
                        let i = choose|i: int| 0 <= i < m.len() && m[i] == k@;
                        assert(self.index@.contains_key(text_hash(m[i])));
                    }
                }
                self.items.len()
            },
            Some(bucket) => {
                let mut j: usize = 0;
                while j < bucket.len()
                    invariant
                        j <= bucket@.len(),
                        m == texts(self.items@),
                        index_files(self.index@, m),
                        self.index@.contains_key(h),
                        *bucket == self.index@[h],
                        forall|t: int| 0 <= t < j ==> m[bucket@[t] as int] != k@,
                    decreases bucket@.len() - j,
                {
                    let p = bucket[j];
                    assert(self.index@[h]@[j as int] == p);
                    let c = crate::text::chars_of(self.items[p].as_str());
                    if chars_eq(c.as_slice(), k) {
                        return p;
                    }
                    j = j + 1;
                }
                proof {
                    if m.contains(k@) {
                        let i = choose|i: int| 0 <= i < m.len() && m[i] == k@;
                        assert(self.index@[text_hash(m[i])]@.contains(i as usize));
                        let t = choose|t: int| 0 <= t < bucket@.len() && bucket@[t] == i as usize;
                        assert(m[bucket@[t] as int] != k@);
                    }
                }
                self.items.len()
            },
        }
    }

    pub fn contains_chars(&self, k: &[char]) -> (r: bool)
        ensures
            r == self.model().contains(k@),
    {
        let h = hash_chars(k);
        let p = self.position(k, h);
        proof {
            if p < self.model().len() {
                assert(self.model()[p as int] == k@);
            }
        }
        p < self.items.len()
    }

    pub fn contains(&self, k: &str) -> (r: bool)
        ensures
            r == self.model().contains(k@),
    {
        let kc = crate::text::chars_of(k);
        self.contains_chars(kc.as_slice())
    }

    pub fn insert(&mut self, k: String)
        ensures
            final(self).wf(),
            final(self).model() == add_new(old(self).model(), k@),
    {
        proof {
            use_type_invariant(&*self);
        }
        let kc = crate::text::chars_of(k.as_str());
        let h = hash_chars(kc.as_slice());
        let p = self.position(kc.as_slice(), h);
        if p < self.items.len() {
            proof {
                assert(self.model().contains(k@));
            }
            return;
        }
        let mut taken = StrSet::new();
        std::mem::swap(self, &mut taken);
        proof {
            use_type_invariant(&taken);
        }
        let StrSet { mut items, mut index } = taken;
        let ghost m = texts(items@);
        let ghost im = index@;
        let mut bucket: Vec<usize> = match index.remove(&h) {
            Some(b) => b,
            None => Vec::new(),
        };
        let ghost b0 = bucket@;
        assert(b0 == (if im.contains_key(text_hash(k@)) { im[text_hash(k@)]@ } else { Seq::<usize>::empty() }));
        bucket.push(items.len());
        proof {
            lemma_file_new(im, m, k@, b0, bucket);
        }
        let ghost kv = k@;
        items.push(k);
        index.insert(h, bucket);
        assert(texts(items@) =~= m.push(kv));
        *self = StrSet { items, index };
    }
}

// ---------------------------------------------------------------------------
// Text-keyed map
// ---------------------------------------------------------------------------

/// A map from text to `V`, kept in key-arrival order, each key filed under
/// its hash so that lookups are answered without a scan.
#[derive(Debug, PartialEq, Eq)]
pub struct StrMap<V> {
    entries: Vec<(String, V)>,
    index: std::collections::HashMap<u64, Vec<usize>>,
}

pub open spec fn keyed<V>(v: Seq<(String, V)>) -> Seq<(Seq<char>, V)> {
    v.map_values(|p: (String, V)| (p.0@, p.1))
}

impl<V> StrMap<V> {
    /// The entries as (key text, value) pairs.
    pub closed spec fn model(&self) -> Seq<(Seq<char>, V)> {
        keyed(self.entries@)
    }

    #[verifier::type_invariant]
    closed spec fn filed(&self) -> bool {
        &&& distinct_keys(self.model())
        &&& index_files(self.index@, keys_of(self.model()))
    }

    pub open spec fn wf(&self) -> bool {
        distinct_keys(self.model())
    }

    pub fn new() -> (m: StrMap<V>)
        ensures
            m.wf(),
            m.model() == Seq::<(Seq<char>, V)>::empty(),
    {
        let m = StrMap { entries: Vec::new(), index: std::collections::HashMap::new() };
        assert(m.model() =~= Seq::<(Seq<char>, V)>::empty());
        assert(keys_of(m.model()) =~= Seq::<Seq<char>>::empty());
        m
    }

    pub fn len(&self) -> (n: usize)
        ensures
            n == self.model().len(),
    {
        self.entries.len()
    }

    fn position(&self, k: &[char], h: u64) -> (r: usize)
        requires
            h == text_hash(k@),
        ensures
            r == key_index(self.model(), k@),
    {
        proof {
            use_type_invariant(self);
        }
        let ghost m = self.model();
        let ghost ks = keys_of(m);
        proof {
            lemma_key_index_props(m, k@);
        }
        match self.index.get(&h) {
            None => {
                proof {
                    if key_index(m, k@) < m.len() {
                        let i = key_index(m, k@);
                        assert(ks[i] == k@);
                        assert(self.index@.contains_key(text_hash(ks[i])));
                    }
                }
                self.entries.len()
            },
            Some(bucket) => {
                let mut j: usize = 0;
                while j < bucket.len()
                    invariant
                        j <= bucket@.len(),
                        m == keyed(self.entries@),
                        ks == keys_of(m),
                        distinct_keys(m),
                        index_files(self.index@, ks),
                        self.index@.contains_key(h),
                        *bucket == self.index@[h],
                        forall|t: int| 0 <= t < j ==> m[bucket@[t] as int].0 != k@,
                    decreases bucket@.len() - j,
                {
                    let p = bucket[j];
                    assert(self.index@[h]@[j as int] == p);
                    let c = crate::text::chars_of(self.entries[p].0.as_str());
                    if chars_eq(c.as_slice(), k) {
                        proof {
                            lemma_get_at(m, p as int);
                        }
                        return p;
                    }
                    j = j + 1;
                }
                proof {
                    if key_index(m, k@) < m.len() {
                        let i = key_index(m, k@);
                        assert(ks[i] == k@);
                        assert(self.index@[text_hash(ks[i])]@.contains(i as usize));
                        let t = choose|t: int| 0 <= t < bucket@.len() && bucket@[t] == i as usize;
                        assert(m[bucket@[t] as int].0 != k@);
                    }
                }
                self.entries.len()
            },
        }
    }

    /// Position of key `k` (`len` when absent).
    pub fn index_of(&self, k: &[char]) -> (r: usize)
        ensures
            r == key_index(self.model(), k@),
    {
        let h = hash_chars(k);
        self.position(k, h)
    }

    pub fn get(&self, k: &[char]) -> (r: Option<&V>)
        ensures
            r == (match get(self.model(), k@) {
                Some(v) => Some(&v),
                None => None::<&V>,
            }),
    {
        let i = self.index_of(k);
        if i < self.entries.len() {
            Some(&self.entries[i].1)
        } else {
            None
        }
    }

    pub fn contains(&self, k: &[char]) -> (r: bool)
        ensures
            r == get(self.model(), k@) is Some,
    {
        self.index_of(k) < self.entries.len()
    }

    pub fn key_at(&self, i: usize) -> (r: &String)
        requires
            i < self.model().len(),
        ensures
            r@ == self.model()[i as int].0,
    {
        &self.entries[i].0
    }

    pub fn value_at(&self, i: usize) -> (r: &V)
        requires
            i < self.model().len(),
        ensures
            *r == self.model()[i as int].1,
    {
        &self.entries[i].1
    }

    /// Append a key known to be absent, filing its position.
    fn push_new(&mut self, k: String, kh: u64, v: V)
        requires
            get(old(self).model(), k@) is None,
            kh == text_hash(k@),
        ensures
            final(self).model() == old(self).model().push((k@, v)),
    {
        proof {
            use_type_invariant(&*self);
            lemma_key_index_props(self.model(), k@);
        }
        let mut taken = StrMap::new();
        std::mem::swap(self, &mut taken);
        proof {
            use_type_invariant(&taken);
        }
        let StrMap { mut entries, mut index } = taken;
        let ghost m = keyed(entries@);
        let ghost im = index@;
        let mut bucket: Vec<usize> = match index.remove(&kh) {
            Some(b) => b,
            None => Vec::new(),
        };
        let ghost b0 = bucket@;
        bucket.push(entries.len());
        proof {
            lemma_file_new(im, keys_of(m), k@, b0, bucket);
        }
        let ghost kv = k@;
        entries.push((k, v));
        index.insert(kh, bucket);
        proof {
            let nm = keyed(entries@);
            assert(nm =~= m.push((kv, v)));
            assert(keys_of(nm) =~= keys_of(m).push(kv));
            assert forall|a: int, b: int| 0 <= a < b < nm.len() implies nm[a].0 != nm[b].0 by {
                if b == m.len() {
                    assert(m[a].0 != kv);
                }
            }
        }
        *self = StrMap { entries, index };
    }

    /// Put `v` in place of the value at position `i`, handing back the
    /// value it replaces.
    pub fn replace_value(&mut self, i: usize, v: V) -> (old_v: V)
        requires
            i < old(self).model().len(),
        ensures
            old_v == old(self).model()[i as int].1,
            final(self).model() == old(self).model().update(i as int, (old(self).model()[i as int].0, v)),
    {
        proof {
            use_type_invariant(&*self);
        }
        let mut taken = StrMap::new();
        std::mem::swap(self, &mut taken);
        proof {
            use_type_invariant(&taken);
        }
        let StrMap { mut entries, index } = taken;
        let ghost m = keyed(entries@);
        let mut slot = v;
        std::mem::swap(&mut entries[i].1, &mut slot);
        proof {
            let nm = keyed(entries@);
            assert(nm =~= m.update(i as int, (m[i as int].0, v)));
            assert(keys_of(nm) =~= keys_of(m));
        }
        *self = StrMap { entries, index };
        slot
    }

    /// Bind `k` to `v`, replacing the value of a present key.
    pub fn insert(&mut self, k: String, v: V)
        ensures
            final(self).wf(),
            final(self).model() == upsert(old(self).model(), k@, v),
    {
        proof {
            use_type_invariant(&*self);
        }
        let kc = crate::text::chars_of(k.as_str());
        let kh = hash_chars(kc.as_slice());
        let i = self.position(kc.as_slice(), kh);
        let ghost old_m = self.model();
        let ghost kv = k@;
        let ghost vv = v;
        proof {
            lemma_upsert_get(old_m, kv, vv, kv);
            lemma_key_index_props(old_m, kv);
        }
        if i < self.entries.len() {
            let _ = self.replace_value(i, v);
            assert(self.model() =~= old_m.update(i as int, (kv, vv)));
        } else {
            self.push_new(k, kh, v);
        }
        proof {
            use_type_invariant(&*self);
        }
    }

    /// Position of `k`, appending `(k, v)` first when it is absent.
    pub fn index_or_insert(&mut self, k: String, v: V) -> (r: usize)
        ensures
            final(self).wf(),
            r < final(self).model().len(),
            final(self).model()[r as int].0 == k@,
            get(old(self).model(), k@) is Some ==> final(self).model() == old(self).model(),
            get(old(self).model(), k@) is None ==> final(self).model() == old(self).model().push(
                (k@, v),
            ),
            r == key_index(final(self).model(), k@),
    {
        proof {
            use_type_invariant(&*self);
        }
        let kc = crate::text::chars_of(k.as_str());
        let kh = hash_chars(kc.as_slice());
        let i = self.position(kc.as_slice(), kh);
        let ghost old_m = self.model();
        proof {
            lemma_key_index_props(old_m, k@);
        }
        if i < self.entries.len() {
            proof {
                lemma_get_at(old_m, i as int);
            }
            i
        } else {
            let ghost kv = k@;
            self.push_new(k, kh, v);
            proof {
                use_type_invariant(&*self);
                lemma_get_at(self.model(), i as int);
            }
            i
        }
    }
}

// ---------------------------------------------------------------------------
// Integer-keyed map and integer set
// ---------------------------------------------------------------------------

/// A map from `i32` to `V`, kept in key-arrival order.
#[derive(Debug, PartialEq, Eq)]
pub struct IntMap<V> {
    entries: Vec<(i32, V)>,
}

impl<V> IntMap<V> {
    pub closed spec fn model(&self) -> Seq<(i32, V)> {
        self.entries@
    }

    pub open spec fn wf(&self) -> bool {
        distinct_keys(self.model())
    }

    pub fn new() -> (m: IntMap<V>)
        ensures
            m.wf(),
            m.model() == Seq::<(i32, V)>::empty(),
    {
        IntMap { entries: Vec::new() }
    }

    pub fn len(&self) -> (n: usize)
        ensures
            n == self.model().len(),
    {
        self.entries.len()
    }

    pub fn index_of(&self, k: i32) -> (r: usize)
        ensures
            r == key_index(self.model(), k),
    {
        let mut i: usize = 0;
        while i < self.entries.len()
            invariant
                i <= self.entries.len(),
                forall|j: int| 0 <= j < i ==> self.entries@[j].0 != k,
            decreases self.entries.len() - i,
        {
            if self.entries[i].0 == k {
                proof {
                    lemma_key_index(self.model(), k, i as int);
                }
                return i;
            }
            i = i + 1;
        }
        proof {
            lemma_key_index(self.model(), k, i as int);
        }
        i
    }

    pub fn get(&self, k: i32) -> (r: Option<&V>)
        ensures
            r == (match get(self.model(), k) {
                Some(v) => Some(&v),
                None => None::<&V>,
            }),
    {
        let i = self.index_of(k);
        if i < self.entries.len() {
            Some(&self.entries[i].1)
        } else {
            None
        }
    }

    pub fn key_at(&self, i: usize) -> (r: i32)
        requires
            i < self.model().len(),
        ensures
            r == self.model()[i as int].0,
    {
        self.entries[i].0
    }

    pub fn value_at(&self, i: usize) -> (r: &V)
        requires
            i < self.model().len(),
        ensures
            *r == self.model()[i as int].1,
    {
        &self.entries[i].1
    }

    pub fn index_or_insert(&mut self, k: i32, v: V) -> (r: usize)
        requires
            old(self).wf(),
        ensures
            final(self).wf(),
            r < final(self).model().len(),
            final(self).model()[r as int].0 == k,
            get(old(self).model(), k) is Some ==> final(self).model() == old(self).model(),
            get(old(self).model(), k) is None ==> final(self).model() == old(self).model().push(
                (k, v),
            ),
            r == key_index(final(self).model(), k),
    {
        let i = self.index_of(k);
        let ghost old_m = self.model();
        proof {
            lemma_key_index_props(old_m, k);
        }
        if i < self.entries.len() {
            proof {
                lemma_get_at(old_m, i as int);
            }
            i
        } else {
            self.entries.push((k, v));
            proof {
                lemma_upsert_get(old_m, k, v, k);
                assert(upsert(old_m, k, v) == old_m.push((k, v)));
                lemma_get_at(self.model(), i as int);
            }
            i
        }
    }

    pub fn value_mut(&mut self, i: usize) -> (r: &mut V)
        requires
            i < old(self).model().len(),
        ensures
            *r == old(self).model()[i as int].1,
            final(self).model() == old(self).model().update(
                i as int,
                (old(self).model()[i as int].0, *final(r)),
            ),
    {
        &mut self.entries[i].1
    }
}

/// A set of `i32`, in arrival order.
#[derive(Debug, PartialEq, Eq)]
pub struct IntSet {
    items: Vec<i32>,
}

impl IntSet {
    pub closed spec fn model(&self) -> Seq<i32> {
        self.items@
    }

    pub open spec fn wf(&self) -> bool {
        self.model().no_duplicates()
    }

    pub fn new() -> (s: IntSet)
        ensures
            s.wf(),
            s.model() == Seq::<i32>::empty(),
    {
        IntSet { items: Vec::new() }
    }

    pub fn len(&self) -> (n: usize)
        ensures
            n == self.model().len(),
    {
        self.items.len()
    }

    pub fn contains(&self, k: i32) -> (r: bool)
        ensures
            r == self.model().contains(k),
    {
        let mut i: usize = 0;
        while i < self.items.len()
            invariant
                i <= self.items.len(),
                forall|j: int| 0 <= j < i ==> self.items@[j] != k,
            decreases self.items.len() - i,
        {
            if self.items[i] == k {
                assert(self.items@[i as int] == k);
                return true;
            }
            i = i + 1;
        }
        false
    }

    pub fn insert(&mut self, k: i32)
        requires
            old(self).wf(),
        ensures
            final(self).wf(),
            final(self).model() == add_new(old(self).model(), k),
    {
        if !self.contains(k) {
            self.items.push(k);
        }
    }

    pub fn get(&self, i: usize) -> (r: i32)
        requires
            i < self.model().len(),
        ensures
            r == self.model()[i as int],
    {
        self.items[i]
    }
}

} // verus!

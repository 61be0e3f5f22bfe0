//! The IOTA directory: reference → group name, read from the
//! iota-world.org `groups.json` array. The download is made by the
//! application; the JSON is read with serde_json.

use crate::assoc::{get, key_index, lemma_key_index, lemma_key_index_props, upsert, StrMap};
use crate::awards::{iota_spec, normalize_iota};
use crate::text::{chars_of, extend_chars, push_decimal, string_of, decimal};
use vstd::prelude::*;

verus! {

/// One element of the directory array: its `refno` and `name` members,
/// each when present as a JSON string.
pub struct JsonGroup {
    pub refno: Option<String>,
    pub name: Option<String>,
}

pub open spec fn opt_text(o: Option<String>) -> Option<Seq<char>> {
    match o {
        Some(s) => Some(s@),
        None => None,
    }
}

pub open spec fn group_views(v: Seq<JsonGroup>) -> Seq<(Option<Seq<char>>, Option<Seq<char>>)> {
    v.map_values(|g: JsonGroup| (opt_text(g.refno), opt_text(g.name)))
}

/// What serde_json makes of a `groups.json` text: `None` when it is not
/// JSON; `Some(None)` when it is JSON but not an array; otherwise each
/// element's `refno` and `name` string members.
pub uninterp spec fn iota_json(text: Seq<char>) -> Option<Option<Seq<(Option<Seq<char>>, Option<Seq<char>>)>>>;

/// Parses `text` with `serde_json::from_str` into a `serde_json::Value`,
/// and reads the `refno` and `name` string members of each array element.
/// The result is named by `iota_json`; the error text is serde_json's own
/// and is not stated.
#[verifier::external_body]
fn read_groups(text: &str) -> (r: Result<Option<Vec<JsonGroup>>, String>)
    ensures
        match r {
            Err(_) => iota_json(text@) is None,
            Ok(None) => iota_json(text@) == Some(None::<Seq<(Option<Seq<char>>, Option<Seq<char>>)>>),
            Ok(Some(v)) => iota_json(text@) == Some(Some(group_views(v@))),
        },
{
    let val: serde_json::Value = match serde_json::from_str(text) {
        Ok(v) => v,
        Err(e) => return Err(e.to_string()),
    };
    let member = |item: &serde_json::Value, key: &str| item.get(key).and_then(|v| v.as_str()).map(|s| s.to_string());
    Ok(val.as_array().map(|arr| arr.iter().map(|item| JsonGroup { refno: member(item, "refno"), name: member(item, "name") }).collect()))
}

/// The directory a group list describes: each group whose `refno`
/// normalises becomes normalised reference → name (empty when absent); a
/// later group with the same reference replaces the name.
pub open spec fn directory_of(groups: Seq<(Option<Seq<char>>, Option<Seq<char>>)>) -> Seq<(Seq<char>, Seq<char>)>
    decreases groups.len(),
{
    if groups.len() == 0 {
        Seq::empty()
    } else {
        let d = directory_of(groups.drop_last());
        let g = groups.last();
        match g.0 {
            Some(r) => match iota_spec(r) {
                Some(n) => upsert(d, n, match g.1 {
                    Some(name) => name,
                    None => Seq::empty(),
                }),
                None => d,
            },
            None => d,
        }
    }
}

/// The smallest directory accepted; the live one has about 1,180 groups.
pub const MIN_GROUPS: usize = 500;

pub open spec fn too_small_text(n: nat) -> Seq<char> {
    "IOTA parse: only "@ + decimal(n) + " groups — refusing a suspiciously small directory"@
}

/// The parsed directory: reference → group name.
pub struct IotaDirectory {
    names: StrMap<String>,
}

pub open spec fn names_view(m: Seq<(Seq<char>, String)>) -> Seq<(Seq<char>, Seq<char>)> {
    m.map_values(|p: (Seq<char>, String)| (p.0, p.1@))
}

proof fn lemma_names_view_index(m: Seq<(Seq<char>, String)>, k: Seq<char>)
    ensures
        key_index(names_view(m), k) == key_index(m, k),
{
    lemma_key_index_props(m, k);
    let v = names_view(m);
    lemma_key_index(v, k, key_index(m, k));
}

proof fn lemma_names_view_upsert(m: Seq<(Seq<char>, String)>, k: Seq<char>, s: String)
    ensures
        names_view(upsert(m, k, s)) == upsert(names_view(m), k, s@),
{
    lemma_names_view_index(m, k);
    assert(names_view(upsert(m, k, s)) =~= upsert(names_view(m), k, s@));
}

impl IotaDirectory {
    pub closed spec fn model(&self) -> Seq<(Seq<char>, Seq<char>)> {
        names_view(self.names.model())
    }

    pub closed spec fn wf(&self) -> bool {
        self.names.wf()
    }

    /// An empty directory.
    pub fn new() -> (d: IotaDirectory)
        ensures
            d.wf(),
            d.model() == Seq::<(Seq<char>, Seq<char>)>::empty(),
    {
        let d = IotaDirectory { names: StrMap::new() };
        assert(d.model() =~= Seq::<(Seq<char>, Seq<char>)>::empty());
        d
    }

    /// The directory built from a group list, or the refusal of one with
    /// fewer than `MIN_GROUPS` distinct references.
    pub fn from_groups(groups: &Vec<JsonGroup>) -> (r: Result<IotaDirectory, String>)
        ensures
            ({
                let d = directory_of(group_views(groups@));
                match r {
                    Ok(dir) => dir.wf() && d.len() >= MIN_GROUPS && dir.model() == d,
                    Err(e) => d.len() < MIN_GROUPS && e@ == too_small_text(d.len()),
                }
            }),
    {
        let ghost gv = group_views(groups@);
        let mut names: StrMap<String> = StrMap::new();
        let mut i: usize = 0;
        assert(gv.take(0) =~= Seq::<(Option<Seq<char>>, Option<Seq<char>>)>::empty());
        assert(names_view(names.model()) =~= Seq::<(Seq<char>, Seq<char>)>::empty());
        while i < groups.len()
            invariant
                i <= groups.len(),
                gv == group_views(groups@),
                names.wf(),
                names_view(names.model()) == directory_of(gv.take(i as int)),
            decreases groups.len() - i,
        {
            assert(gv.take(i + 1).drop_last() =~= gv.take(i as int));
            assert(gv.take(i + 1).last() == gv[i as int]);
            let g = &groups[i];
            match &g.refno {
                Some(r) => {
                    match normalize_iota(r.as_str()) {
                        Some(n) => {
                            let name = match &g.name {
                                Some(s) => s.clone(),
                                None => String::new(),
                            };
                            proof {
                                lemma_names_view_upsert(names.model(), n@, name);
                            }
                            names.insert(n, name);
                        },
                        None => {},
                    }
                },
                None => {},
            }
            i = i + 1;
        }
        assert(gv.take(groups.len() as int) =~= gv);
        let count = names.len();
        if count < MIN_GROUPS {
            let mut msg = chars_of("IOTA parse: only ");
            push_decimal(&mut msg, count as u64);
            extend_chars(&mut msg, chars_of(" groups — refusing a suspiciously small directory").as_slice());
            return Err(string_of(msg.as_slice()));
        }
        Ok(IotaDirectory { names })
    }

    /// Parse `groups.json`: an array of `{ "refno": …, "name": … }`
    /// objects. A text that is not JSON, not an array, or yields fewer than
    /// `MIN_GROUPS` references is refused.
    pub fn parse(text: &str) -> (r: Result<IotaDirectory, String>)
        ensures
            match iota_json(text@) {
                None => r is Err,
                Some(None) => r matches Err(e) && e@ == "IOTA parse: not a JSON array"@,
                Some(Some(g)) => {
                    let d = directory_of(g);
                    match r {
                        Ok(dir) => dir.wf() && d.len() >= MIN_GROUPS && dir.model() == d,
                        Err(e) => d.len() < MIN_GROUPS && e@ == too_small_text(d.len()),
                    }
                },
            },
    {
        match read_groups(text) {
            Err(e) => {
                let mut msg = chars_of("IOTA parse: ");
                extend_chars(&mut msg, chars_of(e.as_str()).as_slice());
                Err(string_of(msg.as_slice()))
            },
            Ok(None) => {
                let msg = "IOTA parse: not a JSON array";
                Err(msg.to_owned())
            },
            Ok(Some(groups)) => IotaDirectory::from_groups(&groups),
        }
    }

    /// Is `reference` (already normalised) in the directory?
    pub fn is_valid(&self, reference: &str) -> (r: bool)
        ensures
            r == (get(self.model(), reference@) is Some),
    {
        let k = chars_of(reference);
        proof {
            lemma_names_view_index(self.names.model(), reference@);
        }
        self.names.get(k.as_slice()).is_some()
    }

    /// The group's name, for display.
    pub fn name(&self, reference: &str) -> (r: Option<&str>)
        ensures
            match r {
                Some(s) => get(self.model(), reference@) == Some(s@),
                None => get(self.model(), reference@) is None,
            },
    {
        let k = chars_of(reference);
        proof {
            lemma_names_view_index(self.names.model(), reference@);
        }
        match self.names.get(k.as_slice()) {
            Some(s) => Some(s.as_str()),
            None => None,
        }
    }

    pub fn len(&self) -> (n: usize)
        ensures
            n == self.model().len(),
    {
        self.names.len()
    }

    pub fn is_empty(&self) -> (r: bool)
        ensures
            r == (self.model().len() == 0),
    {
        self.names.len() == 0
    }
}

impl Default for IotaDirectory {
    fn default() -> (d: IotaDirectory)
        ensures
            d.wf(),
            d.model() == Seq::<(Seq<char>, Seq<char>)>::empty(),
    {
        IotaDirectory::new()
    }
}

} // verus!

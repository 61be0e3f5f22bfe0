//! UDP broadcast destinations: the payload formats, which destination
//! takes which spot, and the per-destination send counters. The sockets
//! are the application's.

use crate::assoc::{get, upsert, StrMap, StrSet};
use crate::text::{chars_of, eq_lit};
use crate::wsjtx::{decode_bytes, encode_spot, spot_decode, spot_status, status_bytes, SCHEMA_VERSION};
use vstd::prelude::*;
use vstd::utf8::encode_utf8;

verus! {

/// What a destination is sent.
#[derive(Debug, Clone, Copy, PartialEq, Eq, Structural)]
pub enum Format {
    /// Plain-text DX cluster line.
    Cluster,
    /// Synthesized WSJT-X Status + Decode pair per spot.
    Wsjtx,
    /// Raw relay of every inbound source datagram.
    Passthrough,
}

pub open spec fn format_of(s: Seq<char>) -> Format {
    if s == "wsjtx"@ {
        Format::Wsjtx
    } else if s == "passthrough"@ {
        Format::Passthrough
    } else {
        Format::Cluster
    }
}

impl Format {
    /// The configured format name; anything unknown is a cluster line.
    pub fn from_str_lossy(s: &str) -> (f: Format)
        ensures
            f == format_of(s@),
    {
        let v = chars_of(s);
        if eq_lit(v.as_slice(), "wsjtx") {
            Format::Wsjtx
        } else if eq_lit(v.as_slice(), "passthrough") {
            Format::Passthrough
        } else {
            Format::Cluster
        }
    }
}

/// One spot's payload fields for the per-spot formats.
pub struct SpotPayload<'a> {
    pub cluster_line: &'a str,
    pub source_name: &'a str,
    pub callsign: Option<&'a str>,
    pub frequency_hz: u64,
    pub snr_db: i32,
    pub mode: &'a str,
    pub time_ms: u32,
}

/// Does a destination's source allowlist admit `source`? An empty list
/// admits every source.
pub open spec fn admits(allowed: Seq<Seq<char>>, source: Seq<char>) -> bool {
    allowed.len() == 0 || allowed.contains(source)
}

pub fn source_allowed(allowed: &StrSet, source_name: &str) -> (r: bool)
    ensures
        r == admits(allowed.model(), source_name@),
{
    allowed.is_empty() || allowed.contains(source_name)
}

/// Does a destination take a spot on the per-spot path? Passthrough
/// destinations never do; the source must be admitted; and a filtered
/// destination needs the caller's verdict.
pub open spec fn takes_spot_spec(
    format: Format,
    allowed: Seq<Seq<char>>,
    unfiltered: bool,
    source: Seq<char>,
    passes_filters: bool,
) -> bool {
    format != Format::Passthrough && admits(allowed, source) && (unfiltered || passes_filters)
}

pub fn takes_spot(
    format: Format,
    allowed: &StrSet,
    unfiltered: bool,
    source_name: &str,
    passes_filters: bool,
) -> (r: bool)
    ensures
        r == takes_spot_spec(format, allowed.model(), unfiltered, source_name@, passes_filters),
{
    if format == Format::Passthrough {
        return false;
    }
    if !source_allowed(allowed, source_name) {
        return false;
    }
    unfiltered || passes_filters
}

/// Does a destination relay a raw datagram? Only passthrough ones, and
/// only from admitted sources.
pub fn takes_raw(format: Format, allowed: &StrSet, source_name: &str) -> (r: bool)
    ensures
        r == (format == Format::Passthrough && admits(allowed.model(), source_name@)),
{
    format == Format::Passthrough && source_allowed(allowed, source_name)
}

/// The datagrams one spot becomes for a destination of `format`: a cluster
/// line as one UTF-8 datagram ending in CR LF; for WSJT-X, the synthesized
/// Status then Decode, which needs a callsign; nothing on the per-spot path
/// for passthrough. `None` is a send that cannot be made, and counts as a
/// failure.
pub fn datagrams(format: Format, spot: &SpotPayload) -> (r: Option<Vec<Vec<u8>>>)
    ensures
        match format {
            Format::Cluster => r matches Some(d) && d.len() == 1
                && d[0]@ == encode_utf8(spot.cluster_line@) + seq![13u8, 10u8],
            Format::Wsjtx => match spot.callsign {
                Some(call) if call@.len() > 0 => r matches Some(d) && d.len() == 2
                    && d[0]@ == status_bytes(SCHEMA_VERSION, spot_status(spot.frequency_hz, spot.mode@))
                    && d[1]@ == decode_bytes(
                        SCHEMA_VERSION,
                        spot_decode(call@, spot.snr_db, spot.mode@, spot.time_ms),
                    ),
                _ => r is None,
            },
            Format::Passthrough => r is None,
        },
{
    match format {
        Format::Cluster => {
            let b = spot.cluster_line.as_bytes();
            let mut line: Vec<u8> = Vec::new();
            let mut i: usize = 0;
            while i < b.len()
                invariant
                    i <= b@.len(),
                    b@ == encode_utf8(spot.cluster_line@),
                    line@ == b@.take(i as int),
                decreases b@.len() - i,
            {
                line.push(b[i]);
                i = i + 1;
                assert(b@.take(i as int) =~= b@.take(i - 1).push(b@[i - 1]));
            }
            line.push(13u8);
            line.push(10u8);
            assert(b@.take(b@.len() as int) =~= b@);
            assert(line@ =~= encode_utf8(spot.cluster_line@) + seq![13u8, 10u8]);
            let mut d: Vec<Vec<u8>> = Vec::new();
            d.push(line);
            Some(d)
        },
        Format::Wsjtx => match spot.callsign {
            Some(call) => {
                if call.unicode_len() == 0 {
                    None
                } else {
                    let (status, decode) = encode_spot(call, spot.frequency_hz, spot.snr_db, spot.mode, spot.time_ms);
                    let mut d: Vec<Vec<u8>> = Vec::new();
                    d.push(status);
                    d.push(decode);
                    Some(d)
                }
            },
            None => None,
        },
        Format::Passthrough => None,
    }
}

/// The sum of a counter map's values.
pub open spec fn total_of(s: Seq<(Seq<char>, u64)>) -> nat
    decreases s.len(),
{
    if s.len() == 0 {
        0
    } else {
        total_of(s.drop_last()) + s.last().1 as nat
    }
}

/// The counter map after one more event for `id`.
pub open spec fn bumped(s: Seq<(Seq<char>, u64)>, id: Seq<char>) -> Seq<(Seq<char>, u64)> {
    upsert(
        s,
        id,
        (match get(s, id) {
            Some(n) => n + 1,
            None => 1,
        }) as u64,
    )
}

/// Sum of a counter map, which the caller guarantees fits in a `u64`.
pub fn sum_counts(m: &StrMap<u64>) -> (t: u64)
    requires
        total_of(m.model()) <= u64::MAX,
    ensures
        t == total_of(m.model()),
{
    let ghost s = m.model();
    let mut t: u64 = 0;
    let mut i: usize = 0;
    assert(s.take(0) =~= Seq::<(Seq<char>, u64)>::empty());
    while i < m.len()
        invariant
            s == m.model(),
            i <= s.len(),
            t == total_of(s.take(i as int)),
            total_of(s) <= u64::MAX,
        decreases s.len() - i,
    {
        assert(s.take(i + 1).drop_last() =~= s.take(i as int));
        proof {
            lemma_total_prefix(s, i + 1);
        }
        t = t + *m.value_at(i);
        i = i + 1;
    }
    assert(s.take(s.len() as int) =~= s);
    t
}

/// Sum of a counter map, or `None` when it does not fit in a `u64`.
pub fn checked_sum(m: &StrMap<u64>) -> (r: Option<u64>)
    ensures
        r == (if total_of(m.model()) <= u64::MAX {
            Some(total_of(m.model()) as u64)
        } else {
            None::<u64>
        }),
{
    let ghost s = m.model();
    let mut t: u64 = 0;
    let mut i: usize = 0;
    assert(s.take(0) =~= Seq::<(Seq<char>, u64)>::empty());
    while i < m.len()
        invariant
            s == m.model(),
            i <= s.len(),
            t == total_of(s.take(i as int)),
        decreases s.len() - i,
    {
        assert(s.take(i + 1).drop_last() =~= s.take(i as int));
        let v = *m.value_at(i);
        if v > u64::MAX - t {
            proof {
                lemma_total_prefix(s, i + 1);
            }
            return None;
        }
        t = t + v;
        i = i + 1;
    }
    assert(s.take(s.len() as int) =~= s);
    Some(t)
}

proof fn lemma_total_prefix(s: Seq<(Seq<char>, u64)>, i: int)
    requires
        0 <= i <= s.len(),
    ensures
        total_of(s.take(i)) <= total_of(s),
    decreases s.len() - i,
{
    if i < s.len() {
        lemma_total_prefix(s, i + 1);
        assert(s.take(i + 1).drop_last() =~= s.take(i));
    } else {
        assert(s.take(i) =~= s);
    }
}

/// Record one event for `id`, which must not be at the counter's limit.
pub fn bump(m: &mut StrMap<u64>, id: &str)
    requires
        old(m).wf(),
        get(old(m).model(), id@) matches Some(n) ==> n < u64::MAX,
    ensures
        final(m).wf(),
        final(m).model() == bumped(old(m).model(), id@),
{
    let k = chars_of(id);
    let n: u64 = match m.get(k.as_slice()) {
        Some(v) => *v + 1,
        None => 1,
    };
    m.insert(id.to_owned(), n);
}

/// Sent and failed sends, per destination id.
pub struct Counters {
    pub sent: StrMap<u64>,
    pub failed: StrMap<u64>,
}

impl Counters {
    pub fn new() -> (c: Counters)
        ensures
            c.sent.wf() && c.failed.wf(),
            c.sent.model().len() == 0 && c.failed.model().len() == 0,
    {
        Counters { sent: StrMap::new(), failed: StrMap::new() }
    }

    /// Book one send to destination `id`: a success or a failure.
    pub fn book(&mut self, id: &str, ok: bool)
        requires
            old(self).sent.wf() && old(self).failed.wf(),
            ok ==> (get(old(self).sent.model(), id@) matches Some(n) ==> n < u64::MAX),
            !ok ==> (get(old(self).failed.model(), id@) matches Some(n) ==> n < u64::MAX),
        ensures
            final(self).sent.wf() && final(self).failed.wf(),
            ok ==> final(self).sent.model() == bumped(old(self).sent.model(), id@)
                && final(self).failed.model() == old(self).failed.model(),
            !ok ==> final(self).failed.model() == bumped(old(self).failed.model(), id@)
                && final(self).sent.model() == old(self).sent.model(),
    {
        if ok {
            bump(&mut self.sent, id);
        } else {
            bump(&mut self.failed, id);
        }
    }

    pub fn total_sent(&self) -> (t: u64)
        requires
            total_of(self.sent.model()) <= u64::MAX,
        ensures
            t == total_of(self.sent.model()),
    {
        sum_counts(&self.sent)
    }

    pub fn total_failed(&self) -> (t: u64)
        requires
            total_of(self.failed.model()) <= u64::MAX,
        ensures
            t == total_of(self.failed.model()),
    {
        sum_counts(&self.failed)
    }
}

impl Default for Counters {
    fn default() -> (c: Counters)
        ensures
            c.sent.wf() && c.failed.wf(),
            c.sent.model().len() == 0 && c.failed.model().len() == 0,
    {
        Counters::new()
    }
}

} // verus!

//! MQTT spot publishing settings: the sibling topics under a configured
//! base, which spots a destination takes, and the per-destination
//! counters. The broker connections are the application's.

use crate::assoc::{StrMap, StrSet};
use crate::broadcast::{admits, source_allowed, sum_counts, takes_spot_spec, total_of, Format};
use crate::spot::strip_trail;
use crate::text::{chars_of, extend_chars, string_of};
use vstd::prelude::*;

verus! {

/// One broker destination.
pub struct MqttDestinationConfig {
    /// Stable identifier for the counters.
    pub name: String,
    pub host: String,
    pub port: u16,
    /// Empty username = connect anonymously.
    pub username: String,
    pub password: String,
    /// Base topic; `/json` and `/cluster` are appended.
    pub topic: String,
    pub client_id: String,
    /// Source-name allowlist; empty = all sources.
    pub allowed_sources: StrSet,
    /// Ignore the dedupe verdict and publish every spot.
    pub unfiltered: bool,
}

/// `base` without trailing slashes, then `/` and `leaf`.
pub open spec fn sibling_topic(base: Seq<char>, leaf: Seq<char>) -> Seq<char> {
    strip_trail(base, '/') + seq!['/'] + leaf
}

fn topic_with(base: &str, leaf: &str) -> (r: String)
    ensures
        r@ == sibling_topic(base@, leaf@),
{
    let v = chars_of(base);
    let mut n: usize = v.len();
    assert(v@.take(n as int) =~= v@);
    while n > 0 && v[n - 1] == '/'
        invariant
            n <= v.len(),
            strip_trail(v@, '/') == strip_trail(v@.take(n as int), '/'),
        decreases n,
    {
        assert(v@.take(n as int).drop_last() =~= v@.take(n - 1));
        n = n - 1;
    }
    let mut out = crate::text::slice_vec(v.as_slice(), 0, n);
    assert(out@ =~= v@.take(n as int));
    out.push('/');
    extend_chars(&mut out, chars_of(leaf).as_slice());
    string_of(out.as_slice())
}

impl MqttDestinationConfig {
    /// Where the JSON form of a spot goes: `<base>/json`.
    pub fn json_topic(&self) -> (r: String)
        ensures
            r@ == sibling_topic(self.topic@, "json"@),
    {
        topic_with(self.topic.as_str(), "json")
    }

    /// Where the cluster-line form goes: `<base>/cluster`.
    pub fn cluster_topic(&self) -> (r: String)
        ensures
            r@ == sibling_topic(self.topic@, "cluster"@),
    {
        topic_with(self.topic.as_str(), "cluster")
    }

    /// Does this destination publish a spot from `source_name`, given the
    /// pipeline's dedupe verdict? An unfiltered destination ignores it.
    pub fn accepts(&self, source_name: &str, passes_filters: bool) -> (r: bool)
        ensures
            r == mqtt_takes(self.allowed_sources.model(), self.unfiltered, source_name@, passes_filters),
    {
        if !self.unfiltered && !passes_filters {
            return false;
        }
        source_allowed(&self.allowed_sources, source_name)
    }
}

/// Whether an MQTT destination with this allowlist and filtering takes a
/// spot: the source must be admitted, and a filtered destination needs the
/// pipeline's verdict.
pub open spec fn mqtt_takes(allowed: Seq<Seq<char>>, unfiltered: bool, source: Seq<char>, passes_filters: bool) -> bool {
    (unfiltered || passes_filters) && admits(allowed, source)
}

/// MQTT and the UDP destinations see one consistent feed: an MQTT
/// destination takes exactly the spots a per-spot UDP destination (cluster
/// line or WSJT-X) with the same allowlist and filtering takes.
pub proof fn law_mqtt_and_udp_see_one_feed(
    allowed: Seq<Seq<char>>,
    unfiltered: bool,
    source: Seq<char>,
    passes_filters: bool,
)
    ensures
        mqtt_takes(allowed, unfiltered, source, passes_filters) == takes_spot_spec(
            Format::Cluster,
            allowed,
            unfiltered,
            source,
            passes_filters,
        ),
        mqtt_takes(allowed, unfiltered, source, passes_filters) == takes_spot_spec(
            Format::Wsjtx,
            allowed,
            unfiltered,
            source,
            passes_filters,
        ),
{
}

/// The two topics of a destination are siblings: the same base, trailing
/// slashes removed, then `/json` or `/cluster`.
pub proof fn law_topics_are_siblings(base: Seq<char>)
    ensures
        sibling_topic(base, "json"@).take(strip_trail(base, '/').len() + 1int) == sibling_topic(base, "cluster"@).take(
            strip_trail(base, '/').len() + 1int,
        ),
        sibling_topic(base, "json"@).take(strip_trail(base, '/').len() + 1int) == strip_trail(base, '/') + seq!['/'],
{
    let p = strip_trail(base, '/') + seq!['/'];
    assert(sibling_topic(base, "json"@).take(p.len() as int) =~= p);
    assert(sibling_topic(base, "cluster"@).take(p.len() as int) =~= p);
}

/// One spot, as MQTT publishes it.
pub struct MqttSpot<'a> {
    pub cluster_line: &'a str,
    pub source_name: &'a str,
    pub callsign: Option<&'a str>,
    pub frequency_hz: u64,
    pub snr_db: i32,
    pub mode: &'a str,
    pub mode_inferred: bool,
    pub comment: &'a str,
    pub is_cq: bool,
    pub time_unix: i64,
}

/// Published and failed spots per destination, and how many are configured.
pub struct MqttCounters {
    pub sent: StrMap<u64>,
    pub failed: StrMap<u64>,
    pub configured: usize,
}

impl MqttCounters {
    pub fn new() -> (c: MqttCounters)
        ensures
            c.sent.wf() && c.failed.wf(),
            c.sent.model().len() == 0 && c.failed.model().len() == 0,
            c.configured == 0,
    {
        MqttCounters { sent: StrMap::new(), failed: StrMap::new(), configured: 0 }
    }

    pub fn total_sent(&self) -> (t: u64)
        requires
            total_of(self.sent.model()) <= u64::MAX,
        ensures
            t == total_of(self.sent.model()),
    {
        sum_counts(&self.sent)
    }

    pub fn total_failed(&self) -> (t: u64)
        requires
            total_of(self.failed.model()) <= u64::MAX,
        ensures
            t == total_of(self.failed.model()),
    {
        sum_counts(&self.failed)
    }
}

impl Default for MqttCounters {
    fn default() -> (c: MqttCounters)
        ensures
            c.sent.wf() && c.failed.wf(),
            c.sent.model().len() == 0 && c.failed.model().len() == 0,
            c.configured == 0,
    {
        MqttCounters::new()
    }
}

} // verus!

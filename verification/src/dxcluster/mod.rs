//! DX-cluster telnet client: the spot kinds and the client configuration.
//! `wire` holds the line grammar and the byte-level clean-up.

pub mod client;
pub mod supervise;
pub mod wire;

use crate::text::{chars_of, string_of};
use vstd::prelude::*;

verus! {

/// What kind of transmission a spot reports (the comment's type token).
#[derive(Debug, Clone, Copy, PartialEq, Eq, Structural)]
pub enum SpotKind {
    Cq,
    /// The station called `CQ DX`.
    Dx,
    De,
    /// Personal beacon.
    Bcn,
    /// NCDXF/IARU beacon, positively identified.
    Ncdxf,
    Unknown,
}

pub open spec fn kind_token(k: SpotKind) -> Option<Seq<char>> {
    match k {
        SpotKind::Cq => Some("CQ"@),
        SpotKind::Dx => Some("DX"@),
        SpotKind::Bcn => Some("BCN"@),
        SpotKind::Ncdxf => Some("NCDXF"@),
        SpotKind::De | SpotKind::Unknown => None,
    }
}

impl SpotKind {
    /// The comment's type token, or `None` for the kinds that render blank.
    pub fn token(self) -> (r: Option<&'static str>)
        ensures
            match r {
                Some(t) => kind_token(self) == Some(t@),
                None => kind_token(self) is None,
            },
    {
        match self {
            SpotKind::Cq => Some("CQ"),
            SpotKind::Dx => Some("DX"),
            SpotKind::Bcn => Some("BCN"),
            SpotKind::Ncdxf => Some("NCDXF"),
            SpotKind::De | SpotKind::Unknown => None,
        }
    }
}

impl Default for SpotKind {
    fn default() -> (k: SpotKind)
        ensures
            k == SpotKind::Unknown,
    {
        SpotKind::Unknown
    }
}

/// Configuration for one outbound connection to a cluster node.
pub struct ClientConfig {
    pub host: String,
    pub port: u16,
    /// Callsign sent at the login prompt.
    pub login_call: String,
    /// Password sent at a password prompt; empty = the node has none.
    pub password: String,
    /// Case-insensitive substrings that mark a login prompt.
    pub login_prompts: Vec<String>,
    /// Case-insensitive substrings that mark a password prompt.
    pub password_prompts: Vec<String>,
    /// Commands sent once logged in, paced one per prompt sighting.
    pub init_commands: Vec<String>,
    /// Send a bare CRLF after this many idle seconds; 0 = off.
    pub keepalive_secs: u64,
    /// Fixed reconnect schedule in seconds; the last entry repeats.
    pub reconnect_schedule_s: Vec<u64>,
    /// Recycle when connected this long without proof of life.
    pub auth_timeout_s: u64,
    /// Recycle a proven session after this much receive silence.
    pub silence_timeout_s: u64,
}

pub open spec fn texts_of(v: Seq<String>) -> Seq<Seq<char>> {
    v.map_values(|s: String| s@)
}

fn owned(v: &[&str]) -> (r: Vec<String>)
    ensures
        r@.len() == v@.len(),
        forall|k: int| 0 <= k < v@.len() ==> #[trigger] r@[k]@ == v@[k]@,
{
    let mut out: Vec<String> = Vec::new();
    let mut i: usize = 0;
    while i < v.len()
        invariant
            i <= v.len(),
            out@.len() == i,
            forall|k: int| 0 <= k < i ==> #[trigger] out@[k]@ == v@[k]@,
        decreases v.len() - i,
    {
        let s = string_of(chars_of(v[i]).as_slice());
        out.push(s);
        i = i + 1;
    }
    out
}

impl ClientConfig {
    /// Defaults on everything but the endpoint and the login call: the
    /// usual prompts, `set/page 0` and `set/dxgrid on`, a five-minute
    /// keepalive, the 10/30/60/120/300 s reconnect schedule, a two-minute
    /// login watchdog and a fifteen-minute silence watchdog.
    pub fn new(host: &str, port: u16, login_call: &str) -> (c: ClientConfig)
        ensures
            c.host@ == host@,
            c.port == port,
            c.login_call@ == login_call@,
            c.password@.len() == 0,
            texts_of(c.login_prompts@) == seq!["login:"@, "callsign:"@, "call:"@],
            texts_of(c.password_prompts@) == seq!["password:"@, "passwd:"@, "password please:"@],
            texts_of(c.init_commands@) == seq!["set/page 0"@, "set/dxgrid on"@],
            c.keepalive_secs == 300,
            c.reconnect_schedule_s@ == seq![10u64, 30, 60, 120, 300],
            c.auth_timeout_s == 120,
            c.silence_timeout_s == 900,
    {
        let lp_src = ["login:", "callsign:", "call:"];
        let pp_src = ["password:", "passwd:", "password please:"];
        let ic_src = ["set/page 0", "set/dxgrid on"];
        let lp = owned(&lp_src);
        let pp = owned(&pp_src);
        let ic = owned(&ic_src);
        assert(texts_of(lp@) =~= seq!["login:"@, "callsign:"@, "call:"@]) by {
            assert(lp@[0]@ == lp_src@[0]@ && lp@[1]@ == lp_src@[1]@ && lp@[2]@ == lp_src@[2]@);
        }
        assert(texts_of(pp@) =~= seq!["password:"@, "passwd:"@, "password please:"@]) by {
            assert(pp@[0]@ == pp_src@[0]@ && pp@[1]@ == pp_src@[1]@ && pp@[2]@ == pp_src@[2]@);
        }
        assert(texts_of(ic@) =~= seq!["set/page 0"@, "set/dxgrid on"@]) by {
            assert(ic@[0]@ == ic_src@[0]@ && ic@[1]@ == ic_src@[1]@);
        }
        let sched = vec![10u64, 30, 60, 120, 300];
        assert(sched@ =~= seq![10u64, 30, 60, 120, 300]);
        ClientConfig {
            host: string_of(chars_of(host).as_slice()),
            port,
            login_call: string_of(chars_of(login_call).as_slice()),
            password: String::new(),
            login_prompts: lp,
            password_prompts: pp,
            init_commands: ic,
            keepalive_secs: 300,
            reconnect_schedule_s: sched,
            auth_timeout_s: 120,
            silence_timeout_s: 15 * 60,
        }
    }
}

} // verus!

//! The connection supervisor's decisions: how long to wait before each
//! redial, and when a live connection is recycled. The sockets, clocks and
//! threads are the application's.

use crate::dxcluster::ClientConfig;
use crate::text::{chars_of, decimal, extend_chars, push_decimal, string_of};
use vstd::prelude::*;

verus! {

/// The pause, in seconds, used when no reconnect schedule is configured.
pub const DEFAULT_RECONNECT_S: u64 = 10;

/// The pause before redial number `attempt`, counted from the last proven
/// connection: the schedule's entry, its last entry repeating once the
/// schedule runs out.
pub open spec fn delay_for(schedule: Seq<u64>, attempt: int) -> u64 {
    if schedule.len() == 0 {
        DEFAULT_RECONNECT_S
    } else if attempt < schedule.len() {
        schedule[attempt]
    } else {
        schedule.last()
    }
}

/// A fixed reconnect schedule and how far along it the supervisor is. Only
/// a connection that proved itself resets the count, so a node that accepts
/// TCP but ignores logins keeps escalating rather than being redialled at
/// the fastest pace.
pub struct Backoff {
    schedule: Vec<u64>,
    attempt: usize,
}

impl Backoff {
    pub closed spec fn schedule(&self) -> Seq<u64> {
        self.schedule@
    }

    /// Redials since the last proven connection.
    pub closed spec fn attempt(&self) -> nat {
        self.attempt as nat
    }

    pub fn new(schedule: &[u64]) -> (b: Backoff)
        ensures
            b.schedule() == schedule@,
            b.attempt() == 0,
    {
        let mut s: Vec<u64> = Vec::new();
        let mut i: usize = 0;
        while i < schedule.len()
            invariant
                i <= schedule@.len(),
                s@ == schedule@.take(i as int),
            decreases schedule@.len() - i,
        {
            s.push(schedule[i]);
            i = i + 1;
            assert(s@ =~= schedule@.take(i as int));
        }
        assert(schedule@.take(schedule@.len() as int) =~= schedule@);
        Backoff { schedule: s, attempt: 0 }
    }

    /// A connection ended; one that proved itself earns the fast retry.
    pub fn connection_ended(&mut self, proven: bool)
        ensures
            final(self).schedule() == old(self).schedule(),
            final(self).attempt() == (if proven { 0 } else { old(self).attempt() }),
    {
        if proven {
            self.attempt = 0;
        }
    }

    /// The pause before the next dial, moving one step along the schedule.
    pub fn next_delay(&mut self) -> (d: u64)
        ensures
            d == delay_for(old(self).schedule(), old(self).attempt() as int),
            final(self).schedule() == old(self).schedule(),
            final(self).attempt() == (if old(self).attempt() < usize::MAX {
                old(self).attempt() + 1
            } else {
                old(self).attempt()
            }),
    {
        let n = self.schedule.len();
        let d = if n == 0 {
            DEFAULT_RECONNECT_S
        } else if self.attempt < n {
            self.schedule[self.attempt]
        } else {
            self.schedule[n - 1]
        };
        self.attempt = self.attempt.saturating_add(1);
        d
    }
}

/// Why a live connection is recycled, if it is: one that has not proved
/// itself within the login watchdog, or a proven one that has been silent
/// for the silence watchdog. `connected_s` is the time since the connection
/// opened, `silent_s` the time since anything was last received.
pub open spec fn recycle_reason(
    proven: bool,
    auth_timeout_s: u64,
    silence_timeout_s: u64,
    connected_s: u64,
    silent_s: u64,
) -> Option<Seq<char>> {
    if !proven && connected_s >= auth_timeout_s {
        Some("no login ack within "@ + decimal(auth_timeout_s as nat) + "s"@)
    } else if proven && silent_s >= silence_timeout_s {
        Some("silent for "@ + decimal(silence_timeout_s as nat) + "s"@)
    } else {
        None
    }
}

/// The watchdog: the reason to recycle the connection now, or `None` to
/// keep it.
pub fn watchdog(cfg: &ClientConfig, proven: bool, connected_s: u64, silent_s: u64) -> (r: Option<String>)
    ensures
        match r {
            Some(t) => recycle_reason(proven, cfg.auth_timeout_s, cfg.silence_timeout_s, connected_s, silent_s)
                == Some(t@),
            None => recycle_reason(proven, cfg.auth_timeout_s, cfg.silence_timeout_s, connected_s, silent_s)
                is None,
        },
{
    if !proven && connected_s >= cfg.auth_timeout_s {
        let mut out = chars_of("no login ack within ");
        push_decimal(&mut out, cfg.auth_timeout_s);
        extend_chars(&mut out, chars_of("s").as_slice());
        Some(string_of(out.as_slice()))
    } else if proven && silent_s >= cfg.silence_timeout_s {
        let mut out = chars_of("silent for ");
        push_decimal(&mut out, cfg.silence_timeout_s);
        extend_chars(&mut out, chars_of("s").as_slice());
        Some(string_of(out.as_slice()))
    } else {
        None
    }
}

} // verus!

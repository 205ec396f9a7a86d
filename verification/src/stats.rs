//! Operational counters.

use vstd::prelude::*;

verus! {

/// Monotonic operational counters for a client.
#[derive(Debug, Clone, Copy, PartialEq, Eq, Structural)]
pub struct ClientStats {
    pub connections_created: u64,
    pub connections_reused: u64,
    pub connections_discarded: u64,
    pub pool_waits: u64,
    pub stale_retries: u64,
    pub redirects_followed: u64,
}

/// The counter after one more event; the largest value is followed by zero.
pub open spec fn counted(n: u64) -> u64 {
    if n == u64::MAX {
        0
    } else {
        (n + 1) as u64
    }
}

/// The counter after one more event.
pub fn count(n: u64) -> (r: u64)
    ensures
        r == counted(n),
{
    if n == u64::MAX {
        0
    } else {
        n + 1
    }
}

impl Default for ClientStats {
    fn default() -> (r: ClientStats)
        ensures
            r == (ClientStats {
                connections_created: 0,
                connections_reused: 0,
                connections_discarded: 0,
                pool_waits: 0,
                stale_retries: 0,
                redirects_followed: 0,
            }),
    {
        ClientStats {
            connections_created: 0,
            connections_reused: 0,
            connections_discarded: 0,
            pool_waits: 0,
            stale_retries: 0,
            redirects_followed: 0,
        }
    }
}

} // verus!

//! Checking a connection out of the pool: reusing, connecting or waiting within limits and
//! deadlines.

use vstd::prelude::*;

use crate::builder::ClientConfigValues;
use crate::error::{failure, Error, ErrorKind, ErrorView};
use crate::pool::{
    idle_taken, lemma_idle_taken, lemma_origin_within_total, lemma_purged, lemma_released,
    lemma_reserved, purged, released, reserved, PoolLease, PoolState, PoolView, PooledConnection,
};
use crate::resolver::{Resolution, SocketAddr};
use crate::stats::{count, counted, ClientStats};
use crate::time::{deadline_failure, remaining, Duration, Instant};
use crate::url::{connect_text, OriginKey, OriginView};

verus! {

/// What a checkout does after it has looked at the pool.
#[derive(Debug)]
pub enum CheckoutStep<C> {
    /// The lease holds an idle connection: use it.
    Reuse(PoolLease<C>),
    /// The lease holds a reserved slot: resolve the host until the given instant.
    Resolve { lease: PoolLease<C>, connect_deadline: Instant },
    /// The pool is full: wait for a slot, for at most the given time, and look again.
    Wait(Duration),
}

/// What a checkout does after the host was resolved.
#[derive(Debug)]
pub struct ConnectStep<C> {
    pub lease: PoolLease<C>,
    /// The address of the origin.
    pub url: String,
    pub timeout: Duration,
    pub addresses: Vec<SocketAddr>,
}

/// The failure of a connect timeout that the clock cannot express.
pub open spec fn connect_overflow_failure() -> ErrorView {
    failure(ErrorKind::InvalidInput, "connect timeout overflow"@)
}

/// The failure of a lookup that took until the connect deadline.
pub open spec fn dns_deadline_failure() -> ErrorView {
    failure(ErrorKind::TimedOut, "DNS resolution exhausted the connect deadline"@)
}

/// The failure of a wait for a connection.
pub open spec fn pool_wait_failure() -> ErrorView {
    failure(ErrorKind::TimedOut, "timed out waiting for an HTTP connection"@)
}

/// The pool has room for one more connection of an origin.
pub open spec fn has_room<C>(
    pool: PoolView<C>,
    key: OriginView,
    config: ClientConfigValues,
) -> bool {
    pool.total < config.max_connections && pool.open_of(key) < config.max_connections_per_origin
}

/// Where a checkout gets its connection from.
pub enum Source<C> {
    /// An idle connection.
    Idle(PooledConnection<C>),
    /// A new connection, for which there is room.
    New,
    /// One that another request still has to give up.
    Later,
}

/// Where a checkout gets its connection from: an idle one that may stay, a new one within the
/// limits, or one that is waited for.
pub open spec fn source<C>(
    pool: PoolView<C>,
    key: OriginView,
    now: Instant,
    config: ClientConfigValues,
) -> Source<C> {
    let kept = purged(pool, now, config.idle_timeout, config.max_connection_lifetime);
    if kept.idle_of(key).len() > 0 {
        Source::Idle(kept.idle_of(key).last())
    } else if has_room(kept, key, config) {
        Source::New
    } else {
        Source::Later
    }
}

/// How long connecting may take.
pub open spec fn connect_budget(
    deadline: Instant,
    now: Instant,
    config: ClientConfigValues,
) -> Duration {
    config.connect_timeout.least(deadline.since(now))
}

/// A connection that was just made.
pub open spec fn new_connection<C>(client: C, now: Instant) -> PooledConnection<C> {
    PooledConnection { client, created: now, idle_since: now }
}

/// A lease of a reserved slot of the origin.
pub open spec fn is_reservation<C>(lease: PoolLease<C>, key: OriginView, request_id: u64) -> bool {
    &&& lease.key@ == key
    &&& lease.request_id == request_id
    &&& lease.connection is None
    &&& lease.accounted
    &&& !lease.reused_idle_connection
}

impl<C> PoolState<C> {
    /// Look at the pool for a connection of an origin.
    ///
    /// An idle connection is leased; otherwise a slot is reserved where the limits allow it;
    /// otherwise the caller has to wait. A reservation whose deadline has passed is given up at
    /// once.
    pub fn checkout(
        &mut self,
        key: &OriginKey,
        request_id: u64,
        deadline: Instant,
        now: Instant,
        config: &ClientConfigValues,
        stats: &mut ClientStats,
    ) -> (r: Result<CheckoutStep<C>, Error>)
        requires
            old(self).wf(),
        ensures
            final(self).wf(),
            ({
                let kept = purged(
                    old(self)@,
                    now,
                    config.idle_timeout,
                    config.max_connection_lifetime,
                );
                if kept.idle_of(key@).len() > 0 {
                    &&& r matches Ok(CheckoutStep::Reuse(lease)) && lease.key@ == key@
                        && lease.request_id == request_id && lease.connection == Some(
                        kept.idle_of(key@).last(),
                    ) && lease.accounted && lease.reused_idle_connection
                    &&& final(self)@ == idle_taken(kept, key@)
                    &&& *final(stats) == (ClientStats {
                        connections_reused: counted(old(stats).connections_reused),
                        ..*old(stats)
                    })
                } else if has_room(kept, key@, *config) {
                    let budget = connect_budget(deadline, now, *config);
                    &&& *final(stats) == *old(stats)
                    &&& if now.nanos > deadline.nanos {
                        &&& r is Err
                        &&& r->Err_0@ == deadline_failure()
                        &&& final(self)@ == released(reserved(kept, key@), key@)
                    } else if now.later(budget) is None {
                        &&& r is Err
                        &&& r->Err_0@ == connect_overflow_failure()
                        &&& final(self)@ == released(reserved(kept, key@), key@)
                    } else {
                        &&& r matches Ok(CheckoutStep::Resolve { lease, connect_deadline })
                            && is_reservation(lease, key@, request_id) && now.later(budget) == Some(
                            connect_deadline,
                        )
                        &&& final(self)@ == reserved(kept, key@)
                    }
                } else {
                    &&& final(self)@ == kept
                    &&& if now.nanos > deadline.nanos {
                        &&& r is Err
                        &&& r->Err_0@ == deadline_failure()
                        &&& *final(stats) == *old(stats)
                    } else {
                        &&& r matches Ok(CheckoutStep::Wait(span)) && span == deadline.since(now)
                        &&& *final(stats) == (ClientStats {
                            pool_waits: counted(old(stats).pool_waits),
                            ..*old(stats)
                        })
                    }
                }
            }),
            match source(old(self)@, key@, now, *config) {
                Source::Idle(connection) => r matches Ok(CheckoutStep::Reuse(lease))
                    && lease.connection == Some(connection),
                Source::New => now.nanos <= deadline.nanos && now.later(
                    connect_budget(deadline, now, *config),
                ) is Some ==> r matches Ok(CheckoutStep::Resolve { .. }),
                Source::Later => now.nanos <= deadline.nanos ==> r matches Ok(
                    CheckoutStep::Wait(_),
                ),
            },
            r matches Ok(CheckoutStep::Reuse(lease)) ==> lease.held_in(final(self)),
            r matches Ok(CheckoutStep::Resolve { lease, .. }) ==> lease.held_in(final(self)),
    {
        self.purge_expired(now, config.idle_timeout, config.max_connection_lifetime);
        let ghost kept = self@;
        if let Some(connection) = self.take_idle(key) {
            stats.connections_reused = count(stats.connections_reused);
            proof {
                lemma_idle_taken(kept, key@, key@);
                lemma_origin_within_total(kept, key@);
            }
            return Ok(
                CheckoutStep::Reuse(
                    PoolLease::with_connection(key.clone(), connection, request_id),
                ),
            );
        }
        if self.total() < config.max_connections && self.open_count(key)
            < config.max_connections_per_origin {
            self.reserve(key);
            proof {
                lemma_reserved(kept, key@, key@);
                lemma_origin_within_total(kept, key@);
            }
            let lease: PoolLease<C> = PoolLease::reserved(key.clone(), request_id);
            let left = match remaining(deadline, now) {
                Ok(left) => left,
                Err(e) => {
                    let _discarded = lease.release(self, stats);
                    return Err(e);
                },
            };
            let budget = config.connect_timeout.min(left);
            return match now.checked_add(budget) {
                Some(connect_deadline) => Ok(CheckoutStep::Resolve { lease, connect_deadline }),
                None => {
                    let _discarded = lease.release(self, stats);
                    Err(Error::new(ErrorKind::InvalidInput, "connect timeout overflow"))
                },
            };
        }
        let span = match remaining(deadline, now) {
            Ok(span) => span,
            Err(e) => {
                return Err(e);
            },
        };
        stats.pool_waits = count(stats.pool_waits);
        Ok(CheckoutStep::Wait(span))
    }

    /// Go on with a reservation once the host was resolved, or give it up.
    pub fn checkout_resolved(
        &mut self,
        lease: PoolLease<C>,
        resolution: Result<Resolution, Error>,
        connect_deadline: Instant,
        now: Instant,
        stats: &mut ClientStats,
    ) -> (r: Result<ConnectStep<C>, Error>)
        requires
            old(self).wf(),
            lease.accounted,
            lease.held_in(old(self)),
            lease.connection is None,
        ensures
            final(self).wf(),
            *final(stats) == *old(stats),
            match resolution {
                Err(e) => {
                    &&& r is Err
                    &&& r->Err_0@ == e@
                    &&& final(self)@ == released(old(self)@, lease.key@)
                },
                Ok(found) => if now.nanos > connect_deadline.nanos {
                    &&& r is Err
                    &&& r->Err_0@ == dns_deadline_failure()
                    &&& final(self)@ == released(old(self)@, lease.key@)
                } else {
                    &&& r matches Ok(step) && step.lease == lease && step.url@ == connect_text(
                        lease.key@,
                    ) && step.timeout == connect_deadline.since(now) && step.addresses@
                        == found.addresses@
                    &&& *final(self) == *old(self)
                },
            },
    {
        let addresses = match resolution {
            Ok(found) => found.addresses,
            Err(e) => {
                let _discarded = lease.release(self, stats);
                return Err(e);
            },
        };
        match connect_deadline.checked_duration_since(now) {
            Some(timeout) => {
                let url = lease.key.connect_url();
                Ok(ConnectStep { lease, url, timeout, addresses })
            },
            None => {
                let _discarded = lease.release(self, stats);
                Err(
                    Error::new(
                        ErrorKind::TimedOut,
                        "DNS resolution exhausted the connect deadline",
                    ),
                )
            },
        }
    }

    /// Put a new connection into its lease, or give the reservation up.
    pub fn checkout_connected(
        &mut self,
        lease: PoolLease<C>,
        connected: Result<C, Error>,
        now: Instant,
        stats: &mut ClientStats,
    ) -> (r: Result<PoolLease<C>, Error>)
        requires
            old(self).wf(),
            lease.accounted,
            lease.held_in(old(self)),
            lease.connection is None,
        ensures
            final(self).wf(),
            match connected {
                Err(e) => {
                    &&& r is Err
                    &&& r->Err_0@ == e@
                    &&& final(self)@ == released(old(self)@, lease.key@)
                    &&& *final(stats) == *old(stats)
                },
                Ok(client) => {
                    &&& r matches Ok(made) && made.connection == Some(new_connection(client, now))
                    &&& r == Ok::<PoolLease<C>, Error>(
                        PoolLease {
                            connection: Some(
                                PooledConnection { client, created: now, idle_since: now },
                            ),
                            ..lease
                        },
                    )
                    &&& *final(self) == *old(self)
                    &&& *final(stats) == (ClientStats {
                        connections_created: counted(old(stats).connections_created),
                        ..*old(stats)
                    })
                },
            },
    {
        match connected {
            Ok(client) => {
                let mut lease = lease;
                lease.connection = Some(PooledConnection { client, created: now, idle_since: now });
                stats.connections_created = count(stats.connections_created);
                Ok(lease)
            },
            Err(e) => {
                let _discarded = lease.release(self, stats);
                Err(e)
            },
        }
    }
}

/// A wait that timed out ends the checkout; otherwise the pool is looked at again.
pub fn checkout_waited(timed_out: bool) -> (r: Result<(), Error>)
    ensures
        match r {
            Ok(_) => !timed_out,
            Err(e) => timed_out && e@ == pool_wait_failure(),
        },
{
    if timed_out {
        return Err(
            Error::new(ErrorKind::TimedOut, "timed out waiting for an HTTP connection"),
        );
    }
    Ok(())
}

/// A checkout keeps a bounded pool within its limits, whatever it comes to.
pub proof fn lemma_checkout_keeps_limits<C>(
    pool: PoolView<C>,
    key: OriginView,
    now: Instant,
    config: ClientConfigValues,
)
    requires
        pool.wf(),
        pool.bounded(
            config.max_connections as nat,
            config.max_connections_per_origin as nat,
        ),
    ensures
        ({
            let total = config.max_connections as nat;
            let per_origin = config.max_connections_per_origin as nat;
            let kept = purged(pool, now, config.idle_timeout, config.max_connection_lifetime);
            &&& kept.bounded(total, per_origin)
            &&& kept.idle_of(key).len() > 0 ==> idle_taken(kept, key).bounded(total, per_origin)
            &&& has_room(kept, key, config) ==> reserved(kept, key).bounded(total, per_origin)
        }),
{
    let total = config.max_connections as nat;
    let per_origin = config.max_connections_per_origin as nat;
    let kept = purged(pool, now, config.idle_timeout, config.max_connection_lifetime);
    lemma_purged(pool, now, config.idle_timeout, config.max_connection_lifetime, key);
    assert forall|other: OriginView| #[trigger] kept.open_of(other) <= per_origin by {
        lemma_purged(pool, now, config.idle_timeout, config.max_connection_lifetime, other);
        assert(pool.open_of(other) <= per_origin);
    }
    if kept.idle_of(key).len() > 0 {
        assert forall|other: OriginView| #[trigger]
            idle_taken(kept, key).open_of(other) <= per_origin by {
            lemma_idle_taken(kept, key, other);
            assert(kept.open_of(other) <= per_origin);
        }
        lemma_idle_taken(kept, key, key);
    }
    if has_room(kept, key, config) {
        assert forall|other: OriginView| #[trigger]
            reserved(kept, key).open_of(other) <= per_origin by {
            lemma_reserved(kept, key, other);
            assert(kept.open_of(other) <= per_origin);
        }
        lemma_reserved(kept, key, key);
    }
}

/// A reservation that is given up leaves the accounting of every origin as it was before.
pub proof fn lemma_failed_checkout_leaks_nothing<C>(
    pool: PoolView<C>,
    key: OriginView,
    other: OriginView,
)
    requires
        pool.wf(),
    ensures
        released(reserved(pool, key), key).wf(),
        released(reserved(pool, key), key).total == pool.total,
        released(reserved(pool, key), key).open_of(other) == pool.open_of(other),
        released(reserved(pool, key), key).idle_of(other) == pool.idle_of(other),
{
    lemma_reserved(pool, key, other);
    lemma_origin_within_total(pool, key);
    lemma_released(reserved(pool, key), key, other);
}

} // verus!

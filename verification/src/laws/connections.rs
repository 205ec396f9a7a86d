//! Which connections are used, kept and given up, and how long things may take.

use vstd::prelude::*;

use crate::builder::ClientConfigValues;
use crate::checkout::{connect_budget, new_connection, source, Source};
use crate::pool::{
    discarded, fresh, idle_returned, idle_taken, kept_idle, lemma_idle_returned, lemma_idle_taken,
    lemma_purged, lemma_released, purged, settled, Fate, PoolLease, PoolView, PooledConnection,
};
use crate::stats::{counted, ClientStats};
use crate::time::{Duration, Instant};
use crate::url::OriginView;

verus! {

/// A connection has been idle for less than `idle` and open for less than `lifetime`.
pub open spec fn usable<C>(
    connection: PooledConnection<C>,
    now: Instant,
    idle: Duration,
    lifetime: Duration,
) -> bool {
    let idle_for = if now.nanos > connection.idle_since.nanos {
        now.nanos - connection.idle_since.nanos
    } else {
        0
    };
    let open_for = if now.nanos > connection.created.nanos {
        now.nanos - connection.created.nanos
    } else {
        0
    };
    idle_for < idle.nanos && open_for < lifetime.nanos
}

/// A connection is kept while it is usable, and only then; connections are judged one by one, and
/// the kept ones stay in their order.
pub proof fn lemma_connections_are_judged_one_by_one<C>(
    before: Seq<PooledConnection<C>>,
    connection: PooledConnection<C>,
    after: Seq<PooledConnection<C>>,
    now: Instant,
    idle: Duration,
    lifetime: Duration,
)
    ensures
        kept_idle(before + seq![connection] + after, now, idle, lifetime) == kept_idle(
            before,
            now,
            idle,
            lifetime,
        ) + (if usable(connection, now, idle, lifetime) {
            seq![connection]
        } else {
            Seq::<PooledConnection<C>>::empty()
        }) + kept_idle(after, now, idle, lifetime),
    decreases after.len(),
{
    let all = before + seq![connection] + after;
    if after.len() == 0 {
        assert(all.drop_last() =~= before);
        assert(all.last() == connection);
        assert(kept_idle(all, now, idle, lifetime) =~= kept_idle(before, now, idle, lifetime) + (
        if usable(connection, now, idle, lifetime) {
            seq![connection]
        } else {
            Seq::<PooledConnection<C>>::empty()
        }) + kept_idle(after, now, idle, lifetime));
    } else {
        assert(all.drop_last() =~= before + seq![connection] + after.drop_last());
        assert(all.last() == after.last());
        lemma_connections_are_judged_one_by_one(
            before,
            connection,
            after.drop_last(),
            now,
            idle,
            lifetime,
        );
        assert(kept_idle(all, now, idle, lifetime) =~= kept_idle(before, now, idle, lifetime) + (
        if usable(connection, now, idle, lifetime) {
            seq![connection]
        } else {
            Seq::<PooledConnection<C>>::empty()
        }) + kept_idle(after, now, idle, lifetime));
    }
}

/// A new connection is usable from when it was made, for as long as it may be idle and open.
pub proof fn lemma_new_connections_are_usable<C>(
    client: C,
    made: Instant,
    now: Instant,
    idle: Duration,
    lifetime: Duration,
)
    requires
        made.nanos <= now.nanos,
    ensures
        new_connection(client, made).client == client,
        usable(new_connection(client, made), now, idle, lifetime) <==> now.nanos - made.nanos
            < idle.nanos && now.nanos - made.nanos < lifetime.nanos,
{
}

proof fn lemma_kept<C>(
    connections: Seq<PooledConnection<C>>,
    now: Instant,
    idle: Duration,
    lifetime: Duration,
)
    ensures
        kept_idle(connections, now, idle, lifetime).len() > 0 <==> exists|i: int|
            0 <= i < connections.len() && usable(#[trigger] connections[i], now, idle, lifetime),
        kept_idle(connections, now, idle, lifetime).len() > 0 ==> exists|i: int|
            0 <= i < connections.len() && usable(#[trigger] connections[i], now, idle, lifetime)
                && kept_idle(connections, now, idle, lifetime).last() == connections[i] && forall|
                j: int,
            |
                i < j < connections.len() ==> !usable(
                    #[trigger] connections[j],
                    now,
                    idle,
                    lifetime,
                ),
    decreases connections.len(),
{
    if connections.len() > 0 {
        let before = connections.drop_last();
        let last = connections.len() - 1;
        lemma_kept(before, now, idle, lifetime);
        assert(fresh(connections[last], now, idle, lifetime) == usable(
            connections[last],
            now,
            idle,
            lifetime,
        ));
        if usable(connections[last], now, idle, lifetime) {
            assert(kept_idle(connections, now, idle, lifetime).last() == connections[last]);
        } else {
            if kept_idle(before, now, idle, lifetime).len() > 0 {
                let i = choose|i: int|
                    0 <= i < before.len() && usable(#[trigger] before[i], now, idle, lifetime)
                        && kept_idle(before, now, idle, lifetime).last() == before[i] && forall|
                        j: int,
                    |
                        i < j < before.len() ==> !usable(
                            #[trigger] before[j],
                            now,
                            idle,
                            lifetime,
                        );
                assert(connections[i] == before[i]);
                assert forall|j: int| i < j < connections.len() implies !usable(
                    #[trigger] connections[j],
                    now,
                    idle,
                    lifetime,
                ) by {
                    if j < last {
                        assert(before[j] == connections[j]);
                    }
                }
            }
            if exists|i: int|
                0 <= i < connections.len() && usable(
                    #[trigger] connections[i],
                    now,
                    idle,
                    lifetime,
                ) {
                let i = choose|i: int|
                    0 <= i < connections.len() && usable(
                        #[trigger] connections[i],
                        now,
                        idle,
                        lifetime,
                    );
                assert(before[i] == connections[i]);
            }
        }
    }
}

/// An idle connection of the origin is used again wherever a usable one is left, and of those the
/// one that was returned last.
pub proof fn lemma_idle_connections_are_reused<C>(
    pool: PoolView<C>,
    key: OriginView,
    now: Instant,
    config: ClientConfigValues,
)
    requires
        pool.wf(),
    ensures
        source(pool, key, now, config) is Idle <==> exists|i: int|
            0 <= i < pool.idle_of(key).len() && usable(
                #[trigger] pool.idle_of(key)[i],
                now,
                config.idle_timeout,
                config.max_connection_lifetime,
            ),
        source(pool, key, now, config) matches Source::Idle(connection) ==> exists|i: int|
            0 <= i < pool.idle_of(key).len() && usable(
                #[trigger] pool.idle_of(key)[i],
                now,
                config.idle_timeout,
                config.max_connection_lifetime,
            ) && connection == pool.idle_of(key)[i] && forall|j: int|
                i < j < pool.idle_of(key).len() ==> !usable(
                    #[trigger] pool.idle_of(key)[j],
                    now,
                    config.idle_timeout,
                    config.max_connection_lifetime,
                ),
{
    lemma_purged(pool, now, config.idle_timeout, config.max_connection_lifetime, key);
    lemma_kept(pool.idle_of(key), now, config.idle_timeout, config.max_connection_lifetime);
}

/// Without a usable idle connection a new one is made exactly where the client and the origin have
/// one left of their limits, expired idle connections not counted; otherwise the request waits.
pub proof fn lemma_new_connections_within_limits<C>(
    pool: PoolView<C>,
    key: OriginView,
    now: Instant,
    config: ClientConfigValues,
)
    requires
        pool.wf(),
        !(source(pool, key, now, config) is Idle),
    ensures
        source(pool, key, now, config) is New <==> purged(
            pool,
            now,
            config.idle_timeout,
            config.max_connection_lifetime,
        ).total < config.max_connections && pool.leased(key) < config.max_connections_per_origin,
{
    lemma_purged(pool, now, config.idle_timeout, config.max_connection_lifetime, key);
}

/// A connection that comes back and is at once asked for again is the one that is handed out, and
/// the idle connections are then as they were before.
pub proof fn lemma_last_returned_first_used<C>(
    pool: PoolView<C>,
    key: OriginView,
    connection: PooledConnection<C>,
    other: OriginView,
)
    requires
        pool.wf(),
        pool.leased(key) > 0,
    ensures
        idle_returned(pool, key, connection).idle_of(key).last() == connection,
        idle_taken(idle_returned(pool, key, connection), key).idle_of(other) == pool.idle_of(other),
        idle_taken(idle_returned(pool, key, connection), key).open_of(other) == pool.open_of(other),
        idle_taken(idle_returned(pool, key, connection), key).total == pool.total,
{
    lemma_idle_returned(pool, key, connection, other);
    let back = idle_returned(pool, key, connection);
    lemma_idle_taken(back, key, other);
    assert(pool.idle_of(key).push(connection).drop_last() =~= pool.idle_of(key));
}

/// After a request its connection comes back to the idle ones of its origin, as the last one and
/// idle from now on, exactly where it can be used again and has not been open for too long;
/// otherwise the origin has one connection less and one more was discarded.
pub proof fn lemma_connections_come_back<C>(
    pool: PoolView<C>,
    stats: ClientStats,
    lease: PoolLease<C>,
    reusable: bool,
    now: Instant,
    lifetime: Duration,
)
    requires
        pool.wf(),
        lease.connection is Some,
        pool.leased(lease.key@) > 0,
    ensures
        ({
            let connection = lease.connection->0;
            let (after, counters, fate) = settled(
                pool,
                stats,
                Some(lease),
                reusable,
                now,
                lifetime,
            );
            let key = lease.key@;
            let stays = reusable && (now.nanos <= connection.created.nanos && lifetime.nanos > 0
                || now.nanos > connection.created.nanos && now.nanos - connection.created.nanos
                < lifetime.nanos);
            &&& after.wf()
            &&& after.leased(key) == pool.leased(key) - 1
            &&& stays <==> fate == Fate::Returned
            &&& stays ==> {
                &&& after.total == pool.total
                &&& after.idle_of(key) == pool.idle_of(key).push(
                    PooledConnection {
                        client: connection.client,
                        created: connection.created,
                        idle_since: now,
                    },
                )
                &&& counters == stats
            }
            &&& !stays ==> {
                &&& fate == Fate::Discarded
                &&& after.total == pool.total - 1
                &&& after.idle_of(key) == pool.idle_of(key)
                &&& counters.connections_discarded == counted(stats.connections_discarded)
                &&& counters.connections_created == stats.connections_created
                &&& counters.connections_reused == stats.connections_reused
            }
        }),
{
    let key = lease.key@;
    let connection = PooledConnection { idle_since: now, ..lease.connection->0 };
    lemma_idle_returned(pool, key, connection, key);
    lemma_released(pool, key, key);
}

/// A span added to an instant is the span between the two, and no instant is made where the clock
/// has none.
pub proof fn lemma_time_adds_up(at: Instant, span: Duration)
    ensures
        at.later(span) matches Some(end) ==> end.since(at) == span && at.since(end).nanos == 0
            && end.nanos == at.nanos + span.nanos,
        at.later(span) is None <==> at.nanos + span.nanos
            > 9_223_372_036_854_775_807_999_999_999,
{
}

/// The shorter of two spans is one of them and not longer than either.
pub proof fn lemma_shorter_span(a: Duration, b: Duration)
    ensures
        a.least(b) == a || a.least(b) == b,
        a.least(b).nanos <= a.nanos,
        a.least(b).nanos <= b.nanos,
        a.least(b) == b.least(a),
{
}

/// Connecting ends with the request at the latest, takes no longer than the connect timeout, and
/// is not cut shorter than that.
pub proof fn lemma_connecting_is_bounded(
    deadline: Instant,
    now: Instant,
    config: ClientConfigValues,
    until: Instant,
)
    requires
        now.nanos <= deadline.nanos,
        now.later(connect_budget(deadline, now, config)) == Some(until),
    ensures
        until.nanos <= deadline.nanos,
        until.nanos <= now.nanos + config.connect_timeout.nanos,
        until == deadline || until.nanos == now.nanos + config.connect_timeout.nanos,
{
}

} // verus!

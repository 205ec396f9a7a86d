//! The accounting of a pool against the leases that are out.

use vstd::multiset::Multiset;
use vstd::prelude::*;

use crate::pool::{
    idle_returned, idle_taken, lemma_idle_returned, lemma_idle_taken, lemma_purged, lemma_released,
    lemma_reserved, purged, released, reserved, PoolView, PooledConnection,
};
use crate::time::{Duration, Instant};
use crate::url::OriginView;

verus! {

/// The pool counts as leased exactly the leases that are out, given by their origins.
pub open spec fn accounts_for<C>(pool: PoolView<C>, leases: Multiset<OriginView>) -> bool {
    &&& pool.wf()
    &&& forall|key: OriginView| #[trigger] pool.leased(key) == leases.count(key)
}

/// A lease that is out has its slot in the pool, however many others come and go.
pub proof fn lemma_lease_is_held<C>(
    pool: PoolView<C>,
    leases: Multiset<OriginView>,
    key: OriginView,
)
    requires
        accounts_for(pool, leases),
        leases.count(key) > 0,
    ensures
        pool.leased(key) > 0,
{
    assert(pool.leased(key) == leases.count(key));
}

/// Dropping expired idle connections touches no lease.
pub proof fn lemma_purge_keeps_leases<C>(
    pool: PoolView<C>,
    leases: Multiset<OriginView>,
    now: Instant,
    idle_timeout: Duration,
    lifetime: Duration,
)
    requires
        accounts_for(pool, leases),
    ensures
        accounts_for(purged(pool, now, idle_timeout, lifetime), leases),
{
    let after = purged(pool, now, idle_timeout, lifetime);
    assert forall|key: OriginView| #[trigger] after.leased(key) == leases.count(key) by {
        lemma_purged(pool, now, idle_timeout, lifetime, key);
        assert(pool.leased(key) == leases.count(key));
    }
    let any = OriginView { scheme: Seq::empty(), host: Seq::empty(), port: 0, tls_profile: 0 };
    lemma_purged(pool, now, idle_timeout, lifetime, any);
}

/// A reserved slot and a reused idle connection are one more lease each.
pub proof fn lemma_checkout_adds_a_lease<C>(
    pool: PoolView<C>,
    leases: Multiset<OriginView>,
    key: OriginView,
)
    requires
        accounts_for(pool, leases),
    ensures
        accounts_for(reserved(pool, key), leases.insert(key)),
        pool.idle_of(key).len() > 0 ==> accounts_for(idle_taken(pool, key), leases.insert(key)),
{
    let more = leases.insert(key);
    lemma_reserved(pool, key, key);
    assert forall|other: OriginView| #[trigger]
        reserved(pool, key).leased(other) == more.count(other) by {
        lemma_reserved(pool, key, other);
        assert(pool.leased(other) == leases.count(other));
    }
    if pool.idle_of(key).len() > 0 {
        lemma_idle_taken(pool, key, key);
        assert forall|other: OriginView| #[trigger]
            idle_taken(pool, key).leased(other) == more.count(other) by {
            lemma_idle_taken(pool, key, other);
            assert(pool.leased(other) == leases.count(other));
        }
    }
}

/// A lease that ends, with its connection returned or given up, is one lease less, and every other
/// lease keeps its slot.
pub proof fn lemma_settling_ends_a_lease<C>(
    pool: PoolView<C>,
    leases: Multiset<OriginView>,
    key: OriginView,
    connection: PooledConnection<C>,
)
    requires
        accounts_for(pool, leases),
        leases.count(key) > 0,
    ensures
        accounts_for(released(pool, key), leases.remove(key)),
        accounts_for(idle_returned(pool, key, connection), leases.remove(key)),
{
    let fewer = leases.remove(key);
    lemma_lease_is_held(pool, leases, key);
    lemma_released(pool, key, key);
    lemma_idle_returned(pool, key, connection, key);
    assert forall|other: OriginView| #[trigger]
        released(pool, key).leased(other) == fewer.count(other) by {
        lemma_released(pool, key, other);
        assert(pool.leased(other) == leases.count(other));
    }
    assert forall|other: OriginView| #[trigger]
        idle_returned(pool, key, connection).leased(other) == fewer.count(other) by {
        lemma_idle_returned(pool, key, connection, other);
        assert(pool.leased(other) == leases.count(other));
    }
}

/// A lease that ends keeps a bounded pool within its limits.
pub proof fn lemma_settling_keeps_limits<C>(
    pool: PoolView<C>,
    key: OriginView,
    connection: PooledConnection<C>,
    max_total: nat,
    max_per_origin: nat,
)
    requires
        pool.wf(),
        pool.leased(key) > 0,
        pool.bounded(max_total, max_per_origin),
    ensures
        released(pool, key).bounded(max_total, max_per_origin),
        idle_returned(pool, key, connection).bounded(max_total, max_per_origin),
{
    lemma_released(pool, key, key);
    lemma_idle_returned(pool, key, connection, key);
    assert forall|other: OriginView| #[trigger]
        released(pool, key).open_of(other) <= max_per_origin by {
        lemma_released(pool, key, other);
        assert(pool.open_of(other) <= max_per_origin);
        assert(pool.open_of(key) <= max_per_origin);
    }
    assert forall|other: OriginView| #[trigger]
        idle_returned(pool, key, connection).open_of(other) <= max_per_origin by {
        lemma_idle_returned(pool, key, connection, other);
        assert(pool.open_of(other) <= max_per_origin);
    }
}

} // verus!

//! Lookups: which addresses are accepted, how long they are kept, and who finds them.

use vstd::prelude::*;

use crate::error::{ErrorKind, ErrorView};
use crate::laws::origins::{lemma_folding, same_letters};
use crate::resolver::{
    bounded, caches, collected, config_failure, course, evicted, live, lookup_outcome, ttl_of,
    update_failure, CacheEntry, ResolverCacheConfig, ServiceResolverConfig, SocketAddr,
};
use crate::table::{host_key, HostView};
use crate::time::Instant;

verus! {

/// Hosts are told apart by their names, without regard to letter case, and their ports.
pub proof fn lemma_hosts_are_found(a: Seq<char>, p: u16, b: Seq<char>, q: u16)
    ensures
        host_key(a, p) == host_key(b, q) <==> same_letters(a, b) && p == q,
{
    lemma_folding(a, b);
}

proof fn lemma_collected_distinct(addresses: Seq<SocketAddr>, port: u16, limit: nat)
    requires
        addresses.no_duplicates(),
        addresses.len() <= limit,
        forall|i: int| 0 <= i < addresses.len() ==> (#[trigger] addresses[i]).port_of() == port,
    ensures
        collected(addresses, port, limit) == Ok::<Seq<SocketAddr>, ErrorView>(addresses),
    decreases addresses.len(),
{
    if addresses.len() == 0 {
        assert(addresses =~= Seq::<SocketAddr>::empty());
    } else {
        let before = addresses.drop_last();
        assert forall|i: int| 0 <= i < before.len() implies (#[trigger] before[i]).port_of()
            == port by {
            assert(before[i] == addresses[i]);
        }
        lemma_collected_distinct(before, port, limit);
        assert(addresses[addresses.len() - 1].port_of() == port);
        assert(!before.contains(addresses.last())) by {
            if before.contains(addresses.last()) {
                let i = choose|i: int| 0 <= i < before.len() && before[i] == addresses.last();
                assert(addresses[i] == addresses[addresses.len() - 1]);
            }
        }
        assert(before.push(addresses.last()) =~= addresses);
    }
}

/// Distinct addresses with the expected port are accepted as they are, in their order, as many as
/// the limit allows.
pub proof fn lemma_good_addresses_are_kept(addresses: Seq<SocketAddr>, port: u16, limit: nat)
    requires
        addresses.no_duplicates(),
        0 < addresses.len() <= limit,
        forall|i: int| 0 <= i < addresses.len() ==> (#[trigger] addresses[i]).port_of() == port,
    ensures
        bounded(addresses, port, limit) == Ok::<Seq<SocketAddr>, ErrorView>(addresses),
{
    lemma_collected_distinct(addresses, port, limit);
}

/// One more address changes nothing where it was seen before; a new one is added behind the others
/// while the limit allows it; one with another port, or one too many, refuses the whole lookup. A
/// lookup that was refused stays refused.
pub proof fn lemma_addresses_are_taken_one_by_one(
    addresses: Seq<SocketAddr>,
    next: SocketAddr,
    port: u16,
    limit: nat,
)
    requires
        addresses.len() > 0,
    ensures
        bounded(addresses, port, limit) matches Ok(kept) ==> bounded(
            addresses.push(next),
            port,
            limit,
        ) == (if next.port_of() != port {
            bounded(addresses.push(next), port, limit)
        } else if addresses.contains(next) {
            Ok::<Seq<SocketAddr>, ErrorView>(kept)
        } else if kept.len() < limit {
            Ok::<Seq<SocketAddr>, ErrorView>(kept.push(next))
        } else {
            bounded(addresses.push(next), port, limit)
        }),
        next.port_of() != port ==> bounded(addresses.push(next), port, limit) is Err,
        bounded(addresses, port, limit) matches Ok(kept) ==> (!addresses.contains(next)
            && kept.len() == limit ==> bounded(addresses.push(next), port, limit) is Err),
        bounded(addresses, port, limit) is Err ==> bounded(addresses.push(next), port, limit)
            is Err,
{
    let more = addresses.push(next);
    assert(more.drop_last() =~= addresses);
    assert(more.last() == next);
    if let Ok(seen) = collected(addresses, port, limit) {
        if seen.len() == 0 {
            lemma_some_seen(addresses, port, limit);
        } else {
            crate::resolver::lemma_bounded_addresses(addresses, port, limit);
            assert(seen.contains(next) <==> addresses.contains(next));
        }
    }
}

proof fn lemma_some_seen(addresses: Seq<SocketAddr>, port: u16, limit: nat)
    requires
        addresses.len() > 0,
        collected(addresses, port, limit) is Ok,
    ensures
        collected(addresses, port, limit)->Ok_0.len() > 0,
    decreases addresses.len(),
{
    let before = addresses.drop_last();
    if before.len() > 0 {
        lemma_some_seen(before, port, limit);
    }
}

/// A lookup that failed fails as it did; one that found distinct addresses with the right port, no
/// more than the limit, answers with exactly those.
pub proof fn lemma_lookups_are_passed_on(
    addresses: Seq<SocketAddr>,
    e: ErrorView,
    port: u16,
    limit: nat,
)
    requires
        addresses.no_duplicates(),
        0 < addresses.len() <= limit,
        forall|i: int| 0 <= i < addresses.len() ==> (#[trigger] addresses[i]).port_of() == port,
    ensures
        lookup_outcome(Err::<Seq<SocketAddr>, ErrorView>(e), port, limit) == Err::<
            Seq<SocketAddr>,
            ErrorView,
        >(e),
        lookup_outcome(Ok::<Seq<SocketAddr>, ErrorView>(addresses), port, limit) == Ok::<
            Seq<SocketAddr>,
            ErrorView,
        >(addresses),
{
    lemma_good_addresses_are_kept(addresses, port, limit);
}

/// A lookup without addresses finds none, and every other refusal is one of invalid data.
pub proof fn lemma_refused_lookups(addresses: Seq<SocketAddr>, port: u16, limit: nat)
    ensures
        addresses.len() == 0 ==> bounded(addresses, port, limit) is Err,
        bounded(addresses, port, limit) matches Err(e) ==> (e.kind == ErrorKind::AddrNotAvailable
            <==> addresses.len() == 0) && (addresses.len() > 0 ==> e.kind
            == ErrorKind::InvalidData),
    decreases addresses.len(),
{
    if addresses.len() > 0 {
        if collected(addresses, port, limit) is Ok {
            lemma_some_seen(addresses, port, limit);
        } else {
            lemma_collecting_fails_on_data(addresses, port, limit);
        }
    }
}

proof fn lemma_collecting_fails_on_data(addresses: Seq<SocketAddr>, port: u16, limit: nat)
    ensures
        collected(addresses, port, limit) matches Err(e) ==> e.kind == ErrorKind::InvalidData,
    decreases addresses.len(),
{
    if addresses.len() > 0 {
        lemma_collecting_fails_on_data(addresses.drop_last(), port, limit);
    }
}

/// A cached lookup is found exactly until its time has passed: addresses for the positive time to
/// live, failures for the negative one, counted from the lookup.
pub proof fn lemma_lookups_expire(
    entries: Map<HostView, CacheEntry>,
    key: HostView,
    resolved: Result<Seq<SocketAddr>, ErrorView>,
    looked_up: Instant,
    config: ResolverCacheConfig,
    now: Instant,
)
    requires
        entries.contains_key(key),
        caches(entries[key], resolved, looked_up, config),
    ensures
        live(entries, now).contains_key(key) <==> now.nanos < looked_up.nanos + (match resolved {
            Ok(_) => config.positive_ttl.nanos,
            Err(_) => config.negative_ttl.nanos,
        }),
        live(entries, now).contains_key(key) ==> live(entries, now)[key] == entries[key],
{
}

/// Addresses are kept for the positive time to live, failures for the negative one.
pub proof fn lemma_times_to_live(
    addresses: Seq<SocketAddr>,
    e: ErrorView,
    config: ResolverCacheConfig,
)
    ensures
        ttl_of(Ok::<Seq<SocketAddr>, ErrorView>(addresses), config) == config.positive_ttl,
        ttl_of(Err::<Seq<SocketAddr>, ErrorView>(e), config) == config.negative_ttl,
{
}

/// A cached failure answers with the failure that it was.
pub proof fn lemma_failures_are_remembered(
    entry: CacheEntry,
    e: ErrorView,
    looked_up: Instant,
    config: ResolverCacheConfig,
)
    requires
        caches(entry, Err::<Seq<SocketAddr>, ErrorView>(e), looked_up, config),
    ensures
        entry.answer() matches Err(again) && again.kind == e.kind && again.message == e.message,
        entry.following_start() == entry.next_address,
{
}

/// Looking into the cache takes no other entry away and adds none.
pub proof fn lemma_expiry_is_exact(entries: Map<HostView, CacheEntry>, now: Instant, key: HostView)
    ensures
        live(entries, now).contains_key(key) <==> entries.contains_key(key)
            && entries[key].expires_at.nanos > now.nanos,
        live(entries, now).contains_key(key) ==> live(entries, now)[key] == entries[key],
{
}

/// A lookup is answered by the cache exactly where an entry of its key still holds, joins another
/// one exactly where that is under way, and is otherwise performed, unless as many lookups are
/// under way as there may be entries and nothing can be evicted for it.
pub proof fn lemma_courses_of_lookups(
    cached: Map<HostView, CacheEntry>,
    pending: Set<HostView>,
    max_entries: nat,
    key: HostView,
    now: Instant,
)
    requires
        cached.dom().finite(),
    ensures
        course(cached, pending, max_entries, key, now) is Answered <==> cached.contains_key(key)
            && now.nanos < cached[key].expires_at.nanos,
        course(cached, pending, max_entries, key, now) is Joined <==> pending.contains(key) && !(
        cached.contains_key(key) && now.nanos < cached[key].expires_at.nanos),
        course(cached, pending, max_entries, key, now) is Refused <==> !pending.contains(key)
            && pending.len() >= max_entries && forall|k: HostView| #[trigger]
            cached.contains_key(k) ==> cached[k].expires_at.nanos <= now.nanos,
{
    let held = live(cached, now);
    assert(held.dom().subset_of(cached.dom()));
    vstd::set_lib::lemma_len_subset(held.dom(), cached.dom());
    if held.dom().len() == 0 {
        assert forall|k: HostView| #[trigger]
            cached.contains_key(k) implies cached[k].expires_at.nanos <= now.nanos by {
            if cached[k].expires_at.nanos > now.nanos {
                assert(held.dom().contains(k));
                assert(held.dom().remove(k).len() == held.dom().len() - 1);
            }
        }
    }
    if forall|k: HostView| #[trigger]
        cached.contains_key(k) ==> cached[k].expires_at.nanos <= now.nanos {
        assert(held.dom() =~= Set::<HostView>::empty());
    }
}

/// Making room takes one entry away, none of the others expires earlier than it, and those stay.
pub proof fn lemma_eviction_takes_the_earliest(
    before: Map<HostView, CacheEntry>,
    after: Map<HostView, CacheEntry>,
)
    requires
        evicted(before, after),
        before.dom().finite(),
    ensures
        after.dom().len() == before.dom().len() - 1,
        forall|kept: HostView| #[trigger]
            after.contains_key(kept) ==> before.contains_key(kept) && after[kept] == before[kept],
        forall|gone: HostView, kept: HostView|
            #![trigger before.contains_key(gone), after.contains_key(kept)]
            before.contains_key(gone) && !after.contains_key(gone) && after.contains_key(kept)
                ==> before[gone].expires_at.nanos <= before[kept].expires_at.nanos,
{
    let k = choose|k: HostView|
        {
            &&& #[trigger] before.contains_key(k)
            &&& forall|other: HostView| #[trigger]
                before.contains_key(other) ==> before[k].expires_at.nanos
                    <= before[other].expires_at.nanos
            &&& after == before.remove(k)
        };
    assert(after.dom() =~= before.dom().remove(k));
}

/// A cache is accepted exactly where both times to live and both limits are greater than zero and
/// the clock can express the times to live.
pub proof fn lemma_cache_settings(config: ResolverCacheConfig, now: Instant)
    ensures
        config_failure(config, now) is None <==> {
            &&& config.positive_ttl.nanos > 0
            &&& config.negative_ttl.nanos > 0
            &&& config.max_entries > 0
            &&& config.max_addresses_per_entry > 0
            &&& now.nanos + config.positive_ttl.nanos <= 9_223_372_036_854_775_807_999_999_999
            &&& now.nanos + config.negative_ttl.nanos <= 9_223_372_036_854_775_807_999_999_999
        },
        config_failure(config, now) matches Some(e) ==> e.kind == ErrorKind::InvalidInput,
{
}

/// A service is registered exactly where its addresses are accepted, and it is known already or
/// there is room for one more.
pub proof fn lemma_services_are_registered(
    services: nat,
    known: bool,
    config: ServiceResolverConfig,
    addresses: Seq<SocketAddr>,
    port: u16,
)
    requires
        addresses.no_duplicates(),
        0 < addresses.len() <= config.max_addresses_per_service,
        forall|i: int| 0 <= i < addresses.len() ==> (#[trigger] addresses[i]).port_of() == port,
    ensures
        update_failure(services, known, config, addresses, port) is None <==> known || services
            < config.max_services,
{
    lemma_good_addresses_are_kept(addresses, port, config.max_addresses_per_service as nat);
}

} // verus!

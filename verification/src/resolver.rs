//! Bounded resolver adapters for service communication.

use vstd::prelude::*;

use crate::error::{failure, Error, ErrorKind, ErrorView};
use crate::table::{host_key, HostKey, HostView, Table};
use crate::time::{Duration, Instant};

verus! {

/// An address of a host.
#[derive(Debug, Clone, Copy, PartialEq, Eq, Structural)]
pub enum SocketAddr {
    V4 { ip: u32, port: u16 },
    V6 { ip: u128, port: u16, flowinfo: u32, scope_id: u32 },
}

impl SocketAddr {
    pub open spec fn port_of(self) -> u16 {
        match self {
            SocketAddr::V4 { port, .. } => port,
            SocketAddr::V6 { port, .. } => port,
        }
    }

    pub fn port(&self) -> (r: u16)
        ensures
            r == self.port_of(),
    {
        match *self {
            SocketAddr::V4 { port, .. } => port,
            SocketAddr::V6 { port, .. } => port,
        }
    }
}

/// Source of one address resolution result.
#[derive(Debug, Clone, Copy, PartialEq, Eq, Structural)]
pub enum ResolutionSource {
    /// Direct lookup by the configured resolver.
    Resolver,
    /// Positive or negative result served by [`CachingResolver`].
    Cache,
    /// Address supplied by a push-updated [`ServiceResolver`].
    ServiceRegistry,
}

/// Resolved addresses plus non-sensitive operational metadata.
#[derive(Debug)]
pub struct Resolution {
    pub addresses: Vec<SocketAddr>,
    pub source: ResolutionSource,
}

/// Operating-system resolver used by default.
///
/// OS resolution may block on a cache miss. Strict deployments should inject a may-aware resolver,
/// a [`ServiceResolver`], or a [`CachingResolver`] around an application-owned resolver.
#[derive(Debug, Default)]
pub struct SystemResolver;

/// Bounds and TTLs for [`CachingResolver`].
#[derive(Debug, Clone, Copy)]
pub struct ResolverCacheConfig {
    pub positive_ttl: Duration,
    pub negative_ttl: Duration,
    pub max_entries: usize,
    pub max_addresses_per_entry: usize,
}

impl Default for ResolverCacheConfig {
    fn default() -> (r: ResolverCacheConfig)
        ensures
            r.positive_ttl.nanos == 30_000_000_000,
            r.negative_ttl.nanos == 5_000_000_000,
            r.max_entries == 1024,
            r.max_addresses_per_entry == 32,
    {
        ResolverCacheConfig {
            positive_ttl: Duration::from_secs(30),
            negative_ttl: Duration::from_secs(5),
            max_entries: 1024,
            max_addresses_per_entry: 32,
        }
    }
}

/// The addresses seen so far, each once, as long as every one has the expected port and the limit
/// holds.
pub open spec fn collected(addresses: Seq<SocketAddr>, expected_port: u16, limit: nat) -> Result<
    Seq<SocketAddr>,
    ErrorView,
>
    decreases addresses.len(),
{
    if addresses.len() == 0 {
        Ok(Seq::empty())
    } else {
        match collected(addresses.drop_last(), expected_port, limit) {
            Err(e) => Err(e),
            Ok(seen) => if addresses.last().port_of() != expected_port {
                Err(
                    failure(
                        ErrorKind::InvalidData,
                        "resolver returned an address with an unexpected port"@,
                    ),
                )
            } else if seen.contains(addresses.last()) {
                Ok(seen)
            } else if seen.len() == limit {
                Err(
                    failure(
                        ErrorKind::InvalidData,
                        "resolver returned more addresses than the configured limit"@,
                    ),
                )
            } else {
                Ok(seen.push(addresses.last()))
            },
        }
    }
}

/// The distinct addresses of a lookup, within the limit and with the expected port.
pub open spec fn bounded(addresses: Seq<SocketAddr>, expected_port: u16, limit: nat) -> Result<
    Seq<SocketAddr>,
    ErrorView,
> {
    match collected(addresses, expected_port, limit) {
        Err(e) => Err(e),
        Ok(seen) => if seen.len() == 0 {
            Err(failure(ErrorKind::AddrNotAvailable, "resolver returned no addresses"@))
        } else {
            Ok(seen)
        },
    }
}

proof fn lemma_collected(addresses: Seq<SocketAddr>, expected_port: u16, limit: nat)
    ensures
        collected(addresses, expected_port, limit) matches Ok(seen) ==> {
            &&& seen.len() <= limit
            &&& seen.no_duplicates()
            &&& forall|a: SocketAddr| #[trigger] seen.contains(a) <==> addresses.contains(a)
            &&& forall|a: SocketAddr| #[trigger]
                addresses.contains(a) ==> a.port_of() == expected_port
        },
    decreases addresses.len(),
{
    if addresses.len() > 0 {
        let before = addresses.drop_last();
        let last = addresses.last();
        lemma_collected(before, expected_port, limit);
        if let Ok(seen) = collected(addresses, expected_port, limit) {
            let earlier = collected(before, expected_port, limit)->Ok_0;
            assert forall|a: SocketAddr| #[trigger] seen.contains(a) <==> addresses.contains(
                a,
            ) by {
                if addresses.contains(a) {
                    let i = choose|i: int| 0 <= i < addresses.len() && addresses[i] == a;
                    if i < before.len() {
                        assert(before[i] == a);
                        assert(before.contains(a));
                        assert(earlier.contains(a));
                        let k = choose|k: int| 0 <= k < earlier.len() && earlier[k] == a;
                        assert(seen[k] == a);
                    } else {
                        assert(a == last);
                        if earlier.contains(last) {
                        } else {
                            assert(seen[seen.len() - 1] == last);
                        }
                    }
                }
                if seen.contains(a) {
                    let k = choose|k: int| 0 <= k < seen.len() && seen[k] == a;
                    if k < earlier.len() {
                        assert(earlier[k] == a);
                        assert(earlier.contains(a));
                        assert(before.contains(a));
                        let i = choose|i: int| 0 <= i < before.len() && before[i] == a;
                        assert(addresses[i] == a);
                    } else {
                        assert(addresses[addresses.len() - 1] == a);
                    }
                }
            }
            assert forall|a: SocketAddr| #[trigger] addresses.contains(a) implies a.port_of()
                == expected_port by {
                let i = choose|i: int| 0 <= i < addresses.len() && addresses[i] == a;
                if i < before.len() {
                    assert(before[i] == a);
                    assert(before.contains(a));
                }
            }
        }
    }
}

/// An accepted lookup keeps exactly the addresses it returned, each once, all with the expected
/// port, at least one and at most the limit.
pub proof fn lemma_bounded_addresses(addresses: Seq<SocketAddr>, expected_port: u16, limit: nat)
    requires
        bounded(addresses, expected_port, limit) is Ok,
    ensures
        ({
            let seen = bounded(addresses, expected_port, limit)->Ok_0;
            &&& 0 < seen.len() <= limit
            &&& seen.no_duplicates()
            &&& forall|a: SocketAddr| #[trigger] seen.contains(a) <==> addresses.contains(a)
            &&& forall|a: SocketAddr| #[trigger] seen.contains(a) ==> a.port_of() == expected_port
        }),
{
    lemma_collected(addresses, expected_port, limit);
}

proof fn lemma_collected_failure_persists(
    addresses: Seq<SocketAddr>,
    expected_port: u16,
    limit: nat,
    n: int,
)
    requires
        0 <= n <= addresses.len(),
    ensures
        collected(addresses.take(n), expected_port, limit) matches Err(e) ==> collected(
            addresses,
            expected_port,
            limit,
        ) == Err::<Seq<SocketAddr>, ErrorView>(e),
    decreases addresses.len() - n,
{
    if n == addresses.len() {
        assert(addresses.take(n) =~= addresses);
    } else {
        lemma_collected_failure_persists(addresses, expected_port, limit, n + 1);
        assert(addresses.take(n + 1).drop_last() =~= addresses.take(n));
    }
}

fn has_address(addresses: &Vec<SocketAddr>, address: SocketAddr) -> (r: bool)
    ensures
        r == addresses@.contains(address),
{
    let mut i: usize = 0;
    while i < addresses.len()
        invariant
            i <= addresses@.len(),
            forall|j: int| 0 <= j < i ==> addresses@[j] != address,
        decreases addresses@.len() - i,
    {
        if addresses[i] == address {
            return true;
        }
        i += 1;
    }
    false
}

/// Keep the distinct addresses of a lookup, within a limit and with the expected port.
pub fn bounded_addresses(addresses: Vec<SocketAddr>, expected_port: u16, limit: usize) -> (r: Result<
    Vec<SocketAddr>,
    Error,
>)
    ensures
        match r {
            Ok(kept) => bounded(addresses@, expected_port, limit as nat) == Ok::<
                Seq<SocketAddr>,
                ErrorView,
            >(kept@),
            Err(e) => bounded(addresses@, expected_port, limit as nat) == Err::<
                Seq<SocketAddr>,
                ErrorView,
            >(e@),
        },
{
    let mut kept: Vec<SocketAddr> = Vec::new();
    let mut i: usize = 0;
    proof {
        assert(addresses@.take(0) =~= Seq::<SocketAddr>::empty());
    }
    while i < addresses.len()
        invariant
            i <= addresses@.len(),
            collected(addresses@.take(i as int), expected_port, limit as nat) == Ok::<
                Seq<SocketAddr>,
                ErrorView,
            >(kept@),
        decreases addresses@.len() - i,
    {
        let address = addresses[i];
        proof {
            assert(addresses@.take(i + 1).drop_last() =~= addresses@.take(i as int));
            assert(addresses@.take(i + 1).last() == address);
            lemma_collected_failure_persists(addresses@, expected_port, limit as nat, i + 1);
        }
        if address.port() != expected_port {
            return Err(
                Error::new(
                    ErrorKind::InvalidData,
                    "resolver returned an address with an unexpected port",
                ),
            );
        }
        if !has_address(&kept, address) {
            if kept.len() == limit {
                return Err(
                    Error::new(
                        ErrorKind::InvalidData,
                        "resolver returned more addresses than the configured limit",
                    ),
                );
            }
            kept.push(address);
        }
        i += 1;
    }
    proof {
        assert(addresses@.take(i as int) =~= addresses@);
    }
    if kept.len() == 0 {
        return Err(Error::new(ErrorKind::AddrNotAvailable, "resolver returned no addresses"));
    }
    Ok(kept)
}

/// The addresses, starting with the one at `n`, counted round.
pub open spec fn rotated(addresses: Seq<SocketAddr>, n: nat) -> Seq<SocketAddr> {
    if addresses.len() == 0 {
        addresses
    } else {
        let at = (n % addresses.len()) as int;
        addresses.skip(at) + addresses.take(at)
    }
}

/// The next starting point after `n`, counted round.
pub open spec fn next_start(n: nat, len: nat) -> nat {
    if len == 0 {
        n
    } else {
        (n + 1) % len
    }
}

/// A rotation only changes where the list starts: it holds the same addresses as often.
pub proof fn lemma_rotation_keeps_addresses(addresses: Seq<SocketAddr>, n: nat)
    ensures
        rotated(addresses, n).len() == addresses.len(),
        rotated(addresses, n).to_multiset() == addresses.to_multiset(),
{
    if addresses.len() > 0 {
        let at = (n % addresses.len()) as int;
        assert(0 <= at < addresses.len());
        vstd::seq_lib::lemma_multiset_commutative(addresses.skip(at), addresses.take(at));
        vstd::seq_lib::lemma_multiset_commutative(addresses.take(at), addresses.skip(at));
        assert(addresses.take(at) + addresses.skip(at) =~= addresses);
    }
}

fn rotate(addresses: &Vec<SocketAddr>, n: usize) -> (r: Vec<SocketAddr>)
    ensures
        r@ == rotated(addresses@, n as nat),
{
    let mut out: Vec<SocketAddr> = Vec::new();
    let len: usize = addresses.len();
    if len == 0 {
        proof {
            assert(out@ =~= addresses@);
        }
        return out;
    }
    let at: usize = n % len;
    let mut i: usize = at;
    while i < len
        invariant
            at <= i <= len,
            at < len,
            len == addresses@.len(),
            out@ == addresses@.subrange(at as int, i as int),
        decreases len - i,
    {
        out.push(addresses[i]);
        proof {
            assert(out@ =~= addresses@.subrange(at as int, i + 1));
        }
        i += 1;
    }
    let mut k: usize = 0;
    proof {
        assert(out@ =~= addresses@.skip(at as int) + addresses@.take(0));
    }
    while k < at
        invariant
            k <= at < len,
            len == addresses@.len(),
            out@ == addresses@.skip(at as int) + addresses@.take(k as int),
        decreases at - k,
    {
        out.push(addresses[k]);
        proof {
            assert(out@ =~= addresses@.skip(at as int) + addresses@.take(k + 1));
        }
        k += 1;
    }
    out
}

/// What a lookup came to, as the cache keeps it.
#[derive(Debug)]
pub enum CachedValue {
    Addresses(Vec<SocketAddr>),
    Error(ErrorKind, String),
}

/// A cached lookup: what it came to, until when it holds, and where the next answer starts.
#[derive(Debug)]
pub struct CacheEntry {
    pub value: CachedValue,
    pub expires_at: Instant,
    pub next_address: usize,
}

/// The entry that caches a lookup, where its expiry can be expressed.
pub open spec fn caches(
    entry: CacheEntry,
    resolved: Result<Seq<SocketAddr>, ErrorView>,
    now: Instant,
    config: ResolverCacheConfig,
) -> bool {
    match resolved {
        Ok(addresses) => {
            &&& entry.value matches CachedValue::Addresses(held) && held@ == addresses
            &&& now.later(config.positive_ttl) == Some(entry.expires_at)
            &&& entry.next_address == (if addresses.len() > 1 {
                1int
            } else {
                0int
            })
        },
        Err(e) => {
            &&& entry.value matches CachedValue::Error(kind, message) && kind == e.kind && message@
                == e.message
            &&& now.later(config.negative_ttl) == Some(entry.expires_at)
            &&& entry.next_address == 0
        },
    }
}

/// How long a lookup is kept.
pub open spec fn ttl_of(
    resolved: Result<Seq<SocketAddr>, ErrorView>,
    config: ResolverCacheConfig,
) -> Duration {
    match resolved {
        Ok(_) => config.positive_ttl,
        Err(_) => config.negative_ttl,
    }
}

/// The outcome behind a lookup result.
pub open spec fn lookup_view(r: Result<Vec<SocketAddr>, Error>) -> Result<
    Seq<SocketAddr>,
    ErrorView,
> {
    match r {
        Ok(addresses) => Ok(addresses@),
        Err(e) => Err(e@),
    }
}

fn copy_addresses(addresses: &Vec<SocketAddr>) -> (r: Vec<SocketAddr>)
    ensures
        r@ == addresses@,
{
    let mut out: Vec<SocketAddr> = Vec::new();
    let mut i: usize = 0;
    while i < addresses.len()
        invariant
            i <= addresses@.len(),
            out@ == addresses@.take(i as int),
        decreases addresses@.len() - i,
    {
        out.push(addresses[i]);
        proof {
            assert(out@ =~= addresses@.take(i + 1));
        }
        i += 1;
    }
    proof {
        assert(addresses@.take(i as int) =~= addresses@);
    }
    out
}

/// What one answer from a cached lookup does: it is the next answer of the entry, which then goes
/// on to the one after it and stays as it is otherwise.
pub open spec fn answered(
    before: CacheEntry,
    answer: Result<Seq<SocketAddr>, ErrorView>,
    after: CacheEntry,
) -> bool {
    &&& answer == before.answer()
    &&& after.value == before.value
    &&& after.expires_at == before.expires_at
    &&& after.next_address == before.following_start()
}

impl CacheEntry {
    /// The entry that caches a lookup; nothing where its expiry cannot be expressed.
    pub fn new(
        resolved: &Result<Vec<SocketAddr>, Error>,
        now: Instant,
        config: ResolverCacheConfig,
    ) -> (r: Option<CacheEntry>)
        ensures
            match r {
                Some(entry) => caches(entry, lookup_view(*resolved), now, config),
                None => now.later(ttl_of(lookup_view(*resolved), config)) is None,
            },
    {
        match resolved {
            Ok(addresses) => match now.checked_add(config.positive_ttl) {
                Some(expires_at) => Some(
                    CacheEntry {
                        value: CachedValue::Addresses(copy_addresses(addresses)),
                        expires_at,
                        next_address: if addresses.len() > 1 {
                            1
                        } else {
                            0
                        },
                    },
                ),
                None => None,
            },
            Err(error) => match now.checked_add(config.negative_ttl) {
                Some(expires_at) => Some(
                    CacheEntry {
                        value: CachedValue::Error(error.kind(), error.message().to_owned()),
                        expires_at,
                        next_address: 0,
                    },
                ),
                None => None,
            },
        }
    }

    /// The next answer from the entry.
    pub open spec fn answer(self) -> Result<Seq<SocketAddr>, ErrorView> {
        match self.value {
            CachedValue::Addresses(addresses) => Ok(
                rotated(addresses@, self.next_address as nat),
            ),
            CachedValue::Error(kind, message) => Err(failure(kind, message@)),
        }
    }

    /// Where the answer after the next one starts.
    pub open spec fn following_start(self) -> nat {
        match self.value {
            CachedValue::Addresses(addresses) => next_start(
                self.next_address as nat,
                addresses@.len(),
            ),
            CachedValue::Error(_, _) => self.next_address as nat,
        }
    }

    /// Answer from the entry; the next answer will start one address later.
    pub fn result(&mut self) -> (r: Result<Resolution, Error>)
        requires
            old(self).next_address < usize::MAX,
        ensures
            final(self).value == old(self).value,
            final(self).expires_at == old(self).expires_at,
            final(self).next_address == old(self).following_start(),
            answered(
                *old(self),
                match r {
                    Ok(resolution) => Ok(resolution.addresses@),
                    Err(e) => Err(e@),
                },
                *final(self),
            ),
            match r {
                Ok(resolution) => {
                    &&& old(self).answer() == Ok::<Seq<SocketAddr>, ErrorView>(
                        resolution.addresses@,
                    )
                    &&& resolution.source == ResolutionSource::Cache
                },
                Err(e) => old(self).answer() == Err::<Seq<SocketAddr>, ErrorView>(e@),
            },
    {
        match &self.value {
            CachedValue::Addresses(addresses) => {
                let answer = rotate(addresses, self.next_address);
                let len: usize = addresses.len();
                if len > 0 {
                    self.next_address = (self.next_address + 1) % len;
                }
                Ok(Resolution { addresses: answer, source: ResolutionSource::Cache })
            },
            CachedValue::Error(kind, message) => Err(Error::new(*kind, message.as_str())),
        }
    }
}

/// The refusal of a cache without limits or lifetimes.
pub open spec fn cache_limits_failure() -> ErrorView {
    failure(
        ErrorKind::InvalidInput,
        "resolver cache TTLs and limits must be greater than zero"@,
    )
}

/// The refusal of lifetimes that the clock cannot express.
pub open spec fn cache_range_failure() -> ErrorView {
    failure(ErrorKind::InvalidInput, "resolver cache TTL exceeds the platform instant range"@)
}

/// What is wrong with a cache configuration, if anything is.
pub open spec fn config_failure(config: ResolverCacheConfig, now: Instant) -> Option<ErrorView> {
    if config.positive_ttl.nanos == 0 || config.negative_ttl.nanos == 0 || config.max_entries == 0
        || config.max_addresses_per_entry == 0 {
        Some(cache_limits_failure())
    } else if now.later(config.positive_ttl) is None || now.later(config.negative_ttl) is None {
        Some(cache_range_failure())
    } else {
        None
    }
}

/// Check a cache configuration.
pub fn validate_cache_config(config: ResolverCacheConfig, now: Instant) -> (r: Result<(), Error>)
    ensures
        match r {
            Ok(_) => config_failure(config, now) is None,
            Err(e) => config_failure(config, now) == Some(e@),
        },
{
    if config.positive_ttl.is_zero() || config.negative_ttl.is_zero() || config.max_entries == 0
        || config.max_addresses_per_entry == 0 {
        return Err(
            Error::new(
                ErrorKind::InvalidInput,
                "resolver cache TTLs and limits must be greater than zero",
            ),
        );
    }
    if now.checked_add(config.positive_ttl).is_none() || now.checked_add(
        config.negative_ttl,
    ).is_none() {
        return Err(
            Error::new(
                ErrorKind::InvalidInput,
                "resolver cache TTL exceeds the platform instant range",
            ),
        );
    }
    Ok(())
}

/// Bounded, single-flight resolver cache.
///
/// The cache decides what a lookup does next; the caller performs the wrapped lookup and the
/// waiting between two decisions.
#[derive(Debug)]
pub struct CachingResolver {
    config: ResolverCacheConfig,
    entries: Table<CacheEntry>,
    in_flight: Table<()>,
}

/// What a lookup does next.
pub enum CacheStep {
    /// The cache has the answer.
    Answer(Result<Resolution, Error>),
    /// Another lookup of the same key is under way: wait for it, and look again.
    Wait,
    /// Perform the wrapped lookup and report it with [`CachingResolver::finish`].
    Resolve,
}

/// The cached lookups that still hold.
pub open spec fn live(entries: Map<HostView, CacheEntry>, now: Instant) -> Map<
    HostView,
    CacheEntry,
> {
    entries.restrict(
        Set::new(
            |k: HostView| entries.contains_key(k) && entries[k].expires_at.nanos > now.nanos,
        ),
    )
}

/// The entries without one that expires first.
pub open spec fn evicted(
    before: Map<HostView, CacheEntry>,
    after: Map<HostView, CacheEntry>,
) -> bool {
    exists|k: HostView|
        {
            &&& #[trigger] before.contains_key(k)
            &&& forall|other: HostView| #[trigger]
                before.contains_key(other) ==> before[k].expires_at.nanos
                    <= before[other].expires_at.nanos
            &&& after == before.remove(k)
        }
}

/// The refusal of a lookup while too many are under way.
pub open spec fn in_flight_failure() -> ErrorView {
    failure(ErrorKind::WouldBlock, "resolver cache has reached its in-flight entry limit"@)
}

/// What a lookup that was performed comes to: its addresses as far as they are accepted, or its
/// failure.
pub open spec fn lookup_outcome(
    looked_up: Result<Seq<SocketAddr>, ErrorView>,
    port: u16,
    limit: nat,
) -> Result<Seq<SocketAddr>, ErrorView> {
    match looked_up {
        Ok(addresses) => bounded(addresses, port, limit),
        Err(e) => Err(e),
    }
}

/// What becomes of a lookup.
pub enum Course {
    /// The cache answers it.
    Answered,
    /// It waits for another lookup of the same key.
    Joined,
    /// It is performed.
    Performed,
    /// Too many lookups are under way.
    Refused,
}

/// What becomes of a lookup of a key, for what is cached, what is under way, and how many entries
/// there may be.
pub open spec fn course(
    cached: Map<HostView, CacheEntry>,
    pending: Set<HostView>,
    max_entries: nat,
    key: HostView,
    now: Instant,
) -> Course {
    let held = live(cached, now);
    if held.contains_key(key) {
        Course::Answered
    } else if pending.contains(key) {
        Course::Joined
    } else if held.dom().len() + pending.len() < max_entries || held.dom().len() > 0 {
        Course::Performed
    } else {
        Course::Refused
    }
}

/// The failure of a lookup that waited for another one for too long.
pub open spec fn cache_wait_failure() -> ErrorView {
    failure(ErrorKind::TimedOut, "resolver cache wait exhausted the connect deadline"@)
}

impl CachingResolver {
    pub closed spec fn cached(&self) -> Map<HostView, CacheEntry> {
        self.entries@
    }

    /// The keys whose lookups are under way.
    pub closed spec fn pending(&self) -> Set<HostView> {
        self.in_flight@.dom()
    }

    pub closed spec fn settings(&self) -> ResolverCacheConfig {
        self.config
    }

    /// Cached and pending keys are apart and, taken together, within the limit; starting points
    /// lie within the address lists.
    pub closed spec fn wf(&self) -> bool {
        &&& self.entries.wf()
        &&& self.in_flight.wf()
        &&& self.entries@.dom().finite()
        &&& self.in_flight@.dom().finite()
        &&& self.entries@.dom().len() + self.in_flight@.dom().len() <= self.config.max_entries
        &&& self.entries@.dom().disjoint(self.in_flight@.dom())
        &&& forall|k: HostView| #[trigger]
            self.entries@.contains_key(k) ==> self.entries@[k].next_address < usize::MAX
    }

    /// Cached lookups and pending ones never exceed the configured number of entries, and no key
    /// is both cached and pending.
    pub proof fn lemma_bounds(&self)
        requires
            self.wf(),
        ensures
            self.cached().dom().finite(),
            self.pending().finite(),
            self.cached().dom().len() + self.pending().len() <= self.settings().max_entries,
            self.cached().dom().disjoint(self.pending()),
    {
    }

    pub fn new(config: ResolverCacheConfig, now: Instant) -> (r: Result<CachingResolver, Error>)
        ensures
            match r {
                Ok(cache) => {
                    &&& config_failure(config, now) is None
                    &&& cache.wf()
                    &&& cache.settings() == config
                    &&& cache.cached() == Map::<HostView, CacheEntry>::empty()
                    &&& cache.pending() == Set::<HostView>::empty()
                },
                Err(e) => config_failure(config, now) == Some(e@),
            },
    {
        validate_cache_config(config, now)?;
        let cache = CachingResolver { config, entries: Table::new(), in_flight: Table::new() };
        proof {
            assert(cache.entries@.dom() =~= Set::<HostView>::empty());
            assert(cache.in_flight@.dom() =~= Set::<HostView>::empty());
        }
        Ok(cache)
    }

    /// Remove one cached service entry.
    pub fn invalidate(&mut self, host: &str, port: u16) -> (r: bool)
        requires
            old(self).wf(),
        ensures
            final(self).wf(),
            final(self).settings() == old(self).settings(),
            r == old(self).cached().contains_key(host_key(host@, port)),
            final(self).cached() == old(self).cached().remove(host_key(host@, port)),
            final(self).pending() == old(self).pending(),
    {
        let key = HostKey::new(host, port);
        let removed = self.entries.remove(&key);
        proof {
            assert(self.entries@.dom() =~= old(self).entries@.dom().remove(key@));
        }
        removed.is_some()
    }

    /// Remove all positive and negative cached entries.
    pub fn clear(&mut self)
        requires
            old(self).wf(),
        ensures
            final(self).wf(),
            final(self).settings() == old(self).settings(),
            final(self).cached() == Map::<HostView, CacheEntry>::empty(),
            final(self).pending() == old(self).pending(),
    {
        self.entries.clear();
        proof {
            assert(self.entries@.dom() =~= Set::<HostView>::empty());
        }
    }

    fn drop_expired(&mut self, now: Instant)
        requires
            old(self).wf(),
        ensures
            final(self).wf(),
            final(self).config == old(self).config,
            final(self).entries@ == live(old(self).entries@, now),
            final(self).in_flight == old(self).in_flight,
    {
        let ghost all = self.entries@;
        let mut i: usize = 0;
        proof {
            self.entries.lemma_entries();
        }
        while i < self.entries.len()
            invariant
                self.wf(),
                self.config == old(self).config,
                self.in_flight == old(self).in_flight,
                self.entries.wf(),
                all == old(self).entries@,
                i <= self.entries.entries().len(),
                forall|k: HostView| #[trigger]
                    self.entries@.contains_key(k) ==> all.contains_key(k) && self.entries@[k]
                        == all[k],
                forall|k: HostView| #[trigger]
                    all.contains_key(k) && all[k].expires_at.nanos > now.nanos
                        ==> self.entries@.contains_key(k),
                forall|j: int|
                    0 <= j < i ==> (#[trigger] self.entries.entries()[j]).1.expires_at.nanos
                        > now.nanos,
            decreases self.entries.entries().len() - i,
        {
            proof {
                self.entries.lemma_entries();
            }
            let (key, entry) = self.entries.entry_at(i);
            if entry.expires_at.nanos > now.nanos {
                i += 1;
            } else {
                let key = key.clone();
                let ghost before = self.entries;
                let _expired = self.entries.remove_at(i);
                proof {
                    assert(self.entries@.dom() =~= before@.dom().remove(key@));
                    assert forall|j: int| 0 <= j < i implies (
                    #[trigger] self.entries.entries()[j]).1.expires_at.nanos > now.nanos by {
                        assert(self.entries.entries()[j] == before.entries()[j]);
                    }
                }
            }
        }
        proof {
            self.entries.lemma_entries();
            let kept = live(all, now);
            assert forall|k: HostView| self.entries@.contains_key(k) <==> kept.contains_key(
                k,
            ) by {
                if self.entries@.contains_key(k) {
                    let j = choose|j: int|
                        0 <= j < self.entries.entries().len() && (
                        #[trigger] self.entries.entries()[j]).0 == k;
                    assert(self.entries.entries()[j].1.expires_at.nanos > now.nanos);
                    assert(self.entries@[self.entries.entries()[j].0]
                        == self.entries.entries()[j].1);
                }
            }
            assert(self.entries@ =~= kept);
        }
    }

    fn evict_earliest(&mut self)
        requires
            old(self).wf(),
            old(self).entries@.dom().len() > 0,
        ensures
            final(self).wf(),
            final(self).config == old(self).config,
            evicted(old(self).entries@, final(self).entries@),
            final(self).in_flight == old(self).in_flight,
            final(self).entries@.dom().len() == old(self).entries@.dom().len() - 1,
    {
        let n: usize = self.entries.len();
        let mut best: usize = 0;
        let mut i: usize = 1;
        while i < n
            invariant
                self.wf(),
                self == old(self),
                n == self.entries.entries().len(),
                best < n,
                1 <= i <= n,
                forall|j: int|
                    0 <= j < i ==> self.entries.entries()[best as int].1.expires_at.nanos <= (
                    #[trigger] self.entries.entries()[j]).1.expires_at.nanos,
            decreases n - i,
        {
            let (_key, entry) = self.entries.entry_at(i);
            let (_best_key, best_entry) = self.entries.entry_at(best);
            if entry.expires_at.nanos < best_entry.expires_at.nanos {
                best = i;
            }
            i += 1;
        }
        proof {
            self.entries.lemma_entries();
            let k = self.entries.entries()[best as int].0;
            assert(self.entries@.contains_key(k));
            assert forall|other: HostView| #[trigger]
                self.entries@.contains_key(other) implies self.entries@[k].expires_at.nanos
                <= self.entries@[other].expires_at.nanos by {
                let j = choose|j: int|
                    0 <= j < self.entries.entries().len() && (
                    #[trigger] self.entries.entries()[j]).0 == other;
                assert(self.entries@[self.entries.entries()[j].0] == self.entries.entries()[j].1);
            }
        }
        let _earliest = self.entries.remove_at(best);
        proof {
            let k = old(self).entries.entries()[best as int].0;
            assert(self.entries@.dom() =~= old(self).entries@.dom().remove(k));
            assert(old(self).entries@.contains_key(k));
        }
    }

    /// Decide what a lookup does: answer from the cache, wait for the same lookup, or start one.
    pub fn begin(&mut self, host: &str, port: u16, now: Instant) -> (r: Result<CacheStep, Error>)
        requires
            old(self).wf(),
        ensures
            final(self).wf(),
            final(self).settings() == old(self).settings(),
            ({
                let key = host_key(host@, port);
                let held = live(old(self).cached(), now);
                let pending = old(self).pending();
                if held.contains_key(key) {
                    let entry = held[key];
                    &&& r matches Ok(CacheStep::Answer(found)) && answered(
                        entry,
                        match found {
                            Ok(resolution) => Ok(resolution.addresses@),
                            Err(e) => Err(e@),
                        },
                        final(self).cached()[key],
                    )
                    &&& r matches Ok(CacheStep::Answer(answer)) && match answer {
                        Ok(resolution) => entry.answer() == Ok::<Seq<SocketAddr>, ErrorView>(
                            resolution.addresses@,
                        ) && resolution.source == ResolutionSource::Cache,
                        Err(e) => entry.answer() == Err::<Seq<SocketAddr>, ErrorView>(e@),
                    }
                    &&& final(self).pending() == pending
                    &&& final(self).cached() == held.insert(
                        key,
                        (CacheEntry { next_address: entry.following_start() as usize, ..entry }),
                    )
                } else if pending.contains(key) {
                    &&& r matches Ok(CacheStep::Wait)
                    &&& final(self).pending() == pending
                    &&& final(self).cached() == held
                } else if held.dom().len() + pending.len() < old(self).settings().max_entries {
                    &&& r matches Ok(CacheStep::Resolve)
                    &&& final(self).pending() == pending.insert(key)
                    &&& final(self).cached() == held
                } else if held.dom().len() > 0 {
                    &&& r matches Ok(CacheStep::Resolve)
                    &&& final(self).pending() == pending.insert(key)
                    &&& evicted(held, final(self).cached())
                } else {
                    &&& r is Err
                    &&& r->Err_0@ == in_flight_failure()
                    &&& final(self).pending() == pending
                    &&& final(self).cached() == held
                }
            }),
            match course(
                old(self).cached(),
                old(self).pending(),
                old(self).settings().max_entries as nat,
                host_key(host@, port),
                now,
            ) {
                Course::Answered => r matches Ok(CacheStep::Answer(_)),
                Course::Joined => r matches Ok(CacheStep::Wait),
                Course::Performed => r matches Ok(CacheStep::Resolve),
                Course::Refused => r is Err,
            },
    {
        let key = HostKey::new(host, port);
        self.drop_expired(now);
        let ghost held = self.entries@;
        match self.entries.remove(&key) {
            Some(entry) => {
                let mut entry = entry;
                let ghost before = entry;
                let answer = entry.result();
                proof {
                    assert(entry == (CacheEntry {
                        next_address: before.following_start() as usize,
                        ..before
                    }));
                    lemma_start_in_range(before);
                }
                self.entries.insert(key, entry);
                proof {
                    assert(self.entries@ =~= held.insert(key@, entry));
                    assert(self.entries@.dom() =~= held.dom());
                }
                return Ok(CacheStep::Answer(answer));
            },
            None => {
                proof {
                    assert(self.entries@ =~= held);
                }
            },
        }
        if self.in_flight.contains(&key) {
            return Ok(CacheStep::Wait);
        }
        if self.entries.len() >= self.config.max_entries || self.in_flight.len()
            >= self.config.max_entries - self.entries.len() {
            if self.entries.len() == 0 {
                return Err(
                    Error::new(
                        ErrorKind::WouldBlock,
                        "resolver cache has reached its in-flight entry limit",
                    ),
                );
            }
            self.evict_earliest();
        }
        let ghost waiting = self.in_flight@.dom();
        self.in_flight.insert(key, ());
        proof {
            assert(self.in_flight@.dom() =~= waiting.insert(key@));
        }
        Ok(CacheStep::Resolve)
    }

    /// Record what the wrapped lookup came to and answer with it.
    pub fn finish(
        &mut self,
        host: &str,
        port: u16,
        looked_up: Result<Vec<SocketAddr>, Error>,
        now: Instant,
    ) -> (r: Result<Resolution, Error>)
        requires
            old(self).wf(),
            old(self).pending().contains(host_key(host@, port)),
        ensures
            final(self).wf(),
            final(self).settings() == old(self).settings(),
            ({
                let key = host_key(host@, port);
                let config = old(self).settings();
                let outcome = match looked_up {
                    Ok(addresses) => bounded(
                        addresses@,
                        port,
                        config.max_addresses_per_entry as nat,
                    ),
                    Err(e) => Err(e@),
                };
                &&& outcome == lookup_outcome(
                    lookup_view(looked_up),
                    port,
                    config.max_addresses_per_entry as nat,
                )
                &&& match r {
                    Ok(resolution) => outcome == Ok::<Seq<SocketAddr>, ErrorView>(
                        resolution.addresses@,
                    ) && resolution.source == ResolutionSource::Resolver,
                    Err(e) => outcome == Err::<Seq<SocketAddr>, ErrorView>(e@),
                }
                &&& final(self).pending() == old(self).pending().remove(key)
                &&& if now.later(ttl_of(outcome, config)) is Some {
                    &&& final(self).cached().contains_key(key)
                    &&& caches(final(self).cached()[key], outcome, now, config)
                    &&& final(self).cached() == old(self).cached().insert(
                        key,
                        final(self).cached()[key],
                    )
                } else {
                    final(self).cached() == old(self).cached()
                }
            }),
    {
        let key = HostKey::new(host, port);
        let resolved = match looked_up {
            Ok(addresses) => bounded_addresses(
                addresses,
                port,
                self.config.max_addresses_per_entry,
            ),
            Err(e) => Err(e),
        };
        let _started = self.in_flight.remove(&key);
        proof {
            assert(self.in_flight@.dom() =~= old(self).in_flight@.dom().remove(key@));
        }
        match CacheEntry::new(&resolved, now, self.config) {
            Some(entry) => {
                self.entries.insert(key, entry);
                proof {
                    assert(self.entries@.dom() =~= old(self).entries@.dom().insert(key@));
                    assert(self.entries@ =~= old(self).entries@.insert(
                        key@,
                        self.entries@[key@],
                    ));
                }
            },
            None => {},
        }
        match resolved {
            Ok(addresses) => Ok(Resolution { addresses, source: ResolutionSource::Resolver }),
            Err(e) => Err(e),
        }
    }
}

proof fn lemma_start_in_range(entry: CacheEntry)
    requires
        entry.next_address < usize::MAX,
    ensures
        entry.following_start() < usize::MAX,
{
    match entry.value {
        CachedValue::Addresses(addresses) => {
            if addresses@.len() > 0 {
                assert((entry.next_address + 1) % (addresses@.len() as int) < addresses@.len())
                    by (nonlinear_arith)
                    requires
                        addresses@.len() > 0,
                ;
                assert(addresses.len() <= usize::MAX);
            }
        },
        CachedValue::Error(_, _) => {},
    }
}

/// How long a lookup may wait for another one: without a deadline, as long as it takes.
pub fn cache_wait(deadline: Option<Instant>, now: Instant) -> (r: Result<Option<Duration>, Error>)
    ensures
        match deadline {
            None => r matches Ok(None),
            Some(deadline) => match r {
                Ok(span) => now.nanos <= deadline.nanos && span == Some(deadline.since(now)),
                Err(e) => now.nanos > deadline.nanos && e@ == cache_wait_failure(),
            },
        },
{
    match deadline {
        None => Ok(None),
        Some(deadline) => match deadline.checked_duration_since(now) {
            Some(span) => Ok(Some(span)),
            None => Err(
                Error::new(
                    ErrorKind::TimedOut,
                    "resolver cache wait exhausted the connect deadline",
                ),
            ),
        },
    }
}

/// A wait that timed out ends the lookup.
pub fn cache_waited(timed_out: bool) -> (r: Result<(), Error>)
    ensures
        match r {
            Ok(_) => !timed_out,
            Err(e) => timed_out && e@ == cache_wait_failure(),
        },
{
    if timed_out {
        return Err(
            Error::new(
                ErrorKind::TimedOut,
                "resolver cache wait exhausted the connect deadline",
            ),
        );
    }
    Ok(())
}

/// What the registry holds of a service whose addresses were just accepted.
pub open spec fn registered(entry: ServiceEntry, addresses: Seq<SocketAddr>) -> bool {
    entry.addresses@ == addresses && entry.next_address == 0
}

/// What one answer for a service does: it lists the addresses from the starting point on, and the
/// next answer starts one address later.
pub open spec fn served(
    before: ServiceEntry,
    answer: Seq<SocketAddr>,
    after: ServiceEntry,
) -> bool {
    &&& answer == rotated(before.addresses@, before.next_address as nat)
    &&& after.addresses == before.addresses
    &&& after.next_address == next_start(before.next_address as nat, before.addresses@.len())
}

/// Bounds for a push-updated [`ServiceResolver`].
#[derive(Debug, Clone, Copy)]
pub struct ServiceResolverConfig {
    pub max_services: usize,
    pub max_addresses_per_service: usize,
}

impl Default for ServiceResolverConfig {
    fn default() -> (r: ServiceResolverConfig)
        ensures
            r.max_services == 1024,
            r.max_addresses_per_service == 32,
    {
        ServiceResolverConfig { max_services: 1024, max_addresses_per_service: 32 }
    }
}

/// The addresses of a service and where the next answer starts.
#[derive(Debug)]
pub struct ServiceEntry {
    pub addresses: Vec<SocketAddr>,
    pub next_address: usize,
}

/// Push-updated service registry resolver with no request-path DNS I/O.
#[derive(Debug)]
pub struct ServiceResolver {
    config: ServiceResolverConfig,
    entries: Table<ServiceEntry>,
}

/// The refusal of a registry without limits.
pub open spec fn service_limits_failure() -> ErrorView {
    failure(ErrorKind::InvalidInput, "service resolver limits must be greater than zero"@)
}

/// The refusal of one more service than the registry holds.
pub open spec fn service_full_failure() -> ErrorView {
    failure(ErrorKind::OutOfMemory, "service resolver entry limit reached"@)
}

/// The failure of a lookup of an unknown service.
pub open spec fn service_unknown_failure() -> ErrorView {
    failure(ErrorKind::AddrNotAvailable, "service resolver has no addresses for origin"@)
}

/// What is wrong with new addresses of a service, if anything is, for how many services there are
/// and whether this is one of them.
pub open spec fn update_failure(
    services: nat,
    known: bool,
    config: ServiceResolverConfig,
    addresses: Seq<SocketAddr>,
    port: u16,
) -> Option<ErrorView> {
    match bounded(addresses, port, config.max_addresses_per_service as nat) {
        Err(e) => Some(e),
        Ok(_) => if !known && services >= config.max_services {
            Some(service_full_failure())
        } else {
            None
        },
    }
}

impl ServiceResolver {
    pub closed spec fn services(&self) -> Map<HostView, ServiceEntry> {
        self.entries@
    }

    pub closed spec fn settings(&self) -> ServiceResolverConfig {
        self.config
    }

    /// Within the limits: every service has addresses and a starting point among them.
    pub closed spec fn wf(&self) -> bool {
        &&& self.entries.wf()
        &&& self.entries@.dom().finite()
        &&& self.entries@.dom().len() <= self.config.max_services
        &&& forall|k: HostView| #[trigger]
            self.entries@.contains_key(k) ==> {
                &&& self.entries@[k].next_address < self.entries@[k].addresses@.len()
                &&& self.entries@[k].addresses@.len() <= self.config.max_addresses_per_service
            }
    }

    /// The registry never holds more services, nor a service more addresses, than configured.
    pub proof fn lemma_bounds(&self, key: HostView)
        requires
            self.wf(),
        ensures
            self.services().dom().finite(),
            self.services().dom().len() <= self.settings().max_services,
            self.services().contains_key(key) ==> 0 < self.services()[key].addresses@.len()
                <= self.settings().max_addresses_per_service,
            self.services().contains_key(key) ==> self.services()[key].next_address
                < self.services()[key].addresses@.len(),
    {
    }

    pub fn new(config: ServiceResolverConfig) -> (r: Result<ServiceResolver, Error>)
        ensures
            match r {
                Ok(resolver) => {
                    &&& config.max_services > 0 && config.max_addresses_per_service > 0
                    &&& resolver.wf()
                    &&& resolver.settings() == config
                    &&& resolver.services() == Map::<HostView, ServiceEntry>::empty()
                },
                Err(e) => (config.max_services == 0 || config.max_addresses_per_service == 0) && e@
                    == service_limits_failure(),
            },
    {
        if config.max_services == 0 || config.max_addresses_per_service == 0 {
            return Err(
                Error::new(
                    ErrorKind::InvalidInput,
                    "service resolver limits must be greater than zero",
                ),
            );
        }
        let resolver = ServiceResolver { config, entries: Table::new() };
        proof {
            assert(resolver.entries@.dom() =~= Set::<HostView>::empty());
        }
        Ok(resolver)
    }

    /// Insert or replace addresses for one logical service origin.
    pub fn update(&mut self, host: &str, port: u16, addresses: Vec<SocketAddr>) -> (r: Result<
        (),
        Error,
    >)
        requires
            old(self).wf(),
        ensures
            final(self).wf(),
            final(self).settings() == old(self).settings(),
            r is Ok <==> update_failure(
                old(self).services().dom().len(),
                old(self).services().contains_key(host_key(host@, port)),
                old(self).settings(),
                addresses@,
                port,
            ) is None,
            ({
                let key = host_key(host@, port);
                let config = old(self).settings();
                match bounded(addresses@, port, config.max_addresses_per_service as nat) {
                    Err(e) => {
                        &&& r is Err
                        &&& r->Err_0@ == e
                        &&& final(self).services() == old(self).services()
                    },
                    Ok(kept) => if !old(self).services().contains_key(key) && old(
                        self,
                    ).services().dom().len() >= config.max_services {
                        &&& r is Err
                        &&& r->Err_0@ == service_full_failure()
                        &&& final(self).services() == old(self).services()
                    } else {
                        &&& r is Ok
                        &&& final(self).services().contains_key(key)
                        &&& registered(final(self).services()[key], kept)
                        &&& final(self).services()[key].addresses@ == kept
                        &&& final(self).services()[key].next_address == 0
                        &&& final(self).services() == old(self).services().insert(
                            key,
                            final(self).services()[key],
                        )
                    },
                }
            }),
    {
        let ghost offered = addresses@;
        let kept = match bounded_addresses(
            addresses,
            port,
            self.config.max_addresses_per_service,
        ) {
            Ok(kept) => kept,
            Err(e) => {
                return Err(e);
            },
        };
        proof {
            lemma_bounded_addresses(
                offered,
                port,
                self.config.max_addresses_per_service as nat,
            );
        }
        let key = HostKey::new(host, port);
        if !self.entries.contains(&key) && self.entries.len() >= self.config.max_services {
            return Err(
                Error::new(ErrorKind::OutOfMemory, "service resolver entry limit reached"),
            );
        }
        self.entries.insert(key, ServiceEntry { addresses: kept, next_address: 0 });
        proof {
            assert(self.entries@.dom() =~= old(self).entries@.dom().insert(key@));
            assert(self.entries@ =~= old(self).entries@.insert(key@, self.entries@[key@]));
        }
        Ok(())
    }

    pub fn remove(&mut self, host: &str, port: u16) -> (r: bool)
        requires
            old(self).wf(),
        ensures
            final(self).wf(),
            final(self).settings() == old(self).settings(),
            r == old(self).services().contains_key(host_key(host@, port)),
            final(self).services() == old(self).services().remove(host_key(host@, port)),
    {
        let key = HostKey::new(host, port);
        let removed = self.entries.remove(&key);
        proof {
            assert(self.entries@.dom() =~= old(self).entries@.dom().remove(key@));
        }
        removed.is_some()
    }

    /// The addresses of a service; the next answer will start one address later.
    pub fn resolve_with_metadata(&mut self, host: &str, port: u16) -> (r: Result<Resolution, Error>)
        requires
            old(self).wf(),
        ensures
            final(self).wf(),
            final(self).settings() == old(self).settings(),
            ({
                let key = host_key(host@, port);
                if old(self).services().contains_key(key) {
                    let entry = old(self).services()[key];
                    &&& r matches Ok(found) && served(
                        entry,
                        found.addresses@,
                        final(self).services()[key],
                    )
                    &&& r matches Ok(resolution) && resolution.addresses@ == rotated(
                        entry.addresses@,
                        entry.next_address as nat,
                    ) && resolution.source == ResolutionSource::ServiceRegistry
                    &&& final(self).services() == old(self).services().insert(
                        key,
                        (ServiceEntry {
                            next_address: next_start(
                                entry.next_address as nat,
                                entry.addresses@.len(),
                            ) as usize,
                            ..entry
                        }),
                    )
                } else {
                    &&& r is Err
                    &&& r->Err_0@ == service_unknown_failure()
                    &&& final(self).services() == old(self).services()
                }
            }),
    {
        let key = HostKey::new(host, port);
        let mut entry = match self.entries.remove(&key) {
            Some(entry) => entry,
            None => {
                proof {
                    assert(self.entries@ =~= old(self).entries@);
                }
                return Err(
                    Error::new(
                        ErrorKind::AddrNotAvailable,
                        "service resolver has no addresses for origin",
                    ),
                );
            },
        };
        let count: usize = entry.addresses.len();
        let addresses = rotate(&entry.addresses, entry.next_address);
        entry.next_address = (entry.next_address + 1) % count;
        self.entries.insert(key, entry);
        proof {
            assert(self.entries@ =~= old(self).entries@.insert(key@, entry));
            assert(self.entries@.dom() =~= old(self).entries@.dom());
        }
        Ok(Resolution { addresses, source: ResolutionSource::ServiceRegistry })
    }

    /// The addresses of a service, without metadata.
    pub fn resolve(&mut self, host: &str, port: u16) -> (r: Result<Vec<SocketAddr>, Error>)
        requires
            old(self).wf(),
        ensures
            final(self).wf(),
            final(self).settings() == old(self).settings(),
            ({
                let key = host_key(host@, port);
                if old(self).services().contains_key(key) {
                    let entry = old(self).services()[key];
                    &&& r matches Ok(found) && served(
                        entry,
                        found@,
                        final(self).services()[key],
                    )
                    &&& r matches Ok(addresses) && addresses@ == rotated(
                        entry.addresses@,
                        entry.next_address as nat,
                    )
                    &&& final(self).services() == old(self).services().insert(
                        key,
                        (ServiceEntry {
                            next_address: next_start(
                                entry.next_address as nat,
                                entry.addresses@.len(),
                            ) as usize,
                            ..entry
                        }),
                    )
                } else {
                    &&& r is Err
                    &&& r->Err_0@ == service_unknown_failure()
                    &&& final(self).services() == old(self).services()
                }
            }),
    {
        match self.resolve_with_metadata(host, port) {
            Ok(resolution) => Ok(resolution.addresses),
            Err(e) => Err(e),
        }
    }
}

impl Default for ServiceResolver {
    fn default() -> (r: ServiceResolver)
        ensures
            r.wf(),
            r.settings().max_services == 1024,
            r.settings().max_addresses_per_service == 32,
            r.services() == Map::<HostView, ServiceEntry>::empty(),
    {
        let resolver = ServiceResolver {
            config: ServiceResolverConfig::default(),
            entries: Table::new(),
        };
        proof {
            assert(resolver.entries@.dom() =~= Set::<HostView>::empty());
        }
        resolver
    }
}

} // verus!

use may_minihttp::resolver::{
    bounded_addresses, cache_wait, cache_waited, validate_cache_config, CacheStep, SocketAddr,
};
use may_minihttp::time::{Duration, Instant};
use may_minihttp::{
    CachingResolver, Error, ErrorKind, Resolution, ResolutionSource, ResolverCacheConfig,
    ServiceResolver, ServiceResolverConfig,
};

fn address(last_octet: u8, port: u16) -> SocketAddr {
    SocketAddr::V4 { ip: 0x7f00_0000 + last_octet as u32, port }
}

fn start() -> Instant {
    Instant { nanos: 1_000_000_000_000 }
}

/// Look a name up through the cache, as one caller that is alone with it.
fn resolve_at(
    cache: &mut CachingResolver,
    calls: &mut usize,
    answer: &Result<Vec<SocketAddr>, Error>,
    host: &str,
    port: u16,
    now: Instant,
) -> Result<Resolution, Error> {
    match cache.begin(host, port, now)? {
        CacheStep::Answer(result) => result,
        CacheStep::Wait => panic!("no other lookup is under way"),
        CacheStep::Resolve => {
            *calls += 1;
            let looked_up = match answer {
                Ok(addresses) => Ok(addresses.clone()),
                Err(error) => Err(error.clone()),
            };
            cache.finish(host, port, looked_up, now)
        }
    }
}

#[test]
fn cache_rotates_addresses_and_expires_with_injected_instant() {
    let port = 8080;
    let answer = Ok(vec![address(1, port), address(2, port)]);
    let mut calls = 0;
    let now = start();
    let mut cache = CachingResolver::new(
        ResolverCacheConfig {
            positive_ttl: Duration::from_secs(10),
            negative_ttl: Duration::from_secs(2),
            max_entries: 4,
            max_addresses_per_entry: 4,
        },
        now,
    )
    .unwrap();

    let first = resolve_at(&mut cache, &mut calls, &answer, "SERVICE", port, now).unwrap();
    let second = resolve_at(&mut cache, &mut calls, &answer, "service", port, now).unwrap();
    assert_eq!(first.source, ResolutionSource::Resolver);
    assert_eq!(second.source, ResolutionSource::Cache);
    assert_eq!(first.addresses, vec![address(1, port), address(2, port)]);
    assert_eq!(second.addresses, vec![address(2, port), address(1, port)]);
    assert_eq!(calls, 1);

    let later = now.checked_add(Duration::from_secs(11)).unwrap();
    let expired = resolve_at(&mut cache, &mut calls, &answer, "service", port, later).unwrap();
    assert_eq!(expired.source, ResolutionSource::Resolver);
    assert_eq!(calls, 2);
}

#[test]
fn cache_negative_result_is_bounded_and_invalidatable() {
    let answer = Err(Error::new(ErrorKind::AddrNotAvailable, "not found"));
    let mut calls = 0;
    let now = start();
    let mut cache = CachingResolver::new(ResolverCacheConfig::default(), now).unwrap();

    for _ in 0..2 {
        assert_eq!(
            resolve_at(&mut cache, &mut calls, &answer, "missing.internal", 8080, now)
                .unwrap_err()
                .kind(),
            ErrorKind::AddrNotAvailable
        );
    }
    assert_eq!(calls, 1);
    assert!(cache.invalidate("MISSING.INTERNAL", 8080));
    let _ = resolve_at(&mut cache, &mut calls, &answer, "missing.internal", 8080, now).unwrap_err();
    assert_eq!(calls, 2);
}

#[test]
fn a_second_cold_lookup_waits_for_the_first() {
    let port = 8080;
    let now = start();
    let mut cache = CachingResolver::new(ResolverCacheConfig::default(), now).unwrap();
    assert!(matches!(cache.begin("service.internal", port, now).unwrap(), CacheStep::Resolve));
    assert!(matches!(cache.begin("Service.Internal", port, now).unwrap(), CacheStep::Wait));
    let first = cache.finish("service.internal", port, Ok(vec![address(1, port)]), now).unwrap();
    assert_eq!(first.addresses, vec![address(1, port)]);
    match cache.begin("service.internal", port, now).unwrap() {
        CacheStep::Answer(Ok(second)) => {
            assert_eq!(second.addresses, vec![address(1, port)]);
            assert_eq!(second.source, ResolutionSource::Cache);
        }
        _ => panic!("the first answer was not kept"),
    }
}

#[test]
fn a_waiter_honours_its_deadline() {
    let now = start();
    let soon = now.checked_add(Duration::from_millis(10)).unwrap();
    assert_eq!(cache_wait(Some(soon), now).unwrap().unwrap().nanos, 10_000_000);
    assert!(cache_wait(None, now).unwrap().is_none());
    let late = now.checked_add(Duration::from_millis(11)).unwrap();
    assert_eq!(cache_wait(Some(soon), late).unwrap_err().kind(), ErrorKind::TimedOut);
    assert_eq!(cache_waited(true).unwrap_err().kind(), ErrorKind::TimedOut);
    assert!(cache_waited(false).is_ok());
}

#[test]
fn service_resolver_updates_removes_bounds_and_rotates() {
    let port = 8443;
    let mut resolver = ServiceResolver::new(ServiceResolverConfig {
        max_services: 1,
        max_addresses_per_service: 2,
    })
    .unwrap();
    resolver
        .update("identity.internal", port, vec![address(1, port), address(2, port)])
        .unwrap();
    assert_eq!(
        resolver.resolve("IDENTITY.INTERNAL", port).unwrap(),
        vec![address(1, port), address(2, port)]
    );
    assert_eq!(
        resolver.resolve("identity.internal", port).unwrap(),
        vec![address(2, port), address(1, port)]
    );
    assert!(resolver.update("other.internal", port, vec![address(3, port)]).is_err());
    assert!(resolver.remove("identity.internal", port));
    assert_eq!(
        resolver.resolve("identity.internal", port).unwrap_err().kind(),
        ErrorKind::AddrNotAvailable
    );
}

#[test]
fn addresses_are_bounded_and_freed_of_repeats() {
    let port = 80;
    assert_eq!(
        bounded_addresses(vec![address(1, port), address(2, port), address(1, port)], port, 2)
            .unwrap(),
        vec![address(1, port), address(2, port)]
    );
    let other = bounded_addresses(vec![address(1, 81)], port, 2).unwrap_err();
    assert_eq!(other.kind(), ErrorKind::InvalidData);
    let many = bounded_addresses(vec![address(1, port), address(2, port)], port, 1).unwrap_err();
    assert_eq!(many.kind(), ErrorKind::InvalidData);
    let none = bounded_addresses(vec![], port, 1).unwrap_err();
    assert_eq!(none.kind(), ErrorKind::AddrNotAvailable);
}

#[test]
fn cache_settings_are_checked() {
    let now = start();
    let good = ResolverCacheConfig::default();
    assert!(validate_cache_config(good, now).is_ok());
    assert!(validate_cache_config(ResolverCacheConfig { max_entries: 0, ..good }, now).is_err());
    let negative = ResolverCacheConfig { negative_ttl: Duration { nanos: 0 }, ..good };
    assert!(validate_cache_config(negative, now).is_err());
    let endless = ResolverCacheConfig { positive_ttl: Duration { nanos: u128::MAX }, ..good };
    assert_eq!(validate_cache_config(endless, now).unwrap_err().kind(), ErrorKind::InvalidInput);
}

#[test]
fn the_cache_stays_within_its_entries() {
    let now = start();
    let port = 80;
    let mut cache = CachingResolver::new(
        ResolverCacheConfig { max_entries: 1, ..ResolverCacheConfig::default() },
        now,
    )
    .unwrap();
    let answer = Ok(vec![address(1, port)]);
    let mut calls = 0;
    resolve_at(&mut cache, &mut calls, &answer, "a", port, now).unwrap();
    resolve_at(&mut cache, &mut calls, &answer, "b", port, now).unwrap();
    resolve_at(&mut cache, &mut calls, &answer, "a", port, now).unwrap();
    assert_eq!(calls, 3);
    cache.clear();
    resolve_at(&mut cache, &mut calls, &answer, "a", port, now).unwrap();
    assert_eq!(calls, 4);
}

#[test]
fn cache_coalesces_concurrent_cold_resolution() {
    let port = 8080;
    let now = start();
    let mut cache = CachingResolver::new(ResolverCacheConfig::default(), now).unwrap();
    assert!(matches!(cache.begin("service.internal", port, now).unwrap(), CacheStep::Resolve));
    // The second caller asks while the lookup of the first is under way, and looks nothing up.
    assert!(matches!(cache.begin("service.internal", port, now).unwrap(), CacheStep::Wait));
    let done = Instant { nanos: now.nanos + 30_000_000 };
    let first = cache.finish("service.internal", port, Ok(vec![address(1, port)]), done).unwrap();
    assert_eq!(first.addresses, vec![address(1, port)]);
    cache_waited(false).unwrap();
    match cache.begin("service.internal", port, done).unwrap() {
        CacheStep::Answer(second) => {
            assert_eq!(second.unwrap().addresses, vec![address(1, port)]);
        }
        _ => panic!("the second caller looks nothing up"),
    }
}

#[test]
fn cache_waiter_honours_resolution_deadline() {
    let port = 8080;
    let now = start();
    let mut cache = CachingResolver::new(ResolverCacheConfig::default(), now).unwrap();
    assert!(matches!(cache.begin("service.internal", port, now).unwrap(), CacheStep::Resolve));
    let deadline = Instant { nanos: now.nanos + 10_000_000 };
    assert!(matches!(cache.begin("service.internal", port, now).unwrap(), CacheStep::Wait));
    assert_eq!(cache_wait(Some(deadline), now).unwrap().unwrap().nanos, 10_000_000);
    assert_eq!(cache_waited(true).unwrap_err().kind(), ErrorKind::TimedOut);
    let done = Instant { nanos: now.nanos + 100_000_000 };
    let cold = cache.finish("service.internal", port, Ok(vec![address(1, port)]), done).unwrap();
    assert_eq!(cold.addresses, vec![address(1, port)]);
}

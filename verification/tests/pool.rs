use may_minihttp::builder::ClientConfigValues;
use may_minihttp::checkout::{checkout_waited, CheckoutStep};
use may_minihttp::pool::{Fate, PoolLease, PoolState};
use may_minihttp::resolver::{Resolution, ResolutionSource, SocketAddr};
use may_minihttp::time::{Duration, Instant};
use may_minihttp::url::{parse_url, same_origin, OriginKey, Url};
use may_minihttp::{ClientBuilder, ClientStats, Error, ErrorKind};

fn at(seconds: u64) -> Instant {
    Instant { nanos: 1_000_000_000_000 + Duration::from_secs(seconds).nanos }
}

fn url(text: &str) -> Url {
    parse_url(text).unwrap()
}

fn key(text: &str) -> OriginKey {
    OriginKey::from_url(&url(text), 10).unwrap()
}

fn config(total: usize, per_origin: usize) -> ClientConfigValues {
    ClientBuilder::new()
        .max_connections(total)
        .max_connections_per_origin(per_origin)
        .build()
        .unwrap()
}

fn addresses() -> Resolution {
    Resolution {
        addresses: vec![SocketAddr::V4 { ip: 0x7f00_0001, port: 80 }],
        source: ResolutionSource::Resolver,
    }
}

/// Open a connection named `client` as a request would.
fn opened(
    pool: &mut PoolState<&'static str>,
    stats: &mut ClientStats,
    key: &OriginKey,
    client: &'static str,
    now: Instant,
    config: &ClientConfigValues,
) -> PoolLease<&'static str> {
    match pool.checkout(key, 1, at(1000), now, config, stats).unwrap() {
        CheckoutStep::Resolve { lease, connect_deadline } => {
            let step = pool
                .checkout_resolved(lease, Ok(addresses()), connect_deadline, now, stats)
                .unwrap();
            pool.checkout_connected(step.lease, Ok(client), now, stats).unwrap()
        }
        _ => panic!("a slot was expected"),
    }
}

#[test]
fn pool_key_separates_scheme_port_and_tls_profile() {
    let http = OriginKey::from_url(&url("http://example.com/"), 10).unwrap();
    let https = OriginKey::from_url(&url("https://example.com/"), 10).unwrap();
    let other_port = OriginKey::from_url(&url("https://example.com:444/"), 10).unwrap();
    let other_tls = OriginKey::from_url(&url("https://example.com/"), 11).unwrap();
    assert!(!http.same(&https));
    assert!(!https.same(&other_port));
    assert!(!https.same(&other_tls));
}

#[test]
fn pool_expiry_uses_injected_instant_for_idle_and_lifetime_limits() {
    let now = at(100);
    let key = OriginKey::from_url(&url("http://example.com/"), 0).unwrap();
    let config = config(4, 4);
    let mut stats = ClientStats::default();
    let mut state: PoolState<&'static str> = PoolState::new();
    // One connection was opened five seconds ago and idle for three, the other was opened thirty
    // seconds ago and idle for one.
    let forever = Duration::from_secs(100_000);
    let old = opened(&mut state, &mut stats, &key, "old", at(70), &config);
    let young = opened(&mut state, &mut stats, &key, "young", at(95), &config);
    assert!(!young.checkin(&mut state, &mut stats, at(97), forever));
    assert!(!old.checkin(&mut state, &mut stats, at(99), forever));
    assert_eq!((state.total(), state.idle_count(&key)), (2, 2));

    state.purge_expired(now, Duration::from_secs(2), Duration::from_secs(20));
    assert_eq!(state.total(), 0);
    assert_eq!(state.open_count(&key), 0);
    assert_eq!(state.idle_count(&key), 0);
}

#[test]
fn a_returned_connection_is_reused_last_in_first_out() {
    let key = key("http://example.com/");
    let config = config(4, 4);
    let mut stats = ClientStats::default();
    let mut pool: PoolState<&'static str> = PoolState::new();
    let first = opened(&mut pool, &mut stats, &key, "first", at(0), &config);
    let second = opened(&mut pool, &mut stats, &key, "second", at(0), &config);
    let lifetime = config.max_connection_lifetime;
    assert_eq!(first.settle(true, &mut pool, &mut stats, at(1), lifetime), Fate::Returned);
    assert_eq!(second.settle(true, &mut pool, &mut stats, at(1), lifetime), Fate::Returned);
    match pool.checkout(&key, 2, at(10), at(2), &config, &mut stats).unwrap() {
        CheckoutStep::Reuse(lease) => {
            assert!(lease.reused_idle_connection);
            assert_eq!(lease.connection.as_ref().unwrap().client, "second");
            assert_eq!(lease.settle(false, &mut pool, &mut stats, at(3), lifetime), Fate::Discarded);
        }
        _ => panic!("an idle connection was expected"),
    }
    assert_eq!((pool.total(), pool.idle_count(&key)), (1, 1));
    assert_eq!(stats.connections_created, 2);
    assert_eq!(stats.connections_reused, 1);
    assert_eq!(stats.connections_discarded, 1);
}

#[test]
fn a_connection_past_its_lifetime_is_not_returned() {
    let key = key("http://example.com/");
    let config = config(4, 4);
    let mut stats = ClientStats::default();
    let mut pool: PoolState<&'static str> = PoolState::new();
    let lease = opened(&mut pool, &mut stats, &key, "c", at(0), &config);
    assert!(lease.checkin(&mut pool, &mut stats, at(5), Duration::from_secs(5)));
    assert_eq!(pool.total(), 0);
    assert_eq!(stats.connections_discarded, 1);
}

#[test]
fn limits_hold_in_all_and_for_each_origin() {
    let (a, b, c) = (key("http://a.example/"), key("http://b.example/"), key("http://c.example/"));
    let config = config(2, 1);
    let mut stats = ClientStats::default();
    let mut pool: PoolState<&'static str> = PoolState::new();
    let lease = opened(&mut pool, &mut stats, &a, "a", at(0), &config);
    match pool.checkout(&a, 2, at(10), at(4), &config, &mut stats).unwrap() {
        CheckoutStep::Wait(span) => assert_eq!(span.nanos, Duration::from_secs(6).nanos),
        _ => panic!("the origin is full"),
    }
    let _other = opened(&mut pool, &mut stats, &b, "b", at(0), &config);
    assert!(matches!(
        pool.checkout(&c, 3, at(10), at(0), &config, &mut stats).unwrap(),
        CheckoutStep::Wait(_)
    ));
    assert_eq!(stats.pool_waits, 2);
    lease.release(&mut pool, &mut stats);
    assert!(matches!(
        pool.checkout(&c, 3, at(10), at(0), &config, &mut stats).unwrap(),
        CheckoutStep::Resolve { .. }
    ));
    assert_eq!((pool.total(), pool.open_count(&a), pool.open_count(&c)), (2, 0, 1));
}

#[test]
fn failed_checkouts_give_their_slot_back() {
    let key = key("http://example.com/");
    let config = config(1, 1);
    let mut stats = ClientStats::default();
    let mut pool: PoolState<&'static str> = PoolState::new();
    // The deadline has passed.
    let error = pool.checkout(&key, 1, at(1), at(2), &config, &mut stats).unwrap_err();
    assert_eq!(error.message(), "HTTP request deadline exceeded");
    assert_eq!(pool.total(), 0);
    // The host was not found.
    let CheckoutStep::Resolve { lease, connect_deadline } =
        pool.checkout(&key, 1, at(9), at(2), &config, &mut stats).unwrap()
    else {
        panic!("a slot was expected")
    };
    assert_eq!(connect_deadline, at(9));
    let missing = Err(Error::new(ErrorKind::AddrNotAvailable, "x"));
    let error = pool
        .checkout_resolved(lease, missing, connect_deadline, at(3), &mut stats)
        .unwrap_err();
    assert_eq!(error.kind(), ErrorKind::AddrNotAvailable);
    assert_eq!(pool.total(), 0);
    // The lookup took too long.
    let CheckoutStep::Resolve { lease, connect_deadline } =
        pool.checkout(&key, 1, at(9), at(2), &config, &mut stats).unwrap()
    else {
        panic!("a slot was expected")
    };
    let error = pool
        .checkout_resolved(lease, Ok(addresses()), connect_deadline, at(10), &mut stats)
        .unwrap_err();
    assert_eq!(error.message(), "DNS resolution exhausted the connect deadline");
    assert_eq!(pool.total(), 0);
    // The peer refused.
    let CheckoutStep::Resolve { lease, connect_deadline } =
        pool.checkout(&key, 1, at(9), at(2), &config, &mut stats).unwrap()
    else {
        panic!("a slot was expected")
    };
    let step = pool
        .checkout_resolved(lease, Ok(addresses()), connect_deadline, at(4), &mut stats)
        .unwrap();
    assert_eq!(step.url, "http://example.com:80/");
    assert_eq!(step.timeout.nanos, Duration::from_secs(5).nanos);
    let refused = Err(Error::new(ErrorKind::ConnectionRefused, "x"));
    let error = pool.checkout_connected(step.lease, refused, at(4), &mut stats).unwrap_err();
    assert_eq!(error.kind(), ErrorKind::ConnectionRefused);
    assert_eq!((pool.total(), pool.open_count(&key)), (0, 0));
    assert_eq!(stats.connections_created, 0);
    assert_eq!(stats.connections_discarded, 0);
}

#[test]
fn waiting_ends_in_time() {
    assert!(checkout_waited(false).is_ok());
    let error = checkout_waited(true).unwrap_err();
    assert_eq!(error.kind(), ErrorKind::TimedOut);
    assert_eq!(error.message(), "timed out waiting for an HTTP connection");
}

#[test]
fn urls_are_normalized_by_the_parser() {
    let parsed = url("HTTP://Example.COM:80/a/../b?q=1#frag");
    assert_eq!(parsed.text, "http://example.com/b?q=1");
    assert_eq!(parsed.scheme, "http");
    assert_eq!(parsed.host.as_deref(), Some("example.com"));
    assert_eq!(parsed.port, Some(80));
    assert_eq!((parsed.path.as_str(), parsed.query.as_deref()), ("/b", Some("q=1")));
    for (bad, message) in [
        ("/relative", "invalid URL: relative URL without a base"),
        ("ftp://example.com/", "URL scheme must be http or https"),
        ("http://user@example.com/", "credentials in request URLs are not supported"),
        ("http://:pw@example.com/", "credentials in request URLs are not supported"),
    ] {
        let error = parse_url(bad).unwrap_err();
        assert_eq!(error.kind(), ErrorKind::InvalidInput);
        assert_eq!(error.message(), message);
    }
}

#[test]
fn references_are_joined_and_origins_compared() {
    let base = url("http://example.com/a/b?x=1");
    let joined = base.join("../c#part").unwrap();
    assert_eq!(joined.text, "http://example.com/c#part");
    assert_eq!(joined.normalized(), "http://example.com/c");
    assert!(same_origin(&base, &joined));
    assert!(same_origin(&url("https://a.example/"), &url("https://A.example:443/x")));
    assert!(!same_origin(&url("https://a.example/"), &url("http://a.example:443/")));
    assert!(base.join("http://[bad").is_err());
}

#[test]
fn origin_keys_name_the_address_to_connect_to() {
    let v6 = OriginKey {
        scheme: "http".to_string(),
        host: "::1".to_string(),
        port: 8080,
        tls_profile: 0,
    };
    assert_eq!(v6.connect_url(), "http://[::1]:8080/");
    assert_eq!(key("http://example.com/").tls_profile, 0);
    assert_eq!(key("https://Example.com/").connect_url(), "https://example.com:443/");
    assert_eq!(key("https://example.com/").tls_profile, 10);
}

#[test]
fn every_lease_keeps_its_slot_while_others_come_and_go() {
    let (a, b) = (key("http://a.example/"), key("http://b.example/"));
    let config = config(4, 2);
    let mut stats = ClientStats::default();
    let mut pool: PoolState<&'static str> = PoolState::new();
    let first = opened(&mut pool, &mut stats, &a, "a1", at(0), &config);
    let second = opened(&mut pool, &mut stats, &a, "a2", at(0), &config);
    let other = opened(&mut pool, &mut stats, &b, "b1", at(0), &config);
    assert_eq!((pool.open_count(&a), pool.open_count(&b), pool.total()), (2, 1, 3));
    assert!(first.release(&mut pool, &mut stats));
    assert_eq!((pool.open_count(&a), pool.open_count(&b), pool.total()), (1, 1, 2));
    assert_eq!(
        other.settle(true, &mut pool, &mut stats, at(1), config.max_connection_lifetime),
        Fate::Returned
    );
    pool.purge_expired(at(500), config.idle_timeout, config.max_connection_lifetime);
    assert_eq!((pool.open_count(&a), pool.open_count(&b), pool.total()), (1, 0, 1));
    assert!(second.release(&mut pool, &mut stats));
    assert_eq!(pool.total(), 0);
}

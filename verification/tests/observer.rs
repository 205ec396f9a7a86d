use may_minihttp::message::Method;
use may_minihttp::observer::{connection_discarded, connection_reused, RequestTrace};
use may_minihttp::resolver::{Resolution, ResolutionSource, SocketAddr};
use may_minihttp::time::{Duration, Instant};
use may_minihttp::url::{parse_url, OriginKey, Url};
use may_minihttp::{ClientErrorKind, ClientEvent, Error, ErrorKind, ObservedOrigin};

fn at(seconds: u64) -> Instant {
    Instant { nanos: 1_000_000_000_000 + Duration::from_secs(seconds).nanos }
}

fn url(text: &str) -> Url {
    parse_url(text).unwrap()
}

fn origin(origin: &ObservedOrigin) -> String {
    format!("{}://{}:{}", origin.scheme, origin.host, origin.port)
}

fn told(event: &ClientEvent) -> String {
    match event {
        ClientEvent::RequestStarted { request_id, method, origin: at } => {
            format!("start:{request_id}:{}:{}", method.as_str(), origin(at))
        }
        ClientEvent::PoolWaited { request_id, timed_out, .. } => {
            format!("wait:{request_id}:{timed_out}")
        }
        ClientEvent::DnsCompleted { request_id, address_count, source, error, .. } => {
            format!("dns:{request_id}:{address_count}:{source:?}:{error:?}")
        }
        ClientEvent::ConnectionCompleted { request_id, tls, error, .. } => {
            format!("connect:{request_id}:{tls}:{error:?}")
        }
        ClientEvent::ConnectionReused { request_id, .. } => format!("reuse:{request_id}"),
        ClientEvent::ConnectionDiscarded { request_id, .. } => format!("discard:{request_id}"),
        ClientEvent::ResponseHeaders { request_id, status, .. } => {
            format!("headers:{request_id}:{status}")
        }
        ClientEvent::RedirectFollowed { request_id, status, from, to } => {
            format!("redirect:{request_id}:{status}:{}:{}", origin(from), origin(to))
        }
        ClientEvent::StaleConnectionRetried { request_id, .. } => format!("retry:{request_id}"),
        ClientEvent::RequestCompleted { request_id, status, .. } => {
            format!("complete:{request_id}:{status}")
        }
        ClientEvent::RequestFailed { request_id, error, .. } => {
            format!("failed:{request_id}:{error:?}")
        }
        ClientEvent::RequestCancelled { request_id, .. } => format!("cancelled:{request_id}"),
        ClientEvent::RequestAbandoned { request_id, status, .. } => {
            format!("abandoned:{request_id}:{status}")
        }
        _ => panic!("an event of an unknown kind"),
    }
}

#[test]
fn events_hold_origins_and_outcomes_only() {
    let trace = RequestTrace { request_id: 7, started: at(0) };
    let secret = url("https://example.com/secret?token=1");
    let other = url("http://other.example/x");
    let key = OriginKey::from_url(&secret, 3).unwrap();
    let method = Method::get();
    let found = Ok(Resolution {
        addresses: vec![SocketAddr::V4 { ip: 1, port: 443 }],
        source: ResolutionSource::Cache,
    });
    let missing = Err(Error::new(ErrorKind::AddrNotAvailable, "secret host"));
    let refused = Error::new(ErrorKind::ConnectionRefused, "secret peer");
    let events = [
        trace.request_started(&method, &secret),
        trace.pool_waited(&key, at(0), at(1), true),
        trace.dns_completed(&key, at(0), at(1), &found),
        trace.dns_completed(&key, at(0), at(1), &missing),
        trace.connection_completed(&key, at(0), at(1), None),
        trace.connection_completed(&key, at(0), at(1), Some(&refused)),
        connection_reused(&key, 7),
        connection_discarded(&key, 7),
        trace.response_headers(&secret, 200, at(1)),
        trace.redirect_followed(302, &secret, &other),
        trace.stale_connection_retried(&secret),
        trace.request_completed(200, at(1)),
        trace.request_failed(&refused, at(1)),
        trace.request_failed(&Error::cancelled(), at(1)),
        trace.request_abandoned(200, at(1)),
    ];
    let told: Vec<String> = events.iter().map(told).collect();
    assert_eq!(
        told,
        [
            "start:7:GET:https://example.com:443",
            "wait:7:true",
            "dns:7:1:Some(Cache):None",
            "dns:7:0:None:Some(Dns)",
            "connect:7:true:None",
            "connect:7:true:Some(Connection)",
            "reuse:7",
            "discard:7",
            "headers:7:200",
            "redirect:7:302:https://example.com:443:http://other.example:80",
            "retry:7",
            "complete:7:200",
            "failed:7:Connection",
            "cancelled:7",
            "abandoned:7:200",
        ]
    );
}

#[test]
fn durations_are_measured_from_the_start() {
    let trace = RequestTrace { request_id: 1, started: at(2) };
    match trace.request_failed(&Error::new(ErrorKind::TimedOut, "x"), at(5)) {
        ClientEvent::RequestFailed { error, total_duration, .. } => {
            assert_eq!(error, ClientErrorKind::Timeout);
            assert_eq!(total_duration.nanos, Duration::from_secs(3).nanos);
        }
        _ => panic!("a failure was expected"),
    }
    match trace.request_completed(200, at(1)) {
        ClientEvent::RequestCompleted { total_duration, .. } => assert!(total_duration.is_zero()),
        _ => panic!("a completion was expected"),
    }
}

#[test]
fn a_buffered_request_ends_with_one_event() {
    let trace = RequestTrace { request_id: 3, started: at(2) };
    let completed = trace.request_ended(Ok(204), at(5));
    assert!(matches!(
        completed,
        ClientEvent::RequestCompleted { request_id: 3, status: 204, .. }
    ));
    let late = Error::new(ErrorKind::TimedOut, "x");
    assert!(matches!(
        trace.request_ended(Err(&late), at(5)),
        ClientEvent::RequestFailed { request_id: 3, error: ClientErrorKind::Timeout, .. }
    ));
    match trace.request_ended(Err(&Error::cancelled()), at(5)) {
        ClientEvent::RequestCancelled { request_id, total_duration } => {
            assert_eq!((request_id, total_duration.nanos), (3, Duration::from_secs(3).nanos));
        }
        _ => panic!("a cancellation was expected"),
    }
}

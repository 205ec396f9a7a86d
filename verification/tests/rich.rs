use may_minihttp::builder::ClientConfigValues;
use may_minihttp::checkout::CheckoutStep;
use may_minihttp::exchange::{
    begin_attempts, send_on_lease, AttemptStep, BodyCollector, BufferedResponse, Collected, Sent,
};
use may_minihttp::headers::{FieldName, FieldValue, Headers};
use may_minihttp::message::{Method, Version};
use may_minihttp::observer::RequestTrace;
use may_minihttp::policy::{
    header_has_token, is_redirect, method_is_idempotent, response_is_reusable,
    stale_connection_error, validate_redirect, RequestBody,
};
use may_minihttp::pool::{Fate, PoolLease, PoolState};
use may_minihttp::redirect::{RedirectState, RedirectStep};
use may_minihttp::resolver::{Resolution, ResolutionSource, SocketAddr};
use may_minihttp::streaming::{require_no_redirects, Ending};
use may_minihttp::time::{Duration, Instant};
use may_minihttp::uri::Uri;
use may_minihttp::url::{origin_form, parse_url, OriginKey, Url};
use may_minihttp::{
    ClientBuilder, ClientErrorKind, ClientStats, Error, ErrorKind, HttpClient, MultipartForm,
    RedirectPolicy, RequestBuilder, Response, StreamingResponse,
};

type Pool = PoolState<HttpClient<()>>;
type Lease = PoolLease<HttpClient<()>>;

fn at(seconds: u64) -> Instant {
    Instant { nanos: 1_000_000_000_000 + Duration::from_secs(seconds).nanos }
}

fn name(text: &str) -> FieldName {
    FieldName::from_bytes(text.as_bytes()).unwrap()
}

fn value(text: &str) -> FieldValue {
    FieldValue::from_bytes(text.as_bytes()).unwrap()
}

fn fields(list: &[(&str, &str)]) -> Headers {
    let mut headers = Headers::new();
    for (key, text) in list {
        headers.append(&name(key), &value(text));
    }
    headers
}

fn url(text: &str) -> Url {
    parse_url(text).unwrap()
}

fn settings(policy: RedirectPolicy) -> ClientConfigValues {
    ClientBuilder::new()
        .redirect_policy(policy)
        .request_timeout(Duration::from_secs(2))
        .build()
        .unwrap()
}

/// A lease of a new connection to the origin of an address.
fn leased(pool: &mut Pool, stats: &mut ClientStats, target: &str) -> Lease {
    let key = OriginKey::from_url(&url(target), 0).unwrap();
    let config = settings(RedirectPolicy::Disabled);
    let CheckoutStep::Resolve { lease, connect_deadline } =
        pool.checkout(&key, 1, at(100), at(0), &config, stats).unwrap()
    else {
        panic!("a slot was expected")
    };
    let found = Resolution {
        addresses: vec![SocketAddr::V4 { ip: 1, port: key.port }],
        source: ResolutionSource::Resolver,
    };
    let step = pool.checkout_resolved(lease, Ok(found), connect_deadline, at(0), stats).unwrap();
    let uri = Uri::parse(&step.url).unwrap();
    let client = HttpClient::from_uri(&uri, ()).unwrap();
    pool.checkout_connected(step.lease, Ok(client), at(0), stats).unwrap()
}

fn client(lease: &mut Lease) -> &mut HttpClient<()> {
    &mut lease.connection.as_mut().unwrap().client
}

fn sent_text(lease: &mut Lease) -> String {
    String::from_utf8(client(lease).conn.buffer.take_writes().concat()).unwrap()
}

fn answer(lease: &mut Lease, bytes: &[u8]) -> Response {
    let client = client(lease);
    client.conn.buffer.bump_read(bytes);
    client.get_rsp().unwrap().unwrap()
}

#[test]
fn redirect_policy_rejects_cross_origin_and_downgrade() {
    let https = url("https://example.com/a");
    let other = url("https://other.example/a");
    let http = url("http://example.com/a");
    assert!(validate_redirect(RedirectPolicy::SameOrigin { max_hops: 2 }, &https, &other).is_err());
    assert!(validate_redirect(
        RedirectPolicy::CrossOrigin { max_hops: 2, allow_https_downgrade: false },
        &https,
        &http
    )
    .is_err());
}

#[test]
fn default_builder_has_redirects_disabled_and_finite_limits() {
    let config = ClientBuilder::new().build().unwrap();
    assert_eq!(config.redirect_policy, RedirectPolicy::Disabled);
    assert!(config.max_connections > 0);
    assert!(config.max_response_body > 0);
}

#[test]
fn get_body_is_rejected_before_connection_attempt() {
    let request = RequestBuilder::new(Method::get(), "http://127.0.0.1:9/")
        .unwrap()
        .body(b"not allowed".to_vec());
    let error = begin_attempts(&request.method, &request.url, &request.body, 0).unwrap_err();
    assert_eq!(error.kind(), ErrorKind::InvalidInput);
    assert!(error.message().contains("GET or HEAD"));
}

#[test]
fn streaming_response_rejects_implicit_redirect_following() {
    let config = settings(RedirectPolicy::SameOrigin { max_hops: 1 });
    let error = require_no_redirects(config.redirect_policy).unwrap_err();
    assert_eq!(error.kind(), ErrorKind::InvalidInput);
    assert!(error.message().contains("redirects"));
    assert!(require_no_redirects(RedirectPolicy::Disabled).is_ok());
}

#[test]
fn low_level_client_is_send() {
    fn assert_send<T: Send>() {}
    assert_send::<HttpClient<()>>();
}

#[test]
fn limits_of_a_client_are_checked() {
    for (builder, message) in [
        (ClientBuilder::new().max_connections(0), "connection limits must be greater than zero"),
        (
            ClientBuilder::new().max_connections_per_origin(0),
            "connection limits must be greater than zero",
        ),
        (
            ClientBuilder::new().max_connections(2).max_connections_per_origin(3),
            "per-origin connection limit cannot exceed the global limit",
        ),
        (
            ClientBuilder::new().max_response_body(0),
            "response body limit must be non-zero and header limit at least four bytes",
        ),
        (
            ClientBuilder::new().max_response_header_bytes(3),
            "response body limit must be non-zero and header limit at least four bytes",
        ),
    ] {
        let error = builder.build().unwrap_err();
        assert_eq!(error.kind(), ErrorKind::InvalidInput);
        assert_eq!(error.message(), message);
    }
}

#[test]
fn settings_are_kept_as_chosen() {
    let config = ClientBuilder::default()
        .idle_timeout(Duration::from_secs(1))
        .max_connection_lifetime(Duration::from_secs(2))
        .connect_timeout(Duration::from_secs(3))
        .io_timeout(Duration::from_secs(4))
        .max_response_header_bytes(1024)
        .sensitive_header(name("X-Key"))
        .sensitive_header(name("x-key"))
        .build()
        .unwrap();
    assert_eq!(config.idle_timeout.nanos, 1_000_000_000);
    assert_eq!(config.max_connection_lifetime.nanos, 2_000_000_000);
    assert_eq!(config.connect_timeout.nanos, 3_000_000_000);
    assert_eq!(config.io_timeout.nanos, 4_000_000_000);
    assert_eq!(config.max_response_header_bytes, 1024);
    let marked: Vec<&str> = config.sensitive_headers.iter().map(|name| name.as_str()).collect();
    assert_eq!(marked, ["authorization", "cookie", "proxy-authorization", "x-key"]);
}

#[test]
fn requests_are_described_step_by_step() {
    let request = RequestBuilder::new(Method::post(), "http://example.com/a#b")
        .unwrap()
        .header_str("X-One", "1")
        .unwrap()
        .header(&name("x-one"), &value("2"))
        .json(b"{}".to_vec())
        .timeout(Duration::from_secs(5));
    assert_eq!(request.url.text, "http://example.com/a");
    assert_eq!(request.headers.get_all(&name("x-one")).len(), 2);
    assert_eq!(request.headers.get(&name("content-type")).unwrap(), b"application/json");
    assert!(matches!(&request.body, RequestBody::Bytes(bytes) if bytes == b"{}"));
    let config = settings(RedirectPolicy::Disabled);
    assert_eq!(request.deadline(at(0), &config).unwrap(), at(5));

    let error = request.header_str("bad name", "x").unwrap_err();
    assert_eq!(error.message(), "invalid request header name: invalid HTTP header name");
    let plain = RequestBuilder::new(Method::get(), "http://example.com/").unwrap();
    assert_eq!(plain.deadline(at(0), &config).unwrap(), at(2));
    let endless = plain.timeout(Duration { nanos: u128::MAX });
    assert_eq!(endless.deadline(at(0), &config).unwrap_err().message(), "request timeout overflow");
    let error = endless.header_str("ok", "bad\nvalue").unwrap_err();
    assert_eq!(error.message(), "invalid request header value: failed to parse header value");
    let typed = RequestBuilder::new(Method::post(), "http://example.com/")
        .unwrap()
        .header_str("content-type", "application/x")
        .unwrap()
        .json(b"1".to_vec());
    assert_eq!(typed.headers.get_all(&name("content-type")), vec![b"application/x".to_vec()]);
    let form = RequestBuilder::new(Method::post(), "http://example.com/")
        .unwrap()
        .multipart(MultipartForm::with_boundary("b"));
    assert!(form.body.is_replayable());
    assert!(!form.reader(3).body.is_replayable());
}

#[test]
fn statuses_methods_and_failures_are_told_apart() {
    for status in [301, 302, 303, 307, 308] {
        assert!(is_redirect(status));
    }
    for status in [200, 300, 304, 305, 306, 309, 404] {
        assert!(!is_redirect(status));
    }
    for method in ["GET", "HEAD", "PUT", "DELETE", "OPTIONS", "TRACE"] {
        assert!(method_is_idempotent(&Method::named(method)));
    }
    for method in ["POST", "PATCH", "CONNECT", "get"] {
        assert!(!method_is_idempotent(&Method::named(method)));
    }
    assert!(stale_connection_error(&Error::new(ErrorKind::UnexpectedEof, "x")));
    assert!(!stale_connection_error(&Error::new(ErrorKind::TimedOut, "x")));
}

#[test]
fn only_framed_persistent_responses_free_their_connection() {
    let get = Method::get();
    let none = Headers::new();
    let sized = fields(&[("Content-Length", "3")]);
    let reusable = |method: &Method, status, version, own: &Headers, theirs: &Headers| {
        response_is_reusable(method, status, version, own, theirs)
    };
    assert!(reusable(&get, 200, Version::Http11, &none, &sized));
    assert!(!reusable(&get, 200, Version::Http11, &none, &none));
    assert!(reusable(&get, 204, Version::Http11, &none, &none));
    assert!(reusable(&Method::head(), 200, Version::Http11, &none, &none));
    assert!(!reusable(&get, 101, Version::Http11, &none, &sized));
    assert!(!reusable(&Method::named("CONNECT"), 200, Version::Http11, &none, &sized));
    let close = fields(&[("Content-Length", "3"), ("Connection", "keep-alive, Close")]);
    assert!(!reusable(&get, 200, Version::Http11, &none, &close));
    assert!(!reusable(&get, 200, Version::Http11, &fields(&[("connection", "close")]), &sized));
    assert!(!reusable(&get, 200, Version::Http10, &none, &sized));
    let kept = fields(&[("Content-Length", "3"), ("Connection", "Keep-Alive")]);
    assert!(reusable(&get, 200, Version::Http10, &none, &kept));
    let chunked = fields(&[("Transfer-Encoding", "gzip , Chunked")]);
    assert!(reusable(&get, 200, Version::Http11, &none, &chunked));
    assert!(header_has_token(&chunked, &FieldName::transfer_encoding(), "chunked"));
    assert!(!header_has_token(&chunked, &FieldName::transfer_encoding(), "chunk"));
}

fn redirecting(status: u16, location: &str) -> BufferedResponse {
    BufferedResponse {
        status,
        version: Version::Http11,
        headers: fields(&[("Location", location)]),
        body: Vec::new(),
        final_url: url("http://example.com/start"),
    }
}

fn started(method: &str, body: RequestBody) -> RedirectState {
    let headers = fields(&[
        ("Authorization", "secret"),
        ("Content-Type", "text/plain"),
        ("X-Plain", "p"),
    ]);
    RedirectState::new(Method::named(method), url("http://example.com/start"), headers, body)
}

const SAME: RedirectPolicy = RedirectPolicy::SameOrigin { max_hops: 2 };
const CROSS: RedirectPolicy = RedirectPolicy::CrossOrigin {
    max_hops: 2,
    allow_https_downgrade: false,
};

#[test]
fn a_relative_redirect_is_followed_within_the_origin() {
    let mut stats = ClientStats::default();
    let mut state = started("GET", RequestBody::Empty);
    let sensitive = vec![FieldName::authorization()];
    let step = state.advance(redirecting(302, "next?a=1"), SAME, &sensitive, &mut stats).unwrap();
    assert!(matches!(step, RedirectStep::Follow { status: 302, .. }));
    assert_eq!(state.url.text, "http://example.com/next?a=1");
    assert!(state.headers.contains_key(&name("authorization")));
    assert_eq!((state.hops, stats.redirects_followed), (1, 1));
    // Back to the start is a loop, and another origin is refused.
    let error = state.advance(redirecting(302, "/start#x"), SAME, &sensitive, &mut stats);
    assert_eq!(error.unwrap_err().message(), "HTTP redirect loop detected");
    let error = state.advance(redirecting(302, "http://other/"), SAME, &sensitive, &mut stats);
    assert_eq!(error.unwrap_err().message(), "cross-origin redirect rejected by policy");
    state.advance(redirecting(302, "/last"), SAME, &sensitive, &mut stats).unwrap();
    let error = state.advance(redirecting(302, "/more"), SAME, &sensitive, &mut stats);
    assert_eq!(error.unwrap_err().message(), "HTTP redirect hop limit exceeded");
}

#[test]
fn credentials_do_not_leave_the_origin() {
    let mut stats = ClientStats::default();
    let mut state = started("GET", RequestBody::Empty);
    let sensitive = vec![FieldName::authorization()];
    state
        .advance(redirecting(302, "https://other.example/x"), CROSS, &sensitive, &mut stats)
        .unwrap();
    assert!(!state.headers.contains_key(&name("authorization")));
    assert!(state.headers.contains_key(&name("x-plain")));
    let error = state.advance(redirecting(302, "http://other.example/"), CROSS, &sensitive, &mut stats);
    assert_eq!(error.unwrap_err().message(), "HTTPS-to-HTTP redirect rejected by policy");
    let error = state.advance(redirecting(302, "https://u:p@x/"), CROSS, &sensitive, &mut stats);
    assert_eq!(error.unwrap_err().message(), "redirect target must not contain URL credentials");
    let error = state.advance(redirecting(302, "ftp://x/"), CROSS, &sensitive, &mut stats);
    assert_eq!(error.unwrap_err().message(), "redirect target scheme must be http or https");
    let error = state.advance(redirecting(302, "http://[x"), CROSS, &sensitive, &mut stats);
    assert!(error.unwrap_err().message().starts_with("invalid redirect target: "));
}

#[test]
fn statuses_decide_what_a_redirect_keeps() {
    let mut stats = ClientStats::default();
    let none: Vec<FieldName> = Vec::new();
    let mut post = started("POST", RequestBody::Bytes(b"x".to_vec()));
    post.advance(redirecting(303, "/seen"), SAME, &none, &mut stats).unwrap();
    assert_eq!(post.method.as_str(), "GET");
    assert!(post.body.is_empty());
    assert!(!post.headers.contains_key(&name("content-type")));

    let mut head = started("HEAD", RequestBody::Empty);
    head.advance(redirecting(303, "/seen"), SAME, &none, &mut stats).unwrap();
    assert_eq!(head.method.as_str(), "HEAD");

    let mut kept = started("POST", RequestBody::Bytes(b"x".to_vec()));
    kept.advance(redirecting(307, "/again"), SAME, &none, &mut stats).unwrap();
    assert_eq!(kept.method.as_str(), "POST");
    assert!(!kept.body.is_empty());

    let mut moved = started("POST", RequestBody::Bytes(b"x".to_vec()));
    let step = moved.advance(redirecting(301, "/moved"), SAME, &none, &mut stats).unwrap();
    assert!(matches!(step, RedirectStep::Answer(answer) if answer.status == 301));

    let reader = RequestBody::Reader { available: false, content_length: 1 };
    let mut streamed = started("POST", reader);
    let error = streamed.advance(redirecting(308, "/again"), SAME, &none, &mut stats).unwrap_err();
    assert_eq!(ClientErrorKind::classify(&error), ClientErrorKind::BodyNotReplayable);

    let mut off = started("GET", RequestBody::Empty);
    let step = off.advance(redirecting(302, "/x"), RedirectPolicy::Disabled, &none, &mut stats);
    assert!(matches!(step.unwrap(), RedirectStep::Answer(_)));
    let mut bad = started("GET", RequestBody::Empty);
    let error = bad.advance(redirecting(302, "/\u{e9}"), SAME, &none, &mut stats).unwrap_err();
    assert_eq!(
        error.message(),
        "invalid redirect Location header: failed to convert header to a str"
    );
}

#[test]
fn a_request_is_put_on_a_leased_connection() {
    let mut pool = Pool::new();
    let mut stats = ClientStats::default();
    let config = settings(RedirectPolicy::Disabled);
    let mut lease = leased(&mut pool, &mut stats, "http://example.com:8080/");
    let mut body = RequestBody::Bytes(b"abc".to_vec());
    let target = url("http://example.com:8080/p?q=1");
    let own = fields(&[("X-A", "1")]);
    let step = send_on_lease(
        &mut lease, &Method::post(), &target, &own, &mut body, at(10), at(4), &config,
    )
    .unwrap();
    assert!(matches!(step.sent, Sent::Complete));
    assert_eq!(step.timeout.nanos, Duration::from_secs(6).nanos);
    assert_eq!(
        sent_text(&mut lease),
        "POST /p?q=1 HTTP/1.1\r\nUser-Agent: may_minihttp\r\nAccept: */*\r\n\
         host: example.com:8080\r\nx-a: 1\r\nContent-Length: 3\r\n\r\nabc"
    );
    let error = send_on_lease(
        &mut lease,
        &Method::post(),
        &target,
        &fields(&[("Host", "x")]),
        &mut body,
        at(10),
        at(4),
        &config,
    )
    .unwrap_err();
    assert_eq!(
        error.message(),
        "Host is derived from the request URL and cannot be overridden"
    );
    let error = send_on_lease(
        &mut lease, &Method::post(), &target, &own, &mut body, at(3), at(4), &config,
    )
    .unwrap_err();
    assert_eq!(error.message(), "HTTP request deadline exceeded");
}

#[test]
fn a_streamed_body_is_sent_once_and_in_full() {
    let mut pool = Pool::new();
    let mut stats = ClientStats::default();
    let config = settings(RedirectPolicy::Disabled);
    let mut lease = leased(&mut pool, &mut stats, "http://example.com/");
    let target = url("http://example.com/up");
    let none = Headers::new();
    let mut body = RequestBody::Reader { available: true, content_length: 5 };
    let step = send_on_lease(
        &mut lease, &Method::post(), &target, &none, &mut body, at(10), at(0), &config,
    )
    .unwrap();
    let Sent::Body(mut upload) = step.sent else { panic!("a body is to be read") };
    assert_eq!(upload.wants(), 5);
    upload.piece(client(&mut lease), b"abc").unwrap();
    assert_eq!(upload.wants(), 2);
    let error = upload.piece(client(&mut lease), b"").unwrap_err();
    assert_eq!(error.message(), "request body ended before its declared length");
    upload.piece(client(&mut lease), b"de").unwrap();
    assert_eq!(upload.wants(), 0);
    upload.finish(client(&mut lease)).unwrap();
    assert!(sent_text(&mut lease).ends_with("Content-Length: 5\r\n\r\nabcde"));

    let error = send_on_lease(
        &mut lease, &Method::post(), &target, &none, &mut body, at(10), at(0), &config,
    )
    .unwrap_err();
    assert_eq!(ClientErrorKind::classify(&error), ClientErrorKind::BodyNotReplayable);
}

#[test]
fn a_stale_connection_is_replaced_once_for_get() {
    let (mut pool, mut stats) = (Pool::new(), ClientStats::default());
    let target = url("http://example.com/");
    let (_, mut attempts) = begin_attempts(&Method::get(), &target, &RequestBody::Empty, 0).unwrap();
    let gone = || Error::new(ErrorKind::ConnectionReset, "x");
    let mut lease = leased(&mut pool, &mut stats, "http://example.com/");
    lease.reused_idle_connection = true;
    let first = attempts.fail(lease, gone(), &mut pool, &mut stats, at(10), at(1));
    assert!(first.stale && first.next.is_ok());
    assert_eq!(first.fate, Fate::Discarded);
    let mut lease = leased(&mut pool, &mut stats, "http://example.com/");
    lease.reused_idle_connection = true;
    let second = attempts.fail(lease, gone(), &mut pool, &mut stats, at(10), at(1));
    assert!(!second.stale && second.next.is_err());
    assert_eq!((stats.stale_retries, stats.connections_discarded, pool.total()), (1, 2, 0));
}

#[test]
fn a_post_or_a_fresh_connection_is_not_retried() {
    let (mut pool, mut stats) = (Pool::new(), ClientStats::default());
    let target = url("http://example.com/");
    let gone = || Error::new(ErrorKind::BrokenPipe, "x");
    let (_, mut post) = begin_attempts(&Method::post(), &target, &RequestBody::Empty, 0).unwrap();
    let mut lease = leased(&mut pool, &mut stats, "http://example.com/");
    lease.reused_idle_connection = true;
    let failed = post.fail(lease, gone(), &mut pool, &mut stats, at(10), at(1));
    assert_eq!(failed.next.unwrap_err().kind(), ErrorKind::BrokenPipe);
    let (_, mut get) = begin_attempts(&Method::get(), &target, &RequestBody::Empty, 0).unwrap();
    let lease = leased(&mut pool, &mut stats, "http://example.com/");
    assert!(get.fail(lease, gone(), &mut pool, &mut stats, at(10), at(1)).next.is_err());
    // The deadline ends a retry.
    let mut lease = leased(&mut pool, &mut stats, "http://example.com/");
    lease.reused_idle_connection = true;
    let late = get.fail(lease, gone(), &mut pool, &mut stats, at(10), at(11));
    assert!(late.stale);
    assert_eq!(late.next.unwrap_err().message(), "HTTP request deadline exceeded");
}

#[test]
fn a_body_is_collected_within_its_limit() {
    let (mut pool, mut stats) = (Pool::new(), ClientStats::default());
    let mut lease = leased(&mut pool, &mut stats, "http://example.com/");
    client(&mut lease).get(Uri::root()).unwrap();
    let mut response = answer(&mut lease, b"HTTP/1.1 200 OK\r\nContent-Length: 6\r\n\r\nabc");
    let mut collector = BodyCollector::new(8);
    let conn = &mut client(&mut lease).conn;
    assert_eq!(collector.step(&mut response, conn, at(9), at(0)).unwrap(), Collected::More);
    assert_eq!(collector.step(&mut response, conn, at(9), at(0)).unwrap(), Collected::Starved);
    let error = collector.step(&mut response, conn, at(9), at(10)).unwrap_err();
    assert_eq!(error.kind(), ErrorKind::TimedOut);
    conn.buffer.bump_read(b"def");
    assert_eq!(collector.step(&mut response, conn, at(9), at(0)).unwrap(), Collected::More);
    assert_eq!(collector.step(&mut response, conn, at(9), at(0)).unwrap(), Collected::Done);
    let target = url("http://example.com/");
    let (whole, reusable) = BufferedResponse::assemble(
        response,
        collector.bytes,
        &Method::get(),
        &target,
        &Headers::new(),
    );
    assert!(reusable);
    assert_eq!((whole.status(), whole.version(), whole.body()), (200, Version::Http11, &b"abcdef"[..]));
    assert_eq!(whole.headers().get(&name("content-length")).unwrap(), b"6");
    assert_eq!(whole.final_url().text, "http://example.com/");
    assert_eq!(whole.into_body(), b"abcdef");

    let mut lease = leased(&mut pool, &mut stats, "http://example.com/");
    let mut response = answer(&mut lease, b"HTTP/1.1 200 OK\r\nContent-Length: 6\r\n\r\nabcdef");
    let mut small = BodyCollector::new(5);
    let error = small
        .step(&mut response, &mut client(&mut lease).conn, at(9), at(0))
        .unwrap_err();
    assert_eq!(error.message(), "HTTP response body exceeds configured 5-byte limit");
    assert_eq!(ClientErrorKind::classify(&error), ClientErrorKind::BodyTooLarge);
}

fn trace() -> RequestTrace {
    RequestTrace { request_id: 1, started: at(0) }
}

fn opened(
    pool: &mut Pool,
    stats: &mut ClientStats,
    head: &[u8],
    reusable: bool,
) -> (StreamingResponse<()>, Option<Ending>) {
    let mut lease = leased(pool, stats, "http://example.com/");
    let response = answer(&mut lease, head);
    let (streaming, notice) = StreamingResponse::open(
        response,
        lease,
        reusable,
        at(50),
        Duration::from_secs(30),
        url("http://example.com/"),
        trace(),
        pool,
        stats,
        at(1),
        Duration::from_secs(900),
    );
    (streaming, notice.ending)
}

#[test]
fn a_streamed_response_returns_its_connection_at_the_end() {
    let (mut pool, mut stats) = (Pool::new(), ClientStats::default());
    let head = b"HTTP/1.1 200 OK\r\nContent-Length: 4\r\n\r\nabcd";
    let (mut streaming, ending) = opened(&mut pool, &mut stats, head, true);
    assert!(ending.is_none());
    assert_eq!((streaming.status(), streaming.version()), (200, Version::Http11));
    assert_eq!(streaming.final_url().text, "http://example.com/");
    let life = Duration::from_secs(900);
    let (bytes, notice) = streaming.read(3, &mut pool, &mut stats, at(2), life);
    assert_eq!(bytes.unwrap(), b"abc");
    assert!(notice.ending.is_none() && notice.fate == Fate::Kept);
    let (bytes, notice) = streaming.read(3, &mut pool, &mut stats, at(2), life);
    assert_eq!(bytes.unwrap(), b"d");
    assert_eq!((notice.ending, notice.fate), (Some(Ending::Completed), Fate::Returned));
    let (bytes, notice) = streaming.read(3, &mut pool, &mut stats, at(2), life);
    assert!(bytes.unwrap().is_empty() && notice.ending.is_none());
    assert!(streaming.abandon(&mut pool, &mut stats).ending.is_none());
    let key = OriginKey::from_url(&url("http://example.com/"), 0).unwrap();
    assert_eq!((pool.total(), pool.idle_count(&key)), (1, 1));
}

#[test]
fn a_dropped_response_gives_its_connection_up() {
    let (mut pool, mut stats) = (Pool::new(), ClientStats::default());
    let head = b"HTTP/1.1 200 OK\r\nContent-Length: 4\r\n\r\nab";
    let (mut streaming, _) = opened(&mut pool, &mut stats, head, true);
    let life = Duration::from_secs(900);
    let (bytes, _) = streaming.read(9, &mut pool, &mut stats, at(2), life);
    assert_eq!(bytes.unwrap(), b"ab");
    let (bytes, notice) = streaming.read(9, &mut pool, &mut stats, at(2), life);
    assert_eq!(bytes.unwrap_err().kind(), ErrorKind::WouldBlock);
    assert!(notice.ending.is_none());
    let notice = streaming.abandon(&mut pool, &mut stats);
    assert_eq!((notice.ending, notice.fate), (Some(Ending::Abandoned), Fate::Discarded));
    assert_eq!((pool.total(), stats.connections_discarded), (0, 1));
    assert!(streaming.abandon(&mut pool, &mut stats).ending.is_none());
}

#[test]
fn a_failed_read_is_told_once() {
    let (mut pool, mut stats) = (Pool::new(), ClientStats::default());
    let head = b"HTTP/1.1 200 OK\r\nTransfer-Encoding: chunked\r\n\r\nzz\r\n";
    let (mut streaming, _) = opened(&mut pool, &mut stats, head, true);
    let life = Duration::from_secs(900);
    let (bytes, notice) = streaming.read(9, &mut pool, &mut stats, at(2), life);
    assert!(bytes.is_err());
    assert_eq!(notice.ending, Some(Ending::Failed(ClientErrorKind::InvalidRequest)));
    assert_eq!(pool.total(), 0);
    let notice = streaming.fail(&Error::cancelled(), &mut pool, &mut stats);
    assert!(notice.ending.is_none());

    let head = b"HTTP/1.1 200 OK\r\nContent-Length: 4\r\n\r\n";
    let (mut late, _) = opened(&mut pool, &mut stats, head, true);
    let (bytes, notice) = late.read(9, &mut pool, &mut stats, at(51), life);
    assert_eq!(bytes.unwrap_err().kind(), ErrorKind::TimedOut);
    assert_eq!(notice.ending, Some(Ending::Failed(ClientErrorKind::Timeout)));
    let (mut stopped, _) = opened(&mut pool, &mut stats, head, true);
    let notice = stopped.fail(&Error::cancelled(), &mut pool, &mut stats);
    assert_eq!(notice.ending, Some(Ending::Cancelled));
    assert_eq!(pool.total(), 0);
}

#[test]
fn a_response_without_a_body_is_complete_at_once() {
    let (mut pool, mut stats) = (Pool::new(), ClientStats::default());
    let head = b"HTTP/1.1 200 OK\r\nContent-Length: 0\r\n\r\n";
    let (streaming, ending) = opened(&mut pool, &mut stats, head, false);
    assert_eq!(ending, Some(Ending::Completed));
    assert!(streaming.lease.is_none());
    assert_eq!((pool.total(), stats.connections_discarded), (0, 1));
}

#[test]
fn request_targets_are_in_origin_form() {
    assert_eq!(origin_form(&url("http://example.com")).unwrap().text, "/");
    assert_eq!(origin_form(&url("http://example.com/a b?c=d e")).unwrap().text, "/a%20b?c=d%20e");
}

#[test]
fn an_attempt_answers_repeats_or_fails() {
    let (mut pool, mut stats) = (Pool::new(), ClientStats::default());
    let target = url("http://example.com/");
    let life = Duration::from_secs(900);
    let none = Headers::new();
    let (key, mut attempts) =
        begin_attempts(&Method::get(), &target, &RequestBody::Empty, 0).unwrap();
    let mut lease = leased(&mut pool, &mut stats, "http://example.com/");
    lease.reused_idle_connection = true;
    let gone = Err(Error::new(ErrorKind::UnexpectedEof, "x"));
    let end = attempts.finish(
        lease, gone, &Method::get(), &target, &none, &mut pool, &mut stats, at(9), at(1), life,
    );
    assert!(matches!(end.step, AttemptStep::Again) && end.stale);

    let mut lease = leased(&mut pool, &mut stats, "http://example.com/");
    let response = answer(&mut lease, b"HTTP/1.1 200 OK\r\nContent-Length: 0\r\n\r\n");
    let end = attempts.finish(
        lease,
        Ok((response, b"".to_vec())),
        &Method::get(),
        &target,
        &none,
        &mut pool,
        &mut stats,
        at(9),
        at(1),
        life,
    );
    assert!(matches!(end.step, AttemptStep::Answer(answer) if answer.status == 200));
    assert_eq!((end.fate, pool.idle_count(&key), pool.total()), (Fate::Returned, 1, 1));

    let lease = leased(&mut pool, &mut stats, "http://other.example/");
    let slow = Err(Error::new(ErrorKind::TimedOut, "slow"));
    let end = attempts.finish(
        lease, slow, &Method::get(), &target, &none, &mut pool, &mut stats, at(9), at(1), life,
    );
    assert!(matches!(end.step, AttemptStep::Failed(error) if error.message() == "slow"));
    assert_eq!((end.fate, pool.total()), (Fate::Discarded, 1));
}

#[test]
fn a_body_that_ends_with_the_connection_completes_its_response() {
    let (mut pool, mut stats) = (Pool::new(), ClientStats::default());
    let (mut streaming, ending) = opened(&mut pool, &mut stats, b"HTTP/1.1 200 OK\r\n\r\nab", false);
    assert!(ending.is_none());
    let life = Duration::from_secs(900);
    let (bytes, notice) = streaming.read(9, &mut pool, &mut stats, at(2), life);
    assert_eq!(bytes.unwrap(), b"ab");
    assert!(notice.ending.is_none());
    client(streaming.lease.as_mut().unwrap()).conn.buffer.bump_read(b"");
    let (bytes, notice) = streaming.read(9, &mut pool, &mut stats, at(2), life);
    assert!(bytes.unwrap().is_empty());
    assert_eq!((notice.ending, notice.fate), (Some(Ending::Completed), Fate::Discarded));
    assert!(streaming.lease.is_none());
    assert_eq!(pool.total(), 0);
    let notice = streaming.abandon(&mut pool, &mut stats);
    assert_eq!((notice.ending, notice.fate), (None, Fate::Kept));
}

#[test]
fn a_request_to_close_ends_every_connection() {
    let kept = fields(&[("Connection", "keep-alive"), ("Content-Length", "0")]);
    let close = fields(&[("Connection", "close")]);
    let (none, get) = (Headers::new(), Method::get());
    for version in [Version::Http10, Version::Http11] {
        assert!(response_is_reusable(&get, 200, version, &none, &kept));
        assert!(!response_is_reusable(&get, 200, version, &close, &kept));
        let both = fields(&[("Connection", "keep-alive, close"), ("Content-Length", "0")]);
        assert!(!response_is_reusable(&get, 200, version, &none, &both));
    }
}

#[test]
fn fields_of_the_transport_are_not_sent() {
    let mut pool = Pool::new();
    let mut stats = ClientStats::default();
    let config = settings(RedirectPolicy::Disabled);
    let mut lease = leased(&mut pool, &mut stats, "http://example.com/");
    let target = url("http://example.com/");
    for (field, text) in [("Host", "x"), ("Content-Length", "3"), ("Transfer-Encoding", "chunked")] {
        let own = fields(&[("X-A", "1"), (field, text)]);
        let mut body = RequestBody::Bytes(b"abc".to_vec());
        let error = send_on_lease(
            &mut lease, &Method::post(), &target, &own, &mut body, at(10), at(4), &config,
        )
        .unwrap_err();
        assert_eq!(error.kind(), ErrorKind::InvalidInput);
        assert_eq!(sent_text(&mut lease), "");
    }
}

#[test]
fn a_consumed_body_or_a_refused_form_puts_nothing_on_the_wire() {
    let mut pool = Pool::new();
    let mut stats = ClientStats::default();
    let config = settings(RedirectPolicy::Disabled);
    let mut lease = leased(&mut pool, &mut stats, "http://example.com/");
    let target = url("http://example.com/");
    let none = Headers::new();
    let refused = MultipartForm::with_boundary("b").text("a\nb", "v");
    for mut body in [
        RequestBody::Reader { available: false, content_length: 5 },
        RequestBody::Multipart(refused),
    ] {
        assert!(send_on_lease(
            &mut lease, &Method::post(), &target, &none, &mut body, at(10), at(4), &config,
        )
        .is_err());
        assert_eq!(sent_text(&mut lease), "");
    }
}

#[test]
fn a_connection_with_a_pending_response_is_not_returned() {
    let (mut pool, mut stats) = (Pool::new(), ClientStats::default());
    let target = url("http://example.com/");
    let (_, mut attempts) =
        begin_attempts(&Method::get(), &target, &RequestBody::Empty, 0).unwrap();
    let mut lease = leased(&mut pool, &mut stats, "http://example.com/");
    let response = answer(&mut lease, b"HTTP/1.1 200 OK\r\nContent-Length: 3\r\n\r\nab");
    assert!(client(&mut lease).conn.response_pending);
    let end = attempts.finish(
        lease,
        Ok((response, b"ab".to_vec())),
        &Method::get(),
        &target,
        &Headers::new(),
        &mut pool,
        &mut stats,
        at(9),
        at(1),
        Duration::from_secs(900),
    );
    assert_eq!((end.fate, pool.total()), (Fate::Discarded, 0));
}

#[test]
fn the_largest_limit_collects_a_body() {
    let (mut pool, mut stats) = (Pool::new(), ClientStats::default());
    let mut lease = leased(&mut pool, &mut stats, "http://example.com/");
    let mut response = answer(&mut lease, b"HTTP/1.1 200 OK\r\nContent-Length: 3\r\n\r\nabc");
    let mut collector = BodyCollector::new(usize::MAX);
    let conn = &mut client(&mut lease).conn;
    assert_eq!(collector.step(&mut response, conn, at(9), at(0)).unwrap(), Collected::More);
    assert_eq!(collector.step(&mut response, conn, at(9), at(0)).unwrap(), Collected::Done);
    assert_eq!(collector.bytes, b"abc");
}

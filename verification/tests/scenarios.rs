//! Whole requests over peers that answer from a script.

use std::collections::VecDeque;

use may_minihttp::builder::ClientConfigValues;
use may_minihttp::buffer::is_starved;
use may_minihttp::checkout::CheckoutStep;
use may_minihttp::exchange::{begin_attempts, send_on_lease, AttemptStep, BodyCollector, Collected, Sent};
use may_minihttp::headers::{FieldName, FieldValue, Headers};
use may_minihttp::http_client::{Dial, DialStep};
use may_minihttp::message::Method;
use may_minihttp::metadata::{MetadataLimits, MetadataState};
use may_minihttp::observer::{connection_discarded, connection_reused, observed_url, RequestTrace};
use may_minihttp::policy::{response_is_reusable, stale_connection_error};
use may_minihttp::pool::{Fate, PoolLease, PoolState};
use may_minihttp::redirect::{RedirectState, RedirectStep};
use may_minihttp::resolver::{
    Resolution, ResolutionSource, ServiceResolver, ServiceResolverConfig, SocketAddr,
};
use may_minihttp::streaming::{Ending, Notice};
use may_minihttp::time::{Duration, Instant};
use may_minihttp::uri::Uri;
use may_minihttp::url::{same_origin, OriginKey};
use may_minihttp::{
    BufferedResponse, ClientBuilder, ClientErrorKind, ClientEvent, ClientStats, Error, ErrorKind,
    HttpClient, RedirectPolicy, RequestBuilder, RequestMetadata, Response, StreamingResponse,
};

const PORT: u16 = 8080;
const NOW: Instant = Instant { nanos: 1_000_000_000_000 };
const LIMITS: MetadataLimits = MetadataLimits { max_fields: 64, max_bytes: 8192 };

type Lease = PoolLease<HttpClient<usize>>;

/// A client whose connections lead to scripted peers. A peer answers each request with its next
/// reply and hangs up when it has none left.
struct World {
    config: ClientConfigValues,
    pool: PoolState<HttpClient<usize>>,
    stats: ClientStats,
    services: Option<ServiceResolver>,
    lookup: Duration,
    refusing: Vec<SocketAddr>,
    peers: Vec<VecDeque<String>>,
    opened: usize,
    arriving: VecDeque<Vec<u8>>,
    requests: Vec<String>,
    events: Vec<String>,
    next_request_id: u64,
}

fn told(event: &ClientEvent) -> String {
    match event {
        ClientEvent::RequestStarted { request_id, method, origin } => format!(
            "start:{request_id}:{}:{}://{}:{}",
            method.as_str(),
            origin.scheme,
            origin.host,
            origin.port
        ),
        ClientEvent::DnsCompleted { request_id, address_count, source, error, .. } => {
            format!("dns:{request_id}:{address_count}:{source:?}:{error:?}")
        }
        ClientEvent::ConnectionCompleted { request_id, tls, error, .. } => {
            format!("connect:{request_id}:{tls}:{error:?}")
        }
        ClientEvent::ConnectionReused { request_id, .. } => format!("reuse:{request_id}"),
        ClientEvent::ConnectionDiscarded { request_id, .. } => format!("discard:{request_id}"),
        ClientEvent::ResponseHeaders { request_id, status, .. } => {
            format!("headers:{request_id}:{status}")
        }
        ClientEvent::RedirectFollowed { request_id, status, .. } => {
            format!("redirect:{request_id}:{status}")
        }
        ClientEvent::StaleConnectionRetried { request_id, .. } => format!("retry:{request_id}"),
        ClientEvent::RequestCompleted { request_id, status, .. } => {
            format!("complete:{request_id}:{status}")
        }
        ClientEvent::RequestFailed { request_id, error, .. } => {
            format!("failed:{request_id}:{error:?}")
        }
        ClientEvent::RequestAbandoned { request_id, status, .. } => {
            format!("abandoned:{request_id}:{status}")
        }
        ClientEvent::PoolWaited { request_id, timed_out, .. } => {
            format!("wait:{request_id}:{timed_out}")
        }
        other => format!("{other:?}"),
    }
}

impl World {
    fn new(builder: ClientBuilder, peers: &[&[&str]]) -> Self {
        World {
            config: builder.build().unwrap(),
            pool: PoolState::new(),
            stats: ClientStats::default(),
            services: None,
            lookup: Duration::from_secs(0),
            refusing: Vec::new(),
            peers: peers
                .iter()
                .map(|replies| replies.iter().map(|reply| reply.to_string()).collect())
                .collect(),
            opened: 0,
            arriving: VecDeque::new(),
            requests: Vec::new(),
            events: Vec::new(),
            next_request_id: 1,
        }
    }

    fn execute(&mut self, request: RequestBuilder, body: &[u8]) -> Result<BufferedResponse, Error> {
        let trace = RequestTrace { request_id: self.next_request_id, started: NOW };
        self.next_request_id += 1;
        self.events.push(told(&trace.request_started(&request.method, &request.url)));
        let result = self.execute_buffered(request, body, &trace);
        let outcome = result.as_ref().map(|response| response.status);
        self.events.push(told(&trace.request_ended(outcome, NOW)));
        result
    }

    fn execute_buffered(
        &mut self,
        request: RequestBuilder,
        body: &[u8],
        trace: &RequestTrace,
    ) -> Result<BufferedResponse, Error> {
        let deadline = request.deadline(NOW, &self.config)?;
        let mut state = request.start();
        let mut metadata = MetadataState::new(&self.config.sensitive_headers);
        loop {
            let response = self.execute_once(&mut state, &mut metadata, body, deadline, trace)?;
            let policy = self.config.redirect_policy;
            match state.advance(response, policy, &metadata.sensitive, &mut self.stats)? {
                RedirectStep::Answer(response) => return Ok(response),
                RedirectStep::Follow { status, from } => {
                    metadata.redirected(same_origin(&from, &state.url));
                    self.events.push(told(&trace.redirect_followed(status, &from, &state.url)));
                }
            }
        }
    }

    fn execute_once(
        &mut self,
        state: &mut RedirectState,
        metadata: &mut MetadataState,
        body: &[u8],
        deadline: Instant,
        trace: &RequestTrace,
    ) -> Result<BufferedResponse, Error> {
        let (key, mut attempts) = begin_attempts(&state.method, &state.url, &state.body, 0)?;
        loop {
            let origin = observed_url(&state.url);
            metadata.next_attempt(trace.request_id, &state.method, origin, state.hops, false);
            let provided = RequestMetadata::new();
            let headers = metadata.merge(&Headers::new(), &provided, &state.headers, LIMITS)?;
            let mut lease = self.checkout(&key, deadline, trace)?;
            let outcome = self.exchange(&mut lease, state, &headers, body, deadline, trace);
            let end = attempts.finish(
                lease,
                outcome,
                &state.method,
                &state.url,
                &headers,
                &mut self.pool,
                &mut self.stats,
                deadline,
                NOW,
                self.config.max_connection_lifetime,
            );
            if end.stale {
                self.events.push(told(&trace.stale_connection_retried(&state.url)));
            }
            if end.fate == Fate::Discarded {
                self.events.push(told(&connection_discarded(&key, trace.request_id)));
            }
            match end.step {
                AttemptStep::Answer(response) => return Ok(response),
                AttemptStep::Again => {}
                AttemptStep::Failed(error) => return Err(error),
            }
        }
    }

    fn checkout(
        &mut self,
        key: &OriginKey,
        deadline: Instant,
        trace: &RequestTrace,
    ) -> Result<Lease, Error> {
        let id = trace.request_id;
        match self.pool.checkout(key, id, deadline, NOW, &self.config, &mut self.stats)? {
            CheckoutStep::Reuse(lease) => {
                self.events.push(told(&connection_reused(key, id)));
                Ok(lease)
            }
            CheckoutStep::Wait(_) => panic!("the pool is full"),
            CheckoutStep::Resolve { lease, connect_deadline } => {
                let found = match &mut self.services {
                    Some(services) => services.resolve_with_metadata(&key.host, key.port),
                    None => Ok(Resolution {
                        addresses: vec![local(1, key.port)],
                        source: ResolutionSource::Resolver,
                    }),
                };
                let found_at = Instant { nanos: NOW.nanos + self.lookup.nanos };
                self.events.push(told(&trace.dns_completed(key, NOW, found_at, &found)));
                let step = self.pool.checkout_resolved(
                    lease,
                    found,
                    connect_deadline,
                    found_at,
                    &mut self.stats,
                )?;
                let client = self.dial(step.addresses, connect_deadline, &step.url);
                let failed = client.as_ref().err();
                self.events.push(told(&trace.connection_completed(key, NOW, NOW, failed)));
                self.pool.checkout_connected(step.lease, client, NOW, &mut self.stats)
            }
        }
    }

    fn dial(
        &mut self,
        addresses: Vec<SocketAddr>,
        deadline: Instant,
        url: &str,
    ) -> Result<HttpClient<usize>, Error> {
        let mut dial = Dial::new(addresses, deadline);
        loop {
            match dial.step(NOW) {
                DialStep::Failed(error) | DialStep::GiveUp(error) => return Err(error),
                DialStep::Try { address, .. } if self.refusing.contains(&address) => {
                    dial.failed(Error::new(ErrorKind::ConnectionRefused, "connection refused"));
                }
                DialStep::Try { .. } => {
                    assert!(self.opened < self.peers.len(), "no peer accepts this connection");
                    let client = HttpClient::from_uri(&Uri::parse(url).unwrap(), self.opened)?;
                    self.opened += 1;
                    return Ok(client);
                }
            }
        }
    }

    fn exchange(
        &mut self,
        lease: &mut Lease,
        state: &mut RedirectState,
        headers: &Headers,
        body: &[u8],
        deadline: Instant,
        trace: &RequestTrace,
    ) -> Result<(Response, Vec<u8>), Error> {
        let mut response = self.receive_head(lease, state, headers, body, deadline, trace)?;
        let client = &mut lease.connection.as_mut().unwrap().client;
        let mut collector = BodyCollector::new(self.config.max_response_body);
        loop {
            match collector.step(&mut response, &mut client.conn, deadline, NOW)? {
                Collected::Done => return Ok((response, collector.bytes)),
                Collected::More => {}
                Collected::Starved => {
                    client.conn.buffer.bump_read(&self.arriving.pop_front().unwrap_or_default());
                }
            }
        }
    }

    /// Send a request and wait for the head of its response.
    fn receive_head(
        &mut self,
        lease: &mut Lease,
        state: &mut RedirectState,
        headers: &Headers,
        body: &[u8],
        deadline: Instant,
        trace: &RequestTrace,
    ) -> Result<Response, Error> {
        let step = send_on_lease(
            lease,
            &state.method,
            &state.url,
            headers,
            &mut state.body,
            deadline,
            NOW,
            &self.config,
        )?;
        let client = &mut lease.connection.as_mut().unwrap().client;
        if let Sent::Body(mut upload) = step.sent {
            let mut rest = body;
            while upload.wants() > 0 {
                let (piece, more) = rest.split_at(upload.wants().min(3).min(rest.len()));
                rest = more;
                upload.piece(client, piece)?;
            }
            upload.finish(client)?;
        }
        client.conn.buffer.flush();
        let sent = client.conn.buffer.take_writes().concat();
        self.requests.push(String::from_utf8(sent).unwrap());
        let reply = self.peers[client.transport].pop_front().unwrap_or_default();
        // The bytes arrive in small pieces, and an answer without bytes is a closed connection.
        self.arriving = reply.as_bytes().chunks(7).map(|piece| piece.to_vec()).collect();
        let response = loop {
            match client.get_rsp()? {
                Some(response) => break response,
                None => {
                    client.conn.buffer.bump_read(&self.arriving.pop_front().unwrap_or_default());
                }
            }
        };
        self.events.push(told(&trace.response_headers(&state.url, response.status, NOW)));
        Ok(response)
    }

    fn stream(&mut self, request: RequestBuilder) -> Result<StreamingResponse<usize>, Error> {
        let trace = RequestTrace { request_id: self.next_request_id, started: NOW };
        self.next_request_id += 1;
        self.events.push(told(&trace.request_started(&request.method, &request.url)));
        let deadline = request.deadline(NOW, &self.config)?;
        let mut state = request.start();
        let (key, _) = begin_attempts(&state.method, &state.url, &state.body, 0)?;
        let headers = state.headers.clone();
        let mut lease = self.checkout(&key, deadline, &trace)?;
        let response =
            self.receive_head(&mut lease, &mut state, &headers, b"", deadline, &trace)?;
        let reusable = response_is_reusable(
            &state.method,
            response.status,
            response.version,
            &headers,
            &response.headers,
        );
        let (streaming, notice) = StreamingResponse::open(
            response,
            lease,
            reusable,
            deadline,
            self.config.io_timeout,
            state.url,
            trace,
            &mut self.pool,
            &mut self.stats,
            NOW,
            self.config.max_connection_lifetime,
        );
        self.tell(&streaming, notice);
        Ok(streaming)
    }

    fn tell(&mut self, streaming: &StreamingResponse<usize>, notice: Notice) {
        let (id, status) = (streaming.trace.request_id, streaming.status());
        if notice.fate == Fate::Discarded {
            self.events.push(format!("discard:{id}"));
        }
        match notice.ending {
            None => {}
            Some(Ending::Completed) => {
                self.events.push(told(&streaming.trace.request_completed(status, NOW)));
            }
            Some(Ending::Abandoned) => {
                self.events.push(told(&streaming.trace.request_abandoned(status, NOW)));
            }
            Some(other) => panic!("the stream ended: {other:?}"),
        }
    }

    fn read_exact(&mut self, streaming: &mut StreamingResponse<usize>, count: usize) -> Vec<u8> {
        let mut body = Vec::new();
        while body.len() < count {
            let (result, notice) = streaming.read(
                count - body.len(),
                &mut self.pool,
                &mut self.stats,
                NOW,
                self.config.max_connection_lifetime,
            );
            self.tell(streaming, notice);
            match result {
                Ok(bytes) => {
                    assert!(!bytes.is_empty(), "the stream ended early");
                    body.extend_from_slice(&bytes);
                }
                Err(error) => {
                    assert!(is_starved(&error));
                    let lease = streaming.lease.as_mut().unwrap();
                    let client = &mut lease.connection.as_mut().unwrap().client;
                    client.conn.buffer.bump_read(&self.arriving.pop_front().unwrap_or_default());
                }
            }
        }
        body
    }

    fn abandon(&mut self, mut streaming: StreamingResponse<usize>) {
        let notice = streaming.abandon(&mut self.pool, &mut self.stats);
        self.tell(&streaming, notice);
    }

    fn happened(&self, event: &str) -> bool {
        self.events.iter().any(|told| told == event)
    }
}

/// An address of the local network.
fn local(last: u32, port: u16) -> SocketAddr {
    SocketAddr::V4 { ip: 0x7f00_0000 + last, port }
}

fn builder(policy: RedirectPolicy) -> ClientBuilder {
    ClientBuilder::new().redirect_policy(policy).request_timeout(Duration::from_secs(2))
}

fn get(path: &str) -> RequestBuilder {
    RequestBuilder::new(Method::get(), &format!("http://127.0.0.1:{PORT}/{path}")).unwrap()
}

fn post(path: &str) -> RequestBuilder {
    RequestBuilder::new(Method::post(), &format!("http://127.0.0.1:{PORT}/{path}")).unwrap()
}

fn with(request: RequestBuilder, name: &str, value: &str) -> RequestBuilder {
    request.header(
        &FieldName::from_bytes(name.as_bytes()).unwrap(),
        &FieldValue::from_bytes(value.as_bytes()).unwrap(),
    )
}

const OK: &str = "HTTP/1.1 200 OK\r\nContent-Length: 2\r\n\r\nok";
const OK_CLOSE: &str = "HTTP/1.1 200 OK\r\nContent-Length: 2\r\nConnection: close\r\n\r\nok";

#[test]
fn fully_consumed_responses_reuse_the_connection() {
    let mut world = World::new(builder(RedirectPolicy::Disabled), &[&[OK, OK]]);
    for path in ["one", "two"] {
        let response = world.execute(get(path), b"").unwrap();
        assert_eq!(response.body(), b"ok");
    }
    for (request, expected) in world.requests.iter().zip(["/one", "/two"]) {
        assert!(request.starts_with(&format!("GET {expected} HTTP/1.1\r\n")));
    }
    assert_eq!(world.stats.connections_created, 1);
    assert_eq!(world.stats.connections_reused, 1);
}

#[test]
fn observer_records_sanitized_new_and_reused_request_lifecycles() {
    let mut world = World::new(ClientBuilder::new(), &[&[OK, OK]]);
    for path in ["one?token=do-not-observe", "two"] {
        let request = with(get(path), "authorization", "Bearer secret");
        assert_eq!(world.execute(request, b"").unwrap().body(), b"ok");
    }
    assert_eq!(world.events[0], format!("start:1:GET:http://127.0.0.1:{PORT}"));
    assert!(world.happened("dns:1:1:Some(Resolver):None"));
    assert!(world.happened("connect:1:false:None"));
    assert!(world.happened("complete:1:200"));
    assert!(world.happened("reuse:2"));
    assert!(world.happened("complete:2:200"));
    let joined = world.events.join("|");
    assert!(!joined.contains("do-not-observe"));
    assert!(!joined.contains("Bearer"));
    assert!(!joined.contains("secret"));
}

#[test]
fn stale_idle_connection_is_replaced_once_for_get() {
    let fresh = "HTTP/1.1 200 OK\r\nContent-Length: 5\r\nConnection: close\r\n\r\nfresh";
    let mut world = World::new(builder(RedirectPolicy::Disabled), &[&[OK], &[fresh]]);
    assert_eq!(world.execute(get("first"), b"").unwrap().body(), b"ok");
    assert_eq!(world.execute(get("second"), b"").unwrap().body(), b"fresh");
    assert!(world.requests[0].starts_with("GET /first HTTP/1.1\r\n"));
    assert!(world.requests[2].starts_with("GET /second HTTP/1.1\r\n"));
    assert_eq!(world.stats.stale_retries, 1);
    assert!(world.happened("retry:2"));
    assert_eq!(world.pool.total(), 0);
}

#[test]
fn stale_idle_connection_does_not_retry_post() {
    let mut world = World::new(builder(RedirectPolicy::Disabled), &[&[OK]]);
    world.execute(get("prime"), b"").unwrap();
    let error = world
        .execute(post("must-not-retry").body(b"side effect".to_vec()), b"")
        .unwrap_err();
    assert!(stale_connection_error(&error));
    assert_eq!(world.opened, 1, "POST unexpectedly opened a retry connection");
    assert_eq!(world.pool.total(), 0);
}

#[test]
fn redirects_are_disabled_by_default() {
    let moved = "HTTP/1.1 302 Found\r\nLocation: /final\r\nContent-Length: 0\r\n\
                 Connection: close\r\n\r\n";
    let mut world = World::new(builder(RedirectPolicy::default()), &[&[moved]]);
    let response = world.execute(get("start"), b"").unwrap();
    assert!(world.requests[0].starts_with("GET /start HTTP/1.1\r\n"));
    assert_eq!(response.status(), 302);
}

#[test]
fn same_origin_redirect_resolves_relative_location() {
    let moved = "HTTP/1.1 302 Found\r\nLocation: /final\r\nContent-Length: 0\r\n\r\n";
    let done = "HTTP/1.1 200 OK\r\nContent-Length: 5\r\nConnection: close\r\n\r\ndone!";
    let policy = RedirectPolicy::SameOrigin { max_hops: 3 };
    let mut world = World::new(builder(policy), &[&[moved, done]]);
    let response = world.execute(get("start"), b"").unwrap();
    assert!(world.requests[0].starts_with("GET /start HTTP/1.1\r\n"));
    assert!(world.requests[1].starts_with("GET /final HTTP/1.1\r\n"));
    assert_eq!(response.body(), b"done!");
    assert_eq!(response.final_url().path, "/final");
    let redirect = world.events.iter().position(|event| event == "redirect:1:302").unwrap();
    let completed = world.events.iter().position(|event| event == "complete:1:200").unwrap();
    assert!(redirect < completed);
}

#[test]
fn temporary_redirect_replays_buffered_post_body() {
    let moved =
        "HTTP/1.1 307 Temporary Redirect\r\nLocation: /final\r\nContent-Length: 0\r\n\r\n";
    let policy = RedirectPolicy::SameOrigin { max_hops: 2 };
    let mut world = World::new(builder(policy), &[&[moved, OK_CLOSE]]);
    let response = world.execute(post("start").body(b"data".to_vec()), b"").unwrap();
    assert_eq!(response.body(), b"ok");
    for (request, path) in world.requests.iter().zip(["/start", "/final"]) {
        assert!(request.starts_with(&format!("POST {path} HTTP/1.1\r\n")));
        assert!(request.to_ascii_lowercase().contains("content-length: 4\r\n"));
        assert!(request.ends_with("\r\n\r\ndata"));
    }
}

#[test]
fn streaming_reader_is_sent_once_and_rejected_for_replay_redirect() {
    let moved = "HTTP/1.1 307 Temporary Redirect\r\nLocation: /again\r\nContent-Length: 0\r\n\
                 Connection: close\r\n\r\n";
    let policy = RedirectPolicy::SameOrigin { max_hops: 2 };
    let mut world = World::new(builder(policy), &[&[moved]]);
    let error = world.execute(post("start").reader(4), b"data").unwrap_err();
    assert_eq!(ClientErrorKind::classify(&error), ClientErrorKind::BodyNotReplayable);
    assert_eq!(world.requests.len(), 1);
    assert!(world.requests[0].starts_with("POST /start HTTP/1.1\r\n"));
    assert!(world.requests[0].to_ascii_lowercase().contains("content-length: 4\r\n"));
    assert!(world.requests[0].ends_with("\r\n\r\ndata"));
}

#[test]
fn cross_origin_redirect_strips_credentials() {
    let moved = "HTTP/1.1 302 Found\r\nLocation: http://127.0.0.1:9090/final\r\n\
                 Content-Length: 0\r\nConnection: close\r\n\r\n";
    let policy = RedirectPolicy::CrossOrigin { max_hops: 3, allow_https_downgrade: false };
    let settings =
        builder(policy).sensitive_header(FieldName::from_bytes(b"x-secret").unwrap());
    let mut world = World::new(settings, &[&[moved], &[OK_CLOSE]]);
    let request = with(get("start"), "authorization", "Bearer secret");
    let request = with(request, "cookie", "session=secret");
    let request = with(request, "x-secret", "hidden");
    let response = world.execute(request, b"").unwrap();
    assert_eq!(response.body(), b"ok");
    assert!(world.requests[0].contains("\r\nauthorization: Bearer secret\r\n"));
    let redirected = world.requests[1].to_ascii_lowercase();
    assert!(!redirected.contains("\r\nauthorization:"));
    assert!(!redirected.contains("\r\ncookie:"));
    assert!(!redirected.contains("\r\nx-secret:"));
    assert!(redirected.contains("\r\nhost: 127.0.0.1:9090\r\n"));
}

fn at_host(host: &str, path: &str) -> RequestBuilder {
    RequestBuilder::new(Method::get(), &format!("http://{host}:{PORT}/{path}")).unwrap()
}

#[test]
fn injected_resolver_controls_connection_addresses() {
    let mut world = World::new(ClientBuilder::new(), &[&[OK_CLOSE]]);
    let response = world.execute(at_host("service.invalid", ""), b"").unwrap();
    assert!(world.requests[0].to_ascii_lowercase().contains("\r\nhost: service.invalid:"));
    assert_eq!(response.body(), b"ok");
}

#[test]
fn service_resolver_preserves_logical_host_and_reports_source() {
    let mut world = World::new(ClientBuilder::new(), &[&[OK_CLOSE]]);
    let mut services = ServiceResolver::new(ServiceResolverConfig::default()).unwrap();
    let (unavailable, address) = (local(2, PORT), local(1, PORT));
    services.update("identity.internal", PORT, vec![unavailable, address]).unwrap();
    world.services = Some(services);
    world.refusing = vec![unavailable];
    let response = world.execute(at_host("identity.internal", "health"), b"").unwrap();
    assert!(world.requests[0].to_ascii_lowercase().contains("\r\nhost: identity.internal:"));
    assert_eq!(response.body(), b"ok");
    assert!(world.happened("dns:1:2:Some(ServiceRegistry):None"));
}

#[test]
fn resolver_time_counts_against_connect_deadline() {
    let settings = ClientBuilder::new().connect_timeout(Duration { nanos: 5_000_000 });
    let mut world = World::new(settings, &[]);
    world.lookup = Duration { nanos: 30_000_000 };
    let request = RequestBuilder::new(Method::get(), "http://slow.invalid/").unwrap();
    let error = world.execute(request, b"").unwrap_err();
    assert_eq!(error.kind(), ErrorKind::TimedOut);
    assert_eq!((world.opened, world.pool.total()), (0, 0));
}

#[test]
fn observer_records_connection_failure_once() {
    let mut world = World::new(ClientBuilder::new(), &[]);
    world.refusing = vec![local(1, PORT)];
    let error = world.execute(at_host("service.invalid", ""), b"").unwrap_err();
    assert_eq!(error.kind(), ErrorKind::ConnectionRefused);
    assert!(world.happened("connect:1:false:Some(Connection)"));
    let failed = world.events.iter().filter(|event| *event == "failed:1:Connection");
    assert_eq!(failed.count(), 1);
    assert_eq!(world.pool.total(), 0);
}

#[test]
fn fully_consumed_streaming_response_reuses_the_connection() {
    let data = "HTTP/1.1 200 OK\r\nContent-Length: 4\r\n\r\ndata";
    let mut world = World::new(builder(RedirectPolicy::Disabled), &[&[data, data]]);
    let mut response = world.stream(get("stream")).unwrap();
    assert_eq!(response.status(), 200);
    assert_eq!(world.read_exact(&mut response, 4), b"data");
    world.abandon(response);
    assert_eq!(world.execute(get("after-stream"), b"").unwrap().body(), b"data");
    for (request, expected) in world.requests.iter().zip(["/stream", "/after-stream"]) {
        assert!(request.starts_with(&format!("GET {expected} HTTP/1.1\r\n")));
    }
    assert_eq!(world.stats.connections_created, 1);
    assert_eq!(world.stats.connections_reused, 1);
}

#[test]
fn partial_streaming_response_drop_discards_connection_without_drain() {
    let partial = "HTTP/1.1 200 OK\r\nContent-Length: 10\r\n\r\nabcdefghij";
    let mut world = World::new(builder(RedirectPolicy::Disabled), &[&[partial], &[OK_CLOSE]]);
    let mut response = world.stream(get("partial")).unwrap();
    assert_eq!(world.read_exact(&mut response, 2), b"ab");
    world.abandon(response);
    assert_eq!(world.execute(get("replacement"), b"").unwrap().body(), b"ok");
    assert!(world.requests[0].starts_with("GET /partial HTTP/1.1\r\n"));
    assert!(world.requests[1].starts_with("GET /replacement HTTP/1.1\r\n"));
    assert_eq!(world.stats.connections_created, 2);
    // One is the partial response, the other the explicit close of the replacement.
    assert_eq!(world.stats.connections_discarded, 2);
}

#[test]
fn observer_marks_partial_streaming_response_abandoned() {
    let data = "HTTP/1.1 200 OK\r\nContent-Length: 4\r\n\r\ndata";
    let mut world = World::new(ClientBuilder::new(), &[&[data]]);
    let mut response = world.stream(get("stream")).unwrap();
    assert_eq!(world.read_exact(&mut response, 1), b"d");
    world.abandon(response);
    assert!(world.happened("discard:1"));
    assert!(world.happened("abandoned:1:200"));
}

fn one_connection() -> ClientBuilder {
    ClientBuilder::new()
        .max_connections(1)
        .max_connections_per_origin(1)
        .request_timeout(Duration::from_secs(2))
}

#[test]
fn pool_capacity_waits_without_opening_a_second_connection() {
    let mut world = World::new(one_connection(), &[&[OK, OK]]);
    let mut first = world.stream(get("one")).unwrap();
    // While the first request holds the connection, the second has to wait for it.
    let request = get("two");
    let deadline = request.deadline(NOW, &world.config).unwrap();
    let key = OriginKey::from_url(&request.url, 0).unwrap();
    let waiting = RequestTrace { request_id: 2, started: NOW };
    let step = world.pool.checkout(&key, 2, deadline, NOW, &world.config, &mut world.stats);
    assert!(matches!(step.unwrap(), CheckoutStep::Wait(span) if span.nanos > 0));
    world.events.push(told(&waiting.pool_waited(&key, NOW, NOW, false)));
    assert_eq!(world.read_exact(&mut first, 2), b"ok");
    assert_eq!(world.execute(request, b"").unwrap().body(), b"ok");
    assert!(world.events.iter().any(|event| event.starts_with("wait:")));
    assert_eq!((world.opened, world.pool.total()), (1, 1));
}

#[test]
fn cancelled_request_releases_pool_capacity() {
    let mut world = World::new(one_connection(), &[&[], &[OK_CLOSE]]);
    let blocked = get("blocked");
    let deadline = blocked.deadline(NOW, &world.config).unwrap();
    let trace = RequestTrace { request_id: 1, started: NOW };
    let key = OriginKey::from_url(&blocked.url, 0).unwrap();
    let lease = world.checkout(&key, deadline, &trace).unwrap();
    assert_eq!(world.pool.total(), 1);
    // The request ends while it waits for its response, and gives its lease up.
    assert!(lease.release(&mut world.pool, &mut world.stats));
    assert_eq!(world.pool.total(), 0);
    let response = world.execute(get("after-cancel"), b"").unwrap();
    assert!(world.requests[0].starts_with("GET /after-cancel HTTP/1.1\r\n"));
    assert_eq!(response.body(), b"ok");
}

//! One request and its response on a leased connection.

use vstd::prelude::*;
use vstd::string::*;
use vstd::utf8::encode_utf8;

use crate::body::body_reader::{
    body_read, lemma_freed_at_the_boundary, lemma_starved_read_changes_nothing, ReadView,
};
use crate::body::body_writer::closing_bytes;
use crate::body::BodyWriter;
use crate::buffer::{all_written, starved, BufferView};
use crate::builder::ClientConfigValues;
use crate::error::{failure, Error, ErrorKind, ErrorView};
use crate::headers::{
    all_entries, valid_value, with_all_appended, with_inserted, FieldValue, Headers,
    MAX_HEADER_NAMES,
};
use crate::http_client::{ended, host_fields, HttpClient};
use crate::message::{Method, Version};
use crate::metadata::{check_request_fields, request_failure};
use crate::multipart::{encoding, measured};
use crate::policy::{
    bodyless, bodyless_failure, idempotent, method_is_idempotent, response_is_reusable,
    reusable_after, stale_connection_error, stale_kind, validate_body_method, RequestBody,
};
use crate::pool::{discarded, settled, Fate, PoolLease, PoolState};
use crate::request::{
    head_text, lemma_form_fits_its_declared_length, lemma_sized_pieces, media_type_failure,
    piece_written, pieces_written, short_write, Request, RequestHead, Written,
};
use crate::response::Response;
use crate::shared::{response_pending_failure, SharedStream};
use crate::stats::{count, counted, ClientStats};
use crate::text::{decimal, decimal_text};
use crate::time::{deadline_failure, remaining, Duration, Instant};
use crate::uri::{uri_parsed, Uri, UriView};
use crate::url::{origin_form, origin_of, target_of, target_text, OriginKey, OriginView, Url};

verus! {

/// The head of a request on a connection: the Host field of the connection, then the fields of the
/// request.
pub open spec fn exchange_head(
    host: Option<FieldValue>,
    method: Seq<char>,
    target: UriView,
    headers: Seq<(Seq<char>, Seq<Seq<u8>>)>,
    size: Option<usize>,
) -> RequestHead {
    RequestHead {
        method,
        target: target.text,
        host: target.host,
        version: Version::Http11,
        headers: with_all_appended(host_fields(host), all_entries(headers)),
        size,
    }
}

/// A request body that is still to be read and sent.
#[derive(Debug)]
pub struct Upload {
    request: Request,
    remaining: usize,
}

/// How far a request was written.
#[derive(Debug)]
pub enum Sent {
    /// The request is complete: its response can be awaited.
    Complete,
    /// The body has to be read and sent piece by piece.
    Body(Upload),
}

/// The refusal of a body that was read before.
pub open spec fn consumed_failure() -> ErrorView {
    failure(
        ErrorKind::InvalidInput,
        "request body is not replayable and was already consumed"@,
    )
}

/// The failure of a body that ended early.
pub open spec fn short_body_failure() -> ErrorView {
    failure(
        ErrorKind::UnexpectedEof,
        "request body ended before its declared length"@,
    )
}

/// What writing a request on a connection does.
pub open spec fn exchanged<T>(
    before: HttpClient<T>,
    after: HttpClient<T>,
    method: Seq<char>,
    target: UriView,
    headers: Seq<(Seq<char>, Seq<Seq<u8>>)>,
    body: RequestBody,
    body_after: RequestBody,
    r: Result<Sent, Error>,
) -> bool {
    let out = before.conn.buffer@.output();
    let fresh = Written { writer: BodyWriter::InvalidWriter, out };
    let plain = exchange_head(before.host_header, method, target, headers, None);
    &&& after.wf()
    &&& after.transport == before.transport
    &&& after.host_header == before.host_header
    &&& after.max_response_header_bytes == before.max_response_header_bytes
    &&& after.conn.response_pending == before.conn.response_pending
    &&& after.conn.buffer@.input == before.conn.buffer@.input
    &&& after.conn.buffer@.closed == before.conn.buffer@.closed
    &&& if before.conn.response_pending {
        &&& r is Err
        &&& r->Err_0@ == response_pending_failure()
        &&& after == before
        &&& body_after == body
    } else {
        match body {
            RequestBody::Empty => {
                &&& r matches Ok(Sent::Complete)
                &&& after.conn.buffer@.output() == ended(plain, fresh)
                &&& after.expect_body == (method != "HEAD"@)
                &&& after.conn.buffer@.buffered.len() == 0
                &&& body_after == body
            },
            RequestBody::Bytes(bytes) => {
                let head = RequestHead { size: Some(bytes@.len() as usize), ..plain };
                &&& r matches Ok(Sent::Complete)
                &&& after.conn.buffer@.output() == out + encode_utf8(head_text(head)) + bytes@
                &&& after.expect_body == (method != "HEAD"@)
                &&& after.conn.buffer@.buffered.len() == 0
                &&& body_after == body
            },
            RequestBody::Multipart(form) => {
                let media_type = encode_utf8("multipart/form-data; boundary="@ + form@.boundary);
                let typed = RequestHead {
                    headers: with_inserted(plain.headers, "content-type"@, media_type),
                    ..plain
                };
                &&& body_after == body
                &&& if !valid_value(media_type) {
                    &&& r is Err
                    &&& r->Err_0@ == media_type_failure()
                    &&& after == before
                } else {
                    match measured(form@) {
                        Err(e) => {
                            &&& r is Err
                            &&& r->Err_0@ == e
                            &&& after == before
                        },
                        Ok(length) => {
                            let head = RequestHead { size: Some(length as usize), ..typed };
                            &&& r matches Ok(Sent::Complete)
                            &&& after.conn.buffer@.output() == out + encode_utf8(head_text(head))
                                + encoding(form@)
                            &&& after.expect_body == (method != "HEAD"@)
                            &&& after.conn.buffer@.buffered.len() == 0
                        },
                    }
                }
            },
            RequestBody::Reader { available, content_length } => {
                &&& body_after == (RequestBody::Reader { available: false, content_length })
                &&& if available {
                    &&& r matches Ok(Sent::Body(upload)) && upload.head() == (RequestHead {
                        size: Some(content_length),
                        ..plain
                    }) && upload.rest() == content_length && upload.writer()
                        == BodyWriter::InvalidWriter && upload.expects_body() == (method
                        != "HEAD"@)
                    &&& after == before
                } else {
                    &&& r is Err
                    &&& r->Err_0@ == consumed_failure()
                    &&& after == before
                }
            },
        }
    }
}

/// The number of bytes of a body to read next, of those that are still owed.
pub open spec fn upload_step(rest: nat) -> nat {
    if rest < 8192 {
        rest
    } else {
        8192
    }
}

impl Upload {
    /// How the rest of the body is written.
    pub closed spec fn writer(&self) -> BodyWriter {
        self.request.writer()
    }

    /// What the head is made of.
    pub closed spec fn head(&self) -> RequestHead {
        self.request.head()
    }

    pub closed spec fn expects_body(&self) -> bool {
        self.request.expects_body()
    }

    /// The number of bytes that are still owed.
    pub closed spec fn rest(&self) -> nat {
        self.remaining as nat
    }

    /// The number of bytes to read next.
    pub fn wants(&self) -> (r: usize)
        ensures
            r == upload_step(self.rest()),
            r == (if self.rest() < 8192 {
                self.rest()
            } else {
                8192nat
            }),
    {
        if self.remaining < 8192 {
            self.remaining
        } else {
            8192
        }
    }

    /// Send a piece of the body. An empty piece means that the reader has ended too early.
    pub fn piece<T>(&mut self, client: &mut HttpClient<T>, bytes: &[u8]) -> (r: Result<(), Error>)
        requires
            old(client).wf(),
            bytes@.len() <= old(self).rest(),
        ensures
            final(client).wf(),
            final(client).transport == old(client).transport,
            final(client).host_header == old(client).host_header,
            final(client).max_response_header_bytes == old(client).max_response_header_bytes,
            final(client).conn.response_pending == old(client).conn.response_pending,
            final(client).conn.buffer@.input == old(client).conn.buffer@.input,
            final(client).conn.buffer@.closed == old(client).conn.buffer@.closed,
            final(client).expect_body == old(client).expect_body,
            final(self).head() == old(self).head(),
            final(self).expects_body() == old(self).expects_body(),
            if bytes@.len() == 0 {
                &&& r is Err
                &&& r->Err_0@ == short_body_failure()
                &&& *final(self) == *old(self)
                &&& *final(client) == *old(client)
            } else {
                let before = Written {
                    writer: old(self).writer(),
                    out: old(client).conn.buffer@.output(),
                };
                let (after, accepted) = piece_written(old(self).head(), before, bytes@);
                &&& final(self).writer() == after.writer
                &&& final(client).conn.buffer@.output() == after.out
                &&& match r {
                    Ok(_) => accepted && final(self).rest() == old(self).rest() - bytes@.len(),
                    Err(e) => !accepted && e@ == short_write() && final(self).rest() == old(
                        self,
                    ).rest(),
                }
            },
    {
        if bytes.len() == 0 {
            return Err(
                Error::new(
                    ErrorKind::UnexpectedEof,
                    "request body ended before its declared length",
                ),
            );
        }
        match self.request.write_all(&mut client.conn.buffer, bytes) {
            Ok(_) => {
                self.remaining = self.remaining - bytes.len();
                Ok(())
            },
            Err(e) => Err(e),
        }
    }

    /// End the request once its body was sent, and expect its response.
    pub fn finish<T>(self, client: &mut HttpClient<T>) -> (r: Result<(), Error>)
        requires
            old(client).wf(),
        ensures
            final(client).wf(),
            final(client).transport == old(client).transport,
            final(client).host_header == old(client).host_header,
            final(client).max_response_header_bytes == old(client).max_response_header_bytes,
            final(client).conn.response_pending == old(client).conn.response_pending,
            final(client).conn.buffer@.input == old(client).conn.buffer@.input,
            final(client).conn.buffer@.closed == old(client).conn.buffer@.closed,
            if old(client).conn.response_pending {
                &&& r is Err
                &&& r->Err_0@ == response_pending_failure()
                &&& *final(client) == *old(client)
            } else {
                &&& r is Ok
                &&& final(client).expect_body == self.expects_body()
                &&& final(client).conn.buffer@.buffered.len() == 0
                &&& final(client).conn.buffer@.output() == ended(
                    self.head(),
                    (Written { writer: self.writer(), out: old(client).conn.buffer@.output() }),
                )
            },
    {
        client.send_request(self.request)
    }
}

/// Write a request for an accepted target on a connection.
pub fn write_exchange<T>(
    client: &mut HttpClient<T>,
    method: &Method,
    target: Uri,
    headers: &Headers,
    body: &mut RequestBody,
) -> (r: Result<Sent, Error>)
    requires
        old(client).wf(),
        headers@.len() + 2 < MAX_HEADER_NAMES,
        !bodyless(method@) || *old(body) is Empty,
    ensures
        exchanged(
            *old(client),
            *final(client),
            method@,
            target@,
            headers@,
            *old(body),
            *final(body),
            r,
        ),
{
    match client.conn.ensure_request_ready() {
        Ok(_) => {},
        Err(e) => {
            return Err(e);
        },
    }
    let mut request = client.new_request(method.clone(), target);
    request.headers.append_all(headers);
    let ghost plain = request.head();
    let ghost out = client.conn.buffer@.output();
    proof {
        assert(closing_bytes(BodyWriter::SizedWriter(0)) =~= Seq::<u8>::empty());
    }
    match body {
        RequestBody::Empty => {
            match client.send_request(request) {
                Ok(_) => Ok(Sent::Complete),
                Err(e) => Err(e),
            }
        },
        RequestBody::Bytes(bytes) => {
            proof {
                assert(bytes@.len() == bytes.len());
            }
            let sent = request.send(&mut client.conn.buffer, bytes.as_slice());
            let ghost head = request.head();
            match sent {
                Ok(_) => {
                    let r = client.send_request(request);
                    proof {
                        assert(client.conn.buffer@.output() =~= out + encode_utf8(head_text(head))
                            + bytes@);
                    }
                    match r {
                        Ok(_) => Ok(Sent::Complete),
                        Err(e) => Err(e),
                    }
                },
                Err(e) => Err(e),
            }
        },
        RequestBody::Multipart(form) => {
            let sent = request.send_multipart(&mut client.conn.buffer, form);
            let ghost head = request.head();
            proof {
                if measured(form@) is Ok && valid_value(
                    encode_utf8("multipart/form-data; boundary="@ + form@.boundary),
                ) {
                    lemma_form_fits_its_declared_length(head, out, form@);
                }
            }
            match sent {
                Ok(_) => {
                    let r = client.send_request(request);
                    proof {
                        assert(client.conn.buffer@.output() =~= out + encode_utf8(head_text(head))
                            + encoding(form@));
                    }
                    match r {
                        Ok(_) => Ok(Sent::Complete),
                        Err(e) => Err(e),
                    }
                },
                Err(e) => Err(e),
            }
        },
        RequestBody::Reader { available, content_length } => {
            if *available {
                *available = false;
                let len: usize = *content_length;
                request.set_content_length(len);
                Ok(Sent::Body(Upload { request, remaining: len }))
            } else {
                Err(
                    Error::new(
                        ErrorKind::InvalidInput,
                        "request body is not replayable and was already consumed",
                    ),
                )
            }
        },
    }
}

/// The refusal of a Host field of the caller's own.
pub open spec fn host_override_failure() -> ErrorView {
    failure(
        ErrorKind::InvalidInput,
        "Host is derived from the request URL and cannot be overridden"@,
    )
}

/// Pieces that together have the declared length of a body are accepted one after the other, and
/// ending the request behind them puts exactly its head and the body on the wire.
pub proof fn lemma_upload_is_sent_whole(head: RequestHead, out: Seq<u8>, pieces: Seq<Seq<u8>>)
    requires
        head.method != "GET"@,
        head.method != "HEAD"@,
        all_written(pieces).len() <= usize::MAX,
        head.size == Some(all_written(pieces).len() as usize),
    ensures
        ({
            let fresh = Written { writer: BodyWriter::InvalidWriter, out };
            let (after, accepted) = pieces_written(head, fresh, pieces);
            &&& accepted
            &&& ended(head, after) == out + encode_utf8(head_text(head)) + all_written(pieces)
        }),
{
    let body = all_written(pieces);
    let fresh = Written { writer: BodyWriter::InvalidWriter, out };
    lemma_sized_pieces(head, fresh, pieces, body.len());
    assert(closing_bytes(BodyWriter::SizedWriter(0)) =~= Seq::<u8>::empty());
    let (after, _) = pieces_written(head, fresh, pieces);
    assert(ended(head, after) =~= out + encode_utf8(head_text(head)) + body);
}

/// A request that was put on a leased connection, and how long to wait for its peer.
#[derive(Debug)]
pub struct SendStep {
    pub sent: Sent,
    pub timeout: Duration,
}

/// Why a request may not be sent, if it may not.
pub open spec fn unsendable(
    headers: Seq<(Seq<char>, Seq<Seq<u8>>)>,
    method: Seq<char>,
    body: RequestBody,
    deadline: Instant,
    now: Instant,
) -> Option<ErrorView> {
    if request_failure(headers) is Some {
        request_failure(headers)
    } else if bodyless(method) && !(body is Empty) {
        Some(bodyless_failure())
    } else if now.nanos > deadline.nanos {
        Some(deadline_failure())
    } else {
        None
    }
}

/// Check that a request may be sent, and say how long to wait for its peer.
pub fn check_sendable(
    headers: &Headers,
    method: &Method,
    body: &RequestBody,
    deadline: Instant,
    now: Instant,
    config: &ClientConfigValues,
) -> (r: Result<Duration, Error>)
    ensures
        match r {
            Ok(_) => unsendable(headers@, method@, *body, deadline, now) is None,
            Err(e) => unsendable(headers@, method@, *body, deadline, now) == Some(e@),
        },
        if request_failure(headers@) is Some {
            r is Err && r->Err_0@ == request_failure(headers@)->0
        } else if bodyless(method@) && !(*body is Empty) {
            r is Err && r->Err_0@ == bodyless_failure()
        } else if now.nanos > deadline.nanos {
            r is Err && r->Err_0@ == deadline_failure()
        } else {
            r matches Ok(timeout) && timeout == config.io_timeout.least(deadline.since(now))
        },
{
    match check_request_fields(headers) {
        Ok(_) => {},
        Err(e) => {
            return Err(e);
        },
    }
    match validate_body_method(method, body) {
        Ok(_) => {},
        Err(e) => {
            return Err(e);
        },
    }
    match remaining(deadline, now) {
        Ok(left) => Ok(config.io_timeout.min(left)),
        Err(e) => Err(e),
    }
}

/// Put a request on a leased connection.
pub fn send_on_lease<T>(
    lease: &mut PoolLease<HttpClient<T>>,
    method: &Method,
    url: &Url,
    headers: &Headers,
    body: &mut RequestBody,
    deadline: Instant,
    now: Instant,
    config: &ClientConfigValues,
) -> (r: Result<SendStep, Error>)
    requires
        old(lease).connection is Some,
        old(lease).connection->0.client.wf(),
        headers@.len() + 2 < MAX_HEADER_NAMES,
    ensures
        final(lease).key == old(lease).key,
        final(lease).request_id == old(lease).request_id,
        final(lease).accounted == old(lease).accounted,
        final(lease).reused_idle_connection == old(lease).reused_idle_connection,
        final(lease).connection is Some,
        final(lease).connection->0.created == old(lease).connection->0.created,
        final(lease).connection->0.idle_since == old(lease).connection->0.idle_since,
        final(lease).connection->0.client.wf(),
        ({
            let before = old(lease).connection->0.client;
            let after = final(lease).connection->0.client;
            let limited = HttpClient {
                max_response_header_bytes: config.max_response_header_bytes,
                ..before
            };
            if request_failure(headers@) is Some {
                &&& r is Err
                &&& r->Err_0@ == request_failure(headers@)->0
                &&& after == before
                &&& *final(body) == *old(body)
            } else if bodyless(method@) && !(*old(body) is Empty) {
                &&& r is Err
                &&& r->Err_0@ == bodyless_failure()
                &&& after == before
                &&& *final(body) == *old(body)
            } else if now.nanos > deadline.nanos {
                &&& r is Err
                &&& r->Err_0@ == deadline_failure()
                &&& after == before
                &&& *final(body) == *old(body)
            } else {
                match target_of(uri_parsed(target_text(url@))) {
                    Err(e) => {
                        &&& r is Err
                        &&& r->Err_0@ == e
                        &&& after == limited
                        &&& *final(body) == *old(body)
                    },
                    Ok(target) => {
                        &&& exchanged(
                            limited,
                            after,
                            method@,
                            target,
                            headers@,
                            *old(body),
                            *final(body),
                            match r {
                                Ok(step) => Ok(step.sent),
                                Err(e) => Err(e),
                            },
                        )
                        &&& r matches Ok(step) ==> step.timeout == config.io_timeout.least(
                            deadline.since(now),
                        )
                    },
                }
            }
        }),
{
    let timeout = match check_sendable(headers, method, body, deadline, now, config) {
        Ok(timeout) => timeout,
        Err(e) => {
            return Err(e);
        },
    };
    match &mut lease.connection {
        Some(connection) => {
            connection.client.set_max_response_header_bytes(config.max_response_header_bytes);
            let target = match origin_form(url) {
                Ok(target) => target,
                Err(e) => {
                    return Err(e);
                },
            };
            match write_exchange(&mut connection.client, method, target, headers, body) {
                Ok(sent) => Ok(SendStep { sent, timeout }),
                Err(e) => Err(e),
            }
        },
        None => Err(Error::new(ErrorKind::NotConnected, "lease holds no connection")),
    }
}

/// A request may be repeated after an attempt that failed on a stale connection.
pub open spec fn repeatable(method: Seq<char>, body: RequestBody) -> bool {
    idempotent(method) && body.replayable()
}

/// The attempts at one request: whether another one may follow a stale connection.
#[derive(Debug)]
pub struct Attempts {
    pub stale_retry_available: bool,
}

/// Check a request and name the origin of its connection before the first attempt.
pub fn begin_attempts(
    method: &Method,
    url: &Url,
    body: &RequestBody,
    tls_profile: usize,
) -> (r: Result<(OriginKey, Attempts), Error>)
    ensures
        if bodyless(method@) && !(*body is Empty) {
            r is Err && r->Err_0@ == bodyless_failure()
        } else {
            match r {
                Ok((key, attempts)) => {
                    &&& origin_of(url@, tls_profile) == Ok::<OriginView, ErrorView>(key@)
                    &&& attempts.stale_retry_available == repeatable(method@, *body)
                    &&& attempts.stale_retry_available == (idempotent(method@)
                        && body.replayable())
                },
                Err(e) => origin_of(url@, tls_profile) == Err::<OriginView, ErrorView>(e@),
            }
        },
{
    match validate_body_method(method, body) {
        Ok(_) => {},
        Err(e) => {
            return Err(e);
        },
    }
    match OriginKey::from_url(url, tls_profile) {
        Ok(key) => {
            let stale_retry_available = method_is_idempotent(method) && body.is_replayable();
            Ok((key, Attempts { stale_retry_available }))
        },
        Err(e) => Err(e),
    }
}

/// A failed attempt may be repeated: it used an idle connection that had gone stale, and no other
/// attempt was repeated before.
pub open spec fn repeats(available: bool, reused_idle_connection: bool, error: ErrorView) -> bool {
    reused_idle_connection && available && stale_kind(error.kind)
}

/// What follows a failed attempt.
pub enum AfterFailure {
    /// Another attempt.
    Again,
    /// Another attempt would come too late.
    TooLate,
    /// The failure is that of the request.
    Fails,
}

/// What follows a failed attempt, for whether another one may follow.
pub open spec fn after_failure(
    available: bool,
    reused_idle_connection: bool,
    error: ErrorView,
    deadline: Instant,
    now: Instant,
) -> AfterFailure {
    if !repeats(available, reused_idle_connection, error) {
        AfterFailure::Fails
    } else if now.nanos > deadline.nanos {
        AfterFailure::TooLate
    } else {
        AfterFailure::Again
    }
}

impl Attempts {
    /// Whether a failed attempt is repeated on another connection.
    pub fn after_failure(
        &mut self,
        error: &Error,
        reused_idle_connection: bool,
        stats: &mut ClientStats,
    ) -> (retry: bool)
        ensures
            retry == repeats(old(self).stale_retry_available, reused_idle_connection, error@),
            final(self).stale_retry_available == (old(self).stale_retry_available && !retry),
            *final(stats) == (if retry {
                ClientStats { stale_retries: counted(old(stats).stale_retries), ..*old(stats) }
            } else {
                *old(stats)
            }),
    {
        if reused_idle_connection && self.stale_retry_available && stale_connection_error(error) {
            self.stale_retry_available = false;
            stats.stale_retries = count(stats.stale_retries);
            return true;
        }
        false
    }
}

/// What follows a failed attempt.
#[derive(Debug)]
pub struct FailedAttempt {
    /// The request goes on to another attempt, or fails.
    pub next: Result<(), Error>,
    /// The failure was taken for that of a stale connection.
    pub stale: bool,
    pub fate: Fate,
}

impl Attempts {
    /// An attempt failed: its connection is discarded, and the request is repeated where it may be
    /// and its deadline has not passed.
    pub fn fail<T>(
        &mut self,
        lease: PoolLease<HttpClient<T>>,
        error: Error,
        pool: &mut PoolState<HttpClient<T>>,
        stats: &mut ClientStats,
        deadline: Instant,
        now: Instant,
    ) -> (r: FailedAttempt)
        requires
            old(pool).wf(),
            lease.accounted,
            lease.held_in(old(pool)),
            lease.connection is Some,
        ensures
            final(pool).wf(),
            r.stale == repeats(
                old(self).stale_retry_available,
                lease.reused_idle_connection,
                error@,
            ),
            final(self).stale_retry_available == (old(self).stale_retry_available && !r.stale),
            match after_failure(
                old(self).stale_retry_available,
                lease.reused_idle_connection,
                error@,
                deadline,
                now,
            ) {
                AfterFailure::Again => r.next is Ok,
                AfterFailure::TooLate => r.next is Err && r.next->Err_0@ == deadline_failure(),
                AfterFailure::Fails => r.next == Err::<(), Error>(error),
            },
            (final(pool)@, *final(stats), r.fate) == discarded(
                old(pool)@,
                if r.stale {
                    ClientStats { stale_retries: counted(old(stats).stale_retries), ..*old(stats) }
                } else {
                    *old(stats)
                },
                Some(lease),
            ),
            if !r.stale {
                r.next == Err::<(), Error>(error)
            } else if now.nanos > deadline.nanos {
                r.next is Err && r.next->Err_0@ == deadline_failure()
            } else {
                r.next is Ok
            },
    {
        let stale = self.after_failure(&error, lease.reused_idle_connection, stats);
        let _discarded = lease.release(pool, stats);
        if !stale {
            return FailedAttempt { next: Err(error), stale, fate: Fate::Discarded };
        }
        let next = match remaining(deadline, now) {
            Ok(_) => Ok(()),
            Err(e) => Err(e),
        };
        FailedAttempt { next, stale, fate: Fate::Discarded }
    }
}

/// A request is repeated at most once, only on the failure of a reused connection, and only where
/// its method is idempotent and its body can be sent again.
pub proof fn lemma_at_most_one_retry(
    method: Seq<char>,
    body: RequestBody,
    first_reused: bool,
    first: ErrorView,
    second_reused: bool,
    second: ErrorView,
)
    ensures
        ({
            let available = idempotent(method) && body.replayable();
            let retried = repeats(available, first_reused, first);
            &&& retried ==> idempotent(method) && !(body is Reader) && first_reused && stale_kind(
                first.kind,
            )
            &&& retried ==> !repeats(available && !retried, second_reused, second)
        }),
{
}

/// A connection waits for a response only while the body of that response is incomplete.
pub open spec fn awaits_body(response: &Response, stream: &SharedStream) -> bool {
    stream.response_pending ==> !response.body.complete()
}

/// A response body as far as it was collected, within a limit.
#[derive(Debug)]
pub struct BodyCollector {
    pub bytes: Vec<u8>,
    pub limit: usize,
}

/// How far the collection of a body came.
#[derive(Debug, PartialEq, Eq, Structural)]
pub enum Collected {
    /// The body is complete.
    Done,
    /// Some of it was collected: go on.
    More,
    /// More bytes have to arrive.
    Starved,
}

/// The failure of a body over the limit.
pub open spec fn body_limit_failure(limit: nat) -> ErrorView {
    failure(
        ErrorKind::InvalidData,
        "HTTP response body exceeds configured "@ + decimal(limit) + "-byte limit"@,
    )
}

/// The number of bytes to read next: never more than one beyond the limit.
pub open spec fn read_allowance(limit: nat, held: nat) -> nat {
    let room = if held <= limit {
        (limit - held + 1) as nat
    } else {
        1
    };
    if room < 8192 {
        room
    } else {
        8192
    }
}

/// What one step of a collection comes to.
pub enum CollectView {
    /// The body is complete.
    Done,
    /// This much of the body was collected.
    More(Seq<u8>),
    /// More bytes have to arrive.
    Starved,
    /// The body is longer than the limit.
    TooLong,
    Failed(ErrorView),
}

/// What one step of a collection comes to, for what was collected before it and what was read.
pub open spec fn collect_step(held: Seq<u8>, limit: nat, step: ReadView) -> CollectView {
    match step.result {
        Err(e) => if e == starved() {
            CollectView::Starved
        } else {
            CollectView::Failed(e)
        },
        Ok(piece) => if piece.len() == 0 {
            CollectView::Done
        } else if held.len() + piece.len() > limit {
            CollectView::TooLong
        } else {
            CollectView::More(held + piece)
        },
    }
}

impl BodyCollector {
    pub fn new(limit: usize) -> (r: BodyCollector)
        ensures
            r.bytes@ == Seq::<u8>::empty(),
            r.limit == limit,
    {
        BodyCollector { bytes: Vec::new(), limit }
    }

    /// Collect the next bytes of a body.
    pub fn step(
        &mut self,
        response: &mut Response,
        stream: &mut SharedStream,
        deadline: Instant,
        now: Instant,
    ) -> (r: Result<Collected, Error>)
        requires
            old(self).bytes@.len() <= old(self).limit,
        ensures
            final(self).limit == old(self).limit,
            final(response).status == old(response).status,
            final(response).version == old(response).version,
            final(response).headers == old(response).headers,
            r is Ok ==> final(self).bytes@.len() <= final(self).limit,
            awaits_body(old(response), old(stream)) && r is Ok ==> awaits_body(
                final(response),
                final(stream),
            ),
            awaits_body(old(response), old(stream)) && r == Ok::<Collected, Error>(
                Collected::Done,
            ) ==> !final(stream).response_pending,
            now.nanos <= deadline.nanos ==> match collect_step(
                old(self).bytes@,
                old(self).limit as nat,
                body_read(
                    old(response).body,
                    old(stream).buffer@.input,
                    old(stream).buffer@.closed,
                    read_allowance(old(self).limit as nat, old(self).bytes@.len()),
                ),
            ) {
                CollectView::Done => {
                    &&& r == Ok::<Collected, Error>(Collected::Done)
                    &&& final(self).bytes@ == old(self).bytes@
                },
                CollectView::More(bytes) => {
                    &&& r == Ok::<Collected, Error>(Collected::More)
                    &&& final(self).bytes@ == bytes
                },
                CollectView::Starved => {
                    &&& r == Ok::<Collected, Error>(Collected::Starved)
                    &&& final(self).bytes@ == old(self).bytes@
                },
                CollectView::TooLong => r is Err && r->Err_0@ == body_limit_failure(
                    old(self).limit as nat,
                ),
                CollectView::Failed(e) => r is Err && r->Err_0@ == e,
            },
            ({
                let held = old(self).bytes@;
                let received = old(stream).buffer@;
                let allowed = read_allowance(old(self).limit as nat, held.len());
                let step = body_read(
                    old(response).body,
                    received.input,
                    received.closed,
                    allowed,
                );
                if now.nanos > deadline.nanos {
                    &&& r is Err
                    &&& r->Err_0@ == deadline_failure()
                    &&& *final(self) == *old(self)
                    &&& final(response).body == old(response).body
                    &&& *final(stream) == *old(stream)
                } else {
                    &&& final(stream).buffer@ == (BufferView {
                        input: received.input.skip(step.used as int),
                        ..received
                    })
                    &&& final(stream).response_pending == (old(stream).response_pending
                        && !step.complete)
                    &&& match step.result {
                        Err(e) => {
                            &&& final(self).bytes@ == held
                            &&& final(response).body == step.next
                            &&& if e == starved() {
                                r == Ok::<Collected, Error>(Collected::Starved)
                            } else {
                                r is Err && r->Err_0@ == e
                            }
                        },
                        Ok(piece) => {
                            &&& final(self).bytes@ == held + piece
                            &&& if piece.len() == 0 {
                                &&& r == Ok::<Collected, Error>(Collected::Done)
                                &&& final(response).body == step.next
                            } else if held.len() + piece.len() > old(self).limit {
                                &&& r is Err
                                &&& r->Err_0@ == body_limit_failure(old(self).limit as nat)
                                &&& final(response).body == step.next.given_up()
                            } else {
                                &&& r == Ok::<Collected, Error>(Collected::More)
                                &&& final(response).body == step.next
                            }
                        },
                    }
                }
            }),
    {
        match remaining(deadline, now) {
            Ok(_) => {},
            Err(e) => {
                return Err(e);
            },
        }
        let rest: usize = self.limit - self.bytes.len();
        let allowed: usize = if rest < 8191 {
            rest + 1
        } else {
            8192
        };
        proof {
            let received = stream.buffer@;
            lemma_freed_at_the_boundary(
                response.body,
                received.input,
                received.closed,
                allowed as nat,
            );
            lemma_starved_read_changes_nothing(
                response.body,
                received.input,
                received.closed,
                allowed as nat,
            );
        }
        match response.body.read(stream, allowed) {
            Err(e) => {
                if crate::buffer::is_starved(&e) {
                    return Ok(Collected::Starved);
                }
                Err(e)
            },
            Ok(piece) => {
                let ghost held = self.bytes@;
                let mut piece = piece;
                let read: usize = piece.len();
                let ghost read_bytes = piece@;
                self.bytes.append(&mut piece);
                proof {
                    assert(self.bytes@ =~= held + read_bytes);
                }
                if read == 0 {
                    return Ok(Collected::Done);
                }
                if self.bytes.len() > self.limit {
                    response.abandon_body();
                    let mut message = "HTTP response body exceeds configured ".to_owned();
                    let digits = decimal_text(self.limit as u128);
                    message.append(digits.as_str());
                    message.append("-byte limit");
                    return Err(Error::with_message(ErrorKind::InvalidData, message));
                }
                Ok(Collected::More)
            },
        }
    }
}

/// Fully buffered response.
#[derive(Debug)]
pub struct BufferedResponse {
    pub status: u16,
    pub version: Version,
    pub headers: Headers,
    pub body: Vec<u8>,
    pub final_url: Url,
}

impl BufferedResponse {
    /// Put a response together once its body was collected; the second part says whether its
    /// connection may be used again.
    pub fn assemble(
        response: Response,
        body: Vec<u8>,
        method: &Method,
        url: &Url,
        request_headers: &Headers,
    ) -> (r: (BufferedResponse, bool))
        ensures
            r.0.status == response.status,
            r.0.version == response.version,
            r.0.headers == response.headers,
            r.0.body@ == body@,
            r.0.final_url@ == url@,
            r.1 == reusable_after(
                method@,
                response.status,
                response.version,
                request_headers@,
                response.headers@,
            ),
    {
        let reusable = response_is_reusable(
            method,
            response.status,
            response.version,
            request_headers,
            &response.headers,
        );
        (
            BufferedResponse {
                status: response.status,
                version: response.version,
                headers: response.headers,
                body,
                final_url: url.clone(),
            },
            reusable,
        )
    }

    pub fn status(&self) -> (r: u16)
        ensures
            r == self.status,
    {
        self.status
    }

    pub fn version(&self) -> (r: Version)
        ensures
            r == self.version,
    {
        self.version
    }

    pub fn headers(&self) -> (r: &Headers)
        ensures
            *r == self.headers,
    {
        &self.headers
    }

    pub fn body(&self) -> (r: &[u8])
        ensures
            r@ == self.body@,
    {
        self.body.as_slice()
    }

    pub fn into_body(self) -> (r: Vec<u8>)
        ensures
            r == self.body,
    {
        self.body
    }

    pub fn final_url(&self) -> (r: &Url)
        ensures
            *r == self.final_url,
    {
        &self.final_url
    }
}

/// What follows an attempt.
#[derive(Debug)]
pub enum AttemptStep {
    /// The response is complete.
    Answer(BufferedResponse),
    /// The request is to be attempted again.
    Again,
    /// The request has failed.
    Failed(Error),
}

/// How an attempt ended.
#[derive(Debug)]
pub struct AttemptEnd {
    pub step: AttemptStep,
    /// The failure was taken for that of a stale connection.
    pub stale: bool,
    pub fate: Fate,
}

impl Attempts {
    /// An attempt has ended, with a response whose body was collected or with a failure: its
    /// connection goes back to the pool or is discarded, and the request is answered, repeated or
    /// failed.
    pub fn finish<T>(
        &mut self,
        lease: PoolLease<HttpClient<T>>,
        outcome: Result<(Response, Vec<u8>), Error>,
        method: &Method,
        url: &Url,
        headers: &Headers,
        pool: &mut PoolState<HttpClient<T>>,
        stats: &mut ClientStats,
        deadline: Instant,
        now: Instant,
        lifetime: Duration,
    ) -> (r: AttemptEnd)
        requires
            old(pool).wf(),
            lease.accounted,
            lease.held_in(old(pool)),
            lease.connection is Some,
        ensures
            final(pool).wf(),
            r.fate == Fate::Returned ==> outcome is Ok
                && !lease.connection->0.client.conn.response_pending,
            match outcome {
                Ok((response, body)) => {
                    let reusable = reusable_after(
                        method@,
                        response.status,
                        response.version,
                        headers@,
                        response.headers@,
                    ) && !lease.connection->0.client.conn.response_pending;
                    &&& r.step matches AttemptStep::Answer(answer) && answer.status
                        == response.status && answer.version == response.version && answer.headers
                        == response.headers && answer.body@ == body@ && answer.final_url@ == url@
                    &&& !r.stale
                    &&& *final(self) == *old(self)
                    &&& (final(pool)@, *final(stats), r.fate) == settled(
                        old(pool)@,
                        *old(stats),
                        Some(lease),
                        reusable,
                        now,
                        lifetime,
                    )
                },
                Err(error) => {
                    &&& match after_failure(
                        old(self).stale_retry_available,
                        lease.reused_idle_connection,
                        error@,
                        deadline,
                        now,
                    ) {
                        AfterFailure::Again => r.step is Again,
                        AfterFailure::TooLate => r.step matches AttemptStep::Failed(late) && late@
                            == deadline_failure(),
                        AfterFailure::Fails => r.step == AttemptStep::Failed(error),
                    }
                    &&& r.stale == repeats(
                        old(self).stale_retry_available,
                        lease.reused_idle_connection,
                        error@,
                    )
                    &&& final(self).stale_retry_available == (old(self).stale_retry_available
                        && !r.stale)
                    &&& (final(pool)@, *final(stats), r.fate) == discarded(
                        old(pool)@,
                        if r.stale {
                            ClientStats {
                                stale_retries: counted(old(stats).stale_retries),
                                ..*old(stats)
                            }
                        } else {
                            *old(stats)
                        },
                        Some(lease),
                    )
                    &&& if !r.stale {
                        r.step == AttemptStep::Failed(error)
                    } else if now.nanos > deadline.nanos {
                        r.step matches AttemptStep::Failed(late) && late@ == deadline_failure()
                    } else {
                        r.step is Again
                    }
                },
            },
    {
        match outcome {
            Ok((response, body)) => {
                let (answer, reusable) = BufferedResponse::assemble(
                    response,
                    body,
                    method,
                    url,
                    headers,
                );
                let pending = match &lease.connection {
                    Some(connection) => connection.client.conn.response_pending,
                    None => true,
                };
                let fate = lease.settle(reusable && !pending, pool, stats, now, lifetime);
                AttemptEnd { step: AttemptStep::Answer(answer), stale: false, fate }
            },
            Err(error) => {
                let failed = self.fail(lease, error, pool, stats, deadline, now);
                let step = match failed.next {
                    Ok(_) => AttemptStep::Again,
                    Err(e) => AttemptStep::Failed(e),
                };
                AttemptEnd { step, stale: failed.stale, fate: failed.fate }
            },
        }
    }
}

} // verus!

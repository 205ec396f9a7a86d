//! Request lifecycle observations for service-client integrations.

use vstd::prelude::*;

use crate::error::{class_of, ClientErrorKind, Error};
use crate::message::Method;
use crate::resolver::{Resolution, ResolutionSource};
use crate::time::{Duration, Instant};
use crate::url::{OriginKey, OriginView, Url, UrlView};

verus! {

/// Sanitized network origin exposed to client observers.
///
/// Paths, query strings, user information, and headers are deliberately absent.
#[derive(Debug, Clone, Copy, PartialEq, Eq)]
pub struct ObservedOrigin<'a> {
    pub scheme: &'a str,
    pub host: &'a str,
    pub port: u16,
}

impl<'a> ObservedOrigin<'a> {
    /// The origin shows this scheme, host and port.
    pub open spec fn shows(self, scheme: Seq<char>, host: Seq<char>, port: u16) -> bool {
        self.scheme@ == scheme && self.host@ == host && self.port == port
    }

    /// The origin shows a pool key.
    pub open spec fn shows_key(self, key: OriginView) -> bool {
        self.shows(key.scheme, key.host, key.port)
    }

    /// The origin shows an address; a host or port that is missing is shown as empty or zero.
    pub open spec fn shows_url(self, url: UrlView) -> bool {
        self.shows(
            url.scheme,
            match url.host {
                Some(host) => host,
                None => ""@,
            },
            match url.port {
                Some(port) => port,
                None => 0,
            },
        )
    }
}

/// One synchronous observation from an HTTP request lifecycle.
///
/// Event values borrow request state only for the duration of the observation. Implementations
/// that retain data must copy only the fields they actually need.
#[derive(Debug, Clone, Copy)]
#[non_exhaustive]
pub enum ClientEvent<'a> {
    RequestStarted { request_id: u64, method: &'a Method, origin: ObservedOrigin<'a> },
    PoolWaited {
        request_id: u64,
        origin: ObservedOrigin<'a>,
        duration: Duration,
        timed_out: bool,
    },
    DnsCompleted {
        request_id: u64,
        origin: ObservedOrigin<'a>,
        duration: Duration,
        address_count: usize,
        source: Option<ResolutionSource>,
        error: Option<ClientErrorKind>,
    },
    ConnectionCompleted {
        request_id: u64,
        origin: ObservedOrigin<'a>,
        duration: Duration,
        tls: bool,
        error: Option<ClientErrorKind>,
    },
    ConnectionReused { request_id: u64, origin: ObservedOrigin<'a> },
    ConnectionDiscarded { request_id: u64, origin: ObservedOrigin<'a> },
    ResponseHeaders {
        request_id: u64,
        origin: ObservedOrigin<'a>,
        status: u16,
        elapsed: Duration,
    },
    RedirectFollowed {
        request_id: u64,
        status: u16,
        from: ObservedOrigin<'a>,
        to: ObservedOrigin<'a>,
    },
    StaleConnectionRetried { request_id: u64, origin: ObservedOrigin<'a> },
    RequestCompleted { request_id: u64, status: u16, total_duration: Duration },
    RequestFailed { request_id: u64, error: ClientErrorKind, total_duration: Duration },
    RequestCancelled { request_id: u64, total_duration: Duration },
    RequestAbandoned { request_id: u64, status: u16, total_duration: Duration },
}

/// The origin of an address, as observers see it.
pub fn observed_url(url: &Url) -> (r: ObservedOrigin<'_>)
    ensures
        r.shows_url(url@),
{
    ObservedOrigin {
        scheme: url.scheme.as_str(),
        host: match &url.host {
            Some(host) => host.as_str(),
            None => "",
        },
        port: match url.port {
            Some(port) => port,
            None => 0,
        },
    }
}

/// The origin of a pool key, as observers see it.
pub fn observed_key(key: &OriginKey) -> (r: ObservedOrigin<'_>)
    ensures
        r.shows_key(key@),
{
    ObservedOrigin { scheme: key.scheme.as_str(), host: key.host.as_str(), port: key.port }
}

/// The identity of a request and when it started.
#[derive(Debug, Clone, Copy)]
pub struct RequestTrace {
    pub request_id: u64,
    pub started: Instant,
}

impl RequestTrace {
    /// A request starts.
    pub fn request_started<'a>(&self, method: &'a Method, url: &'a Url) -> (r: ClientEvent<'a>)
        ensures
            r matches ClientEvent::RequestStarted { request_id, method: m, origin } && request_id
                == self.request_id && m@ == method@ && origin.shows_url(url@),
    {
        ClientEvent::RequestStarted {
            request_id: self.request_id,
            method,
            origin: observed_url(url),
        }
    }

    /// A request waited for a connection.
    pub fn pool_waited<'a>(
        &self,
        key: &'a OriginKey,
        wait_started: Instant,
        now: Instant,
        timed_out: bool,
    ) -> (r: ClientEvent<'a>)
        ensures
            r matches ClientEvent::PoolWaited { request_id, origin, duration, timed_out: t }
                && request_id == self.request_id && origin.shows_key(key@) && duration
                == now.since(wait_started) && t == timed_out,
    {
        ClientEvent::PoolWaited {
            request_id: self.request_id,
            origin: observed_key(key),
            duration: now.duration_since(wait_started),
            timed_out,
        }
    }

    /// A name was resolved, or could not be.
    pub fn dns_completed<'a>(
        &self,
        key: &'a OriginKey,
        dns_started: Instant,
        now: Instant,
        resolution: &Result<Resolution, Error>,
    ) -> (r: ClientEvent<'a>)
        ensures
            r matches ClientEvent::DnsCompleted {
                request_id,
                origin,
                duration,
                address_count,
                source,
                error,
            } && request_id == self.request_id && origin.shows_key(key@) && duration == now.since(
                dns_started,
            ) && match resolution {
                Ok(found) => address_count == found.addresses@.len() && source == Some(
                    found.source,
                ) && error is None,
                Err(e) => address_count == 0 && source is None && error == Some(class_of(e@)),
            },
    {
        ClientEvent::DnsCompleted {
            request_id: self.request_id,
            origin: observed_key(key),
            duration: now.duration_since(dns_started),
            address_count: match resolution {
                Ok(found) => found.addresses.len(),
                Err(_) => 0,
            },
            source: match resolution {
                Ok(found) => Some(found.source),
                Err(_) => None,
            },
            error: match resolution {
                Ok(_) => None,
                Err(e) => Some(ClientErrorKind::classify(e)),
            },
        }
    }

    /// A connection was made, or could not be.
    pub fn connection_completed<'a>(
        &self,
        key: &'a OriginKey,
        connect_started: Instant,
        now: Instant,
        failed: Option<&Error>,
    ) -> (r: ClientEvent<'a>)
        ensures
            r matches ClientEvent::ConnectionCompleted { request_id, origin, duration, tls, error }
                && request_id == self.request_id && origin.shows_key(key@) && duration == now.since(
                connect_started,
            ) && tls == (key@.scheme == "https"@) && error == (match failed {
                Some(e) => Some(class_of(e@)),
                None => None,
            }),
    {
        ClientEvent::ConnectionCompleted {
            request_id: self.request_id,
            origin: observed_key(key),
            duration: now.duration_since(connect_started),
            tls: crate::text::text_eq(key.scheme.as_str(), "https"),
            error: match failed {
                Some(e) => Some(ClientErrorKind::classify(e)),
                None => None,
            },
        }
    }

    /// A response head arrived.
    pub fn response_headers<'a>(&self, url: &'a Url, status: u16, now: Instant) -> (r: ClientEvent<
        'a,
    >)
        ensures
            r matches ClientEvent::ResponseHeaders { request_id, origin, status: s, elapsed }
                && request_id == self.request_id && origin.shows_url(url@) && s == status && elapsed
                == now.since(self.started),
    {
        ClientEvent::ResponseHeaders {
            request_id: self.request_id,
            origin: observed_url(url),
            status,
            elapsed: now.duration_since(self.started),
        }
    }

    /// A redirect is followed.
    pub fn redirect_followed<'a>(&self, status: u16, from: &'a Url, to: &'a Url) -> (r: ClientEvent<
        'a,
    >)
        ensures
            r matches ClientEvent::RedirectFollowed { request_id, status: s, from: f, to: t }
                && request_id == self.request_id && s == status && f.shows_url(from@)
                && t.shows_url(to@),
    {
        ClientEvent::RedirectFollowed {
            request_id: self.request_id,
            status,
            from: observed_url(from),
            to: observed_url(to),
        }
    }

    /// A request is tried again on another connection.
    pub fn stale_connection_retried<'a>(&self, url: &'a Url) -> (r: ClientEvent<'a>)
        ensures
            r matches ClientEvent::StaleConnectionRetried { request_id, origin } && request_id
                == self.request_id && origin.shows_url(url@),
    {
        ClientEvent::StaleConnectionRetried {
            request_id: self.request_id,
            origin: observed_url(url),
        }
    }

    /// A request completed.
    pub fn request_completed(&self, status: u16, now: Instant) -> (r: ClientEvent<'static>)
        ensures
            r matches ClientEvent::RequestCompleted { request_id, status: s, total_duration }
                && request_id == self.request_id && s == status && total_duration == now.since(
                self.started,
            ),
    {
        ClientEvent::RequestCompleted {
            request_id: self.request_id,
            status,
            total_duration: now.duration_since(self.started),
        }
    }

    /// A request failed, or was cancelled by its owner.
    pub fn request_failed(&self, error: &Error, now: Instant) -> (r: ClientEvent<'static>)
        ensures
            if error@.cancelled() {
                r matches ClientEvent::RequestCancelled { request_id, total_duration } && request_id
                    == self.request_id && total_duration == now.since(self.started)
            } else {
                r matches ClientEvent::RequestFailed { request_id, error: kind, total_duration }
                    && request_id == self.request_id && kind == class_of(error@) && total_duration
                    == now.since(self.started)
            },
    {
        if error.is_cancelled() {
            return ClientEvent::RequestCancelled {
                request_id: self.request_id,
                total_duration: now.duration_since(self.started),
            };
        }
        ClientEvent::RequestFailed {
            request_id: self.request_id,
            error: ClientErrorKind::classify(error),
            total_duration: now.duration_since(self.started),
        }
    }

    /// The one event that ends a buffered request: it completed with a status, it failed, or it was
    /// cancelled by its owner.
    pub fn request_ended(&self, outcome: Result<u16, &Error>, now: Instant) -> (r: ClientEvent<
        'static,
    >)
        ensures
            match outcome {
                Ok(code) => r matches ClientEvent::RequestCompleted {
                    request_id,
                    status,
                    total_duration,
                } && request_id == self.request_id && status == code && total_duration == now.since(
                    self.started,
                ),
                Err(e) => if e@.cancelled() {
                    r matches ClientEvent::RequestCancelled { request_id, total_duration }
                        && request_id == self.request_id && total_duration == now.since(
                        self.started,
                    )
                } else {
                    r matches ClientEvent::RequestFailed { request_id, error, total_duration }
                        && request_id == self.request_id && error == class_of(e@) && total_duration
                        == now.since(self.started)
                },
            },
    {
        match outcome {
            Ok(status) => self.request_completed(status, now),
            Err(error) => self.request_failed(error, now),
        }
    }

    /// A streaming response was dropped before its end.
    pub fn request_abandoned(&self, status: u16, now: Instant) -> (r: ClientEvent<'static>)
        ensures
            r matches ClientEvent::RequestAbandoned { request_id, status: s, total_duration }
                && request_id == self.request_id && s == status && total_duration == now.since(
                self.started,
            ),
    {
        ClientEvent::RequestAbandoned {
            request_id: self.request_id,
            status,
            total_duration: now.duration_since(self.started),
        }
    }
}

/// An idle connection is used again.
pub fn connection_reused(key: &OriginKey, id: u64) -> (r: ClientEvent<'_>)
    ensures
        r matches ClientEvent::ConnectionReused { request_id, origin } && request_id == id
            && origin.shows_key(key@),
{
    ClientEvent::ConnectionReused { request_id: id, origin: observed_key(key) }
}

/// A connection is discarded.
pub fn connection_discarded(key: &OriginKey, id: u64) -> (r: ClientEvent<'_>)
    ensures
        r matches ClientEvent::ConnectionDiscarded { request_id, origin } && request_id == id
            && origin.shows_key(key@),
{
    ClientEvent::ConnectionDiscarded { request_id: id, origin: observed_key(key) }
}

} // verus!

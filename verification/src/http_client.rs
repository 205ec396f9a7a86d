//! One HTTP/1.1 connection: where it leads, what is sent on it, and what comes back.

use vstd::prelude::*;
use vstd::string::*;
use vstd::utf8::encode_utf8;

use crate::body::body_writer::closing_bytes;
use crate::body::{BodyReader, BodyWriter};
use crate::buffer::{BufferView, INIT_BUFFER_SIZE};
use crate::error::{failure, Error, ErrorKind, ErrorView};
use crate::headers::{valid_value, values_of, with_inserted, FieldName, FieldValue};
use crate::message::{Method, Version};
use crate::multipart::{measured, MultipartForm};
use crate::request::{
    head_text, media_type_failure, started, writer_for, Request, RequestHead, Written,
};
use crate::resolver::SocketAddr;
use crate::response::{
    decode_with_limit, decoded, framing, limit_failure, over_limit, parsed_head, HeadFields,
    Response, DEFAULT_MAX_RESPONSE_HEADER_BYTES, MAX_RESPONSE_HEADERS,
};
use crate::shared::{response_pending_failure, SharedStream};
use crate::text::{
    chars_of, contains_text, has_text, lowercase, lowercase_chars, text_eq_ignore_case,
};
use crate::time::{Duration, Instant};
use crate::uri::{uri_parsed, Uri, UriView};

verus! {

/// What an absolute address is, for what the outside parser makes of its text: it names a scheme
/// and a host.
pub open spec fn absolute_address(parsed: Result<UriView, Seq<char>>) -> Result<UriView, ErrorView> {
    match parsed {
        Err(reason) => Err(failure(ErrorKind::InvalidInput, "invalid URL: "@ + reason)),
        Ok(uri) => if uri.scheme is None {
            Err(failure(ErrorKind::InvalidInput, "URL must include http:// or https://"@))
        } else if uri.host is None || uri.host->0.len() == 0 {
            Err(failure(ErrorKind::InvalidInput, "URL must include a host"@))
        } else {
            Ok(uri)
        },
    }
}

/// Accept an absolute address.
pub fn accept_absolute(parsed: Result<Uri, String>) -> (r: Result<Uri, Error>)
    ensures
        ({
            let outcome = match parsed {
                Ok(uri) => absolute_address(Ok::<UriView, Seq<char>>(uri@)),
                Err(reason) => absolute_address(Err::<UriView, Seq<char>>(reason@)),
            };
            match r {
                Ok(uri) => outcome == Ok::<UriView, ErrorView>(uri@),
                Err(e) => outcome == Err::<UriView, ErrorView>(e@),
            }
        }),
{
    let uri = match parsed {
        Ok(uri) => uri,
        Err(reason) => {
            let mut message = "invalid URL: ".to_owned();
            message.append(reason.as_str());
            return Err(Error::with_message(ErrorKind::InvalidInput, message));
        },
    };
    if uri.scheme.is_none() {
        return Err(Error::new(ErrorKind::InvalidInput, "URL must include http:// or https://"));
    }
    let hosted = match &uri.host {
        Some(host) => {
            let chars = chars_of(host.as_str());
            chars.len() > 0
        },
        None => false,
    };
    if !hosted {
        return Err(Error::new(ErrorKind::InvalidInput, "URL must include a host"));
    }
    Ok(uri)
}

/// Read an absolute address.
pub fn parse_absolute_url(url: &str) -> (r: Result<Uri, Error>)
    ensures
        match r {
            Ok(uri) => absolute_address(uri_parsed(url@)) == Ok::<UriView, ErrorView>(uri@),
            Err(e) => absolute_address(uri_parsed(url@)) == Err::<UriView, ErrorView>(e@),
        },
{
    accept_absolute(Uri::parse(url))
}

/// Where a connection leads.
#[derive(Debug)]
pub struct Destination {
    pub host: String,
    pub port: u16,
    /// The connection is secured.
    pub tls: bool,
}

pub open spec fn is_scheme(scheme: Seq<char>, name: Seq<char>) -> bool {
    lowercase(scheme) == lowercase(name)
}

pub open spec fn scheme_failure(scheme: Seq<char>) -> ErrorView {
    failure(ErrorKind::InvalidInput, "unsupported URL scheme: "@ + scheme)
}

/// Where an address with a scheme and a host leads, if its scheme is known: its host, its port or
/// the usual one, and whether the connection is secured.
pub open spec fn leads_to(uri: UriView) -> Option<(Seq<char>, u16, bool)> {
    let tls = is_scheme(uri.scheme->0, "https"@);
    if !tls && !is_scheme(uri.scheme->0, "http"@) {
        None
    } else {
        let port = match uri.port {
            Some(port) => port,
            None => if tls {
                443u16
            } else {
                80u16
            },
        };
        Some((uri.host->0, port, tls))
    }
}

/// Where an absolute address leads: its host, its port or the usual one, and whether the
/// connection is secured.
pub fn destination(uri: &Uri) -> (r: Result<Destination, Error>)
    requires
        uri@.scheme is Some,
        uri@.host is Some,
    ensures
        match r {
            Ok(to) => leads_to(uri@) == Some((to.host@, to.port, to.tls)),
            Err(_) => leads_to(uri@) is None,
        },
        ({
            let scheme = uri@.scheme->0;
            let tls = is_scheme(scheme, "https"@);
            match r {
                Ok(to) => {
                    &&& is_scheme(scheme, "http"@) || tls
                    &&& to.host@ == uri@.host->0
                    &&& to.port == (match uri@.port {
                        Some(port) => port,
                        None => if tls {
                            443u16
                        } else {
                            80u16
                        },
                    })
                    &&& to.tls == tls
                },
                Err(e) => !is_scheme(scheme, "http"@) && !tls && e@ == scheme_failure(scheme),
            }
        }),
{
    match (&uri.scheme, &uri.host) {
        (Some(scheme), Some(host)) => {
            let tls = text_eq_ignore_case(scheme.as_str(), "https");
            let port: u16 = match uri.port {
                Some(port) => port,
                None => if tls {
                    443
                } else {
                    80
                },
            };
            if !text_eq_ignore_case(scheme.as_str(), "http") && !tls {
                let mut message = "unsupported URL scheme: ".to_owned();
                message.append(scheme.as_str());
                return Err(Error::with_message(ErrorKind::InvalidInput, message));
            }
            Ok(Destination { host: host.clone(), port, tls })
        },
        _ => {
            Err(Error::new(ErrorKind::InvalidInput, "URL must include a host"))
        },
    }
}

/// A secured connection needs a TLS configuration.
pub fn require_tls_config(tls: bool, configured: bool) -> (r: Result<(), Error>)
    ensures
        match r {
            Ok(_) => !tls || configured,
            Err(e) => tls && !configured && e@ == failure(
                ErrorKind::InvalidInput,
                "HTTPS requires a TLS client configuration"@,
            ),
        },
{
    if tls && !configured {
        return Err(
            Error::new(ErrorKind::InvalidInput, "HTTPS requires a TLS client configuration"),
        );
    }
    Ok(())
}

/// The Host field that an address gives its connection.
pub fn host_field(uri: &Uri) -> (r: Result<FieldValue, Error>)
    ensures
        match uri@.authority {
            None => r is Err && r->Err_0@ == failure(
                ErrorKind::InvalidInput,
                "URL must include an authority"@,
            ),
            Some(authority) => match r {
                Ok(value) => valid_value(encode_utf8(authority)) && value@ == encode_utf8(
                    authority,
                ),
                Err(e) => !valid_value(encode_utf8(authority)) && e@ == failure(
                    ErrorKind::InvalidInput,
                    "invalid URL authority: "@ + "failed to parse header value"@,
                ),
            },
        },
{
    match &uri.authority {
        None => Err(Error::new(ErrorKind::InvalidInput, "URL must include an authority")),
        Some(authority) => match FieldValue::from_bytes(authority.as_str().as_bytes()) {
            Ok(value) => Ok(value),
            Err(reason) => {
                let mut message = "invalid URL authority: ".to_owned();
                message.append(reason.as_str());
                Err(Error::with_message(ErrorKind::InvalidInput, message))
            },
        },
    }
}

/// The refusal of a host that is no name for a TLS server.
pub open spec fn server_name_failure(reason: Seq<char>) -> ErrorView {
    failure(ErrorKind::InvalidInput, "invalid TLS server name: "@ + reason)
}

/// Whether a host can name a TLS server, for what the TLS library makes of it.
pub fn accept_server_name(parsed: Result<(), String>) -> (r: Result<(), Error>)
    ensures
        match parsed {
            Ok(_) => r is Ok,
            Err(reason) => r is Err && r->Err_0@ == server_name_failure(reason@),
        },
{
    match parsed {
        Ok(_) => Ok(()),
        Err(reason) => {
            let mut message = "invalid TLS server name: ".to_owned();
            message.append(reason.as_str());
            Err(Error::with_message(ErrorKind::InvalidInput, message))
        },
    }
}

/// The socket codes of Windows for a refused connection, one that timed out, and a host that
/// cannot be reached.
pub open spec fn refusal_code(code: i32) -> bool {
    code == 10061 || code == 10060 || code == 10064
}

/// The text of a failure to connect says that the connection was refused, has timed out, or that
/// the host cannot be reached.
pub open spec fn tells_refusal(message: Seq<char>) -> bool {
    let text = lowercase(message);
    ||| has_text(text, "refused"@)
    ||| has_text(text, "timed out"@)
    ||| has_text(text, "unreachable"@)
    ||| has_text(text, "wsaeconnrefused"@)
    ||| has_text(text, "wsaetimedout"@)
    ||| has_text(text, "wsaehostunreach"@)
}

/// Whether a failure to connect on Windows is to be reported as a refused connection.
///
/// The code may be missing where an error passes through a coroutine, so the text decides where
/// the code does not.
pub fn is_refusal(code: Option<i32>, message: &str) -> (r: bool)
    ensures
        r == ((code is Some && refusal_code(code->0)) || tells_refusal(message@)),
{
    if let Some(code) = code {
        if code == 10061 || code == 10060 || code == 10064 {
            return true;
        }
    }
    let text = lowercase_chars(message);
    contains_text(&text, "refused") || contains_text(&text, "timed out") || contains_text(
        &text,
        "unreachable",
    ) || contains_text(&text, "wsaeconnrefused") || contains_text(&text, "wsaetimedout")
        || contains_text(&text, "wsaehostunreach")
}

/// Trying the addresses of a host one after the other, all before one deadline.
#[derive(Debug)]
pub struct Dial<E> {
    addresses: Vec<SocketAddr>,
    next: usize,
    deadline: Instant,
    last_error: Option<E>,
}

/// What a dial does next.
#[derive(Debug)]
pub enum DialStep<E> {
    /// Try this address for at most so long, and report a failure with [`Dial::failed`].
    Try { address: SocketAddr, timeout: Duration },
    /// Every address was tried: this is the failure of the last one.
    Failed(E),
    /// There is no address to try, or no time left to try one.
    GiveUp(Error),
}

pub open spec fn no_address_failure() -> ErrorView {
    failure(ErrorKind::AddrNotAvailable, "host resolved no addresses"@)
}

/// The failure of a connect deadline that passed before every address was tried.
pub open spec fn dial_deadline_failure() -> ErrorView {
    failure(ErrorKind::TimedOut, "address attempts exhausted the connect deadline"@)
}

/// What one step of a dial does: it tries the first address that is left, for the time that is
/// left; it ends where none is left, or no time.
pub open spec fn dialed<E>(
    before: Seq<SocketAddr>,
    limit: Instant,
    now: Instant,
    step: DialStep<E>,
    after: Seq<SocketAddr>,
) -> bool {
    match step {
        DialStep::Try { address, timeout } => {
            &&& before.len() > 0
            &&& now.nanos < limit.nanos
            &&& address == before[0]
            &&& timeout == limit.since(now)
            &&& after == before.skip(1)
        },
        DialStep::Failed(_) => before.len() == 0 && after == before,
        DialStep::GiveUp(_) => after == before && (before.len() == 0 || now.nanos >= limit.nanos),
    }
}

impl<E> Dial<E> {
    /// The addresses that are still to be tried.
    pub closed spec fn untried(&self) -> Seq<SocketAddr> {
        self.addresses@.skip(self.next as int)
    }

    /// The instant by which a connection has to stand.
    pub closed spec fn limit(&self) -> Instant {
        self.deadline
    }

    /// The failure of the last address that was tried.
    pub closed spec fn last_failure(&self) -> Option<E> {
        self.last_error
    }

    pub closed spec fn wf(&self) -> bool {
        self.next <= self.addresses@.len()
    }

    pub fn new(addresses: Vec<SocketAddr>, deadline: Instant) -> (r: Dial<E>)
        ensures
            r.wf(),
            r.untried() == addresses@,
            r.limit() == deadline,
            r.last_failure() is None,
    {
        let dial = Dial { addresses, next: 0, deadline, last_error: None };
        proof {
            assert(dial.untried() =~= addresses@);
        }
        dial
    }

    /// The next address with the time that is left for it, or the failure of the last one when
    /// none is left. An address is tried only while the deadline has not come.
    pub fn step(&mut self, now: Instant) -> (r: DialStep<E>)
        requires
            old(self).wf(),
        ensures
            final(self).wf(),
            final(self).limit() == old(self).limit(),
            dialed(
                old(self).untried(),
                old(self).limit(),
                now,
                r,
                final(self).untried(),
            ),
            if old(self).untried().len() > 0 {
                if now.nanos < old(self).limit().nanos {
                    &&& r == DialStep::<E>::Try {
                        address: old(self).untried()[0],
                        timeout: old(self).limit().since(now),
                    }
                    &&& final(self).untried() == old(self).untried().skip(1)
                    &&& final(self).last_failure() == old(self).last_failure()
                } else {
                    &&& *final(self) == *old(self)
                    &&& r matches DialStep::GiveUp(e) && e@ == dial_deadline_failure()
                }
            } else {
                &&& final(self).untried() == old(self).untried()
                &&& match old(self).last_failure() {
                    Some(e) => r == DialStep::Failed(e) && final(self).last_failure() is None,
                    None => {
                        &&& *final(self) == *old(self)
                        &&& r matches DialStep::GiveUp(e) && e@ == no_address_failure()
                    },
                }
            },
    {
        if self.next < self.addresses.len() {
            if now.nanos >= self.deadline.nanos {
                return DialStep::GiveUp(
                    Error::new(
                        ErrorKind::TimedOut,
                        "address attempts exhausted the connect deadline",
                    ),
                );
            }
            let address = self.addresses[self.next];
            let timeout = self.deadline.duration_since(now);
            self.next = self.next + 1;
            proof {
                assert(self.untried() =~= old(self).untried().skip(1));
            }
            return DialStep::Try { address, timeout };
        }
        match self.last_error.take() {
            Some(e) => DialStep::Failed(e),
            None => DialStep::GiveUp(
                Error::new(ErrorKind::AddrNotAvailable, "host resolved no addresses"),
            ),
        }
    }

    /// Note that an address could not be reached.
    pub fn failed(&mut self, error: E)
        requires
            old(self).wf(),
        ensures
            final(self).wf(),
            final(self).untried() == old(self).untried(),
            final(self).limit() == old(self).limit(),
            final(self).last_failure() == Some(error),
    {
        self.last_error = Some(error);
    }
}

/// One HTTP/1.1 connection.
#[derive(Debug)]
pub struct HttpClient<T> {
    pub conn: SharedStream,
    /// What the bytes travel over.
    pub transport: T,
    pub expect_body: bool,
    pub host_header: Option<FieldValue>,
    pub max_response_header_bytes: usize,
}

/// The Host field of a connection, as a header map.
pub open spec fn host_fields(host: Option<FieldValue>) -> Seq<(Seq<char>, Seq<Seq<u8>>)> {
    match host {
        Some(value) => with_inserted(Seq::empty(), "host"@, value@),
        None => Seq::empty(),
    }
}

/// The head of a request on a connection, before anything was added to it.
pub open spec fn fresh_head(
    host: Option<FieldValue>,
    method: Seq<char>,
    uri: UriView,
    size: Option<usize>,
) -> RequestHead {
    RequestHead {
        method,
        target: uri.text,
        host: uri.host,
        version: Version::Http11,
        headers: host_fields(host),
        size,
    }
}

/// What a request that ends puts on the wire.
pub open spec fn ended(head: RequestHead, state: Written) -> Seq<u8> {
    let ready = started(head, state);
    ready.out + closing_bytes(ready.writer)
}

/// The failure of a connection that ended before the response.
pub open spec fn no_response_failure() -> ErrorView {
    failure(ErrorKind::UnexpectedEof, "connection closed before the response head"@)
}

/// What waiting for a response comes to: the received bytes that are consumed, and the head with
/// the framing of its body, nothing yet, or a failure.
pub open spec fn awaited(received: BufferView, max: nat, expect_body: bool) -> (
    nat,
    Result<Option<(HeadFields, BodyReader)>, ErrorView>,
) {
    if over_limit(received.input, max) {
        (0, Err(limit_failure(max)))
    } else {
        let (used, outcome) = decoded(parsed_head(received.input, MAX_RESPONSE_HEADERS as nat));
        match outcome {
            Err(e) => (used, Err(e)),
            Ok(None) => if received.closed {
                (used, Err(no_response_failure()))
            } else {
                (used, Ok(None))
            },
            Ok(Some(head)) => match framing(head.status, head.headers, expect_body) {
                Err(e) => (used, Err(e)),
                Ok(body) => (used, Ok(Some((head, body)))),
            },
        }
    }
}

impl<T> HttpClient<T> {
    pub open spec fn wf(&self) -> bool {
        self.conn.wf()
    }

    /// A connection over a transport, without a Host field of its own.
    pub fn connect(transport: T) -> (r: HttpClient<T>)
        ensures
            r.wf(),
            r.transport == transport,
            r.expect_body,
            r.host_header is None,
            r.max_response_header_bytes == DEFAULT_MAX_RESPONSE_HEADER_BYTES,
            !r.conn.response_pending,
            r.conn.buffer@.input == Seq::<u8>::empty(),
            r.conn.buffer@.output() == Seq::<u8>::empty(),
            !r.conn.buffer@.closed,
            r.conn.buffer@.capacity == INIT_BUFFER_SIZE,
            r.conn.buffer.asked() == INIT_BUFFER_SIZE,
    {
        let client = HttpClient {
            conn: SharedStream::new(),
            transport,
            expect_body: true,
            host_header: None,
            max_response_header_bytes: DEFAULT_MAX_RESPONSE_HEADER_BYTES,
        };
        proof {
            assert(client.conn.buffer@.output() =~= Seq::<u8>::empty());
        }
        client
    }

    /// A connection over a transport to an absolute address, whose authority is the Host field of
    /// its requests.
    pub fn from_uri(uri: &Uri, transport: T) -> (r: Result<HttpClient<T>, Error>)
        ensures
            match uri@.authority {
                None => r is Err && r->Err_0@ == failure(
                    ErrorKind::InvalidInput,
                    "URL must include an authority"@,
                ),
                Some(authority) => match r {
                    Ok(client) => {
                        &&& valid_value(encode_utf8(authority))
                        &&& client.wf()
                        &&& client.transport == transport
                        &&& client.expect_body
                        &&& client.host_header matches Some(value) && value@ == encode_utf8(
                            authority,
                        )
                        &&& client.max_response_header_bytes == DEFAULT_MAX_RESPONSE_HEADER_BYTES
                        &&& !client.conn.response_pending
                        &&& client.conn.buffer@.input == Seq::<u8>::empty()
                        &&& client.conn.buffer@.output() == Seq::<u8>::empty()
                        &&& !client.conn.buffer@.closed
                        &&& client.conn.buffer@.capacity == INIT_BUFFER_SIZE
                        &&& client.conn.buffer.asked() == INIT_BUFFER_SIZE
                    },
                    Err(e) => !valid_value(encode_utf8(authority)) && e@ == failure(
                        ErrorKind::InvalidInput,
                        "invalid URL authority: "@ + "failed to parse header value"@,
                    ),
                },
            },
    {
        let value = match host_field(uri) {
            Ok(value) => value,
            Err(e) => {
                return Err(e);
            },
        };
        let mut client = HttpClient::connect(transport);
        client.host_header = Some(value);
        Ok(client)
    }

    /// Limit the length of response heads.
    pub fn set_max_response_header_bytes(&mut self, value: usize)
        ensures
            *final(self) == (HttpClient { max_response_header_bytes: value, ..*old(self) }),
    {
        self.max_response_header_bytes = value;
    }

    /// Build a request with the given method and target.
    pub fn new_request(&self, method: Method, uri: Uri) -> (r: Request)
        ensures
            r.head() == fresh_head(self.host_header, method@, uri@, None),
            r.headers.wf(),
            r.headers@.len() <= 1,
            r.writer() == BodyWriter::InvalidWriter,
            r.expects_body() == (method@ != "HEAD"@),
    {
        let mut request = Request::new();
        if method.is("HEAD") {
            request.expect_body(false);
        }
        request.method = method;
        request.uri = uri;
        if let Some(host) = &self.host_header {
            request.headers.insert(&FieldName::host(), host);
        }
        request
    }

    /// End a request and expect its response.
    pub fn send_request(&mut self, request: Request) -> (r: Result<(), Error>)
        requires
            old(self).wf(),
        ensures
            final(self).wf(),
            final(self).transport == old(self).transport,
            final(self).host_header == old(self).host_header,
            final(self).max_response_header_bytes == old(self).max_response_header_bytes,
            final(self).conn.response_pending == old(self).conn.response_pending,
            final(self).conn.buffer@.input == old(self).conn.buffer@.input,
            final(self).conn.buffer@.closed == old(self).conn.buffer@.closed,
            if old(self).conn.response_pending {
                &&& r is Err
                &&& r->Err_0@ == response_pending_failure()
                &&& *final(self) == *old(self)
            } else {
                &&& r is Ok
                &&& final(self).expect_body == request.expects_body()
                &&& final(self).conn.buffer@.output() == ended(
                    request.head(),
                    (Written {
                        writer: request.writer(),
                        out: old(self).conn.buffer@.output(),
                    }),
                )
                &&& final(self).conn.buffer@.buffered.len() == 0
            },
    {
        match self.conn.ensure_request_ready() {
            Ok(_) => {},
            Err(e) => {
                return Err(e);
            },
        }
        self.expect_body = request.expect_body_request();
        request.finish(&mut self.conn.buffer);
        Ok(())
    }

    /// Send a GET request.
    pub fn get(&mut self, uri: Uri) -> (r: Result<(), Error>)
        requires
            old(self).wf(),
        ensures
            final(self).wf(),
            final(self).transport == old(self).transport,
            final(self).host_header == old(self).host_header,
            final(self).max_response_header_bytes == old(self).max_response_header_bytes,
            final(self).conn.response_pending == old(self).conn.response_pending,
            final(self).conn.buffer@.input == old(self).conn.buffer@.input,
            final(self).conn.buffer@.closed == old(self).conn.buffer@.closed,
            if old(self).conn.response_pending {
                &&& r is Err
                &&& r->Err_0@ == response_pending_failure()
                &&& *final(self) == *old(self)
            } else {
                &&& r is Ok
                &&& final(self).expect_body
                &&& final(self).conn.buffer@.buffered.len() == 0
                &&& final(self).conn.buffer@.output() == old(self).conn.buffer@.output()
                    + encode_utf8(
                    head_text(fresh_head(old(self).host_header, "GET"@, uri@, None)),
                )
            },
    {
        let request = self.new_request(Method::get(), uri);
        proof {
            reveal_strlit("GET");
            reveal_strlit("HEAD");
        }
        let ghost before = self.conn.buffer@.output();
        let r = self.send_request(request);
        proof {
            if r is Ok {
                assert(closing_bytes(writer_for("GET"@, None)) =~= Seq::<u8>::empty());
                assert(self.conn.buffer@.output() =~= before + encode_utf8(
                    head_text(fresh_head(old(self).host_header, "GET"@, uri@, None)),
                ));
            }
        }
        r
    }

    /// Send a POST request with a body.
    pub fn post(&mut self, uri: Uri, data: &[u8]) -> (r: Result<(), Error>)
        requires
            old(self).wf(),
        ensures
            final(self).wf(),
            final(self).transport == old(self).transport,
            final(self).host_header == old(self).host_header,
            final(self).max_response_header_bytes == old(self).max_response_header_bytes,
            final(self).conn.response_pending == old(self).conn.response_pending,
            final(self).conn.buffer@.input == old(self).conn.buffer@.input,
            final(self).conn.buffer@.closed == old(self).conn.buffer@.closed,
            if old(self).conn.response_pending {
                &&& r is Err
                &&& r->Err_0@ == response_pending_failure()
                &&& *final(self) == *old(self)
            } else {
                &&& r is Ok
                &&& final(self).expect_body
                &&& final(self).conn.buffer@.buffered.len() == 0
                &&& final(self).conn.buffer@.output() == old(self).conn.buffer@.output()
                    + encode_utf8(
                    head_text(
                        fresh_head(
                            old(self).host_header,
                            "POST"@,
                            uri@,
                            Some(data@.len() as usize),
                        ),
                    ),
                ) + data@
            },
    {
        match self.conn.ensure_request_ready() {
            Ok(_) => {},
            Err(e) => {
                return Err(e);
            },
        }
        let mut request = self.new_request(Method::post(), uri);
        proof {
            lemma_post_has_a_body();
        }
        let ghost out = self.conn.buffer@.output();
        let ghost head = fresh_head(self.host_header, "POST"@, uri@, Some(data.len()));
        match request.send(&mut self.conn.buffer, data) {
            Ok(_) => {},
            Err(e) => {
                return Err(e);
            },
        }
        let r = self.send_request(request);
        proof {
            let text = encode_utf8(head_text(head));
            assert(closing_bytes(BodyWriter::SizedWriter(0)) =~= Seq::<u8>::empty());
            assert(self.conn.buffer@.output() =~= out + text + data@);
        }
        r
    }

    /// Send a POST request with a serialized JSON value.
    pub fn post_json(&mut self, uri: Uri, json: &[u8]) -> (r: Result<(), Error>)
        requires
            old(self).wf(),
        ensures
            final(self).wf(),
            final(self).transport == old(self).transport,
            final(self).host_header == old(self).host_header,
            final(self).max_response_header_bytes == old(self).max_response_header_bytes,
            final(self).conn.response_pending == old(self).conn.response_pending,
            final(self).conn.buffer@.input == old(self).conn.buffer@.input,
            final(self).conn.buffer@.closed == old(self).conn.buffer@.closed,
            if old(self).conn.response_pending {
                &&& r is Err
                &&& r->Err_0@ == response_pending_failure()
                &&& *final(self) == *old(self)
            } else {
                let plain = fresh_head(
                    old(self).host_header,
                    "POST"@,
                    uri@,
                    Some(json@.len() as usize),
                );
                let head = RequestHead {
                    headers: with_inserted(
                        plain.headers,
                        "content-type"@,
                        encode_utf8("application/json"@),
                    ),
                    ..plain
                };
                &&& r is Ok
                &&& final(self).expect_body
                &&& final(self).conn.buffer@.buffered.len() == 0
                &&& final(self).conn.buffer@.output() == old(self).conn.buffer@.output()
                    + encode_utf8(head_text(head)) + json@
            },
    {
        match self.conn.ensure_request_ready() {
            Ok(_) => {},
            Err(e) => {
                return Err(e);
            },
        }
        let mut request = self.new_request(Method::post(), uri);
        proof {
            lemma_post_has_a_body();
            lemma_host_fields_have_no_type(self.host_header);
        }
        let ghost out = self.conn.buffer@.output();
        proof {
            assert(json@.len() == json.len());
        }
        match request.send_json(&mut self.conn.buffer, json) {
            Ok(_) => {},
            Err(e) => {
                return Err(e);
            },
        }
        let ghost head = request.head();
        let r = self.send_request(request);
        proof {
            let text = encode_utf8(head_text(head));
            assert(closing_bytes(BodyWriter::SizedWriter(0)) =~= Seq::<u8>::empty());
            assert(self.conn.buffer@.output() =~= out + text + json@);
        }
        r
    }

    /// Send a POST request with a multipart/form-data body.
    ///
    /// A form that is refused puts nothing of the request on the wire.
    pub fn post_multipart(&mut self, uri: Uri, form: &MultipartForm) -> (r: Result<(), Error>)
        requires
            old(self).wf(),
        ensures
            final(self).wf(),
            final(self).transport == old(self).transport,
            final(self).host_header == old(self).host_header,
            final(self).max_response_header_bytes == old(self).max_response_header_bytes,
            final(self).conn.response_pending == old(self).conn.response_pending,
            final(self).conn.buffer@.input == old(self).conn.buffer@.input,
            final(self).conn.buffer@.closed == old(self).conn.buffer@.closed,
            if old(self).conn.response_pending {
                &&& r is Err
                &&& r->Err_0@ == response_pending_failure()
                &&& *final(self) == *old(self)
            } else {
                let media_type = encode_utf8("multipart/form-data; boundary="@ + form@.boundary);
                let plain = fresh_head(old(self).host_header, "POST"@, uri@, None);
                let typed = RequestHead {
                    headers: with_inserted(plain.headers, "content-type"@, media_type),
                    ..plain
                };
                let out = old(self).conn.buffer@.output();
                if !valid_value(media_type) {
                    &&& r is Err
                    &&& r->Err_0@ == media_type_failure()
                    &&& *final(self) == *old(self)
                } else {
                    match measured(form@) {
                        Err(e) => {
                            &&& r is Err
                            &&& r->Err_0@ == e
                            &&& *final(self) == *old(self)
                        },
                        Ok(length) => {
                            &&& r is Ok
                            &&& final(self).expect_body
                            &&& final(self).conn.buffer@.buffered.len() == 0
                            &&& final(self).conn.buffer@.output() == out + encode_utf8(
                                head_text(RequestHead { size: Some(length as usize), ..typed }),
                            ) + crate::multipart::encoding(form@)
                        },
                    }
                }
            },
    {
        match self.conn.ensure_request_ready() {
            Ok(_) => {},
            Err(e) => {
                return Err(e);
            },
        }
        let mut request = self.new_request(Method::post(), uri);
        proof {
            lemma_post_has_a_body();
        }
        let ghost out = self.conn.buffer@.output();
        let sent = request.send_multipart(&mut self.conn.buffer, form);
        let ghost head = request.head();
        proof {
            if let Ok(length) = measured(form@) {
                if valid_value(
                    encode_utf8("multipart/form-data; boundary="@ + form@.boundary),
                ) {
                    crate::request::lemma_form_fits_its_declared_length(head, out, form@);
                }
            }
        }
        match sent {
            Ok(_) => {
                let r = self.send_request(request);
                proof {
                    assert(closing_bytes(BodyWriter::SizedWriter(0)) =~= Seq::<u8>::empty());
                    assert(self.conn.buffer@.output() =~= out + encode_utf8(head_text(head))
                        + crate::multipart::encoding(form@));
                }
                r
            },
            Err(e) => Err(e),
        }
    }

    /// Look for the response in what was received. Nothing is returned while more has to arrive.
    pub fn get_rsp(&mut self) -> (r: Result<Option<Response>, Error>)
        requires
            old(self).wf(),
        ensures
            final(self).wf(),
            final(self).transport == old(self).transport,
            final(self).host_header == old(self).host_header,
            final(self).expect_body == old(self).expect_body,
            final(self).max_response_header_bytes == old(self).max_response_header_bytes,
            ({
                let received = old(self).conn.buffer@;
                let (used, outcome) = awaited(
                    received,
                    old(self).max_response_header_bytes as nat,
                    old(self).expect_body,
                );
                &&& used <= received.input.len()
                &&& final(self).conn.buffer@ == (BufferView {
                    input: received.input.skip(used as int),
                    ..received
                })
                &&& match r {
                    Ok(Some(response)) => {
                        &&& outcome == Ok::<Option<(HeadFields, BodyReader)>, ErrorView>(
                            Some(
                                (
                                    HeadFields {
                                        status: response.status,
                                        version: response.version,
                                        headers: response.headers@,
                                    },
                                    response.body,
                                ),
                            ),
                        )
                        &&& response.headers.wf()
                        &&& final(self).conn.response_pending == !response.body.complete()
                        &&& final(self).conn.response_pending == !(response.body
                            == BodyReader::EmptyReader || response.body == BodyReader::SizedReader(
                            0,
                        ))
                    },
                    Ok(None) => {
                        &&& outcome == Ok::<Option<(HeadFields, BodyReader)>, ErrorView>(None)
                        &&& final(self).conn.response_pending == old(self).conn.response_pending
                    },
                    Err(e) => {
                        &&& outcome == Err::<Option<(HeadFields, BodyReader)>, ErrorView>(e@)
                        &&& final(self).conn.response_pending == old(self).conn.response_pending
                    },
                }
            }),
    {
        proof {
            assert(self.conn.buffer@.input.skip(0) =~= self.conn.buffer@.input);
        }
        match decode_with_limit(&mut self.conn.buffer, self.max_response_header_bytes) {
            Err(e) => Err(e),
            Ok(None) => {
                if self.conn.buffer.is_closed() {
                    return Err(
                        Error::new(
                            ErrorKind::UnexpectedEof,
                            "connection closed before the response head",
                        ),
                    );
                }
                Ok(None)
            },
            Ok(Some(response)) => {
                let mut response = response;
                match response.set_reader(&mut self.conn, self.expect_body) {
                    Ok(_) => Ok(Some(response)),
                    Err(e) => Err(e),
                }
            },
        }
    }
}

/// POST is neither of the methods whose requests have no body.
proof fn lemma_post_has_a_body()
    ensures
        "POST"@ != "HEAD"@,
        "POST"@ != "GET"@,
{
    reveal_strlit("POST");
    reveal_strlit("HEAD");
    reveal_strlit("GET");
    assert("POST"@[0] != "HEAD"@[0]);
    assert("POST"@[0] != "GET"@[0]);
}

/// The Host field of a connection brings no content type along.
proof fn lemma_host_fields_have_no_type(host: Option<FieldValue>)
    ensures
        values_of(host_fields(host), "content-type"@).len() == 0,
{
    reveal_strlit("host");
    reveal_strlit("content-type");
    assert("host"@ != "content-type"@) by {
        assert("host"@.len() != "content-type"@.len());
    }
    if let Some(value) = host {
        crate::headers::lemma_inserted(
            Seq::empty(),
            "host"@,
            value@,
            "content-type"@,
        );
    }
}

} // verus!

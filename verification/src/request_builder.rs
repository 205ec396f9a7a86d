//! Requests as callers describe them, before they are sent.

use vstd::prelude::*;
use vstd::string::*;
use vstd::utf8::encode_utf8;

use crate::builder::ClientConfigValues;
use crate::error::{failure, Error, ErrorKind, ErrorView};
use crate::headers::{
    ascii_text, valid_name, valid_value, values_of, with_appended, with_inserted, with_json_type,
    FieldName, FieldValue, Headers, MAX_HEADER_NAMES,
};
use crate::message::Method;
use crate::multipart::MultipartForm;
use crate::policy::RequestBody;
use crate::redirect::{string_views, RedirectState};
use crate::text::lowercase_bytes;
use crate::time::{Duration, Instant};
use crate::url::{parse_url, request_address, url_parsed, without_fragment, Url, UrlView};

verus! {

/// Request builder whose body explicitly records whether it can be replayed.
#[derive(Debug)]
pub struct RequestBuilder {
    pub method: Method,
    pub url: Url,
    pub headers: Headers,
    pub body: RequestBody,
    pub timeout: Option<Duration>,
}

/// The failure of a timeout that the clock cannot express.
pub open spec fn timeout_overflow_failure() -> ErrorView {
    failure(ErrorKind::InvalidInput, "request timeout overflow"@)
}

/// The timeout of a request: its own, or that of the client.
pub open spec fn timeout_of(own: Option<Duration>, config: ClientConfigValues) -> Duration {
    match own {
        Some(timeout) => timeout,
        None => config.request_timeout,
    }
}

impl RequestBuilder {
    /// A request without fields or body for an accepted address.
    pub fn for_url(method: Method, url: Url) -> (r: RequestBuilder)
        ensures
            r.method == method,
            r.url == url,
            r.headers@ == Seq::<(Seq<char>, Seq<Seq<u8>>)>::empty(),
            r.headers.wf(),
            r.body is Empty,
            r.timeout is None,
    {
        RequestBuilder {
            method,
            url,
            headers: Headers::new(),
            body: RequestBody::Empty,
            timeout: None,
        }
    }

    /// A request without fields or body.
    pub fn new(method: Method, url: &str) -> (r: Result<RequestBuilder, Error>)
        ensures
            match r {
                Ok(request) => {
                    &&& request_address(url_parsed(url@)) == Ok::<UrlView, ErrorView>(request.url@)
                    &&& request.method == method
                    &&& request.headers@ == Seq::<(Seq<char>, Seq<Seq<u8>>)>::empty()
                    &&& request.headers.wf()
                    &&& request.body is Empty
                    &&& request.timeout is None
                },
                Err(e) => request_address(url_parsed(url@)) == Err::<UrlView, ErrorView>(e@),
            },
    {
        match parse_url(url) {
            Ok(url) => Ok(RequestBuilder::for_url(method, url)),
            Err(e) => Err(e),
        }
    }

    /// Add a field.
    pub fn header(self, name: &FieldName, value: &FieldValue) -> (r: RequestBuilder)
        requires
            self.headers@.len() < MAX_HEADER_NAMES,
        ensures
            r.headers@ == with_appended(self.headers@, name@, value@),
            self.headers.wf() ==> r.headers.wf(),
            r == (RequestBuilder { headers: r.headers, ..self }),
    {
        let mut request = self;
        request.headers.append(name, value);
        request
    }

    /// Add a field given as text.
    pub fn header_str(self, name: &str, value: &str) -> (r: Result<RequestBuilder, Error>)
        requires
            self.headers@.len() < MAX_HEADER_NAMES,
        ensures
            if !valid_name(encode_utf8(name@)) {
                r is Err && r->Err_0@ == failure(
                    ErrorKind::InvalidInput,
                    "invalid request header name: "@ + "invalid HTTP header name"@,
                )
            } else if !valid_value(encode_utf8(value@)) {
                r is Err && r->Err_0@ == failure(
                    ErrorKind::InvalidInput,
                    "invalid request header value: "@ + "failed to parse header value"@,
                )
            } else {
                r matches Ok(request) && request.headers@ == with_appended(
                    self.headers@,
                    ascii_text(lowercase_bytes(encode_utf8(name@))),
                    encode_utf8(value@),
                ) && (self.headers.wf() ==> request.headers.wf()) && request == (RequestBuilder {
                    headers: request.headers,
                    ..self
                })
            },
    {
        let name = match FieldName::from_bytes(name.as_bytes()) {
            Ok(name) => name,
            Err(reason) => {
                let mut message = "invalid request header name: ".to_owned();
                message.append(reason.as_str());
                return Err(Error::with_message(ErrorKind::InvalidInput, message));
            },
        };
        let value = match FieldValue::from_bytes(value.as_bytes()) {
            Ok(value) => value,
            Err(reason) => {
                let mut message = "invalid request header value: ".to_owned();
                message.append(reason.as_str());
                return Err(Error::with_message(ErrorKind::InvalidInput, message));
            },
        };
        Ok(self.header(&name, &value))
    }

    /// Attach a body of bytes.
    pub fn body(self, value: Vec<u8>) -> (r: RequestBuilder)
        ensures
            r == (RequestBuilder { body: RequestBody::Bytes(value), ..self }),
    {
        let mut request = self;
        request.body = RequestBody::Bytes(value);
        request
    }

    /// Attach a multipart/form-data body.
    pub fn multipart(self, value: MultipartForm) -> (r: RequestBuilder)
        ensures
            r == (RequestBuilder { body: RequestBody::Multipart(value), ..self }),
    {
        let mut request = self;
        request.body = RequestBody::Multipart(value);
        request
    }

    /// Attach a single-use streaming body of the given length.
    ///
    /// This body is never retried and cannot be replayed across a 307/308 redirect.
    pub fn reader(self, content_length: usize) -> (r: RequestBuilder)
        ensures
            r == (RequestBuilder {
                body: RequestBody::Reader { available: true, content_length },
                ..self
            }),
    {
        let mut request = self;
        request.body = RequestBody::Reader { available: true, content_length };
        request
    }

    /// Attach a serialized JSON value. A content type that was set before is kept.
    pub fn json(self, json: Vec<u8>) -> (r: RequestBuilder)
        requires
            self.headers@.len() < MAX_HEADER_NAMES,
        ensures
            r.headers@ == with_json_type(self.headers@),
            r.headers@ == (if values_of(self.headers@, "content-type"@).len() > 0 {
                self.headers@
            } else {
                with_inserted(self.headers@, "content-type"@, encode_utf8("application/json"@))
            }),
            self.headers.wf() ==> r.headers.wf(),
            r == (RequestBuilder {
                body: RequestBody::Bytes(json),
                headers: r.headers,
                ..self
            }),
    {
        let mut request = self;
        if !request.headers.contains_key(&FieldName::content_type()) {
            let value = FieldValue::json_media_type();
            request.headers.insert(&FieldName::content_type(), &value);
        }
        request.body = RequestBody::Bytes(json);
        request
    }

    /// Set the time that the request may take.
    pub fn timeout(self, value: Duration) -> (r: RequestBuilder)
        ensures
            r == (RequestBuilder { timeout: Some(value), ..self }),
    {
        let mut request = self;
        request.timeout = Some(value);
        request
    }

    /// The instant by which the request has to be answered.
    pub fn deadline(&self, now: Instant, config: &ClientConfigValues) -> (r: Result<Instant, Error>)
        ensures
            match r {
                Ok(deadline) => now.later(timeout_of(self.timeout, *config)) == Some(deadline),
                Err(e) => now.later(timeout_of(self.timeout, *config)) is None && e@
                    == timeout_overflow_failure(),
            },
    {
        let span = match self.timeout {
            Some(timeout) => timeout,
            None => config.request_timeout,
        };
        match now.checked_add(span) {
            Some(deadline) => Ok(deadline),
            None => Err(Error::new(ErrorKind::InvalidInput, "request timeout overflow")),
        }
    }

    /// The request before its first send.
    pub fn start(self) -> (r: RedirectState)
        ensures
            r.method@ == self.method@,
            r.url@ == self.url@,
            r.headers == self.headers,
            r.body == self.body,
            string_views(r.visited@) == seq![without_fragment(self.url@.text)],
            r.hops == 0,
    {
        RedirectState::new(self.method, self.url, self.headers, self.body)
    }
}

} // verus!

//! Rules on requests, responses and redirects.

use vstd::prelude::*;

use crate::builder::RedirectPolicy;
use crate::error::{failure, Error, ErrorKind, ErrorView};
use crate::headers::{ascii_text, values_of, visible, visible_text, FieldName, Headers};
use crate::list::{items_of, list_items, texts};
use crate::message::{Method, Version};
use crate::multipart::MultipartForm;
use crate::text::{lowercase, string_of, text_eq, text_eq_ignore_case};
use crate::url::{has_credentials, same_origin, same_origin_as, web_scheme, Url, UrlView};

verus! {

/// The body of a request, which records whether it can be sent again.
#[derive(Debug)]
pub enum RequestBody {
    Empty,
    Bytes(Vec<u8>),
    Multipart(MultipartForm),
    /// A single-use reader that delivers `content_length` bytes; `available` until it was taken.
    Reader { available: bool, content_length: usize },
}

impl RequestBody {
    /// The body can be sent again.
    pub open spec fn replayable(self) -> bool {
        !(self is Reader)
    }

    pub fn is_replayable(&self) -> (r: bool)
        ensures
            r == self.replayable(),
    {
        match self {
            RequestBody::Reader { .. } => false,
            _ => true,
        }
    }

    pub fn is_empty(&self) -> (r: bool)
        ensures
            r == (self is Empty),
    {
        match self {
            RequestBody::Empty => true,
            _ => false,
        }
    }
}

/// A status that redirects.
pub open spec fn redirects(status: u16) -> bool {
    status == 301 || status == 302 || status == 303 || status == 307 || status == 308
}

pub fn is_redirect(status: u16) -> (r: bool)
    ensures
        r == redirects(status),
{
    status == 301 || status == 302 || status == 303 || status == 307 || status == 308
}

/// A method that may be repeated without a second effect.
pub open spec fn idempotent(method: Seq<char>) -> bool {
    method == "GET"@ || method == "HEAD"@ || method == "PUT"@ || method == "DELETE"@ || method
        == "OPTIONS"@ || method == "TRACE"@
}

pub fn method_is_idempotent(method: &Method) -> (r: bool)
    ensures
        r == idempotent(method@),
{
    method.is("GET") || method.is("HEAD") || method.is("PUT") || method.is("DELETE") || method.is(
        "OPTIONS",
    ) || method.is("TRACE")
}

/// A method whose requests have no body.
pub open spec fn bodyless(method: Seq<char>) -> bool {
    method == "GET"@ || method == "HEAD"@
}

pub open spec fn bodyless_failure() -> ErrorView {
    failure(ErrorKind::InvalidInput, "request bodies are not supported for GET or HEAD"@)
}

/// GET and HEAD requests have no body.
pub fn validate_body_method(method: &Method, body: &RequestBody) -> (r: Result<(), Error>)
    ensures
        match r {
            Ok(_) => !bodyless(method@) || *body is Empty,
            Err(e) => bodyless(method@) && !(*body is Empty) && e@ == bodyless_failure(),
        },
{
    if (method.is("GET") || method.is("HEAD")) && !body.is_empty() {
        return Err(
            Error::new(
                ErrorKind::InvalidInput,
                "request bodies are not supported for GET or HEAD",
            ),
        );
    }
    Ok(())
}

/// A failure that an idle connection shows when its peer has closed it.
pub open spec fn stale_kind(kind: ErrorKind) -> bool {
    kind == ErrorKind::BrokenPipe || kind == ErrorKind::ConnectionAborted || kind
        == ErrorKind::ConnectionReset || kind == ErrorKind::NotConnected || kind
        == ErrorKind::UnexpectedEof || kind == ErrorKind::WriteZero
}

pub fn stale_connection_error(error: &Error) -> (r: bool)
    ensures
        r == stale_kind(error@.kind),
{
    let kind = error.kind();
    kind == ErrorKind::BrokenPipe || kind == ErrorKind::ConnectionAborted || kind
        == ErrorKind::ConnectionReset || kind == ErrorKind::NotConnected || kind
        == ErrorKind::UnexpectedEof || kind == ErrorKind::WriteZero
}

/// A value of a field lists a token, without regard to letter case.
pub open spec fn lists_token(value: Seq<u8>, token: Seq<char>) -> bool {
    visible(value) && exists|k: int|
        0 <= k < list_items(ascii_text(value)).len() && lowercase(
            #[trigger] list_items(ascii_text(value))[k],
        ) == lowercase(token)
}

/// Some value of a field lists a token.
pub open spec fn has_token(
    headers: Seq<(Seq<char>, Seq<Seq<u8>>)>,
    name: Seq<char>,
    token: Seq<char>,
) -> bool {
    exists|i: int|
        0 <= i < values_of(headers, name).len() && lists_token(
            #[trigger] values_of(headers, name)[i],
            token,
        )
}

fn value_lists_token(value: &[u8], token: &str) -> (r: bool)
    ensures
        r == lists_token(value@, token@),
{
    let text = match visible_text(value) {
        Some(text) => text,
        None => {
            return false;
        },
    };
    let items = items_of(text.as_slice());
    let ghost views = list_items(ascii_text(value@));
    let mut k: usize = 0;
    while k < items.len()
        invariant
            k <= items@.len(),
            texts(items@) == views,
            views == list_items(ascii_text(value@)),
            visible(value@),
            forall|j: int| 0 <= j < k ==> lowercase(#[trigger] views[j]) != lowercase(token@),
        decreases items@.len() - k,
    {
        let item = string_of(items[k].as_slice());
        proof {
            assert(views[k as int] == items@[k as int]@);
        }
        if text_eq_ignore_case(item.as_str(), token) {
            return true;
        }
        k += 1;
    }
    false
}

/// Whether some value of a field lists a token.
pub fn header_has_token(headers: &Headers, name: &FieldName, expected: &str) -> (r: bool)
    ensures
        r == has_token(headers@, name@, expected@),
{
    let values = headers.get_all(name);
    let ghost views = values_of(headers@, name@);
    let mut i: usize = 0;
    while i < values.len()
        invariant
            i <= values@.len(),
            values@.map_values(|value: Vec<u8>| value@) == views,
            views == values_of(headers@, name@),
            forall|j: int| 0 <= j < i ==> !lists_token(#[trigger] views[j], expected@),
        decreases values@.len() - i,
    {
        proof {
            assert(views[i as int] == values@[i as int]@);
        }
        if value_lists_token(values[i].as_slice(), expected) {
            return true;
        }
        i += 1;
    }
    proof {
        assert(views.len() == values@.len());
    }
    false
}

/// A connection may be used again after a response: both sides keep it open, and the end of the
/// response is known without closing it.
pub open spec fn reusable_after(
    method: Seq<char>,
    status: u16,
    version: Version,
    request_headers: Seq<(Seq<char>, Seq<Seq<u8>>)>,
    headers: Seq<(Seq<char>, Seq<Seq<u8>>)>,
) -> bool {
    let close = has_token(request_headers, "connection"@, "close"@) || has_token(
        headers,
        "connection"@,
        "close"@,
    );
    let persistent = !close && (version is Http11 || has_token(
        headers,
        "connection"@,
        "keep-alive"@,
    ));
    let no_body = method == "HEAD"@ || 100 <= status < 200 || status == 204 || status == 304;
    let framed = no_body || values_of(headers, "content-length"@).len() > 0 || has_token(
        headers,
        "transfer-encoding"@,
        "chunked"@,
    );
    method != "CONNECT"@ && status != 101 && persistent && framed
}

pub fn response_is_reusable(
    method: &Method,
    status: u16,
    version: Version,
    request_headers: &Headers,
    headers: &Headers,
) -> (r: bool)
    ensures
        r == reusable_after(method@, status, version, request_headers@, headers@),
{
    if method.is("CONNECT") || status == 101 {
        return false;
    }
    let connection = FieldName::connection();
    let close = header_has_token(request_headers, &connection, "close") || header_has_token(
        headers,
        &connection,
        "close",
    );
    let persistent = !close && (version == Version::Http11 || header_has_token(
        headers,
        &connection,
        "keep-alive",
    ));
    let no_body = method.is("HEAD") || (100 <= status && status < 200) || status == 204 || status
        == 304;
    let framed = no_body || headers.contains_key(&FieldName::content_length()) || header_has_token(
        headers,
        &FieldName::transfer_encoding(),
        "chunked",
    );
    persistent && framed
}

/// Why a redirect target is refused, if it is.
pub open spec fn redirect_failure(
    policy: RedirectPolicy,
    source: UrlView,
    target: UrlView,
) -> Option<ErrorView> {
    if !web_scheme(target.scheme) {
        Some(
            failure(ErrorKind::InvalidData, "redirect target scheme must be http or https"@),
        )
    } else if has_credentials(target) {
        Some(
            failure(
                ErrorKind::PermissionDenied,
                "redirect target must not contain URL credentials"@,
            ),
        )
    } else if policy is SameOrigin && !same_origin_as(source, target) {
        Some(
            failure(ErrorKind::PermissionDenied, "cross-origin redirect rejected by policy"@),
        )
    } else if policy is CrossOrigin && !policy->allow_https_downgrade && source.scheme == "https"@
        && target.scheme == "http"@ {
        Some(
            failure(ErrorKind::PermissionDenied, "HTTPS-to-HTTP redirect rejected by policy"@),
        )
    } else {
        None
    }
}

/// Check a redirect target against the policy.
pub fn validate_redirect(policy: RedirectPolicy, source: &Url, target: &Url) -> (r: Result<
    (),
    Error,
>)
    requires
        policy != RedirectPolicy::Disabled,
    ensures
        match r {
            Ok(_) => redirect_failure(policy, source@, target@) is None,
            Err(e) => redirect_failure(policy, source@, target@) == Some(e@),
        },
{
    if !(text_eq(target.scheme.as_str(), "http") || text_eq(target.scheme.as_str(), "https")) {
        return Err(
            Error::new(ErrorKind::InvalidData, "redirect target scheme must be http or https"),
        );
    }
    if target.has_credentials() {
        return Err(
            Error::new(
                ErrorKind::PermissionDenied,
                "redirect target must not contain URL credentials",
            ),
        );
    }
    let same = same_origin(source, target);
    match policy {
        RedirectPolicy::Disabled => {},
        RedirectPolicy::SameOrigin { .. } => {
            if !same {
                return Err(
                    Error::new(
                        ErrorKind::PermissionDenied,
                        "cross-origin redirect rejected by policy",
                    ),
                );
            }
        },
        RedirectPolicy::CrossOrigin { allow_https_downgrade, .. } => {
            if !allow_https_downgrade && text_eq(source.scheme.as_str(), "https") && text_eq(
                target.scheme.as_str(),
                "http",
            ) {
                return Err(
                    Error::new(
                        ErrorKind::PermissionDenied,
                        "HTTPS-to-HTTP redirect rejected by policy",
                    ),
                );
            }
        },
    }
    Ok(())
}

/// A connection on which either side asked for the end of the connection is not used again, nor
/// one of HTTP/1.0 whose peer did not ask to keep it, nor one that switched protocols or tunnels.
pub proof fn lemma_close_is_not_reused(
    method: Seq<char>,
    status: u16,
    version: Version,
    request_headers: Seq<(Seq<char>, Seq<Seq<u8>>)>,
    headers: Seq<(Seq<char>, Seq<Seq<u8>>)>,
)
    ensures
        has_token(request_headers, "connection"@, "close"@) || has_token(
            headers,
            "connection"@,
            "close"@,
        ) ==> !reusable_after(method, status, version, request_headers, headers),
        version is Http10 && !has_token(headers, "connection"@, "keep-alive"@)
            ==> !reusable_after(method, status, version, request_headers, headers),
        method == "CONNECT"@ || status == 101 ==> !reusable_after(
            method,
            status,
            version,
            request_headers,
            headers,
        ),
{
}

} // verus!

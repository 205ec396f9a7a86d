//! Absolute addresses of requests and the origins they name.

use vstd::prelude::*;
use vstd::string::*;

use crate::error::{failure, Error, ErrorKind, ErrorView};
use crate::multipart::optional_text;
use crate::text::{
    chars_of, contains_text, decimal, decimal_text, has_text, lowercase, lowercase_text, string_of,
    text_eq, text_eq_ignore_case,
};
use crate::uri::{uri_parsed, Uri, UriView};

verus! {

/// An absolute address with the parts that requests and redirects read.
#[derive(Debug)]
pub struct Url {
    /// The serialized address.
    pub text: String,
    pub scheme: String,
    pub username: String,
    pub password: Option<String>,
    pub host: Option<String>,
    /// The port, or the well-known port of the scheme.
    pub port: Option<u16>,
    pub path: String,
    pub query: Option<String>,
}

/// The mathematical side of a [`Url`].
pub struct UrlView {
    pub text: Seq<char>,
    pub scheme: Seq<char>,
    pub username: Seq<char>,
    pub password: Option<Seq<char>>,
    pub host: Option<Seq<char>>,
    pub port: Option<u16>,
    pub path: Seq<char>,
    pub query: Option<Seq<char>>,
}

impl View for Url {
    type V = UrlView;

    open spec fn view(&self) -> UrlView {
        UrlView {
            text: self.text@,
            scheme: self.scheme@,
            username: self.username@,
            password: optional_text(self.password),
            host: optional_text(self.host),
            port: self.port,
            path: self.path@,
            query: optional_text(self.query),
        }
    }
}

/// What `url::Url::parse` makes of a text: the parts of the address, or the reason why it is none.
pub uninterp spec fn url_parsed(text: Seq<char>) -> Result<UrlView, Seq<char>>;

/// What `url::Url::join` makes of a reference, relative to the address that `base` writes.
pub uninterp spec fn url_joined(base: Seq<char>, reference: Seq<char>) -> Result<
    UrlView,
    Seq<char>,
>;

/// A result of the outside parser states what `outcome` says.
pub open spec fn url_states(
    r: Result<Url, String>,
    outcome: Result<UrlView, Seq<char>>,
) -> bool {
    match r {
        Ok(url) => outcome == Ok::<UrlView, Seq<char>>(url@),
        Err(reason) => outcome == Err::<UrlView, Seq<char>>(reason@),
    }
}

/// `url::Url::parse`, with the parts of the address that it reports.
#[verifier::external_body]
fn parse_address(text: &str) -> (r: Result<Url, String>)
    ensures
        url_states(r, url_parsed(text@)),
{
    let url = url::Url::parse(text).map_err(|error| error.to_string())?;
    Ok(
        Url {
            text: url.as_str().to_owned(),
            scheme: url.scheme().to_owned(),
            username: url.username().to_owned(),
            password: url.password().map(str::to_owned),
            host: url.host_str().map(str::to_owned),
            port: url.port_or_known_default(),
            path: url.path().to_owned(),
            query: url.query().map(str::to_owned),
        },
    )
}

/// `url::Url::join` on the address that `base` writes, with the parts of the result.
#[verifier::external_body]
fn join_address(base: &str, reference: &str) -> (r: Result<Url, String>)
    ensures
        url_states(r, url_joined(base@, reference@)),
{
    let url = url::Url::parse(base).and_then(|base| base.join(reference)).map_err(
        |error| error.to_string(),
    )?;
    Ok(
        Url {
            text: url.as_str().to_owned(),
            scheme: url.scheme().to_owned(),
            username: url.username().to_owned(),
            password: url.password().map(str::to_owned),
            host: url.host_str().map(str::to_owned),
            port: url.port_or_known_default(),
            path: url.path().to_owned(),
            query: url.query().map(str::to_owned),
        },
    )
}

/// The position of the fragment mark, or the length.
pub open spec fn fragment_mark(s: Seq<char>) -> int
    decreases s.len(),
{
    if s.len() == 0 || s[0] == '#' {
        0
    } else {
        1 + fragment_mark(s.drop_first())
    }
}

/// An address without its fragment.
pub open spec fn without_fragment(s: Seq<char>) -> Seq<char> {
    s.take(fragment_mark(s))
}

proof fn lemma_fragment_mark(s: Seq<char>, at: int)
    requires
        0 <= at <= s.len(),
        forall|i: int| 0 <= i < at ==> s[i] != '#',
        at < s.len() ==> s[at] == '#',
    ensures
        fragment_mark(s) == at,
    decreases s.len(),
{
    if s.len() > 0 && s[0] != '#' {
        lemma_fragment_mark(s.drop_first(), at - 1);
    }
}

/// An address without its fragment.
fn strip_fragment(text: &str) -> (r: String)
    ensures
        r@ == without_fragment(text@),
{
    let chars = chars_of(text);
    let mut at: usize = 0;
    while at < chars.len() && chars[at] != '#'
        invariant
            at <= chars@.len(),
            forall|i: int| 0 <= i < at ==> chars@[i] != '#',
        decreases chars@.len() - at,
    {
        at += 1;
    }
    proof {
        lemma_fragment_mark(chars@, at as int);
    }
    let head = vstd::slice::slice_subrange(chars.as_slice(), 0, at);
    proof {
        assert(head@ =~= without_fragment(text@));
    }
    string_of(head)
}

fn is_web_scheme(scheme: &str) -> (r: bool)
    ensures
        r == web_scheme(scheme@),
{
    text_eq(scheme, "http") || text_eq(scheme, "https")
}

/// A scheme that requests can use.
pub open spec fn web_scheme(scheme: Seq<char>) -> bool {
    scheme == "http"@ || scheme == "https"@
}

/// A user name or a password stands in the address.
pub open spec fn has_credentials(url: UrlView) -> bool {
    url.username.len() > 0 || url.password is Some
}

/// What a request address is, for what the outside parser makes of its text.
pub open spec fn request_address(parsed: Result<UrlView, Seq<char>>) -> Result<UrlView, ErrorView> {
    match parsed {
        Err(reason) => Err(failure(ErrorKind::InvalidInput, "invalid URL: "@ + reason)),
        Ok(url) => if !web_scheme(url.scheme) {
            Err(failure(ErrorKind::InvalidInput, "URL scheme must be http or https"@))
        } else if has_credentials(url) {
            Err(
                failure(ErrorKind::InvalidInput, "credentials in request URLs are not supported"@),
            )
        } else {
            Ok(UrlView { text: without_fragment(url.text), ..url })
        },
    }
}

impl Url {
    /// Accept an address for a request: http or https, without credentials, its fragment dropped.
    pub fn accept(parsed: Result<Url, String>) -> (r: Result<Url, Error>)
        ensures
            ({
                let outcome = match parsed {
                    Ok(url) => request_address(Ok::<UrlView, Seq<char>>(url@)),
                    Err(reason) => request_address(Err::<UrlView, Seq<char>>(reason@)),
                };
                match r {
                    Ok(url) => outcome == Ok::<UrlView, ErrorView>(url@),
                    Err(e) => outcome == Err::<UrlView, ErrorView>(e@),
                }
            }),
    {
        let mut url = match parsed {
            Ok(url) => url,
            Err(reason) => {
                let mut message = "invalid URL: ".to_owned();
                message.append(reason.as_str());
                return Err(Error::with_message(ErrorKind::InvalidInput, message));
            },
        };
        if !is_web_scheme(url.scheme.as_str()) {
            return Err(Error::new(ErrorKind::InvalidInput, "URL scheme must be http or https"));
        }
        if url.has_credentials() {
            return Err(
                Error::new(
                    ErrorKind::InvalidInput,
                    "credentials in request URLs are not supported",
                ),
            );
        }
        url.text = strip_fragment(url.text.as_str());
        Ok(url)
    }

    /// Whether a user name or a password stands in the address.
    pub fn has_credentials(&self) -> (r: bool)
        ensures
            r == has_credentials(self@),
    {
        let name = chars_of(self.username.as_str());
        name.len() > 0 || self.password.is_some()
    }

    /// Resolve a reference relative to this address.
    pub fn join(&self, reference: &str) -> (r: Result<Url, String>)
        ensures
            url_states(r, url_joined(self@.text, reference@)),
    {
        join_address(self.text.as_str(), reference)
    }

    /// The address without its fragment.
    pub fn normalized(&self) -> (r: String)
        ensures
            r@ == without_fragment(self@.text),
    {
        strip_fragment(self.text.as_str())
    }
}

impl Clone for Url {
    fn clone(&self) -> (r: Url)
        ensures
            r@ == self@,
    {
        Url {
            text: self.text.clone(),
            scheme: self.scheme.clone(),
            username: self.username.clone(),
            password: copy_optional(&self.password),
            host: copy_optional(&self.host),
            port: self.port,
            path: self.path.clone(),
            query: copy_optional(&self.query),
        }
    }
}

fn copy_optional(value: &Option<String>) -> (r: Option<String>)
    ensures
        optional_text(r) == optional_text(*value),
{
    match value {
        Some(text) => Some(text.clone()),
        None => None,
    }
}

/// Read the address of a request.
pub fn parse_url(value: &str) -> (r: Result<Url, Error>)
    ensures
        match r {
            Ok(url) => request_address(url_parsed(value@)) == Ok::<UrlView, ErrorView>(url@),
            Err(e) => request_address(url_parsed(value@)) == Err::<UrlView, ErrorView>(e@),
        },
{
    Url::accept(parse_address(value))
}

/// The request target of an address: its path and query.
pub open spec fn target_text(url: UrlView) -> Seq<char> {
    let path = if url.path.len() == 0 {
        "/"@
    } else {
        url.path
    };
    match url.query {
        Some(query) => path + "?"@ + query,
        None => path,
    }
}

/// What the request target of an address is, for what the outside parser makes of its text.
pub open spec fn target_of(parsed: Result<UriView, Seq<char>>) -> Result<UriView, ErrorView> {
    match parsed {
        Ok(uri) => Ok(uri),
        Err(reason) => Err(
            failure(
                ErrorKind::InvalidInput,
                "URL cannot be represented as an HTTP request target: "@ + reason,
            ),
        ),
    }
}

/// The text of the request target of an address.
pub fn origin_form_text(url: &Url) -> (r: String)
    ensures
        r@ == target_text(url@),
{
    let path = chars_of(url.path.as_str());
    let mut target = if path.len() == 0 {
        "/".to_owned()
    } else {
        url.path.clone()
    };
    if let Some(query) = &url.query {
        target.append("?");
        target.append(query.as_str());
    }
    target
}

/// Report a request target that the outside parser refused.
pub fn accept_target(parsed: Result<Uri, String>) -> (r: Result<Uri, Error>)
    ensures
        ({
            let outcome = match parsed {
                Ok(uri) => target_of(Ok::<UriView, Seq<char>>(uri@)),
                Err(reason) => target_of(Err::<UriView, Seq<char>>(reason@)),
            };
            match r {
                Ok(uri) => outcome == Ok::<UriView, ErrorView>(uri@),
                Err(e) => outcome == Err::<UriView, ErrorView>(e@),
            }
        }),
{
    match parsed {
        Ok(uri) => Ok(uri),
        Err(reason) => {
            let mut message = "URL cannot be represented as an HTTP request target: ".to_owned();
            message.append(reason.as_str());
            Err(Error::with_message(ErrorKind::InvalidInput, message))
        },
    }
}

/// The request target of an address.
pub fn origin_form(url: &Url) -> (r: Result<Uri, Error>)
    ensures
        match r {
            Ok(uri) => target_of(uri_parsed(target_text(url@))) == Ok::<UriView, ErrorView>(uri@),
            Err(e) => target_of(uri_parsed(target_text(url@))) == Err::<UriView, ErrorView>(e@),
        },
{
    let target = origin_form_text(url);
    accept_target(Uri::parse(target.as_str()))
}

/// The lower-case form of an optional text.
pub open spec fn optional_lowercase(value: Option<Seq<char>>) -> Option<Seq<char>> {
    match value {
        Some(text) => Some(lowercase(text)),
        None => None,
    }
}

/// Two addresses have the same scheme, host and effective port.
pub open spec fn same_origin_as(left: UrlView, right: UrlView) -> bool {
    &&& lowercase(left.scheme) == lowercase(right.scheme)
    &&& optional_lowercase(left.host) == optional_lowercase(right.host)
    &&& left.port == right.port
}

/// Whether two addresses have the same scheme, host and effective port.
pub fn same_origin(left: &Url, right: &Url) -> (r: bool)
    ensures
        r == same_origin_as(left@, right@),
{
    let same_host = match (&left.host, &right.host) {
        (Some(a), Some(b)) => text_eq_ignore_case(a.as_str(), b.as_str()),
        (None, None) => true,
        _ => false,
    };
    let same_port = match (left.port, right.port) {
        (Some(a), Some(b)) => a == b,
        (None, None) => true,
        _ => false,
    };
    text_eq_ignore_case(left.scheme.as_str(), right.scheme.as_str()) && same_host && same_port
}

/// What connections are pooled by.
#[derive(Debug)]
pub struct OriginKey {
    pub scheme: String,
    pub host: String,
    pub port: u16,
    pub tls_profile: usize,
}

/// The mathematical side of an [`OriginKey`].
pub struct OriginView {
    pub scheme: Seq<char>,
    pub host: Seq<char>,
    pub port: u16,
    pub tls_profile: usize,
}

impl View for OriginKey {
    type V = OriginView;

    open spec fn view(&self) -> OriginView {
        OriginView {
            scheme: self.scheme@,
            host: self.host@,
            port: self.port,
            tls_profile: self.tls_profile,
        }
    }
}

/// The key of an address: scheme and host in lower case, the effective port, and the TLS profile
/// of an https address.
pub open spec fn origin_of(url: UrlView, tls_profile: usize) -> Result<OriginView, ErrorView> {
    match url.host {
        None => Err(failure(ErrorKind::InvalidInput, "URL has no host"@)),
        Some(host) => match url.port {
            None => Err(failure(ErrorKind::InvalidInput, "URL scheme has no known port"@)),
            Some(port) => Ok(
                OriginView {
                    scheme: lowercase(url.scheme),
                    host: lowercase(host),
                    port,
                    tls_profile: if url.scheme == "https"@ {
                        tls_profile
                    } else {
                        0
                    },
                },
            ),
        },
    }
}

/// The address to which a connection for a key is made.
pub open spec fn connect_text(key: OriginView) -> Seq<char> {
    let host = if has_text(key.host, ":"@) {
        "["@ + key.host + "]"@
    } else {
        key.host
    };
    key.scheme + "://"@ + host + ":"@ + decimal(key.port as nat) + "/"@
}

impl OriginKey {
    /// The key of an address.
    pub fn from_url(url: &Url, tls_profile: usize) -> (r: Result<OriginKey, Error>)
        ensures
            match r {
                Ok(key) => origin_of(url@, tls_profile) == Ok::<OriginView, ErrorView>(key@),
                Err(e) => origin_of(url@, tls_profile) == Err::<OriginView, ErrorView>(e@),
            },
    {
        let host = match &url.host {
            Some(host) => host,
            None => {
                return Err(Error::new(ErrorKind::InvalidInput, "URL has no host"));
            },
        };
        let port: u16 = match url.port {
            Some(port) => port,
            None => {
                return Err(Error::new(ErrorKind::InvalidInput, "URL scheme has no known port"));
            },
        };
        Ok(
            OriginKey {
                scheme: lowercase_text(url.scheme.as_str()),
                host: lowercase_text(host.as_str()),
                port,
                tls_profile: if text_eq(url.scheme.as_str(), "https") {
                    tls_profile
                } else {
                    0
                },
            },
        )
    }

    /// The address to which a connection for this key is made.
    pub fn connect_url(&self) -> (r: String)
        ensures
            r@ == connect_text(self@),
    {
        let host_chars = chars_of(self.host.as_str());
        let bracketed = contains_text(host_chars.as_slice(), ":");
        let mut text = self.scheme.clone();
        text.append("://");
        let ghost opening = text@;
        if bracketed {
            text.append("[");
        }
        text.append(self.host.as_str());
        if bracketed {
            text.append("]");
        }
        let digits = decimal_text(self.port as u128);
        proof {
            if bracketed {
                assert(text@ =~= opening + ("["@ + self.host@ + "]"@));
            }
        }
        text.append(":");
        text.append(digits.as_str());
        text.append("/");
        text
    }

    /// Whether two keys are equal.
    pub fn same(&self, other: &OriginKey) -> (r: bool)
        ensures
            r == (self@ == other@),
    {
        self.port == other.port && self.tls_profile == other.tls_profile && text_eq(
            self.scheme.as_str(),
            other.scheme.as_str(),
        ) && text_eq(self.host.as_str(), other.host.as_str())
    }
}

impl Clone for OriginKey {
    fn clone(&self) -> (r: OriginKey)
        ensures
            r@ == self@,
    {
        OriginKey {
            scheme: self.scheme.clone(),
            host: self.host.clone(),
            port: self.port,
            tls_profile: self.tls_profile,
        }
    }
}

/// Keys are equal only for addresses of the same origin, and an https key only for the same TLS
/// profile.
pub proof fn lemma_keys_separate_origins(a: UrlView, p: usize, b: UrlView, q: usize)
    requires
        origin_of(a, p) is Ok,
        origin_of(a, p) == origin_of(b, q),
    ensures
        same_origin_as(a, b),
        a.scheme == "https"@ && b.scheme == "https"@ ==> p == q,
{
}

} // verus!

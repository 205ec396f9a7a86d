//! Request targets and the absolute addresses of servers.

use vstd::prelude::*;

use crate::multipart::optional_text;

verus! {

/// A request target or absolute address, with the parts that connections and requests read.
#[derive(Debug)]
pub struct Uri {
    pub text: String,
    pub scheme: Option<String>,
    pub authority: Option<String>,
    pub host: Option<String>,
    pub port: Option<u16>,
}

/// The mathematical side of a [`Uri`].
pub struct UriView {
    pub text: Seq<char>,
    pub scheme: Option<Seq<char>>,
    pub authority: Option<Seq<char>>,
    pub host: Option<Seq<char>>,
    pub port: Option<u16>,
}

impl View for Uri {
    type V = UriView;

    open spec fn view(&self) -> UriView {
        UriView {
            text: self.text@,
            scheme: optional_text(self.scheme),
            authority: optional_text(self.authority),
            host: optional_text(self.host),
            port: self.port,
        }
    }
}

/// What `http::Uri` makes of a text: its parts, or the reason why it has none.
pub uninterp spec fn uri_parsed(text: Seq<char>) -> Result<UriView, Seq<char>>;

/// A parse result states what `outcome` says.
pub open spec fn uri_states(
    r: Result<Uri, String>,
    outcome: Result<UriView, Seq<char>>,
) -> bool {
    match r {
        Ok(uri) => outcome == Ok::<UriView, Seq<char>>(uri@),
        Err(reason) => outcome == Err::<UriView, Seq<char>>(reason@),
    }
}

/// `http::Uri` parsed from a text, with its display form, scheme, authority, host and port.
#[verifier::external_body]
fn parse_uri(text: &str) -> (r: Result<Uri, String>)
    ensures
        uri_states(r, uri_parsed(text@)),
{
    match text.parse::<http::Uri>() {
        Ok(uri) => Ok(
            Uri {
                text: uri.to_string(),
                scheme: uri.scheme_str().map(str::to_owned),
                authority: uri.authority().map(|authority| authority.as_str().to_owned()),
                host: uri.host().map(str::to_owned),
                port: uri.port_u16(),
            },
        ),
        Err(error) => Err(error.to_string()),
    }
}

impl Uri {
    /// The target `/`.
    pub fn root() -> (r: Uri)
        ensures
            r@ == (UriView { text: "/"@, scheme: None, authority: None, host: None, port: None }),
    {
        Uri { text: "/".to_owned(), scheme: None, authority: None, host: None, port: None }
    }

    /// Read a request target or an absolute address.
    pub fn parse(text: &str) -> (r: Result<Uri, String>)
        ensures
            uri_states(r, uri_parsed(text@)),
    {
        parse_uri(text)
    }
}

} // verus!

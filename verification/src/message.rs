//! Request methods and protocol versions.

use vstd::prelude::*;

use crate::text::text_eq;

verus! {

/// A request method, given by its name. Names are case-sensitive.
#[derive(Debug)]
pub struct Method {
    name: String,
}

impl View for Method {
    type V = Seq<char>;

    closed spec fn view(&self) -> Seq<char> {
        self.name@
    }
}

impl Method {
    /// The method with the given name.
    pub fn named(name: &str) -> (r: Method)
        ensures
            r@ == name@,
    {
        Method { name: name.to_owned() }
    }

    pub fn get() -> (r: Method)
        ensures
            r@ == "GET"@,
    {
        Method::named("GET")
    }

    pub fn head() -> (r: Method)
        ensures
            r@ == "HEAD"@,
    {
        Method::named("HEAD")
    }

    pub fn post() -> (r: Method)
        ensures
            r@ == "POST"@,
    {
        Method::named("POST")
    }

    pub fn as_str(&self) -> (r: &str)
        ensures
            r@ == self@,
    {
        self.name.as_str()
    }

    /// Whether this is the method with the given name.
    pub fn is(&self, name: &str) -> (r: bool)
        ensures
            r == (self@ == name@),
    {
        text_eq(self.name.as_str(), name)
    }
}

impl Clone for Method {
    fn clone(&self) -> (r: Method)
        ensures
            r@ == self@,
    {
        Method { name: self.name.clone() }
    }
}

/// The protocol version of a message.
#[derive(Debug, Clone, Copy, PartialEq, Eq, Structural)]
pub enum Version {
    Http10,
    Http11,
}

impl Version {
    /// The version as it stands in a start line.
    pub open spec fn text(self) -> Seq<char> {
        match self {
            Version::Http10 => "HTTP/1.0"@,
            Version::Http11 => "HTTP/1.1"@,
        }
    }

    pub fn as_str(self) -> (r: &'static str)
        ensures
            r@ == self.text(),
    {
        match self {
            Version::Http10 => "HTTP/1.0",
            Version::Http11 => "HTTP/1.1",
        }
    }
}

} // verus!

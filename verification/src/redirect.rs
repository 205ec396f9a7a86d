//! Following redirects within a policy.

use vstd::prelude::*;
use vstd::string::*;

use crate::builder::RedirectPolicy;
use crate::error::{failure, Error, ErrorKind, ErrorView};
use crate::exchange::BufferedResponse;
use crate::headers::{
    ascii_text, lemma_without_names, names, names_distinct, values_of, visible, visible_text,
    without_names, FieldName, Headers,
};
use crate::message::Method;
use crate::policy::{
    bodyless, is_redirect, redirect_failure, redirects, validate_redirect, RequestBody,
};
use crate::stats::{count, counted, ClientStats};
use crate::text::{string_of, text_eq};
use crate::url::{same_origin, same_origin_as, url_joined, without_fragment, Url, UrlView};

verus! {

/// A request as redirects have changed it, and the addresses it has been sent to.
#[derive(Debug)]
pub struct RedirectState {
    pub method: Method,
    pub url: Url,
    pub headers: Headers,
    pub body: RequestBody,
    pub visited: Vec<String>,
    pub hops: usize,
}

/// The texts of a list of strings.
pub open spec fn string_views(v: Seq<String>) -> Seq<Seq<char>> {
    v.map_values(|text: String| text@)
}

/// Where a response sends a request.
pub enum Direction {
    /// The response is the answer.
    Stay,
    /// The request goes on to the given reference.
    Go(Seq<char>),
    /// The redirect cannot be followed.
    Refuse(ErrorView),
}

/// Where a response sends a request.
pub open spec fn direction(
    policy: RedirectPolicy,
    method: Seq<char>,
    replayable: bool,
    hops: nat,
    status: u16,
    headers: Seq<(Seq<char>, Seq<Seq<u8>>)>,
) -> Direction {
    let locations = values_of(headers, "location"@);
    if policy.hop_limit() is None || !redirects(status) || locations.len() == 0 {
        Direction::Stay
    } else if (status == 301 || status == 302) && !bodyless(method) {
        Direction::Stay
    } else if (status == 307 || status == 308) && !replayable {
        Direction::Refuse(
            failure(
                ErrorKind::InvalidInput,
                "request body is not replayable across this redirect"@,
            ),
        )
    } else if hops >= policy.hop_limit()->0 {
        Direction::Refuse(failure(ErrorKind::InvalidData, "HTTP redirect hop limit exceeded"@))
    } else if !visible(locations[0]) {
        Direction::Refuse(
            failure(
                ErrorKind::InvalidData,
                "invalid redirect Location header: failed to convert header to a str"@,
            ),
        )
    } else {
        Direction::Go(ascii_text(locations[0]))
    }
}

/// Whether a redirect target is accepted, for what the outside parser makes of the reference.
pub open spec fn accepted_target(
    policy: RedirectPolicy,
    source: UrlView,
    visited: Seq<Seq<char>>,
    joined: Result<UrlView, Seq<char>>,
) -> Result<UrlView, ErrorView> {
    match joined {
        Err(reason) => Err(
            failure(ErrorKind::InvalidData, "invalid redirect target: "@ + reason),
        ),
        Ok(target) => match redirect_failure(policy, source, target) {
            Some(e) => Err(e),
            None => if visited.contains(without_fragment(target.text)) {
                Err(failure(ErrorKind::InvalidData, "HTTP redirect loop detected"@))
            } else {
                Ok(target)
            },
        },
    }
}

/// The fields that describe a body.
pub open spec fn body_field_names() -> Seq<Seq<char>> {
    seq!["content-type"@, "content-length"@, "transfer-encoding"@]
}

/// The request becomes a GET without a body.
pub open spec fn becomes_get(status: u16, method: Seq<char>) -> bool {
    status == 303 && method != "HEAD"@
}

/// The fields that go along with a redirected request: none of the sensitive ones leaves the
/// origin, and a request that lost its body has none that describe one.
pub open spec fn redirected_headers(
    groups: Seq<(Seq<char>, Seq<Seq<u8>>)>,
    sensitive: Seq<Seq<char>>,
    same: bool,
    get: bool,
) -> Seq<(Seq<char>, Seq<Seq<u8>>)> {
    let kept = if same {
        groups
    } else {
        without_names(groups, sensitive)
    };
    if get {
        without_names(kept, body_field_names())
    } else {
        kept
    }
}

/// A redirect to another origin takes no sensitive field along, and one within the origin keeps
/// every field that does not describe a dropped body.
pub proof fn lemma_credentials_stay_in_origin(
    groups: Seq<(Seq<char>, Seq<Seq<u8>>)>,
    sensitive: Seq<Seq<char>>,
    get: bool,
    name: Seq<char>,
)
    requires
        names_distinct(groups),
    ensures
        sensitive.contains(name) ==> values_of(
            redirected_headers(groups, sensitive, false, get),
            name,
        ).len() == 0,
        !body_field_names().contains(name) ==> values_of(
            redirected_headers(groups, sensitive, true, get),
            name,
        ) == values_of(groups, name),
        !body_field_names().contains(name) && !sensitive.contains(name) ==> values_of(
            redirected_headers(groups, sensitive, false, get),
            name,
        ) == values_of(groups, name),
{
    lemma_without_names(groups, sensitive, name);
    lemma_without_names(groups, body_field_names(), name);
    lemma_without_names(without_names(groups, sensitive), body_field_names(), name);
}

/// Redirects are followed only under a policy that allows them, at most as often as it allows, and
/// never with a body that cannot be sent again where the status asks for the same body.
pub proof fn lemma_redirects_are_bounded(
    policy: RedirectPolicy,
    method: Seq<char>,
    replayable: bool,
    hops: nat,
    status: u16,
    headers: Seq<(Seq<char>, Seq<Seq<u8>>)>,
)
    ensures
        direction(policy, method, replayable, hops, status, headers) is Go ==> {
            &&& policy != RedirectPolicy::Disabled
            &&& hops < policy.hop_limit()->0
            &&& redirects(status)
            &&& (status == 307 || status == 308 ==> replayable)
            &&& (status == 301 || status == 302 ==> bodyless(method))
        },
        policy == RedirectPolicy::Disabled ==> direction(
            policy,
            method,
            replayable,
            hops,
            status,
            headers,
        ) is Stay,
{
}

/// An accepted target was not visited, keeps to the origin under a same-origin policy, never
/// leaves https for http without leave, and carries no credentials.
pub proof fn lemma_accepted_target(
    policy: RedirectPolicy,
    source: UrlView,
    visited: Seq<Seq<char>>,
    joined: Result<UrlView, Seq<char>>,
)
    requires
        accepted_target(policy, source, visited, joined) is Ok,
    ensures
        ({
            let target = accepted_target(policy, source, visited, joined)->Ok_0;
            &&& !visited.contains(without_fragment(target.text))
            &&& (policy is SameOrigin ==> same_origin_as(source, target))
            &&& (policy is CrossOrigin && !policy->allow_https_downgrade ==> !(source.scheme
                == "https"@ && target.scheme == "http"@))
            &&& target.username.len() == 0 && target.password is None
            &&& (target.scheme == "http"@ || target.scheme == "https"@)
        }),
{
}

/// A request that goes on to an accepted target has still been sent nowhere twice.
pub proof fn lemma_no_address_twice(
    policy: RedirectPolicy,
    source: UrlView,
    visited: Seq<Seq<char>>,
    joined: Result<UrlView, Seq<char>>,
)
    requires
        visited.no_duplicates(),
        accepted_target(policy, source, visited, joined) is Ok,
    ensures
        visited.push(
            without_fragment(accepted_target(policy, source, visited, joined)->Ok_0.text),
        ).no_duplicates(),
{
    let text = without_fragment(accepted_target(policy, source, visited, joined)->Ok_0.text);
    let after = visited.push(text);
    assert forall|i: int, j: int|
        0 <= i < after.len() && 0 <= j < after.len() && i != j implies after[i] != after[j] by {
        if i < visited.len() {
            assert(visited.contains(visited[i]));
        }
        if j < visited.len() {
            assert(visited.contains(visited[j]));
        }
    }
}

/// What a request is made of, and where it has been.
pub struct RequestView {
    pub method: Seq<char>,
    pub url: UrlView,
    pub headers: Seq<(Seq<char>, Seq<Seq<u8>>)>,
    pub body: RequestBody,
    pub visited: Seq<Seq<char>>,
    pub hops: nat,
}

/// A request before its first send.
pub open spec fn first_request(
    method: Seq<char>,
    url: UrlView,
    headers: Seq<(Seq<char>, Seq<Seq<u8>>)>,
    body: RequestBody,
) -> RequestView {
    RequestView {
        method,
        url,
        headers,
        body,
        visited: seq![without_fragment(url.text)],
        hops: 0,
    }
}

/// A request after it was sent on to a target, as a status asked.
pub open spec fn sent_on(
    request: RequestView,
    target: UrlView,
    status: u16,
    sensitive: Seq<Seq<char>>,
) -> RequestView {
    let get = becomes_get(status, request.method);
    RequestView {
        method: if get {
            "GET"@
        } else {
            request.method
        },
        url: target,
        headers: redirected_headers(
            request.headers,
            sensitive,
            same_origin_as(request.url, target),
            get,
        ),
        body: if get {
            RequestBody::Empty
        } else {
            request.body
        },
        visited: request.visited.push(without_fragment(target.text)),
        hops: request.hops + 1,
    }
}

impl RedirectState {
    /// What the request is made of, and where it has been.
    pub open spec fn request(&self) -> RequestView {
        RequestView {
            method: self.method@,
            url: self.url@,
            headers: self.headers@,
            body: self.body,
            visited: string_views(self.visited@),
            hops: self.hops as nat,
        }
    }
}

fn has_visited(visited: &Vec<String>, text: &str) -> (r: bool)
    ensures
        r == string_views(visited@).contains(text@),
{
    let mut i: usize = 0;
    while i < visited.len()
        invariant
            i <= visited@.len(),
            forall|j: int| 0 <= j < i ==> string_views(visited@)[j] != text@,
        decreases visited@.len() - i,
    {
        proof {
            assert(string_views(visited@)[i as int] == visited@[i as int]@);
        }
        if text_eq(visited[i].as_str(), text) {
            return true;
        }
        i += 1;
    }
    false
}

impl RedirectState {
    /// A request before its first send.
    pub fn new(method: Method, url: Url, headers: Headers, body: RequestBody) -> (r: RedirectState)
        ensures
            r.request() == first_request(method@, url@, headers@, body),
            r.method@ == method@,
            r.url@ == url@,
            r.headers == headers,
            r.body == body,
            string_views(r.visited@) == seq![without_fragment(url@.text)],
            r.hops == 0,
    {
        let mut visited: Vec<String> = Vec::new();
        visited.push(url.normalized());
        proof {
            assert(string_views(visited@) =~= seq![without_fragment(url@.text)]);
        }
        RedirectState { method, url, headers, body, visited, hops: 0 }
    }

    /// Whether a redirect target is accepted, for what the outside parser made of the reference.
    pub fn accept_target(&self, policy: RedirectPolicy, joined: Result<Url, String>) -> (r: Result<
        Url,
        Error,
    >)
        requires
            policy != RedirectPolicy::Disabled,
        ensures
            ({
                let outcome = accepted_target(
                    policy,
                    self.url@,
                    string_views(self.visited@),
                    match joined {
                        Ok(url) => Ok(url@),
                        Err(reason) => Err(reason@),
                    },
                );
                match r {
                    Ok(target) => outcome == Ok::<UrlView, ErrorView>(target@),
                    Err(e) => outcome == Err::<UrlView, ErrorView>(e@),
                }
            }),
    {
        let target = match joined {
            Ok(target) => target,
            Err(reason) => {
                let mut message = "invalid redirect target: ".to_owned();
                message.append(reason.as_str());
                return Err(Error::with_message(ErrorKind::InvalidData, message));
            },
        };
        match validate_redirect(policy, &self.url, &target) {
            Ok(_) => {},
            Err(e) => {
                return Err(e);
            },
        }
        let normalized = target.normalized();
        if has_visited(&self.visited, normalized.as_str()) {
            return Err(Error::new(ErrorKind::InvalidData, "HTTP redirect loop detected"));
        }
        Ok(target)
    }

    /// The reference to which a response sends the request, if it does.
    pub fn location(&self, policy: RedirectPolicy, status: u16, headers: &Headers) -> (r: Result<
        Option<String>,
        Error,
    >)
        ensures
            match direction(
                policy,
                self.method@,
                self.body.replayable(),
                self.hops as nat,
                status,
                headers@,
            ) {
                Direction::Stay => r matches Ok(None),
                Direction::Go(reference) => r matches Ok(Some(text)) && text@ == reference,
                Direction::Refuse(e) => r is Err && r->Err_0@ == e,
            },
    {
        let max_hops: usize = match policy.max_hops() {
            Some(max_hops) => max_hops,
            None => {
                return Ok(None);
            },
        };
        if !is_redirect(status) {
            return Ok(None);
        }
        let location = match headers.get(&FieldName::location()) {
            Some(location) => location,
            None => {
                return Ok(None);
            },
        };
        if (status == 301 || status == 302) && !(self.method.is("GET") || self.method.is("HEAD")) {
            return Ok(None);
        }
        if (status == 307 || status == 308) && !self.body.is_replayable() {
            return Err(
                Error::new(
                    ErrorKind::InvalidInput,
                    "request body is not replayable across this redirect",
                ),
            );
        }
        if self.hops >= max_hops {
            return Err(Error::new(ErrorKind::InvalidData, "HTTP redirect hop limit exceeded"));
        }
        match visible_text(location.as_slice()) {
            Some(text) => Ok(Some(string_of(text.as_slice()))),
            None => Err(
                Error::new(
                    ErrorKind::InvalidData,
                    "invalid redirect Location header: failed to convert header to a str",
                ),
            ),
        }
    }

    /// The address to which a response sends the request, if it does.
    pub fn plan(&self, policy: RedirectPolicy, status: u16, headers: &Headers) -> (r: Result<
        Option<Url>,
        Error,
    >)
        ensures
            match direction(
                policy,
                self.method@,
                self.body.replayable(),
                self.hops as nat,
                status,
                headers@,
            ) {
                Direction::Stay => r matches Ok(None),
                Direction::Refuse(e) => r is Err && r->Err_0@ == e,
                Direction::Go(reference) => {
                    let outcome = accepted_target(
                        policy,
                        self.url@,
                        string_views(self.visited@),
                        url_joined(self.url@.text, reference),
                    );
                    match r {
                        Ok(Some(target)) => outcome == Ok::<UrlView, ErrorView>(target@),
                        Ok(None) => false,
                        Err(e) => outcome == Err::<UrlView, ErrorView>(e@),
                    }
                },
            },
            r matches Ok(Some(_)) ==> policy.hop_limit() is Some && self.hops
                < policy.hop_limit()->0,
    {
        let reference = match self.location(policy, status, headers) {
            Ok(Some(reference)) => reference,
            Ok(None) => {
                return Ok(None);
            },
            Err(e) => {
                return Err(e);
            },
        };
        match self.accept_target(policy, self.url.join(reference.as_str())) {
            Ok(target) => Ok(Some(target)),
            Err(e) => Err(e),
        }
    }

    /// Send the request on to an accepted target.
    pub fn follow(
        &mut self,
        target: Url,
        status: u16,
        sensitive: &Vec<FieldName>,
        stats: &mut ClientStats,
    )
        requires
            old(self).hops < usize::MAX,
        ensures
            final(self).request() == sent_on(
                old(self).request(),
                target@,
                status,
                names(sensitive@),
            ),
            final(self).url@ == target@,
            final(self).hops == old(self).hops + 1,
            string_views(final(self).visited@) == string_views(old(self).visited@).push(
                without_fragment(target@.text),
            ),
            final(self).headers@ == redirected_headers(
                old(self).headers@,
                names(sensitive@),
                same_origin_as(old(self).url@, target@),
                becomes_get(status, old(self).method@),
            ),
            old(self).headers.wf() ==> final(self).headers.wf(),
            if becomes_get(status, old(self).method@) {
                final(self).method@ == "GET"@ && final(self).body is Empty
            } else {
                final(self).method@ == old(self).method@ && final(self).body == old(self).body
            },
            *final(stats) == (ClientStats {
                redirects_followed: counted(old(stats).redirects_followed),
                ..*old(stats)
            }),
    {
        self.visited.push(target.normalized());
        proof {
            assert(string_views(self.visited@) =~= string_views(old(self).visited@).push(
                without_fragment(target@.text),
            ));
        }
        if !same_origin(&self.url, &target) {
            self.headers.remove_all(sensitive);
        }
        if status == 303 && !self.method.is("HEAD") {
            self.method = Method::get();
            self.body = RequestBody::Empty;
            let mut described: Vec<FieldName> = Vec::new();
            described.push(FieldName::content_type());
            described.push(FieldName::content_length());
            described.push(FieldName::transfer_encoding());
            proof {
                assert(names(described@) =~= body_field_names());
            }
            self.headers.remove_all(&described);
        }
        self.url = target;
        self.hops = self.hops + 1;
        stats.redirects_followed = count(stats.redirects_followed);
    }
}

/// What follows a response.
#[derive(Debug)]
pub enum RedirectStep {
    /// The response is the answer.
    Answer(BufferedResponse),
    /// The request goes on from the given address, as the given status asked.
    Follow { status: u16, from: Url },
}

impl RedirectState {
    /// Take a response: it is the answer, or sends the request on within the policy.
    pub fn advance(
        &mut self,
        response: BufferedResponse,
        policy: RedirectPolicy,
        sensitive: &Vec<FieldName>,
        stats: &mut ClientStats,
    ) -> (r: Result<RedirectStep, Error>)
        ensures
            old(self).headers.wf() ==> final(self).headers.wf(),
            match direction(
                policy,
                old(self).method@,
                old(self).body.replayable(),
                old(self).hops as nat,
                response.status,
                response.headers@,
            ) {
                Direction::Stay => {
                    &&& r == Ok::<RedirectStep, Error>(RedirectStep::Answer(response))
                    &&& *final(self) == *old(self)
                    &&& *final(stats) == *old(stats)
                },
                Direction::Refuse(e) => {
                    &&& r is Err && r->Err_0@ == e
                    &&& *final(self) == *old(self)
                    &&& *final(stats) == *old(stats)
                },
                Direction::Go(reference) => match accepted_target(
                    policy,
                    old(self).url@,
                    string_views(old(self).visited@),
                    url_joined(old(self).url@.text, reference),
                ) {
                    Err(e) => {
                        &&& r is Err && r->Err_0@ == e
                        &&& *final(self) == *old(self)
                        &&& *final(stats) == *old(stats)
                    },
                    Ok(target) => {
                        let get = becomes_get(response.status, old(self).method@);
                        &&& final(self).request() == sent_on(
                            old(self).request(),
                            target,
                            response.status,
                            names(sensitive@),
                        )
                        &&& r matches Ok(RedirectStep::Follow { status, from })
                        &&& status == response.status
                        &&& from@ == old(self).url@
                        &&& final(self).url@ == target
                        &&& final(self).hops == old(self).hops + 1
                        &&& string_views(final(self).visited@) == string_views(
                            old(self).visited@,
                        ).push(without_fragment(target.text))
                        &&& final(self).headers@ == redirected_headers(
                            old(self).headers@,
                            names(sensitive@),
                            same_origin_as(old(self).url@, target),
                            get,
                        )
                        &&& final(self).method@ == (if get {
                            "GET"@
                        } else {
                            old(self).method@
                        })
                        &&& final(self).body == (if get {
                            RequestBody::Empty
                        } else {
                            old(self).body
                        })
                        &&& *final(stats) == (ClientStats {
                            redirects_followed: counted(old(stats).redirects_followed),
                            ..*old(stats)
                        })
                    },
                },
            },
    {
        match self.plan(policy, response.status, &response.headers) {
            Ok(Some(target)) => {
                let from = self.url.clone();
                let status: u16 = response.status;
                self.follow(target, status, sensitive, stats);
                Ok(RedirectStep::Follow { status, from })
            },
            Ok(None) => Ok(RedirectStep::Answer(response)),
            Err(e) => Err(e),
        }
    }
}

} // verus!

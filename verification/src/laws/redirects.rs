//! Which redirects are followed, where to, and what goes along.

use vstd::prelude::*;

use crate::builder::RedirectPolicy;
use crate::error::ErrorKind;
use crate::headers::{lemma_without_names, names_distinct, values_of, visible, without_names};
use crate::laws::lists::printable;
use crate::laws::origins::same_letters;
use crate::policy::{redirect_failure, RequestBody};
use crate::redirect::{
    accepted_target, becomes_get, body_field_names, direction, first_request, redirected_headers,
    sent_on, Direction, RequestView,
};
use crate::url::{same_origin_as, without_fragment, UrlView};

verus! {

/// A policy lets one more redirect be followed after `hops` of them.
pub open spec fn allows_hop(policy: RedirectPolicy, hops: nat) -> bool {
    match policy {
        RedirectPolicy::Disabled => false,
        RedirectPolicy::SameOrigin { max_hops } => hops < max_hops,
        RedirectPolicy::CrossOrigin { max_hops, allow_https_downgrade } => hops < max_hops,
    }
}

/// A status asks a request with the given method to go elsewhere, as far as this library does so
/// without asking: GET and HEAD for 301 and 302, and every method for 303, 307 and 308.
pub open spec fn sends_on(status: u16, method: Seq<char>) -> bool {
    ||| (status == 301 || status == 302) && (method == "GET"@ || method == "HEAD"@)
    ||| status == 303 || status == 307 || status == 308
}

proof fn lemma_readable(value: Seq<u8>)
    ensures
        visible(value) <==> printable(value),
{
    if visible(value) {
        assert forall|i: int| 0 <= i < value.len() implies 32 <= #[trigger] value[i] < 127
            || value[i] == 9 by {
            assert(crate::headers::visible_byte(value[i]));
        }
    }
    if printable(value) {
        assert forall|i: int| 0 <= i < value.len() implies crate::headers::visible_byte(
            #[trigger] value[i],
        ) by {
            assert(32 <= value[i] < 127 || value[i] == 9);
        }
    }
}

/// Redirects that should be followed are followed: under a policy with hops left, a readable
/// Location sends the request on to exactly what it says where the status is 301 or 302 and the
/// method GET or HEAD, where the status is 303, and where it is 307 or 308 and the body can be
/// sent again.
pub proof fn lemma_redirects_are_followed(
    policy: RedirectPolicy,
    method: Seq<char>,
    replayable: bool,
    hops: nat,
    status: u16,
    headers: Seq<(Seq<char>, Seq<Seq<u8>>)>,
)
    requires
        allows_hop(policy, hops),
        values_of(headers, "location"@).len() > 0,
        printable(values_of(headers, "location"@)[0]),
        ({
            ||| (status == 301 || status == 302) && (method == "GET"@ || method == "HEAD"@)
            ||| status == 303
            ||| (status == 307 || status == 308) && replayable
        }),
    ensures
        direction(policy, method, replayable, hops, status, headers) matches Direction::Go(
            reference,
        ) && reference.len() == values_of(headers, "location"@)[0].len() && forall|i: int|
            0 <= i < reference.len() ==> #[trigger] reference[i] == values_of(
                headers,
                "location"@,
            )[0][i] as char,
{
    lemma_readable(values_of(headers, "location"@)[0]);
}

/// A response is the answer exactly where redirects are disabled, its status does not send the
/// request on, or it has no Location.
pub proof fn lemma_answers_are_not_redirects(
    policy: RedirectPolicy,
    method: Seq<char>,
    replayable: bool,
    hops: nat,
    status: u16,
    headers: Seq<(Seq<char>, Seq<Seq<u8>>)>,
)
    ensures
        direction(policy, method, replayable, hops, status, headers) is Stay <==> (policy
            is Disabled || !sends_on(status, method) || values_of(headers, "location"@).len()
            == 0),
{
}

/// A redirect is refused exactly where it would be followed but for the body that cannot be sent
/// again (reported as invalid input), the hops used up, or the Location that cannot be read
/// (reported as invalid data).
pub proof fn lemma_refused_redirects(
    policy: RedirectPolicy,
    method: Seq<char>,
    replayable: bool,
    hops: nat,
    status: u16,
    headers: Seq<(Seq<char>, Seq<Seq<u8>>)>,
)
    ensures
        direction(policy, method, replayable, hops, status, headers) is Refuse <==> (!(policy
            is Disabled) && sends_on(status, method) && values_of(headers, "location"@).len() > 0
            && (((status == 307 || status == 308) && !replayable) || !allows_hop(policy, hops)
            || !printable(values_of(headers, "location"@)[0]))),
        direction(policy, method, replayable, hops, status, headers) matches Direction::Refuse(e)
            ==> (e.kind == ErrorKind::InvalidInput <==> (status == 307 || status == 308)
            && !replayable) && (e.kind == ErrorKind::InvalidInput || e.kind
            == ErrorKind::InvalidData),
{
    if values_of(headers, "location"@).len() > 0 {
        lemma_readable(values_of(headers, "location"@)[0]);
    }
}

/// The permanent and the temporary form of a redirect send a request to the same place.
pub proof fn lemma_permanence_does_not_matter(
    policy: RedirectPolicy,
    method: Seq<char>,
    replayable: bool,
    hops: nat,
    headers: Seq<(Seq<char>, Seq<Seq<u8>>)>,
)
    ensures
        direction(policy, method, replayable, hops, 301, headers) == direction(
            policy,
            method,
            replayable,
            hops,
            302,
            headers,
        ),
        direction(policy, method, replayable, hops, 307, headers) == direction(
            policy,
            method,
            replayable,
            hops,
            308,
            headers,
        ),
        method == "GET"@ || method == "HEAD"@ ==> direction(
            policy,
            method,
            replayable,
            hops,
            301,
            headers,
        ) == direction(policy, method, replayable, hops, 303, headers),
        replayable ==> direction(policy, method, replayable, hops, 303, headers) == direction(
            policy,
            method,
            replayable,
            hops,
            307,
            headers,
        ),
{
}

/// Two addresses have the same scheme and host, without regard to letter case, and the same port.
pub open spec fn one_origin(a: UrlView, b: UrlView) -> bool {
    &&& same_letters(a.scheme, b.scheme)
    &&& match (a.host, b.host) {
        (Some(x), Some(y)) => same_letters(x, y),
        (None, None) => true,
        _ => false,
    }
    &&& a.port == b.port
}

/// A target is accepted, unchanged, exactly where the reference could be resolved to an http or
/// https address without credentials that the policy allows and that was not visited: one of the
/// same origin under a same-origin policy, and under a cross-origin policy any one but an http
/// address reached from an https one without leave.
pub proof fn lemma_targets_are_accepted(
    policy: RedirectPolicy,
    source: UrlView,
    visited: Seq<Seq<char>>,
    joined: Result<UrlView, Seq<char>>,
)
    requires
        !(policy is Disabled),
    ensures
        accepted_target(policy, source, visited, joined) is Ok <==> (joined matches Ok(target) && {
            &&& target.scheme == "http"@ || target.scheme == "https"@
            &&& target.username.len() == 0 && target.password is None
            &&& match policy {
                RedirectPolicy::Disabled => false,
                RedirectPolicy::SameOrigin { max_hops } => one_origin(source, target),
                RedirectPolicy::CrossOrigin { max_hops, allow_https_downgrade } =>
                    allow_https_downgrade || source.scheme != "https"@ || target.scheme
                    == "https"@,
            }
            &&& !visited.contains(without_fragment(target.text))
        }),
        accepted_target(policy, source, visited, joined) is Ok ==> accepted_target(
            policy,
            source,
            visited,
            joined,
        )->Ok_0 == joined->Ok_0,
{
    if let Ok(target) = joined {
        crate::laws::origins::lemma_same_origin(source, target);
        lemma_schemes_differ();
    }
}

proof fn lemma_schemes_differ()
    ensures
        "http"@ != "https"@,
{
    reveal_strlit("http");
    reveal_strlit("https");
    assert("http"@.len() != "https"@.len());
}

/// How a target is refused: an unresolvable one, a strange scheme and a visited one as invalid
/// data, credentials and what the policy forbids as a denied permission.
pub proof fn lemma_refused_targets(
    policy: RedirectPolicy,
    source: UrlView,
    visited: Seq<Seq<char>>,
    joined: Result<UrlView, Seq<char>>,
)
    requires
        accepted_target(policy, source, visited, joined) is Err,
    ensures
        ({
            let kind = accepted_target(policy, source, visited, joined)->Err_0.kind;
            match joined {
                Err(_) => kind == ErrorKind::InvalidData,
                Ok(target) => if target.scheme != "http"@ && target.scheme != "https"@ {
                    kind == ErrorKind::InvalidData
                } else if target.username.len() > 0 || target.password is Some || redirect_failure(
                    policy,
                    source,
                    target,
                ) is Some {
                    kind == ErrorKind::PermissionDenied
                } else {
                    kind == ErrorKind::InvalidData
                },
            }
        }),
{
}

/// Only 303 changes a request, into a GET, and then not a HEAD: every other redirect keeps method
/// and body.
pub proof fn lemma_only_see_other_changes_the_method(status: u16, method: Seq<char>)
    ensures
        status != 303 ==> !becomes_get(status, method),
        status == 303 && method != "HEAD"@ ==> becomes_get(status, method),
        status == 303 && method == "HEAD"@ ==> !becomes_get(status, method),
{
}

/// What goes along: a field is left behind exactly where it is sensitive and the origin changes,
/// or where it describes the body that the request lost; every other field keeps its values.
pub proof fn lemma_fields_go_along(
    groups: Seq<(Seq<char>, Seq<Seq<u8>>)>,
    sensitive: Seq<Seq<char>>,
    same: bool,
    get: bool,
    name: Seq<char>,
)
    requires
        names_distinct(groups),
    ensures
        values_of(redirected_headers(groups, sensitive, same, get), name) == (if (!same
            && sensitive.contains(name)) || (get && (name == "content-type"@ || name
            == "content-length"@ || name == "transfer-encoding"@)) {
            Seq::<Seq<u8>>::empty()
        } else {
            values_of(groups, name)
        }),
{
    lemma_without_names(groups, sensitive, name);
    lemma_without_names(groups, body_field_names(), name);
    lemma_without_names(without_names(groups, sensitive), body_field_names(), name);
    let described = body_field_names();
    assert(described[0] == "content-type"@ && described[1] == "content-length"@ && described[2]
        == "transfer-encoding"@);
    assert(described.contains(name) <==> (name == "content-type"@ || name == "content-length"@
        || name == "transfer-encoding"@));
    assert(values_of(redirected_headers(groups, sensitive, same, get), name) =~= (if (!same
        && sensitive.contains(name)) || (get && (name == "content-type"@ || name
        == "content-length"@ || name == "transfer-encoding"@)) {
        Seq::<Seq<u8>>::empty()
    } else {
        values_of(groups, name)
    }));
}

/// A request that is sent on asks for the target, has been there and one hop further, and keeps
/// its method and body, but for a 303, which makes a GET without a body of everything but a HEAD.
pub proof fn lemma_requests_are_sent_on(
    request: RequestView,
    target: UrlView,
    status: u16,
    sensitive: Seq<Seq<char>>,
)
    ensures
        ({
            let after = sent_on(request, target, status, sensitive);
            &&& after.url == target
            &&& after.hops == request.hops + 1
            &&& after.visited.len() == request.visited.len() + 1
            &&& after.visited.take(request.visited.len() as int) == request.visited
            &&& after.visited.last() == without_fragment(target.text)
            &&& status != 303 || request.method == "HEAD"@ ==> after.method == request.method
                && after.body == request.body
            &&& status == 303 && request.method != "HEAD"@ ==> after.method == "GET"@
                && after.body is Empty
        }),
{
    let after = sent_on(request, target, status, sensitive);
    assert(after.visited.take(request.visited.len() as int) =~= request.visited);
}

/// A request that is sent on leaves its sensitive fields behind exactly where the target is of
/// another origin, and those that describe its body exactly where it loses that.
pub proof fn lemma_fields_of_requests_that_are_sent_on(
    request: RequestView,
    target: UrlView,
    status: u16,
    sensitive: Seq<Seq<char>>,
    name: Seq<char>,
)
    requires
        names_distinct(request.headers),
    ensures
        values_of(sent_on(request, target, status, sensitive).headers, name) == (if (!one_origin(
            request.url,
            target,
        ) && sensitive.contains(name)) || (status == 303 && request.method != "HEAD"@ && (name
            == "content-type"@ || name == "content-length"@ || name == "transfer-encoding"@)) {
            Seq::<Seq<u8>>::empty()
        } else {
            values_of(request.headers, name)
        }),
{
    crate::laws::origins::lemma_same_origin(request.url, target);
    lemma_fields_go_along(
        request.headers,
        sensitive,
        same_origin_as(request.url, target),
        becomes_get(status, request.method),
        name,
    );
}

/// A request has been to its own address before it was sent on anywhere: a redirect back to it,
/// whatever fragment it names, is a loop.
pub proof fn lemma_redirects_to_the_start_are_refused(
    policy: RedirectPolicy,
    method: Seq<char>,
    url: UrlView,
    headers: Seq<(Seq<char>, Seq<Seq<u8>>)>,
    body: RequestBody,
    source: UrlView,
    target: UrlView,
)
    requires
        without_fragment(target.text) == without_fragment(url.text),
    ensures
        first_request(method, url, headers, body).url == url,
        first_request(method, url, headers, body).method == method,
        first_request(method, url, headers, body).headers == headers,
        first_request(method, url, headers, body).body == body,
        accepted_target(
            policy,
            source,
            first_request(method, url, headers, body).visited,
            Ok::<UrlView, Seq<char>>(target),
        ) is Err,
{
    let visited = first_request(method, url, headers, body).visited;
    assert(visited[0] == without_fragment(url.text));
    assert(visited.contains(without_fragment(target.text)));
}

/// A request as it is sent on again and again.
pub open spec fn sent_on_in_turn(
    requests: Seq<RequestView>,
    targets: Seq<UrlView>,
    statuses: Seq<u16>,
    sensitive: Seq<Seq<char>>,
) -> bool {
    &&& requests.len() == targets.len() + 1
    &&& statuses.len() == targets.len()
    &&& forall|k: int|
        #![trigger targets[k]]
        0 <= k < targets.len() ==> requests[k + 1] == sent_on(
            requests[k],
            targets[k],
            statuses[k],
            sensitive,
        )
}

/// Hops are counted: a request that was sent on `k` times goes on once more only where its policy
/// allows more than `k` hops, and it has been to the address of each of them.
pub proof fn lemma_hops_are_counted(
    policy: RedirectPolicy,
    requests: Seq<RequestView>,
    targets: Seq<UrlView>,
    statuses: Seq<u16>,
    sensitive: Seq<Seq<char>>,
    k: int,
    status: u16,
    headers: Seq<(Seq<char>, Seq<Seq<u8>>)>,
)
    requires
        sent_on_in_turn(requests, targets, statuses, sensitive),
        requests[0].hops == 0,
        0 <= k < requests.len(),
    ensures
        requests[k].hops == k,
        forall|j: int|
            0 <= j < k ==> requests[k].visited.contains(
                without_fragment((#[trigger] targets[j]).text),
            ),
        direction(
            policy,
            requests[k].method,
            requests[k].body.replayable(),
            requests[k].hops,
            status,
            headers,
        ) is Go ==> allows_hop(policy, k as nat),
    decreases k,
{
    if k > 0 {
        lemma_hops_are_counted(
            policy,
            requests,
            targets,
            statuses,
            sensitive,
            k - 1,
            status,
            headers,
        );
        assert(requests[k] == sent_on(
            requests[k - 1],
            targets[k - 1],
            statuses[k - 1],
            sensitive,
        ));
        let before = requests[k - 1].visited;
        let after = requests[k].visited;
        assert forall|j: int| 0 <= j < k implies after.contains(
            without_fragment((#[trigger] targets[j]).text),
        ) by {
            let text = without_fragment(targets[j].text);
            if j < k - 1 {
                assert(before.contains(text));
                let i = choose|i: int| 0 <= i < before.len() && before[i] == text;
                assert(after[i] == text);
            } else {
                assert(after[before.len() as int] == text);
            }
        }
    }
}

} // verus!

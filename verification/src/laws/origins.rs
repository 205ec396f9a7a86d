//! Addresses, their origins and the keys of their connections.

use vstd::prelude::*;

use crate::error::ErrorKind;
use crate::observer::ObservedOrigin;
use crate::text::{decimal, lower_char, lowercase};
use crate::url::{
    connect_text, fragment_mark, origin_of, request_address, same_origin_as, without_fragment,
    OriginView, UrlView,
};

verus! {

/// A letter and the same letter in the other case.
pub open spec fn case_pair(a: char, b: char) -> bool {
    ||| 'A' <= a && a <= 'Z' && (b as u32) == (a as u32) + 32
    ||| 'A' <= b && b <= 'Z' && (a as u32) == (b as u32) + 32
}

/// Two texts differ at most in the case of ASCII letters.
pub open spec fn same_letters(a: Seq<char>, b: Seq<char>) -> bool {
    &&& a.len() == b.len()
    &&& forall|i: int| 0 <= i < a.len() ==> #[trigger] a[i] == b[i] || case_pair(a[i], b[i])
}

/// Case folding brings exactly the texts together that differ in the case of ASCII letters only.
pub proof fn lemma_folding(a: Seq<char>, b: Seq<char>)
    ensures
        lowercase(a) == lowercase(b) <==> same_letters(a, b),
{
    if lowercase(a) == lowercase(b) {
        assert(a.len() == lowercase(a).len());
        assert(b.len() == lowercase(b).len());
        assert forall|i: int| 0 <= i < a.len() implies #[trigger] a[i] == b[i] || case_pair(
            a[i],
            b[i],
        ) by {
            assert(lowercase(a)[i] == lower_char(a[i]));
            assert(lowercase(b)[i] == lower_char(b[i]));
        }
    }
    if same_letters(a, b) {
        assert forall|i: int| 0 <= i < a.len() implies lower_char(a[i]) == lower_char(b[i]) by {
            assert(a[i] == b[i] || case_pair(a[i], b[i]));
        }
        assert(lowercase(a) =~= lowercase(b));
    }
}

/// Two addresses are of one origin exactly where scheme and host agree, without regard to letter
/// case, and the effective port is the same; nothing else matters.
pub proof fn lemma_same_origin(a: UrlView, b: UrlView)
    ensures
        same_origin_as(a, b) <==> {
            &&& same_letters(a.scheme, b.scheme)
            &&& match (a.host, b.host) {
                (Some(x), Some(y)) => same_letters(x, y),
                (None, None) => true,
                _ => false,
            }
            &&& a.port == b.port
        },
{
    lemma_folding(a.scheme, b.scheme);
    if let Some(x) = a.host {
        if let Some(y) = b.host {
            lemma_folding(x, y);
        }
    }
}

/// To be of one origin is an equivalence.
pub proof fn lemma_origins_are_classes(a: UrlView, b: UrlView, c: UrlView)
    ensures
        same_origin_as(a, a),
        same_origin_as(a, b) ==> same_origin_as(b, a),
        same_origin_as(a, b) && same_origin_as(b, c) ==> same_origin_as(a, c),
{
}

/// What is left of an address without its fragment is all that stands before the first `#`.
pub proof fn lemma_fragments_are_cut(text: Seq<char>)
    ensures
        ({
            let kept = without_fragment(text);
            &&& kept.len() <= text.len()
            &&& forall|i: int| 0 <= i < kept.len() ==> #[trigger] kept[i] == text[i] && kept[i]
                != '#'
            &&& kept.len() < text.len() ==> text[kept.len() as int] == '#'
        }),
    decreases text.len(),
{
    if text.len() > 0 && text[0] != '#' {
        let rest = text.drop_first();
        lemma_fragments_are_cut(rest);
        assert(fragment_mark(rest) == without_fragment(rest).len()) by {
            lemma_mark_in_range(rest);
        }
        lemma_mark_in_range(text);
        let kept = without_fragment(text);
        assert(kept.len() == 1 + without_fragment(rest).len());
        assert forall|i: int| 0 <= i < kept.len() implies #[trigger] kept[i] == text[i] && kept[i]
            != '#' by {
            if i > 0 {
                assert(without_fragment(rest)[i - 1] == rest[i - 1]);
            }
        }
    } else {
        assert(without_fragment(text).len() == 0);
    }
}

proof fn lemma_mark_in_range(text: Seq<char>)
    ensures
        0 <= fragment_mark(text) <= text.len(),
    decreases text.len(),
{
    if text.len() > 0 && text[0] != '#' {
        lemma_mark_in_range(text.drop_first());
    }
}

/// A request address is accepted exactly where it could be read, is http or https, and names
/// neither a user nor a password; apart from its fragment it is kept as it is. Everything else is
/// invalid input.
pub proof fn lemma_request_addresses(parsed: Result<UrlView, Seq<char>>)
    ensures
        request_address(parsed) is Ok <==> (parsed matches Ok(url) && (url.scheme == "http"@
            || url.scheme == "https"@) && url.username.len() == 0 && url.password is None),
        request_address(parsed) matches Ok(kept) ==> {
            let url = parsed->Ok_0;
            &&& kept.scheme == url.scheme && kept.host == url.host && kept.port == url.port
            &&& kept.path == url.path && kept.query == url.query
            &&& kept.username == url.username && kept.password == url.password
            &&& kept.text == without_fragment(url.text)
        },
        request_address(parsed) matches Err(e) ==> e.kind == ErrorKind::InvalidInput,
{
}

/// Two addresses of one origin share their connections, whatever else differs in them, and https
/// addresses only under the same TLS profile.
pub proof fn lemma_origins_share_connections(a: UrlView, p: usize, b: UrlView, q: usize)
    requires
        a.host is Some,
        a.port is Some,
        same_origin_as(a, b),
        a.scheme == b.scheme,
    ensures
        origin_of(a, p) is Ok,
        origin_of(b, q) is Ok,
        origin_of(a, p) == origin_of(b, q) <==> (a.scheme == "https"@ ==> p == q),
{
}

/// A key is made of what connections need: scheme, host and port of the address, letters in lower
/// case; an address without a host or a port has none.
pub proof fn lemma_origin_keys(url: UrlView, tls_profile: usize)
    ensures
        origin_of(url, tls_profile) is Ok <==> url.host is Some && url.port is Some,
        origin_of(url, tls_profile) matches Ok(key) ==> {
            &&& same_letters(key.scheme, url.scheme)
            &&& same_letters(key.host, url.host->0)
            &&& forall|i: int|
                0 <= i < key.host.len() ==> !('A' <= #[trigger] key.host[i] && key.host[i] <= 'Z')
            &&& forall|i: int|
                0 <= i < key.scheme.len() ==> !('A' <= #[trigger] key.scheme[i] && key.scheme[i]
                    <= 'Z')
            &&& url.port == Some(key.port)
            &&& key.tls_profile == (if url.scheme == "https"@ {
                tls_profile
            } else {
                0
            })
        },
        origin_of(url, tls_profile) matches Err(e) ==> e.kind == ErrorKind::InvalidInput,
{
    if let Ok(key) = origin_of(url, tls_profile) {
        assert(lowercase(key.scheme) =~= lowercase(url.scheme));
        assert(lowercase(key.host) =~= lowercase(url.host->0));
        lemma_folding(key.scheme, url.scheme);
        lemma_folding(key.host, url.host->0);
    }
}

/// The address of a connection names its host and port: hosts that hold a colon stand in square
/// brackets, all others as they are.
pub proof fn lemma_connect_address(key: OriginView)
    ensures
        key.host.contains(':') ==> connect_text(key) == key.scheme + seq![':', '/', '/', '[']
            + key.host + seq![']', ':'] + decimal(key.port as nat) + seq!['/'],
        !key.host.contains(':') ==> connect_text(key) == key.scheme + seq![':', '/', '/']
            + key.host + seq![':'] + decimal(key.port as nat) + seq!['/'],
{
    reveal_strlit("://");
    reveal_strlit(":");
    reveal_strlit("[");
    reveal_strlit("]");
    reveal_strlit("/");
    let colon = ":"@;
    assert(colon =~= seq![':']);
    if key.host.contains(':') {
        let at = choose|i: int| 0 <= i < key.host.len() && key.host[i] == ':';
        assert(key.host.subrange(at, at + 1) =~= colon);
        assert(crate::text::occurs_at(key.host, colon, at));
        assert(crate::text::has_text(key.host, colon));
        assert(connect_text(key) =~= key.scheme + seq![':', '/', '/', '['] + key.host + seq![
            ']',
            ':',
        ] + decimal(key.port as nat) + seq!['/']);
    } else {
        if crate::text::has_text(key.host, colon) {
            let at = choose|at: int| crate::text::occurs_at(key.host, colon, at);
            assert(key.host.subrange(at, at + 1)[0] == key.host[at]);
            assert(key.host.contains(key.host[at]));
        }
        assert(connect_text(key) =~= key.scheme + seq![':', '/', '/'] + key.host + seq![':']
            + decimal(key.port as nat) + seq!['/']);
    }
}

/// Observers see the scheme, the host and the port of an address, and nothing else of it.
pub proof fn lemma_observers_see_origins(origin: ObservedOrigin<'_>, a: UrlView, b: UrlView)
    requires
        origin.shows_url(a),
    ensures
        origin.scheme@ == a.scheme,
        a.host matches Some(host) ==> origin.host@ == host,
        a.host is None ==> origin.host@.len() == 0,
        a.port matches Some(port) ==> origin.port == port,
        a.port is None ==> origin.port == 0,
        a.scheme == b.scheme && a.host == b.host && a.port == b.port ==> origin.shows_url(b),
{
    reveal_strlit("");
}

/// Observers see the scheme, the host and the port that connections are pooled by.
pub proof fn lemma_observers_see_keys(origin: ObservedOrigin<'_>, key: OriginView)
    requires
        origin.shows_key(key),
    ensures
        origin.scheme@ == key.scheme,
        origin.host@ == key.host,
        origin.port == key.port,
{
}

} // verus!

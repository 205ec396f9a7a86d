//! Request targets hold the whole path and query of an address.

use vstd::prelude::*;

use crate::error::{ErrorKind, ErrorView};
use crate::uri::UriView;
use crate::url::{target_of, target_text, UrlView};

verus! {

/// The position of the first `?` in a text, or its length.
pub open spec fn question_mark(s: Seq<char>) -> int
    decreases s.len(),
{
    if s.len() == 0 || s[0] == '?' {
        0
    } else {
        1 + question_mark(s.drop_first())
    }
}

proof fn lemma_question_mark(s: Seq<char>, at: int)
    requires
        0 <= at <= s.len(),
        forall|i: int| 0 <= i < at ==> s[i] != '?',
        at < s.len() ==> s[at] == '?',
    ensures
        question_mark(s) == at,
    decreases s.len(),
{
    if s.len() > 0 && s[0] != '?' {
        lemma_question_mark(s.drop_first(), at - 1);
    }
}

/// A target is split again at its first `?`: what stands before is the path of the address, or `/`
/// for an empty one, and what stands after is its whole query. Without a query there is no `?`.
pub proof fn lemma_target_splits(url: UrlView)
    requires
        !url.path.contains('?'),
    ensures
        ({
            let target = target_text(url);
            let at = question_mark(target);
            &&& 0 < at <= target.len()
            &&& url.path.len() > 0 ==> target.take(at) == url.path
            &&& url.path.len() == 0 ==> target.take(at) == seq!['/']
            &&& match url.query {
                Some(query) => at < target.len() && target[at] == '?' && target.skip(at + 1)
                    == query,
                None => at == target.len(),
            }
        }),
{
    reveal_strlit("/");
    reveal_strlit("?");
    let target = target_text(url);
    let path = if url.path.len() == 0 {
        seq!['/']
    } else {
        url.path
    };
    assert("/"@ =~= seq!['/']);
    assert("?"@ =~= seq!['?']);
    assert forall|i: int| 0 <= i < path.len() implies target[i] != '?' by {
        if url.path.len() > 0 {
            assert(target[i] == url.path[i]);
            assert(url.path.contains(url.path[i]));
        } else {
            assert(target[i] == '/');
        }
    }
    lemma_question_mark(target, path.len() as int);
    assert(target.take(path.len() as int) =~= path);
    if let Some(query) = url.query {
        assert(target.skip(path.len() as int + 1) =~= query);
    }
}

/// A target never says less than its address: addresses with the same target have the same query,
/// and the same path but for an empty one, which is asked for as `/`.
pub proof fn lemma_targets_tell_addresses_apart(a: UrlView, b: UrlView)
    requires
        !a.path.contains('?'),
        !b.path.contains('?'),
        target_text(a) == target_text(b),
    ensures
        a.query == b.query,
        a.path.len() > 0 && b.path.len() > 0 ==> a.path == b.path,
        a.path.len() == 0 && b.path.len() > 0 ==> b.path == seq!['/'],
{
    lemma_target_splits(a);
    lemma_target_splits(b);
}

/// The query is asked for whatever the path is: addresses that differ only in their query have
/// different targets.
pub proof fn lemma_queries_are_asked_for(a: UrlView, b: UrlView)
    requires
        a.path == b.path,
        a.query != b.query,
    ensures
        target_text(a) != target_text(b),
{
    reveal_strlit("?");
    let path = if a.path.len() == 0 {
        "/"@
    } else {
        a.path
    };
    let n = path.len() as int;
    if target_text(a) == target_text(b) {
        match (a.query, b.query) {
            (Some(p), Some(q)) => {
                assert(target_text(a).skip(n + 1) =~= p);
                assert(target_text(b).skip(n + 1) =~= q);
            },
            (Some(p), None) => {
                assert(target_text(a).len() == n + 1 + p.len());
            },
            (None, Some(q)) => {
                assert(target_text(b).len() == n + 1 + q.len());
            },
            (None, None) => {},
        }
    }
}

/// A target that could be read is the target that is asked for; one that could not is invalid
/// input.
pub proof fn lemma_readable_targets_are_kept(parsed: Result<UriView, Seq<char>>)
    ensures
        parsed matches Ok(uri) ==> target_of(parsed) == Ok::<UriView, ErrorView>(uri),
        parsed is Err ==> target_of(parsed) is Err && target_of(parsed)->Err_0.kind
            == ErrorKind::InvalidInput,
{
}

} // verus!

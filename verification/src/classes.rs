//! The classes of the failures that a request can end with.

use vstd::prelude::*;

use crate::checkout::{dns_deadline_failure, pool_wait_failure};
use crate::error::{
    cancellation, class_of, failure, metadata_failure, ClientErrorKind, ErrorKind,
};
use crate::exchange::{body_limit_failure, consumed_failure};
use crate::http_client::dial_deadline_failure;
use crate::text::{decimal, has_text, lowercase, occurs_at};
use crate::time::deadline_failure;

verus! {

/// A text without some character of another does not hold the other.
proof fn lemma_lacks(s: Seq<char>, needle: Seq<char>, at: int)
    requires
        0 <= at < needle.len(),
        forall|i: int| 0 <= i < s.len() ==> #[trigger] s[i] != needle[at],
    ensures
        !has_text(s, needle),
{
    if has_text(s, needle) {
        let start = choose|start: int| occurs_at(s, needle, start);
        assert(s.subrange(start, start + needle.len() as int)[at] == s[start + at]);
    }
}

/// Decimal renderings hold digits alone.
proof fn lemma_digits(n: nat)
    ensures
        forall|i: int| 0 <= i < decimal(n).len() ==> '0' <= #[trigger] decimal(n)[i] <= '9',
    decreases n,
{
    if n >= 10 {
        let front = decimal(n / 10);
        lemma_digits(n / 10);
        assert forall|i: int| 0 <= i < decimal(n).len() implies '0' <= #[trigger] decimal(n)[i]
            <= '9' by {
            if i < front.len() {
                assert(decimal(n)[i] == front[i]);
            }
        }
    }
}

/// A body that was read before is reported as one that cannot be replayed, whether another attempt
/// or a redirect asks for it.
pub proof fn lemma_replay_refusals_are_typed()
    ensures
        class_of(consumed_failure()) == ClientErrorKind::BodyNotReplayable,
        class_of(
            failure(
                ErrorKind::InvalidInput,
                "request body is not replayable across this redirect"@,
            ),
        ) == ClientErrorKind::BodyNotReplayable,
{
    let needle = "body is not replayable"@;
    reveal_strlit("body is not replayable");
    reveal_strlit("request body is not replayable across this redirect");
    reveal_strlit("request body is not replayable and was already consumed");
    let redirect = lowercase("request body is not replayable across this redirect"@);
    assert(redirect.subrange(8, 30) =~= needle);
    assert(occurs_at(redirect, needle, 8));
    let consumed = lowercase("request body is not replayable and was already consumed"@);
    assert(consumed.subrange(8, 30) =~= needle);
    assert(occurs_at(consumed, needle, 8));
}

/// A body over its limit is reported as too large, whatever the limit.
pub proof fn lemma_body_limit_is_typed(limit: nat)
    ensures
        class_of(body_limit_failure(limit)) == ClientErrorKind::BodyTooLarge,
{
    let head = "HTTP response body exceeds configured "@;
    let tail = "-byte limit"@;
    let message = head + decimal(limit) + tail;
    let text = lowercase(message);
    let needle = "body exceeds"@;
    let other = "body is not replayable"@;
    reveal_strlit("HTTP response body exceeds configured ");
    reveal_strlit("-byte limit");
    reveal_strlit("body exceeds");
    reveal_strlit("body is not replayable");
    assert(text.subrange(14, 26) =~= needle);
    assert(occurs_at(text, needle, 14));
    lemma_digits(limit);
    assert forall|i: int| 0 <= i < text.len() implies #[trigger] text[i] != other[16] by {
        let digits = decimal(limit).len();
        if i < head.len() {
            assert(message[i] == head[i]);
        } else if i < head.len() + digits {
            assert(message[i] == decimal(limit)[i - head.len()]);
        } else {
            assert(message[i] == tail[i - head.len() - digits]);
        }
    }
    lemma_lacks(text, other, 16);
}

/// A passed deadline is a timeout in every phase: at any step, while waiting for a connection, and
/// where a lookup or the addresses before took all of the time to connect.
pub proof fn lemma_deadlines_are_typed()
    ensures
        class_of(deadline_failure()) == ClientErrorKind::Timeout,
        class_of(pool_wait_failure()) == ClientErrorKind::Timeout,
        class_of(dns_deadline_failure()) == ClientErrorKind::Timeout,
        class_of(dial_deadline_failure()) == ClientErrorKind::Timeout,
{
    let other = "body is not replayable"@;
    reveal_strlit("body is not replayable");
    reveal_strlit("HTTP request deadline exceeded");
    reveal_strlit("timed out waiting for an HTTP connection");
    reveal_strlit("DNS resolution exhausted the connect deadline");
    lemma_lacks(lowercase("HTTP request deadline exceeded"@), other, 0);
    lemma_lacks(lowercase("timed out waiting for an HTTP connection"@), other, 0);
    reveal_strlit("address attempts exhausted the connect deadline");
    lemma_lacks(lowercase("address attempts exhausted the connect deadline"@), other, 0);
    lemma_lacks(lowercase("DNS resolution exhausted the connect deadline"@), other, 0);
}

/// The end of the hops and a loop are failures of the redirect.
pub proof fn lemma_redirect_bounds_are_typed()
    ensures
        class_of(failure(ErrorKind::InvalidData, "HTTP redirect hop limit exceeded"@))
            == ClientErrorKind::Redirect,
        class_of(failure(ErrorKind::InvalidData, "HTTP redirect loop detected"@))
            == ClientErrorKind::Redirect,
{
    let replay = "body is not replayable"@;
    let size = "body exceeds"@;
    let needle = "redirect"@;
    reveal_strlit("body is not replayable");
    reveal_strlit("body exceeds");
    reveal_strlit("redirect");
    reveal_strlit("HTTP redirect hop limit exceeded");
    reveal_strlit("HTTP redirect loop detected");
    let hops = lowercase("HTTP redirect hop limit exceeded"@);
    lemma_lacks(hops, replay, 0);
    lemma_lacks(hops, size, 0);
    assert(hops.subrange(5, 13) =~= needle);
    assert(occurs_at(hops, needle, 5));
    let again = lowercase("HTTP redirect loop detected"@);
    lemma_lacks(again, replay, 0);
    lemma_lacks(again, size, 0);
    assert(again.subrange(5, 13) =~= needle);
    assert(occurs_at(again, needle, 5));
}

/// A cancelled request and refused metadata are told apart from every other failure, whatever its
/// kind and message.
pub proof fn lemma_causes_are_typed(kind: ErrorKind, message: Seq<char>)
    ensures
        class_of(cancellation()) == ClientErrorKind::Cancelled,
        class_of(metadata_failure(kind, message)) == ClientErrorKind::Metadata,
        class_of(failure(kind, message)) != ClientErrorKind::Cancelled,
        class_of(failure(kind, message)) != ClientErrorKind::Metadata,
{
}

} // verus!

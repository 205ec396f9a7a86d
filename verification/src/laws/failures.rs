//! What failures are reported as.

use vstd::prelude::*;

use crate::checkout::{connect_overflow_failure, dns_deadline_failure, pool_wait_failure};
use crate::error::{
    cancellation, class_of, failure, Cause, ClientErrorKind, ErrorKind, ErrorView,
};
use crate::exchange::{
    body_limit_failure, consumed_failure, host_override_failure, short_body_failure,
};
use crate::http_client::{
    dial_deadline_failure, no_address_failure, no_response_failure, refusal_code, scheme_failure,
    server_name_failure, tells_refusal,
};
use crate::laws::lists::{lemma_words_in_any_case, writes_word};
use crate::metadata::transport_failure;
use crate::multipart::{length_failure, metadata_failure};
use crate::policy::bodyless_failure;
use crate::request::{media_type_failure, short_write};
use crate::request_builder::timeout_overflow_failure;
use crate::resolver::{
    cache_limits_failure, cache_range_failure, cache_wait_failure, in_flight_failure,
    service_full_failure, service_limits_failure, service_unknown_failure,
};
use crate::response::{limit_failure, unreadable};
use crate::shared::response_pending_failure;
use crate::streaming::streaming_redirect_failure;
use crate::text::{has_text, lowercase, occurs_at};
use crate::time::deadline_failure;
use crate::tls::provider_failure;

verus! {

/// A text holds words that are given in lower case, in whatever letter case.
pub open spec fn mentions(text: Seq<char>, words: Seq<char>) -> bool {
    exists|at: int|
        0 <= at && at + words.len() <= text.len() && writes_word(
            #[trigger] text.subrange(at, at + words.len()),
            words,
        )
}

/// Looking for words in a folded text is looking for them in any letter case.
pub proof fn lemma_mentions(text: Seq<char>, words: Seq<char>)
    requires
        forall|i: int| 0 <= i < words.len() ==> !('A' <= #[trigger] words[i] && words[i] <= 'Z'),
    ensures
        has_text(lowercase(text), words) <==> mentions(text, words),
{
    let folded = lowercase(text);
    if has_text(folded, words) {
        let at = choose|at: int| occurs_at(folded, words, at);
        let piece = text.subrange(at, at + words.len());
        assert(lowercase(piece) =~= folded.subrange(at, at + words.len()));
        lemma_words_in_any_case(piece, words);
        assert(writes_word(text.subrange(at, at + words.len()), words));
    }
    if mentions(text, words) {
        let at = choose|at: int|
            0 <= at && at + words.len() <= text.len() && writes_word(
                #[trigger] text.subrange(at, at + words.len()),
                words,
            );
        let piece = text.subrange(at, at + words.len());
        lemma_words_in_any_case(piece, words);
        assert(lowercase(piece) =~= folded.subrange(at, at + words.len()));
        assert(occurs_at(folded, words, at));
    }
}

proof fn lemma_replay_words(text: Seq<char>)
    ensures
        has_text(lowercase(text), "body is not replayable"@) <==> mentions(
            text,
            "body is not replayable"@,
        ),
{
    reveal_strlit("body is not replayable");
    lemma_mentions(text, "body is not replayable"@);
}

proof fn lemma_limit_words(text: Seq<char>)
    ensures
        has_text(lowercase(text), "body exceeds"@) <==> mentions(text, "body exceeds"@),
        has_text(lowercase(text), "redirect"@) <==> mentions(text, "redirect"@),
{
    reveal_strlit("body exceeds");
    reveal_strlit("redirect");
    lemma_mentions(text, "body exceeds"@);
    lemma_mentions(text, "redirect"@);
}

proof fn lemma_tls_words(text: Seq<char>)
    ensures
        has_text(lowercase(text), "tls"@) <==> mentions(text, "tls"@),
        has_text(lowercase(text), "certificate"@) <==> mentions(text, "certificate"@),
{
    reveal_strlit("tls");
    reveal_strlit("certificate");
    lemma_mentions(text, "tls"@);
    lemma_mentions(text, "certificate"@);
}

/// Every class of failures and what falls into it: the cause comes first, then what a message says
/// of a body that cannot be sent again, then the kind, and of invalid data and other failures what
/// the message says.
pub proof fn lemma_failure_classes(e: ErrorView)
    ensures
        ({
            let class = class_of(e);
            let operation = e.cause != Cause::Cancellation && e.cause != Cause::Metadata;
            let plain = operation && !mentions(e.message, "body is not replayable"@);
            &&& class == ClientErrorKind::Cancelled <==> e.cause == Cause::Cancellation
            &&& class == ClientErrorKind::Metadata <==> e.cause == Cause::Metadata
            &&& class == ClientErrorKind::BodyNotReplayable <==> operation && mentions(
                e.message,
                "body is not replayable"@,
            )
            &&& class == ClientErrorKind::InvalidRequest <==> plain && e.kind
                == ErrorKind::InvalidInput
            &&& class == ClientErrorKind::Dns <==> plain && e.kind == ErrorKind::AddrNotAvailable
            &&& class == ClientErrorKind::Timeout <==> plain && e.kind == ErrorKind::TimedOut
            &&& class == ClientErrorKind::BodyTooLarge <==> plain && e.kind
                == ErrorKind::InvalidData && mentions(e.message, "body exceeds"@)
            &&& class == ClientErrorKind::Redirect <==> plain && (e.kind
                == ErrorKind::PermissionDenied || (e.kind == ErrorKind::InvalidData && !mentions(
                e.message,
                "body exceeds"@,
            ) && mentions(e.message, "redirect"@)))
            &&& class == ClientErrorKind::Protocol <==> plain && (e.kind
                == ErrorKind::UnexpectedEof || (e.kind == ErrorKind::InvalidData && !mentions(
                e.message,
                "body exceeds"@,
            ) && !mentions(e.message, "redirect"@)))
            &&& class == ClientErrorKind::Connection <==> plain && (e.kind == ErrorKind::BrokenPipe
                || e.kind == ErrorKind::ConnectionAborted || e.kind
                == ErrorKind::ConnectionRefused || e.kind == ErrorKind::ConnectionReset || e.kind
                == ErrorKind::NotConnected || e.kind == ErrorKind::WriteZero)
            &&& class == ClientErrorKind::Tls <==> plain && e.kind == ErrorKind::Other && (
            mentions(e.message, "tls"@) || mentions(e.message, "certificate"@))
        }),
{
    lemma_replay_words(e.message);
    lemma_limit_words(e.message);
    lemma_tls_words(e.message);
}

/// A failure to connect tells of a refused connection exactly where its text speaks of a refused
/// connection, of one that timed out or of a host that cannot be reached.
pub proof fn lemma_refusals_are_told(message: Seq<char>)
    ensures
        tells_refusal(message) <==> mentions(message, "refused"@) || mentions(
            message,
            "timed out"@,
        ) || mentions(message, "unreachable"@) || mentions(message, "wsaetimedout"@)
            || mentions(message, "wsaehostunreach"@),
        forall|code: i32| #[trigger]
            refusal_code(code) <==> code == 10060 || code == 10061 || code == 10064,
{
    lemma_refusal_words(message);
    lemma_socket_words(message);
}

proof fn lemma_refusal_words(message: Seq<char>)
    ensures
        has_text(lowercase(message), "refused"@) <==> mentions(message, "refused"@),
        has_text(lowercase(message), "timed out"@) <==> mentions(message, "timed out"@),
        has_text(lowercase(message), "unreachable"@) <==> mentions(message, "unreachable"@),
{
    reveal_strlit("refused");
    reveal_strlit("timed out");
    reveal_strlit("unreachable");
    lemma_mentions(message, "refused"@);
    lemma_mentions(message, "timed out"@);
    lemma_mentions(message, "unreachable"@);
}

proof fn lemma_socket_words(message: Seq<char>)
    ensures
        has_text(lowercase(message), "wsaetimedout"@) <==> mentions(message, "wsaetimedout"@),
        has_text(lowercase(message), "wsaehostunreach"@) <==> mentions(
            message,
            "wsaehostunreach"@,
        ),
        has_text(lowercase(message), "wsaeconnrefused"@) ==> has_text(
            lowercase(message),
            "refused"@,
        ),
{
    reveal_strlit("wsaetimedout");
    reveal_strlit("wsaehostunreach");
    lemma_mentions(message, "wsaetimedout"@);
    lemma_mentions(message, "wsaehostunreach"@);
    let text = lowercase(message);
    if has_text(text, "wsaeconnrefused"@) {
        reveal_strlit("wsaeconnrefused");
        reveal_strlit("refused");
        let long = "wsaeconnrefused"@;
        let short = "refused"@;
        let at = choose|at: int| occurs_at(text, long, at);
        let found = text.subrange(at, at + long.len());
        assert(found == long);
        assert(text.subrange(at + 8, at + 8 + short.len()) =~= long.subrange(8, 15)) by {
            assert(text.subrange(at + 8, at + 8 + short.len()) =~= found.subrange(8, 15));
        }
        assert(long.subrange(8, 15) =~= short);
        assert(occurs_at(text, short, at + 8));
    }
}

/// Refusals of what a caller asks for are invalid input.
pub proof fn lemma_refusals_are_invalid_input(reason: Seq<char>)
    ensures
        bodyless_failure().kind == ErrorKind::InvalidInput,
        consumed_failure().kind == ErrorKind::InvalidInput,
        host_override_failure().kind == ErrorKind::InvalidInput,
        transport_failure().kind == ErrorKind::InvalidInput,
        media_type_failure().kind == ErrorKind::InvalidInput,
        length_failure().kind == ErrorKind::InvalidInput,
        timeout_overflow_failure().kind == ErrorKind::InvalidInput,
        connect_overflow_failure().kind == ErrorKind::InvalidInput,
        streaming_redirect_failure().kind == ErrorKind::InvalidInput,
        cache_limits_failure().kind == ErrorKind::InvalidInput,
        cache_range_failure().kind == ErrorKind::InvalidInput,
        service_limits_failure().kind == ErrorKind::InvalidInput,
        scheme_failure(reason).kind == ErrorKind::InvalidInput,
        server_name_failure(reason).kind == ErrorKind::InvalidInput,
        metadata_failure(reason).kind == ErrorKind::InvalidInput,
{
}

/// Everything that ran out of time is told as such.
pub proof fn lemma_timeouts_are_told()
    ensures
        deadline_failure().kind == ErrorKind::TimedOut,
        dns_deadline_failure().kind == ErrorKind::TimedOut,
        dial_deadline_failure().kind == ErrorKind::TimedOut,
        pool_wait_failure().kind == ErrorKind::TimedOut,
        cache_wait_failure().kind == ErrorKind::TimedOut,
{
}

/// What peers and the transport do wrong: an end before its time, a response that was not read,
/// a write that went nowhere, a head or a field that cannot be accepted.
pub proof fn lemma_peers_are_told_apart(max: nat, field: Seq<char>)
    ensures
        no_response_failure().kind == ErrorKind::UnexpectedEof,
        short_body_failure().kind == ErrorKind::UnexpectedEof,
        response_pending_failure().kind == ErrorKind::ConnectionAborted,
        short_write().kind == ErrorKind::WriteZero,
        limit_failure(max).kind == ErrorKind::InvalidData,
        body_limit_failure(max).kind == ErrorKind::InvalidData,
        unreadable(field).kind == ErrorKind::InvalidData,
{
}

/// What lookups fail with: no address to be had, or no room.
pub proof fn lemma_lookups_fail_apart()
    ensures
        no_address_failure().kind == ErrorKind::AddrNotAvailable,
        service_unknown_failure().kind == ErrorKind::AddrNotAvailable,
        service_full_failure().kind == ErrorKind::OutOfMemory,
        in_flight_failure().kind == ErrorKind::WouldBlock,
        provider_failure().kind == ErrorKind::Other,
{
}

/// None of the failures above is taken for a cancellation or for a failure of supplied fields,
/// apart from that of fields that belong to the transport.
pub proof fn lemma_operations_fail_by_themselves(kind: ErrorKind, message: Seq<char>)
    ensures
        failure(kind, message).kind == kind,
        failure(kind, message).message == message,
        failure(kind, message).cause == Cause::Operation,
        transport_failure().cause == Cause::Metadata,
        cancellation().cause == Cause::Cancellation,
        cancellation().kind == ErrorKind::Interrupted,
{
}

} // verus!

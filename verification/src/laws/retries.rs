//! Which attempts are repeated, and which connections are used again.

use vstd::prelude::*;

use crate::error::{ErrorKind, ErrorView};
use crate::exchange::{after_failure, read_allowance, repeatable, repeats};
use crate::headers::{ascii_text, values_of, visible};
use crate::list::list_items;
use crate::message::Version;
use crate::policy::{bodyless, has_token, lists_token, reusable_after, RequestBody};
use crate::response::{framing, present, values_chunked, values_codings, values_length};
use crate::text::lowercase;
use crate::time::Instant;

verus! {

/// A failed attempt is repeated exactly where it used an idle connection, its failure is that of a
/// connection whose peer has gone, the method is one of GET, HEAD, PUT, DELETE, OPTIONS and TRACE,
/// and the body can be sent again.
pub proof fn lemma_repeated_attempts(
    method: Seq<char>,
    body: RequestBody,
    reused: bool,
    error: ErrorView,
)
    ensures
        repeats(repeatable(method, body), reused, error) <==> {
            &&& reused
            &&& method == "GET"@ || method == "HEAD"@ || method == "PUT"@ || method == "DELETE"@
                || method == "OPTIONS"@ || method == "TRACE"@
            &&& !(body is Reader)
            &&& error.kind == ErrorKind::BrokenPipe || error.kind == ErrorKind::ConnectionAborted
                || error.kind == ErrorKind::ConnectionReset || error.kind
                == ErrorKind::NotConnected || error.kind == ErrorKind::UnexpectedEof || error.kind
                == ErrorKind::WriteZero
        },
{
}

/// After a failed attempt the request is attempted again exactly where it may be repeated and its
/// deadline has not passed; where only the deadline stands against it, that is what it fails with.
pub proof fn lemma_failed_attempts(
    method: Seq<char>,
    body: RequestBody,
    reused: bool,
    error: ErrorView,
    deadline: Instant,
    now: Instant,
)
    ensures
        ({
            let next = after_failure(repeatable(method, body), reused, error, deadline, now);
            let stale = reused && !(body is Reader) && (method == "GET"@ || method == "HEAD"@
                || method == "PUT"@ || method == "DELETE"@ || method == "OPTIONS"@ || method
                == "TRACE"@) && (error.kind == ErrorKind::BrokenPipe || error.kind
                == ErrorKind::ConnectionAborted || error.kind == ErrorKind::ConnectionReset
                || error.kind == ErrorKind::NotConnected || error.kind == ErrorKind::UnexpectedEof
                || error.kind == ErrorKind::WriteZero);
            &&& next is Again <==> stale && now.nanos <= deadline.nanos
            &&& next is TooLate <==> stale && now.nanos > deadline.nanos
            &&& next is Fails <==> !stale
        }),
{
    lemma_repeated_attempts(method, body, reused, error);
}

/// GET and HEAD are the methods whose requests have no body.
pub proof fn lemma_bodyless_methods(method: Seq<char>)
    ensures
        bodyless(method) <==> method == "GET"@ || method == "HEAD"@,
{
}

proof fn lemma_filter_empty(items: Seq<Seq<char>>, k: int)
    requires
        0 <= k < items.len(),
        items[k].len() > 0,
    ensures
        present(items).len() > 0,
    decreases items.len(),
{
    reveal(Seq::filter);
    if k < items.len() - 1 {
        lemma_filter_empty(items.drop_last(), k);
    }
}

proof fn lemma_filter_source(items: Seq<Seq<char>>, j: int) -> (k: int)
    requires
        0 <= j < present(items).len(),
    ensures
        0 <= k < items.len(),
        items[k] == present(items)[j],
    decreases items.len(),
{
    reveal(Seq::filter);
    if items.len() == 0 {
        0
    } else {
        let before = items.drop_last();
        if j < present(before).len() {
            lemma_filter_source(before, j)
        } else {
            items.len() - 1
        }
    }
}

spec fn lists_item(values: Seq<Seq<u8>>, i: int, k: int, item: Seq<char>) -> bool {
    &&& 0 <= i < values.len()
    &&& visible(values[i])
    &&& 0 <= k < list_items(ascii_text(values[i])).len()
    &&& list_items(ascii_text(values[i]))[k] == item
}

proof fn lemma_coding_source(values: Seq<Seq<u8>>, j: int) -> (at: (int, int))
    requires
        values_codings(values) is Ok,
        0 <= j < values_codings(values)->Ok_0.len(),
    ensures
        lists_item(values, at.0, at.1, values_codings(values)->Ok_0[j]),
    decreases values.len(),
{
    if values.len() == 0 {
        (0, 0)
    } else {
        let before = values.drop_last();
        let earlier = values_codings(before)->Ok_0;
        if j < earlier.len() {
            let at = lemma_coding_source(before, j);
            assert(before[at.0] == values[at.0]);
            at
        } else {
            let k = lemma_filter_source(
                list_items(ascii_text(values.last())),
                j - earlier.len(),
            );
            (values.len() - 1, k)
        }
    }
}

proof fn lemma_items_are_codings(values: Seq<Seq<u8>>, i: int, k: int)
    requires
        values_codings(values) is Ok,
        0 <= i < values.len(),
        0 <= k < list_items(ascii_text(values[i])).len(),
        list_items(ascii_text(values[i]))[k].len() > 0,
    ensures
        values_codings(values)->Ok_0.len() > 0,
    decreases values.len(),
{
    let before = values.drop_last();
    if i < before.len() {
        assert(before[i] == values[i]);
        lemma_items_are_codings(before, i, k);
    } else {
        lemma_filter_empty(list_items(ascii_text(values.last())), k);
    }
}

proof fn lemma_chunked_is_a_token(headers: Seq<(Seq<char>, Seq<Seq<u8>>)>)
    requires
        values_chunked(values_of(headers, "transfer-encoding"@)) is Ok,
    ensures
        has_token(headers, "transfer-encoding"@, "chunked"@) == values_chunked(
            values_of(headers, "transfer-encoding"@),
        )->Ok_0,
{
    let values = values_of(headers, "transfer-encoding"@);
    let codings = values_codings(values)->Ok_0;
    if codings.len() > 0 {
        let (i, k) = lemma_coding_source(values, 0);
        assert(lowercase(list_items(ascii_text(values[i]))[k]) == lowercase("chunked"@));
        assert(lists_token(values[i], "chunked"@));
    }
    if has_token(headers, "transfer-encoding"@, "chunked"@) {
        let i = choose|i: int|
            0 <= i < values.len() && lists_token(#[trigger] values[i], "chunked"@);
        let items = list_items(ascii_text(values[i]));
        let k = choose|k: int|
            0 <= k < items.len() && lowercase(#[trigger] items[k]) == lowercase("chunked"@);
        reveal_strlit("chunked");
        assert(lowercase("chunked"@).len() == 7);
        assert(lowercase(items[k]).len() == items[k].len());
        lemma_items_are_codings(values, i, k);
    }
}

proof fn lemma_length_present(values: Seq<Seq<u8>>)
    ensures
        values_length(values) matches Ok(length) ==> (length is Some <==> values.len() > 0),
{
    if values.len() > 0 {
        crate::list::lemma_list_is_not_empty(ascii_text(values.last()));
    }
}

/// A connection is used again after a response exactly where neither side asked for its end, the
/// response is of HTTP/1.1 or its peer asked to keep the connection, it was neither a tunnel nor a
/// switch of protocols, and the end of the body is known without the end of the connection.
pub proof fn lemma_reused_connections(
    method: Seq<char>,
    status: u16,
    version: Version,
    request_headers: Seq<(Seq<char>, Seq<Seq<u8>>)>,
    headers: Seq<(Seq<char>, Seq<Seq<u8>>)>,
)
    requires
        framing(status, headers, method != "HEAD"@) is Ok,
    ensures
        reusable_after(method, status, version, request_headers, headers) <==> {
            &&& method != "CONNECT"@
            &&& status != 101
            &&& !has_token(request_headers, "connection"@, "close"@)
            &&& !has_token(headers, "connection"@, "close"@)
            &&& version == Version::Http11 || has_token(headers, "connection"@, "keep-alive"@)
            &&& !(framing(status, headers, method != "HEAD"@)->Ok_0 is EofReader)
        },
{
    lemma_chunked_is_a_token(headers);
    lemma_length_present(values_of(headers, "content-length"@));
}

/// A body is read in steps of at most 8192 bytes and of at least one, never more than one byte
/// beyond the limit, and near the limit exactly that far.
pub proof fn lemma_reading_stays_near_the_limit(limit: nat, held: nat)
    requires
        held <= limit,
    ensures
        1 <= read_allowance(limit, held) <= 8192,
        held + read_allowance(limit, held) <= limit + 1,
        limit - held < 8192 ==> held + read_allowance(limit, held) == limit + 1,
        limit - held >= 8192 ==> read_allowance(limit, held) == 8192,
{
}

} // verus!

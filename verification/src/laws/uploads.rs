//! What a request puts on the wire.

use vstd::prelude::*;
use vstd::utf8::encode_utf8;

use crate::body::body_reader::BodyReader;
use crate::body::body_writer::{closing_bytes, within};
use crate::body::framing::{
    chunk_bytes, chunked, drained, joined, last_chunk, lemma_chunked_round_trip, Drained,
};
use crate::body::BodyWriter;
use crate::buffer::all_written;
use crate::error::Error;
use crate::exchange::{exchange_head, exchanged, Sent};
use crate::headers::{
    lemma_added, lemma_inserted, names_distinct, values_of, with_inserted, FieldValue,
};
use crate::http_client::{ended, fresh_head, host_fields, HttpClient};
use crate::multipart::encoding;
use crate::policy::RequestBody;
use crate::request::{
    head_text, lemma_sized_pieces, piece_written, pieces_written, RequestHead, Written,
};
use crate::uri::UriView;

verus! {

/// Nothing was written yet of a request on a connection that has carried `out`.
pub open spec fn unwritten(out: Seq<u8>) -> Written {
    Written { writer: BodyWriter::InvalidWriter, out }
}

/// A body of declared length that is short of up to 65536 bytes is padded with zeros: behind the
/// head stand exactly as many bytes as the head declares, and they begin with what was written.
pub proof fn lemma_short_bodies_are_padded(
    head: RequestHead,
    out: Seq<u8>,
    pieces: Seq<Seq<u8>>,
    size: usize,
)
    requires
        head.method != "GET"@,
        head.method != "HEAD"@,
        head.size == Some(size),
        all_written(pieces).len() <= size,
        size - all_written(pieces).len() <= 65536,
    ensures
        ({
            let (after, accepted) = pieces_written(head, unwritten(out), pieces);
            let body = all_written(pieces) + Seq::new(
                (size - all_written(pieces).len()) as nat,
                |i: int| 0u8,
            );
            &&& accepted
            &&& body.len() == size
            &&& ended(head, after) == out + encode_utf8(head_text(head)) + body
        }),
{
    let body = all_written(pieces);
    lemma_sized_pieces(head, unwritten(out), pieces, size as nat);
    let (after, _) = pieces_written(head, unwritten(out), pieces);
    let padding = Seq::new((size - body.len()) as nat, |i: int| 0u8);
    if body.len() == 0 {
        assert(body =~= Seq::<u8>::empty());
    }
    assert(ended(head, after) =~= out + encode_utf8(head_text(head)) + (body + padding));
}

/// A body that is short of more than that is not padded: it ends where it was left, so that the
/// peer sees it cut off.
pub proof fn lemma_very_short_bodies_are_cut_off(
    head: RequestHead,
    out: Seq<u8>,
    pieces: Seq<Seq<u8>>,
    size: usize,
)
    requires
        head.method != "GET"@,
        head.method != "HEAD"@,
        head.size == Some(size),
        all_written(pieces).len() <= size,
        size - all_written(pieces).len() > 65536,
    ensures
        ended(head, pieces_written(head, unwritten(out), pieces).0) == out + encode_utf8(
            head_text(head),
        ) + all_written(pieces),
{
    let body = all_written(pieces);
    lemma_sized_pieces(head, unwritten(out), pieces, size as nat);
    let (after, _) = pieces_written(head, unwritten(out), pieces);
    if body.len() == 0 {
        assert(body =~= Seq::<u8>::empty());
    }
    assert(ended(head, after) =~= out + encode_utf8(head_text(head)) + body);
}

spec fn filled(pieces: Seq<Seq<u8>>) -> Seq<Seq<u8>>
    decreases pieces.len(),
{
    if pieces.len() == 0 {
        Seq::empty()
    } else if pieces.last().len() == 0 {
        filled(pieces.drop_last())
    } else {
        filled(pieces.drop_last()).push(pieces.last())
    }
}

proof fn lemma_chunked_push(pieces: Seq<Seq<u8>>, last: Seq<u8>)
    ensures
        chunked(pieces.push(last)) == chunked(pieces) + chunk_bytes(last),
        joined(pieces.push(last)) == joined(pieces) + last,
    decreases pieces.len(),
{
    let more = pieces.push(last);
    if pieces.len() == 0 {
        assert(more.drop_first() =~= Seq::<Seq<u8>>::empty());
        assert(more[0] == last);
        assert(chunked(more.drop_first()) =~= Seq::<u8>::empty());
        assert(joined(more.drop_first()) =~= Seq::<u8>::empty());
        assert(chunked(pieces) =~= Seq::<u8>::empty());
        assert(joined(pieces) =~= Seq::<u8>::empty());
        assert(chunked(more) =~= chunked(pieces) + chunk_bytes(last));
        assert(joined(more) =~= joined(pieces) + last);
    } else {
        assert(more.drop_first() =~= pieces.drop_first().push(last));
        lemma_chunked_push(pieces.drop_first(), last);
        assert(chunked(more) =~= chunked(pieces) + chunk_bytes(last));
        assert(joined(more) =~= joined(pieces) + last);
    }
}

proof fn lemma_filled(pieces: Seq<Seq<u8>>)
    requires
        forall|i: int| 0 <= i < pieces.len() ==> (#[trigger] pieces[i]).len() <= usize::MAX,
    ensures
        joined(filled(pieces)) == all_written(pieces),
        forall|i: int|
            0 <= i < filled(pieces).len() ==> 0 < (#[trigger] filled(pieces)[i]).len()
                <= usize::MAX,
    decreases pieces.len(),
{
    if pieces.len() > 0 {
        let before = pieces.drop_last();
        assert forall|i: int| 0 <= i < before.len() implies (#[trigger] before[i]).len()
            <= usize::MAX by {
            assert(before[i] == pieces[i]);
        }
        lemma_filled(before);
        let last = pieces.last();
        assert(pieces[pieces.len() - 1].len() <= usize::MAX);
        lemma_chunked_push(filled(before), last);
        if last.len() == 0 {
            assert(all_written(pieces) =~= all_written(before));
        }
    }
}

proof fn lemma_chunks_written(head: RequestHead, out: Seq<u8>, pieces: Seq<Seq<u8>>)
    requires
        head.method == "POST"@,
        head.size is None,
    ensures
        ({
            let (after, accepted) = pieces_written(head, unwritten(out), pieces);
            &&& accepted
            &&& filled(pieces).len() == 0 ==> after == unwritten(out)
            &&& filled(pieces).len() > 0 ==> after == (Written {
                writer: BodyWriter::ChunkWriter,
                out: out + encode_utf8(head_text(head)) + chunked(filled(pieces)),
            })
        }),
    decreases pieces.len(),
{
    lemma_post_is_no_get();
    if pieces.len() > 0 {
        let before = pieces.drop_last();
        let last = pieces.last();
        lemma_chunks_written(head, out, before);
        lemma_chunked_push(filled(before), last);
        let opening = out + encode_utf8(head_text(head));
        if last.len() > 0 {
            if filled(before).len() == 0 {
                assert(filled(before) =~= Seq::<Seq<u8>>::empty());
                assert(chunked(filled(before)) =~= Seq::<u8>::empty());
                assert(opening + chunk_bytes(last) =~= opening + chunked(filled(pieces)));
            } else {
                assert(opening + chunked(filled(before)) + chunk_bytes(last) =~= opening
                    + chunked(filled(pieces)));
            }
        }
    }
}

proof fn lemma_post_is_no_get()
    ensures
        "POST"@ != "GET"@,
        "POST"@ != "HEAD"@,
{
    reveal_strlit("POST");
    reveal_strlit("GET");
    reveal_strlit("HEAD");
    assert("POST"@[0] == 'P');
    assert("GET"@[0] == 'G');
    assert("HEAD"@[0] == 'H');
}

/// A POST of unknown length is chunked: what stands behind its head is read by a chunked reader as
/// exactly the pieces that were written, in order, and not a byte of what follows is touched.
pub proof fn lemma_unsized_posts_are_chunked(
    head: RequestHead,
    out: Seq<u8>,
    pieces: Seq<Seq<u8>>,
    rest: Seq<u8>,
    closed: bool,
    sizes: spec_fn(nat) -> nat,
    k: nat,
)
    requires
        head.method == "POST"@,
        head.size is None,
        forall|i: int| 0 <= i < pieces.len() ==> (#[trigger] pieces[i]).len() <= usize::MAX,
        forall|i: nat| #[trigger] sizes(i) > 0,
    ensures
        ({
            let (after, accepted) = pieces_written(head, unwritten(out), pieces);
            let sent = ended(head, after);
            let opening = out + encode_utf8(head_text(head));
            &&& accepted
            &&& sent.len() > opening.len()
            &&& sent.take(opening.len() as int) == opening
            &&& drained(
                BodyReader::ChunkReader(None),
                sent.skip(opening.len() as int) + rest,
                closed,
                sizes,
                k,
            ) == Some(
                Drained {
                    bytes: all_written(pieces),
                    reader: BodyReader::ChunkReader(Some(0)),
                    unread: rest,
                },
            )
        }),
{
    lemma_post_is_no_get();
    lemma_filled(pieces);
    lemma_chunks_written(head, out, pieces);
    let (after, _) = pieces_written(head, unwritten(out), pieces);
    let opening = out + encode_utf8(head_text(head));
    let body = chunked(filled(pieces)) + last_chunk();
    if filled(pieces).len() == 0 {
        assert(filled(pieces) =~= Seq::<Seq<u8>>::empty());
        assert(chunked(filled(pieces)) =~= Seq::<u8>::empty());
    }
    assert(ended(head, after) =~= opening + body);
    let sent = ended(head, after);
    assert(sent.take(opening.len() as int) =~= opening);
    assert(sent.skip(opening.len() as int) =~= body);
    lemma_chunked_round_trip(filled(pieces), rest, closed, sizes, k);
}

/// A GET or HEAD request is its head, whatever is written behind it, and so is a request of any
/// other method but POST whose length is not known: no byte of a body is accepted.
pub proof fn lemma_bodyless_requests_are_their_heads(
    head: RequestHead,
    out: Seq<u8>,
    pieces: Seq<Seq<u8>>,
)
    requires
        head.method == "GET"@ || head.method == "HEAD"@ || (head.method != "POST"@ && head.size
            is None),
    ensures
        ended(head, pieces_written(head, unwritten(out), pieces).0) == out + encode_utf8(
            head_text(head),
        ),
        pieces_written(head, unwritten(out), pieces).1 <==> all_written(pieces).len() == 0,
    decreases pieces.len(),
{
    let opening = out + encode_utf8(head_text(head));
    lemma_nothing_accepted(head, out, pieces);
    let (after, _) = pieces_written(head, unwritten(out), pieces);
    assert(ended(head, after) =~= opening);
}

proof fn lemma_nothing_accepted(head: RequestHead, out: Seq<u8>, pieces: Seq<Seq<u8>>)
    requires
        head.method == "GET"@ || head.method == "HEAD"@ || (head.method != "POST"@ && head.size
            is None),
    ensures
        ({
            let (after, accepted) = pieces_written(head, unwritten(out), pieces);
            &&& accepted ==> after == unwritten(out)
            &&& !accepted ==> after == (Written {
                writer: BodyWriter::EmptyWriter,
                out: out + encode_utf8(head_text(head)),
            })
            &&& accepted <==> all_written(pieces).len() == 0
        }),
    decreases pieces.len(),
{
    lemma_post_is_no_get();
    if pieces.len() > 0 {
        lemma_nothing_accepted(head, out, pieces.drop_last());
    }
}

/// A writer of known length hands on as much of a piece as it still owes, from the front.
pub proof fn lemma_writers_keep_to_their_length(piece: Seq<u8>, remain: nat)
    ensures
        within(piece, remain).len() <= remain,
        within(piece, remain).len() == piece.len() || within(piece, remain).len() == remain,
        within(piece, remain) == piece.take(within(piece, remain).len() as int),
{
    assert(piece.take(piece.len() as int) =~= piece);
}

/// A body longer than its declared length is accepted up to that length, and not a byte further.
pub proof fn lemma_long_bodies_are_cut(head: RequestHead, out: Seq<u8>, body: Seq<u8>, size: usize)
    requires
        head.method != "GET"@,
        head.method != "HEAD"@,
        head.size == Some(size),
        body.len() > size,
    ensures
        !piece_written(head, unwritten(out), body).1,
        ended(head, piece_written(head, unwritten(out), body).0) == out + encode_utf8(
            head_text(head),
        ) + body.take(size as int),
{
    let (after, _) = piece_written(head, unwritten(out), body);
    assert(closing_bytes(BodyWriter::SizedWriter(0)) =~= Seq::<u8>::empty());
    assert(ended(head, after) =~= out + encode_utf8(head_text(head)) + body.take(size as int));
}

/// A request on a connection carries the Host field of the connection, in front of any that it was
/// given, and every value of every field that it was given, in order.
pub proof fn lemma_request_fields_are_sent(
    host: Option<FieldValue>,
    method: Seq<char>,
    target: UriView,
    headers: Seq<(Seq<char>, Seq<Seq<u8>>)>,
    size: Option<usize>,
    name: Seq<char>,
)
    requires
        names_distinct(headers),
    ensures
        ({
            let head = exchange_head(host, method, target, headers, size);
            &&& head.method == method
            &&& head.target == target.text
            &&& head.size == size
            &&& head.version is Http11
            &&& name != "host"@ ==> values_of(head.headers, name) == values_of(headers, name)
            &&& host is Some ==> values_of(head.headers, "host"@) == seq![host->0@] + values_of(
                headers,
                "host"@,
            )
            &&& host is None ==> values_of(head.headers, "host"@) == values_of(headers, "host"@)
        }),
{
    let none = Seq::<(Seq<char>, Seq<Seq<u8>>)>::empty();
    assert(names_distinct(none));
    assert(values_of(none, name) =~= Seq::<Seq<u8>>::empty());
    assert(values_of(none, "host"@) =~= Seq::<Seq<u8>>::empty());
    if let Some(value) = host {
        lemma_inserted(none, "host"@, value@, name);
        lemma_inserted(none, "host"@, value@, "host"@);
    }
    let held = host_fields(host);
    lemma_added(held, headers, name);
    lemma_added(held, headers, "host"@);
    assert(values_of(held, name) + values_of(headers, name) =~= (if name != "host"@ {
        values_of(headers, name)
    } else {
        values_of(held, name) + values_of(headers, name)
    }));
    if host is None {
        assert(values_of(held, "host"@) + values_of(headers, "host"@) =~= values_of(
            headers,
            "host"@,
        ));
    }
}

/// A request that was written on a connection put exactly its head and its body there, behind what
/// the connection had carried: the head declares the length of the body, and names the boundary of
/// a form. A response with a body is expected unless the method is HEAD.
pub proof fn lemma_exchanges_are_written_whole<T>(
    before: HttpClient<T>,
    after: HttpClient<T>,
    method: Seq<char>,
    target: UriView,
    headers: Seq<(Seq<char>, Seq<Seq<u8>>)>,
    body: RequestBody,
    body_after: RequestBody,
    r: Result<Sent, Error>,
)
    requires
        exchanged(before, after, method, target, headers, body, body_after, r),
        r is Ok,
        !(body is Reader),
        method != "POST"@ || !(body is Empty),
    ensures
        ({
            let out = before.conn.buffer@.output();
            let sent = after.conn.buffer@.output();
            match body {
                RequestBody::Bytes(bytes) => {
                    let head = exchange_head(
                        before.host_header,
                        method,
                        target,
                        headers,
                        Some(bytes@.len() as usize),
                    );
                    sent == out + encode_utf8(head_text(head)) + bytes@
                },
                RequestBody::Multipart(form) => {
                    let plain = exchange_head(
                        before.host_header,
                        method,
                        target,
                        headers,
                        Some(encoding(form@).len() as usize),
                    );
                    let head = RequestHead {
                        headers: with_inserted(
                            plain.headers,
                            "content-type"@,
                            encode_utf8("multipart/form-data; boundary="@ + form@.boundary),
                        ),
                        ..plain
                    };
                    sent == out + encode_utf8(head_text(head)) + encoding(form@)
                },
                _ => {
                    let head = exchange_head(before.host_header, method, target, headers, None);
                    sent == out + encode_utf8(head_text(head))
                },
            }
        }),
        after.expect_body == (method != "HEAD"@),
        !before.conn.response_pending,
        body_after == body,
        after.conn.buffer@.input == before.conn.buffer@.input,
        !after.conn.response_pending,
{
    match body {
        RequestBody::Multipart(form) => {
            crate::multipart::lemma_length_is_encoded_length(form@);
        },
        RequestBody::Empty => {
            let head = exchange_head(before.host_header, method, target, headers, None);
            let out = before.conn.buffer@.output();
            assert(pieces_written(head, unwritten(out), Seq::empty()).0 == unwritten(out));
            lemma_bodyless_requests_are_their_heads(head, out, Seq::empty());
        },
        _ => {},
    }
}

/// A body that comes from a reader is sent once: the first attempt starts with the whole declared
/// length still owed and nothing on the wire, and no other attempt starts at all.
pub proof fn lemma_readers_are_sent_once<T>(
    before: HttpClient<T>,
    after: HttpClient<T>,
    method: Seq<char>,
    target: UriView,
    headers: Seq<(Seq<char>, Seq<Seq<u8>>)>,
    available: bool,
    content_length: usize,
    body_after: RequestBody,
    r: Result<Sent, Error>,
)
    requires
        exchanged(
            before,
            after,
            method,
            target,
            headers,
            (RequestBody::Reader { available, content_length }),
            body_after,
            r,
        ),
        !before.conn.response_pending,
    ensures
        r is Ok <==> available,
        r matches Ok(sent) ==> (sent matches Sent::Body(upload) && upload.rest() == content_length
            && upload.expects_body() == (method != "HEAD"@) && upload.head() == exchange_head(
            before.host_header,
            method,
            target,
            headers,
            Some(content_length),
        )),
        body_after == (RequestBody::Reader { available: false, content_length }),
        after.conn.buffer@.output() == before.conn.buffer@.output(),
{
}

/// A request on a connection before anything was added to it: it asks for the target, and its only
/// field is the Host field of the connection.
pub proof fn lemma_fresh_requests(
    host: Option<FieldValue>,
    method: Seq<char>,
    uri: UriView,
    size: Option<usize>,
    name: Seq<char>,
)
    ensures
        ({
            let head = fresh_head(host, method, uri, size);
            &&& head.method == method
            &&& head.target == uri.text
            &&& head.size == size
            &&& head.version is Http11
            &&& values_of(head.headers, name) == (if name == "host"@ && host is Some {
                seq![host->0@]
            } else {
                Seq::<Seq<u8>>::empty()
            })
        }),
{
    let none = Seq::<(Seq<char>, Seq<Seq<u8>>)>::empty();
    assert(names_distinct(none));
    assert(values_of(none, name) =~= Seq::<Seq<u8>>::empty());
    if let Some(value) = host {
        lemma_inserted(none, "host"@, value@, name);
    }
}

} // verus!

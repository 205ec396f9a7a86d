//! Response bodies that are collected within a limit.

use vstd::prelude::*;

use crate::body::body_reader::{body_read, expected_bytes, BodyReader, ReadView};
use crate::body::framing::{
    chunk_bytes, chunked, joined, last_chunk, lemma_chunk_read, lemma_last_chunk_read,
    lemma_read_inside_chunk, line_end,
};
use crate::buffer::starved;
use crate::error::ErrorView;
use crate::exchange::{collect_step, read_allowance, unsendable, CollectView};
use crate::laws::fields::names_transport;
use crate::policy::RequestBody;
use crate::streaming::{stream_step, StreamView};
use crate::time::Instant;

verus! {

/// What a collection comes to.
pub enum Gathered {
    /// The whole body, and what stays unread behind it.
    Whole { body: Seq<u8>, unread: Seq<u8> },
    /// The body is longer than the limit.
    TooLong,
    /// The collection failed, or waits for bytes.
    Unfinished,
}

/// What the steps of a collection come to, one after the other, on bytes that have arrived.
#[verifier::opaque]
pub open spec fn gathered(
    reader: BodyReader,
    input: Seq<u8>,
    closed: bool,
    limit: nat,
    held: Seq<u8>,
) -> Gathered
    decreases input.len(),
{
    let step = body_read(reader, input, closed, read_allowance(limit, held.len()));
    match collect_step(held, limit, step) {
        CollectView::Done => Gathered::Whole { body: held, unread: input.skip(step.used as int) },
        CollectView::More(bytes) => if 0 < step.used && step.used <= input.len() {
            gathered(step.next, input.skip(step.used as int), closed, limit, bytes)
        } else {
            Gathered::Unfinished
        },
        CollectView::TooLong => Gathered::TooLong,
        CollectView::Starved | CollectView::Failed(_) => Gathered::Unfinished,
    }
}

proof fn lemma_one_step(
    reader: BodyReader,
    input: Seq<u8>,
    closed: bool,
    limit: nat,
    held: Seq<u8>,
    step: ReadView,
)
    requires
        step == body_read(reader, input, closed, read_allowance(limit, held.len())),
    ensures
        gathered(reader, input, closed, limit, held) == (match collect_step(held, limit, step) {
            CollectView::Done => Gathered::Whole {
                body: held,
                unread: input.skip(step.used as int),
            },
            CollectView::More(bytes) => if 0 < step.used && step.used <= input.len() {
                gathered(step.next, input.skip(step.used as int), closed, limit, bytes)
            } else {
                Gathered::Unfinished
            },
            CollectView::TooLong => Gathered::TooLong,
            CollectView::Starved | CollectView::Failed(_) => Gathered::Unfinished,
        }),
{
    reveal(gathered);
}

proof fn lemma_goes_on(
    reader: BodyReader,
    input: Seq<u8>,
    closed: bool,
    limit: nat,
    held: Seq<u8>,
    piece: Seq<u8>,
)
    requires
        body_read(reader, input, closed, read_allowance(limit, held.len())).result == Ok::<
            Seq<u8>,
            ErrorView,
        >(piece),
        piece.len() > 0,
        0 < body_read(reader, input, closed, read_allowance(limit, held.len())).used <= input.len(),
    ensures
        ({
            let step = body_read(reader, input, closed, read_allowance(limit, held.len()));
            gathered(reader, input, closed, limit, held) == (if held.len() + piece.len() > limit {
                Gathered::TooLong
            } else {
                gathered(step.next, input.skip(step.used as int), closed, limit, held + piece)
            })
        }),
{
    reveal(gathered);
}

proof fn lemma_ends(
    reader: BodyReader,
    input: Seq<u8>,
    closed: bool,
    limit: nat,
    held: Seq<u8>,
)
    requires
        body_read(reader, input, closed, read_allowance(limit, held.len())).result == Ok::<
            Seq<u8>,
            ErrorView,
        >(Seq::empty()),
    ensures
        gathered(reader, input, closed, limit, held) == (Gathered::Whole {
            body: held,
            unread: input.skip(
                body_read(reader, input, closed, read_allowance(limit, held.len())).used as int,
            ),
        }),
{
    reveal(gathered);
}

/// A body of known length is collected whole exactly where it is within the limit, and exactly
/// what follows it stays unread; a longer one is refused.
pub proof fn lemma_sized_bodies_are_collected(
    body: Seq<u8>,
    rest: Seq<u8>,
    closed: bool,
    limit: nat,
    held: Seq<u8>,
)
    requires
        body.len() <= usize::MAX,
        held.len() <= limit,
    ensures
        gathered(
            BodyReader::SizedReader(body.len() as usize),
            body + rest,
            closed,
            limit,
            held,
        ) == (if held.len() + body.len() <= limit {
            Gathered::Whole { body: held + body, unread: rest }
        } else {
            Gathered::TooLong
        }),
    decreases body.len(),
{
    let reader = BodyReader::SizedReader(body.len() as usize);
    let input = body + rest;
    let allowed = read_allowance(limit, held.len());
    let step = body_read(reader, input, closed, allowed);
    lemma_one_step(reader, input, closed, limit, held, step);
    if body.len() == 0 {
        assert(held + body =~= held);
        assert(input.skip(0) =~= rest);
    } else {
        let n = step.used as int;
        assert(0 < n <= body.len());
        assert(input.take(n) =~= body.take(n));
        assert(step.result->Ok_0.len() == n);
        if held.len() + n <= limit {
            let left = body.skip(n);
            assert(input.skip(n) =~= left + rest);
            lemma_sized_bodies_are_collected(left, rest, closed, limit, held + body.take(n));
            assert(held + body.take(n) + left =~= held + body);
        }
    }
}

/// A body that ends with its connection is collected whole exactly where it is within the limit.
pub proof fn lemma_unframed_bodies_are_collected(body: Seq<u8>, limit: nat, held: Seq<u8>)
    requires
        held.len() <= limit,
    ensures
        gathered(BodyReader::EofReader(true), body, true, limit, held) == (if held.len()
            + body.len() <= limit {
            Gathered::Whole { body: held + body, unread: Seq::<u8>::empty() }
        } else {
            Gathered::TooLong
        }),
    decreases body.len(),
{
    let allowed = read_allowance(limit, held.len());
    let step = body_read(BodyReader::EofReader(true), body, true, allowed);
    lemma_one_step(BodyReader::EofReader(true), body, true, limit, held, step);
    if body.len() == 0 {
        assert(held + body =~= held);
        assert(body.skip(0) =~= Seq::<u8>::empty());
        assert(body.take(0).len() == 0);
    } else {
        let n = step.used as int;
        assert(0 < n <= body.len());
        assert(step.result->Ok_0 == body.take(n));
        if held.len() + n <= limit {
            lemma_unframed_bodies_are_collected(body.skip(n), limit, held + body.take(n));
            assert(held + body.take(n) + body.skip(n) =~= held + body);
        }
    }
}

/// A chunked body is collected whole exactly where it is within the limit, however it is cut into
/// chunks, and exactly what follows it stays unread; a longer one is refused.
pub proof fn lemma_chunked_bodies_are_collected(
    pieces: Seq<Seq<u8>>,
    rest: Seq<u8>,
    closed: bool,
    limit: nat,
    held: Seq<u8>,
)
    requires
        held.len() <= limit,
        forall|i: int|
            0 <= i < pieces.len() ==> 0 < (#[trigger] pieces[i]).len() <= usize::MAX,
    ensures
        gathered(
            BodyReader::ChunkReader(None),
            chunked(pieces) + last_chunk() + rest,
            closed,
            limit,
            held,
        ) == (if held.len() + joined(pieces).len() <= limit {
            Gathered::Whole { body: held + joined(pieces), unread: rest }
        } else {
            Gathered::TooLong
        }),
    decreases pieces.len(), 0nat,
{
    let reader = BodyReader::ChunkReader(None);
    let input = chunked(pieces) + last_chunk() + rest;
    let max = read_allowance(limit, held.len());
    if pieces.len() == 0 {
        assert(input =~= last_chunk() + rest);
        lemma_last_chunk_read(rest, closed, max);
        lemma_ends(reader, input, closed, limit, held);
        assert(input.skip(5) =~= rest);
        assert(joined(pieces) =~= Seq::<u8>::empty());
        assert(held + joined(pieces) =~= held);
    } else {
        let data = pieces[0];
        let others = pieces.drop_first();
        let following = chunked(others) + last_chunk() + rest;
        assert(input =~= chunk_bytes(data) + following);
        lemma_chunk_read(data, following, closed, max);
        if max < data.len() {
            let read = data.take(max as int);
            lemma_goes_on(reader, input, closed, limit, held, read);
            if held.len() + max <= limit {
                let left = data.skip(max as int);
                lemma_chunk_tails_are_collected(left, others, rest, closed, limit, held + read);
                assert(held + read + (left + joined(others)) =~= held + joined(pieces));
            }
        } else {
            lemma_goes_on(reader, input, closed, limit, held, data);
            if held.len() + data.len() <= limit {
                lemma_chunked_bodies_are_collected(others, rest, closed, limit, held + data);
                assert(held + data + joined(others) =~= held + joined(pieces));
            }
        }
    }
}

proof fn lemma_chunk_tails_are_collected(
    tail: Seq<u8>,
    pieces: Seq<Seq<u8>>,
    rest: Seq<u8>,
    closed: bool,
    limit: nat,
    held: Seq<u8>,
)
    requires
        held.len() <= limit,
        0 < tail.len() <= usize::MAX,
        forall|i: int|
            0 <= i < pieces.len() ==> 0 < (#[trigger] pieces[i]).len() <= usize::MAX,
    ensures
        gathered(
            BodyReader::ChunkReader(Some(tail.len() as usize)),
            tail + line_end() + (chunked(pieces) + last_chunk() + rest),
            closed,
            limit,
            held,
        ) == (if held.len() + tail.len() + joined(pieces).len() <= limit {
            Gathered::Whole { body: held + (tail + joined(pieces)), unread: rest }
        } else {
            Gathered::TooLong
        }),
    decreases pieces.len(), tail.len(),
{
    let reader = BodyReader::ChunkReader(Some(tail.len() as usize));
    let following = chunked(pieces) + last_chunk() + rest;
    let input = tail + line_end() + following;
    let none = Seq::<u8>::empty();
    let max = read_allowance(limit, held.len());
    assert(none + tail + line_end() + following =~= input);
    lemma_read_inside_chunk(reader, none, tail, following, closed, max);
    if max < tail.len() {
        let read = tail.take(max as int);
        lemma_goes_on(reader, input, closed, limit, held, read);
        if held.len() + max <= limit {
            let left = tail.skip(max as int);
            assert(input.skip(max as int) =~= left + line_end() + following);
            lemma_chunk_tails_are_collected(left, pieces, rest, closed, limit, held + read);
            assert(held + read + (left + joined(pieces)) =~= held + (tail + joined(pieces)));
        }
    } else {
        lemma_goes_on(reader, input, closed, limit, held, tail);
        if held.len() + tail.len() <= limit {
            assert(input.skip(tail.len() as int + 2) =~= following);
            lemma_chunked_bodies_are_collected(pieces, rest, closed, limit, held + tail);
            assert(held + tail + joined(pieces) =~= held + (tail + joined(pieces)));
        }
    }
}

/// A read that has to wait makes the collection wait, one that fails makes it fail, and what was
/// collected is kept.
pub proof fn lemma_reads_decide_collections(held: Seq<u8>, limit: nat, step: ReadView)
    ensures
        collect_step(held, limit, step) is Starved <==> step.result == Err::<
            Seq<u8>,
            ErrorView,
        >(starved()),
        collect_step(held, limit, step) matches CollectView::Failed(e) ==> step.result == Err::<
            Seq<u8>,
            ErrorView,
        >(e),
        step.result is Err && step.result->Err_0 != starved() ==> collect_step(held, limit, step)
            is Failed,
        collect_step(held, limit, step) is Done <==> (step.result matches Ok(piece) && piece.len()
            == 0),
        collect_step(held, limit, step) matches CollectView::More(bytes) ==> bytes.len() <= limit
            && bytes == held + step.result->Ok_0,
        collect_step(held, limit, step) is TooLong ==> held.len() + step.result->Ok_0.len()
            > limit,
{
}

/// What is collected is never more than the limit, whatever arrives and however it is framed.
pub proof fn lemma_collections_keep_to_the_limit(
    reader: BodyReader,
    input: Seq<u8>,
    closed: bool,
    limit: nat,
    held: Seq<u8>,
)
    requires
        held.len() <= limit,
    ensures
        gathered(reader, input, closed, limit, held) matches Gathered::Whole { body, unread }
            ==> body.len() <= limit && held.len() <= body.len() && body.take(held.len() as int)
            == held,
    decreases input.len(),
{
    let step = body_read(reader, input, closed, read_allowance(limit, held.len()));
    lemma_one_step(reader, input, closed, limit, held, step);
    match collect_step(held, limit, step) {
        CollectView::More(bytes) => {
            if 0 < step.used && step.used <= input.len() {
                let rest = input.skip(step.used as int);
                lemma_collections_keep_to_the_limit(step.next, rest, closed, limit, bytes);
                if let Gathered::Whole { body, unread } = gathered(
                    step.next,
                    rest,
                    closed,
                    limit,
                    bytes,
                ) {
                    assert(body.take(held.len() as int) =~= bytes.take(held.len() as int)) by {
                        assert(body.take(bytes.len() as int) == bytes);
                    }
                    assert(bytes.take(held.len() as int) =~= held);
                }
            }
        },
        CollectView::Done => {
            assert(held.take(held.len() as int) =~= held);
        },
        _ => {},
    }
}

/// A streaming response hands on what is read of its body, byte for byte, while it is open and in
/// time; it ends with the body, fails with it and waits with it. After its end it is empty, and
/// after its deadline it fails, whatever has arrived.
pub proof fn lemma_streams_hand_on(max: nat, late: bool, open: bool, step: ReadView)
    requires
        max > 0,
    ensures
        late ==> stream_step(max, late, open, step) is Late,
        !late && !open ==> stream_step(max, late, open, step) is Nothing,
        !late && open && step.result is Ok ==> stream_step(max, late, open, step) == (
        StreamView::Piece { bytes: step.result->Ok_0, last: step.next.complete() }),
        !late && open && step.result == Err::<Seq<u8>, ErrorView>(starved()) ==> stream_step(
            max,
            late,
            open,
            step,
        ) is Starved,
        !late && open && step.result is Err && step.result->Err_0 != starved() ==> stream_step(
            max,
            late,
            open,
            step,
        ) == StreamView::Failed(step.result->Err_0),
{
}

/// A body that was received to its end, or given up, delivers nothing more and consumes nothing.
pub proof fn lemma_ended_bodies_are_empty(
    reader: BodyReader,
    input: Seq<u8>,
    closed: bool,
    max: nat,
)
    requires
        ({
            ||| reader == BodyReader::SizedReader(0)
            ||| reader == BodyReader::ChunkReader(Some(0))
            ||| reader == BodyReader::EofReader(false)
            ||| reader == BodyReader::EmptyReader
        }),
    ensures
        reader.complete(),
        body_read(reader, input, closed, max).result matches Ok(bytes) && bytes.len() == 0,
        body_read(reader, input, closed, max).used == 0,
        body_read(reader, input, closed, max).next == reader,
{
}

/// A body that is still to come is not complete; giving it up completes it.
pub proof fn lemma_given_up_bodies_are_complete(reader: BodyReader)
    ensures
        reader.given_up().complete(),
        reader matches BodyReader::SizedReader(n) ==> (reader.complete() <==> n == 0),
        reader matches BodyReader::ChunkReader(rest) ==> (reader.complete() <==> rest
            == Some(0usize)),
        reader matches BodyReader::EofReader(open) ==> (reader.complete() <==> !open),
        reader is EmptyReader ==> reader.complete(),
{
}

/// The data of a chunk is followed by a line end: where anything else stands there, the read that
/// would end the chunk fails.
pub proof fn lemma_chunks_end_with_a_line(
    data: Seq<u8>,
    behind: Seq<u8>,
    closed: bool,
    max: nat,
)
    requires
        0 < data.len() <= usize::MAX,
        max >= data.len(),
        behind.len() >= 2,
    ensures
        ({
            let step = body_read(
                BodyReader::ChunkReader(Some(data.len() as usize)),
                data + behind,
                closed,
                max,
            );
            if behind[0] == '\r' as u8 && behind[1] == '\n' as u8 {
                &&& step.result == Ok::<Seq<u8>, ErrorView>(data)
                &&& step.next == BodyReader::ChunkReader(None)
                &&& step.used == data.len() + 2
            } else {
                step.result is Err && step.result->Err_0 != starved()
            }
        }),
{
    reveal_with_fuel(expected_bytes, 3);
    let input = data + behind;
    assert(input.skip(0) =~= input);
    assert(input.take(data.len() as int) =~= data);
    assert(input.skip(data.len() as int) =~= behind);
    let eol = seq![0x0du8, 0x0au8];
    assert(eol[0] == 0x0d && eol[1] == 0x0a);
    assert(crate::error::ErrorKind::InvalidInput != starved().kind);
}

/// A request may be sent exactly where none of its own fields belongs to the transport, a GET or
/// HEAD has no body, and its deadline has not passed.
pub proof fn lemma_sendable_requests(
    headers: Seq<(Seq<char>, Seq<Seq<u8>>)>,
    method: Seq<char>,
    body: RequestBody,
    deadline: Instant,
    now: Instant,
)
    ensures
        unsendable(headers, method, body, deadline, now) is None <==> {
            &&& !names_transport(headers)
            &&& (method == "GET"@ || method == "HEAD"@ ==> body is Empty)
            &&& now.nanos <= deadline.nanos
        },
{
    crate::laws::fields::lemma_own_fields(headers);
}

} // verus!

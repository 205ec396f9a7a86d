//! The chunked transfer coding, and what reading gives back of what was written.

use vstd::prelude::*;

use crate::body::body_reader::{
    body_read, chunk_data, chunk_line, chunk_size, expected_bytes, hex_value, least, line_start,
    line_step, read_nothing, trailer_section, BodyReader, LinePhase, LineState, ScanView, MAX_CHUNK_LINE_BYTES,
};

verus! {

/// The upper-case hexadecimal digit of `d`.
pub open spec fn size_digit(d: nat) -> u8 {
    if d < 10 {
        (0x30 + d) as u8
    } else {
        (0x41 + d - 10) as u8
    }
}

/// A chunk size in upper-case hexadecimal, without leading zeros.
pub open spec fn size_bytes(n: nat) -> Seq<u8>
    decreases n,
{
    if n < 16 {
        seq![size_digit(n)]
    } else {
        size_bytes(n / 16).push(size_digit(n % 16))
    }
}

pub open spec fn line_end() -> Seq<u8> {
    seq![0x0du8, 0x0au8]
}

/// One chunk: its size line, its data, and the line end behind them.
pub open spec fn chunk_bytes(data: Seq<u8>) -> Seq<u8> {
    size_bytes(data.len()) + line_end() + data + line_end()
}

/// The chunk of size zero and the empty trailer section that end a chunked body.
pub open spec fn last_chunk() -> Seq<u8> {
    seq![0x30u8, 0x0du8, 0x0au8, 0x0du8, 0x0au8]
}

/// The pieces of a body, each as a chunk.
pub open spec fn chunked(pieces: Seq<Seq<u8>>) -> Seq<u8>
    decreases pieces.len(),
{
    if pieces.len() == 0 {
        Seq::empty()
    } else {
        chunk_bytes(pieces[0]) + chunked(pieces.drop_first())
    }
}

/// The pieces of a body, one after the other.
pub open spec fn joined(pieces: Seq<Seq<u8>>) -> Seq<u8>
    decreases pieces.len(),
{
    if pieces.len() == 0 {
        Seq::empty()
    } else {
        pieces[0] + joined(pieces.drop_first())
    }
}

/// Reading a body until nothing more is delivered.
pub struct Drained {
    /// Everything that was delivered.
    pub bytes: Seq<u8>,
    /// The reader afterwards.
    pub reader: BodyReader,
    /// What stays unread.
    pub unread: Seq<u8>,
}

/// What a reader delivers from received bytes, read until nothing more is delivered, where the
/// read number `k` asks for `sizes(k)` bytes; nothing where a read fails or is starved.
#[verifier::opaque]
pub open spec fn drained(
    reader: BodyReader,
    input: Seq<u8>,
    closed: bool,
    sizes: spec_fn(nat) -> nat,
    k: nat,
) -> Option<Drained>
    decreases input.len(),
{
    let step = body_read(reader, input, closed, sizes(k));
    match step.result {
        Err(_) => None,
        Ok(bytes) => if bytes.len() == 0 && step.used <= input.len() {
            Some(Drained { bytes, reader: step.next, unread: input.skip(step.used as int) })
        } else if 0 < step.used && step.used <= input.len() {
            match drained(step.next, input.skip(step.used as int), closed, sizes, k + 1) {
                Some(rest) => Some(Drained { bytes: bytes + rest.bytes, ..rest }),
                None => None,
            }
        } else {
            None
        },
    }
}

/// One read that delivers something, and the reads after it.
proof fn lemma_drained_goes_on(
    reader: BodyReader,
    input: Seq<u8>,
    closed: bool,
    sizes: spec_fn(nat) -> nat,
    k: nat,
)
    requires
        body_read(reader, input, closed, sizes(k)).result matches Ok(bytes) && bytes.len() > 0,
        0 < body_read(reader, input, closed, sizes(k)).used <= input.len(),
    ensures
        ({
            let step = body_read(reader, input, closed, sizes(k));
            drained(reader, input, closed, sizes, k) == match drained(
                step.next,
                input.skip(step.used as int),
                closed,
                sizes,
                k + 1,
            ) {
                Some(rest) => Some(Drained { bytes: step.result->Ok_0 + rest.bytes, ..rest }),
                None => None,
            }
        }),
{
    reveal(drained);
}

/// A read that delivers nothing ends the body.
proof fn lemma_drained_ends(
    reader: BodyReader,
    input: Seq<u8>,
    closed: bool,
    sizes: spec_fn(nat) -> nat,
    k: nat,
)
    requires
        body_read(reader, input, closed, sizes(k)).result == Ok::<
            Seq<u8>,
            crate::error::ErrorView,
        >(Seq::empty()),
        body_read(reader, input, closed, sizes(k)).used <= input.len(),
    ensures
        ({
            let step = body_read(reader, input, closed, sizes(k));
            drained(reader, input, closed, sizes, k) == Some(
                Drained {
                    bytes: Seq::empty(),
                    reader: step.next,
                    unread: input.skip(step.used as int),
                },
            )
        }),
{
    reveal(drained);
}

/// Sixteen to the power `k`.
spec fn size_bound(k: nat) -> nat
    decreases k,
{
    if k == 0 {
        1
    } else {
        16 * size_bound((k - 1) as nat)
    }
}

proof fn lemma_size_len(n: nat, k: nat)
    requires
        k >= 1,
        n < size_bound(k),
    ensures
        1 <= size_bytes(n).len() <= k,
    decreases n,
{
    if n >= 16 {
        if k == 1 {
            reveal_with_fuel(size_bound, 2);
        } else {
            lemma_size_len(n / 16, (k - 1) as nat);
        }
    }
}

/// A size that fits in a machine word is rendered in at most sixteen digits.
pub proof fn lemma_size_is_short(n: nat)
    requires
        n <= usize::MAX,
    ensures
        1 <= size_bytes(n).len() <= 16,
{
    assert(size_bound(16) == 0x1_0000_0000_0000_0000) by {
        reveal_with_fuel(size_bound, 17);
    }
    lemma_size_len(n, 16);
}

proof fn lemma_size_digits(n: nat, s: Seq<u8>, closed: bool)
    requires
        n <= usize::MAX,
        size_bytes(n).len() <= s.len(),
        size_bytes(n).len() < MAX_CHUNK_LINE_BYTES,
        s.take(size_bytes(n).len() as int) == size_bytes(n),
    ensures
        chunk_line(s, closed, line_start(), 0) == chunk_line(
            s,
            closed,
            (LineState { size: n, saw_digit: true, phase: LinePhase::Size }),
            size_bytes(n).len(),
        ),
    decreases n,
{
    let len = size_bytes(n).len();
    assert(s[len - 1] == s.take(len as int)[len - 1]);
    if n < 16 {
        reveal_with_fuel(chunk_line, 2);
        assert(hex_value(size_digit(n)) == Some(n));
        assert(line_step(line_start(), s[0]) == Ok::<
            Option<LineState>,
            crate::error::ErrorView,
        >(Some(LineState { size: n, saw_digit: true, phase: LinePhase::Size })));
    } else {
        assert(s.take(len - 1) =~= size_bytes(n / 16)) by {
            assert(s.take(len as int).take(len - 1) =~= s.take(len - 1));
            assert(size_bytes(n).take(len - 1) =~= size_bytes(n / 16));
        }
        lemma_size_digits(n / 16, s, closed);
        let before = LineState { size: n / 16, saw_digit: true, phase: LinePhase::Size };
        assert(hex_value(size_digit(n % 16)) == Some(n % 16));
        assert((n / 16) * 16 + n % 16 == n);
        assert(line_step(before, s[len - 1]) == Ok::<Option<LineState>, crate::error::ErrorView>(
            Some(LineState { size: n, saw_digit: true, phase: LinePhase::Size }),
        ));
    }
}

/// A rendered size line is read back as that size, whatever follows it.
pub proof fn lemma_size_line(n: nat, rest: Seq<u8>, closed: bool)
    requires
        n <= usize::MAX,
    ensures
        chunk_size(size_bytes(n) + line_end() + rest, closed) == (ScanView::Done {
            value: n,
            used: size_bytes(n).len() + 2,
        }),
{
    let s = size_bytes(n) + line_end() + rest;
    let len = size_bytes(n).len();
    lemma_size_is_short(n);
    assert(s.take(len as int) =~= size_bytes(n));
    lemma_size_digits(n, s, closed);
    assert(s[len as int] == 0x0d);
    assert(s[len as int + 1] == 0x0a);
}

proof fn lemma_line_end_is_expected(rest: Seq<u8>, closed: bool)
    ensures
        expected_bytes(line_end() + rest, closed, line_end(), 0) == (ScanView::Done {
            value: 0,
            used: 2,
        }),
{
    reveal_with_fuel(expected_bytes, 3);
}

/// What one read inside a chunk comes to, where the whole chunk has arrived.
pub proof fn lemma_read_inside_chunk(
    reader: BodyReader,
    line: Seq<u8>,
    data: Seq<u8>,
    rest: Seq<u8>,
    closed: bool,
    max: nat,
)
    requires
        data.len() > 0,
        max > 0,
    ensures
        ({
            let input = line + data + line_end() + rest;
            let step = chunk_data(reader, data.len(), line.len(), input, closed, max);
            if max < data.len() {
                &&& step.result == Ok::<Seq<u8>, crate::error::ErrorView>(data.take(max as int))
                &&& step.next == BodyReader::ChunkReader(Some((data.len() - max) as usize))
                &&& step.used == line.len() + max
                &&& !step.complete
            } else {
                &&& step.result == Ok::<Seq<u8>, crate::error::ErrorView>(data)
                &&& step.next == BodyReader::ChunkReader(None)
                &&& step.used == line.len() + data.len() + 2
                &&& !step.complete
            }
        }),
{
    let input = line + data + line_end() + rest;
    let tail = input.skip(line.len() as int);
    assert(tail =~= data + line_end() + rest);
    let count = least(least(data.len(), max), tail.len());
    assert(tail.take(count as int) =~= data.take(count as int));
    if max >= data.len() {
        assert(data.take(data.len() as int) =~= data);
        assert(tail.skip(data.len() as int) =~= line_end() + rest);
        lemma_line_end_is_expected(rest, closed);
    }
}

/// What one read comes to at the end of a chunked body.
pub proof fn lemma_last_chunk_read(rest: Seq<u8>, closed: bool, max: nat)
    ensures
        ({
            let step = body_read(
                BodyReader::ChunkReader(None),
                last_chunk() + rest,
                closed,
                max,
            );
            &&& step.result == Ok::<Seq<u8>, crate::error::ErrorView>(Seq::empty())
            &&& step.next == BodyReader::ChunkReader(Some(0))
            &&& step.used == 5
            &&& step.complete
        }),
{
    let input = last_chunk() + rest;
    let after = line_end() + rest;
    assert(size_bytes(0) =~= seq![0x30u8]);
    assert(input =~= size_bytes(0) + line_end() + after);
    lemma_size_line(0, after, closed);
    assert(input.skip(3) =~= after);
    reveal_with_fuel(trailer_section, 3);
    assert(after[0] == 0x0d && after[1] == 0x0a);
    assert(trailer_section(after, closed, 0, 0) == (ScanView::Done { value: 0, used: 2 }));
}

/// What one read comes to at the start of a chunk that has arrived whole.
pub proof fn lemma_chunk_read(data: Seq<u8>, following: Seq<u8>, closed: bool, max: nat)
    requires
        max > 0,
        0 < data.len() <= usize::MAX,
    ensures
        ({
            let input = chunk_bytes(data) + following;
            let step = body_read(BodyReader::ChunkReader(None), input, closed, max);
            if max < data.len() {
                &&& step.result == Ok::<Seq<u8>, crate::error::ErrorView>(data.take(max as int))
                &&& step.next == BodyReader::ChunkReader(Some((data.len() - max) as usize))
                &&& 0 < step.used <= input.len()
                &&& input.skip(step.used as int) == data.skip(max as int) + line_end() + following
            } else {
                &&& step.result == Ok::<Seq<u8>, crate::error::ErrorView>(data)
                &&& step.next == BodyReader::ChunkReader(None)
                &&& 0 < step.used <= input.len()
                &&& input.skip(step.used as int) == following
            }
        }),
{
    let input = chunk_bytes(data) + following;
    let size = size_bytes(data.len()) + line_end();
    let behind = data + line_end() + following;
    assert(input =~= size + data + line_end() + following);
    assert(input =~= size_bytes(data.len()) + line_end() + behind);
    lemma_size_line(data.len(), behind, closed);
    lemma_read_inside_chunk(BodyReader::ChunkReader(None), size, data, following, closed, max);
    let step = body_read(BodyReader::ChunkReader(None), input, closed, max);
    assert(step == chunk_data(
        BodyReader::ChunkReader(None),
        data.len(),
        size.len(),
        input,
        closed,
        max,
    ));
    if max < data.len() {
        assert(input.skip(step.used as int) =~= data.skip(max as int) + line_end() + following);
    } else {
        assert(input.skip(step.used as int) =~= following);
    }
}

proof fn lemma_chunks_drain(
    pieces: Seq<Seq<u8>>,
    rest: Seq<u8>,
    closed: bool,
    sizes: spec_fn(nat) -> nat,
    k: nat,
)
    requires
        forall|i: nat| #[trigger] sizes(i) > 0,
        forall|i: int|
            0 <= i < pieces.len() ==> 0 < (#[trigger] pieces[i]).len() <= usize::MAX,
    ensures
        drained(
            BodyReader::ChunkReader(None),
            chunked(pieces) + last_chunk() + rest,
            closed,
            sizes,
            k,
        ) == Some(
            Drained {
                bytes: joined(pieces),
                reader: BodyReader::ChunkReader(Some(0)),
                unread: rest,
            },
        ),
    decreases pieces.len(), 0nat,
{
    let input = chunked(pieces) + last_chunk() + rest;
    let max = sizes(k);
    if pieces.len() == 0 {
        assert(input =~= last_chunk() + rest);
        lemma_last_chunk_read(rest, closed, max);
        lemma_drained_ends(BodyReader::ChunkReader(None), input, closed, sizes, k);
        assert(input.skip(5) =~= rest);
    } else {
        let data = pieces[0];
        let others = pieces.drop_first();
        let following = chunked(others) + last_chunk() + rest;
        assert(input =~= chunk_bytes(data) + following);
        lemma_chunk_read(data, following, closed, max);
        lemma_drained_goes_on(BodyReader::ChunkReader(None), input, closed, sizes, k);
        if max < data.len() {
            let left = data.skip(max as int);
            lemma_tail_round_trip(left, others, rest, closed, sizes, k + 1);
            assert(data.take(max as int) + (left + joined(others)) =~= joined(pieces));
        } else {
            lemma_chunks_drain(others, rest, closed, sizes, k + 1);
        }
    }
}

proof fn lemma_tail_round_trip(
    tail: Seq<u8>,
    pieces: Seq<Seq<u8>>,
    rest: Seq<u8>,
    closed: bool,
    sizes: spec_fn(nat) -> nat,
    k: nat,
)
    requires
        forall|i: nat| #[trigger] sizes(i) > 0,
        0 < tail.len() <= usize::MAX,
        forall|i: int|
            0 <= i < pieces.len() ==> 0 < (#[trigger] pieces[i]).len() <= usize::MAX,
    ensures
        drained(
            BodyReader::ChunkReader(Some(tail.len() as usize)),
            tail + line_end() + (chunked(pieces) + last_chunk() + rest),
            closed,
            sizes,
            k,
        ) == Some(
            Drained {
                bytes: tail + joined(pieces),
                reader: BodyReader::ChunkReader(Some(0)),
                unread: rest,
            },
        ),
    decreases pieces.len(), tail.len(),
{
    let following = chunked(pieces) + last_chunk() + rest;
    let input = tail + line_end() + following;
    let reader = BodyReader::ChunkReader(Some(tail.len() as usize));
    let none = Seq::<u8>::empty();
    let max = sizes(k);
    assert(none + tail + line_end() + following =~= input);
    lemma_read_inside_chunk(reader, none, tail, following, closed, max);
    let step = body_read(reader, input, closed, max);
    lemma_drained_goes_on(reader, input, closed, sizes, k);
    if max < tail.len() {
        let left = tail.skip(max as int);
        assert(input.skip(step.used as int) =~= left + line_end() + following);
        lemma_tail_round_trip(left, pieces, rest, closed, sizes, k + 1);
        assert(tail.take(max as int) + (left + joined(pieces)) =~= tail + joined(pieces));
    } else {
        assert(input.skip(step.used as int) =~= following);
        lemma_chunks_drain(pieces, rest, closed, sizes, k + 1);
    }
}

/// Reading gives back what was written: a chunked body made of non-empty pieces is delivered
/// whole and in order, whatever the sizes of the reads and whatever bytes follow it on the
/// connection; exactly those bytes stay unread, and every further read is empty.
pub proof fn lemma_chunked_round_trip(
    pieces: Seq<Seq<u8>>,
    rest: Seq<u8>,
    closed: bool,
    sizes: spec_fn(nat) -> nat,
    k: nat,
)
    requires
        forall|i: nat| #[trigger] sizes(i) > 0,
        forall|i: int|
            0 <= i < pieces.len() ==> 0 < (#[trigger] pieces[i]).len() <= usize::MAX,
    ensures
        drained(
            BodyReader::ChunkReader(None),
            chunked(pieces) + last_chunk() + rest,
            closed,
            sizes,
            k,
        ) == Some(
            Drained {
                bytes: joined(pieces),
                reader: BodyReader::ChunkReader(Some(0)),
                unread: rest,
            },
        ),
        forall|later: Seq<u8>, ended: bool, max: nat| #[trigger]
            body_read(BodyReader::ChunkReader(Some(0)), later, ended, max) == read_nothing(
                BodyReader::ChunkReader(Some(0)),
            ),
{
    lemma_chunks_drain(pieces, rest, closed, sizes, k);
}

/// A body of known length is delivered whole, whatever the sizes of the reads, and exactly what is
/// behind it stays unread.
pub proof fn lemma_sized_round_trip(
    body: Seq<u8>,
    rest: Seq<u8>,
    closed: bool,
    sizes: spec_fn(nat) -> nat,
    k: nat,
)
    requires
        forall|i: nat| #[trigger] sizes(i) > 0,
        body.len() <= usize::MAX,
    ensures
        drained(
            BodyReader::SizedReader(body.len() as usize),
            body + rest,
            closed,
            sizes,
            k,
        ) == Some(Drained { bytes: body, reader: BodyReader::SizedReader(0), unread: rest }),
    decreases body.len(),
{
    let input = body + rest;
    let reader = BodyReader::SizedReader(body.len() as usize);
    let max = sizes(k);
    if body.len() > 0 {
        let n = least(body.len(), max);
        assert(input.take(n as int) =~= body.take(n as int));
        lemma_drained_goes_on(reader, input, closed, sizes, k);
        let left = body.skip(n as int);
        assert(input.skip(n as int) =~= left + rest);
        lemma_sized_round_trip(left, rest, closed, sizes, k + 1);
        assert(body.take(n as int) + left =~= body);
    } else {
        assert(body =~= Seq::<u8>::empty());
        lemma_drained_ends(reader, input, closed, sizes, k);
        assert(input.skip(0) =~= rest);
    }
}

} // verus!

//! Reading a response body up to its framing boundary.

use vstd::prelude::*;

use crate::buffer::{starved, starved_error, BufferView};
use crate::error::{failure, Error, ErrorKind, ErrorView};
use crate::shared::SharedStream;
use crate::text::copy_bytes;

verus! {

pub const MAX_CHUNK_LINE_BYTES: usize = 8192;

pub const MAX_TRAILER_BYTES: usize = 16384;

/// How far a response body has been received.
#[derive(Debug, Clone, Copy, PartialEq, Eq, Structural)]
pub enum BodyReader {
    /// A body of known length, of which this many bytes are still to come.
    SizedReader(usize),
    /// A chunked body: the bytes left of the current chunk, zero at the end of the body, nothing
    /// between chunks.
    ChunkReader(Option<usize>),
    /// A body that ends with the connection; `false` once it has ended or was given up.
    EofReader(bool),
    EmptyReader,
}

/// What scanning received bytes for a syntactic element comes to.
pub enum Scan {
    /// The element ends after `used` bytes.
    Done { value: usize, used: usize },
    /// The bytes up to `used` are no such element.
    Failed { error: Error, used: usize },
    /// More bytes have to arrive before this can be told.
    Starved,
}

/// The mathematical side of a [`Scan`].
pub enum ScanView {
    Done { value: nat, used: nat },
    Failed { error: ErrorView, used: nat },
    Starved,
}

impl View for Scan {
    type V = ScanView;

    open spec fn view(&self) -> ScanView {
        match self {
            Scan::Done { value, used } => ScanView::Done { value: *value as nat, used: *used as nat },
            Scan::Failed { error, used } => ScanView::Failed { error: error@, used: *used as nat },
            Scan::Starved => ScanView::Starved,
        }
    }
}

/// What a scan comes to where the received bytes end too early.
pub open spec fn cut_off(closed: bool, error: ErrorView, used: nat) -> ScanView {
    if closed {
        ScanView::Failed { error, used }
    } else {
        ScanView::Starved
    }
}

/// The part of a chunk-size line that is being read.
#[derive(Clone, Copy, PartialEq, Eq, Structural)]
pub enum LinePhase {
    /// The hexadecimal digits of the size.
    Size,
    /// White space behind the size.
    Blank,
    /// A chunk extension, which is skipped.
    Extension,
}

/// A chunk-size line as far as it was read.
pub struct LineState {
    pub size: nat,
    pub saw_digit: bool,
    pub phase: LinePhase,
}

/// The value of a hexadecimal digit.
pub open spec fn hex_value(b: u8) -> Option<nat> {
    if 0x30 <= b && b <= 0x39 {
        Some((b - 0x30) as nat)
    } else if 0x61 <= b && b <= 0x66 {
        Some((b - 0x61 + 10) as nat)
    } else if 0x41 <= b && b <= 0x46 {
        Some((b - 0x41 + 10) as nat)
    } else {
        None
    }
}

/// One more byte of a chunk-size line: the line goes on, it ends (a CR behind a size), or the
/// byte has no place there.
pub open spec fn line_step(state: LineState, b: u8) -> Result<Option<LineState>, ErrorView> {
    if state.phase == LinePhase::Size && hex_value(b) is Some {
        let size = state.size * 16 + hex_value(b)->0;
        if size > usize::MAX {
            Err(failure(ErrorKind::InvalidData, "chunk size overflows usize"@))
        } else {
            Ok(Some(LineState { size, saw_digit: true, ..state }))
        }
    } else if b == 0x0d && state.saw_digit {
        Ok(None)
    } else if state.phase == LinePhase::Extension {
        Ok(Some(state))
    } else if b == 0x3b {
        Ok(Some(LineState { phase: LinePhase::Extension, ..state }))
    } else if b == 0x09 || b == 0x20 {
        Ok(Some(LineState { phase: LinePhase::Blank, ..state }))
    } else {
        Err(failure(ErrorKind::InvalidInput, "Invalid chunk size line, unknown byte"@))
    }
}

/// The chunk-size line in `s`, read from position `at` on in the given state.
pub open spec fn chunk_line(s: Seq<u8>, closed: bool, state: LineState, at: nat) -> ScanView
    decreases MAX_CHUNK_LINE_BYTES - at,
{
    if at >= MAX_CHUNK_LINE_BYTES {
        ScanView::Failed {
            error: failure(ErrorKind::InvalidData, "chunk-size line exceeds configured limit"@),
            used: at,
        }
    } else if at >= s.len() {
        cut_off(
            closed,
            failure(ErrorKind::InvalidInput, "Invalid chunk size line, read byte"@),
            at,
        )
    } else {
        match line_step(state, s[at as int]) {
            Err(error) => ScanView::Failed { error, used: at + 1 },
            Ok(Some(next)) => chunk_line(s, closed, next, at + 1),
            Ok(None) => if at + 1 >= s.len() {
                cut_off(
                    closed,
                    failure(ErrorKind::InvalidInput, "Invalid chunk size line, read byte"@),
                    at + 1,
                )
            } else if s[at as int + 1] == 0x0a {
                ScanView::Done { value: state.size, used: at + 2 }
            } else {
                ScanView::Failed {
                    error: failure(
                        ErrorKind::InvalidInput,
                        "Invalid chunk size line, read new line"@,
                    ),
                    used: at + 2,
                }
            },
        }
    }
}

/// The state before the first byte of a chunk-size line.
pub open spec fn line_start() -> LineState {
    LineState { size: 0, saw_digit: false, phase: LinePhase::Size }
}

/// The chunk-size line at the start of `s`.
pub open spec fn chunk_size(s: Seq<u8>, closed: bool) -> ScanView {
    chunk_line(s, closed, line_start(), 0)
}

/// The exact bytes `expected` in `s`, from the position `at` of `expected` on.
pub open spec fn expected_bytes(s: Seq<u8>, closed: bool, expected: Seq<u8>, at: nat) -> ScanView
    decreases expected.len() - at,
{
    let error = failure(ErrorKind::InvalidInput, "Invalid characters found"@);
    if at >= expected.len() {
        ScanView::Done { value: 0, used: expected.len() }
    } else if at >= s.len() {
        cut_off(closed, error, at)
    } else if s[at as int] != expected[at as int] {
        ScanView::Failed { error, used: at + 1 }
    } else {
        expected_bytes(s, closed, expected, at + 1)
    }
}

/// The trailer section in `s`: field lines up to an empty line. Bytes before `at` were read, and
/// the current line starts at `start`.
pub open spec fn trailer_section(s: Seq<u8>, closed: bool, start: nat, at: nat) -> ScanView
    decreases MAX_TRAILER_BYTES - at,
{
    if at >= s.len() {
        cut_off(
            closed,
            failure(ErrorKind::UnexpectedEof, "connection closed inside chunk trailers"@),
            at,
        )
    } else if at >= MAX_TRAILER_BYTES {
        ScanView::Failed {
            error: failure(ErrorKind::InvalidData, "chunk trailers exceed configured limit"@),
            used: at + 1,
        }
    } else if start < at && s[at - 1] == 0x0d && s[at as int] == 0x0a {
        if at == start + 1 {
            ScanView::Done { value: 0, used: at + 1 }
        } else if !s.subrange(start as int, at - 1).contains(0x3a) {
            ScanView::Failed {
                error: failure(ErrorKind::InvalidData, "malformed chunk trailer field"@),
                used: at + 1,
            }
        } else {
            trailer_section(s, closed, at + 1, at + 1)
        }
    } else {
        trailer_section(s, closed, start, at + 1)
    }
}

/// What one read of a body comes to.
pub struct ReadView {
    /// The delivered bytes, or the failure.
    pub result: Result<Seq<u8>, ErrorView>,
    /// The reader afterwards.
    pub next: BodyReader,
    /// The number of received bytes that were consumed.
    pub used: nat,
    /// The framing boundary of the response was reached.
    pub complete: bool,
}

/// A read that has to be repeated when more bytes have arrived.
pub open spec fn read_starved(reader: BodyReader) -> ReadView {
    ReadView { result: Err(starved()), next: reader, used: 0, complete: false }
}

/// A read that delivers nothing and changes nothing.
pub open spec fn read_nothing(reader: BodyReader) -> ReadView {
    ReadView { result: Ok(Seq::empty()), next: reader, used: 0, complete: false }
}

pub open spec fn least(a: nat, b: nat) -> nat {
    if a <= b {
        a
    } else {
        b
    }
}

/// A read inside a chunk of which `rem` bytes are left; `line` bytes before it were its size line.
pub open spec fn chunk_data(
    reader: BodyReader,
    rem: nat,
    line: nat,
    input: Seq<u8>,
    closed: bool,
    max: nat,
) -> ReadView {
    let data = input.skip(line as int);
    let count = least(least(rem, max), data.len());
    if data.len() == 0 && !closed {
        read_starved(reader)
    } else if count == 0 {
        ReadView {
            result: Err(failure(ErrorKind::Other, "early eof"@)),
            next: BodyReader::ChunkReader(Some(0)),
            used: line,
            complete: false,
        }
    } else if count < rem {
        ReadView {
            result: Ok(data.take(count as int)),
            next: BodyReader::ChunkReader(Some((rem - count) as usize)),
            used: line + count,
            complete: false,
        }
    } else {
        match expected_bytes(data.skip(count as int), closed, seq![0x0du8, 0x0au8], 0) {
            ScanView::Starved => read_starved(reader),
            ScanView::Failed { error, used } => ReadView {
                result: Err(error),
                next: reader,
                used: line + count + used,
                complete: false,
            },
            ScanView::Done { used, .. } => ReadView {
                result: Ok(data.take(count as int)),
                next: BodyReader::ChunkReader(None),
                used: line + count + used,
                complete: false,
            },
        }
    }
}

/// One read of at most `max` bytes of a body, given the received bytes and whether the input has
/// ended.
pub open spec fn body_read(reader: BodyReader, input: Seq<u8>, closed: bool, max: nat) -> ReadView {
    match reader {
        BodyReader::SizedReader(remain) => {
            let len = least(remain as nat, max);
            let n = least(len, input.len());
            if len == 0 {
                read_nothing(reader)
            } else if input.len() == 0 {
                if closed {
                    ReadView {
                        result: Err(
                            failure(
                                ErrorKind::UnexpectedEof,
                                "connection closed before Content-Length bytes were received"@,
                            ),
                        ),
                        next: reader,
                        used: 0,
                        complete: false,
                    }
                } else {
                    read_starved(reader)
                }
            } else {
                ReadView {
                    result: Ok(input.take(n as int)),
                    next: BodyReader::SizedReader((remain - n) as usize),
                    used: n,
                    complete: n == remain,
                }
            }
        },
        BodyReader::ChunkReader(Some(rem)) => if rem == 0 {
            read_nothing(reader)
        } else {
            chunk_data(reader, rem as nat, 0, input, closed, max)
        },
        BodyReader::ChunkReader(None) => match chunk_size(input, closed) {
            ScanView::Starved => read_starved(reader),
            ScanView::Failed { error, used } => ReadView {
                result: Err(error),
                next: reader,
                used,
                complete: false,
            },
            ScanView::Done { value, used } => if value > 0 {
                chunk_data(reader, value, used, input, closed, max)
            } else {
                match trailer_section(input.skip(used as int), closed, 0, 0) {
                    ScanView::Starved => read_starved(reader),
                    ScanView::Failed { error, used: more } => ReadView {
                        result: Err(error),
                        next: reader,
                        used: used + more,
                        complete: false,
                    },
                    ScanView::Done { used: more, .. } => ReadView {
                        result: Ok(Seq::empty()),
                        next: BodyReader::ChunkReader(Some(0)),
                        used: used + more,
                        complete: true,
                    },
                }
            },
        },
        BodyReader::EofReader(true) => if input.len() == 0 && !closed {
            read_starved(reader)
        } else {
            let n = least(max, input.len());
            let ended = input.len() == 0 && max > 0;
            ReadView {
                result: Ok(input.take(n as int)),
                next: BodyReader::EofReader(!ended),
                used: n,
                complete: ended,
            }
        },
        BodyReader::EofReader(false) | BodyReader::EmptyReader => read_nothing(reader),
    }
}

/// The value of a scan does not exceed the received bytes, nor a machine word.
proof fn lemma_chunk_line_bounds(s: Seq<u8>, closed: bool, state: LineState, at: nat)
    requires
        state.size <= usize::MAX,
        at <= s.len(),
    ensures
        match chunk_line(s, closed, state, at) {
            ScanView::Done { value, used } => value <= usize::MAX && at < used <= s.len(),
            ScanView::Failed { used, .. } => at <= used <= s.len(),
            ScanView::Starved => !closed,
        },
    decreases MAX_CHUNK_LINE_BYTES - at,
{
    if at < MAX_CHUNK_LINE_BYTES && at < s.len() {
        if let Ok(Some(next)) = line_step(state, s[at as int]) {
            lemma_chunk_line_bounds(s, closed, next, at + 1);
        }
    }
}

proof fn lemma_expected_bounds(s: Seq<u8>, closed: bool, expected: Seq<u8>, at: nat)
    requires
        at <= s.len(),
        at <= expected.len(),
    ensures
        match expected_bytes(s, closed, expected, at) {
            ScanView::Done { used, .. } => used <= s.len(),
            ScanView::Failed { used, .. } => used <= s.len(),
            ScanView::Starved => !closed,
        },
    decreases expected.len() - at,
{
    if at < expected.len() && at < s.len() && s[at as int] == expected[at as int] {
        lemma_expected_bounds(s, closed, expected, at + 1);
    }
}

proof fn lemma_trailer_bounds(s: Seq<u8>, closed: bool, start: nat, at: nat)
    requires
        at <= s.len(),
    ensures
        match trailer_section(s, closed, start, at) {
            ScanView::Done { used, .. } => at < used <= s.len(),
            ScanView::Failed { used, .. } => at <= used <= s.len(),
            ScanView::Starved => !closed,
        },
    decreases MAX_TRAILER_BYTES - at,
{
    if at < s.len() && at < MAX_TRAILER_BYTES {
        if start < at && s[at - 1] == 0x0d && s[at as int] == 0x0a {
            if at != start + 1 && s.subrange(start as int, at - 1).contains(0x3a) {
                lemma_trailer_bounds(s, closed, at + 1, at + 1);
            }
        } else {
            lemma_trailer_bounds(s, closed, start, at + 1);
        }
    }
}

/// A read never consumes more than was received, never delivers more than it was asked for nor
/// more than it consumed, and is starved only while the input has not ended.
pub proof fn lemma_read_bounds(reader: BodyReader, input: Seq<u8>, closed: bool, max: nat)
    ensures
        body_read(reader, input, closed, max).used <= input.len(),
        body_read(reader, input, closed, max).result matches Ok(bytes) ==> bytes.len() <= max
            && bytes.len() <= body_read(reader, input, closed, max).used,
        closed ==> body_read(reader, input, closed, max).result != Err::<Seq<u8>, ErrorView>(
            starved(),
        ),
{
    lemma_failures_are_not_starved(input, closed, line_start(), 0);
    match reader {
        BodyReader::ChunkReader(Some(rem)) => {
            lemma_chunk_data_bounds(reader, rem as nat, 0, input, closed, max);
        },
        BodyReader::ChunkReader(None) => {
            lemma_chunk_line_bounds(input, closed, line_start(), 0);
            match chunk_size(input, closed) {
                ScanView::Done { value, used } => {
                    if value > 0 {
                        lemma_chunk_data_bounds(reader, value, used, input, closed, max);
                    } else {
                        let rest = input.skip(used as int);
                        lemma_trailer_bounds(rest, closed, 0, 0);
                        lemma_trailer_failures_are_not_starved(rest, closed, 0, 0);
                    }
                },
                _ => {},
            }
        },
        _ => {},
    }
}

/// A read frees the connection for another request exactly where it consumes the last of the
/// framing: the last byte of a sized body, the end of a chunked one, or the end of the input. A
/// body that is complete or was given up delivers nothing and frees nothing, and one that delivers
/// nothing where it was asked for bytes is complete.
pub proof fn lemma_freed_at_the_boundary(
    reader: BodyReader,
    input: Seq<u8>,
    closed: bool,
    max: nat,
)
    ensures
        ({
            let step = body_read(reader, input, closed, max);
            &&& step.complete ==> !reader.complete() && step.result is Ok
            &&& step.complete ==> step.next.complete()
            &&& step.complete && reader == BodyReader::EofReader(true) ==> closed && input.len()
                == 0
            &&& reader.complete() ==> step == read_nothing(reader)
            &&& step.result is Ok && step.next.complete() && !reader.complete() ==> step.complete
            &&& step.result == Ok::<Seq<u8>, ErrorView>(Seq::empty()) && max > 0
                && !reader.complete() ==> step.complete
            &&& step.result == Ok::<Seq<u8>, ErrorView>(Seq::empty()) && max > 0
                ==> step.next.complete()
        }),
{
    lemma_read_bounds(reader, input, closed, max);
    reveal_with_fuel(expected_bytes, 3);
    match reader {
        BodyReader::SizedReader(remain) => {
            let n = least(least(remain as nat, max), input.len());
            assert(n > 0 && n <= input.len() ==> input.take(n as int).len() == n);
        },
        BodyReader::EofReader(true) => {
            let n = least(max, input.len());
            assert(input.take(n as int).len() == n);
        },
        BodyReader::ChunkReader(Some(rem)) => {
            lemma_chunk_data_delivers(reader, rem as nat, 0, input, closed, max);
        },
        BodyReader::ChunkReader(None) => {
            lemma_chunk_line_bounds(input, closed, line_start(), 0);
            if let ScanView::Done { value, used } = chunk_size(input, closed) {
                if value > 0 {
                    lemma_chunk_data_delivers(reader, value, used, input, closed, max);
                }
            }
        },
        _ => {},
    }
}

/// A read inside a chunk delivers bytes or fails.
proof fn lemma_chunk_data_delivers(
    reader: BodyReader,
    rem: nat,
    line: nat,
    input: Seq<u8>,
    closed: bool,
    max: nat,
)
    requires
        line <= input.len(),
        rem <= usize::MAX,
    ensures
        chunk_data(reader, rem, line, input, closed, max).result matches Ok(bytes) ==> {
            &&& bytes.len() > 0
            &&& !chunk_data(reader, rem, line, input, closed, max).next.complete()
        },
{
    let data = input.skip(line as int);
    let count = least(least(rem, max), data.len());
    assert(data.take(count as int).len() == count);
}

/// A starved read changes nothing, so that it can be repeated when more bytes have arrived.
pub proof fn lemma_starved_read_changes_nothing(
    reader: BodyReader,
    input: Seq<u8>,
    closed: bool,
    max: nat,
)
    ensures
        body_read(reader, input, closed, max).result == Err::<Seq<u8>, ErrorView>(starved())
            ==> body_read(reader, input, closed, max) == read_starved(reader),
{
    lemma_failures_are_not_starved(input, closed, line_start(), 0);
    reveal_with_fuel(expected_bytes, 3);
    if reader == BodyReader::ChunkReader(None) {
        if let ScanView::Done { value, used } = chunk_size(input, closed) {
            if value == 0 {
                lemma_trailer_failures_are_not_starved(input.skip(used as int), closed, 0, 0);
            }
        }
    }
}

proof fn lemma_failures_are_not_starved(s: Seq<u8>, closed: bool, state: LineState, at: nat)
    ensures
        chunk_line(s, closed, state, at) matches ScanView::Failed { error, .. } ==> error.kind
            != ErrorKind::WouldBlock,
    decreases MAX_CHUNK_LINE_BYTES - at,
{
    if at < MAX_CHUNK_LINE_BYTES && at < s.len() {
        if let Ok(Some(next)) = line_step(state, s[at as int]) {
            lemma_failures_are_not_starved(s, closed, next, at + 1);
        }
    }
}

proof fn lemma_trailer_failures_are_not_starved(s: Seq<u8>, closed: bool, start: nat, at: nat)
    ensures
        trailer_section(s, closed, start, at) matches ScanView::Failed { error, .. } ==> error.kind
            != ErrorKind::WouldBlock,
    decreases MAX_TRAILER_BYTES - at,
{
    if at < s.len() && at < MAX_TRAILER_BYTES {
        if start < at && s[at - 1] == 0x0d && s[at as int] == 0x0a {
            if at != start + 1 && s.subrange(start as int, at - 1).contains(0x3a) {
                lemma_trailer_failures_are_not_starved(s, closed, at + 1, at + 1);
            }
        } else {
            lemma_trailer_failures_are_not_starved(s, closed, start, at + 1);
        }
    }
}

proof fn lemma_chunk_data_bounds(
    reader: BodyReader,
    rem: nat,
    line: nat,
    input: Seq<u8>,
    closed: bool,
    max: nat,
)
    requires
        line <= input.len(),
    ensures
        chunk_data(reader, rem, line, input, closed, max).used <= input.len(),
        chunk_data(reader, rem, line, input, closed, max).result matches Ok(bytes) ==> bytes.len()
            <= max && bytes.len() <= rem && bytes.len() <= chunk_data(
            reader,
            rem,
            line,
            input,
            closed,
            max,
        ).used,
        closed ==> chunk_data(reader, rem, line, input, closed, max).result != Err::<
            Seq<u8>,
            ErrorView,
        >(starved()),
{
    let data = input.skip(line as int);
    let count = least(least(rem, max), data.len());
    let crlf = seq![0x0du8, 0x0au8];
    lemma_expected_bounds(data.skip(count as int), closed, crlf, 0);
    reveal_with_fuel(expected_bytes, 3);
}

fn checked_hex_digit(size: usize, digit: u8) -> (r: Result<usize, Error>)
    ensures
        match r {
            Ok(value) => value == size * 16 + digit,
            Err(e) => size * 16 + digit > usize::MAX && e@ == failure(
                ErrorKind::InvalidData,
                "chunk size overflows usize"@,
            ),
        },
{
    match size.checked_mul(16) {
        Some(shifted) => match shifted.checked_add(digit as usize) {
            Some(value) => Ok(value),
            None => Err(Error::new(ErrorKind::InvalidData, "chunk size overflows usize")),
        },
        None => Err(Error::new(ErrorKind::InvalidData, "chunk size overflows usize")),
    }
}

fn hex_digit_value(b: u8) -> (r: Option<u8>)
    ensures
        match r {
            Some(d) => hex_value(b) == Some(d as nat),
            None => hex_value(b) is None,
        },
{
    if 0x30 <= b && b <= 0x39 {
        Some(b - 0x30)
    } else if 0x61 <= b && b <= 0x66 {
        Some(b - 0x61 + 10)
    } else if 0x41 <= b && b <= 0x46 {
        Some(b - 0x41 + 10)
    } else {
        None
    }
}

fn scan_cut_off(closed: bool, error: Error, used: usize) -> (r: Scan)
    ensures
        r@ == cut_off(closed, error@, used as nat),
{
    if closed {
        Scan::Failed { error, used }
    } else {
        Scan::Starved
    }
}

/// Chunked chunks start with 1*HEXDIGIT, indicating the size of the chunk.
fn scan_chunk_size(bytes: &[u8], closed: bool) -> (r: Scan)
    ensures
        r@ == chunk_size(bytes@, closed),
{
    let mut size: usize = 0;
    let mut saw_digit = false;
    let mut phase = LinePhase::Size;
    let mut at: usize = 0;
    loop
        invariant
            at <= bytes@.len(),
            at <= MAX_CHUNK_LINE_BYTES,
            chunk_size(bytes@, closed) == chunk_line(
                bytes@,
                closed,
                (LineState { size: size as nat, saw_digit, phase }),
                at as nat,
            ),
        decreases MAX_CHUNK_LINE_BYTES - at,
    {
        let ghost state = LineState { size: size as nat, saw_digit, phase };
        if at >= MAX_CHUNK_LINE_BYTES {
            let error = Error::new(
                ErrorKind::InvalidData,
                "chunk-size line exceeds configured limit",
            );
            return Scan::Failed { error, used: at };
        }
        if at >= bytes.len() {
            let error = Error::new(ErrorKind::InvalidInput, "Invalid chunk size line, read byte");
            return scan_cut_off(closed, error, at);
        }
        let b = bytes[at];
        if phase == LinePhase::Size {
            if let Some(digit) = hex_digit_value(b) {
                match checked_hex_digit(size, digit) {
                    Ok(value) => {
                        size = value;
                        saw_digit = true;
                        at += 1;
                        continue;
                    },
                    Err(error) => {
                        return Scan::Failed { error, used: at + 1 };
                    },
                }
            }
        }
        if b == 0x0d && saw_digit {
            if at + 1 >= bytes.len() {
                let error = Error::new(
                    ErrorKind::InvalidInput,
                    "Invalid chunk size line, read byte",
                );
                return scan_cut_off(closed, error, at + 1);
            }
            if bytes[at + 1] == 0x0a {
                return Scan::Done { value: size, used: at + 2 };
            }
            let error = Error::new(
                ErrorKind::InvalidInput,
                "Invalid chunk size line, read new line",
            );
            return Scan::Failed { error, used: at + 2 };
        }
        if phase == LinePhase::Extension {
        } else if b == 0x3b {
            phase = LinePhase::Extension;
        } else if b == 0x09 || b == 0x20 {
            phase = LinePhase::Blank;
        } else {
            let error = Error::new(
                ErrorKind::InvalidInput,
                "Invalid chunk size line, unknown byte",
            );
            return Scan::Failed { error, used: at + 1 };
        }
        at += 1;
    }
}

fn scan_expected(bytes: &[u8], closed: bool, expected: &[u8]) -> (r: Scan)
    ensures
        r@ == expected_bytes(bytes@, closed, expected@, 0),
{
    let mut at: usize = 0;
    while at < expected.len()
        invariant
            at <= expected@.len(),
            at <= bytes@.len(),
            expected_bytes(bytes@, closed, expected@, 0) == expected_bytes(
                bytes@,
                closed,
                expected@,
                at as nat,
            ),
        decreases expected@.len() - at,
    {
        if at >= bytes.len() {
            let error = Error::new(ErrorKind::InvalidInput, "Invalid characters found");
            return scan_cut_off(closed, error, at);
        }
        if bytes[at] != expected[at] {
            let error = Error::new(ErrorKind::InvalidInput, "Invalid characters found");
            return Scan::Failed { error, used: at + 1 };
        }
        at += 1;
    }
    Scan::Done { value: 0, used: expected.len() }
}

fn has_colon(bytes: &[u8], from: usize, to: usize) -> (r: bool)
    requires
        from <= to <= bytes@.len(),
    ensures
        r == bytes@.subrange(from as int, to as int).contains(0x3a),
{
    let mut i: usize = from;
    while i < to
        invariant
            from <= i <= to <= bytes@.len(),
            forall|j: int| from <= j < i ==> bytes@[j] != 0x3a,
        decreases to - i,
    {
        if bytes[i] == 0x3a {
            proof {
                assert(bytes@.subrange(from as int, to as int)[i - from] == 0x3a);
            }
            return true;
        }
        i += 1;
    }
    false
}

fn scan_trailers(bytes: &[u8], closed: bool) -> (r: Scan)
    ensures
        r@ == trailer_section(bytes@, closed, 0, 0),
{
    let mut start: usize = 0;
    let mut at: usize = 0;
    loop
        invariant
            start <= at <= bytes@.len(),
            at <= MAX_TRAILER_BYTES,
            trailer_section(bytes@, closed, 0, 0) == trailer_section(
                bytes@,
                closed,
                start as nat,
                at as nat,
            ),
        decreases MAX_TRAILER_BYTES - at,
    {
        if at >= bytes.len() {
            let error = Error::new(
                ErrorKind::UnexpectedEof,
                "connection closed inside chunk trailers",
            );
            return scan_cut_off(closed, error, at);
        }
        if at >= MAX_TRAILER_BYTES {
            let error = Error::new(
                ErrorKind::InvalidData,
                "chunk trailers exceed configured limit",
            );
            return Scan::Failed { error, used: at + 1 };
        }
        if start < at && bytes[at - 1] == 0x0d && bytes[at] == 0x0a {
            if at == start + 1 {
                return Scan::Done { value: 0, used: at + 1 };
            }
            if !has_colon(bytes, start, at - 1) {
                let error = Error::new(ErrorKind::InvalidData, "malformed chunk trailer field");
                return Scan::Failed { error, used: at + 1 };
            }
            at += 1;
            start = at;
        } else {
            at += 1;
        }
    }
}

/// What taking a scanned element from a stream does: its bytes leave the received input, and a
/// starved scan leaves everything as it was.
pub open spec fn taken(
    scan: ScanView,
    before: SharedStream,
    after: SharedStream,
    r: Result<usize, Error>,
) -> bool {
    &&& after.response_pending == before.response_pending
    &&& match scan {
        ScanView::Done { value, used } => {
            &&& r is Ok
            &&& r->Ok_0 == value
            &&& after.buffer@ == (BufferView {
                input: before.buffer@.input.skip(used as int),
                ..before.buffer@
            })
        },
        ScanView::Failed { error, used } => {
            &&& r is Err
            &&& r->Err_0@ == error
            &&& after.buffer@ == (BufferView {
                input: before.buffer@.input.skip(used as int),
                ..before.buffer@
            })
        },
        ScanView::Starved => r is Err && r->Err_0@ == starved() && after.buffer@ == before.buffer@,
    }
}

fn take_scanned(stream: &mut SharedStream, scan: Scan) -> (r: Result<usize, Error>)
    requires
        scan matches Scan::Done { used, .. } ==> used <= old(stream).buffer@.input.len(),
        scan matches Scan::Failed { used, .. } ==> used <= old(stream).buffer@.input.len(),
    ensures
        taken(scan@, *old(stream), *final(stream), r),
{
    match scan {
        Scan::Done { value, used } => {
            stream.buffer.consume(used);
            Ok(value)
        },
        Scan::Failed { error, used } => {
            stream.buffer.consume(used);
            Err(error)
        },
        Scan::Starved => Err(starved_error()),
    }
}

/// Take exactly the given bytes from a stream.
pub fn eat(rdr: &mut SharedStream, bytes: &[u8]) -> (r: Result<(), Error>)
    ensures
        taken(
            expected_bytes(old(rdr).buffer@.input, old(rdr).buffer@.closed, bytes@, 0),
            *old(rdr),
            *final(rdr),
            match r {
                Ok(_) => Ok(0),
                Err(e) => Err(e),
            },
        ),
{
    proof {
        lemma_expected_bounds(rdr.buffer@.input, rdr.buffer@.closed, bytes@, 0);
        lemma_expected_value(rdr.buffer@.input, rdr.buffer@.closed, bytes@, 0);
    }
    let scan = scan_expected(rdr.buffer.get_reader_buf(), rdr.buffer.is_closed(), bytes);
    match take_scanned(rdr, scan) {
        Ok(_) => Ok(()),
        Err(e) => Err(e),
    }
}

proof fn lemma_expected_value(s: Seq<u8>, closed: bool, expected: Seq<u8>, at: nat)
    ensures
        expected_bytes(s, closed, expected, at) matches ScanView::Done { value, .. } ==> value == 0,
    decreases expected.len() - at,
{
    if at < expected.len() && at < s.len() && s[at as int] == expected[at as int] {
        lemma_expected_value(s, closed, expected, at + 1);
    }
}

proof fn lemma_trailer_value(s: Seq<u8>, closed: bool, start: nat, at: nat)
    ensures
        trailer_section(s, closed, start, at) matches ScanView::Done { value, .. } ==> value == 0,
    decreases MAX_TRAILER_BYTES - at,
{
    if at < s.len() && at < MAX_TRAILER_BYTES {
        if start < at && s[at - 1] == 0x0d && s[at as int] == 0x0a {
            if at != start + 1 && s.subrange(start as int, at - 1).contains(0x3a) {
                lemma_trailer_value(s, closed, at + 1, at + 1);
            }
        } else {
            lemma_trailer_value(s, closed, start, at + 1);
        }
    }
}

/// Take a chunk-size line from a stream.
pub fn read_chunk_size(rdr: &mut SharedStream) -> (r: Result<usize, Error>)
    ensures
        taken(
            chunk_size(old(rdr).buffer@.input, old(rdr).buffer@.closed),
            *old(rdr),
            *final(rdr),
            r,
        ),
{
    proof {
        lemma_chunk_line_bounds(rdr.buffer@.input, rdr.buffer@.closed, line_start(), 0);
    }
    let scan = scan_chunk_size(rdr.buffer.get_reader_buf(), rdr.buffer.is_closed());
    take_scanned(rdr, scan)
}

/// Take a trailer section from a stream.
pub fn consume_trailers(reader: &mut SharedStream) -> (r: Result<(), Error>)
    ensures
        taken(
            trailer_section(old(reader).buffer@.input, old(reader).buffer@.closed, 0, 0),
            *old(reader),
            *final(reader),
            match r {
                Ok(_) => Ok(0),
                Err(e) => Err(e),
            },
        ),
{
    proof {
        lemma_trailer_bounds(reader.buffer@.input, reader.buffer@.closed, 0, 0);
        lemma_trailer_value(reader.buffer@.input, reader.buffer@.closed, 0, 0);
    }
    let scan = scan_trailers(reader.buffer.get_reader_buf(), reader.buffer.is_closed());
    match take_scanned(reader, scan) {
        Ok(_) => Ok(()),
        Err(e) => Err(e),
    }
}

fn least_of(a: usize, b: usize) -> (r: usize)
    ensures
        r == least(a as nat, b as nat),
{
    if a <= b {
        a
    } else {
        b
    }
}

/// A read as it was worked out on the received bytes.
struct Step {
    result: Result<Vec<u8>, Error>,
    next: BodyReader,
    used: usize,
    complete: bool,
}

impl View for Step {
    type V = ReadView;

    closed spec fn view(&self) -> ReadView {
        ReadView {
            result: match self.result {
                Ok(bytes) => Ok(bytes@),
                Err(e) => Err(e@),
            },
            next: self.next,
            used: self.used as nat,
            complete: self.complete,
        }
    }
}

fn step_starved(reader: BodyReader) -> (r: Step)
    ensures
        r@ == read_starved(reader),
{
    Step { result: Err(starved_error()), next: reader, used: 0, complete: false }
}

fn step_chunk_data(
    reader: BodyReader,
    rem: usize,
    line: usize,
    input: &[u8],
    closed: bool,
    max: usize,
) -> (r: Step)
    requires
        line <= input@.len(),
    ensures
        r@ == chunk_data(reader, rem as nat, line as nat, input@, closed, max as nat),
{
    let data = vstd::slice::slice_subrange(input, line, input.len());
    proof {
        assert(data@ =~= input@.skip(line as int));
    }
    let count: usize = least_of(least_of(rem, max), data.len());
    if data.len() == 0 && !closed {
        return step_starved(reader);
    }
    if count == 0 {
        return Step {
            result: Err(Error::new(ErrorKind::Other, "early eof")),
            next: BodyReader::ChunkReader(Some(0)),
            used: line,
            complete: false,
        };
    }
    let bytes = copy_bytes(vstd::slice::slice_subrange(data, 0, count));
    proof {
        assert(bytes@ =~= data@.take(count as int));
    }
    if count < rem {
        return Step {
            result: Ok(bytes),
            next: BodyReader::ChunkReader(Some(rem - count)),
            used: line + count,
            complete: false,
        };
    }
    let after = vstd::slice::slice_subrange(data, count, data.len());
    let crlf: [u8; 2] = [0x0d, 0x0a];
    proof {
        assert(after@ =~= data@.skip(count as int));
        assert(crlf@ =~= seq![0x0du8, 0x0au8]);
        lemma_expected_bounds(after@, closed, crlf@, 0);
    }
    match scan_expected(after, closed, &crlf) {
        Scan::Starved => step_starved(reader),
        Scan::Failed { error, used } => Step {
            result: Err(error),
            next: reader,
            used: line + count + used,
            complete: false,
        },
        Scan::Done { value: _, used } => Step {
            result: Ok(bytes),
            next: BodyReader::ChunkReader(None),
            used: line + count + used,
            complete: false,
        },
    }
}

fn step_chunk_start(input: &[u8], closed: bool, max: usize) -> (r: Step)
    ensures
        r@ == body_read(BodyReader::ChunkReader(None), input@, closed, max as nat),
{
    let reader = BodyReader::ChunkReader(None);
    proof {
        lemma_chunk_line_bounds(input@, closed, line_start(), 0);
    }
    match scan_chunk_size(input, closed) {
        Scan::Starved => step_starved(reader),
        Scan::Failed { error, used } => Step {
            result: Err(error),
            next: reader,
            used,
            complete: false,
        },
        Scan::Done { value, used } => {
            if value > 0 {
                return step_chunk_data(reader, value, used, input, closed, max);
            }
            let rest = vstd::slice::slice_subrange(input, used, input.len());
            proof {
                assert(rest@ =~= input@.skip(used as int));
                lemma_trailer_bounds(rest@, closed, 0, 0);
            }
            match scan_trailers(rest, closed) {
                Scan::Starved => step_starved(reader),
                Scan::Failed { error, used: more } => Step {
                    result: Err(error),
                    next: reader,
                    used: used + more,
                    complete: false,
                },
                Scan::Done { value: _, used: more } => {
                    let step = Step {
                        result: Ok(Vec::new()),
                        next: BodyReader::ChunkReader(Some(0)),
                        used: used + more,
                        complete: true,
                    };
                    proof {
                        assert(step.result->Ok_0@ =~= Seq::<u8>::empty());
                    }
                    step
                },
            }
        },
    }
}

fn step_sized(remain: usize, input: &[u8], closed: bool, max: usize) -> (r: Step)
    ensures
        r@ == body_read(BodyReader::SizedReader(remain), input@, closed, max as nat),
{
    let reader = BodyReader::SizedReader(remain);
    let len: usize = least_of(remain, max);
    if len == 0 {
        return step_nothing(reader);
    }
    if input.len() == 0 {
        if !closed {
            return step_starved(reader);
        }
        return Step {
            result: Err(
                Error::new(
                    ErrorKind::UnexpectedEof,
                    "connection closed before Content-Length bytes were received",
                ),
            ),
            next: reader,
            used: 0,
            complete: false,
        };
    }
    let n: usize = least_of(len, input.len());
    let bytes = copy_bytes(vstd::slice::slice_subrange(input, 0, n));
    proof {
        assert(bytes@ =~= input@.take(n as int));
    }
    Step {
        result: Ok(bytes),
        next: BodyReader::SizedReader(remain - n),
        used: n,
        complete: n == remain,
    }
}

fn step_to_end(input: &[u8], closed: bool, max: usize) -> (r: Step)
    ensures
        r@ == body_read(BodyReader::EofReader(true), input@, closed, max as nat),
{
    let reader = BodyReader::EofReader(true);
    if input.len() == 0 && !closed {
        return step_starved(reader);
    }
    let n: usize = least_of(max, input.len());
    let bytes = copy_bytes(vstd::slice::slice_subrange(input, 0, n));
    proof {
        assert(bytes@ =~= input@.take(n as int));
    }
    let ended = input.len() == 0 && max > 0;
    Step { result: Ok(bytes), next: BodyReader::EofReader(!ended), used: n, complete: ended }
}

fn step_nothing(reader: BodyReader) -> (r: Step)
    ensures
        r@ == read_nothing(reader),
{
    let step = Step { result: Ok(Vec::new()), next: reader, used: 0, complete: false };
    proof {
        assert(step.result->Ok_0@ =~= Seq::<u8>::empty());
    }
    step
}

impl BodyReader {
    /// Read at most `max` bytes of the body. No bytes mean the end of the body.
    ///
    /// While the framing needs bytes that have not arrived, the read is reported as
    /// [`ErrorKind::WouldBlock`] and neither the reader nor the stream has changed.
    pub fn read(&mut self, stream: &mut SharedStream, max: usize) -> (r: Result<Vec<u8>, Error>)
        ensures
            ({
                let before = old(stream).buffer@;
                let step = body_read(*old(self), before.input, before.closed, max as nat);
                &&& *final(self) == step.next
                &&& final(stream).buffer@ == (BufferView {
                    input: before.input.skip(step.used as int),
                    ..before
                })
                &&& final(stream).response_pending == (old(stream).response_pending
                    && !step.complete)
                &&& match r {
                    Ok(bytes) => step.result == Ok::<Seq<u8>, ErrorView>(bytes@),
                    Err(e) => step.result == Err::<Seq<u8>, ErrorView>(e@),
                }
            }),
            old(stream).wf() ==> final(stream).wf(),
    {
        proof {
            lemma_read_bounds(*self, stream.buffer@.input, stream.buffer@.closed, max as nat);
        }
        let input = stream.buffer.get_reader_buf();
        let closed = stream.buffer.is_closed();
        let step = match *self {
            BodyReader::SizedReader(remain) => step_sized(remain, input, closed, max),
            BodyReader::ChunkReader(Some(rem)) => if rem == 0 {
                step_nothing(*self)
            } else {
                proof {
                    assert(input@.skip(0) =~= input@);
                }
                step_chunk_data(*self, rem, 0, input, closed, max)
            },
            BodyReader::ChunkReader(None) => step_chunk_start(input, closed, max),
            BodyReader::EofReader(open) => if open {
                step_to_end(input, closed, max)
            } else {
                step_nothing(*self)
            },
            BodyReader::EmptyReader => step_nothing(*self),
        };
        *self = step.next;
        stream.buffer.consume(step.used);
        if step.complete {
            stream.mark_response_complete();
        }
        step.result
    }

    /// Whether the framing boundary of the body was reached, or the body was given up.
    pub open spec fn complete(self) -> bool {
        match self {
            BodyReader::SizedReader(remaining) => remaining == 0,
            BodyReader::ChunkReader(remaining) => remaining == Some(0usize),
            BodyReader::EofReader(open) => !open,
            BodyReader::EmptyReader => true,
        }
    }

    pub fn is_complete(&self) -> (r: bool)
        ensures
            r == self.complete(),
    {
        match *self {
            BodyReader::SizedReader(remaining) => remaining == 0,
            BodyReader::ChunkReader(Some(remaining)) => remaining == 0,
            BodyReader::ChunkReader(None) => false,
            BodyReader::EofReader(open) => !open,
            BodyReader::EmptyReader => true,
        }
    }

    /// The reader after its body was given up.
    pub open spec fn given_up(self) -> BodyReader {
        match self {
            BodyReader::SizedReader(_) => BodyReader::SizedReader(0),
            BodyReader::ChunkReader(_) => BodyReader::ChunkReader(Some(0)),
            BodyReader::EofReader(_) => BodyReader::EofReader(false),
            BodyReader::EmptyReader => BodyReader::EmptyReader,
        }
    }

    /// Give the body up: nothing more will be read.
    pub fn abandon(&mut self)
        ensures
            *final(self) == old(self).given_up(),
            final(self).complete(),
    {
        *self =
        match *self {
            BodyReader::SizedReader(_) => BodyReader::SizedReader(0),
            BodyReader::ChunkReader(_) => BodyReader::ChunkReader(Some(0)),
            BodyReader::EofReader(_) => BodyReader::EofReader(false),
            BodyReader::EmptyReader => BodyReader::EmptyReader,
        };
    }
}

} // verus!

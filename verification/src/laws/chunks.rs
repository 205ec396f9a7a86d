//! Bodies as peers may send them.

use vstd::prelude::*;

use crate::body::body_reader::{
    body_read, chunk_line, chunk_size, line_start, line_step, trailer_section, BodyReader,
    LinePhase, LineState, ReadView, ScanView, MAX_CHUNK_LINE_BYTES, MAX_TRAILER_BYTES,
};
use crate::body::framing::{drained, Drained};
use crate::buffer::starved;
use crate::error::ErrorKind;

verus! {

/// A hexadecimal digit in either letter case.
pub open spec fn hex_digit(b: u8) -> bool {
    ||| '0' as u8 <= b && b <= '9' as u8
    ||| 'a' as u8 <= b && b <= 'f' as u8
    ||| 'A' as u8 <= b && b <= 'F' as u8
}

/// The value of a hexadecimal digit.
pub open spec fn hex_digit_value(b: u8) -> nat {
    if b <= '9' as u8 {
        (b - '0' as u8) as nat
    } else if b <= 'F' as u8 {
        (10 + b - 'A' as u8) as nat
    } else {
        (10 + b - 'a' as u8) as nat
    }
}

/// The number that hexadecimal digits write.
pub open spec fn hex_number(digits: Seq<u8>) -> nat
    decreases digits.len(),
{
    if digits.len() == 0 {
        0
    } else {
        hex_number(digits.drop_last()) * 16 + hex_digit_value(digits.last())
    }
}

/// Spaces and tabs only.
pub open spec fn blanks(s: Seq<u8>) -> bool {
    forall|i: int| 0 <= i < s.len() ==> #[trigger] s[i] == ' ' as u8 || s[i] == '\t' as u8
}

/// Nothing, or a semicolon and whatever follows it on the line.
pub open spec fn extension(s: Seq<u8>) -> bool {
    s.len() > 0 ==> s[0] == ';' as u8 && forall|i: int|
        0 <= i < s.len() ==> #[trigger] s[i] != '\r' as u8
}

proof fn lemma_number_grows(digits: Seq<u8>, n: int)
    requires
        0 <= n <= digits.len(),
    ensures
        hex_number(digits.take(n)) <= hex_number(digits),
    decreases digits.len() - n,
{
    if n == digits.len() {
        assert(digits.take(n) =~= digits);
    } else {
        lemma_number_grows(digits, n + 1);
        assert(digits.take(n + 1).drop_last() =~= digits.take(n));
    }
}

proof fn lemma_digits_scanned(
    digits: Seq<u8>,
    behind: Seq<u8>,
    closed: bool,
    n: int,
)
    requires
        0 < digits.len(),
        0 <= n <= digits.len(),
        digits.len() < MAX_CHUNK_LINE_BYTES,
        hex_number(digits) <= usize::MAX,
        forall|i: int| 0 <= i < digits.len() ==> hex_digit(#[trigger] digits[i]),
    ensures
        chunk_line(
            digits + behind,
            closed,
            (LineState {
                size: hex_number(digits.take(n)),
                saw_digit: n > 0,
                phase: LinePhase::Size,
            }),
            n as nat,
        ) == chunk_line(
            digits + behind,
            closed,
            (LineState { size: hex_number(digits), saw_digit: true, phase: LinePhase::Size }),
            digits.len(),
        ),
    decreases digits.len() - n,
{
    if n == digits.len() {
        assert(digits.take(n) =~= digits);
    } else {
        let s = digits + behind;
        assert(s[n] == digits[n]);
        assert(hex_digit(digits[n]));
        assert(digits.take(n + 1).drop_last() =~= digits.take(n));
        assert(digits.take(n + 1).last() == digits[n]);
        lemma_number_grows(digits, n + 1);
        lemma_digits_scanned(digits, behind, closed, n + 1);
        let state = LineState {
            size: hex_number(digits.take(n)),
            saw_digit: n > 0,
            phase: LinePhase::Size,
        };
        assert(line_step(state, s[n]) == Ok::<Option<LineState>, crate::error::ErrorView>(
            Some(
                LineState {
                    size: hex_number(digits.take(n + 1)),
                    saw_digit: true,
                    phase: LinePhase::Size,
                },
            ),
        ));
    }
}

proof fn lemma_rest_scanned(
    s: Seq<u8>,
    closed: bool,
    state: LineState,
    at: int,
    semicolon: int,
    end: int,
)
    requires
        state.saw_digit,
        0 <= at <= end,
        end + 2 <= s.len(),
        end < MAX_CHUNK_LINE_BYTES,
        at <= semicolon <= end || state.phase == LinePhase::Extension,
        forall|i: int|
            at <= i < end && i < semicolon ==> #[trigger] s[i] == ' ' as u8 || s[i] == '\t' as u8,
        semicolon < end && at <= semicolon ==> s[semicolon] == ';' as u8,
        forall|i: int| at <= i < end ==> #[trigger] s[i] != '\r' as u8,
        s[end] == '\r' as u8,
        s[end + 1] == '\n' as u8,
    ensures
        chunk_line(s, closed, state, at as nat) == (ScanView::Done {
            value: state.size,
            used: (end + 2) as nat,
        }),
    decreases end - at,
{
    if at < end {
        if state.phase == LinePhase::Extension {
            assert(line_step(state, s[at]) == Ok::<Option<LineState>, crate::error::ErrorView>(
                Some(state),
            ));
            lemma_rest_scanned(s, closed, state, at + 1, semicolon, end);
        } else if at < semicolon {
            let next = LineState { phase: LinePhase::Blank, ..state };
            assert(s[at] == ' ' as u8 || s[at] == '\t' as u8);
            lemma_rest_scanned(s, closed, next, at + 1, semicolon, end);
        } else {
            let next = LineState { phase: LinePhase::Extension, ..state };
            lemma_rest_scanned(s, closed, next, at + 1, semicolon, end);
        }
    }
}

/// A chunk-size line gives the number that its hexadecimal digits write, in whatever letter case,
/// whatever spaces and tabs follow them and whatever extension follows those, and ends behind its
/// line end.
pub proof fn lemma_chunk_size_lines(
    digits: Seq<u8>,
    spaces: Seq<u8>,
    ext: Seq<u8>,
    rest: Seq<u8>,
    closed: bool,
)
    requires
        digits.len() > 0,
        forall|i: int| 0 <= i < digits.len() ==> hex_digit(#[trigger] digits[i]),
        hex_number(digits) <= usize::MAX,
        blanks(spaces),
        extension(ext),
        digits.len() + spaces.len() + ext.len() < 8192,
    ensures
        chunk_size(
            digits + (spaces + ext + seq!['\r' as u8, '\n' as u8] + rest),
            closed,
        ) == (ScanView::Done {
            value: hex_number(digits),
            used: digits.len() + spaces.len() + ext.len() + 2,
        }),
{
    let behind = spaces + ext + seq!['\r' as u8, '\n' as u8] + rest;
    let s = digits + behind;
    lemma_digits_scanned(digits, behind, closed, 0);
    assert(digits.take(0) =~= Seq::<u8>::empty());
    assert(line_start() == (LineState {
        size: hex_number(digits.take(0)),
        saw_digit: false,
        phase: LinePhase::Size,
    }));
    let state = LineState { size: hex_number(digits), saw_digit: true, phase: LinePhase::Size };
    let at = digits.len() as int;
    let semicolon = at + spaces.len();
    let end = semicolon + ext.len();
    assert forall|i: int| at <= i < end implies #[trigger] s[i] != '\r' as u8 by {
        if i < semicolon {
            assert(s[i] == spaces[i - at]);
        } else {
            assert(s[i] == ext[i - semicolon]);
        }
    }
    assert forall|i: int| at <= i < end && i < semicolon implies #[trigger] s[i] == ' ' as u8
        || s[i] == '\t' as u8 by {
        assert(s[i] == spaces[i - at]);
    }
    lemma_rest_scanned(s, closed, state, at, semicolon, end);
}

/// A chunk-size line does not start with anything but a digit, a space, a tab or a semicolon.
pub proof fn lemma_strange_size_lines_are_refused(s: Seq<u8>, closed: bool)
    requires
        s.len() > 0,
        !hex_digit(s[0]),
        s[0] != ' ' as u8 && s[0] != '\t' as u8 && s[0] != ';' as u8,
    ensures
        chunk_size(s, closed) matches ScanView::Failed { error, used } && used == 1 && error.kind
            == ErrorKind::InvalidInput,
        body_read(BodyReader::ChunkReader(None), s, closed, 1).result is Err,
{
}

/// A chunk whose size does not fit is refused, never read as a smaller one.
pub proof fn lemma_oversized_chunks_are_refused(digits: Seq<u8>, behind: Seq<u8>, closed: bool)
    requires
        0 < digits.len() < 8192,
        forall|i: int| 0 <= i < digits.len() ==> hex_digit(#[trigger] digits[i]),
        hex_number(digits) > usize::MAX,
    ensures
        chunk_size(digits + behind, closed) matches ScanView::Failed { error, used } && error.kind
            == ErrorKind::InvalidData,
{
    let n = lemma_first_overflow(digits, digits.len() as int);
    let fits = digits.take(n - 1);
    let s = digits + behind;
    let tail = digits.skip(n - 1) + behind;
    assert(digits.take(n).drop_last() =~= fits);
    assert(digits.take(n).last() == digits[n - 1]);
    if n - 1 > 0 {
        assert forall|i: int| 0 <= i < fits.len() implies hex_digit(#[trigger] fits[i]) by {
            assert(fits[i] == digits[i]);
        }
        lemma_digits_scanned(fits, tail, closed, 0);
        assert(fits + tail =~= s);
        assert(fits.take(0) =~= Seq::<u8>::empty());
    } else {
        assert(fits =~= Seq::<u8>::empty());
    }
    assert(s[n - 1] == digits[n - 1]);
    assert(hex_digit(digits[n - 1]));
}

proof fn lemma_first_overflow(digits: Seq<u8>, upto: int) -> (n: int)
    requires
        0 < upto <= digits.len(),
        hex_number(digits.take(upto)) > usize::MAX || upto == digits.len(),
        hex_number(digits) > usize::MAX,
    ensures
        0 < n <= digits.len(),
        hex_number(digits.take(n)) > usize::MAX,
        hex_number(digits.take(n - 1)) <= usize::MAX,
    decreases upto,
{
    assert(digits.take(digits.len() as int) =~= digits);
    if hex_number(digits.take(upto - 1)) <= usize::MAX {
        upto
    } else if upto == 1 {
        assert(digits.take(0) =~= Seq::<u8>::empty());
        upto
    } else {
        lemma_first_overflow(digits, upto - 1)
    }
}

/// Lines, each with its line end.
pub open spec fn with_line_ends(lines: Seq<Seq<u8>>) -> Seq<u8>
    decreases lines.len(),
{
    if lines.len() == 0 {
        Seq::empty()
    } else {
        lines[0] + seq!['\r' as u8, '\n' as u8] + with_line_ends(lines.drop_first())
    }
}

/// A field line of a trailer section: it holds a colon and no carriage return.
pub open spec fn field_line(line: Seq<u8>) -> bool {
    line.contains(':' as u8) && !line.contains('\r' as u8)
}

proof fn lemma_line_walked(s: Seq<u8>, closed: bool, start: int, at: int, end: int)
    requires
        0 <= start <= at <= end,
        end + 2 <= s.len(),
        end + 2 <= MAX_TRAILER_BYTES,
        forall|i: int| start <= i < end ==> #[trigger] s[i] != '\r' as u8,
    ensures
        trailer_section(s, closed, start as nat, at as nat) == trailer_section(
            s,
            closed,
            start as nat,
            (end + 1) as nat,
        ) || at > end,
    decreases end - at,
{
    if at < end {
        lemma_line_walked(s, closed, start, at + 1, end);
        if start < at {
            assert(s[at - 1] != '\r' as u8);
        }
    } else {
        if start < at {
            assert(s[at - 1] != '\r' as u8);
        }
    }
}

proof fn lemma_trailers_scanned(before: Seq<u8>, lines: Seq<Seq<u8>>, rest: Seq<u8>, closed: bool)
    requires
        forall|i: int| 0 <= i < lines.len() ==> field_line(#[trigger] lines[i]),
        before.len() + with_line_ends(lines).len() + 2 <= MAX_TRAILER_BYTES,
    ensures
        trailer_section(
            before + with_line_ends(lines) + seq!['\r' as u8, '\n' as u8] + rest,
            closed,
            before.len(),
            before.len(),
        ) == (ScanView::Done {
            value: 0,
            used: before.len() + with_line_ends(lines).len() + 2,
        }),
    decreases lines.len(),
{
    let eol = seq!['\r' as u8, '\n' as u8];
    let s = before + with_line_ends(lines) + eol + rest;
    let start = before.len() as int;
    if lines.len() == 0 {
        lemma_line_walked(s, closed, start, start, start);
        assert(s[start] == '\r' as u8);
        assert(s[start + 1] == '\n' as u8);
    } else {
        let line = lines[0];
        let more = lines.drop_first();
        assert(field_line(lines[0]));
        assert forall|i: int| 0 <= i < more.len() implies field_line(#[trigger] more[i]) by {
            assert(more[i] == lines[i + 1]);
        }
        let end = start + line.len();
        let after = before + line + eol;
        lemma_trailers_scanned(after, more, rest, closed);
        assert(after + with_line_ends(more) + eol + rest =~= s);
        assert forall|i: int| start <= i < end implies #[trigger] s[i] != '\r' as u8 by {
            assert(s[i] == line[i - start]);
            assert(line.contains(line[i - start]));
        }
        lemma_line_walked(s, closed, start, start, end);
        assert(s[end] == '\r' as u8);
        assert(s[end + 1] == '\n' as u8);
        assert(s.subrange(start, end) =~= line);
        assert(line.len() > 0) by {
            let i = choose|i: int| 0 <= i < line.len() && line[i] == ':' as u8;
            assert(0 <= i < line.len());
        }
        assert(trailer_section(s, closed, start as nat, (end + 1) as nat) == trailer_section(
            s,
            closed,
            (end + 2) as nat,
            (end + 2) as nat,
        ));
    }
}

/// The end of a chunked body: behind the chunk of size zero, however that is written, a trailer
/// section of up to 16384 bytes is skipped whole, the body is complete, and what follows stays
/// unread.
pub proof fn lemma_trailers_are_skipped(
    zeros: Seq<u8>,
    spaces: Seq<u8>,
    ext: Seq<u8>,
    lines: Seq<Seq<u8>>,
    rest: Seq<u8>,
    closed: bool,
    max: nat,
)
    requires
        zeros.len() > 0,
        forall|i: int| 0 <= i < zeros.len() ==> #[trigger] zeros[i] == '0' as u8,
        blanks(spaces),
        extension(ext),
        zeros.len() + spaces.len() + ext.len() < 8192,
        forall|i: int| 0 <= i < lines.len() ==> field_line(#[trigger] lines[i]),
        with_line_ends(lines).len() + 2 <= 16384,
    ensures
        ({
            let eol = seq!['\r' as u8, '\n' as u8];
            let end = zeros + (spaces + ext + eol + (with_line_ends(lines) + eol + rest));
            let step = body_read(BodyReader::ChunkReader(None), end, closed, max);
            &&& step.result matches Ok(bytes) && bytes.len() == 0
            &&& step.next == BodyReader::ChunkReader(Some(0))
            &&& step.complete
            &&& end.skip(step.used as int) == rest
        }),
{
    let eol = seq!['\r' as u8, '\n' as u8];
    let section = with_line_ends(lines) + eol + rest;
    let end = zeros + (spaces + ext + eol + section);
    lemma_zeros(zeros);
    lemma_chunk_size_lines(zeros, spaces, ext, section, closed);
    let line = zeros.len() + spaces.len() + ext.len() + 2;
    assert(end.skip(line as int) =~= section);
    let none = Seq::<u8>::empty();
    lemma_trailers_scanned(none, lines, rest, closed);
    assert(none + with_line_ends(lines) + eol + rest =~= section);
    let used = line + with_line_ends(lines).len() + 2;
    assert(end.skip(used as int) =~= rest);
}

/// A trailer line without a colon refuses the body.
pub proof fn lemma_strange_trailers_are_refused(
    line: Seq<u8>,
    rest: Seq<u8>,
    closed: bool,
    max: nat,
)
    requires
        line.len() > 0,
        !line.contains(':' as u8),
        !line.contains('\r' as u8),
        line.len() + 2 <= 16384,
    ensures
        ({
            let eol = seq!['\r' as u8, '\n' as u8];
            let end = seq!['0' as u8] + (eol + (line + eol + rest));
            let step = body_read(BodyReader::ChunkReader(None), end, closed, max);
            step.result is Err && step.result->Err_0.kind == ErrorKind::InvalidData
        }),
{
    let eol = seq!['\r' as u8, '\n' as u8];
    let section = line + eol + rest;
    let zero = seq!['0' as u8];
    let none = Seq::<u8>::empty();
    let end = zero + (eol + section);
    lemma_zeros(zero);
    lemma_chunk_size_lines(zero, none, none, section, closed);
    assert(zero + (none + none + eol + section) =~= end);
    assert(end.skip(3) =~= section);
    let n = line.len() as int;
    assert forall|i: int| 0 <= i < n implies #[trigger] section[i] != '\r' as u8 by {
        assert(section[i] == line[i]);
        assert(line.contains(line[i]));
    }
    lemma_line_walked(section, closed, 0, 0, n);
    assert(section[n] == '\r' as u8);
    assert(section[n + 1] == '\n' as u8);
    assert(section.subrange(0, n) =~= line);
}

/// A chunk-size line that has not ended within 8192 bytes is refused.
pub proof fn lemma_long_size_lines_are_refused(digit: u8, ext: Seq<u8>, rest: Seq<u8>, closed: bool)
    requires
        hex_digit(digit),
        ext.len() >= 8191,
        ext[0] == ';' as u8,
        forall|i: int| 0 <= i < ext.len() ==> #[trigger] ext[i] != '\r' as u8,
    ensures
        chunk_size(seq![digit] + ext + rest, closed) matches ScanView::Failed { error, used }
            && error.kind == ErrorKind::InvalidData,
{
    let s = seq![digit] + ext + rest;
    let digits = seq![digit];
    assert(digits.drop_last() =~= Seq::<u8>::empty());
    assert(hex_number(digits.drop_last()) == 0);
    assert(hex_number(digits) <= 15);
    let behind = ext + rest;
    assert(digits + behind =~= s);
    lemma_digits_scanned(digits, behind, closed, 0);
    assert(digits.take(0) =~= Seq::<u8>::empty());
    let state = LineState { size: hex_number(digits), saw_digit: true, phase: LinePhase::Size };
    let next = LineState { phase: LinePhase::Extension, ..state };
    assert(s[1] == ext[0]);
    lemma_extension_runs_on(s, closed, next, 2);
}

proof fn lemma_extension_runs_on(s: Seq<u8>, closed: bool, state: LineState, at: int)
    requires
        state.phase == LinePhase::Extension,
        0 <= at <= MAX_CHUNK_LINE_BYTES,
        s.len() >= MAX_CHUNK_LINE_BYTES,
        forall|i: int| at <= i < MAX_CHUNK_LINE_BYTES ==> #[trigger] s[i] != '\r' as u8,
    ensures
        chunk_line(s, closed, state, at as nat) matches ScanView::Failed { error, used }
            && error.kind == ErrorKind::InvalidData,
    decreases MAX_CHUNK_LINE_BYTES - at,
{
    if at < MAX_CHUNK_LINE_BYTES {
        assert(s[at] != '\r' as u8);
        lemma_extension_runs_on(s, closed, state, at + 1);
    }
}

proof fn lemma_zeros(zeros: Seq<u8>)
    requires
        forall|i: int| 0 <= i < zeros.len() ==> #[trigger] zeros[i] == '0' as u8,
    ensures
        hex_number(zeros) == 0,
        forall|i: int| 0 <= i < zeros.len() ==> hex_digit(#[trigger] zeros[i]),
    decreases zeros.len(),
{
    if zeros.len() > 0 {
        let before = zeros.drop_last();
        assert forall|i: int| 0 <= i < before.len() implies #[trigger] before[i] == '0' as u8 by {
            assert(before[i] == zeros[i]);
        }
        lemma_zeros(before);
        assert(zeros[zeros.len() - 1] == '0' as u8);
        assert forall|i: int| 0 <= i < zeros.len() implies hex_digit(#[trigger] zeros[i]) by {
            assert(zeros[i] == '0' as u8);
        }
    }
}

proof fn lemma_line_used(s: Seq<u8>, closed: bool, state: LineState, at: nat)
    ensures
        chunk_line(s, closed, state, at) matches ScanView::Done { value, used } ==> used >= at + 2,
    decreases MAX_CHUNK_LINE_BYTES - at,
{
    if at < MAX_CHUNK_LINE_BYTES && at < s.len() {
        if let Ok(Some(next)) = line_step(state, s[at as int]) {
            lemma_line_used(s, closed, next, at + 1);
        }
    }
}

proof fn lemma_line_prefix(s: Seq<u8>, closed: bool, state: LineState, at: nat, n: int)
    requires
        chunk_line(s, closed, state, at) is Done,
        at <= n <= s.len(),
    ensures
        n < chunk_line(s, closed, state, at)->Done_used ==> chunk_line(s.take(n), false, state, at)
            == ScanView::Starved,
        n >= chunk_line(s, closed, state, at)->Done_used ==> chunk_line(
            s.take(n),
            false,
            state,
            at,
        ) == chunk_line(s, closed, state, at),
    decreases MAX_CHUNK_LINE_BYTES - at,
{
    lemma_line_used(s, closed, state, at);
    if at < n {
        assert(s.take(n)[at as int] == s[at as int]);
        match line_step(state, s[at as int]) {
            Ok(Some(next)) => {
                lemma_line_prefix(s, closed, next, at + 1, n);
            },
            Ok(None) => {
                if at + 1 < n {
                    assert(s.take(n)[at as int + 1] == s[at as int + 1]);
                }
            },
            Err(_) => {},
        }
    }
}

/// A chunk-size line that arrives piece by piece is waited for until its end has arrived, and then
/// read as if it had arrived at once.
pub proof fn lemma_size_lines_are_waited_for(s: Seq<u8>, closed: bool, n: int)
    requires
        chunk_size(s, closed) is Done,
        0 <= n <= s.len(),
    ensures
        n < chunk_size(s, closed)->Done_used ==> chunk_size(s.take(n), false)
            == ScanView::Starved && body_read(
            BodyReader::ChunkReader(None),
            s.take(n),
            false,
            1,
        ).used == 0,
        n >= chunk_size(s, closed)->Done_used ==> chunk_size(s.take(n), false) == chunk_size(
            s,
            closed,
        ),
{
    lemma_line_prefix(s, closed, line_start(), 0, n);
}

proof fn lemma_trailer_prefix(s: Seq<u8>, closed: bool, start: nat, at: nat, n: int)
    requires
        trailer_section(s, closed, start, at) is Done,
        start <= at <= n <= s.len(),
    ensures
        n < trailer_section(s, closed, start, at)->Done_used ==> trailer_section(
            s.take(n),
            false,
            start,
            at,
        ) == ScanView::Starved,
    decreases MAX_TRAILER_BYTES - at,
{
    let cut = s.take(n);
    if at < n && at < MAX_TRAILER_BYTES {
        assert(cut[at as int] == s[at as int]);
        if start < at {
            assert(cut[at - 1] == s[at - 1]);
            assert(cut.subrange(start as int, at - 1) =~= s.subrange(start as int, at - 1));
        }
        if start < at && s[at - 1] == 0x0d && s[at as int] == 0x0a {
            if at != start + 1 && s.subrange(start as int, at - 1).contains(0x3a) {
                lemma_trailer_prefix(s, closed, at + 1, at + 1, n);
            }
        } else {
            lemma_trailer_prefix(s, closed, start, at + 1, n);
        }
    }
}

/// A trailer section that arrives piece by piece is waited for until its end has arrived.
pub proof fn lemma_trailers_are_waited_for(s: Seq<u8>, closed: bool, n: int)
    requires
        trailer_section(s, closed, 0, 0) is Done,
        0 <= n < trailer_section(s, closed, 0, 0)->Done_used,
        n <= s.len(),
    ensures
        trailer_section(s.take(n), false, 0, 0) == ScanView::Starved,
{
    lemma_trailer_prefix(s, closed, 0, 0, n);
}

/// A body that ends with the connection is delivered whole once the connection has ended, whatever
/// the sizes of the reads, and before that a read never reports the end.
pub proof fn lemma_unframed_bodies_are_read_whole(
    body: Seq<u8>,
    sizes: spec_fn(nat) -> nat,
    k: nat,
)
    requires
        forall|i: nat| #[trigger] sizes(i) > 0,
    ensures
        drained(BodyReader::EofReader(true), body, true, sizes, k) == Some(
            Drained {
                bytes: body,
                reader: BodyReader::EofReader(false),
                unread: Seq::<u8>::empty(),
            },
        ),
    decreases body.len(),
{
    reveal(drained);
    let max = sizes(k);
    let step = body_read(BodyReader::EofReader(true), body, true, max);
    if body.len() > 0 {
        let n = step.used as int;
        assert(0 < n <= body.len());
        lemma_unframed_bodies_are_read_whole(body.skip(n), sizes, k + 1);
        assert(body.take(n) + body.skip(n) =~= body);
    } else {
        assert(body.take(0) =~= body);
        assert(body.skip(0) =~= Seq::<u8>::empty());
    }
}

/// While the connection is open and nothing has arrived, no body that is still to come is reported
/// as ended or failed: the read waits.
pub proof fn lemma_open_bodies_wait(reader: BodyReader, max: nat)
    requires
        max > 0,
        ({
            ||| reader matches BodyReader::SizedReader(n) && n > 0
            ||| reader matches BodyReader::ChunkReader(rest) && rest != Some(0usize)
            ||| reader == BodyReader::EofReader(true)
        }),
    ensures
        body_read(reader, Seq::empty(), false, max) == (ReadView {
            result: Err(starved()),
            next: reader,
            used: 0,
            complete: false,
        }),
{
}

/// A connection that ends inside a body of known length or a chunked body never passes for the end
/// of the body.
pub proof fn lemma_cut_off_bodies_fail(reader: BodyReader, max: nat)
    requires
        max > 0,
        ({
            ||| reader matches BodyReader::SizedReader(n) && n > 0
            ||| reader matches BodyReader::ChunkReader(rest) && rest != Some(0usize)
        }),
    ensures
        ({
            let step = body_read(reader, Seq::empty(), true, max);
            &&& step.result is Err
            &&& step.result->Err_0 != starved()
            &&& !step.complete
        }),
{
    assert(ErrorKind::UnexpectedEof != starved().kind);
}

/// A read delivers what has arrived, from the front, and never more than was asked for; what it
/// delivers of a body of known length is never more than is still to come.
pub proof fn lemma_sized_reads_deliver(n: usize, input: Seq<u8>, closed: bool, max: nat)
    requires
        n > 0,
        max > 0,
        input.len() > 0,
    ensures
        ({
            let step = body_read(BodyReader::SizedReader(n), input, closed, max);
            let count = step.used;
            &&& step.result == Ok::<Seq<u8>, crate::error::ErrorView>(input.take(count as int))
            &&& 0 < count <= n && count <= max && count <= input.len()
            &&& count == n || count == max || count == input.len()
            &&& step.next == BodyReader::SizedReader((n - count) as usize)
            &&& step.complete == (count == n)
        }),
{
}

} // verus!

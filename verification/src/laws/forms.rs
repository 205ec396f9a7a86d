//! An encoded form can be read back.

use vstd::prelude::*;
use vstd::utf8::{decode_utf8, encode_utf8, is_ascii_chars};

use crate::error::ErrorKind;
use crate::laws::scan::{
    first_at, lemma_ascii_bytes, lemma_ascii_encoding, lemma_encoded_pieces, lemma_first_at,
    lemma_nowhere, stands_at,
};
use crate::multipart::{
    boundary_token, encoding, escaped, final_boundary_text, part_bytes, part_failure,
    part_head_text, parts_bytes, parts_failure, FormView, PartView,
};
use crate::text::hexadecimal;

verus! {

/// Read a quoted string, whose opening quote stands before `at`: a backslash takes the character
/// behind it as it is, and the first other quote ends the string. The result is what was quoted
/// and the position behind the closing quote.
pub open spec fn unquoted(s: Seq<char>, at: int) -> Option<(Seq<char>, int)>
    decreases s.len() - at,
{
    if at < 0 || at >= s.len() {
        None
    } else if s[at] == '"' {
        Some((Seq::empty(), at + 1))
    } else if s[at] == '\\' {
        if at + 1 >= s.len() {
            None
        } else {
            match unquoted(s, at + 2) {
                Some((text, end)) => Some((seq![s[at + 1]] + text, end)),
                None => None,
            }
        }
    } else {
        match unquoted(s, at + 1) {
            Some((text, end)) => Some((seq![s[at]] + text, end)),
            None => None,
        }
    }
}

/// What the lines of a head say of a field.
pub struct HeadView {
    pub name: Seq<char>,
    pub filename: Option<Seq<char>>,
    pub content_type: Option<Seq<char>>,
}

/// Read a line that describes a field of a form: its name and its filename, if it has one.
pub open spec fn read_disposition(line: Seq<char>) -> Option<(Seq<char>, Option<Seq<char>>)> {
    let opening = "Content-Disposition: form-data; name=\""@;
    let behind = "; filename=\""@;
    if !stands_at(line, opening, 0) {
        None
    } else {
        match unquoted(line, opening.len() as int) {
            None => None,
            Some((name, end)) => if end == line.len() {
                Some((name, None))
            } else if !stands_at(line, behind, end) {
                None
            } else {
                match unquoted(line, end + behind.len()) {
                    Some((filename, last)) => if last == line.len() {
                        Some((name, Some(filename)))
                    } else {
                        None
                    },
                    None => None,
                }
            },
        }
    }
}

/// Read the lines of a head: one that describes the field, and one with its type, if it has one.
pub open spec fn read_head(head: Seq<char>) -> Option<HeadView> {
    let typed = "Content-Type: "@;
    let (line, content_type) = match first_at(head, seq!['\r', '\n'], 0) {
        None => (head, Some(None)),
        Some(at) => (
            head.take(at),
            if stands_at(head, typed, at + 2) {
                Some(Some(head.skip(at + 2 + typed.len())))
            } else {
                None
            },
        ),
    };
    match (read_disposition(line), content_type) {
        (Some((name, filename)), Some(content_type)) => Some(
            HeadView { name, filename, content_type },
        ),
        _ => None,
    }
}

/// The bytes that separate the head of a field from its data.
pub open spec fn blank_line() -> Seq<u8> {
    seq![0x0d, 0x0a, 0x0d, 0x0a]
}

/// The line end before a delimiter, and the delimiter.
pub open spec fn delimiter_line(delimiter: Seq<u8>) -> Seq<u8> {
    seq![0x0du8, 0x0a] + delimiter
}

/// Read the fields behind a delimiter: up to the delimiter that `--` follows, a line end, the head
/// up to the first blank line, and the data up to the next delimiter line, again and again.
pub open spec fn read_fields(delimiter: Seq<u8>, body: Seq<u8>) -> Option<Seq<PartView>>
    decreases body.len(),
{
    if body == seq![0x2du8, 0x2d, 0x0d, 0x0a] {
        Some(Seq::empty())
    } else if !stands_at(body, seq![0x0du8, 0x0a], 0) {
        None
    } else {
        match first_at(body, blank_line(), 2) {
            None => None,
            Some(blank) => match first_at(body, delimiter_line(delimiter), blank + 4) {
                None => None,
                Some(end) => if end + 2 + delimiter.len() > body.len() || end < blank + 4 || blank
                    < 2 {
                    None
                } else {
                    match (
                        read_head(decode_utf8(body.subrange(2, blank))),
                        read_fields(delimiter, body.skip(end + 2 + delimiter.len())),
                    ) {
                        (Some(head), Some(more)) => Some(
                            seq![
                                PartView {
                                    name: head.name,
                                    filename: head.filename,
                                    content_type: head.content_type,
                                    data: body.subrange(blank + 4, end),
                                },
                            ] + more,
                        ),
                        _ => None,
                    }
                },
            },
        }
    }
}

/// What every boundary line starts with: two hyphens and the boundary.
pub open spec fn delimiter_of(boundary: Seq<char>) -> Seq<u8> {
    encode_utf8(seq!['-', '-'] + boundary)
}

/// Read an encoded form: it begins with the delimiter, two hyphens and the boundary.
pub open spec fn read_form(boundary: Seq<char>, body: Seq<u8>) -> Option<Seq<PartView>> {
    let delimiter = delimiter_of(boundary);
    if stands_at(body, delimiter, 0) {
        read_fields(delimiter, body.skip(delimiter.len() as int))
    } else {
        None
    }
}

spec fn quoted_char(c: char) -> Seq<char> {
    if c == '\\' || c == '"' {
        seq!['\\', c]
    } else {
        seq![c]
    }
}

proof fn lemma_escaped_from_front(s: Seq<char>)
    requires
        s.len() > 0,
    ensures
        escaped(s) == quoted_char(s[0]) + escaped(s.drop_first()),
    decreases s.len(),
{
    if s.len() == 1 {
        assert(s.drop_last() =~= Seq::<char>::empty());
        assert(s.drop_first() =~= Seq::<char>::empty());
        assert(escaped(s) =~= quoted_char(s[0]) + escaped(s.drop_first()));
    } else {
        lemma_escaped_from_front(s.drop_last());
        assert(s.drop_last().drop_first() =~= s.drop_first().drop_last());
        assert(escaped(s) =~= quoted_char(s[0]) + escaped(s.drop_first()));
    }
}

/// What was escaped between two quotes is read back from there, whatever stands around it.
pub proof fn lemma_quoting_is_undone(before: Seq<char>, text: Seq<char>, after: Seq<char>)
    ensures
        unquoted(before + escaped(text) + seq!['"'] + after, before.len() as int) == Some(
            (text, before.len() as int + escaped(text).len() + 1),
        ),
    decreases text.len(),
{
    let s = before + escaped(text) + seq!['"'] + after;
    let at = before.len() as int;
    if text.len() == 0 {
        assert(s[at] == '"');
        assert(text =~= Seq::<char>::empty());
    } else {
        let c = text[0];
        let rest = text.drop_first();
        lemma_escaped_from_front(text);
        let further = before + quoted_char(c);
        lemma_quoting_is_undone(further, rest, after);
        assert(further + escaped(rest) + seq!['"'] + after =~= s);
        assert(seq![c] + rest =~= text);
        if c == '\\' || c == '"' {
            assert(s[at] == '\\');
            assert(s[at + 1] == c);
        } else {
            assert(s[at] == c);
        }
    }
}

spec fn disposition_line(part: PartView) -> Seq<char> {
    let named = "Content-Disposition: form-data; name=\""@ + escaped(part.name) + seq!['"'];
    match part.filename {
        Some(filename) => named + "; filename=\""@ + escaped(filename) + seq!['"'],
        None => named,
    }
}

spec fn head_lines(part: PartView) -> Seq<char> {
    match part.content_type {
        Some(content_type) => disposition_line(part) + seq!['\r', '\n'] + ("Content-Type: "@
            + content_type),
        None => disposition_line(part),
    }
}

proof fn lemma_head_text(boundary: Seq<char>, part: PartView)
    ensures
        part_head_text(boundary, part) == (seq!['-', '-'] + boundary) + seq!['\r', '\n']
            + head_lines(part) + seq!['\r', '\n', '\r', '\n'],
{
    reveal_strlit("--");
    reveal_strlit("\r\nContent-Disposition: form-data; name=\"");
    reveal_strlit("Content-Disposition: form-data; name=\"");
    reveal_strlit("\"");
    reveal_strlit("\r\n");
    assert("--"@ =~= seq!['-', '-']);
    assert("\""@ =~= seq!['"']);
    assert("\r\n"@ =~= seq!['\r', '\n']);
    assert("\r\nContent-Disposition: form-data; name=\""@ =~= seq!['\r', '\n']
        + "Content-Disposition: form-data; name=\""@);
    assert(part_head_text(boundary, part) =~= (seq!['-', '-'] + boundary) + seq!['\r', '\n']
        + head_lines(part) + seq!['\r', '\n', '\r', '\n']);
}

proof fn lemma_disposition_is_read_back(part: PartView)
    ensures
        read_disposition(disposition_line(part)) == Some((part.name, part.filename)),
{
    let opening = "Content-Disposition: form-data; name=\""@;
    let behind = "; filename=\""@;
    let line = disposition_line(part);
    let end = opening.len() + escaped(part.name).len() + 1;
    reveal_strlit("; filename=\"");
    match part.filename {
        None => {
            lemma_quoting_is_undone(opening, part.name, Seq::empty());
            assert(opening + escaped(part.name) + seq!['"'] + Seq::<char>::empty() =~= line);
        },
        Some(filename) => {
            let after = behind + escaped(filename) + seq!['"'];
            lemma_quoting_is_undone(opening, part.name, after);
            assert(opening + escaped(part.name) + seq!['"'] + after =~= line);
            let before = opening + escaped(part.name) + seq!['"'] + behind;
            lemma_quoting_is_undone(before, filename, Seq::empty());
            assert(before + escaped(filename) + seq!['"'] + Seq::<char>::empty() =~= line);
            assert(stands_at(line, behind, end as int));
        },
    }
    assert(stands_at(line, opening, 0));
}

proof fn lemma_escaping_adds_only_backslashes(s: Seq<char>, c: char)
    requires
        !s.contains(c),
        c != '\\',
    ensures
        !escaped(s).contains(c),
    decreases s.len(),
{
    if s.len() > 0 {
        let before = s.drop_last();
        assert forall|i: int| 0 <= i < before.len() implies before[i] != c by {
            assert(s.contains(s[i]));
        }
        lemma_escaping_adds_only_backslashes(before, c);
        assert(s.contains(s[s.len() - 1]));
        assert forall|i: int| 0 <= i < escaped(s).len() implies escaped(s)[i] != c by {
            if i < escaped(before).len() {
                assert(escaped(s)[i] == escaped(before)[i]);
                assert(escaped(before).contains(escaped(before)[i]));
            }
        }
    }
}

/// No carriage return stands in what a head says of a field.
pub open spec fn lines_unbroken(part: PartView) -> bool {
    &&& !part.name.contains('\r')
    &&& part.filename is Some ==> !part.filename->0.contains('\r')
    &&& part.content_type is Some ==> !part.content_type->0.contains('\r')
}

proof fn lemma_joined_lacks(a: Seq<char>, b: Seq<char>, c: char)
    requires
        !a.contains(c),
        !b.contains(c),
    ensures
        !(a + b).contains(c),
{
    assert forall|i: int| 0 <= i < (a + b).len() implies (a + b)[i] != c by {
        if i < a.len() {
            assert(a.contains(a[i]));
        } else {
            assert(b.contains(b[i - a.len()]));
        }
    }
}

proof fn lemma_disposition_is_one_line(part: PartView)
    requires
        lines_unbroken(part),
    ensures
        !disposition_line(part).contains('\r'),
        disposition_line(part).len() > 0,
{
    reveal_strlit("Content-Disposition: form-data; name=\"");
    reveal_strlit("; filename=\"");
    lemma_escaping_adds_only_backslashes(part.name, '\r');
    let opening = "Content-Disposition: form-data; name=\""@;
    lemma_joined_lacks(opening, escaped(part.name), '\r');
    let named = opening + escaped(part.name);
    lemma_joined_lacks(named, seq!['"'], '\r');
    if let Some(filename) = part.filename {
        lemma_escaping_adds_only_backslashes(filename, '\r');
        let open = named + seq!['"'];
        lemma_joined_lacks(open, "; filename=\""@, '\r');
        lemma_joined_lacks(open + "; filename=\""@, escaped(filename), '\r');
        lemma_joined_lacks(open + "; filename=\""@ + escaped(filename), seq!['"'], '\r');
    }
}

proof fn lemma_type_line(content_type: Seq<char>)
    requires
        !content_type.contains('\r'),
    ensures
        !("Content-Type: "@ + content_type).contains('\r'),
        "Content-Type: "@.len() > 0,
{
    reveal_strlit("Content-Type: ");
    lemma_joined_lacks("Content-Type: "@, content_type, '\r');
}

proof fn lemma_head_is_read_back(part: PartView)
    requires
        lines_unbroken(part),
    ensures
        read_head(head_lines(part)) == Some(
            HeadView {
                name: part.name,
                filename: part.filename,
                content_type: part.content_type,
            },
        ),
{
    let line = disposition_line(part);
    let head = head_lines(part);
    let eol = seq!['\r', '\n'];
    lemma_disposition_is_read_back(part);
    lemma_disposition_is_one_line(part);
    match part.content_type {
        None => {
            assert forall|i: int| 0 <= i <= head.len() implies !#[trigger] stands_at(
                head,
                eol,
                i,
            ) by {
                if stands_at(head, eol, i) {
                    assert(head[i + 0] == eol[0]);
                    assert(head.contains(head[i]));
                }
            }
            lemma_nowhere(head, eol, 0);
        },
        Some(content_type) => {
            let at = line.len() as int;
            let typed = "Content-Type: "@;
            assert forall|i: int| 0 <= i < at implies !#[trigger] stands_at(head, eol, i) by {
                if stands_at(head, eol, i) {
                    assert(head[i + 0] == eol[0]);
                    assert(head[i] == line[i]);
                    assert(line.contains(line[i]));
                }
            }
            assert(stands_at(head, eol, at));
            lemma_first_at(head, eol, 0, at);
            assert(head.take(at) =~= line);
            assert(stands_at(head, typed, at + 2));
            assert(head.skip(at + 2 + typed.len()) =~= content_type);
        },
    }
}

/// The bytes behind the first delimiter.
spec fn behind_delimiter(boundary: Seq<char>, parts: Seq<PartView>) -> Seq<u8>
    decreases parts.len(),
{
    if parts.len() == 0 {
        seq![0x2du8, 0x2d, 0x0d, 0x0a]
    } else {
        seq![0x0du8, 0x0a] + encode_utf8(head_lines(parts[0])) + blank_line() + parts[0].data
            + delimiter_line(delimiter_of(boundary)) + behind_delimiter(
            boundary,
            parts.drop_first(),
        )
    }
}

proof fn lemma_parts_from_front(boundary: Seq<char>, parts: Seq<PartView>)
    requires
        parts.len() > 0,
    ensures
        parts_bytes(boundary, parts) == part_bytes(boundary, parts[0]) + parts_bytes(
            boundary,
            parts.drop_first(),
        ),
    decreases parts.len(),
{
    if parts.len() == 1 {
        assert(parts.drop_last() =~= Seq::<PartView>::empty());
        assert(parts.drop_first() =~= Seq::<PartView>::empty());
        assert(parts_bytes(boundary, parts) =~= part_bytes(boundary, parts[0]) + parts_bytes(
            boundary,
            parts.drop_first(),
        ));
    } else {
        lemma_parts_from_front(boundary, parts.drop_last());
        assert(parts.drop_last().drop_first() =~= parts.drop_first().drop_last());
        assert(parts_bytes(boundary, parts) =~= part_bytes(boundary, parts[0]) + parts_bytes(
            boundary,
            parts.drop_first(),
        ));
    }
}

proof fn lemma_head_bytes(boundary: Seq<char>, part: PartView)
    ensures
        encode_utf8(part_head_text(boundary, part)) == delimiter_of(boundary)
            + seq![0x0du8, 0x0a] + encode_utf8(head_lines(part)) + blank_line(),
{
    let opening = seq!['-', '-'] + boundary;
    let eol = seq!['\r', '\n'];
    let blank = seq!['\r', '\n', '\r', '\n'];
    lemma_head_text(boundary, part);
    lemma_encoded_pieces(opening, eol);
    lemma_encoded_pieces(opening + eol, head_lines(part));
    lemma_encoded_pieces(opening + eol + head_lines(part), blank);
    assert(is_ascii_chars(eol));
    assert(is_ascii_chars(blank));
    lemma_ascii_encoding(eol);
    lemma_ascii_encoding(blank);
    assert(encode_utf8(eol) =~= seq![0x0du8, 0x0a]);
    assert(encode_utf8(blank) =~= blank_line());
}

proof fn lemma_encoding_shape(boundary: Seq<char>, parts: Seq<PartView>)
    ensures
        parts_bytes(boundary, parts) + encode_utf8(final_boundary_text(boundary)) == delimiter_of(
            boundary,
        ) + behind_delimiter(boundary, parts),
    decreases parts.len(),
{
    let delimiter = delimiter_of(boundary);
    let closing = encode_utf8(final_boundary_text(boundary));
    if parts.len() == 0 {
        let end = seq!['-', '-', '\r', '\n'];
        reveal_strlit("--");
        reveal_strlit("--\r\n");
        assert(final_boundary_text(boundary) =~= (seq!['-', '-'] + boundary) + end);
        lemma_encoded_pieces(seq!['-', '-'] + boundary, end);
        assert(is_ascii_chars(end));
        lemma_ascii_encoding(end);
        assert(encode_utf8(end) =~= seq![0x2du8, 0x2d, 0x0d, 0x0a]);
        assert(parts_bytes(boundary, parts) + closing =~= closing);
    } else {
        let part = parts[0];
        let rest = parts.drop_first();
        lemma_parts_from_front(boundary, parts);
        lemma_encoding_shape(boundary, rest);
        lemma_head_bytes(boundary, part);
        let whole = parts_bytes(boundary, parts) + closing;
        assert(whole =~= part_bytes(boundary, part) + (parts_bytes(boundary, rest) + closing));
        assert(whole =~= delimiter + behind_delimiter(boundary, parts));
    }
}

proof fn lemma_blank_line_found(lines: Seq<u8>, one: int, behind: Seq<u8>)
    requires
        lines.len() > 0,
        lines[0] != 0x0d,
        0 < one <= lines.len(),
        forall|i: int| 0 <= i < lines.len() && i != one ==> #[trigger] lines[i] != 0x0d,
        one < lines.len() ==> one + 2 < lines.len(),
    ensures
        first_at(seq![0x0du8, 0x0a] + lines + blank_line() + behind, blank_line(), 2) == Some(
            2 + lines.len() as int,
        ),
{
    let body = seq![0x0du8, 0x0a] + lines + blank_line() + behind;
    let needle = blank_line();
    let at = 2 + lines.len() as int;
    assert(stands_at(body, needle, at));
    assert forall|i: int| 2 <= i < at implies !#[trigger] stands_at(body, needle, i) by {
        if stands_at(body, needle, i) {
            assert(body[i + 0] == needle[0]);
            assert(body[i + 2] == needle[2]);
            assert(body[i] == lines[i - 2]);
            if i - 2 == one {
                assert(body[i + 2] == lines[one + 2]);
            }
        }
    }
    lemma_first_at(body, needle, 2, at);
}

proof fn lemma_data_end_found(before: Seq<u8>, data: Seq<u8>, delimiter: Seq<u8>, behind: Seq<u8>)
    requires
        forall|i: int| !#[trigger] stands_at(data, delimiter_line(delimiter), i),
        !delimiter.contains(0x0d),
    ensures
        first_at(
            before + data + delimiter_line(delimiter) + behind,
            delimiter_line(delimiter),
            before.len() as int,
        ) == Some(before.len() as int + data.len()),
{
    let needle = delimiter_line(delimiter);
    let body = before + data + needle + behind;
    let from = before.len() as int;
    let at = from + data.len();
    assert(stands_at(body, needle, at));
    assert forall|i: int| from <= i < at implies !#[trigger] stands_at(body, needle, i) by {
        if stands_at(body, needle, i) {
            let k = i - from;
            if k + needle.len() <= data.len() {
                assert forall|j: int| 0 <= j < needle.len() implies data[k + j]
                    == #[trigger] needle[j] by {
                    assert(body[i + j] == needle[j]);
                    assert(body[i + j] == data[k + j]);
                }
                assert(stands_at(data, needle, k));
            } else {
                let j = at - i;
                assert(body[i + j] == needle[j]);
                assert(body[at] == 0x0d);
                if j == 1 {
                    assert(needle[1] == 0x0a);
                } else {
                    assert(needle[j] == delimiter[j - 2]);
                    assert(delimiter.contains(delimiter[j - 2]));
                }
            }
        }
    }
    lemma_first_at(body, needle, from, at);
}

proof fn lemma_head_line_bytes(part: PartView) -> (one: int)
    requires
        lines_unbroken(part),
    ensures
        ({
            let lines = encode_utf8(head_lines(part));
            &&& lines.len() > 0
            &&& lines[0] != 0x0d
            &&& 0 < one <= lines.len()
            &&& forall|i: int| 0 <= i < lines.len() && i != one ==> #[trigger] lines[i] != 0x0d
            &&& one < lines.len() ==> one + 2 < lines.len()
        }),
{
    let line = disposition_line(part);
    let eol = seq!['\r', '\n'];
    let lines = encode_utf8(head_lines(part));
    let first = encode_utf8(line);
    lemma_disposition_is_one_line(part);
    lemma_ascii_bytes(line, '\r');
    assert(first.len() > 0);
    assert forall|i: int| 0 <= i < first.len() implies #[trigger] first[i] != 0x0d by {
        assert(first.contains(first[i]));
    }
    if let Some(content_type) = part.content_type {
        let typed = "Content-Type: "@ + content_type;
        let second = encode_utf8(typed);
        lemma_type_line(content_type);
        lemma_ascii_bytes(typed, '\r');
        lemma_encoded_pieces(line, eol);
        lemma_encoded_pieces(line + eol, typed);
        assert(is_ascii_chars(eol));
        lemma_ascii_encoding(eol);
        assert(encode_utf8(eol) =~= seq![0x0du8, 0x0a]);
        assert(second.len() > 0);
        assert(lines =~= first + seq![0x0du8, 0x0a] + second);
        assert forall|i: int| 0 <= i < lines.len() && i != first.len() implies #[trigger] lines[i]
            != 0x0d by {
            if i < first.len() {
                assert(lines[i] == first[i]);
            } else if i == first.len() + 1 {
            } else {
                assert(lines[i] == second[i - first.len() - 2]);
                assert(second.contains(lines[i]));
            }
        }
        assert(lines[0] == first[0]);
    }
    first.len() as int
}

/// A field survives: its metadata has no carriage return, and its data does not hold the line
/// that starts with the delimiter.
pub open spec fn separable(boundary: Seq<char>, part: PartView) -> bool {
    &&& lines_unbroken(part)
    &&& forall|i: int|
        !#[trigger] stands_at(
            part.data,
            delimiter_line(delimiter_of(boundary)),
            i,
        )
}

proof fn lemma_fields_are_read_back(boundary: Seq<char>, parts: Seq<PartView>)
    requires
        !boundary.contains('\r'),
        forall|i: int| 0 <= i < parts.len() ==> separable(boundary, #[trigger] parts[i]),
    ensures
        read_fields(
            delimiter_of(boundary),
            behind_delimiter(boundary, parts),
        ) == Some(parts),
    decreases parts.len(),
{
    let delimiter = delimiter_of(boundary);
    let body = behind_delimiter(boundary, parts);
    if parts.len() == 0 {
        assert(parts =~= Seq::<PartView>::empty());
    } else {
        let part = parts[0];
        let rest = parts.drop_first();
        let lines = encode_utf8(head_lines(part));
        let behind = behind_delimiter(boundary, rest);
        let opening = seq![0x0du8, 0x0a];
        assert(separable(boundary, part));
        assert forall|i: int| 0 <= i < rest.len() implies separable(
            boundary,
            #[trigger] rest[i],
        ) by {
            assert(rest[i] == parts[i + 1]);
        }
        lemma_fields_are_read_back(boundary, rest);
        let one = lemma_head_line_bytes(part);
        let after_head = part.data + delimiter_line(delimiter) + behind;
        lemma_blank_line_found(lines, one, after_head);
        assert(opening + lines + blank_line() + after_head =~= body);
        let blank = 2 + lines.len() as int;
        let before = opening + lines + blank_line();
        assert(!delimiter.contains(0x0d)) by {
            lemma_joined_lacks(seq!['-', '-'], boundary, '\r');
            lemma_ascii_bytes(seq!['-', '-'] + boundary, '\r');
        }
        lemma_data_end_found(before, part.data, delimiter, behind);
        assert(before + part.data + delimiter_line(delimiter) + behind =~= body);
        let end = blank + 4 + part.data.len();
        assert(body.subrange(2, blank) =~= lines);
        assert(body.subrange(blank + 4, end) =~= part.data);
        assert(body.skip(end + 2 + delimiter.len()) =~= behind);
        vstd::utf8::encode_utf8_decode_utf8(head_lines(part));
        lemma_head_is_read_back(part);
        assert(body[0] == 0x0d && body[1] == 0x0a);
        assert(stands_at(body, seq![0x0du8, 0x0a], 0));
        assert(body != seq![0x2du8, 0x2d, 0x0d, 0x0a]) by {
            assert(seq![0x2du8, 0x2d, 0x0d, 0x0a][0] == 0x2d);
        }
        assert(seq![part] + rest =~= parts);
    }
}

/// The encoding of a form can be read back: a reader that splits it at its delimiter lines finds
/// every field in order, with the name, the filename, the content type and the data it was given.
pub proof fn lemma_form_is_read_back(form: FormView)
    requires
        !form.boundary.contains('\r'),
        forall|i: int|
            0 <= i < form.parts.len() ==> separable(form.boundary, #[trigger] form.parts[i]),
    ensures
        read_form(form.boundary, encoding(form)) == Some(form.parts),
{
    let delimiter = delimiter_of(form.boundary);
    let body = behind_delimiter(form.boundary, form.parts);
    lemma_encoding_shape(form.boundary, form.parts);
    lemma_fields_are_read_back(form.boundary, form.parts);
    assert(encoding(form) == delimiter + body);
    assert(stands_at(encoding(form), delimiter, 0));
    assert(encoding(form).skip(delimiter.len() as int) =~= body);
}

/// A field that is added to a form is read behind the others, which stay as they were.
pub proof fn lemma_added_fields_are_read_back(form: FormView, part: PartView)
    requires
        !form.boundary.contains('\r'),
        forall|i: int|
            0 <= i < form.parts.len() ==> separable(form.boundary, #[trigger] form.parts[i]),
        separable(form.boundary, part),
    ensures
        read_form(form.boundary, encoding(form)) == Some(form.parts),
        read_form(form.boundary, encoding(form.with_part(part))) == Some(form.parts.push(part)),
{
    lemma_form_is_read_back(form);
    let more = form.with_part(part);
    assert forall|i: int| 0 <= i < more.parts.len() implies separable(
        more.boundary,
        #[trigger] more.parts[i],
    ) by {
        if i < form.parts.len() {
            assert(more.parts[i] == form.parts[i]);
        }
    }
    lemma_form_is_read_back(more);
}

/// Two forms with the same boundary and the same encoding have the same fields.
pub proof fn lemma_encodings_tell_forms_apart(a: FormView, b: FormView)
    requires
        a.boundary == b.boundary,
        !a.boundary.contains('\r'),
        forall|i: int| 0 <= i < a.parts.len() ==> separable(a.boundary, #[trigger] a.parts[i]),
        forall|i: int| 0 <= i < b.parts.len() ==> separable(b.boundary, #[trigger] b.parts[i]),
        encoding(a) == encoding(b),
    ensures
        a.parts == b.parts,
{
    lemma_form_is_read_back(a);
    lemma_form_is_read_back(b);
}

/// The head of a field with a content type holds the line that says so, whether or not the field
/// has a filename; the head of one without has no such line.
pub proof fn lemma_content_type_is_written(boundary: Seq<char>, part: PartView)
    ensures
        part.content_type matches Some(content_type) ==> stands_at(
            part_head_text(boundary, part),
            "\r\nContent-Type: "@ + content_type + "\r\n\r\n"@,
            part_head_text(boundary, part).len() - ("\r\nContent-Type: "@ + content_type
                + "\r\n\r\n"@).len(),
        ),
{
    lemma_head_text(boundary, part);
    if let Some(content_type) = part.content_type {
        reveal_strlit("\r\nContent-Type: ");
        reveal_strlit("Content-Type: ");
        reveal_strlit("\r\n\r\n");
        assert("\r\nContent-Type: "@ =~= seq!['\r', '\n'] + "Content-Type: "@);
        assert("\r\n\r\n"@ =~= seq!['\r', '\n', '\r', '\n']);
        let ending = "\r\nContent-Type: "@ + content_type + "\r\n\r\n"@;
        let opening = (seq!['-', '-'] + boundary) + seq!['\r', '\n'] + disposition_line(part);
        assert(part_head_text(boundary, part) =~= opening + ending);
    }
}

/// A form is refused exactly where a name, a filename or a content type holds a carriage return or
/// a line feed.
pub proof fn lemma_sound_forms(parts: Seq<PartView>)
    ensures
        parts_failure(parts) is None <==> forall|i: int|
            0 <= i < parts.len() ==> {
                let part = #[trigger] parts[i];
                &&& !part.name.contains('\r') && !part.name.contains('\n')
                &&& part.filename is Some ==> !part.filename->0.contains('\r')
                    && !part.filename->0.contains('\n')
                &&& part.content_type is Some ==> !part.content_type->0.contains('\r')
                    && !part.content_type->0.contains('\n')
            },
        parts_failure(parts) matches Some(e) ==> e.kind == ErrorKind::InvalidInput,
    decreases parts.len(),
{
    if parts.len() > 0 {
        let before = parts.drop_last();
        lemma_sound_forms(before);
        let last = parts.len() - 1;
        if parts_failure(parts) is None {
            assert forall|i: int| 0 <= i < parts.len() implies {
                let part = #[trigger] parts[i];
                &&& !part.name.contains('\r') && !part.name.contains('\n')
                &&& part.filename is Some ==> !part.filename->0.contains('\r')
                    && !part.filename->0.contains('\n')
                &&& part.content_type is Some ==> !part.content_type->0.contains('\r')
                    && !part.content_type->0.contains('\n')
            } by {
                if i < last {
                    assert(parts[i] == before[i]);
                } else {
                    assert(part_failure(parts[last]) is None);
                }
            }
        } else {
            if parts_failure(before) is Some {
                let i = choose|i: int|
                    0 <= i < before.len() && !({
                        let part = #[trigger] before[i];
                        &&& !part.name.contains('\r') && !part.name.contains('\n')
                        &&& part.filename is Some ==> !part.filename->0.contains('\r')
                            && !part.filename->0.contains('\n')
                        &&& part.content_type is Some ==> !part.content_type->0.contains('\r')
                            && !part.content_type->0.contains('\n')
                    });
                assert(parts[i] == before[i]);
            } else {
                assert(part_failure(parts[last]) is Some);
            }
        }
    }
}

/// A letter in lower case, a digit or a hyphen.
pub open spec fn boundary_char(c: char) -> bool {
    ('a' <= c && c <= 'z') || ('0' <= c && c <= '9') || c == '-'
}

proof fn lemma_hexadecimal_chars(n: nat)
    ensures
        hexadecimal(n, false).len() > 0,
        forall|i: int|
            0 <= i < hexadecimal(n, false).len() ==> boundary_char(
                #[trigger] hexadecimal(n, false)[i],
            ),
    decreases n,
{
    if n >= 16 {
        let front = hexadecimal(n / 16, false);
        lemma_hexadecimal_chars(n / 16);
        assert forall|i: int| 0 <= i < hexadecimal(n, false).len() implies boundary_char(
            #[trigger] hexadecimal(n, false)[i],
        ) by {
            if i < front.len() {
                assert(hexadecimal(n, false)[i] == front[i]);
                assert(boundary_char(front[i]));
            }
        }
    }
}

/// The boundaries that forms are given are made of lower-case letters, digits and hyphens alone, so
/// that they need no quotes, break no line, and can be told from every line of a head.
pub proof fn lemma_boundaries_are_plain(process_id: u32, nanos: u128, sequence: u64)
    ensures
        boundary_token(process_id, nanos, sequence).len() > 0,
        forall|i: int|
            0 <= i < boundary_token(process_id, nanos, sequence).len() ==> boundary_char(
                #[trigger] boundary_token(process_id, nanos, sequence)[i],
            ),
        !boundary_token(process_id, nanos, sequence).contains('\r'),
{
    lemma_hexadecimal_chars(process_id as nat);
    lemma_hexadecimal_chars(nanos as nat);
    lemma_hexadecimal_chars(sequence as nat);
    reveal_strlit("may-minihttp-");
    reveal_strlit("-");
    let prefix = "may-minihttp-"@;
    let one = hexadecimal(process_id as nat, false);
    let two = hexadecimal(nanos as nat, false);
    let three = hexadecimal(sequence as nat, false);
    let token = boundary_token(process_id, nanos, sequence);
    assert forall|i: int| 0 <= i < token.len() implies boundary_char(#[trigger] token[i]) by {
        let a = prefix.len() as int;
        let b = a + one.len();
        let c = b + 1 + two.len();
        if i < a {
            assert(token[i] == prefix[i]);
        } else if i < b {
            assert(token[i] == one[i - a]);
        } else if i == b {
            assert(token[i] == '-');
        } else if i < c {
            assert(token[i] == two[i - b - 1]);
        } else if i == c {
            assert(token[i] == '-');
        } else {
            assert(token[i] == three[i - c - 1]);
        }
    }
}

} // verus!

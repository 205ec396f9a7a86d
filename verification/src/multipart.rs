//! Multipart/form-data request encoding.

use vstd::prelude::*;
use vstd::string::*;
use vstd::utf8::encode_utf8;

use crate::buffer::all_written;
use crate::error::{failure, Error, ErrorKind, ErrorView};
use crate::text::{
    chars_of, copy_bytes, decimal, decimal_text, hexadecimal, hexadecimal_text, push_bytes,
};

verus! {

#[derive(Debug, Clone)]
struct Part {
    name: String,
    filename: Option<String>,
    content_type: Option<String>,
    data: Vec<u8>,
}

/// One field of a form.
pub struct PartView {
    pub name: Seq<char>,
    pub filename: Option<Seq<char>>,
    pub content_type: Option<Seq<char>>,
    pub data: Seq<u8>,
}

/// The text behind an optional string.
pub open spec fn optional_text(value: Option<String>) -> Option<Seq<char>> {
    match value {
        Some(text) => Some(text@),
        None => None,
    }
}

/// The text behind an optional string slice.
pub open spec fn optional_str(value: Option<&str>) -> Option<Seq<char>> {
    match value {
        Some(text) => Some(text@),
        None => None,
    }
}

impl View for Part {
    type V = PartView;

    closed spec fn view(&self) -> PartView {
        PartView {
            name: self.name@,
            filename: optional_text(self.filename),
            content_type: optional_text(self.content_type),
            data: self.data@,
        }
    }
}

/// A deterministic-length multipart/form-data body.
///
/// Text and byte parts are retained once. Field metadata is validated before any bytes are
/// written, so CR/LF header injection cannot produce malformed MIME headers.
#[derive(Debug, Clone)]
pub struct MultipartForm {
    boundary: String,
    parts: Vec<Part>,
}

/// The boundary and the fields of a form, in the order in which they were added.
pub struct FormView {
    pub boundary: Seq<char>,
    pub parts: Seq<PartView>,
}

impl View for MultipartForm {
    type V = FormView;

    closed spec fn view(&self) -> FormView {
        FormView {
            boundary: self.boundary@,
            parts: self.parts@.map_values(|part: Part| part@),
        }
    }
}

impl FormView {
    /// The form with one more field at the end.
    pub open spec fn with_part(self, part: PartView) -> FormView {
        FormView { boundary: self.boundary, parts: self.parts.push(part) }
    }
}

/// A CR or an LF stands in the text.
pub open spec fn has_line_break(s: Seq<char>) -> bool {
    s.contains('\r') || s.contains('\n')
}

/// The rejection of a piece of field metadata.
pub open spec fn metadata_failure(kind: Seq<char>) -> ErrorView {
    failure(
        ErrorKind::InvalidInput,
        "multipart "@ + kind + " must not contain CR or LF"@,
    )
}

/// The first thing that is wrong with the metadata of a field, if anything is.
pub open spec fn part_failure(part: PartView) -> Option<ErrorView> {
    if has_line_break(part.name) {
        Some(metadata_failure("field name"@))
    } else if part.filename is Some && has_line_break(part.filename->0) {
        Some(metadata_failure("filename"@))
    } else if part.content_type is Some && has_line_break(part.content_type->0) {
        Some(metadata_failure("content type"@))
    } else {
        None
    }
}

/// The first thing that is wrong with the metadata of a list of fields.
pub open spec fn parts_failure(parts: Seq<PartView>) -> Option<ErrorView>
    decreases parts.len(),
{
    if parts.len() == 0 {
        None
    } else {
        match parts_failure(parts.drop_last()) {
            Some(e) => Some(e),
            None => part_failure(parts.last()),
        }
    }
}

/// A quoted-string body: a backslash stands before each backslash and each quote.
pub open spec fn escaped(s: Seq<char>) -> Seq<char>
    decreases s.len(),
{
    if s.len() == 0 {
        Seq::empty()
    } else if s.last() == '\\' || s.last() == '"' {
        escaped(s.drop_last()).push('\\').push(s.last())
    } else {
        escaped(s.drop_last()).push(s.last())
    }
}

/// The MIME header of a field, from its boundary line to the blank line.
pub open spec fn part_head_text(boundary: Seq<char>, part: PartView) -> Seq<char> {
    let opening = "--"@ + boundary + "\r\nContent-Disposition: form-data; name=\""@ + escaped(
        part.name,
    ) + "\""@;
    let named = match part.filename {
        Some(filename) => opening + "; filename=\""@ + escaped(filename) + "\""@,
        None => opening,
    };
    let typed = match part.content_type {
        Some(content_type) => named + "\r\n"@ + "Content-Type: "@ + content_type + "\r\n"@,
        None => named + "\r\n"@,
    };
    typed + "\r\n"@
}

/// CR LF.
pub open spec fn crlf() -> Seq<u8> {
    seq![0x0d, 0x0a]
}

/// The bytes of one field.
pub open spec fn part_bytes(boundary: Seq<char>, part: PartView) -> Seq<u8> {
    encode_utf8(part_head_text(boundary, part)) + part.data + crlf()
}

/// The bytes of a list of fields.
pub open spec fn parts_bytes(boundary: Seq<char>, parts: Seq<PartView>) -> Seq<u8>
    decreases parts.len(),
{
    if parts.len() == 0 {
        Seq::empty()
    } else {
        parts_bytes(boundary, parts.drop_last()) + part_bytes(boundary, parts.last())
    }
}

/// The closing boundary line.
pub open spec fn final_boundary_text(boundary: Seq<char>) -> Seq<char> {
    "--"@ + boundary + "--\r\n"@
}

/// The encoded body of a form.
pub open spec fn encoding(form: FormView) -> Seq<u8> {
    parts_bytes(form.boundary, form.parts) + encode_utf8(final_boundary_text(form.boundary))
}

/// The pieces in which a list of fields is written: head, data and line end of each.
pub open spec fn parts_pieces(boundary: Seq<char>, parts: Seq<PartView>) -> Seq<Seq<u8>>
    decreases parts.len(),
{
    if parts.len() == 0 {
        Seq::empty()
    } else {
        parts_pieces(boundary, parts.drop_last()).push(
            encode_utf8(part_head_text(boundary, parts.last())),
        ).push(parts.last().data).push(crlf())
    }
}

/// The pieces in which a form is written.
pub open spec fn form_pieces(form: FormView) -> Seq<Seq<u8>> {
    parts_pieces(form.boundary, form.parts).push(encode_utf8(final_boundary_text(form.boundary)))
}

/// The values behind a vector of byte strings.
pub open spec fn byte_views(v: Seq<Vec<u8>>) -> Seq<Seq<u8>> {
    v.map_values(|item: Vec<u8>| item@)
}

proof fn lemma_parts_pieces_join(boundary: Seq<char>, parts: Seq<PartView>)
    ensures
        all_written(parts_pieces(boundary, parts)) == parts_bytes(boundary, parts),
    decreases parts.len(),
{
    if parts.len() > 0 {
        lemma_parts_pieces_join(boundary, parts.drop_last());
        let before = parts_pieces(boundary, parts.drop_last());
        let head = encode_utf8(part_head_text(boundary, parts.last()));
        let one = before.push(head);
        let two = one.push(parts.last().data);
        let three = two.push(crlf());
        assert(one.drop_last() =~= before);
        assert(two.drop_last() =~= one);
        assert(three.drop_last() =~= two);
        assert(all_written(one) == all_written(before) + head);
        assert(all_written(two) == all_written(one) + parts.last().data);
        assert(all_written(three) == all_written(two) + crlf());
        assert(all_written(three) =~= parts_bytes(boundary, parts));
    }
}

/// The pieces of a form, one after the other, are its encoding.
pub proof fn lemma_pieces_join_to_encoding(form: FormView)
    ensures
        all_written(form_pieces(form)) == encoding(form),
{
    lemma_parts_pieces_join(form.boundary, form.parts);
    assert(form_pieces(form).drop_last() =~= parts_pieces(form.boundary, form.parts));
}

/// Even an empty form has its closing boundary line.
pub proof fn lemma_encoding_is_not_empty(form: FormView)
    ensures
        encoding(form).len() > 0,
{
    reveal_strlit("--");
    let closing = final_boundary_text(form.boundary);
    assert(closing.len() > 0);
    assert(closing[0] == '-');
}

/// The failure of a length computation.
pub open spec fn length_failure() -> ErrorView {
    failure(ErrorKind::InvalidInput, "multipart body length exceeds usize"@)
}

/// The length of a list of fields, or the first reason why it has none: fields are validated
/// and measured in order.
pub open spec fn measured_parts(boundary: Seq<char>, parts: Seq<PartView>) -> Result<nat, ErrorView>
    decreases parts.len(),
{
    if parts.len() == 0 {
        Ok(0)
    } else {
        match measured_parts(boundary, parts.drop_last()) {
            Err(e) => Err(e),
            Ok(n) => match part_failure(parts.last()) {
                Some(e) => Err(e),
                None => {
                    let total = n + part_bytes(boundary, parts.last()).len();
                    if total > usize::MAX {
                        Err(length_failure())
                    } else {
                        Ok(total)
                    }
                },
            },
        }
    }
}

/// The length of a form, or the first reason why it has none.
pub open spec fn measured(form: FormView) -> Result<nat, ErrorView> {
    match measured_parts(form.boundary, form.parts) {
        Err(e) => Err(e),
        Ok(n) => {
            let total = n + encode_utf8(final_boundary_text(form.boundary)).len();
            if total > usize::MAX {
                Err(length_failure())
            } else {
                Ok(total)
            }
        },
    }
}

/// A part list has a length exactly when its metadata is sound and its bytes can be counted, and
/// the length is then the number of its bytes.
proof fn lemma_measured_parts(boundary: Seq<char>, parts: Seq<PartView>)
    ensures
        measured_parts(boundary, parts) is Ok <==> parts_failure(parts) is None && parts_bytes(
            boundary,
            parts,
        ).len() <= usize::MAX,
        measured_parts(boundary, parts) matches Ok(n) ==> n == parts_bytes(boundary, parts).len(),
    decreases parts.len(),
{
    if parts.len() > 0 {
        lemma_measured_parts(boundary, parts.drop_last());
    }
}

/// The computed length of a form is the length of its encoding, and there is one for every form
/// whose metadata is sound and whose encoding can be counted.
pub proof fn lemma_length_is_encoded_length(form: FormView)
    ensures
        measured(form) is Ok <==> parts_failure(form.parts) is None && encoding(form).len()
            <= usize::MAX,
        measured(form) matches Ok(n) ==> n == encoding(form).len(),
{
    lemma_measured_parts(form.boundary, form.parts);
}

/// A field with a line break in its metadata is rejected wherever it stands in the form.
pub proof fn lemma_injection_is_rejected(parts: Seq<PartView>, at: int)
    requires
        0 <= at < parts.len(),
        has_line_break(parts[at].name) || (parts[at].filename is Some && has_line_break(
            parts[at].filename->0,
        )) || (parts[at].content_type is Some && has_line_break(parts[at].content_type->0)),
    ensures
        parts_failure(parts) is Some,
        parts_failure(parts)->0.kind == ErrorKind::InvalidInput,
    decreases parts.len(),
{
    if at == parts.len() - 1 {
        lemma_failures_are_invalid_input(parts);
    } else {
        assert(parts.drop_last()[at] == parts[at]);
        lemma_injection_is_rejected(parts.drop_last(), at);
    }
}

proof fn lemma_failures_are_invalid_input(parts: Seq<PartView>)
    ensures
        parts_failure(parts) matches Some(e) ==> e.kind == ErrorKind::InvalidInput,
    decreases parts.len(),
{
    if parts.len() > 0 {
        lemma_failures_are_invalid_input(parts.drop_last());
    }
}

/// Where the metadata of a list is sound, so is that of every shorter prefix of it.
proof fn lemma_prefix_is_sound(parts: Seq<PartView>, n: int)
    requires
        parts_failure(parts) is None,
        0 <= n <= parts.len(),
    ensures
        parts_failure(parts.take(n)) is None,
    decreases parts.len() - n,
{
    if n == parts.len() {
        assert(parts.take(n) =~= parts);
    } else {
        lemma_prefix_is_sound(parts, n + 1);
        assert(parts.take(n + 1).drop_last() =~= parts.take(n));
    }
}

fn validate_metadata(kind: &str, value: &str) -> (r: Result<(), Error>)
    ensures
        match r {
            Ok(_) => !has_line_break(value@),
            Err(e) => has_line_break(value@) && e@ == metadata_failure(kind@),
        },
{
    let chars = chars_of(value);
    let mut i: usize = 0;
    while i < chars.len()
        invariant
            i <= chars@.len(),
            chars@ == value@,
            forall|j: int| 0 <= j < i ==> chars@[j] != '\r' && chars@[j] != '\n',
        decreases chars@.len() - i,
    {
        if chars[i] == '\r' || chars[i] == '\n' {
            let mut message = "multipart ".to_owned();
            message.append(kind);
            message.append(" must not contain CR or LF");
            proof {
                assert(value@[i as int] == chars@[i as int]);
            }
            return Err(Error::with_message(ErrorKind::InvalidInput, message));
        }
        i += 1;
    }
    Ok(())
}

fn escape_quoted(value: &str) -> (r: String)
    ensures
        r@ == escaped(value@),
{
    let chars = chars_of(value);
    let mut out = String::new();
    let mut i: usize = 0;
    proof {
        assert(chars@.take(0) =~= Seq::<char>::empty());
    }
    while i < chars.len()
        invariant
            i <= chars@.len(),
            out@ == escaped(chars@.take(i as int)),
        decreases chars@.len() - i,
    {
        proof {
            assert(chars@.take(i + 1).drop_last() =~= chars@.take(i as int));
        }
        if chars[i] == '\\' || chars[i] == '"' {
            out.push('\\');
        }
        out.push(chars[i]);
        i += 1;
    }
    proof {
        assert(chars@.take(i as int) =~= value@);
    }
    out
}

fn checked_add(left: usize, right: usize) -> (r: Result<usize, Error>)
    ensures
        match r {
            Ok(sum) => sum == left + right,
            Err(e) => left + right > usize::MAX && e@ == length_failure(),
        },
{
    match left.checked_add(right) {
        Some(sum) => Ok(sum),
        None => Err(Error::new(ErrorKind::InvalidInput, "multipart body length exceeds usize")),
    }
}

/// The boundary token made of a process id, a clock reading and a sequence number.
pub open spec fn boundary_token(process_id: u32, nanos: u128, sequence: u64) -> Seq<char> {
    "may-minihttp-"@ + hexadecimal(process_id as nat, false) + "-"@ + hexadecimal(
        nanos as nat,
        false,
    ) + "-"@ + hexadecimal(sequence as nat, false)
}

/// The rendering of a number holds no hyphen.
proof fn lemma_digits_are_no_hyphens(n: nat)
    ensures
        hexadecimal(n, false).len() > 0,
        forall|i: int| 0 <= i < hexadecimal(n, false).len() ==> #[trigger] hexadecimal(n, false)[i]
            != '-',
    decreases n,
{
    if n >= 16 {
        let front = hexadecimal(n / 16, false);
        lemma_digits_are_no_hyphens(n / 16);
        assert forall|i: int| 0 <= i < hexadecimal(n, false).len() implies #[trigger] hexadecimal(
            n,
            false,
        )[i] != '-' by {
            if i < front.len() {
                assert(hexadecimal(n, false)[i] == front[i]);
            }
        }
    }
}

/// Different numbers are rendered differently.
proof fn lemma_renderings_differ(a: nat, b: nat)
    requires
        a != b,
    ensures
        hexadecimal(a, false) != hexadecimal(b, false),
    decreases a + b,
{
    let left = hexadecimal(a, false);
    let right = hexadecimal(b, false);
    if a >= 16 {
        lemma_digits_are_no_hyphens(a / 16);
    }
    if b >= 16 {
        lemma_digits_are_no_hyphens(b / 16);
    }
    if left == right {
        assert(left.last() == right.last());
        assert(a % 16 == b % 16);
        if a >= 16 && b >= 16 {
            assert(left.drop_last() =~= hexadecimal(a / 16, false));
            assert(right.drop_last() =~= hexadecimal(b / 16, false));
            lemma_renderings_differ(a / 16, b / 16);
        } else if a >= 16 {
            assert(left.len() >= 2 && right.len() == 1);
        } else if b >= 16 {
            assert(right.len() >= 2 && left.len() == 1);
        }
    }
}

/// Forms with different sequence numbers have different boundaries, also where they are made at the
/// same clock reading.
pub proof fn lemma_boundaries_differ(
    process: u32,
    nanos: u128,
    sequence: u64,
    other_process: u32,
    other_nanos: u128,
    other_sequence: u64,
)
    requires
        sequence != other_sequence,
    ensures
        boundary_token(process, nanos, sequence) != boundary_token(
            other_process,
            other_nanos,
            other_sequence,
        ),
{
    let left = boundary_token(process, nanos, sequence);
    let right = boundary_token(other_process, other_nanos, other_sequence);
    let mine = hexadecimal(sequence as nat, false);
    let others = hexadecimal(other_sequence as nat, false);
    reveal_strlit("-");
    lemma_digits_are_no_hyphens(sequence as nat);
    lemma_digits_are_no_hyphens(other_sequence as nat);
    lemma_renderings_differ(sequence as nat, other_sequence as nat);
    let n = left.len() as int;
    assert(left[n - 1 - mine.len()] == '-');
    assert(right[right.len() - 1 - others.len()] == '-');
    assert(left.skip(n - mine.len()) =~= mine);
    assert(right.skip(right.len() - others.len()) =~= others);
    if left == right {
        if mine.len() < others.len() {
            assert(right[n - 1 - mine.len()] == others[others.len() - 1 - mine.len()]);
        } else if others.len() < mine.len() {
            assert(left[n - 1 - others.len()] == mine[mine.len() - 1 - others.len()]);
        }
    }
}

/// The sequence numbers of a process: where the boundaries of its forms come from.
#[derive(Debug)]
pub struct BoundarySource {
    next: u64,
}

/// The number drawn after `count` others, from `first` on; the counter wraps around.
pub open spec fn drawn(first: u64, count: nat) -> u64 {
    ((first + count) % 0x1_0000_0000_0000_0000) as u64
}

/// Numbers drawn at different times differ, as far as the counter goes without coming around: so
/// do the boundaries of the forms made with them.
pub proof fn lemma_drawn_boundaries_differ(
    first: u64,
    i: nat,
    j: nat,
    process: u32,
    nanos: u128,
    other_nanos: u128,
)
    requires
        i < j < i + 0x1_0000_0000_0000_0000,
    ensures
        drawn(first, i) != drawn(first, j),
        boundary_token(process, nanos, drawn(first, i)) != boundary_token(
            process,
            other_nanos,
            drawn(first, j),
        ),
{
    lemma_boundaries_differ(
        process,
        nanos,
        drawn(first, i),
        process,
        other_nanos,
        drawn(first, j),
    );
}

impl BoundarySource {
    /// The number that is drawn next.
    pub closed spec fn upcoming(&self) -> u64 {
        self.next
    }

    /// A source whose first number is one.
    pub fn new() -> (r: BoundarySource)
        ensures
            r.upcoming() == 1,
    {
        BoundarySource { next: 1 }
    }

    /// Draw a number and make an empty form of it.
    pub fn form(&mut self, process_id: u32, nanos: u128) -> (r: MultipartForm)
        ensures
            r@.boundary == boundary_token(process_id, nanos, old(self).upcoming()),
            r@.parts == Seq::<PartView>::empty(),
            final(self).upcoming() == drawn(old(self).upcoming(), 1),
    {
        let sequence: u64 = self.next;
        self.next = if sequence == u64::MAX {
            0
        } else {
            sequence + 1
        };
        MultipartForm::new(process_id, nanos, sequence)
    }
}

/// What is taken from a reader for one part: at most one byte more than the part may have.
#[derive(Debug)]
pub struct Preload {
    pub bytes: Vec<u8>,
    pub max_bytes: usize,
}

/// What a preload takes of a reader that yields `source` comes to the same verdict as `source`
/// itself: it is within the limit exactly where the source is, and then it is all of it.
pub proof fn lemma_preload_decides(source: Seq<u8>, taken: Seq<u8>, max_bytes: nat)
    requires
        taken.is_prefix_of(source),
        taken == source || taken.len() > max_bytes,
    ensures
        taken.len() <= max_bytes <==> source.len() <= max_bytes,
        taken.len() <= max_bytes ==> taken == source,
{
}

/// The number of bytes of a part to read next, for how many were read and how many there may be.
pub open spec fn preload_step(max_bytes: nat, held: nat) -> nat {
    if held > max_bytes {
        0
    } else if max_bytes - held < 8191 {
        (max_bytes - held + 1) as nat
    } else {
        8192
    }
}

impl Preload {
    /// Never more than one byte beyond the limit.
    pub open spec fn wf(&self) -> bool {
        self.bytes@.len() <= self.max_bytes + 1
    }

    pub fn new(max_bytes: usize) -> (r: Preload)
        ensures
            r.wf(),
            r.max_bytes == max_bytes,
            r.bytes@ == Seq::<u8>::empty(),
    {
        Preload { bytes: Vec::new(), max_bytes }
    }

    /// The number of bytes to read next: none once the part is known to be too long.
    pub fn wants(&self) -> (r: usize)
        requires
            self.wf(),
        ensures
            r == preload_step(self.max_bytes as nat, self.bytes@.len()),
            r == (if self.max_bytes + 1 - self.bytes@.len() < 8192 {
                self.max_bytes + 1 - self.bytes@.len()
            } else {
                8192
            }),
            r == 0 <==> self.bytes@.len() > self.max_bytes,
    {
        if self.bytes.len() > self.max_bytes {
            return 0;
        }
        let rest: usize = self.max_bytes - self.bytes.len();
        if rest < 8191 {
            rest + 1
        } else {
            8192
        }
    }

    /// Keep what was read.
    pub fn piece(&mut self, bytes: &[u8])
        requires
            old(self).wf(),
            old(self).bytes@.len() + bytes@.len() <= old(self).max_bytes + 1,
        ensures
            final(self).wf(),
            final(self).max_bytes == old(self).max_bytes,
            final(self).bytes@ == old(self).bytes@ + bytes@,
    {
        push_bytes(&mut self.bytes, bytes);
    }
}

fn owned_text(value: Option<&str>) -> (r: Option<String>)
    ensures
        optional_text(r) == optional_str(value),
{
    match value {
        Some(text) => Some(text.to_owned()),
        None => None,
    }
}

impl MultipartForm {
    /// Create an empty form whose boundary is made of the given process id, clock reading and
    /// sequence number.
    pub fn new(process_id: u32, nanos: u128, sequence: u64) -> (r: MultipartForm)
        ensures
            r@.boundary == boundary_token(process_id, nanos, sequence),
            r@.parts == Seq::<PartView>::empty(),
    {
        let mut boundary = "may-minihttp-".to_owned();
        let process_text = hexadecimal_text(process_id as u128, false);
        let nanos_text = hexadecimal_text(nanos, false);
        let sequence_text = hexadecimal_text(sequence as u128, false);
        boundary.append(process_text.as_str());
        boundary.append("-");
        boundary.append(nanos_text.as_str());
        boundary.append("-");
        boundary.append(sequence_text.as_str());
        let form = MultipartForm { boundary, parts: Vec::new() };
        proof {
            assert(form@.parts =~= Seq::<PartView>::empty());
        }
        form
    }

    /// Create an empty form with a given boundary.
    pub fn with_boundary(boundary: &str) -> (r: MultipartForm)
        ensures
            r@.boundary == boundary@,
            r@.parts == Seq::<PartView>::empty(),
    {
        let form = MultipartForm { boundary: boundary.to_owned(), parts: Vec::new() };
        proof {
            assert(form@.parts =~= Seq::<PartView>::empty());
        }
        form
    }

    fn push_part(self, part: Part) -> (r: MultipartForm)
        ensures
            r@ == self@.with_part(part@),
    {
        let mut form = self;
        form.parts.push(part);
        proof {
            assert(form@.parts =~= self@.parts.push(part@));
        }
        form
    }

    /// Add a UTF-8 text field.
    pub fn text(self, name: &str, value: &str) -> (r: MultipartForm)
        ensures
            r@ == self@.with_part(
                (PartView {
                    name: name@,
                    filename: None,
                    content_type: Some("text/plain; charset=utf-8"@),
                    data: encode_utf8(value@),
                }),
            ),
    {
        self.push_part(
            Part {
                name: name.to_owned(),
                filename: None,
                content_type: Some("text/plain; charset=utf-8".to_owned()),
                data: copy_bytes(value.as_bytes()),
            },
        )
    }

    /// Add an in-memory byte field, optionally carrying a filename and media type.
    pub fn bytes(
        self,
        name: &str,
        filename: Option<&str>,
        content_type: Option<&str>,
        data: Vec<u8>,
    ) -> (r: MultipartForm)
        ensures
            r@ == self@.with_part(
                (PartView {
                    name: name@,
                    filename: optional_str(filename),
                    content_type: optional_str(content_type),
                    data: data@,
                }),
            ),
    {
        self.push_part(
            Part {
                name: name.to_owned(),
                filename: owned_text(filename),
                content_type: owned_text(content_type),
                data,
            },
        )
    }

    /// Add a bounded part from the bytes that a blocking reader delivered.
    ///
    /// A caller reads at most one byte more than `max_bytes`. The retained bytes make the
    /// eventual HTTP request replayable.
    pub fn blocking_reader(
        self,
        name: &str,
        filename: Option<String>,
        content_type: Option<String>,
        reader: &[u8],
        max_bytes: usize,
    ) -> (r: Result<MultipartForm, Error>)
        ensures
            match r {
                Ok(form) => reader@.len() <= max_bytes && form@ == self@.with_part(
                    (PartView {
                        name: name@,
                        filename: optional_text(filename),
                        content_type: optional_text(content_type),
                        data: reader@,
                    }),
                ),
                Err(e) => reader@.len() > max_bytes && e@ == failure(
                    ErrorKind::InvalidData,
                    "multipart part exceeds configured "@ + decimal(max_bytes as nat)
                        + "-byte preload limit"@,
                ),
            },
    {
        if reader.len() > max_bytes {
            let mut message = "multipart part exceeds configured ".to_owned();
            let limit = decimal_text(max_bytes as u128);
            message.append(limit.as_str());
            message.append("-byte preload limit");
            return Err(Error::with_message(ErrorKind::InvalidData, message));
        }
        Ok(
            self.push_part(
                Part { name: name.to_owned(), filename, content_type, data: copy_bytes(reader) },
            ),
        )
    }

    /// Boundary token used by this form.
    pub fn boundary(&self) -> (r: &str)
        ensures
            r@ == self@.boundary,
    {
        self.boundary.as_str()
    }

    /// Value for the HTTP `Content-Type` header.
    pub fn content_type(&self) -> (r: String)
        ensures
            r@ == "multipart/form-data; boundary="@ + self@.boundary,
    {
        let mut value = "multipart/form-data; boundary=".to_owned();
        value.append(self.boundary.as_str());
        value
    }

    fn part_head(&self, part: &Part) -> (r: Result<String, Error>)
        ensures
            match r {
                Ok(head) => part_failure(part@) is None && head@ == part_head_text(
                    self@.boundary,
                    part@,
                ),
                Err(e) => part_failure(part@) == Some(e@),
            },
    {
        validate_metadata("field name", part.name.as_str())?;
        let mut head = "--".to_owned();
        head.append(self.boundary.as_str());
        head.append("\r\nContent-Disposition: form-data; name=\"");
        let name = escape_quoted(part.name.as_str());
        head.append(name.as_str());
        head.append("\"");
        if let Some(filename) = &part.filename {
            validate_metadata("filename", filename.as_str())?;
            let quoted = escape_quoted(filename.as_str());
            head.append("; filename=\"");
            head.append(quoted.as_str());
            head.append("\"");
        }
        head.append("\r\n");
        if let Some(content_type) = &part.content_type {
            validate_metadata("content type", content_type.as_str())?;
            head.append("Content-Type: ");
            head.append(content_type.as_str());
            head.append("\r\n");
        }
        head.append("\r\n");
        Ok(head)
    }

    fn final_boundary(&self) -> (r: String)
        ensures
            r@ == final_boundary_text(self@.boundary),
    {
        let mut line = "--".to_owned();
        line.append(self.boundary.as_str());
        line.append("--\r\n");
        line
    }

    /// Compute the exact encoded body length without materializing the encoded body.
    pub fn content_length(&self) -> (r: Result<usize, Error>)
        ensures
            match r {
                Ok(n) => measured(self@) == Ok::<nat, ErrorView>(n as nat),
                Err(e) => measured(self@) == Err::<nat, ErrorView>(e@),
            },
            r matches Ok(n) ==> n == encoding(self@).len(),
            r is Ok <==> parts_failure(self@.parts) is None && encoding(self@).len() <= usize::MAX,
    {
        proof {
            lemma_length_is_encoded_length(self@);
            assert(self@.parts.take(0) =~= Seq::<PartView>::empty());
        }
        let mut length: usize = 0;
        let mut i: usize = 0;
        while i < self.parts.len()
            invariant
                i <= self.parts@.len(),
                self@.parts.len() == self.parts@.len(),
                measured_parts(self@.boundary, self@.parts.take(i as int)) == Ok::<nat, ErrorView>(
                    length as nat,
                ),
            decreases self.parts@.len() - i,
        {
            let part = &self.parts[i];
            proof {
                let upto = self@.parts.take(i + 1);
                assert(upto.drop_last() =~= self@.parts.take(i as int));
                assert(upto.last() == part@);
                lemma_measured_grows(self@.boundary, self@.parts, i + 1);
                lemma_length_is_encoded_length(self@);
            }
            let head = self.part_head(part)?;
            length = checked_add(length, head.as_str().as_bytes().len())?;
            length = checked_add(length, part.data.len())?;
            length = checked_add(length, 2)?;
            i += 1;
        }
        proof {
            assert(self@.parts.take(i as int) =~= self@.parts);
        }
        let closing = self.final_boundary();
        checked_add(length, closing.as_str().as_bytes().len())
    }

    fn validate(&self) -> (r: Result<(), Error>)
        ensures
            match r {
                Ok(_) => parts_failure(self@.parts) is None,
                Err(e) => parts_failure(self@.parts) == Some(e@),
            },
    {
        proof {
            assert(self@.parts.take(0) =~= Seq::<PartView>::empty());
        }
        let mut i: usize = 0;
        while i < self.parts.len()
            invariant
                i <= self.parts@.len(),
                self@.parts.len() == self.parts@.len(),
                parts_failure(self@.parts.take(i as int)) is None,
            decreases self.parts@.len() - i,
        {
            let part = &self.parts[i];
            proof {
                let upto = self@.parts.take(i + 1);
                assert(upto.drop_last() =~= self@.parts.take(i as int));
                assert(upto.last() == part@);
                lemma_failure_persists(self@.parts, i + 1);
            }
            let _head = self.part_head(part)?;
            i += 1;
        }
        proof {
            assert(self@.parts.take(i as int) =~= self@.parts);
        }
        Ok(())
    }

    /// The pieces in which the body is written, once the metadata of every field was validated.
    pub fn pieces(&self) -> (r: Result<Vec<Vec<u8>>, Error>)
        ensures
            match r {
                Ok(pieces) => parts_failure(self@.parts) is None && byte_views(pieces@)
                    == form_pieces(self@),
                Err(e) => parts_failure(self@.parts) == Some(e@),
            },
    {
        self.validate()?;
        let mut out: Vec<Vec<u8>> = Vec::new();
        let mut k: usize = 0;
        proof {
            assert(self@.parts.take(0) =~= Seq::<PartView>::empty());
            assert(byte_views(out@) =~= Seq::<Seq<u8>>::empty());
        }
        while k < self.parts.len()
            invariant
                k <= self.parts@.len(),
                self@.parts.len() == self.parts@.len(),
                parts_failure(self@.parts) is None,
                byte_views(out@) == parts_pieces(self@.boundary, self@.parts.take(k as int)),
            decreases self.parts@.len() - k,
        {
            let part = &self.parts[k];
            let ghost before = out@;
            proof {
                let upto = self@.parts.take(k + 1);
                assert(upto.drop_last() =~= self@.parts.take(k as int));
                assert(upto.last() == part@);
                lemma_prefix_is_sound(self@.parts, k + 1);
            }
            let head = self.part_head(part)?;
            let head_bytes = copy_bytes(head.as_str().as_bytes());
            let data = copy_bytes(part.data.as_slice());
            let mut line_end: Vec<u8> = Vec::new();
            line_end.push(0x0d);
            line_end.push(0x0a);
            proof {
                assert(line_end@ =~= crlf());
            }
            out.push(head_bytes);
            out.push(data);
            out.push(line_end);
            proof {
                assert(byte_views(out@) =~= byte_views(before).push(head_bytes@).push(data@).push(
                    line_end@,
                ));
            }
            k += 1;
        }
        proof {
            assert(self@.parts.take(k as int) =~= self@.parts);
        }
        let ghost before = out@;
        let closing = self.final_boundary();
        let last = copy_bytes(closing.as_str().as_bytes());
        out.push(last);
        proof {
            assert(byte_views(out@) =~= byte_views(before).push(last@));
        }
        Ok(out)
    }

    /// Append the encoded body to a writer's buffer.
    ///
    /// The metadata of every field is validated first: a rejected form appends nothing.
    pub fn write_to(&self, writer: &mut Vec<u8>) -> (r: Result<(), Error>)
        ensures
            match r {
                Ok(_) => parts_failure(self@.parts) is None && final(writer)@ == old(writer)@
                    + encoding(self@),
                Err(e) => parts_failure(self@.parts) == Some(e@) && final(writer)@ == old(
                    writer,
                )@,
            },
    {
        let pieces = self.pieces()?;
        let ghost views = byte_views(pieces@);
        let mut k: usize = 0;
        proof {
            assert(views.take(0) =~= Seq::<Seq<u8>>::empty());
            assert(writer@ =~= old(writer)@ + all_written(views.take(0)));
        }
        while k < pieces.len()
            invariant
                k <= pieces@.len(),
                views == byte_views(pieces@),
                writer@ == old(writer)@ + all_written(views.take(k as int)),
            decreases pieces@.len() - k,
        {
            proof {
                assert(views.take(k + 1).drop_last() =~= views.take(k as int));
                assert(views.take(k + 1).last() == pieces@[k as int]@);
            }
            push_bytes(writer, pieces[k].as_slice());
            proof {
                assert(writer@ =~= old(writer)@ + all_written(views.take(k + 1)));
            }
            k += 1;
        }
        proof {
            assert(views.take(k as int) =~= views);
            lemma_pieces_join_to_encoding(self@);
        }
        Ok(())
    }

    /// Encode the complete body into a byte vector.
    pub fn encode(&self) -> (r: Result<Vec<u8>, Error>)
        ensures
            match r {
                Ok(bytes) => measured(self@) is Ok && bytes@ == encoding(self@),
                Err(e) => measured(self@) == Err::<nat, ErrorView>(e@),
            },
    {
        let _length: usize = self.content_length()?;
        let mut encoded: Vec<u8> = Vec::new();
        self.write_to(&mut encoded)?;
        proof {
            assert(encoded@ =~= encoding(self@));
        }
        Ok(encoded)
    }
}

/// A failure of a prefix is the failure of the whole list.
proof fn lemma_failure_persists(parts: Seq<PartView>, n: int)
    requires
        0 <= n <= parts.len(),
    ensures
        parts_failure(parts.take(n)) matches Some(e) ==> parts_failure(parts) == Some(e),
    decreases parts.len() - n,
{
    if n == parts.len() {
        assert(parts.take(n) =~= parts);
    } else {
        lemma_failure_persists(parts, n + 1);
        assert(parts.take(n + 1).drop_last() =~= parts.take(n));
    }
}

/// A prefix that has no length leaves the whole list without one, for the same reason.
proof fn lemma_measured_grows(boundary: Seq<char>, parts: Seq<PartView>, n: int)
    requires
        0 <= n <= parts.len(),
    ensures
        measured_parts(boundary, parts.take(n)) matches Err(e) ==> measured_parts(boundary, parts)
            == Err::<nat, ErrorView>(e),
    decreases parts.len() - n,
{
    if n == parts.len() {
        assert(parts.take(n) =~= parts);
    } else {
        lemma_measured_grows(boundary, parts, n + 1);
        assert(parts.take(n + 1).drop_last() =~= parts.take(n));
    }
}

} // verus!

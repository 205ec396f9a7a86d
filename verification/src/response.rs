//! Response heads: decoding them and choosing the framing of the body.

use vstd::prelude::*;
use vstd::string::*;

use crate::body::BodyReader;
use crate::buffer::{BufferIo, BufferView};
use crate::error::{failure, Error, ErrorKind, ErrorView};
use crate::headers::{
    ascii_text, valid_name, valid_value, values_of, visible, visible_text, with_appended, FieldName,
    FieldValue, Headers, MAX_HEADER_NAMES,
};
use crate::list::{
    all_digits, digits_value, is_all_digits, items_of, list_items, number_of, texts,
};
use crate::message::Version;
use crate::shared::SharedStream;
use crate::text::{
    decimal, decimal_text, lowercase, lowercase_bytes, occurs_at, text_eq_ignore_case,
};

verus! {

pub const DEFAULT_MAX_RESPONSE_HEADER_BYTES: usize = 65536;

pub const MAX_RESPONSE_HEADERS: usize = 128;

/// What parsing received bytes as a response head comes to.
pub enum ParsedHead {
    /// The bytes are no response head, for the given reason.
    Failed(String),
    /// The head is not complete.
    Partial,
    /// The head ends after `used` bytes.
    Complete {
        used: usize,
        version: Option<u8>,
        code: Option<u16>,
        headers: Vec<(Vec<u8>, Vec<u8>)>,
    },
}

/// The mathematical side of a [`ParsedHead`].
pub enum HeadView {
    Failed(Seq<char>),
    Partial,
    Complete {
        used: nat,
        version: Option<u8>,
        code: Option<u16>,
        headers: Seq<(Seq<u8>, Seq<u8>)>,
    },
}

impl View for ParsedHead {
    type V = HeadView;

    open spec fn view(&self) -> HeadView {
        match self {
            ParsedHead::Failed(message) => HeadView::Failed(message@),
            ParsedHead::Partial => HeadView::Partial,
            ParsedHead::Complete { used, version, code, headers } => HeadView::Complete {
                used: *used as nat,
                version: *version,
                code: *code,
                headers: headers@.map_values(|h: (Vec<u8>, Vec<u8>)| (h.0@, h.1@)),
            },
        }
    }
}

/// What `httparse` makes of bytes as a response head, with a table for the given number of header
/// fields.
pub uninterp spec fn parsed_head(bytes: Seq<u8>, table: nat) -> HeadView;

/// `httparse::Response::parse` with a table for `table` header fields. A complete head lies within
/// the bytes, has a minor version of 0 or 1 and a status code, and no more fields than the table
/// holds.
#[verifier::external_body]
fn parse_head(bytes: &[u8], table: usize) -> (r: ParsedHead)
    requires
        table <= MAX_RESPONSE_HEADERS,
    ensures
        r@ == parsed_head(bytes@, table as nat),
        r matches ParsedHead::Complete { used, version, code, headers } ==> used <= bytes@.len()
            && (version == Some(0u8) || version == Some(1u8)) && code is Some && headers@.len()
            <= table,
{
    let mut headers = vec![httparse::EMPTY_HEADER; table];
    let mut parsed = httparse::Response::new(&mut headers);
    match parsed.parse(bytes) {
        Err(error) => ParsedHead::Failed(error.to_string()),
        Ok(httparse::Status::Partial) => ParsedHead::Partial,
        Ok(httparse::Status::Complete(used)) => ParsedHead::Complete {
            used,
            version: parsed.version,
            code: parsed.code,
            headers: parsed.headers.iter().map(
                |header| (header.name.as_bytes().to_vec(), header.value.to_vec()),
            ).collect(),
        },
    }
}

/// A response: its head, and how far its body has been received.
#[derive(Debug)]
pub struct Response {
    pub status: u16,
    pub version: Version,
    pub headers: Headers,
    pub body: BodyReader,
}

/// A blank line stands in the bytes, ending at `end`, and none ends earlier.
pub open spec fn head_end(bytes: Seq<u8>, end: int) -> bool {
    &&& occurs_at(bytes, blank_line(), end - 4)
    &&& forall|at: int| 0 <= at < end - 4 ==> !occurs_at(bytes, blank_line(), at)
}

pub open spec fn blank_line() -> Seq<u8> {
    seq![0x0du8, 0x0au8, 0x0du8, 0x0au8]
}

/// The head of a response is too long: it ends beyond the limit, or has not ended within it.
pub open spec fn over_limit(bytes: Seq<u8>, max: nat) -> bool {
    ||| exists|end: int| #[trigger] head_end(bytes, end) && end > max
    ||| (forall|at: int| !occurs_at(bytes, blank_line(), at)) && bytes.len() >= max
}

pub open spec fn limit_failure(max: nat) -> ErrorView {
    failure(
        ErrorKind::InvalidData,
        "HTTP response headers exceed configured "@ + decimal(max) + "-byte limit"@,
    )
}

/// The version behind a minor version number.
pub open spec fn version_of(minor: Option<u8>) -> Result<Version, ErrorView> {
    match minor {
        None => Err(failure(ErrorKind::InvalidData, "HTTP response missing version"@)),
        Some(n) => if n == 0 {
            Ok(Version::Http10)
        } else if n == 1 {
            Ok(Version::Http11)
        } else {
            Err(
                failure(
                    ErrorKind::InvalidData,
                    "unsupported HTTP response version: 1."@ + decimal(n as nat),
                ),
            )
        },
    }
}

/// The first thing that is wrong with a list of parsed fields, if anything is.
pub open spec fn fields_failure(fields: Seq<(Seq<u8>, Seq<u8>)>) -> Option<ErrorView>
    decreases fields.len(),
{
    if fields.len() == 0 {
        None
    } else {
        match fields_failure(fields.drop_last()) {
            Some(e) => Some(e),
            None => if !valid_name(fields.last().0) {
                Some(
                    failure(
                        ErrorKind::InvalidData,
                        "invalid HTTP response header name: "@ + "invalid HTTP header name"@,
                    ),
                )
            } else if !valid_value(fields.last().1) {
                Some(
                    failure(
                        ErrorKind::InvalidData,
                        "invalid HTTP response header value: "@ + "failed to parse header value"@,
                    ),
                )
            } else {
                None
            },
        }
    }
}

/// The fields of a head, added one by one to an empty map.
pub open spec fn fields_map(fields: Seq<(Seq<u8>, Seq<u8>)>) -> Seq<(Seq<char>, Seq<Seq<u8>>)>
    decreases fields.len(),
{
    if fields.len() == 0 {
        Seq::empty()
    } else {
        with_appended(
            fields_map(fields.drop_last()),
            ascii_text(lowercase_bytes(fields.last().0)),
            fields.last().1,
        )
    }
}

/// A response head without its body.
pub struct HeadFields {
    pub status: u16,
    pub version: Version,
    pub headers: Seq<(Seq<char>, Seq<Seq<u8>>)>,
}

/// What decoding comes to for a parsed head: the bytes consumed, and the head, its absence, or the
/// failure.
pub open spec fn decoded(head: HeadView) -> (nat, Result<Option<HeadFields>, ErrorView>) {
    match head {
        HeadView::Failed(message) => (
            0,
            Err(failure(ErrorKind::InvalidData, "failed to parse HTTP response: "@ + message)),
        ),
        HeadView::Partial => (0, Ok(None)),
        HeadView::Complete { used, version, code, headers } => match version_of(version) {
            Err(e) => (0, Err(e)),
            Ok(version) => match code {
                None => (
                    0,
                    Err(failure(ErrorKind::InvalidData, "HTTP response missing status code"@)),
                ),
                Some(status) => match fields_failure(headers) {
                    Some(e) => (0, Err(e)),
                    None => if status < 100 || status >= 1000 {
                        (
                            used,
                            Err(
                                failure(
                                    ErrorKind::Other,
                                    "failed to build http Response: http::Error(InvalidStatusCode)"@,
                                ),
                            ),
                        )
                    } else {
                        (
                            used,
                            Ok(
                                Some(
                                    HeadFields { status, version, headers: fields_map(headers) },
                                ),
                            ),
                        )
                    },
                },
            },
        },
    }
}

/// A decoding result states what `outcome` says.
pub open spec fn states(
    r: Result<Option<Response>, Error>,
    outcome: Result<Option<HeadFields>, ErrorView>,
) -> bool {
    match r {
        Ok(Some(response)) => {
            &&& outcome == Ok::<Option<HeadFields>, ErrorView>(
                Some(
                    HeadFields {
                        status: response.status,
                        version: response.version,
                        headers: response.headers@,
                    },
                ),
            )
            &&& response.headers.wf()
            &&& response.body == BodyReader::EmptyReader
        },
        Ok(None) => outcome == Ok::<Option<HeadFields>, ErrorView>(None),
        Err(e) => outcome == Err::<Option<HeadFields>, ErrorView>(e@),
    }
}

fn find_head_end(bytes: &[u8]) -> (r: Option<usize>)
    ensures
        match r {
            Some(end) => head_end(bytes@, end as int),
            None => forall|at: int| !occurs_at(bytes@, blank_line(), at),
        },
{
    if bytes.len() < 4 {
        return None;
    }
    let last: usize = bytes.len() - 4;
    let mut at: usize = 0;
    loop
        invariant
            at <= last,
            last == bytes@.len() - 4,
            forall|j: int| 0 <= j < at ==> !occurs_at(bytes@, blank_line(), j),
        decreases last - at,
    {
        let ghost window = bytes@.subrange(at as int, at + 4);
        if bytes[at] == 0x0d && bytes[at + 1] == 0x0a && bytes[at + 2] == 0x0d && bytes[at + 3]
            == 0x0a {
            proof {
                assert(window =~= blank_line());
                assert(occurs_at(bytes@, blank_line(), at as int));
            }
            return Some(at + 4);
        }
        proof {
            assert(window[0] == bytes@[at as int] && window[1] == bytes@[at + 1] && window[2]
                == bytes@[at + 2] && window[3] == bytes@[at + 3]);
            assert(!occurs_at(bytes@, blank_line(), at as int));
        }
        if at == last {
            return None;
        }
        at += 1;
    }
}

/// Turn parsed fields into a header map.
fn build_fields(fields: &Vec<(Vec<u8>, Vec<u8>)>) -> (r: Result<Headers, Error>)
    requires
        fields@.len() < MAX_HEADER_NAMES,
    ensures
        ({
            let views = fields@.map_values(|h: (Vec<u8>, Vec<u8>)| (h.0@, h.1@));
            match r {
                Ok(headers) => fields_failure(views) is None && headers@ == fields_map(views)
                    && headers.wf(),
                Err(e) => fields_failure(views) == Some(e@),
            }
        }),
{
    let ghost views = fields@.map_values(|h: (Vec<u8>, Vec<u8>)| (h.0@, h.1@));
    let mut headers = Headers::new();
    let mut i: usize = 0;
    proof {
        assert(views.take(0) =~= Seq::<(Seq<u8>, Seq<u8>)>::empty());
    }
    while i < fields.len()
        invariant
            i <= fields@.len() < MAX_HEADER_NAMES,
            views == fields@.map_values(|h: (Vec<u8>, Vec<u8>)| (h.0@, h.1@)),
            fields_failure(views.take(i as int)) is None,
            headers@ == fields_map(views.take(i as int)),
            headers@.len() <= i,
            headers.wf(),
        decreases fields@.len() - i,
    {
        let field = &fields[i];
        proof {
            let upto = views.take(i + 1);
            assert(upto.drop_last() =~= views.take(i as int));
            assert(upto.last() == (field.0@, field.1@));
            lemma_fields_failure_persists(views, i + 1);
        }
        let name = match FieldName::from_bytes(field.0.as_slice()) {
            Ok(name) => name,
            Err(reason) => {
                let mut message = "invalid HTTP response header name: ".to_owned();
                message.append(reason.as_str());
                return Err(Error::with_message(ErrorKind::InvalidData, message));
            },
        };
        let value = match FieldValue::from_bytes(field.1.as_slice()) {
            Ok(value) => value,
            Err(reason) => {
                let mut message = "invalid HTTP response header value: ".to_owned();
                message.append(reason.as_str());
                return Err(Error::with_message(ErrorKind::InvalidData, message));
            },
        };
        headers.append(&name, &value);
        i += 1;
    }
    proof {
        assert(views.take(i as int) =~= views);
    }
    Ok(headers)
}

proof fn lemma_fields_failure_persists(fields: Seq<(Seq<u8>, Seq<u8>)>, n: int)
    requires
        0 <= n <= fields.len(),
    ensures
        fields_failure(fields.take(n)) matches Some(e) ==> fields_failure(fields) == Some(e),
    decreases fields.len() - n,
{
    if n == fields.len() {
        assert(fields.take(n) =~= fields);
    } else {
        lemma_fields_failure_persists(fields, n + 1);
        assert(fields.take(n + 1).drop_last() =~= fields.take(n));
    }
}

/// Take a parsed head from the received bytes and build the response.
pub fn take_head(buf: &mut BufferIo, head: ParsedHead) -> (r: Result<Option<Response>, Error>)
    requires
        head matches ParsedHead::Complete { used, headers, .. } ==> used <= old(buf)@.input.len()
            && headers@.len() < MAX_HEADER_NAMES,
    ensures
        final(buf)@ == (BufferView {
            input: old(buf)@.input.skip(decoded(head@).0 as int),
            ..old(buf)@
        }),
        states(r, decoded(head@).1),
{
    proof {
        assert(buf@.input.skip(0) =~= buf@.input);
    }
    match head {
        ParsedHead::Failed(reason) => {
            let mut message = "failed to parse HTTP response: ".to_owned();
            message.append(reason.as_str());
            Err(Error::with_message(ErrorKind::InvalidData, message))
        },
        ParsedHead::Partial => Ok(None),
        ParsedHead::Complete { used, version, code, headers: fields } => {
            let version = match version {
                None => {
                    return Err(
                        Error::new(ErrorKind::InvalidData, "HTTP response missing version"),
                    );
                },
                Some(n) => if n == 0 {
                    Version::Http10
                } else if n == 1 {
                    Version::Http11
                } else {
                    let mut message = "unsupported HTTP response version: 1.".to_owned();
                    let minor = decimal_text(n as u128);
                    message.append(minor.as_str());
                    return Err(Error::with_message(ErrorKind::InvalidData, message));
                },
            };
            let status = match code {
                None => {
                    return Err(
                        Error::new(ErrorKind::InvalidData, "HTTP response missing status code"),
                    );
                },
                Some(status) => status,
            };
            let headers = match build_fields(&fields) {
                Ok(headers) => headers,
                Err(e) => {
                    return Err(e);
                },
            };
            buf.consume(used);
            if status < 100 || status >= 1000 {
                return Err(
                    Error::new(
                        ErrorKind::Other,
                        "failed to build http Response: http::Error(InvalidStatusCode)",
                    ),
                );
            }
            Ok(Some(Response { status, version, headers, body: BodyReader::EmptyReader }))
        },
    }
}

/// Decode a response head with the default limit.
pub fn decode(buf: &mut BufferIo) -> (r: Result<Option<Response>, Error>)
    ensures
        decoded_with_limit(
            old(buf)@,
            final(buf)@,
            DEFAULT_MAX_RESPONSE_HEADER_BYTES as nat,
            r,
        ),
{
    decode_with_limit(buf, DEFAULT_MAX_RESPONSE_HEADER_BYTES)
}

/// What decoding with a limit does: a head over the limit is refused; otherwise the head is what
/// the parser makes of the received bytes, and exactly its bytes are consumed: what is left is the
/// tail behind them.
pub open spec fn decoded_with_limit(
    before: BufferView,
    after: BufferView,
    max: nat,
    r: Result<Option<Response>, Error>,
) -> bool {
    if over_limit(before.input, max) {
        &&& r is Err
        &&& r->Err_0@ == limit_failure(max)
        &&& after == before
    } else {
        let (used, outcome) = decoded(parsed_head(before.input, MAX_RESPONSE_HEADERS as nat));
        &&& used <= before.input.len()
        &&& states(r, outcome)
        &&& after == (BufferView { input: before.input.skip(used as int), ..before })
    }
}

/// Decode a response head from the received bytes. Nothing is returned while it is incomplete.
pub fn decode_with_limit(buf: &mut BufferIo, max_header_bytes: usize) -> (r: Result<
    Option<Response>,
    Error,
>)
    ensures
        decoded_with_limit(old(buf)@, final(buf)@, max_header_bytes as nat, r),
{
    let bytes = buf.get_reader_buf();
    let end = find_head_end(bytes);
    let over = match end {
        Some(end) => {
            proof {
                lemma_one_head_end(bytes@);
            }
            end > max_header_bytes
        },
        None => bytes.len() >= max_header_bytes,
    };
    proof {
        if over {
            match end {
                Some(end) => {
                    assert(head_end(bytes@, end as int));
                },
                None => {},
            }
        } else {
            match end {
                Some(end) => {
                    assert(occurs_at(bytes@, blank_line(), end - 4));
                },
                None => {
                    assert forall|end: int| !#[trigger] head_end(bytes@, end) by {}
                },
            }
        }
        assert(over == over_limit(bytes@, max_header_bytes as nat));
    }
    if over {
        let mut message = "HTTP response headers exceed configured ".to_owned();
        let limit = decimal_text(max_header_bytes as u128);
        message.append(limit.as_str());
        message.append("-byte limit");
        return Err(Error::with_message(ErrorKind::InvalidData, message));
    }
    let head = parse_head(bytes, MAX_RESPONSE_HEADERS);
    take_head(buf, head)
}

/// The end of a head is unique.
proof fn lemma_one_head_end(bytes: Seq<u8>)
    ensures
        forall|a: int, b: int| #[trigger]
            head_end(bytes, a) && #[trigger] head_end(bytes, b) ==> a == b,
{
}

/// The failure of a Content-Length field whose bytes are not text.
pub open spec fn unreadable(field: Seq<char>) -> ErrorView {
    failure(
        ErrorKind::InvalidData,
        "malformed "@ + field + ": failed to convert header to a str"@,
    )
}

/// The length that one item of a Content-Length field states.
pub open spec fn item_length(item: Seq<char>) -> Result<nat, ErrorView> {
    if item.len() == 0 || !all_digits(item) {
        Err(failure(ErrorKind::InvalidData, "malformed Content-Length"@))
    } else if digits_value(item) > usize::MAX {
        Err(
            failure(
                ErrorKind::InvalidData,
                "malformed Content-Length: number too large to fit in target type"@,
            ),
        )
    } else {
        Ok(digits_value(item))
    }
}

/// The length that a list of items states, after `known` was stated before: all of them state the
/// same one.
pub open spec fn items_length(items: Seq<Seq<char>>, known: Option<nat>) -> Result<
    Option<nat>,
    ErrorView,
>
    decreases items.len(),
{
    if items.len() == 0 {
        Ok(known)
    } else {
        match items_length(items.drop_last(), known) {
            Err(e) => Err(e),
            Ok(before) => match item_length(items.last()) {
                Err(e) => Err(e),
                Ok(n) => if before is Some && before != Some(n) {
                    Err(failure(ErrorKind::InvalidData, "conflicting Content-Length values"@))
                } else {
                    Ok(Some(n))
                },
            },
        }
    }
}

/// The length that the values of the Content-Length fields state.
pub open spec fn values_length(values: Seq<Seq<u8>>) -> Result<Option<nat>, ErrorView>
    decreases values.len(),
{
    if values.len() == 0 {
        Ok(None)
    } else {
        match values_length(values.drop_last()) {
            Err(e) => Err(e),
            Ok(known) => if !visible(values.last()) {
                Err(unreadable("Content-Length"@))
            } else {
                items_length(list_items(ascii_text(values.last())), known)
            },
        }
    }
}

/// The transfer codings that the values of the Transfer-Encoding fields name.
pub open spec fn values_codings(values: Seq<Seq<u8>>) -> Result<Seq<Seq<char>>, ErrorView>
    decreases values.len(),
{
    if values.len() == 0 {
        Ok(Seq::empty())
    } else {
        match values_codings(values.drop_last()) {
            Err(e) => Err(e),
            Ok(codings) => if !visible(values.last()) {
                Err(unreadable("Transfer-Encoding"@))
            } else {
                Ok(codings + present(list_items(ascii_text(values.last()))))
            },
        }
    }
}

/// The items that are not empty.
pub open spec fn present(items: Seq<Seq<char>>) -> Seq<Seq<char>> {
    items.filter(|item: Seq<char>| item.len() > 0)
}

/// Whether the body is chunked: the only coding is `chunked`, or there is none.
pub open spec fn values_chunked(values: Seq<Seq<u8>>) -> Result<bool, ErrorView> {
    match values_codings(values) {
        Err(e) => Err(e),
        Ok(codings) => if codings.len() == 0 {
            Ok(false)
        } else if codings.len() == 1 && lowercase(codings[0]) == lowercase("chunked"@) {
            Ok(true)
        } else {
            Err(
                failure(
                    ErrorKind::InvalidData,
                    "unsupported or invalid HTTP Transfer-Encoding; only chunked is supported"@,
                ),
            )
        },
    }
}

/// The framing of a response body.
pub open spec fn framing(
    status: u16,
    headers: Seq<(Seq<char>, Seq<Seq<u8>>)>,
    expect_body: bool,
) -> Result<BodyReader, ErrorView> {
    match values_length(values_of(headers, "content-length"@)) {
        Err(e) => Err(e),
        Ok(length) => match values_chunked(values_of(headers, "transfer-encoding"@)) {
            Err(e) => Err(e),
            Ok(chunked) => if length is Some && chunked {
                Err(
                    failure(
                        ErrorKind::InvalidData,
                        "HTTP response contains both Transfer-Encoding and Content-Length"@,
                    ),
                )
            } else if status == 204 && length is Some && length != Some(0nat) {
                Err(
                    failure(
                        ErrorKind::InvalidData,
                        "204 response contains a non-zero Content-Length"@,
                    ),
                )
            } else if !expect_body || 100 <= status < 200 || status == 204 || status == 304 {
                Ok(BodyReader::EmptyReader)
            } else if length is Some {
                Ok(BodyReader::SizedReader(length->0 as usize))
            } else if chunked {
                Ok(BodyReader::ChunkReader(None))
            } else {
                Ok(BodyReader::EofReader(true))
            },
        },
    }
}

/// The items that the values of a field list, for values that are text.
pub open spec fn stated_items(value: Seq<u8>) -> Seq<Seq<char>> {
    list_items(ascii_text(value))
}

proof fn lemma_items_agree(items: Seq<Seq<char>>, known: Option<nat>, n: nat)
    requires
        items_length(items, known) == Ok::<Option<nat>, ErrorView>(Some(n)),
    ensures
        known is Some ==> known == Some(n),
        forall|i: int|
            0 <= i < items.len() ==> item_length(#[trigger] items[i]) == Ok::<nat, ErrorView>(n),
    decreases items.len(),
{
    if items.len() > 0 {
        let before = items_length(items.drop_last(), known);
        assert(item_length(items.last()) == Ok::<nat, ErrorView>(n));
        if before == Ok::<Option<nat>, ErrorView>(Some(n)) {
            lemma_items_agree(items.drop_last(), known, n);
            assert forall|i: int| 0 <= i < items.len() implies item_length(#[trigger] items[i])
                == Ok::<nat, ErrorView>(n) by {
                if i < items.len() - 1 {
                    assert(items.drop_last()[i] == items[i]);
                }
            }
        } else {
            lemma_items_none(items.drop_last(), known);
        }
    }
}

proof fn lemma_items_none(items: Seq<Seq<char>>, known: Option<nat>)
    ensures
        items_length(items, known) == Ok::<Option<nat>, ErrorView>(None) ==> items.len() == 0
            && known is None,
    decreases items.len(),
{
}

/// Repeated Content-Length values are accepted only where all of them state the same length.
pub proof fn lemma_content_lengths_agree(values: Seq<Seq<u8>>, n: nat)
    requires
        values_length(values) == Ok::<Option<nat>, ErrorView>(Some(n)),
    ensures
        forall|i: int, k: int|
            0 <= i < values.len() && 0 <= k < stated_items(values[i]).len() ==> item_length(
                #[trigger] stated_items(values[i])[k],
            ) == Ok::<nat, ErrorView>(n),
    decreases values.len(),
{
    if values.len() > 0 {
        let before = values_length(values.drop_last());
        let last = stated_items(values.last());
        let known = before->Ok_0;
        lemma_items_agree(last, known, n);
        if known is Some {
            lemma_content_lengths_agree(values.drop_last(), n);
        } else {
            lemma_values_none(values.drop_last());
        }
        assert forall|i: int, k: int|
            0 <= i < values.len() && 0 <= k < stated_items(values[i]).len() implies item_length(
            #[trigger] stated_items(values[i])[k],
        ) == Ok::<nat, ErrorView>(n) by {
            if i < values.len() - 1 {
                assert(values.drop_last()[i] == values[i]);
            }
        }
    }
}

proof fn lemma_values_none(values: Seq<Seq<u8>>)
    ensures
        values_length(values) == Ok::<Option<nat>, ErrorView>(None) ==> values.len() == 0,
    decreases values.len(),
{
    if values.len() > 0 {
        crate::list::lemma_list_is_not_empty(ascii_text(values.last()));
        if let Ok(known) = values_length(values.drop_last()) {
            lemma_items_none(stated_items(values.last()), known);
        }
    }
}

/// Content-Length values that state different lengths are rejected.
pub proof fn lemma_conflicting_lengths_are_rejected(
    values: Seq<Seq<u8>>,
    i: int,
    k: int,
    j: int,
    l: int,
)
    requires
        0 <= i < values.len(),
        0 <= k < stated_items(values[i]).len(),
        0 <= j < values.len(),
        0 <= l < stated_items(values[j]).len(),
        item_length(stated_items(values[i])[k]) != item_length(stated_items(values[j])[l]),
    ensures
        values_length(values) is Err,
{
    match values_length(values) {
        Ok(Some(n)) => {
            lemma_content_lengths_agree(values, n);
        },
        Ok(None) => {
            lemma_values_none(values);
        },
        Err(_) => {},
    }
}

proof fn lemma_equal_items(items: Seq<Seq<char>>, known: Option<nat>, n: nat)
    requires
        known is None || known == Some(n),
        items.len() > 0,
        forall|i: int|
            0 <= i < items.len() ==> item_length(#[trigger] items[i]) == Ok::<nat, ErrorView>(n),
    ensures
        items_length(items, known) == Ok::<Option<nat>, ErrorView>(Some(n)),
    decreases items.len(),
{
    assert(item_length(items[items.len() - 1]) == Ok::<nat, ErrorView>(n));
    if items.len() > 1 {
        assert forall|i: int| 0 <= i < items.len() - 1 implies item_length(
            #[trigger] items.drop_last()[i],
        ) == Ok::<nat, ErrorView>(n) by {
            assert(items.drop_last()[i] == items[i]);
        }
        lemma_equal_items(items.drop_last(), known, n);
    } else {
        assert(items.drop_last().len() == 0);
    }
}

/// Repeated Content-Length values that all state the same length are accepted.
pub proof fn lemma_equal_lengths_are_accepted(values: Seq<Seq<u8>>, n: nat)
    requires
        values.len() > 0,
        forall|i: int| 0 <= i < values.len() ==> visible(#[trigger] values[i]),
        forall|i: int, k: int|
            0 <= i < values.len() && 0 <= k < stated_items(values[i]).len() ==> item_length(
                #[trigger] stated_items(values[i])[k],
            ) == Ok::<nat, ErrorView>(n),
    ensures
        values_length(values) == Ok::<Option<nat>, ErrorView>(Some(n)),
    decreases values.len(),
{
    let last = values.len() - 1;
    assert(visible(values[last]));
    crate::list::lemma_list_is_not_empty(ascii_text(values[last]));
    let items = stated_items(values[last]);
    assert forall|k: int| 0 <= k < items.len() implies item_length(#[trigger] items[k]) == Ok::<
        nat,
        ErrorView,
    >(n) by {
        assert(item_length(stated_items(values[last])[k]) == Ok::<nat, ErrorView>(n));
    }
    if values.len() > 1 {
        let before = values.drop_last();
        assert forall|i: int| 0 <= i < before.len() implies visible(#[trigger] before[i]) by {
            assert(before[i] == values[i]);
        }
        assert forall|i: int, k: int|
            0 <= i < before.len() && 0 <= k < stated_items(before[i]).len() implies item_length(
            #[trigger] stated_items(before[i])[k],
        ) == Ok::<nat, ErrorView>(n) by {
            assert(before[i] == values[i]);
        }
        lemma_equal_lengths_are_accepted(before, n);
        lemma_equal_items(items, Some(n), n);
    } else {
        assert(values.drop_last().len() == 0);
        lemma_equal_items(items, None, n);
    }
}

fn unreadable_field(field: &str) -> (r: Error)
    ensures
        r@ == unreadable(field@),
{
    let mut message = "malformed ".to_owned();
    message.append(field);
    message.append(": failed to convert header to a str");
    Error::with_message(ErrorKind::InvalidData, message)
}

fn parse_item_length(item: &[char]) -> (r: Result<usize, Error>)
    ensures
        match r {
            Ok(n) => item_length(item@) == Ok::<nat, ErrorView>(n as nat),
            Err(e) => item_length(item@) == Err::<nat, ErrorView>(e@),
        },
{
    if item.len() == 0 || !is_all_digits(item) {
        return Err(Error::new(ErrorKind::InvalidData, "malformed Content-Length"));
    }
    match number_of(item) {
        Some(n) => Ok(n),
        None => Err(
            Error::new(
                ErrorKind::InvalidData,
                "malformed Content-Length: number too large to fit in target type",
            ),
        ),
    }
}

/// The number behind an optional machine word.
pub open spec fn optional_nat(n: Option<usize>) -> Option<nat> {
    match n {
        Some(n) => Some(n as nat),
        None => None,
    }
}

proof fn lemma_items_failure_persists(items: Seq<Seq<char>>, known: Option<nat>, n: int)
    requires
        0 <= n <= items.len(),
    ensures
        items_length(items.take(n), known) matches Err(e) ==> items_length(items, known) == Err::<
            Option<nat>,
            ErrorView,
        >(e),
    decreases items.len() - n,
{
    if n == items.len() {
        assert(items.take(n) =~= items);
    } else {
        lemma_items_failure_persists(items, known, n + 1);
        assert(items.take(n + 1).drop_last() =~= items.take(n));
    }
}

fn parse_items_length(items: &Vec<Vec<char>>, known: Option<usize>) -> (r: Result<
    Option<usize>,
    Error,
>)
    ensures
        match r {
            Ok(length) => items_length(texts(items@), optional_nat(known)) == Ok::<
                Option<nat>,
                ErrorView,
            >(optional_nat(length)),
            Err(e) => items_length(texts(items@), optional_nat(known)) == Err::<
                Option<nat>,
                ErrorView,
            >(e@),
        },
{
    let ghost views = texts(items@);
    let mut parsed = known;
    let mut i: usize = 0;
    proof {
        assert(views.take(0) =~= Seq::<Seq<char>>::empty());
    }
    while i < items.len()
        invariant
            i <= items@.len(),
            views == texts(items@),
            items_length(views.take(i as int), optional_nat(known)) == Ok::<Option<nat>, ErrorView>(
                optional_nat(parsed),
            ),
        decreases items@.len() - i,
    {
        proof {
            assert(views.take(i + 1).drop_last() =~= views.take(i as int));
            assert(views.take(i + 1).last() == items@[i as int]@);
            lemma_items_failure_persists(views, optional_nat(known), i + 1);
        }
        let length: usize = match parse_item_length(items[i].as_slice()) {
            Ok(n) => n,
            Err(e) => {
                return Err(e);
            },
        };
        if let Some(previous) = parsed {
            if previous != length {
                return Err(
                    Error::new(ErrorKind::InvalidData, "conflicting Content-Length values"),
                );
            }
        }
        parsed = Some(length);
        i += 1;
    }
    proof {
        assert(views.take(i as int) =~= views);
    }
    Ok(parsed)
}

proof fn lemma_values_failure_persists(values: Seq<Seq<u8>>, n: int)
    requires
        0 <= n <= values.len(),
    ensures
        values_length(values.take(n)) matches Err(e) ==> values_length(values) == Err::<
            Option<nat>,
            ErrorView,
        >(e),
        values_codings(values.take(n)) matches Err(e) ==> values_codings(values) == Err::<
            Seq<Seq<char>>,
            ErrorView,
        >(e),
    decreases values.len() - n,
{
    if n == values.len() {
        assert(values.take(n) =~= values);
    } else {
        lemma_values_failure_persists(values, n + 1);
        assert(values.take(n + 1).drop_last() =~= values.take(n));
    }
}

/// The body length that the Content-Length fields state.
pub fn parse_content_length(headers: &Headers) -> (r: Result<Option<usize>, Error>)
    ensures
        match r {
            Ok(length) => values_length(values_of(headers@, "content-length"@)) == Ok::<
                Option<nat>,
                ErrorView,
            >(optional_nat(length)),
            Err(e) => values_length(values_of(headers@, "content-length"@)) == Err::<
                Option<nat>,
                ErrorView,
            >(e@),
        },
{
    let values = headers.get_all(&FieldName::content_length());
    let ghost views = values@.map_values(|value: Vec<u8>| value@);
    let mut parsed: Option<usize> = None;
    let mut i: usize = 0;
    proof {
        assert(views.take(0) =~= Seq::<Seq<u8>>::empty());
    }
    while i < values.len()
        invariant
            i <= values@.len(),
            views == values@.map_values(|value: Vec<u8>| value@),
            views == values_of(headers@, "content-length"@),
            values_length(views.take(i as int)) == Ok::<Option<nat>, ErrorView>(
                optional_nat(parsed),
            ),
        decreases values@.len() - i,
    {
        proof {
            assert(views.take(i + 1).drop_last() =~= views.take(i as int));
            assert(views.take(i + 1).last() == values@[i as int]@);
            lemma_values_failure_persists(views, i + 1);
        }
        let text = match visible_text(values[i].as_slice()) {
            Some(text) => text,
            None => {
                return Err(unreadable_field("Content-Length"));
            },
        };
        let items = items_of(text.as_slice());
        parsed =
        match parse_items_length(&items, parsed) {
            Ok(length) => length,
            Err(e) => {
                return Err(e);
            },
        };
        i += 1;
    }
    proof {
        assert(views.take(i as int) =~= views);
    }
    Ok(parsed)
}

fn push_present(codings: &mut Vec<Vec<char>>, items: Vec<Vec<char>>)
    ensures
        texts(final(codings)@) == texts(old(codings)@) + present(texts(items@)),
{
    let ghost views = texts(items@);
    let ghost keep = |item: Seq<char>| item.len() > 0;
    let mut i: usize = 0;
    proof {
        assert(views.take(0) =~= Seq::<Seq<char>>::empty());
        reveal(Seq::filter);
        assert(texts(codings@) + present(views.take(0)) =~= texts(codings@));
    }
    while i < items.len()
        invariant
            i <= items@.len(),
            views == texts(items@),
            keep == |item: Seq<char>| item.len() > 0,
            texts(codings@) == texts(old(codings)@) + views.take(i as int).filter(keep),
        decreases items@.len() - i,
    {
        let ghost before = codings@;
        proof {
            assert(views.take(i + 1).drop_last() =~= views.take(i as int));
            assert(views.take(i + 1).last() == items@[i as int]@);
            reveal(Seq::filter);
        }
        if items[i].len() > 0 {
            let item = items[i].clone();
            proof {
                assert(item@ =~= items@[i as int]@);
            }
            codings.push(item);
            proof {
                assert(texts(codings@) =~= texts(before).push(item@));
                assert(texts(old(codings)@) + views.take(i as int).filter(keep).push(item@)
                    =~= texts(codings@));
            }
        }
        i += 1;
    }
    proof {
        assert(views.take(i as int) =~= views);
    }
}

/// Whether the Transfer-Encoding fields say that the body is chunked.
pub fn parse_transfer_encoding(headers: &Headers) -> (r: Result<bool, Error>)
    ensures
        match r {
            Ok(chunked) => values_chunked(values_of(headers@, "transfer-encoding"@)) == Ok::<
                bool,
                ErrorView,
            >(chunked),
            Err(e) => values_chunked(values_of(headers@, "transfer-encoding"@)) == Err::<
                bool,
                ErrorView,
            >(e@),
        },
{
    let values = headers.get_all(&FieldName::transfer_encoding());
    let ghost views = values@.map_values(|value: Vec<u8>| value@);
    let mut codings: Vec<Vec<char>> = Vec::new();
    let mut i: usize = 0;
    proof {
        assert(views.take(0) =~= Seq::<Seq<u8>>::empty());
        assert(texts(codings@) =~= Seq::<Seq<char>>::empty());
    }
    while i < values.len()
        invariant
            i <= values@.len(),
            views == values@.map_values(|value: Vec<u8>| value@),
            views == values_of(headers@, "transfer-encoding"@),
            values_codings(views.take(i as int)) == Ok::<Seq<Seq<char>>, ErrorView>(
                texts(codings@),
            ),
        decreases values@.len() - i,
    {
        proof {
            assert(views.take(i + 1).drop_last() =~= views.take(i as int));
            assert(views.take(i + 1).last() == values@[i as int]@);
            lemma_values_failure_persists(views, i + 1);
        }
        let text = match visible_text(values[i].as_slice()) {
            Some(text) => text,
            None => {
                return Err(unreadable_field("Transfer-Encoding"));
            },
        };
        push_present(&mut codings, items_of(text.as_slice()));
        i += 1;
    }
    proof {
        assert(views.take(i as int) =~= views);
        assert(texts(codings@).len() == codings@.len());
    }
    if codings.len() == 0 {
        return Ok(false);
    }
    proof {
        assert(texts(codings@)[0] == codings@[0]@);
    }
    if codings.len() == 1 {
        let coding = crate::text::string_of(codings[0].as_slice());
        if text_eq_ignore_case(coding.as_str(), "chunked") {
            return Ok(true);
        }
    }
    Err(
        Error::new(
            ErrorKind::InvalidData,
            "unsupported or invalid HTTP Transfer-Encoding; only chunked is supported",
        ),
    )
}

impl Response {
    /// Choose how the body is framed and note on the connection whether it is still to come.
    pub fn set_reader(&mut self, reader: &mut SharedStream, expect_body: bool) -> (r: Result<
        (),
        Error,
    >)
        ensures
            final(self).status == old(self).status,
            final(self).version == old(self).version,
            final(self).headers == old(self).headers,
            final(reader).buffer == old(reader).buffer,
            match r {
                Ok(_) => {
                    &&& framing(old(self).status, old(self).headers@, expect_body) == Ok::<
                        BodyReader,
                        ErrorView,
                    >(final(self).body)
                    &&& final(reader).response_pending == !(final(self).body
                        == BodyReader::EmptyReader || final(self).body
                        == BodyReader::SizedReader(0))
                },
                Err(e) => {
                    &&& framing(old(self).status, old(self).headers@, expect_body) == Err::<
                        BodyReader,
                        ErrorView,
                    >(e@)
                    &&& *final(self) == *old(self)
                    &&& *final(reader) == *old(reader)
                },
            },
    {
        let content_length = match parse_content_length(&self.headers) {
            Ok(length) => length,
            Err(e) => {
                return Err(e);
            },
        };
        let chunked = match parse_transfer_encoding(&self.headers) {
            Ok(chunked) => chunked,
            Err(e) => {
                return Err(e);
            },
        };
        if content_length.is_some() && chunked {
            return Err(
                Error::new(
                    ErrorKind::InvalidData,
                    "HTTP response contains both Transfer-Encoding and Content-Length",
                ),
            );
        }
        let status_forbids_body = (100 <= self.status && self.status < 200) || self.status == 204
            || self.status == 304;
        if let Some(n) = content_length {
            if self.status == 204 && n != 0 {
                return Err(
                    Error::new(
                        ErrorKind::InvalidData,
                        "204 response contains a non-zero Content-Length",
                    ),
                );
            }
        }
        if !expect_body || status_forbids_body {
            reader.mark_response_complete();
            self.body = BodyReader::EmptyReader;
            return Ok(());
        }
        match content_length {
            Some(n) => {
                if n == 0 {
                    reader.mark_response_complete();
                } else {
                    reader.mark_response_pending();
                }
                self.body = BodyReader::SizedReader(n);
            },
            None => {
                reader.mark_response_pending();
                self.body =
                if chunked {
                    BodyReader::ChunkReader(None)
                } else {
                    BodyReader::EofReader(true)
                };
            },
        }
        Ok(())
    }

    /// Give the body up.
    pub fn abandon_body(&mut self)
        ensures
            final(self).body == old(self).body.given_up(),
            final(self).body.complete(),
            final(self).status == old(self).status,
            final(self).version == old(self).version,
            final(self).headers == old(self).headers,
    {
        self.body.abandon();
    }

    /// Whether the body was received to its end, or given up.
    pub fn body_complete(&self) -> (r: bool)
        ensures
            r == self.body.complete(),
    {
        self.body.is_complete()
    }
}

} // verus!

//! How response bodies are framed.

use vstd::prelude::*;

use crate::body::body_reader::BodyReader;
use crate::body::framing::{
    chunked, drained, joined, last_chunk, lemma_chunked_round_trip, lemma_sized_round_trip, Drained,
};
use crate::error::{ErrorKind, ErrorView};
use crate::headers::{ascii_text, values_of, visible};
use crate::laws::lists::{
    lemma_decimal_is_read_back, lemma_words_in_any_case, printable, writes_word,
};
use crate::list::list_items;
use crate::response::{
    framing, item_length, lemma_content_lengths_agree, lemma_equal_lengths_are_accepted, present,
    stated_items, values_codings, values_length,
};
use crate::text::{decimal, lowercase};

verus! {

/// A response has no body exactly where the request asked for none, or its status is 1xx, 204 or
/// 304.
pub proof fn lemma_body_is_absent(
    status: u16,
    headers: Seq<(Seq<char>, Seq<Seq<u8>>)>,
    expect_body: bool,
)
    requires
        framing(status, headers, expect_body) is Ok,
    ensures
        framing(status, headers, expect_body)->Ok_0 is EmptyReader <==> (!expect_body || (100
            <= status && status <= 199) || status == 204 || status == 304),
{
}

/// The status decides nothing else: two responses with the same fields, whose statuses both allow
/// a body, are framed alike.
pub proof fn lemma_fields_frame_the_body(
    a: u16,
    b: u16,
    headers: Seq<(Seq<char>, Seq<Seq<u8>>)>,
)
    requires
        !(100 <= a && a <= 199) && a != 204 && a != 304,
        !(100 <= b && b <= 199) && b != 204 && b != 304,
    ensures
        framing(a, headers, true) == framing(b, headers, true),
{
}

/// A response without a body is refused exactly where the same fields would be refused of one with
/// a body, but for a 204 response that states a length other than zero.
pub proof fn lemma_refusals_do_not_depend_on_the_request(
    status: u16,
    headers: Seq<(Seq<char>, Seq<Seq<u8>>)>,
)
    ensures
        framing(status, headers, false) is Err <==> framing(status, headers, true) is Err,
        status != 204 ==> (framing(status, headers, true) is Err <==> framing(
            200,
            headers,
            true,
        ) is Err),
        status == 204 ==> (framing(status, headers, true) is Ok <==> (framing(
            200,
            headers,
            true,
        ) matches Ok(reader) && (reader matches BodyReader::SizedReader(n) ==> n == 0))),
{
    if let Ok(Some(n)) = values_length(values_of(headers, "content-length"@)) {
        lemma_length_fits(values_of(headers, "content-length"@), n);
    }
}

proof fn lemma_length_fits(values: Seq<Seq<u8>>, n: nat)
    requires
        values_length(values) == Ok::<Option<nat>, ErrorView>(Some(n)),
    ensures
        n <= usize::MAX,
{
    lemma_content_lengths_agree(values, n);
    if values.len() > 0 {
        crate::list::lemma_list_is_not_empty(ascii_text(values[0]));
        assert(item_length(stated_items(values[0])[0]) == Ok::<nat, ErrorView>(n));
    }
}

proof fn lemma_printable_is_visible(value: Seq<u8>)
    requires
        printable(value),
    ensures
        visible(value),
{
    assert forall|i: int| 0 <= i < value.len() implies crate::headers::visible_byte(
        #[trigger] value[i],
    ) by {
        assert(32 <= value[i] < 127 || value[i] == 9);
    }
}

/// Content-Length frames the body: where every item of its values writes the number `n` and there
/// is no Transfer-Encoding, a response that has a body has one of exactly `n` bytes, whatever its
/// status.
pub proof fn lemma_length_frames_the_body(
    status: u16,
    headers: Seq<(Seq<char>, Seq<Seq<u8>>)>,
    n: usize,
)
    requires
        !(100 <= status && status <= 199) && status != 204 && status != 304,
        values_of(headers, "content-length"@).len() > 0,
        forall|i: int|
            0 <= i < values_of(headers, "content-length"@).len() ==> printable(
                #[trigger] values_of(headers, "content-length"@)[i],
            ),
        forall|i: int, k: int|
            0 <= i < values_of(headers, "content-length"@).len() && 0 <= k < list_items(
                ascii_text(values_of(headers, "content-length"@)[i]),
            ).len() ==> #[trigger] list_items(
                ascii_text(values_of(headers, "content-length"@)[i]),
            )[k] == decimal(n as nat),
        values_of(headers, "transfer-encoding"@).len() == 0,
    ensures
        framing(status, headers, true) == Ok::<BodyReader, ErrorView>(BodyReader::SizedReader(n)),
{
    let values = values_of(headers, "content-length"@);
    lemma_decimal_is_read_back(n as nat);
    assert forall|i: int| 0 <= i < values.len() implies visible(#[trigger] values[i]) by {
        lemma_printable_is_visible(values[i]);
    }
    assert forall|i: int, k: int|
        0 <= i < values.len() && 0 <= k < stated_items(values[i]).len() implies item_length(
        #[trigger] stated_items(values[i])[k],
    ) == Ok::<nat, ErrorView>(n as nat) by {
        assert(list_items(ascii_text(values[i]))[k] == decimal(n as nat));
    }
    lemma_equal_lengths_are_accepted(values, n as nat);
}

/// A single Content-Length value that writes a number frames the body by that many bytes.
pub proof fn lemma_single_length_frames_the_body(
    status: u16,
    headers: Seq<(Seq<char>, Seq<Seq<u8>>)>,
    n: usize,
)
    requires
        !(100 <= status && status <= 199) && status != 204 && status != 304,
        values_of(headers, "content-length"@).len() == 1,
        ascii_text(values_of(headers, "content-length"@)[0]) == decimal(n as nat),
        values_of(headers, "transfer-encoding"@).len() == 0,
    ensures
        framing(status, headers, true) == Ok::<BodyReader, ErrorView>(BodyReader::SizedReader(n)),
{
    let value = values_of(headers, "content-length"@)[0];
    let digits = decimal(n as nat);
    lemma_decimal_is_read_back(n as nat);
    assert(printable(value)) by {
        assert forall|i: int| 0 <= i < value.len() implies 32 <= #[trigger] value[i] < 127
            || value[i] == 9 by {
            assert(ascii_text(value)[i] == value[i] as char);
            assert('0' <= digits[i] && digits[i] <= '9');
        }
    }
    assert forall|i: int| 0 <= i < digits.len() implies digits[i] != ',' by {
        assert('0' <= digits[i] && digits[i] <= '9');
    }
    assert(digits.last() == digits[digits.len() - 1]);
    crate::laws::lists::lemma_lone_item(digits);
    lemma_length_frames_the_body(status, headers, n);
}

proof fn lemma_single_coding(value: Seq<u8>, coding: Seq<char>)
    requires
        printable(value),
        list_items(ascii_text(value)) == seq![coding],
        coding.len() > 0,
    ensures
        values_codings(seq![value]) == Ok::<Seq<Seq<char>>, ErrorView>(seq![coding]),
{
    lemma_printable_is_visible(value);
    assert(seq![value].drop_last() =~= Seq::<Seq<u8>>::empty());
    assert(values_codings(seq![value].drop_last()) == Ok::<Seq<Seq<char>>, ErrorView>(
        Seq::<Seq<char>>::empty(),
    ));
    reveal(Seq::filter);
    assert(seq![coding].drop_last() =~= Seq::<Seq<char>>::empty());
    assert(present(seq![coding]) =~= seq![coding]);
    assert(Seq::<Seq<char>>::empty() + present(seq![coding]) =~= seq![coding]);
}

proof fn lemma_chunked_word(coding: Seq<char>)
    ensures
        lowercase(coding) == lowercase("chunked"@) <==> writes_word(coding, "chunked"@),
{
    reveal_strlit("chunked");
    lemma_words_in_any_case(coding, "chunked"@);
}

/// A response whose only transfer coding is `chunked`, in whatever letter case, and that states no
/// length, has a chunked body, whatever its status; one with any other single coding is refused.
pub proof fn lemma_coding_frames_the_body(
    status: u16,
    headers: Seq<(Seq<char>, Seq<Seq<u8>>)>,
    coding: Seq<char>,
)
    requires
        !(100 <= status && status <= 199) && status != 204 && status != 304,
        values_of(headers, "content-length"@).len() == 0,
        values_of(headers, "transfer-encoding"@).len() == 1,
        printable(values_of(headers, "transfer-encoding"@)[0]),
        list_items(ascii_text(values_of(headers, "transfer-encoding"@)[0])) == seq![coding],
        coding.len() > 0,
    ensures
        writes_word(coding, "chunked"@) ==> framing(status, headers, true) == Ok::<
            BodyReader,
            ErrorView,
        >(BodyReader::ChunkReader(None)),
        !writes_word(coding, "chunked"@) ==> framing(status, headers, true) is Err && framing(
            status,
            headers,
            true,
        )->Err_0.kind == ErrorKind::InvalidData,
{
    let values = values_of(headers, "transfer-encoding"@);
    assert(values =~= seq![values[0]]);
    lemma_single_coding(values[0], coding);
    lemma_chunked_word(coding);
}

/// A response that states neither a length nor a coding ends with its connection.
pub proof fn lemma_unframed_body_ends_with_the_connection(
    status: u16,
    headers: Seq<(Seq<char>, Seq<Seq<u8>>)>,
)
    requires
        !(100 <= status && status <= 199) && status != 204 && status != 304,
        values_of(headers, "content-length"@).len() == 0,
        values_of(headers, "transfer-encoding"@).len() == 0,
    ensures
        framing(status, headers, true) == Ok::<BodyReader, ErrorView>(BodyReader::EofReader(true)),
        framing(status, headers, false) == Ok::<BodyReader, ErrorView>(BodyReader::EmptyReader),
{
}

/// A response that states its length delivers exactly that many bytes, whatever its status and
/// whatever the sizes of the reads, and leaves everything behind them unread.
pub proof fn lemma_stated_lengths_are_delivered(
    status: u16,
    headers: Seq<(Seq<char>, Seq<Seq<u8>>)>,
    body: Seq<u8>,
    rest: Seq<u8>,
    closed: bool,
    sizes: spec_fn(nat) -> nat,
    k: nat,
)
    requires
        !(100 <= status && status <= 199) && status != 204 && status != 304,
        body.len() <= usize::MAX,
        values_of(headers, "content-length"@).len() == 1,
        ascii_text(values_of(headers, "content-length"@)[0]) == decimal(body.len()),
        values_of(headers, "transfer-encoding"@).len() == 0,
        forall|i: nat| #[trigger] sizes(i) > 0,
    ensures
        framing(status, headers, true) matches Ok(reader) && drained(
            reader,
            body + rest,
            closed,
            sizes,
            k,
        ) == Some(Drained { bytes: body, reader: BodyReader::SizedReader(0), unread: rest }),
{
    lemma_single_length_frames_the_body(status, headers, body.len() as usize);
    lemma_sized_round_trip(body, rest, closed, sizes, k);
}

/// A chunked response delivers the data of its chunks, whatever its status, however the body is cut
/// into chunks and whatever the sizes of the reads, and leaves everything behind it unread.
pub proof fn lemma_chunks_are_delivered(
    status: u16,
    headers: Seq<(Seq<char>, Seq<Seq<u8>>)>,
    coding: Seq<char>,
    pieces: Seq<Seq<u8>>,
    rest: Seq<u8>,
    closed: bool,
    sizes: spec_fn(nat) -> nat,
    k: nat,
)
    requires
        !(100 <= status && status <= 199) && status != 204 && status != 304,
        values_of(headers, "content-length"@).len() == 0,
        values_of(headers, "transfer-encoding"@).len() == 1,
        printable(values_of(headers, "transfer-encoding"@)[0]),
        list_items(ascii_text(values_of(headers, "transfer-encoding"@)[0])) == seq![coding],
        coding.len() > 0,
        writes_word(coding, "chunked"@),
        forall|i: int|
            0 <= i < pieces.len() ==> 0 < (#[trigger] pieces[i]).len() <= usize::MAX,
        forall|i: nat| #[trigger] sizes(i) > 0,
    ensures
        framing(status, headers, true) matches Ok(reader) && drained(
            reader,
            chunked(pieces) + last_chunk() + rest,
            closed,
            sizes,
            k,
        ) == Some(
            Drained {
                bytes: joined(pieces),
                reader: BodyReader::ChunkReader(Some(0)),
                unread: rest,
            },
        ),
{
    lemma_coding_frames_the_body(status, headers, coding);
    lemma_chunked_round_trip(pieces, rest, closed, sizes, k);
}

/// A response that both states a length and names the coding `chunked` is refused, whether or not
/// it would have a body.
pub proof fn lemma_two_framings_are_refused(
    status: u16,
    headers: Seq<(Seq<char>, Seq<Seq<u8>>)>,
    coding: Seq<char>,
    expect_body: bool,
)
    requires
        values_of(headers, "content-length"@).len() > 0,
        values_of(headers, "transfer-encoding"@).len() == 1,
        printable(values_of(headers, "transfer-encoding"@)[0]),
        list_items(ascii_text(values_of(headers, "transfer-encoding"@)[0])) == seq![coding],
        coding.len() > 0,
    ensures
        framing(status, headers, expect_body) is Err,
{
    let lengths = values_of(headers, "content-length"@);
    let values = values_of(headers, "transfer-encoding"@);
    assert(values =~= seq![values[0]]);
    lemma_single_coding(values[0], coding);
    if values_length(lengths) == Ok::<Option<nat>, ErrorView>(None) {
        lemma_some_length(lengths);
    }
}

/// A Content-Length that is no number is refused, whatever else the response says: an item that is
/// empty or holds anything but the digits 0 to 9, and a value that is not printable text.
pub proof fn lemma_malformed_lengths_are_refused(
    status: u16,
    headers: Seq<(Seq<char>, Seq<Seq<u8>>)>,
    expect_body: bool,
    i: int,
    k: int,
    at: int,
)
    requires
        0 <= i < values_of(headers, "content-length"@).len(),
        0 <= k < list_items(ascii_text(values_of(headers, "content-length"@)[i])).len(),
        ({
            let item = list_items(ascii_text(values_of(headers, "content-length"@)[i]))[k];
            item.len() == 0 || (0 <= at < item.len() && !('0' <= item[at] && item[at] <= '9'))
        }),
    ensures
        framing(status, headers, expect_body) is Err,
{
    let values = values_of(headers, "content-length"@);
    match values_length(values) {
        Ok(Some(n)) => {
            lemma_content_lengths_agree(values, n);
            let item = stated_items(values[i])[k];
            assert(item_length(item) == Ok::<nat, ErrorView>(n));
            if item.len() > 0 {
                assert(crate::list::is_digit(item[at]));
            }
        },
        Ok(None) => {
            lemma_some_length(values);
        },
        Err(_) => {},
    }
}

/// A number that does not fit is refused, never taken for a smaller one.
pub proof fn lemma_oversized_lengths_are_refused(
    status: u16,
    headers: Seq<(Seq<char>, Seq<Seq<u8>>)>,
    expect_body: bool,
    i: int,
    k: int,
    n: nat,
)
    requires
        0 <= i < values_of(headers, "content-length"@).len(),
        0 <= k < list_items(ascii_text(values_of(headers, "content-length"@)[i])).len(),
        list_items(ascii_text(values_of(headers, "content-length"@)[i]))[k] == decimal(n),
        n > usize::MAX,
    ensures
        framing(status, headers, expect_body) is Err,
{
    let values = values_of(headers, "content-length"@);
    lemma_decimal_is_read_back(n);
    match values_length(values) {
        Ok(Some(m)) => {
            lemma_content_lengths_agree(values, m);
            let item = stated_items(values[i])[k];
            assert(item_length(item) == Ok::<nat, ErrorView>(m));
        },
        Ok(None) => {
            lemma_some_length(values);
        },
        Err(_) => {},
    }
}

/// Two lengths that differ are refused, whether they stand in one value or in two.
pub proof fn lemma_different_lengths_are_refused(
    status: u16,
    headers: Seq<(Seq<char>, Seq<Seq<u8>>)>,
    expect_body: bool,
    i: int,
    k: int,
    m: nat,
    j: int,
    l: int,
    n: nat,
)
    requires
        0 <= i < values_of(headers, "content-length"@).len(),
        0 <= k < list_items(ascii_text(values_of(headers, "content-length"@)[i])).len(),
        list_items(ascii_text(values_of(headers, "content-length"@)[i]))[k] == decimal(m),
        0 <= j < values_of(headers, "content-length"@).len(),
        0 <= l < list_items(ascii_text(values_of(headers, "content-length"@)[j])).len(),
        list_items(ascii_text(values_of(headers, "content-length"@)[j]))[l] == decimal(n),
        m != n,
    ensures
        framing(status, headers, expect_body) is Err,
{
    let values = values_of(headers, "content-length"@);
    lemma_decimal_is_read_back(m);
    lemma_decimal_is_read_back(n);
    match values_length(values) {
        Ok(Some(length)) => {
            lemma_content_lengths_agree(values, length);
            assert(item_length(stated_items(values[i])[k]) == Ok::<nat, ErrorView>(length));
            assert(item_length(stated_items(values[j])[l]) == Ok::<nat, ErrorView>(length));
        },
        Ok(None) => {
            lemma_some_length(values);
        },
        Err(_) => {},
    }
}

/// A response that names two codings, or the same one twice, is refused.
pub proof fn lemma_two_codings_are_refused(
    status: u16,
    headers: Seq<(Seq<char>, Seq<Seq<u8>>)>,
    expect_body: bool,
    one: Seq<char>,
    two: Seq<char>,
)
    requires
        values_of(headers, "transfer-encoding"@).len() == 1,
        list_items(ascii_text(values_of(headers, "transfer-encoding"@)[0])) == seq![one, two],
        one.len() > 0,
        two.len() > 0,
    ensures
        framing(status, headers, expect_body) is Err,
{
    let values = values_of(headers, "transfer-encoding"@);
    assert(values =~= seq![values[0]]);
    let items = seq![one, two];
    assert(values.drop_last() =~= Seq::<Seq<u8>>::empty());
    assert(values_codings(values.drop_last()) == Ok::<Seq<Seq<char>>, ErrorView>(
        Seq::<Seq<char>>::empty(),
    ));
    reveal(Seq::filter);
    assert(items.drop_last() =~= seq![one]);
    assert(seq![one].drop_last() =~= Seq::<Seq<char>>::empty());
    assert(present(seq![one]) =~= seq![one]);
    assert(present(items) =~= items);
    if visible(values[0]) {
        assert(Seq::<Seq<char>>::empty() + present(items) =~= items);
        assert(values_codings(values) == Ok::<Seq<Seq<char>>, ErrorView>(items));
    }
}

proof fn lemma_some_items(items: Seq<Seq<char>>, known: Option<nat>)
    requires
        items.len() > 0,
    ensures
        crate::response::items_length(items, known) != Ok::<Option<nat>, ErrorView>(None),
{
}

proof fn lemma_some_length(values: Seq<Seq<u8>>)
    requires
        values.len() > 0,
    ensures
        values_length(values) != Ok::<Option<nat>, ErrorView>(None),
{
    crate::list::lemma_list_is_not_empty(ascii_text(values.last()));
    if let Ok(known) = values_length(values.drop_last()) {
        lemma_some_items(list_items(ascii_text(values.last())), known);
    }
}

} // verus!

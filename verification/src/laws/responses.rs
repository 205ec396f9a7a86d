//! Response heads.

use vstd::prelude::*;

use crate::buffer::BufferView;
use crate::error::{Error, ErrorKind, ErrorView};
use crate::headers::{ascii_text, lemma_appended, names_distinct, values_of};
use crate::http_client::{absolute_address, awaited};
use crate::message::Version;
use crate::response::{
    blank_line, decoded, decoded_with_limit, fields_failure, fields_map, framing, head_end,
    over_limit, parsed_head, HeadFields, HeadView, Response,
};
use crate::text::{lowercase_bytes, occurs_at};
use crate::uri::UriView;

verus! {

/// A blank line stands in the bytes at a position: two line ends in a row.
pub open spec fn blank_at(bytes: Seq<u8>, at: int) -> bool {
    &&& 0 <= at
    &&& at + 4 <= bytes.len()
    &&& bytes[at] == '\r' as u8 && bytes[at + 1] == '\n' as u8
    &&& bytes[at + 2] == '\r' as u8 && bytes[at + 3] == '\n' as u8
}

proof fn lemma_blank(bytes: Seq<u8>, at: int)
    ensures
        occurs_at(bytes, blank_line(), at) <==> blank_at(bytes, at),
{
    if 0 <= at && at + 4 <= bytes.len() {
        let window = bytes.subrange(at, at + 4);
        if window == blank_line() {
            assert(window[0] == bytes[at] && window[1] == bytes[at + 1] && window[2] == bytes[at
                + 2] && window[3] == bytes[at + 3]);
        }
        if blank_at(bytes, at) {
            assert(window =~= blank_line());
        }
    }
}

proof fn lemma_first_blank(bytes: Seq<u8>, at: int) -> (first: int)
    requires
        blank_at(bytes, at),
    ensures
        head_end(bytes, first + 4),
        0 <= first <= at,
    decreases at,
{
    if exists|i: int| 0 <= i < at && blank_at(bytes, i) {
        let i = choose|i: int| 0 <= i < at && blank_at(bytes, i);
        lemma_first_blank(bytes, i)
    } else {
        lemma_blank(bytes, at);
        assert forall|i: int| 0 <= i < at implies !occurs_at(bytes, blank_line(), i) by {
            lemma_blank(bytes, i);
        }
        at
    }
}

/// A head is refused for its length exactly where as many bytes as the limit allows have arrived,
/// and no blank line ends within them.
pub proof fn lemma_long_heads_are_refused(bytes: Seq<u8>, max: nat)
    ensures
        over_limit(bytes, max) <==> bytes.len() >= max && forall|at: int| #[trigger]
            blank_at(bytes, at) ==> at + 4 > max,
{
    if over_limit(bytes, max) {
        if exists|end: int| #[trigger] head_end(bytes, end) && end > max {
            let end = choose|end: int| #[trigger] head_end(bytes, end) && end > max;
            assert forall|at: int| #[trigger] blank_at(bytes, at) implies at + 4 > max by {
                lemma_blank(bytes, at);
            }
        } else {
            assert forall|at: int| #[trigger] blank_at(bytes, at) implies at + 4 > max by {
                lemma_blank(bytes, at);
                assert(!occurs_at(bytes, blank_line(), at));
            }
        }
    }
    if bytes.len() >= max && forall|at: int| #[trigger] blank_at(bytes, at) ==> at + 4 > max {
        if exists|at: int| blank_at(bytes, at) {
            let at = choose|at: int| blank_at(bytes, at);
            let first = lemma_first_blank(bytes, at);
            lemma_blank(bytes, first);
            assert(blank_at(bytes, first));
            assert(head_end(bytes, first + 4));
        } else {
            assert forall|at: int| !occurs_at(bytes, blank_line(), at) by {
                lemma_blank(bytes, at);
                assert(!blank_at(bytes, at));
            }
        }
    }
}

/// A head that was refused for its length stays refused, whatever arrives later.
pub proof fn lemma_refusals_are_final(bytes: Seq<u8>, more: Seq<u8>, max: nat)
    requires
        over_limit(bytes, max),
    ensures
        over_limit(bytes + more, max),
{
    let all = bytes + more;
    lemma_long_heads_are_refused(bytes, max);
    lemma_long_heads_are_refused(all, max);
    assert forall|at: int| #[trigger] blank_at(all, at) implies at + 4 > max by {
        if at + 4 <= max {
            assert(all[at] == bytes[at] && all[at + 1] == bytes[at + 1] && all[at + 2] == bytes[at
                + 2] && all[at + 3] == bytes[at + 3]);
            assert(blank_at(bytes, at));
        }
    }
}

/// The bytes of a field name write a name that is given in lower case, in whatever case their
/// letters are.
pub open spec fn spells(bytes: Seq<u8>, name: Seq<char>) -> bool {
    &&& bytes.len() == name.len()
    &&& forall|i: int|
        0 <= i < bytes.len() ==> #[trigger] bytes[i] as char == name[i] || (0x41 <= bytes[i]
            <= 0x5a && (bytes[i] + 32) == name[i] as u32)
}

/// The values of all fields with a name, in the order in which they arrived.
pub open spec fn received_values(fields: Seq<(Seq<u8>, Seq<u8>)>, name: Seq<char>) -> Seq<Seq<u8>>
    decreases fields.len(),
{
    if fields.len() == 0 {
        Seq::empty()
    } else if spells(fields[0].0, name) {
        seq![fields[0].1] + received_values(fields.drop_first(), name)
    } else {
        received_values(fields.drop_first(), name)
    }
}

proof fn lemma_received_push(
    fields: Seq<(Seq<u8>, Seq<u8>)>,
    last: (Seq<u8>, Seq<u8>),
    name: Seq<char>,
)
    ensures
        received_values(fields.push(last), name) == received_values(fields, name) + (if spells(
            last.0,
            name,
        ) {
            seq![last.1]
        } else {
            Seq::<Seq<u8>>::empty()
        }),
    decreases fields.len(),
{
    let all = fields.push(last);
    let tail = if spells(last.0, name) {
        seq![last.1]
    } else {
        Seq::<Seq<u8>>::empty()
    };
    if fields.len() == 0 {
        assert(all.drop_first() =~= Seq::<(Seq<u8>, Seq<u8>)>::empty());
        assert(received_values(all.drop_first(), name) =~= Seq::<Seq<u8>>::empty());
        assert(received_values(fields, name) =~= Seq::<Seq<u8>>::empty());
        assert(all[0] == last);
        assert(received_values(all, name) =~= received_values(fields, name) + tail);
    } else {
        assert(all.drop_first() =~= fields.drop_first().push(last));
        lemma_received_push(fields.drop_first(), last, name);
        assert(received_values(all, name) =~= received_values(fields, name) + tail);
    }
}

proof fn lemma_spelling(bytes: Seq<u8>, name: Seq<char>)
    requires
        forall|i: int| 0 <= i < name.len() ==> !('A' <= #[trigger] name[i] && name[i] <= 'Z'),
    ensures
        ascii_text(lowercase_bytes(bytes)) == name <==> spells(bytes, name),
{
    let text = ascii_text(lowercase_bytes(bytes));
    assert(text.len() == bytes.len());
    assert forall|i: int| 0 <= i < bytes.len() implies text[i] == crate::text::lower_byte(
        #[trigger] bytes[i],
    ) as char by {}
    if text == name {
        assert forall|i: int| 0 <= i < bytes.len() implies #[trigger] bytes[i] as char == name[i]
            || (0x41 <= bytes[i] <= 0x5a && (bytes[i] + 32) == name[i] as u32) by {
            assert(text[i] == crate::text::lower_byte(bytes[i]) as char);
        }
    }
    if spells(bytes, name) {
        assert forall|i: int| 0 <= i < bytes.len() implies text[i] == name[i] by {
            let b = bytes[i];
            assert(b as char == name[i] || (0x41 <= b <= 0x5a && (b + 32) == name[i] as u32));
            assert(text[i] == crate::text::lower_byte(b) as char);
            if 0x41 <= b <= 0x5a {
                assert('A' <= b as char && b as char <= 'Z');
                assert(b as char != name[i]);
                lemma_same_code((b + 32) as u8, name[i]);
            }
        }
        assert(text =~= name);
    }
}

proof fn lemma_same_code(b: u8, c: char)
    requires
        b as u32 == c as u32,
    ensures
        b as char == c,
{
}

proof fn lemma_map_is_distinct(fields: Seq<(Seq<u8>, Seq<u8>)>, name: Seq<char>)
    requires
        forall|i: int| 0 <= i < name.len() ==> !('A' <= #[trigger] name[i] && name[i] <= 'Z'),
    ensures
        names_distinct(fields_map(fields)),
        values_of(fields_map(fields), name) == received_values(fields, name),
    decreases fields.len(),
{
    if fields.len() == 0 {
        assert(values_of(fields_map(fields), name) =~= received_values(fields, name));
    } else {
        let before = fields.drop_last();
        let last = fields.last();
        lemma_map_is_distinct(before, name);
        let key = ascii_text(lowercase_bytes(last.0));
        lemma_appended(fields_map(before), key, last.1, name);
        lemma_spelling(last.0, name);
        lemma_received_push(before, last, name);
        assert(before.push(last) =~= fields);
        assert(values_of(fields_map(fields), name) =~= received_values(fields, name));
    }
}

/// The fields of a response are found under their names, whatever letter case they arrived in:
/// every value of every field, in order.
pub proof fn lemma_response_fields(fields: Seq<(Seq<u8>, Seq<u8>)>, name: Seq<char>)
    requires
        forall|i: int| 0 <= i < name.len() ==> !('A' <= #[trigger] name[i] && name[i] <= 'Z'),
    ensures
        values_of(fields_map(fields), name) == received_values(fields, name),
{
    lemma_map_is_distinct(fields, name);
}

/// A complete head of HTTP/1.0 or HTTP/1.1 with a status from 100 to 999 and sound fields is
/// decoded to exactly that version and status, and its bytes, no more, are consumed.
pub proof fn lemma_complete_heads_are_decoded(
    used: nat,
    minor: u8,
    code: u16,
    fields: Seq<(Seq<u8>, Seq<u8>)>,
)
    requires
        minor == 0 || minor == 1,
        100 <= code <= 999,
        fields_failure(fields) is None,
    ensures
        ({
            let (consumed, outcome) = decoded(
                HeadView::Complete {
                    used,
                    version: Some(minor),
                    code: Some(code),
                    headers: fields,
                },
            );
            &&& consumed == used
            &&& outcome matches Ok(Some(head)) && head.status == code && (head.version
                == Version::Http11 <==> minor == 1) && head.headers == fields_map(fields)
        }),
{
}

/// What is no head is refused: bytes that do not parse, another minor version, a status outside
/// 100 to 999, an unsound field. An incomplete head is neither refused nor consumed.
pub proof fn lemma_other_heads_are_not_decoded(head: HeadView)
    ensures
        head is Partial ==> decoded(head).0 == 0 && decoded(head).1 == Ok::<
            Option<HeadFields>,
            ErrorView,
        >(None),
        head is Failed ==> decoded(head).0 == 0 && decoded(head).1 is Err,
        head matches HeadView::Complete { used, version, code, headers } ==> (decoded(
            head,
        ).1 is Ok <==> (version == Some(0u8) || version == Some(1u8)) && code is Some && 100
            <= code->0 <= 999 && fields_failure(headers) is None),
        head matches HeadView::Complete { used, version, code, headers } ==> (decoded(
            head,
        ).0 == used || decoded(head).0 == 0) && (decoded(head).1 is Ok ==> decoded(head).0
            == used),
        head is Complete ==> decoded(head).1 != Ok::<Option<HeadFields>, ErrorView>(None),
{
}

/// Waiting for a response goes on only while the connection is open and the head incomplete and
/// short; the end of the connection before that is an unexpected one.
pub proof fn lemma_waiting_for_a_response(received: BufferView, max: nat, expect_body: bool)
    ensures
        awaited(received, max, expect_body).1 matches Ok(None) ==> !received.closed && (
        received.input.len() < max || exists|at: int| blank_at(received.input, at)),
        ({
            let (used, outcome) = awaited(received, max, expect_body);
            !over_limit(received.input, max) && parsed_head(received.input, 128) is Partial
                ==> if received.closed {
                outcome is Err && outcome->Err_0.kind == ErrorKind::UnexpectedEof
            } else {
                used == 0 && outcome == Ok::<
                    Option<(HeadFields, crate::body::BodyReader)>,
                    ErrorView,
                >(None)
            }
        }),
        over_limit(received.input, max) ==> awaited(received, max, expect_body).1 is Err
            && awaited(received, max, expect_body).0 == 0,
{
    lemma_long_heads_are_refused(received.input, max);
}

/// A response that is awaited is the decoded one, with the framing that its status and fields
/// give its body.
pub proof fn lemma_awaited_responses(received: BufferView, max: nat, expect_body: bool)
    ensures
        awaited(received, max, expect_body).1 matches Ok(Some((head, body))) ==> {
            &&& framing(head.status, head.headers, expect_body) == Ok::<
                crate::body::BodyReader,
                ErrorView,
            >(body)
            &&& decoded(parsed_head(received.input, 128)).1 == Ok::<Option<HeadFields>, ErrorView>(
                Some(head),
            )
            &&& awaited(received, max, expect_body).0 == decoded(parsed_head(received.input, 128)).0
        },
{
}

/// An address is absolute exactly where it could be read and names a scheme and a host; it is then
/// kept as it is, and everything else is invalid input.
pub proof fn lemma_absolute_addresses(parsed: Result<UriView, Seq<char>>)
    ensures
        absolute_address(parsed) is Ok <==> (parsed matches Ok(uri) && uri.scheme is Some && (
        uri.host matches Some(host) && host.len() > 0)),
        absolute_address(parsed) matches Ok(uri) ==> parsed == Ok::<UriView, Seq<char>>(uri),
        absolute_address(parsed) matches Err(e) ==> e.kind == ErrorKind::InvalidInput,
{
}

/// Decoding takes exactly the head from what was received and touches nothing else; a head that is
/// refused for its length, or not complete, leaves everything as it was.
pub proof fn lemma_decoding_takes_the_head(
    before: BufferView,
    after: BufferView,
    max: nat,
    r: Result<Option<Response>, Error>,
)
    requires
        decoded_with_limit(before, after, max, r),
    ensures
        after.closed == before.closed,
        after.writes == before.writes,
        after.buffered == before.buffered,
        after.input.len() <= before.input.len(),
        after.input == before.input.skip(before.input.len() - after.input.len()),
        over_limit(before.input, max) ==> r is Err && after.input == before.input,
        r matches Ok(None) ==> after.input == before.input,
        r matches Ok(Some(response)) ==> 100 <= response.status <= 999,
{
    assert(before.input.skip(0) =~= before.input);
}

} // verus!

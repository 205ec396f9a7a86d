//! The header fields of requests.

use vstd::prelude::*;
use vstd::utf8::{encode_utf8, is_ascii_chars};

use crate::error::ErrorKind;
use crate::headers::{
    all_entries, lemma_inserted, names, names_distinct, values_of, with_json_type, with_name,
};
use crate::laws::lists::printable;
use crate::laws::scan::{lemma_ascii_encoding, lemma_encoded_pieces};
use crate::metadata::{
    attempt_fields, encoded_size, lemma_precedence, merged, request_failure, sets_transport,
    MetadataLimits, MetadataState,
};
use crate::request::{fields_text, shown_value};

verus! {

/// Some value is given for Host, Content-Length or Transfer-Encoding.
pub open spec fn names_transport(groups: Seq<(Seq<char>, Seq<Seq<u8>>)>) -> bool {
    exists|name: Seq<char>|
        (name == "host"@ || name == "content-length"@ || name == "transfer-encoding"@)
            && #[trigger] values_of(groups, name).len() > 0
}

proof fn lemma_transport(groups: Seq<(Seq<char>, Seq<Seq<u8>>)>)
    ensures
        sets_transport(groups) <==> names_transport(groups),
{
    if sets_transport(groups) {
        if values_of(groups, "host"@).len() > 0 {
            assert(names_transport(groups));
        } else if values_of(groups, "content-length"@).len() > 0 {
            assert(names_transport(groups));
        } else {
            assert(values_of(groups, "transfer-encoding"@).len() > 0);
        }
    }
}

/// The fields of a request's own are refused exactly where one of them belongs to the transport.
pub proof fn lemma_own_fields(groups: Seq<(Seq<char>, Seq<Seq<u8>>)>)
    ensures
        request_failure(groups) is Some <==> names_transport(groups),
        request_failure(groups) matches Some(e) ==> e.kind == ErrorKind::InvalidInput,
{
    lemma_transport(groups);
}

/// The fields of an attempt are accepted exactly where none of the client, the provider and the
/// request names a field of the transport, and neither the provided fields nor the merged ones
/// exceed the limits.
pub proof fn lemma_attempts_are_accepted(
    defaults: Seq<(Seq<char>, Seq<Seq<u8>>)>,
    provided: Seq<(Seq<char>, Seq<Seq<u8>>)>,
    request: Seq<(Seq<char>, Seq<Seq<u8>>)>,
    suppressed: Seq<Seq<char>>,
    limits: MetadataLimits,
)
    ensures
        attempt_fields(defaults, provided, request, suppressed, limits) is Ok <==> {
            let fields = merged(defaults, provided, request, suppressed);
            &&& !names_transport(defaults) && !names_transport(provided) && !names_transport(
                request,
            )
            &&& all_entries(provided).len() <= limits.max_fields
            &&& encoded_size(all_entries(provided)) <= limits.max_bytes
            &&& all_entries(fields).len() <= limits.max_fields
            &&& encoded_size(all_entries(fields)) <= limits.max_bytes
        },
        attempt_fields(defaults, provided, request, suppressed, limits) matches Err(e) ==> e.kind
            == ErrorKind::InvalidInput,
        request_failure(request) is Some <==> names_transport(request),
{
    lemma_transport(defaults);
    lemma_transport(provided);
    lemma_transport(request);
}

/// The size of fields is the number of bytes that they take on the wire.
pub proof fn lemma_sizes_are_wire_sizes(entries: Seq<(Seq<char>, Seq<u8>)>)
    requires
        forall|i: int| 0 <= i < entries.len() ==> printable((#[trigger] entries[i]).1),
    ensures
        encode_utf8(fields_text(entries)).len() == encoded_size(entries),
    decreases entries.len(),
{
    if entries.len() > 0 {
        let before = entries.drop_last();
        let last = entries.last();
        assert forall|i: int| 0 <= i < before.len() implies printable(
            (#[trigger] before[i]).1,
        ) by {
            assert(before[i] == entries[i]);
        }
        lemma_sizes_are_wire_sizes(before);
        assert(printable(entries[entries.len() - 1].1));
        let head = fields_text(before);
        let shown = shown_value(last.1);
        lemma_shown_size(last.1);
        lemma_literal_sizes();
        lemma_encoded_pieces(head, last.0);
        lemma_encoded_pieces(head + last.0, ": "@);
        lemma_encoded_pieces(head + last.0 + ": "@, shown);
        lemma_encoded_pieces(head + last.0 + ": "@ + shown, "\r\n"@);
    }
}

proof fn lemma_literal_sizes()
    ensures
        encode_utf8(": "@).len() == 2,
        encode_utf8("\r\n"@).len() == 2,
{
    reveal_strlit(": ");
    reveal_strlit("\r\n");
    assert(is_ascii_chars(": "@));
    assert(is_ascii_chars("\r\n"@));
    lemma_ascii_encoding(": "@);
    lemma_ascii_encoding("\r\n"@);
}

proof fn lemma_shown_size(value: Seq<u8>)
    requires
        printable(value),
    ensures
        encode_utf8(shown_value(value)).len() == value.len(),
{
    assert forall|i: int| 0 <= i < value.len() implies crate::headers::visible_byte(
        #[trigger] value[i],
    ) by {
        assert(32 <= value[i] < 127 || value[i] == 9);
    }
    let text = shown_value(value);
    assert(text.len() == value.len());
    assert forall|i: int| 0 <= i < text.len() implies '\0' <= #[trigger] text[i] <= '\u{7f}' by {
        assert(text[i] == value[i] as char);
        assert(32 <= value[i] < 127 || value[i] == 9);
    }
    lemma_ascii_encoding(text);
}

/// A JSON body is announced by its content type where the request has none of its own, and no
/// other field changes.
pub proof fn lemma_json_is_announced(groups: Seq<(Seq<char>, Seq<Seq<u8>>)>, name: Seq<char>)
    requires
        names_distinct(groups),
    ensures
        values_of(with_json_type(groups), name) == (if name == "content-type"@ && values_of(
            groups,
            name,
        ).len() == 0 {
            seq![
                seq![
                    'a' as u8, 'p' as u8, 'p' as u8, 'l' as u8, 'i' as u8, 'c' as u8, 'a' as u8,
                    't' as u8, 'i' as u8, 'o' as u8, 'n' as u8, '/' as u8, 'j' as u8, 's' as u8,
                    'o' as u8, 'n' as u8,
                ],
            ]
        } else {
            values_of(groups, name)
        }),
{
    let value = encode_utf8("application/json"@);
    lemma_inserted(groups, "content-type"@, value, name);
    lemma_json_bytes();
}

proof fn lemma_json_bytes()
    ensures
        encode_utf8("application/json"@) == seq![
            'a' as u8, 'p' as u8, 'p' as u8, 'l' as u8, 'i' as u8, 'c' as u8, 'a' as u8,
            't' as u8, 'i' as u8, 'o' as u8, 'n' as u8, '/' as u8, 'j' as u8, 's' as u8,
            'o' as u8, 'n' as u8,
        ],
{
    reveal_strlit("application/json");
    assert(is_ascii_chars("application/json"@));
    lemma_ascii_encoding("application/json"@);
    assert(encode_utf8("application/json"@) =~= seq![
        'a' as u8, 'p' as u8, 'p' as u8, 'l' as u8, 'i' as u8, 'c' as u8, 'a' as u8,
        't' as u8, 'i' as u8, 'o' as u8, 'n' as u8, '/' as u8, 'j' as u8, 's' as u8,
        'o' as u8, 'n' as u8,
    ]);
}

/// Once a request has left its origin, no attempt sends a sensitive field any more, whoever gave
/// it; before that every field is sent.
pub proof fn lemma_sensitive_fields_are_suppressed(
    state: MetadataState,
    defaults: Seq<(Seq<char>, Seq<Seq<u8>>)>,
    provided: Seq<(Seq<char>, Seq<Seq<u8>>)>,
    request: Seq<(Seq<char>, Seq<Seq<u8>>)>,
    limits: MetadataLimits,
    name: Seq<char>,
)
    requires
        names_distinct(defaults),
        names_distinct(provided),
        names_distinct(request),
    ensures
        attempt_fields(defaults, provided, request, state.suppressed(), limits) matches Ok(fields)
            ==> values_of(fields, name) == (if state.crossed && names(
            state.sensitive@,
        ).contains(name) {
            Seq::<Seq<u8>>::empty()
        } else if values_of(request, name).len() > 0 {
            values_of(request, name)
        } else if values_of(provided, name).len() > 0 {
            values_of(provided, name)
        } else {
            values_of(defaults, name)
        }),
{
    lemma_precedence(defaults, provided, request, state.suppressed(), limits, name);
}

/// A name is marked once, however often it is, and marking it changes no other mark.
pub proof fn lemma_marks_are_kept_once(marked: Seq<Seq<char>>, name: Seq<char>, other: Seq<char>)
    requires
        marked.no_duplicates(),
    ensures
        with_name(marked, name).no_duplicates(),
        with_name(marked, name).contains(name),
        other != name ==> (with_name(marked, name).contains(other) <==> marked.contains(other)),
        with_name(with_name(marked, name), name) == with_name(marked, name),
{
    let after = with_name(marked, name);
    if !marked.contains(name) {
        assert(after[marked.len() as int] == name);
        assert forall|i: int, j: int|
            0 <= i < after.len() && 0 <= j < after.len() && i != j implies after[i] != after[j] by {
            if i < marked.len() {
                assert(marked.contains(marked[i]));
            }
            if j < marked.len() {
                assert(marked.contains(marked[j]));
            }
        }
        if other != name {
            if marked.contains(other) {
                let i = choose|i: int| 0 <= i < marked.len() && marked[i] == other;
                assert(after[i] == other);
            }
            if after.contains(other) {
                let i = choose|i: int| 0 <= i < after.len() && after[i] == other;
                assert(marked[i] == other);
            }
        }
    }
}

} // verus!

//! Finding a byte string in another one, and the bytes of a text.

use vstd::prelude::*;
use vstd::utf8::{encode_scalar, encode_utf8, is_ascii_chars};

verus! {

/// `needle` stands in `s` at position `at`.
pub open spec fn stands_at<T>(s: Seq<T>, needle: Seq<T>, at: int) -> bool {
    &&& 0 <= at
    &&& at + needle.len() <= s.len()
    &&& forall|i: int| 0 <= i < needle.len() ==> s[at + i] == #[trigger] needle[i]
}

/// The first position from `from` on at which `needle` stands in `s`, if there is one.
pub open spec fn first_at<T>(s: Seq<T>, needle: Seq<T>, from: int) -> Option<int>
    decreases s.len() - from + 1,
{
    if from > s.len() {
        None
    } else if stands_at(s, needle, from) {
        Some(from)
    } else {
        first_at(s, needle, from + 1)
    }
}

/// The first position is the one before which there is none.
pub proof fn lemma_first_at<T>(s: Seq<T>, needle: Seq<T>, from: int, at: int)
    requires
        0 <= from <= at,
        stands_at(s, needle, at),
        forall|i: int| from <= i < at ==> !#[trigger] stands_at(s, needle, i),
    ensures
        first_at(s, needle, from) == Some(at),
    decreases at - from,
{
    if from < at {
        assert(!stands_at(s, needle, from));
        lemma_first_at(s, needle, from + 1, at);
    }
}

/// A text is absent where no position has it.
pub proof fn lemma_nowhere<T>(s: Seq<T>, needle: Seq<T>, from: int)
    requires
        forall|i: int| from <= i <= s.len() ==> !#[trigger] stands_at(s, needle, i),
    ensures
        first_at(s, needle, from) is None,
    decreases s.len() - from + 1,
{
    if from <= s.len() {
        assert(!stands_at(s, needle, from));
        lemma_nowhere(s, needle, from + 1);
    }
}

/// Texts are encoded piece by piece.
pub proof fn lemma_encoded_pieces(a: Seq<char>, b: Seq<char>)
    ensures
        encode_utf8(a + b) == encode_utf8(a) + encode_utf8(b),
    decreases a.len(),
{
    if a.len() == 0 {
        assert(a + b =~= b);
        assert(encode_utf8(a) + encode_utf8(b) =~= encode_utf8(b));
    } else {
        assert((a + b).drop_first() =~= a.drop_first() + b);
        lemma_encoded_pieces(a.drop_first(), b);
        assert(encode_utf8(a + b) =~= encode_utf8(a) + encode_utf8(b));
    }
}

proof fn lemma_high_bytes(b: u8)
    ensures
        (0xC0u8 | b) >= 0x80,
        (0xE0u8 | b) >= 0x80,
        (0xF0u8 | b) >= 0x80,
        (0x80u8 | b) >= 0x80,
{
    assert((0xC0u8 | b) >= 0x80) by (bit_vector);
    assert((0xE0u8 | b) >= 0x80) by (bit_vector);
    assert((0xF0u8 | b) >= 0x80) by (bit_vector);
    assert((0x80u8 | b) >= 0x80) by (bit_vector);
}

proof fn lemma_scalar_bytes(c: char, other: char)
    requires
        c != other,
        (other as u32) < 0x80,
    ensures
        forall|i: int|
            0 <= i < encode_scalar(c as u32).len() ==> #[trigger] encode_scalar(c as u32)[i]
                != other as u8,
{
    let v = c as u32;
    if v <= 0x7f {
        assert((v & 0x7f) == v) by (bit_vector)
            requires
                v <= 0x7f,
        ;
    } else {
        lemma_high_bytes(((v >> 6) & 0x1F) as u8);
        lemma_high_bytes(((v >> 12) & 0x0F) as u8);
        lemma_high_bytes(((v >> 18) & 0x7) as u8);
        lemma_high_bytes((v & 0x3F) as u8);
        lemma_high_bytes(((v >> 6) & 0x3F) as u8);
        lemma_high_bytes(((v >> 12) & 0x3F) as u8);
    }
}

/// An ASCII byte stands in an encoded text only where the text has that character.
pub proof fn lemma_ascii_bytes(s: Seq<char>, c: char)
    requires
        (c as u32) < 0x80,
        !s.contains(c),
    ensures
        !encode_utf8(s).contains(c as u8),
    decreases s.len(),
{
    if s.len() > 0 {
        let rest = s.drop_first();
        assert forall|i: int| 0 <= i < rest.len() implies rest[i] != c by {
            assert(s.contains(s[i + 1]));
        }
        lemma_ascii_bytes(rest, c);
        assert(s.contains(s[0]));
        lemma_scalar_bytes(s[0], c);
        let first = encode_scalar(s[0] as u32);
        let bytes = encode_utf8(s);
        assert(bytes == first + encode_utf8(rest));
        assert forall|i: int| 0 <= i < bytes.len() implies #[trigger] bytes[i] != c as u8 by {
            if i < first.len() {
                assert(bytes[i] == first[i]);
            } else {
                assert(bytes[i] == encode_utf8(rest)[i - first.len()]);
                assert(encode_utf8(rest).contains(bytes[i]));
            }
        }
    }
}

/// The bytes of an ASCII text are its characters.
pub proof fn lemma_ascii_encoding(s: Seq<char>)
    requires
        is_ascii_chars(s),
    ensures
        encode_utf8(s) == Seq::new(s.len(), |i: int| s[i] as u8),
{
    vstd::utf8::is_ascii_chars_encode_utf8(s);
    assert(encode_utf8(s) =~= Seq::new(s.len(), |i: int| s[i] as u8));
}

} // verus!

//! Comma-separated lists and numbers in field values are read back as they were written.

use vstd::prelude::*;

use crate::headers::{ascii_text, values_of};
use crate::list::{
    all_digits, blank, digits_value, first_comma, is_digit, list_items, split_commas, trimmed,
};
use crate::policy::{has_token, lists_token};
use crate::text::{decimal, digit_char, hexadecimal, lower_char, lowercase};

verus! {

/// The pieces with a comma between any two.
pub open spec fn with_commas(pieces: Seq<Seq<char>>) -> Seq<char>
    decreases pieces.len(),
{
    if pieces.len() == 0 {
        Seq::empty()
    } else if pieces.len() == 1 {
        pieces[0]
    } else {
        pieces[0] + seq![','] + with_commas(pieces.drop_first())
    }
}

/// Spaces and tabs only.
pub open spec fn spacing(s: Seq<char>) -> bool {
    forall|i: int| 0 <= i < s.len() ==> #[trigger] s[i] == ' ' || s[i] == '\t'
}

/// An item of a list: without commas, and without a space or a tab at either end.
pub open spec fn list_item(s: Seq<char>) -> bool {
    &&& !s.contains(',')
    &&& s.len() > 0 ==> s[0] != ' ' && s[0] != '\t' && s.last() != ' ' && s.last() != '\t'
}

/// Bytes that are printable ASCII, spaces or tabs.
pub open spec fn printable(value: Seq<u8>) -> bool {
    forall|i: int| 0 <= i < value.len() ==> 32 <= #[trigger] value[i] < 127 || value[i] == 9
}

/// A text writes a word given in lower case, in whatever case its letters are.
pub open spec fn writes_word(s: Seq<char>, word: Seq<char>) -> bool {
    &&& s.len() == word.len()
    &&& forall|i: int|
        0 <= i < s.len() ==> #[trigger] s[i] == word[i] || ('A' <= s[i] && s[i] <= 'Z' && (
        s[i] as u32) + 32 == word[i] as u32)
}

proof fn lemma_first_comma_at(s: Seq<char>, at: int)
    requires
        0 <= at <= s.len(),
        forall|i: int| 0 <= i < at ==> s[i] != ',',
        at < s.len() ==> s[at] == ',',
    ensures
        first_comma(s) == at,
    decreases s.len(),
{
    if s.len() > 0 && s[0] != ',' {
        lemma_first_comma_at(s.drop_first(), at - 1);
    }
}

proof fn lemma_split(pieces: Seq<Seq<char>>)
    requires
        pieces.len() > 0,
        forall|k: int| 0 <= k < pieces.len() ==> !(#[trigger] pieces[k]).contains(','),
    ensures
        split_commas(with_commas(pieces)) == pieces,
    decreases pieces.len(),
{
    let s = with_commas(pieces);
    let first = pieces[0];
    assert forall|i: int| 0 <= i < first.len() implies s[i] != ',' by {
        assert(s[i] == first[i]);
        assert(first.contains(first[i]));
    }
    lemma_first_comma_at(s, first.len() as int);
    if pieces.len() == 1 {
        assert(pieces =~= seq![s]);
    } else {
        let rest = pieces.drop_first();
        assert forall|k: int| 0 <= k < rest.len() implies !(#[trigger] rest[k]).contains(',') by {
            assert(rest[k] == pieces[k + 1]);
        }
        lemma_split(rest);
        assert(s.take(first.len() as int) =~= first);
        assert(s.skip(first.len() as int + 1) =~= with_commas(rest));
        assert(seq![first] + rest =~= pieces);
    }
}

proof fn lemma_trim(before: Seq<char>, item: Seq<char>, after: Seq<char>)
    requires
        spacing(before),
        spacing(after),
        list_item(item),
    ensures
        trimmed(before + item + after) == item,
    decreases before.len() + after.len(),
{
    let s = before + item + after;
    if before.len() > 0 {
        assert(s[0] == before[0]);
        assert(s.drop_first() =~= before.drop_first() + item + after);
        lemma_trim(before.drop_first(), item, after);
    } else if after.len() > 0 {
        assert(s.last() == after.last());
        assert(after.last() == after[after.len() - 1]);
        if item.len() == 0 {
            assert(s =~= after);
            assert(blank(s[0]));
            assert(s.drop_first() =~= before + item + after.drop_first());
            lemma_trim(before, item, after.drop_first());
        } else {
            assert(s[0] == item[0]);
            assert(s.drop_last() =~= before + item + after.drop_last());
            lemma_trim(before, item, after.drop_last());
        }
    } else {
        assert(s =~= item);
    }
}

/// A list is read back item by item, whatever spaces and tabs stand around its items.
pub proof fn lemma_list_is_read_back(
    items: Seq<Seq<char>>,
    before: Seq<Seq<char>>,
    after: Seq<Seq<char>>,
)
    requires
        items.len() > 0,
        before.len() == items.len(),
        after.len() == items.len(),
        forall|k: int| 0 <= k < items.len() ==> list_item(#[trigger] items[k]),
        forall|k: int| 0 <= k < items.len() ==> spacing(#[trigger] before[k]),
        forall|k: int| 0 <= k < items.len() ==> spacing(#[trigger] after[k]),
    ensures
        list_items(
            with_commas(Seq::new(items.len(), |k: int| before[k] + items[k] + after[k])),
        ) == items,
{
    let pieces = Seq::new(items.len(), |k: int| before[k] + items[k] + after[k]);
    assert forall|k: int| 0 <= k < pieces.len() implies !(#[trigger] pieces[k]).contains(',') by {
        assert(list_item(items[k]) && spacing(before[k]) && spacing(after[k]));
        let piece = pieces[k];
        assert forall|i: int| 0 <= i < piece.len() implies piece[i] != ',' by {
            let a = before[k].len() as int;
            let b = a + items[k].len();
            if i < a {
                assert(piece[i] == before[k][i]);
            } else if i < b {
                assert(piece[i] == items[k][i - a]);
                assert(items[k].contains(items[k][i - a]));
            } else {
                assert(piece[i] == after[k][i - b]);
            }
        }
    }
    lemma_split(pieces);
    assert forall|k: int| 0 <= k < items.len() implies trimmed(#[trigger] pieces[k])
        == items[k] by {
        assert(list_item(items[k]) && spacing(before[k]) && spacing(after[k]));
        lemma_trim(before[k], items[k], after[k]);
    }
    assert(list_items(with_commas(pieces)) =~= items);
}

/// A value without commas and without outer spacing is a list of one item.
pub proof fn lemma_lone_item(item: Seq<char>)
    requires
        list_item(item),
    ensures
        list_items(item) == seq![item],
{
    let none = seq![Seq::<char>::empty()];
    lemma_list_is_read_back(seq![item], none, none);
    let pieces = Seq::new(1, |k: int| none[k] + seq![item][k] + none[k]);
    assert(pieces[0] =~= item);
    assert(with_commas(pieces) == item);
    assert(Seq::new(seq![item].len(), |k: int| none[k] + seq![item][k] + none[k]) =~= pieces);
}

/// A number is read back from its decimal digits, none of which is a superfluous zero.
pub proof fn lemma_decimal_is_read_back(n: nat)
    ensures
        decimal(n).len() > 0,
        forall|i: int|
            0 <= i < decimal(n).len() ==> '0' <= #[trigger] decimal(n)[i] && decimal(n)[i] <= '9',
        n > 0 ==> decimal(n)[0] != '0',
        all_digits(decimal(n)),
        digits_value(decimal(n)) == n,
    decreases n,
{
    if n >= 10 {
        lemma_decimal_is_read_back(n / 10);
        assert(decimal(n).drop_last() =~= decimal(n / 10));
        assert(decimal(n)[0] == decimal(n / 10)[0]);
        assert(digits_value(decimal(n)) == digits_value(decimal(n / 10)) * 10 + n % 10);
    } else {
        let s = decimal(n);
        assert(s.drop_last().len() == 0);
        assert(digits_value(s.drop_last()) == 0);
        assert(s.last() == digit_char(n as int));
    }
    assert forall|i: int| 0 <= i < decimal(n).len() implies is_digit(#[trigger] decimal(n)[i]) by {
        if n >= 10 && i < decimal(n).len() - 1 {
            assert(decimal(n)[i] == decimal(n / 10)[i]);
            assert(is_digit(decimal(n / 10)[i]));
        }
    }
}

/// The number that hexadecimal digits write.
pub open spec fn hexadecimal_value(s: Seq<char>) -> nat
    decreases s.len(),
{
    if s.len() == 0 {
        0
    } else {
        let c = s.last();
        let digit = if '0' <= c && c <= '9' {
            c as u32 - '0' as u32
        } else if 'a' <= c && c <= 'f' {
            c as u32 - 'a' as u32 + 10
        } else {
            c as u32 - 'A' as u32 + 10
        };
        hexadecimal_value(s.drop_last()) * 16 + digit as nat
    }
}

/// A number is read back from its hexadecimal digits, in either letter case.
pub proof fn lemma_hexadecimal_is_read_back(n: nat, upper: bool)
    ensures
        hexadecimal(n, upper).len() > 0,
        hexadecimal_value(hexadecimal(n, upper)) == n,
    decreases n,
{
    let s = hexadecimal(n, upper);
    if n >= 16 {
        lemma_hexadecimal_is_read_back(n / 16, upper);
        assert(s.drop_last() =~= hexadecimal(n / 16, upper));
        assert(s.last() == crate::text::hex_digit_char((n % 16) as int, upper));
        assert(hexadecimal_value(s) == hexadecimal_value(hexadecimal(n / 16, upper)) * 16 + n % 16);
    } else {
        assert(s.drop_last().len() == 0);
        assert(hexadecimal_value(s.drop_last()) == 0);
        assert(s.last() == crate::text::hex_digit_char(n as int, upper));
    }
}

/// Zeros in front of a number do not change it, and every digit counts ten times the next one.
pub proof fn lemma_digits_are_positional(s: Seq<char>, d: char)
    requires
        '0' <= d && d <= '9',
    ensures
        digits_value(s.push(d)) == 10 * digits_value(s) + (d as u32 - '0' as u32),
        digits_value(seq!['0'] + s) == digits_value(s),
    decreases s.len(),
{
    assert(s.push(d).drop_last() =~= s);
    if s.len() > 0 {
        lemma_digits_are_positional(s.drop_last(), d);
        assert((seq!['0'] + s).drop_last() =~= seq!['0'] + s.drop_last());
    } else {
        assert((seq!['0'] + s).drop_last() =~= s);
    }
}

/// Case folding brings exactly the texts together that differ in the case of ASCII letters only.
pub proof fn lemma_words_in_any_case(s: Seq<char>, word: Seq<char>)
    requires
        forall|i: int| 0 <= i < word.len() ==> !('A' <= #[trigger] word[i] && word[i] <= 'Z'),
    ensures
        lowercase(word) == word,
        lowercase(s) == lowercase(word) <==> writes_word(s, word),
{
    assert(lowercase(word) =~= word);
    if lowercase(s) == lowercase(word) {
        assert(s.len() == lowercase(s).len());
        assert forall|i: int| 0 <= i < s.len() implies #[trigger] s[i] == word[i] || ('A' <= s[i]
            && s[i] <= 'Z' && (s[i] as u32) + 32 == word[i] as u32) by {
            assert(lowercase(s)[i] == word[i]);
        }
    }
    if writes_word(s, word) {
        assert forall|i: int| 0 <= i < s.len() implies lower_char(s[i]) == word[i] by {
            assert(s[i] == word[i] || ('A' <= s[i] && s[i] <= 'Z' && (s[i] as u32) + 32
                == word[i] as u32));
        }
        assert(lowercase(s) =~= word);
    }
}

/// A token is found in a field exactly where an item of some readable value writes it, in
/// whatever letter case.
pub proof fn lemma_token_is_an_item(
    headers: Seq<(Seq<char>, Seq<Seq<u8>>)>,
    name: Seq<char>,
    token: Seq<char>,
)
    requires
        forall|i: int| 0 <= i < token.len() ==> !('A' <= #[trigger] token[i] && token[i] <= 'Z'),
    ensures
        has_token(headers, name, token) <==> exists|i: int, k: int|
            0 <= i < values_of(headers, name).len() && printable(values_of(headers, name)[i]) && 0
                <= k < list_items(ascii_text(values_of(headers, name)[i])).len() && writes_word(
                #[trigger] list_items(ascii_text(values_of(headers, name)[i]))[k],
                token,
            ),
{
    let values = values_of(headers, name);
    if has_token(headers, name, token) {
        let i = choose|i: int| 0 <= i < values.len() && lists_token(#[trigger] values[i], token);
        let items = list_items(ascii_text(values[i]));
        let k = choose|k: int|
            0 <= k < items.len() && lowercase(#[trigger] items[k]) == lowercase(token);
        lemma_words_in_any_case(items[k], token);
        assert(printable(values[i])) by {
            assert forall|j: int| 0 <= j < values[i].len() implies 32 <= #[trigger] values[i][j]
                < 127 || values[i][j] == 9 by {
                assert(crate::headers::visible_byte(values[i][j]));
            }
        }
        assert(writes_word(list_items(ascii_text(values_of(headers, name)[i]))[k], token));
    }
    if exists|i: int, k: int|
        0 <= i < values.len() && printable(values[i]) && 0 <= k < list_items(
            ascii_text(values[i]),
        ).len() && writes_word(#[trigger] list_items(ascii_text(values[i]))[k], token) {
        let (i, k) = choose|i: int, k: int|
            0 <= i < values.len() && printable(values[i]) && 0 <= k < list_items(
                ascii_text(values[i]),
            ).len() && writes_word(#[trigger] list_items(ascii_text(values[i]))[k], token);
        lemma_words_in_any_case(list_items(ascii_text(values[i]))[k], token);
        assert(lists_token(values[i], token));
    }
}

} // verus!

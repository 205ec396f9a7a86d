//! Comma-separated lists and decimal numbers in field values.

use vstd::prelude::*;

verus! {

/// The position of the first comma, or the length.
pub open spec fn first_comma(s: Seq<char>) -> int
    decreases s.len(),
{
    if s.len() == 0 || s[0] == ',' {
        0
    } else {
        1 + first_comma(s.drop_first())
    }
}

/// The pieces between the commas.
pub open spec fn split_commas(s: Seq<char>) -> Seq<Seq<char>>
    decreases s.len(),
{
    let at = first_comma(s);
    if 0 <= at < s.len() {
        seq![s.take(at)] + split_commas(s.skip(at + 1))
    } else {
        seq![s]
    }
}

/// White space around an item.
pub open spec fn blank(c: char) -> bool {
    c == ' ' || c == '\t'
}

/// The text without white space at its ends.
pub open spec fn trimmed(s: Seq<char>) -> Seq<char>
    decreases s.len(),
{
    if s.len() > 0 && blank(s[0]) {
        trimmed(s.drop_first())
    } else if s.len() > 0 && blank(s.last()) {
        trimmed(s.drop_last())
    } else {
        s
    }
}

/// The items of a comma-separated list.
pub open spec fn list_items(s: Seq<char>) -> Seq<Seq<char>> {
    split_commas(s).map_values(|piece: Seq<char>| trimmed(piece))
}

pub open spec fn is_digit(c: char) -> bool {
    '0' <= c && c <= '9'
}

/// A text of digits only.
pub open spec fn all_digits(s: Seq<char>) -> bool {
    forall|i: int| 0 <= i < s.len() ==> is_digit(#[trigger] s[i])
}

/// The number that a text of digits writes.
pub open spec fn digits_value(s: Seq<char>) -> nat
    decreases s.len(),
{
    if s.len() == 0 {
        0
    } else {
        digits_value(s.drop_last()) * 10 + ((s.last() as u32) - 0x30) as nat
    }
}

proof fn lemma_first_comma(s: Seq<char>, at: int)
    requires
        0 <= at <= s.len(),
        forall|i: int| 0 <= i < at ==> s[i] != ',',
        at < s.len() ==> s[at] == ',',
    ensures
        first_comma(s) == at,
    decreases s.len(),
{
    if s.len() > 0 && s[0] != ',' {
        lemma_first_comma(s.drop_first(), at - 1);
    }
}

/// A list has at least one item, which may be empty.
pub proof fn lemma_list_is_not_empty(s: Seq<char>)
    ensures
        list_items(s).len() > 0,
{
}

/// The values behind a vector of character strings.
pub open spec fn texts(v: Seq<Vec<char>>) -> Seq<Seq<char>> {
    v.map_values(|item: Vec<char>| item@)
}

fn copy_chars(s: &[char], from: usize, to: usize) -> (r: Vec<char>)
    requires
        from <= to <= s@.len(),
    ensures
        r@ == s@.subrange(from as int, to as int),
{
    let mut out: Vec<char> = Vec::new();
    let mut i: usize = from;
    while i < to
        invariant
            from <= i <= to <= s@.len(),
            out@ == s@.subrange(from as int, i as int),
        decreases to - i,
    {
        out.push(s[i]);
        proof {
            assert(out@ =~= s@.subrange(from as int, i + 1));
        }
        i += 1;
    }
    out
}

fn trim(s: &[char], from: usize, to: usize) -> (r: Vec<char>)
    requires
        from <= to <= s@.len(),
    ensures
        r@ == trimmed(s@.subrange(from as int, to as int)),
{
    let mut lo: usize = from;
    let mut hi: usize = to;
    while lo < hi && (s[lo] == ' ' || s[lo] == '\t')
        invariant
            from <= lo <= hi == to <= s@.len(),
            trimmed(s@.subrange(from as int, to as int)) == trimmed(
                s@.subrange(lo as int, hi as int),
            ),
        decreases hi - lo,
    {
        proof {
            assert(s@.subrange(lo as int, hi as int).drop_first() =~= s@.subrange(
                lo + 1,
                hi as int,
            ));
        }
        lo += 1;
    }
    while lo < hi && (s[hi - 1] == ' ' || s[hi - 1] == '\t')
        invariant
            from <= lo <= hi <= to <= s@.len(),
            lo < hi ==> !blank(s@[lo as int]),
            trimmed(s@.subrange(from as int, to as int)) == trimmed(
                s@.subrange(lo as int, hi as int),
            ),
        decreases hi - lo,
    {
        proof {
            assert(s@.subrange(lo as int, hi as int).drop_last() =~= s@.subrange(
                lo as int,
                hi - 1,
            ));
        }
        hi -= 1;
    }
    copy_chars(s, lo, hi)
}

/// Split a text at its commas and trim each item.
pub fn items_of(s: &[char]) -> (r: Vec<Vec<char>>)
    ensures
        texts(r@) == list_items(s@),
{
    let mut out: Vec<Vec<char>> = Vec::new();
    let mut start: usize = 0;
    let mut i: usize = 0;
    proof {
        assert(s@.skip(0) =~= s@);
        assert(texts(out@) + list_items(s@) =~= list_items(s@));
    }
    while i < s.len()
        invariant
            start <= i <= s@.len(),
            forall|j: int| start <= j < i ==> s@[j] != ',',
            list_items(s@) == texts(out@) + list_items(s@.skip(start as int)),
        decreases s@.len() - i,
    {
        if s[i] == ',' {
            let ghost rest = s@.skip(start as int);
            let ghost before = out@;
            let item = trim(s, start, i);
            proof {
                lemma_first_comma(rest, i - start);
                assert(rest.take(i - start) =~= s@.subrange(start as int, i as int));
                assert(rest.skip(i - start + 1) =~= s@.skip(i + 1));
                assert(list_items(rest) =~= seq![item@] + list_items(s@.skip(i + 1)));
            }
            out.push(item);
            proof {
                assert(texts(out@) =~= texts(before).push(item@));
                assert(texts(before) + (seq![item@] + list_items(s@.skip(i + 1))) =~= texts(out@)
                    + list_items(s@.skip(i + 1)));
            }
            start = i + 1;
        }
        i += 1;
    }
    let ghost rest = s@.skip(start as int);
    let ghost before = out@;
    let item = trim(s, start, s.len());
    proof {
        lemma_first_comma(rest, s@.len() - start);
        assert(rest =~= s@.subrange(start as int, s@.len() as int));
        assert(list_items(rest) =~= seq![item@]);
    }
    out.push(item);
    proof {
        assert(texts(out@) =~= texts(before) + seq![item@]);
    }
    out
}

/// Whether a text consists of digits only.
pub fn is_all_digits(s: &[char]) -> (r: bool)
    ensures
        r == all_digits(s@),
{
    let mut i: usize = 0;
    while i < s.len()
        invariant
            i <= s@.len(),
            forall|j: int| 0 <= j < i ==> is_digit(#[trigger] s@[j]),
        decreases s@.len() - i,
    {
        if !('0' <= s[i] && s[i] <= '9') {
            proof {
                assert(!is_digit(s@[i as int]));
            }
            return false;
        }
        i += 1;
    }
    true
}

proof fn lemma_prefix_value(s: Seq<char>, n: int)
    requires
        0 <= n <= s.len(),
        all_digits(s),
    ensures
        digits_value(s.take(n)) <= digits_value(s),
    decreases s.len() - n,
{
    if n == s.len() {
        assert(s.take(n) =~= s);
    } else {
        lemma_prefix_value(s, n + 1);
        assert(s.take(n + 1).drop_last() =~= s.take(n));
        assert(is_digit(s[n]));
    }
}

/// The number that a text of digits writes, if it fits in a machine word.
pub fn number_of(s: &[char]) -> (r: Option<usize>)
    requires
        all_digits(s@),
    ensures
        match r {
            Some(n) => n == digits_value(s@),
            None => digits_value(s@) > usize::MAX,
        },
{
    let mut value: usize = 0;
    let mut i: usize = 0;
    proof {
        assert(s@.take(0) =~= Seq::<char>::empty());
    }
    while i < s.len()
        invariant
            i <= s@.len(),
            all_digits(s@),
            value == digits_value(s@.take(i as int)),
        decreases s@.len() - i,
    {
        proof {
            assert(is_digit(s@[i as int]));
            assert(s@.take(i + 1).drop_last() =~= s@.take(i as int));
            lemma_prefix_value(s@, i + 1);
        }
        let digit: usize = (s[i] as u32 - 0x30) as usize;
        match value.checked_mul(10) {
            Some(shifted) => match shifted.checked_add(digit) {
                Some(next) => {
                    value = next;
                },
                None => {
                    return None;
                },
            },
            None => {
                return None;
            },
        }
        i += 1;
    }
    proof {
        assert(s@.take(i as int) =~= s@);
    }
    Some(value)
}

} // verus!

//! Header fields of requests and responses.

use vstd::prelude::*;
use vstd::utf8::{encode_utf8, is_ascii_chars_encode_utf8};

use crate::text::{copy_bytes, lower_byte, lower_char, lowercase, lowercase_bytes};

verus! {

/// The multimap of header fields.
#[verifier::external_type_specification]
#[verifier::external_body]
#[verifier::reject_recursive_types(T)]
pub struct ExHeaderMap<T>(http::HeaderMap<T>);

/// The value type of the multimap.
#[verifier::external_type_specification]
#[verifier::external_body]
pub struct ExHeaderValue(http::HeaderValue);

/// The fields of a map: each name with its values, names in the order in which the map walks
/// them, and the values of one name in the order in which they were added.
pub uninterp spec fn header_groups(map: http::HeaderMap<http::HeaderValue>) -> Seq<
    (Seq<char>, Seq<Seq<u8>>),
>;

/// A map is asked to hold at most this many names.
pub const MAX_HEADER_NAMES: usize = 6553;

/// A byte that may stand in a field name.
pub open spec fn name_byte(b: u8) -> bool {
    ||| 0x30 <= b <= 0x39
    ||| 0x41 <= b <= 0x5a
    ||| 0x61 <= b <= 0x7a
    ||| b == 0x21 || b == 0x22 || b == 0x23 || b == 0x24 || b == 0x25 || b == 0x26 || b == 0x27
    ||| b == 0x2a || b == 0x2b || b == 0x2d || b == 0x2e
    ||| b == 0x5e || b == 0x5f || b == 0x60 || b == 0x7c || b == 0x7e
}

/// A field name in any letter case.
pub open spec fn valid_name(bytes: Seq<u8>) -> bool {
    0 < bytes.len() <= 0xffff && forall|i: int|
        0 <= i < bytes.len() ==> name_byte(#[trigger] bytes[i])
}

/// A field name as text, in any letter case.
pub open spec fn valid_name_text(text: Seq<char>) -> bool {
    0 < text.len() <= 0xffff && forall|i: int|
        0 <= i < text.len() ==> name_char(#[trigger] text[i])
}

/// A character that may stand in a field name.
pub open spec fn name_char(c: char) -> bool {
    (c as u32) < 128 && name_byte((c as u32) as u8)
}

/// A byte that may stand in a field value.
pub open spec fn value_byte(b: u8) -> bool {
    (b >= 32 && b != 127) || b == 9
}

/// A field value.
pub open spec fn valid_value(bytes: Seq<u8>) -> bool {
    forall|i: int| 0 <= i < bytes.len() ==> value_byte(#[trigger] bytes[i])
}

/// A byte that is printable ASCII, a space or a tab.
pub open spec fn visible_byte(b: u8) -> bool {
    (b >= 32 && b < 127) || b == 9
}

/// A value made of visible bytes only.
pub open spec fn visible(bytes: Seq<u8>) -> bool {
    forall|i: int| 0 <= i < bytes.len() ==> visible_byte(#[trigger] bytes[i])
}

/// ASCII bytes as text.
pub open spec fn ascii_text(bytes: Seq<u8>) -> Seq<char> {
    bytes.map_values(|b: u8| b as char)
}

/// The position of the first group with a given name, or the number of groups.
pub open spec fn position(groups: Seq<(Seq<char>, Seq<Seq<u8>>)>, name: Seq<char>) -> int
    decreases groups.len(),
{
    if groups.len() == 0 {
        0
    } else if groups[0].0 == name {
        0
    } else {
        1 + position(groups.drop_first(), name)
    }
}

/// The values of a name.
pub open spec fn values_of(
    groups: Seq<(Seq<char>, Seq<Seq<u8>>)>,
    name: Seq<char>,
) -> Seq<Seq<u8>> {
    let at = position(groups, name);
    if at < groups.len() {
        groups[at].1
    } else {
        Seq::empty()
    }
}

/// The map with the values of `name` replaced by one.
pub open spec fn with_inserted(
    groups: Seq<(Seq<char>, Seq<Seq<u8>>)>,
    name: Seq<char>,
    value: Seq<u8>,
) -> Seq<(Seq<char>, Seq<Seq<u8>>)> {
    let at = position(groups, name);
    if at < groups.len() {
        groups.update(at, (name, seq![value]))
    } else {
        groups.push((name, seq![value]))
    }
}

/// The map with one more value of `name`.
pub open spec fn with_appended(
    groups: Seq<(Seq<char>, Seq<Seq<u8>>)>,
    name: Seq<char>,
    value: Seq<u8>,
) -> Seq<(Seq<char>, Seq<Seq<u8>>)> {
    let at = position(groups, name);
    if at < groups.len() {
        groups.update(at, (name, groups[at].1.push(value)))
    } else {
        groups.push((name, seq![value]))
    }
}

/// The map without `name`: the last name moves into its place.
pub open spec fn with_removed(
    groups: Seq<(Seq<char>, Seq<Seq<u8>>)>,
    name: Seq<char>,
) -> Seq<(Seq<char>, Seq<Seq<u8>>)> {
    let at = position(groups, name);
    if at < groups.len() {
        groups.update(at, groups.last()).drop_last()
    } else {
        groups
    }
}

/// The fields of a request with a JSON body: a content type that was set before is kept.
pub open spec fn with_json_type(
    groups: Seq<(Seq<char>, Seq<Seq<u8>>)>,
) -> Seq<(Seq<char>, Seq<Seq<u8>>)> {
    if values_of(groups, "content-type"@).len() > 0 {
        groups
    } else {
        with_inserted(groups, "content-type"@, encode_utf8("application/json"@))
    }
}

/// The fields without the given names, taken away one by one.
pub open spec fn without_names(
    groups: Seq<(Seq<char>, Seq<Seq<u8>>)>,
    removed: Seq<Seq<char>>,
) -> Seq<(Seq<char>, Seq<Seq<u8>>)>
    decreases removed.len(),
{
    if removed.len() == 0 {
        groups
    } else {
        with_removed(without_names(groups, removed.drop_last()), removed.last())
    }
}

/// The fields of one name.
pub open spec fn group_entries(name: Seq<char>, values: Seq<Seq<u8>>) -> Seq<(Seq<char>, Seq<u8>)> {
    values.map_values(|value: Seq<u8>| (name, value))
}

/// The fields of a map, one by one.
pub open spec fn all_entries(
    groups: Seq<(Seq<char>, Seq<Seq<u8>>)>,
) -> Seq<(Seq<char>, Seq<u8>)>
    decreases groups.len(),
{
    if groups.len() == 0 {
        Seq::empty()
    } else {
        all_entries(groups.drop_last()) + group_entries(groups.last().0, groups.last().1)
    }
}

/// The map with more fields added one by one.
pub open spec fn with_all_appended(
    groups: Seq<(Seq<char>, Seq<Seq<u8>>)>,
    entries: Seq<(Seq<char>, Seq<u8>)>,
) -> Seq<(Seq<char>, Seq<Seq<u8>>)>
    decreases entries.len(),
{
    if entries.len() == 0 {
        groups
    } else {
        with_appended(
            with_all_appended(groups, entries.drop_last()),
            entries.last().0,
            entries.last().1,
        )
    }
}

/// No name stands in two groups.
pub open spec fn names_distinct(groups: Seq<(Seq<char>, Seq<Seq<u8>>)>) -> bool {
    forall|i: int, j: int|
        0 <= i < j < groups.len() ==> (#[trigger] groups[i]).0 != (#[trigger] groups[j]).0
}

/// `HeaderMap::new`: the new map has no fields.
#[verifier::external_body]
fn map_new() -> (r: http::HeaderMap<http::HeaderValue>)
    ensures
        header_groups(r) == Seq::<(Seq<char>, Seq<Seq<u8>>)>::empty(),
{
    http::HeaderMap::new()
}

/// `HeaderMap::clone`: the copy has the same fields in the same order.
#[verifier::external_body]
fn map_clone(map: &http::HeaderMap<http::HeaderValue>) -> (r: http::HeaderMap<http::HeaderValue>)
    ensures
        header_groups(r) == header_groups(*map),
{
    map.clone()
}

/// `HeaderName::from_bytes`: accepts exactly the valid names, in any letter case, and folds them
/// to lower case.
#[verifier::external_body]
fn name_from_bytes(bytes: &[u8]) -> (r: Result<String, String>)
    ensures
        match r {
            Ok(name) => valid_name(bytes@) && name@ == ascii_text(lowercase_bytes(bytes@)),
            Err(message) => !valid_name(bytes@) && message@ == "invalid HTTP header name"@,
        },
{
    http::HeaderName::from_bytes(bytes).map(|name| name.as_str().to_owned()).map_err(
        |error| error.to_string(),
    )
}

/// `HeaderMap::insert` with a valid name and value: the values of the name are replaced in place,
/// or a new name is added behind the others.
#[verifier::external_body]
fn map_insert(map: &mut http::HeaderMap<http::HeaderValue>, name: &str, value: &[u8])
    requires
        valid_name_text(name@),
        valid_value(value@),
        header_groups(*old(map)).len() < MAX_HEADER_NAMES,
    ensures
        header_groups(*final(map)) == with_inserted(
            header_groups(*old(map)),
            lowercase(name@),
            value@,
        ),
{
    let name = http::HeaderName::from_bytes(name.as_bytes()).expect("valid name");
    map.insert(name, http::HeaderValue::from_bytes(value).expect("valid value"));
}

/// `HeaderMap::append` with a valid name and value: the value is added behind those of the same
/// name, or a new name is added behind the others.
#[verifier::external_body]
fn map_append(map: &mut http::HeaderMap<http::HeaderValue>, name: &str, value: &[u8])
    requires
        valid_name_text(name@),
        valid_value(value@),
        header_groups(*old(map)).len() < MAX_HEADER_NAMES,
    ensures
        header_groups(*final(map)) == with_appended(
            header_groups(*old(map)),
            lowercase(name@),
            value@,
        ),
{
    let name = http::HeaderName::from_bytes(name.as_bytes()).expect("valid name");
    map.append(name, http::HeaderValue::from_bytes(value).expect("valid value"));
}

/// `HeaderMap::remove` with a valid name: the name and its values leave, and the last name moves
/// into the place.
#[verifier::external_body]
fn map_remove(map: &mut http::HeaderMap<http::HeaderValue>, name: &str)
    requires
        valid_name_text(name@),
    ensures
        header_groups(*final(map)) == with_removed(header_groups(*old(map)), lowercase(name@)),
{
    map.remove(name);
}

/// `HeaderMap::get_all` with a valid name: the values of the name, in order.
#[verifier::external_body]
fn map_get_all(map: &http::HeaderMap<http::HeaderValue>, name: &str) -> (r: Vec<Vec<u8>>)
    requires
        valid_name_text(name@),
    ensures
        r@.map_values(|value: Vec<u8>| value@) == values_of(header_groups(*map), lowercase(name@)),
{
    map.get_all(name).iter().map(|value| value.as_bytes().to_vec()).collect()
}

/// `HeaderMap::iter`: every field, in the order of the map. Its names are valid and in lower case,
/// and its values are valid.
#[verifier::external_body]
fn map_entries(map: &http::HeaderMap<http::HeaderValue>) -> (r: Vec<(String, Vec<u8>)>)
    ensures
        forall|i: int|
            0 <= i < r@.len() ==> valid_name_text((#[trigger] r@[i]).0@) && lowercase(r@[i].0@)
                == r@[i].0@ && valid_value(r@[i].1@),
        r@.map_values(|entry: (String, Vec<u8>)| (entry.0@, entry.1@)) == all_entries(
            header_groups(*map),
        ),
{
    map.iter().map(
        |(name, value)| (name.as_str().to_owned(), value.as_bytes().to_vec()),
    ).collect()
}

/// `HeaderMap::keys_len`: the number of names.
#[verifier::external_body]
fn map_keys_len(map: &http::HeaderMap<http::HeaderValue>) -> (r: usize)
    ensures
        r == header_groups(*map).len(),
{
    map.keys_len()
}

proof fn lemma_position(groups: Seq<(Seq<char>, Seq<Seq<u8>>)>, name: Seq<char>)
    ensures
        0 <= position(groups, name) <= groups.len(),
        position(groups, name) < groups.len() ==> groups[position(groups, name)].0 == name,
        forall|i: int|
            0 <= i < position(groups, name) ==> (#[trigger] groups[i]).0 != name,
    decreases groups.len(),
{
    if groups.len() > 0 && groups[0].0 != name {
        let rest = groups.drop_first();
        lemma_position(rest, name);
        assert forall|i: int| 0 <= i < position(groups, name) implies (#[trigger] groups[i]).0
            != name by {
            if i > 0 {
                assert(rest[i - 1] == groups[i]);
            }
        }
    }
}

/// Where no group has the name, its position is the end.
proof fn lemma_position_absent(groups: Seq<(Seq<char>, Seq<Seq<u8>>)>, name: Seq<char>)
    requires
        forall|i: int| 0 <= i < groups.len() ==> (#[trigger] groups[i]).0 != name,
    ensures
        position(groups, name) == groups.len(),
{
    lemma_position(groups, name);
}

/// Where names are distinct, a group that has the name is the one found.
proof fn lemma_position_present(
    groups: Seq<(Seq<char>, Seq<Seq<u8>>)>,
    name: Seq<char>,
    at: int,
)
    requires
        names_distinct(groups),
        0 <= at < groups.len(),
        groups[at].0 == name,
    ensures
        position(groups, name) == at,
{
    lemma_position(groups, name);
}

/// An inserted value is the only one of its name, other names keep theirs, and names stay
/// distinct.
pub proof fn lemma_inserted(
    groups: Seq<(Seq<char>, Seq<Seq<u8>>)>,
    name: Seq<char>,
    value: Seq<u8>,
    other: Seq<char>,
)
    requires
        names_distinct(groups),
    ensures
        names_distinct(with_inserted(groups, name, value)),
        values_of(with_inserted(groups, name, value), name) == seq![value],
        other != name ==> values_of(with_inserted(groups, name, value), other) == values_of(
            groups,
            other,
        ),
{
    let after = with_inserted(groups, name, value);
    let at = position(groups, name);
    lemma_position(groups, name);
    lemma_position(groups, other);
    lemma_position_present(after, name, at);
    if other != name {
        let there = position(groups, other);
        if there < groups.len() {
            lemma_position_present(after, other, there);
        } else {
            assert forall|i: int| 0 <= i < after.len() implies (#[trigger] after[i]).0 != other by {
                if i < groups.len() {
                    assert(groups[i].0 != other);
                }
            }
            lemma_position_absent(after, other);
        }
    }
}

/// An appended value comes behind those of its name, other names keep theirs, and names stay
/// distinct.
pub proof fn lemma_appended(
    groups: Seq<(Seq<char>, Seq<Seq<u8>>)>,
    name: Seq<char>,
    value: Seq<u8>,
    other: Seq<char>,
)
    requires
        names_distinct(groups),
    ensures
        names_distinct(with_appended(groups, name, value)),
        values_of(with_appended(groups, name, value), name) == values_of(groups, name).push(value),
        other != name ==> values_of(with_appended(groups, name, value), other) == values_of(
            groups,
            other,
        ),
{
    let after = with_appended(groups, name, value);
    let at = position(groups, name);
    lemma_position(groups, name);
    lemma_position(groups, other);
    lemma_position_present(after, name, at);
    assert(values_of(after, name) =~= values_of(groups, name).push(value));
    if other != name {
        let there = position(groups, other);
        if there < groups.len() {
            lemma_position_present(after, other, there);
        } else {
            assert forall|i: int| 0 <= i < after.len() implies (#[trigger] after[i]).0 != other by {
                if i < groups.len() {
                    assert(groups[i].0 != other);
                }
            }
            lemma_position_absent(after, other);
        }
    }
}

/// A removed name has no values, other names keep theirs, and names stay distinct.
pub proof fn lemma_removed(
    groups: Seq<(Seq<char>, Seq<Seq<u8>>)>,
    name: Seq<char>,
    other: Seq<char>,
)
    requires
        names_distinct(groups),
    ensures
        names_distinct(with_removed(groups, name)),
        values_of(with_removed(groups, name), name) == Seq::<Seq<u8>>::empty(),
        other != name ==> values_of(with_removed(groups, name), other) == values_of(groups, other),
{
    let after = with_removed(groups, name);
    let at = position(groups, name);
    let last = groups.len() - 1;
    lemma_position(groups, name);
    lemma_position(groups, other);
    if at < groups.len() {
        assert forall|i: int| 0 <= i < after.len() implies #[trigger] after[i] == (if i == at {
            groups[last]
        } else {
            groups[i]
        }) by {}
        assert forall|i: int| 0 <= i < after.len() implies (#[trigger] after[i]).0 != name by {
            assert(groups[i].0 != name || i == at);
            assert(groups[last].0 != name || last == at);
        }
        lemma_position_absent(after, name);
        if other != name {
            let there = position(groups, other);
            if there < groups.len() {
                let moved = if there == last {
                    at
                } else {
                    there
                };
                assert(after[moved] == groups[there]);
                lemma_position_present(after, other, moved);
            } else {
                assert forall|i: int| 0 <= i < after.len() implies (#[trigger] after[i]).0
                    != other by {
                    assert(groups[i].0 != other);
                    assert(groups[last].0 != other);
                }
                lemma_position_absent(after, other);
            }
        }
    }
}

/// Taking names away leaves none of their values and all others.
pub proof fn lemma_without_names(
    groups: Seq<(Seq<char>, Seq<Seq<u8>>)>,
    removed: Seq<Seq<char>>,
    name: Seq<char>,
)
    requires
        names_distinct(groups),
    ensures
        names_distinct(without_names(groups, removed)),
        removed.contains(name) ==> values_of(without_names(groups, removed), name).len() == 0,
        !removed.contains(name) ==> values_of(without_names(groups, removed), name) == values_of(
            groups,
            name,
        ),
    decreases removed.len(),
{
    if removed.len() > 0 {
        let before = removed.drop_last();
        lemma_without_names(groups, before, name);
        lemma_removed(without_names(groups, before), removed.last(), name);
        if removed.contains(name) {
            let i = choose|i: int| 0 <= i < removed.len() && removed[i] == name;
            if i < before.len() {
                assert(before[i] == name);
            }
        } else {
            assert(removed[removed.len() - 1] == removed.last());
            if before.contains(name) {
                let i = choose|i: int| 0 <= i < before.len() && before[i] == name;
                assert(removed[i] == name);
            }
        }
    }
}

/// The names of fields, one by one.
pub open spec fn entry_names(entries: Seq<(Seq<char>, Seq<u8>)>) -> Seq<Seq<char>> {
    entries.map_values(|entry: (Seq<char>, Seq<u8>)| entry.0)
}

/// The map with the fields of another put over it: a name of the other replaces every value that
/// the name had.
pub open spec fn overlaid(
    groups: Seq<(Seq<char>, Seq<Seq<u8>>)>,
    other: Seq<(Seq<char>, Seq<Seq<u8>>)>,
) -> Seq<(Seq<char>, Seq<Seq<u8>>)> {
    with_all_appended(without_names(groups, entry_names(all_entries(other))), all_entries(other))
}

/// The values of a name among fields.
spec fn entry_values(entries: Seq<(Seq<char>, Seq<u8>)>, name: Seq<char>) -> Seq<Seq<u8>>
    decreases entries.len(),
{
    if entries.len() == 0 {
        Seq::empty()
    } else if entries.last().0 == name {
        entry_values(entries.drop_last(), name).push(entries.last().1)
    } else {
        entry_values(entries.drop_last(), name)
    }
}

/// Added fields come behind the values that their name had.
proof fn lemma_all_appended(
    groups: Seq<(Seq<char>, Seq<Seq<u8>>)>,
    entries: Seq<(Seq<char>, Seq<u8>)>,
    name: Seq<char>,
)
    requires
        names_distinct(groups),
    ensures
        names_distinct(with_all_appended(groups, entries)),
        values_of(with_all_appended(groups, entries), name) == values_of(groups, name)
            + entry_values(entries, name),
    decreases entries.len(),
{
    if entries.len() == 0 {
        assert(values_of(groups, name) + entry_values(entries, name) =~= values_of(groups, name));
    } else {
        let before = with_all_appended(groups, entries.drop_last());
        lemma_all_appended(groups, entries.drop_last(), name);
        lemma_appended(before, entries.last().0, entries.last().1, name);
        assert(values_of(with_all_appended(groups, entries), name) =~= values_of(groups, name)
            + entry_values(entries, name));
    }
}

/// The values of a name among fields in two parts.
proof fn lemma_entry_values_joined(
    first: Seq<(Seq<char>, Seq<u8>)>,
    second: Seq<(Seq<char>, Seq<u8>)>,
    name: Seq<char>,
)
    ensures
        entry_values(first + second, name) == entry_values(first, name) + entry_values(
            second,
            name,
        ),
    decreases second.len(),
{
    if second.len() == 0 {
        assert(first + second =~= first);
    } else {
        lemma_entry_values_joined(first, second.drop_last(), name);
        assert((first + second).drop_last() =~= first + second.drop_last());
        assert((first + second).last() == second.last());
    }
    assert(entry_values(first + second, name) =~= entry_values(first, name) + entry_values(
        second,
        name,
    ));
}

/// The values of a name among the fields of one name.
proof fn lemma_group_values(own: Seq<char>, values: Seq<Seq<u8>>, name: Seq<char>)
    ensures
        entry_values(group_entries(own, values), name) == (if own == name {
            values
        } else {
            Seq::<Seq<u8>>::empty()
        }),
    decreases values.len(),
{
    let entries = group_entries(own, values);
    if values.len() > 0 {
        lemma_group_values(own, values.drop_last(), name);
        assert(entries.drop_last() =~= group_entries(own, values.drop_last()));
        assert(entries.last() == (own, values.last()));
    }
    if own == name {
        assert(entry_values(entries, name) =~= values);
    }
}

/// The fields of a map hold the values of each of its names, in order.
proof fn lemma_entries_hold_values(groups: Seq<(Seq<char>, Seq<Seq<u8>>)>, name: Seq<char>)
    requires
        names_distinct(groups),
    ensures
        entry_values(all_entries(groups), name) == values_of(groups, name),
    decreases groups.len(),
{
    lemma_position(groups, name);
    if groups.len() > 0 {
        let before = groups.drop_last();
        let last = groups.len() - 1;
        lemma_entries_hold_values(before, name);
        lemma_group_values(groups.last().0, groups.last().1, name);
        lemma_entry_values_joined(
            all_entries(before),
            group_entries(groups.last().0, groups.last().1),
            name,
        );
        lemma_position(before, name);
        if groups.last().0 == name {
            lemma_position_present(groups, name, last);
            assert forall|i: int| 0 <= i < before.len() implies (#[trigger] before[i]).0
                != name by {
                assert(groups[i].0 != groups[last].0);
            }
            lemma_position_absent(before, name);
        } else if position(before, name) < before.len() {
            lemma_position_present(groups, name, position(before, name));
        } else {
            assert forall|i: int| 0 <= i < groups.len() implies (#[trigger] groups[i]).0
                != name by {
                if i < last {
                    assert(before[i].0 != name);
                }
            }
            lemma_position_absent(groups, name);
        }
    }
    assert(entry_values(all_entries(groups), name) =~= values_of(groups, name));
}

/// A name has a value among fields exactly where a field has the name.
proof fn lemma_entry_values_present(entries: Seq<(Seq<char>, Seq<u8>)>, name: Seq<char>)
    ensures
        (entry_values(entries, name).len() > 0) == entry_names(entries).contains(name),
    decreases entries.len(),
{
    let all = entry_names(entries);
    if entries.len() > 0 {
        let before = entries.drop_last();
        let last = entries.len() - 1;
        lemma_entry_values_present(before, name);
        assert(all[last] == entries.last().0);
        if entry_names(before).contains(name) {
            let i = choose|i: int| 0 <= i < last && entry_names(before)[i] == name;
            assert(all[i] == name);
        }
        if all.contains(name) && entries.last().0 != name {
            let i = choose|i: int| 0 <= i <= last && all[i] == name;
            assert(entry_names(before)[i] == name);
        }
    }
}

/// Of each name, the map on top decides where it has a value, and the map below where it has none.
pub proof fn lemma_overlaid(
    groups: Seq<(Seq<char>, Seq<Seq<u8>>)>,
    other: Seq<(Seq<char>, Seq<Seq<u8>>)>,
    name: Seq<char>,
)
    requires
        names_distinct(groups),
        names_distinct(other),
    ensures
        names_distinct(overlaid(groups, other)),
        values_of(overlaid(groups, other), name) == (if values_of(other, name).len() > 0 {
            values_of(other, name)
        } else {
            values_of(groups, name)
        }),
{
    let entries = all_entries(other);
    let below = without_names(groups, entry_names(entries));
    lemma_without_names(groups, entry_names(entries), name);
    lemma_all_appended(below, entries, name);
    lemma_entries_hold_values(other, name);
    lemma_entry_values_present(entries, name);
    assert(values_of(overlaid(groups, other), name) =~= (if values_of(other, name).len() > 0 {
        values_of(other, name)
    } else {
        values_of(groups, name)
    }));
}

/// Fields that are added come behind the ones that were there: of each name all values stay, in
/// their order.
pub proof fn lemma_added(
    groups: Seq<(Seq<char>, Seq<Seq<u8>>)>,
    other: Seq<(Seq<char>, Seq<Seq<u8>>)>,
    name: Seq<char>,
)
    requires
        names_distinct(groups),
        names_distinct(other),
    ensures
        names_distinct(with_all_appended(groups, all_entries(other))),
        values_of(with_all_appended(groups, all_entries(other)), name) == values_of(groups, name)
            + values_of(other, name),
{
    lemma_all_appended(groups, all_entries(other), name);
    lemma_entries_hold_values(other, name);
}

/// The names of the groups.
spec fn group_names(groups: Seq<(Seq<char>, Seq<Seq<u8>>)>) -> Seq<Seq<char>> {
    groups.map_values(|group: (Seq<char>, Seq<Seq<u8>>)| group.0)
}

/// Every field has the name of a group.
proof fn lemma_entry_name(groups: Seq<(Seq<char>, Seq<Seq<u8>>)>, i: int)
    requires
        0 <= i < all_entries(groups).len(),
    ensures
        group_names(groups).contains(all_entries(groups)[i].0),
    decreases groups.len(),
{
    if groups.len() > 0 {
        let before = all_entries(groups.drop_last());
        let last = groups.len() - 1;
        if i < before.len() {
            lemma_entry_name(groups.drop_last(), i);
            let k = choose|k: int|
                0 <= k < last && group_names(groups.drop_last())[k] == before[i].0;
            assert(group_names(groups)[k] == before[i].0);
        } else {
            assert(group_names(groups)[last] == groups.last().0);
        }
    }
}

/// Adding fields brings no names but those of the fields.
proof fn lemma_appended_names(
    groups: Seq<(Seq<char>, Seq<Seq<u8>>)>,
    entries: Seq<(Seq<char>, Seq<u8>)>,
    i: int,
)
    requires
        0 <= i < with_all_appended(groups, entries).len(),
    ensures
        ({
            let name = with_all_appended(groups, entries)[i].0;
            ||| group_names(groups).contains(name)
            ||| exists|k: int| 0 <= k < entries.len() && (#[trigger] entries[k]).0 == name
        }),
    decreases entries.len(),
{
    if entries.len() == 0 {
        assert(group_names(groups)[i] == groups[i].0);
    } else {
        let before = with_all_appended(groups, entries.drop_last());
        let last = entries.len() - 1;
        lemma_position(before, entries.last().0);
        if i < before.len() && before[i].0 == with_all_appended(groups, entries)[i].0 {
            lemma_appended_names(groups, entries.drop_last(), i);
            let name = before[i].0;
            if !group_names(groups).contains(name) {
                let k = choose|k: int|
                    0 <= k < last && (#[trigger] entries.drop_last()[k]).0 == name;
                assert(entries[k].0 == name);
            }
        } else {
            assert(entries[last].0 == with_all_appended(groups, entries)[i].0);
        }
    }
}

/// A map to which some fields of another were added has at most the names of both.
proof fn lemma_names_bound(
    groups: Seq<(Seq<char>, Seq<Seq<u8>>)>,
    other: Seq<(Seq<char>, Seq<Seq<u8>>)>,
    n: int,
)
    requires
        0 <= n <= all_entries(other).len(),
        names_distinct(with_all_appended(groups, all_entries(other).take(n))),
    ensures
        with_all_appended(groups, all_entries(other).take(n)).len() <= groups.len() + other.len(),
{
    let entries = all_entries(other).take(n);
    let after = with_all_appended(groups, entries);
    let names = group_names(after);
    let allowed = group_names(groups) + group_names(other);
    assert(names.no_duplicates()) by {
        assert forall|i: int, j: int| 0 <= i < names.len() && 0 <= j < names.len() && i
            != j implies names[i] != names[j] by {
            if i < j {
                assert(after[i].0 != after[j].0);
            } else {
                assert(after[j].0 != after[i].0);
            }
        }
    }
    assert forall|i: int| 0 <= i < names.len() implies allowed.contains(#[trigger] names[i]) by {
        lemma_appended_names(groups, entries, i);
        let name = names[i];
        assert(name == after[i].0);
        if group_names(groups).contains(name) {
            let k = choose|k: int| 0 <= k < groups.len() && group_names(groups)[k] == name;
            assert(allowed[k] == name);
        } else {
            let k = choose|k: int| 0 <= k < entries.len() && (#[trigger] entries[k]).0 == name;
            lemma_entry_name(other, k);
            assert(all_entries(other)[k] == entries[k]);
            let m = choose|m: int| 0 <= m < other.len() && group_names(other)[m] == name;
            assert(allowed[groups.len() + m] == name);
        }
    }
    names.unique_seq_to_set();
    assert(names.to_set().subset_of(allowed.to_set())) by {
        assert forall|name: Seq<char>| names.to_set().contains(
            name,
        ) implies allowed.to_set().contains(name) by {
            let i = choose|i: int| 0 <= i < names.len() && names[i] == name;
            assert(allowed.contains(names[i]));
        }
    }
    vstd::seq_lib::seq_to_set_is_finite(allowed);
    vstd::set_lib::lemma_len_subset(names.to_set(), allowed.to_set());
    allowed.lemma_cardinality_of_set();
}

/// A field name: valid, and in lower case.
#[derive(Debug)]
pub struct FieldName {
    text: String,
}

impl View for FieldName {
    type V = Seq<char>;

    closed spec fn view(&self) -> Seq<char> {
        self.text@
    }
}

impl FieldName {
    #[verifier::type_invariant]
    spec fn inv(&self) -> bool {
        valid_name_text(self.text@) && lowercase(self.text@) == self.text@
    }

    /// Read a field name in any letter case.
    pub fn from_bytes(bytes: &[u8]) -> (r: Result<FieldName, String>)
        ensures
            match r {
                Ok(name) => valid_name(bytes@) && name@ == ascii_text(lowercase_bytes(bytes@)),
                Err(message) => !valid_name(bytes@) && message@ == "invalid HTTP header name"@,
            },
    {
        match name_from_bytes(bytes) {
            Ok(text) => {
                proof {
                    assert forall|i: int| 0 <= i < text@.len() implies name_char(
                        #[trigger] text@[i],
                    ) && lower_char(text@[i]) == text@[i] by {
                        assert(name_byte(bytes@[i]));
                        assert(text@[i] == lower_byte(bytes@[i]) as char);
                    }
                    assert(lowercase(text@) =~= text@);
                }
                Ok(FieldName { text })
            },
            Err(message) => Err(message),
        }
    }

    pub fn as_str(&self) -> (r: &str)
        ensures
            r@ == self@,
    {
        self.text.as_str()
    }

    /// Two names are equal when their lower-case texts are.
    pub fn same(&self, other: &FieldName) -> (r: bool)
        ensures
            r == (self@ == other@),
    {
        crate::text::text_eq(self.text.as_str(), other.text.as_str())
    }

    /// A name given as a lower-case text.
    fn from_lower(text: &str) -> (r: FieldName)
        requires
            valid_name_text(text@),
            lowercase(text@) == text@,
        ensures
            r@ == text@,
    {
        FieldName { text: text.to_owned() }
    }

    pub fn content_type() -> (r: FieldName)
        ensures
            r@ == "content-type"@,
    {
        proof {
            reveal_strlit("content-type");
            assert(lowercase("content-type"@) =~= "content-type"@);
        }
        FieldName::from_lower("content-type")
    }

    pub fn content_length() -> (r: FieldName)
        ensures
            r@ == "content-length"@,
    {
        proof {
            reveal_strlit("content-length");
            assert(lowercase("content-length"@) =~= "content-length"@);
        }
        FieldName::from_lower("content-length")
    }

    pub fn transfer_encoding() -> (r: FieldName)
        ensures
            r@ == "transfer-encoding"@,
    {
        proof {
            reveal_strlit("transfer-encoding");
            assert(lowercase("transfer-encoding"@) =~= "transfer-encoding"@);
        }
        FieldName::from_lower("transfer-encoding")
    }

    pub fn connection() -> (r: FieldName)
        ensures
            r@ == "connection"@,
    {
        proof {
            reveal_strlit("connection");
            assert(lowercase("connection"@) =~= "connection"@);
        }
        FieldName::from_lower("connection")
    }

    pub fn location() -> (r: FieldName)
        ensures
            r@ == "location"@,
    {
        proof {
            reveal_strlit("location");
            assert(lowercase("location"@) =~= "location"@);
        }
        FieldName::from_lower("location")
    }

    pub fn host() -> (r: FieldName)
        ensures
            r@ == "host"@,
    {
        proof {
            reveal_strlit("host");
            assert(lowercase("host"@) =~= "host"@);
        }
        FieldName::from_lower("host")
    }

    pub fn authorization() -> (r: FieldName)
        ensures
            r@ == "authorization"@,
    {
        proof {
            reveal_strlit("authorization");
            assert(lowercase("authorization"@) =~= "authorization"@);
        }
        FieldName::from_lower("authorization")
    }

    pub fn cookie() -> (r: FieldName)
        ensures
            r@ == "cookie"@,
    {
        proof {
            reveal_strlit("cookie");
            assert(lowercase("cookie"@) =~= "cookie"@);
        }
        FieldName::from_lower("cookie")
    }

    pub fn proxy_authorization() -> (r: FieldName)
        ensures
            r@ == "proxy-authorization"@,
    {
        proof {
            reveal_strlit("proxy-authorization");
            assert(lowercase("proxy-authorization"@) =~= "proxy-authorization"@);
        }
        FieldName::from_lower("proxy-authorization")
    }
}

impl Clone for FieldName {
    fn clone(&self) -> (r: FieldName)
        ensures
            r@ == self@,
    {
        proof {
            use_type_invariant(self);
        }
        FieldName { text: self.text.clone() }
    }
}

/// The names of a list of fields.
pub open spec fn names(v: Seq<FieldName>) -> Seq<Seq<char>> {
    v.map_values(|name: FieldName| name@)
}

/// Whether a name stands in a list.
pub fn has_name(list: &Vec<FieldName>, name: &FieldName) -> (r: bool)
    ensures
        r == names(list@).contains(name@),
{
    let mut i: usize = 0;
    while i < list.len()
        invariant
            i <= list@.len(),
            forall|j: int| 0 <= j < i ==> names(list@)[j] != name@,
        decreases list@.len() - i,
    {
        proof {
            assert(names(list@)[i as int] == list@[i as int]@);
        }
        if list[i].same(name) {
            return true;
        }
        i += 1;
    }
    false
}

/// The names after one more was marked; a name that is marked stays where it is.
pub open spec fn with_name(marked: Seq<Seq<char>>, name: Seq<char>) -> Seq<Seq<char>> {
    if marked.contains(name) {
        marked
    } else {
        marked.push(name)
    }
}

/// A field value.
#[derive(Debug)]
pub struct FieldValue {
    bytes: Vec<u8>,
}

impl View for FieldValue {
    type V = Seq<u8>;

    closed spec fn view(&self) -> Seq<u8> {
        self.bytes@
    }
}

fn is_valid_value(bytes: &[u8]) -> (r: bool)
    ensures
        r == valid_value(bytes@),
{
    let mut i: usize = 0;
    while i < bytes.len()
        invariant
            i <= bytes@.len(),
            forall|j: int| 0 <= j < i ==> value_byte(#[trigger] bytes@[j]),
        decreases bytes@.len() - i,
    {
        let b = bytes[i];
        if !((b >= 32 && b != 127) || b == 9) {
            proof {
                assert(!value_byte(bytes@[i as int]));
            }
            return false;
        }
        i += 1;
    }
    true
}

/// The text of a value made of visible bytes only.
pub fn visible_text(bytes: &[u8]) -> (r: Option<Vec<char>>)
    ensures
        match r {
            Some(text) => visible(bytes@) && text@ == ascii_text(bytes@),
            None => !visible(bytes@),
        },
{
    let mut out: Vec<char> = Vec::new();
    let mut i: usize = 0;
    while i < bytes.len()
        invariant
            i <= bytes@.len(),
            out@ == ascii_text(bytes@).take(i as int),
            forall|j: int| 0 <= j < i ==> visible_byte(#[trigger] bytes@[j]),
        decreases bytes@.len() - i,
    {
        let b = bytes[i];
        if !((b >= 32 && b < 127) || b == 9) {
            proof {
                assert(!visible_byte(bytes@[i as int]));
            }
            return None;
        }
        out.push(b as char);
        proof {
            assert(out@ =~= ascii_text(bytes@).take(i + 1));
        }
        i += 1;
    }
    proof {
        assert(ascii_text(bytes@).take(i as int) =~= ascii_text(bytes@));
    }
    Some(out)
}

impl FieldValue {
    #[verifier::type_invariant]
    spec fn inv(&self) -> bool {
        valid_value(self.bytes@)
    }

    /// Read a field value.
    pub fn from_bytes(bytes: &[u8]) -> (r: Result<FieldValue, String>)
        ensures
            match r {
                Ok(value) => valid_value(bytes@) && value@ == bytes@,
                Err(message) => !valid_value(bytes@) && message@ == "failed to parse header value"@,
            },
    {
        if is_valid_value(bytes) {
            Ok(FieldValue { bytes: copy_bytes(bytes) })
        } else {
            Err("failed to parse header value".to_owned())
        }
    }

    /// The media type of JSON.
    pub fn json_media_type() -> (r: FieldValue)
        ensures
            r@ == encode_utf8("application/json"@),
    {
        proof {
            reveal_strlit("application/json");
        }
        FieldValue::from_visible("application/json")
    }

    /// The value that a visible ASCII text writes.
    pub fn from_visible(text: &str) -> (r: FieldValue)
        requires
            forall|i: int| 0 <= i < text@.len() ==> ' ' <= #[trigger] text@[i] <= '~',
        ensures
            r@ == encode_utf8(text@),
    {
        proof {
            is_ascii_chars_encode_utf8(text@);
            assert forall|i: int| 0 <= i < encode_utf8(text@).len() implies value_byte(
                #[trigger] encode_utf8(text@)[i],
            ) by {
                assert(' ' <= text@[i] <= '~');
            }
        }
        FieldValue { bytes: copy_bytes(text.as_bytes()) }
    }

    pub fn as_bytes(&self) -> (r: &[u8])
        ensures
            r@ == self@,
    {
        self.bytes.as_slice()
    }
}

impl Clone for FieldValue {
    fn clone(&self) -> (r: FieldValue)
        ensures
            r@ == self@,
    {
        proof {
            use_type_invariant(self);
        }
        FieldValue { bytes: copy_bytes(self.bytes.as_slice()) }
    }
}

/// The header fields of a message.
#[derive(Debug)]
pub struct Headers {
    map: http::HeaderMap<http::HeaderValue>,
}

impl View for Headers {
    type V = Seq<(Seq<char>, Seq<Seq<u8>>)>;

    closed spec fn view(&self) -> Seq<(Seq<char>, Seq<Seq<u8>>)> {
        header_groups(self.map)
    }
}

impl Headers {
    /// Names are distinct.
    pub open spec fn wf(&self) -> bool {
        names_distinct(self@)
    }

    pub fn new() -> (r: Headers)
        ensures
            r.wf(),
            r@ == Seq::<(Seq<char>, Seq<Seq<u8>>)>::empty(),
    {
        Headers { map: map_new() }
    }

    /// The number of names.
    pub fn names_len(&self) -> (r: usize)
        ensures
            r == self@.len(),
    {
        map_keys_len(&self.map)
    }

    /// Replace the values of a name by one value.
    pub fn insert(&mut self, name: &FieldName, value: &FieldValue)
        requires
            old(self)@.len() < MAX_HEADER_NAMES,
        ensures
            final(self)@ == with_inserted(old(self)@, name@, value@),
            final(self)@.len() <= old(self)@.len() + 1,
            old(self).wf() ==> final(self).wf(),
    {
        proof {
            use_type_invariant(name);
            use_type_invariant(value);
            lemma_position(self@, name@);
            if self.wf() {
                lemma_inserted(self@, name@, value@, name@);
            }
        }
        map_insert(&mut self.map, name.text.as_str(), value.bytes.as_slice());
    }

    /// Add a value of a name behind those it has.
    pub fn append(&mut self, name: &FieldName, value: &FieldValue)
        requires
            old(self)@.len() < MAX_HEADER_NAMES,
        ensures
            final(self)@ == with_appended(old(self)@, name@, value@),
            final(self)@.len() <= old(self)@.len() + 1,
            old(self).wf() ==> final(self).wf(),
    {
        proof {
            use_type_invariant(name);
            use_type_invariant(value);
            lemma_position(self@, name@);
            if self.wf() {
                lemma_appended(self@, name@, value@, name@);
            }
        }
        map_append(&mut self.map, name.text.as_str(), value.bytes.as_slice());
    }

    /// Add every field of another map.
    pub fn append_all(&mut self, other: &Headers)
        requires
            old(self).wf(),
            old(self)@.len() + other@.len() < MAX_HEADER_NAMES,
        ensures
            final(self)@ == with_all_appended(old(self)@, all_entries(other@)),
            final(self).wf(),
            final(self)@.len() <= old(self)@.len() + other@.len(),
    {
        let entries = map_entries(&other.map);
        let ghost views = entries@.map_values(|entry: (String, Vec<u8>)| (entry.0@, entry.1@));
        let mut i: usize = 0;
        proof {
            assert(views.take(0) =~= Seq::<(Seq<char>, Seq<u8>)>::empty());
        }
        while i < entries.len()
            invariant
                i <= entries@.len(),
                views == entries@.map_values(|entry: (String, Vec<u8>)| (entry.0@, entry.1@)),
                forall|i: int|
                    0 <= i < entries@.len() ==> valid_name_text((#[trigger] entries@[i]).0@)
                        && lowercase(entries@[i].0@) == entries@[i].0@ && valid_value(
                        entries@[i].1@,
                    ),
                self@ == with_all_appended(old(self)@, views.take(i as int)),
                self.wf(),
                views == all_entries(other@),
                old(self)@.len() + other@.len() < MAX_HEADER_NAMES,
            decreases entries@.len() - i,
        {
            let entry = &entries[i];
            proof {
                assert(views.take(i + 1).drop_last() =~= views.take(i as int));
                assert(views.take(i + 1).last() == (entry.0@, entry.1@));
                lemma_names_bound(old(self)@, other@, i as int);
                lemma_appended(self@, entry.0@, entry.1@, entry.0@);
            }
            map_append(&mut self.map, entry.0.as_str(), entry.1.as_slice());
            i += 1;
        }
        proof {
            assert(views.take(i as int) =~= views);
            lemma_names_bound(old(self)@, other@, i as int);
        }
    }

    /// Put every field of another map over these: its names replace the values that they had.
    pub fn overlay(&mut self, other: &Headers)
        requires
            old(self).wf(),
            old(self)@.len() + other@.len() < MAX_HEADER_NAMES,
        ensures
            final(self)@ == overlaid(old(self)@, other@),
            final(self).wf(),
            final(self)@.len() <= old(self)@.len() + other@.len(),
    {
        let entries = map_entries(&other.map);
        let ghost views = entries@.map_values(|entry: (String, Vec<u8>)| (entry.0@, entry.1@));
        let ghost replaced = entry_names(views);
        let mut i: usize = 0;
        proof {
            assert(replaced.take(0) =~= Seq::<Seq<char>>::empty());
        }
        while i < entries.len()
            invariant
                i <= entries@.len(),
                views == entries@.map_values(|entry: (String, Vec<u8>)| (entry.0@, entry.1@)),
                replaced == entry_names(views),
                forall|i: int|
                    0 <= i < entries@.len() ==> valid_name_text((#[trigger] entries@[i]).0@)
                        && lowercase(entries@[i].0@) == entries@[i].0@,
                self@ == without_names(old(self)@, replaced.take(i as int)),
                self.wf(),
                self@.len() <= old(self)@.len(),
            decreases entries@.len() - i,
        {
            let entry = &entries[i];
            proof {
                assert(replaced.take(i + 1).drop_last() =~= replaced.take(i as int));
                assert(replaced.take(i + 1).last() == entry.0@);
                lemma_position(self@, entry.0@);
                lemma_removed(self@, entry.0@, entry.0@);
            }
            map_remove(&mut self.map, entry.0.as_str());
            i += 1;
        }
        proof {
            assert(replaced.take(i as int) =~= replaced);
        }
        self.append_all(other);
    }

    /// Take a name and its values away.
    pub fn remove(&mut self, name: &FieldName)
        ensures
            final(self)@ == with_removed(old(self)@, name@),
            final(self)@.len() <= old(self)@.len(),
            old(self).wf() ==> final(self).wf(),
    {
        proof {
            use_type_invariant(name);
            lemma_position(self@, name@);
            if self.wf() {
                lemma_removed(self@, name@, name@);
            }
        }
        map_remove(&mut self.map, name.text.as_str());
    }

    /// Take names and their values away.
    pub fn remove_all(&mut self, removed: &Vec<FieldName>)
        ensures
            final(self)@ == without_names(old(self)@, names(removed@)),
            old(self).wf() ==> final(self).wf(),
            final(self)@.len() <= old(self)@.len(),
    {
        let ghost views = names(removed@);
        let mut i: usize = 0;
        proof {
            assert(views.take(0) =~= Seq::<Seq<char>>::empty());
        }
        while i < removed.len()
            invariant
                i <= removed@.len(),
                views == names(removed@),
                self@ == without_names(old(self)@, views.take(i as int)),
                old(self).wf() ==> self.wf(),
                self@.len() <= old(self)@.len(),
            decreases removed@.len() - i,
        {
            proof {
                assert(views.take(i + 1).drop_last() =~= views.take(i as int));
                assert(views.take(i + 1).last() == removed@[i as int]@);
            }
            self.remove(&removed[i]);
            i += 1;
        }
        proof {
            assert(views.take(i as int) =~= views);
        }
    }

    /// The values of a name, in order.
    pub fn get_all(&self, name: &FieldName) -> (r: Vec<Vec<u8>>)
        ensures
            r@.map_values(|value: Vec<u8>| value@) == values_of(self@, name@),
    {
        proof {
            use_type_invariant(name);
        }
        map_get_all(&self.map, name.text.as_str())
    }

    /// The first value of a name.
    pub fn get(&self, name: &FieldName) -> (r: Option<Vec<u8>>)
        ensures
            match r {
                Some(value) => values_of(self@, name@).len() > 0 && value@ == values_of(
                    self@,
                    name@,
                )[0],
                None => values_of(self@, name@).len() == 0,
            },
    {
        let mut values = self.get_all(name);
        let ghost views = values@.map_values(|value: Vec<u8>| value@);
        if values.len() == 0 {
            return None;
        }
        proof {
            assert(views[0] == values@[0]@);
        }
        Some(values.swap_remove(0))
    }

    /// Whether a name has a value.
    pub fn contains_key(&self, name: &FieldName) -> (r: bool)
        ensures
            r == (values_of(self@, name@).len() > 0),
    {
        let values = self.get_all(name);
        let ghost views = values@.map_values(|value: Vec<u8>| value@);
        proof {
            assert(views.len() == values@.len());
        }
        values.len() > 0
    }

    /// Every field, in order.
    pub fn entries(&self) -> (r: Vec<(String, Vec<u8>)>)
        ensures
            r@.map_values(|entry: (String, Vec<u8>)| (entry.0@, entry.1@)) == all_entries(self@),
    {
        map_entries(&self.map)
    }
}

impl Clone for Headers {
    fn clone(&self) -> (r: Headers)
        ensures
            r@ == self@,
    {
        Headers { map: map_clone(&self.map) }
    }
}

} // verus!

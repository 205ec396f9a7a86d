//! The head of a request can be read back.

use vstd::prelude::*;

use crate::headers::{all_entries, group_entries, values_of, visible};
use crate::laws::lists::printable;
use crate::laws::scan::{first_at, lemma_first_at, stands_at};
use crate::message::Version;
use crate::request::{fields_text, head_text, host_text, length_text, shown_value, RequestHead};
use crate::text::decimal;

verus! {

/// What a head says.
pub struct ReadHead {
    pub method: Seq<char>,
    pub target: Seq<char>,
    pub version: Seq<char>,
    pub fields: Seq<(Seq<char>, Seq<char>)>,
}

/// Read field lines up to the empty line that ends a head: what stands before the first `: ` of a
/// line is a name, what stands behind it is its value.
pub open spec fn read_field_lines(text: Seq<char>) -> Option<Seq<(Seq<char>, Seq<char>)>>
    decreases text.len(),
{
    match first_at(text, seq!['\r', '\n'], 0) {
        None => None,
        Some(end) => if end == 0 {
            if text.len() == 2 {
                Some(Seq::empty())
            } else {
                None
            }
        } else if end < 0 || end + 2 > text.len() {
            None
        } else {
            let line = text.take(end);
            match (
                first_at(line, seq![':', ' '], 0),
                read_field_lines(text.skip(end + 2)),
            ) {
                (Some(colon), Some(more)) => Some(
                    seq![(line.take(colon), line.skip(colon + 2))] + more,
                ),
                _ => None,
            }
        },
    }
}

/// Read a head: a start line of three words with a space between any two, and the fields.
pub open spec fn read_request_head(text: Seq<char>) -> Option<ReadHead> {
    match first_at(text, seq!['\r', '\n'], 0) {
        None => None,
        Some(end) => {
            let line = text.take(end);
            match first_at(line, seq![' '], 0) {
                None => None,
                Some(one) => match first_at(line, seq![' '], one + 1) {
                    None => None,
                    Some(two) => match read_field_lines(text.skip(end + 2)) {
                        None => None,
                        Some(fields) => Some(
                            ReadHead {
                                method: line.take(one),
                                target: line.subrange(one + 1, two),
                                version: line.skip(two + 1),
                                fields,
                            },
                        ),
                    },
                },
            }
        },
    }
}

/// A field as it is read: its value, or nothing where the value is not printable text.
pub open spec fn field_read(entry: (Seq<char>, Seq<u8>)) -> (Seq<char>, Seq<char>) {
    (
        entry.0,
        if printable(entry.1) {
            Seq::new(entry.1.len(), |i: int| entry.1[i] as char)
        } else {
            Seq::empty()
        },
    )
}

/// A name that stands before a colon.
pub open spec fn plain_name(name: Seq<char>) -> bool {
    !name.contains(':') && !name.contains('\r')
}

spec fn written_fields(fields: Seq<(Seq<char>, Seq<char>)>) -> Seq<char>
    decreases fields.len(),
{
    if fields.len() == 0 {
        Seq::empty()
    } else {
        fields[0].0 + seq![':', ' '] + fields[0].1 + seq!['\r', '\n'] + written_fields(
            fields.drop_first(),
        )
    }
}

proof fn lemma_written_join(a: Seq<(Seq<char>, Seq<char>)>, b: Seq<(Seq<char>, Seq<char>)>)
    ensures
        written_fields(a + b) == written_fields(a) + written_fields(b),
    decreases a.len(),
{
    if a.len() == 0 {
        assert(a + b =~= b);
        assert(written_fields(a) + written_fields(b) =~= written_fields(b));
    } else {
        assert((a + b).drop_first() =~= a.drop_first() + b);
        lemma_written_join(a.drop_first(), b);
        assert(written_fields(a + b) =~= written_fields(a) + written_fields(b));
    }
}

proof fn lemma_written_one(name: Seq<char>, value: Seq<char>)
    ensures
        written_fields(seq![(name, value)]) == name + seq![':', ' '] + value + seq!['\r', '\n'],
{
    let one = seq![(name, value)];
    assert(one.drop_first() =~= Seq::<(Seq<char>, Seq<char>)>::empty());
    assert(written_fields(one.drop_first()) =~= Seq::<char>::empty());
    assert(written_fields(one) =~= name + seq![':', ' '] + value + seq!['\r', '\n']);
}

proof fn lemma_fields_text(entries: Seq<(Seq<char>, Seq<u8>)>)
    ensures
        fields_text(entries) == written_fields(entries.map_values(|e| field_read(e))),
    decreases entries.len(),
{
    let read = entries.map_values(|e| field_read(e));
    if entries.len() == 0 {
    } else {
        let before = entries.drop_last();
        let last = entries.last();
        lemma_fields_text(before);
        let read_before = before.map_values(|e| field_read(e));
        assert(read =~= read_before + seq![field_read(last)]);
        lemma_written_join(read_before, seq![field_read(last)]);
        lemma_written_one(field_read(last).0, field_read(last).1);
        lemma_shown(last.1);
        reveal_strlit(": ");
        reveal_strlit("\r\n");
        assert(": "@ =~= seq![':', ' ']);
        assert("\r\n"@ =~= seq!['\r', '\n']);
        assert(fields_text(entries) =~= written_fields(read));
    }
}

proof fn lemma_shown(value: Seq<u8>)
    ensures
        shown_value(value) == field_read((Seq::empty(), value)).1,
        !shown_value(value).contains('\r'),
{
    if visible(value) {
        assert forall|i: int| 0 <= i < value.len() implies 32 <= #[trigger] value[i] < 127
            || value[i] == 9 by {
            assert(crate::headers::visible_byte(value[i]));
        }
    }
    if printable(value) {
        assert forall|i: int| 0 <= i < value.len() implies crate::headers::visible_byte(
            #[trigger] value[i],
        ) by {
            assert(32 <= value[i] < 127 || value[i] == 9);
        }
        assert(shown_value(value) =~= Seq::new(value.len(), |i: int| value[i] as char));
        assert forall|i: int| 0 <= i < value.len() implies shown_value(value)[i] != '\r' by {
            assert(shown_value(value)[i] == value[i] as char);
            assert(32 <= value[i] < 127 || value[i] == 9);
        }
    }
}

proof fn lemma_line_end(line: Seq<char>, behind: Seq<char>)
    requires
        !line.contains('\r'),
    ensures
        first_at(line + seq!['\r', '\n'] + behind, seq!['\r', '\n'], 0) == Some(
            line.len() as int,
        ),
{
    let text = line + seq!['\r', '\n'] + behind;
    let eol = seq!['\r', '\n'];
    assert(stands_at(text, eol, line.len() as int));
    assert forall|i: int| 0 <= i < line.len() implies !#[trigger] stands_at(text, eol, i) by {
        if stands_at(text, eol, i) {
            assert(text[i + 0] == eol[0]);
            assert(text[i] == line[i]);
            assert(line.contains(line[i]));
        }
    }
    lemma_first_at(text, eol, 0, line.len() as int);
}

proof fn lemma_field_line(name: Seq<char>, value: Seq<char>)
    requires
        plain_name(name),
        !value.contains('\r'),
    ensures
        first_at(name + seq![':', ' '] + value, seq![':', ' '], 0) == Some(name.len() as int),
        !(name + seq![':', ' '] + value).contains('\r'),
{
    let line = name + seq![':', ' '] + value;
    let colon = seq![':', ' '];
    assert(stands_at(line, colon, name.len() as int));
    assert forall|i: int| 0 <= i < name.len() implies !#[trigger] stands_at(line, colon, i) by {
        if stands_at(line, colon, i) {
            assert(line[i + 0] == colon[0]);
            assert(line[i] == name[i]);
            assert(name.contains(name[i]));
        }
    }
    lemma_first_at(line, colon, 0, name.len() as int);
    assert forall|i: int| 0 <= i < line.len() implies line[i] != '\r' by {
        if i < name.len() {
            assert(name.contains(name[i]));
        } else if i >= name.len() + 2 {
            assert(value.contains(value[i - name.len() - 2]));
        }
    }
}

proof fn lemma_fields_are_read(fields: Seq<(Seq<char>, Seq<char>)>)
    requires
        forall|i: int|
            0 <= i < fields.len() ==> plain_name((#[trigger] fields[i]).0)
                && !fields[i].1.contains('\r'),
    ensures
        read_field_lines(written_fields(fields) + seq!['\r', '\n']) == Some(fields),
    decreases fields.len(),
{
    let eol = seq!['\r', '\n'];
    let text = written_fields(fields) + eol;
    if fields.len() == 0 {
        lemma_line_end(Seq::empty(), Seq::empty());
        assert(text =~= Seq::<char>::empty() + eol + Seq::<char>::empty());
        assert(fields =~= Seq::<(Seq<char>, Seq<char>)>::empty());
    } else {
        let name = fields[0].0;
        let value = fields[0].1;
        let rest = fields.drop_first();
        assert(plain_name(fields[0].0) && !fields[0].1.contains('\r'));
        assert forall|i: int| 0 <= i < rest.len() implies plain_name((#[trigger] rest[i]).0)
            && !rest[i].1.contains('\r') by {
            assert(rest[i] == fields[i + 1]);
        }
        lemma_fields_are_read(rest);
        let line = name + seq![':', ' '] + value;
        let behind = written_fields(rest) + eol;
        lemma_field_line(name, value);
        lemma_line_end(line, behind);
        assert(text =~= line + eol + behind);
        assert(text.take(line.len() as int) =~= line);
        assert(text.skip(line.len() as int + 2) =~= behind);
        assert(line.take(name.len() as int) =~= name);
        assert(line.skip(name.len() as int + 2) =~= value);
        assert(fields =~= seq![(name, value)] + rest);
    }
}

/// The fields that a request adds for itself behind the ones it was given.
pub open spec fn added_length(size: Option<usize>) -> Seq<(Seq<char>, Seq<char>)> {
    match size {
        Some(n) => seq![("Content-Length"@, decimal(n as nat))],
        None => Seq::empty(),
    }
}

/// The field that names the host, where the target has one and none was given.
pub open spec fn added_host(
    headers: Seq<(Seq<char>, Seq<Seq<u8>>)>,
    host: Option<Seq<char>>,
) -> Seq<(Seq<char>, Seq<char>)> {
    match host {
        Some(host) => if values_of(headers, "host"@).len() == 0 {
            seq![("Host"@, host)]
        } else {
            Seq::empty()
        },
        None => Seq::empty(),
    }
}

/// The fields that are read from a head.
pub open spec fn fields_sent(head: RequestHead) -> Seq<(Seq<char>, Seq<char>)> {
    seq![("User-Agent"@, "may_minihttp"@), ("Accept"@, "*/*"@)] + added_host(
        head.headers,
        head.host,
    ) + all_entries(head.headers).map_values(|e| field_read(e)) + added_length(head.size)
}

/// A head whose words and names can be told apart.
pub open spec fn readable_head(head: RequestHead) -> bool {
    &&& !head.method.contains(' ') && !head.method.contains('\r')
    &&& !head.target.contains(' ') && !head.target.contains('\r')
    &&& head.host is Some ==> !head.host->0.contains('\r')
    &&& forall|i: int|
        0 <= i < all_entries(head.headers).len() ==> plain_name(
            (#[trigger] all_entries(head.headers)[i]).0,
        )
}

proof fn lemma_constant_fields()
    ensures
        "User-Agent: may_minihttp\r\nAccept: */*\r\n"@ == written_fields(
            seq![("User-Agent"@, "may_minihttp"@), ("Accept"@, "*/*"@)],
        ),
        plain_name("User-Agent"@),
        plain_name("Accept"@),
        !"may_minihttp"@.contains('\r'),
        !"*/*"@.contains('\r'),
{
    reveal_strlit("User-Agent: may_minihttp\r\nAccept: */*\r\n");
    reveal_strlit("User-Agent");
    reveal_strlit("may_minihttp");
    reveal_strlit("Accept");
    reveal_strlit("*/*");
    let first = ("User-Agent"@, "may_minihttp"@);
    let second = ("Accept"@, "*/*"@);
    lemma_written_one(first.0, first.1);
    lemma_written_one(second.0, second.1);
    lemma_written_join(seq![first], seq![second]);
    assert(seq![first] + seq![second] =~= seq![first, second]);
    assert("User-Agent: may_minihttp\r\nAccept: */*\r\n"@ =~= written_fields(
        seq![first, second],
    ));
}

proof fn lemma_host_text(headers: Seq<(Seq<char>, Seq<Seq<u8>>)>, host: Option<Seq<char>>)
    ensures
        host_text(headers, host) == written_fields(added_host(headers, host)),
        plain_name("Host"@),
{
    reveal_strlit("Host: ");
    reveal_strlit("Host");
    reveal_strlit("\r\n");
    if let Some(host) = host {
        lemma_written_one("Host"@, host);
        assert("Host: "@ =~= "Host"@ + seq![':', ' ']);
    }
    assert(host_text(headers, host) =~= written_fields(added_host(headers, host)));
}

proof fn lemma_length_text(size: Option<usize>)
    ensures
        length_text(size) == written_fields(added_length(size)),
        plain_name("Content-Length"@),
        size is Some ==> !decimal(size->0 as nat).contains('\r'),
{
    reveal_strlit("Content-Length: ");
    reveal_strlit("Content-Length");
    reveal_strlit("\r\n");
    if let Some(n) = size {
        lemma_written_one("Content-Length"@, decimal(n as nat));
        assert("Content-Length: "@ =~= "Content-Length"@ + seq![':', ' ']);
        crate::laws::lists::lemma_decimal_is_read_back(n as nat);
        assert forall|i: int| 0 <= i < decimal(n as nat).len() implies decimal(n as nat)[i]
            != '\r' by {
            assert('0' <= decimal(n as nat)[i]);
        }
    }
    assert(length_text(size) =~= written_fields(added_length(size)));
}

proof fn lemma_version_text(version: Version)
    ensures
        !version.text().contains(' '),
        !version.text().contains('\r'),
{
    reveal_strlit("HTTP/1.0");
    reveal_strlit("HTTP/1.1");
}

proof fn lemma_start_line(method: Seq<char>, target: Seq<char>, version: Seq<char>)
    requires
        !method.contains(' '),
        !method.contains('\r'),
        !target.contains(' '),
        !target.contains('\r'),
        !version.contains('\r'),
    ensures
        ({
            let line = method + seq![' '] + target + seq![' '] + version;
            &&& !line.contains('\r')
            &&& first_at(line, seq![' '], 0) == Some(method.len() as int)
            &&& first_at(line, seq![' '], method.len() as int + 1) == Some(
                method.len() as int + 1 + target.len(),
            )
        }),
{
    let line = method + seq![' '] + target + seq![' '] + version;
    let space = seq![' '];
    let one = method.len() as int;
    let two = one + 1 + target.len();
    assert(stands_at(line, space, one));
    assert(stands_at(line, space, two));
    assert forall|i: int| 0 <= i < one implies !#[trigger] stands_at(line, space, i) by {
        if stands_at(line, space, i) {
            assert(line[i + 0] == space[0]);
            assert(method.contains(method[i]));
        }
    }
    assert forall|i: int| one + 1 <= i < two implies !#[trigger] stands_at(line, space, i) by {
        if stands_at(line, space, i) {
            assert(line[i + 0] == space[0]);
            assert(target.contains(target[i - one - 1]));
        }
    }
    lemma_first_at(line, space, 0, one);
    lemma_first_at(line, space, one + 1, two);
    assert forall|i: int| 0 <= i < line.len() implies line[i] != '\r' by {
        if i < one {
            assert(method.contains(method[i]));
        } else if i == one || i == two {
        } else if i < two {
            assert(target.contains(target[i - one - 1]));
        } else {
            assert(version.contains(version[i - two - 1]));
        }
    }
}

proof fn lemma_head_shape(head: RequestHead)
    ensures
        head_text(head) == (head.method + seq![' '] + head.target + seq![' ']
            + head.version.text()) + seq!['\r', '\n'] + (written_fields(fields_sent(head)) + seq![
            '\r',
            '\n',
        ]),
{
    let constant = seq![("User-Agent"@, "may_minihttp"@), ("Accept"@, "*/*"@)];
    let host = added_host(head.headers, head.host);
    let given = all_entries(head.headers).map_values(|e| field_read(e));
    let length = added_length(head.size);
    lemma_constant_fields();
    lemma_host_text(head.headers, head.host);
    lemma_fields_text(all_entries(head.headers));
    lemma_length_text(head.size);
    lemma_written_join(constant, host);
    lemma_written_join(constant + host, given);
    lemma_written_join(constant + host + given, length);
    lemma_head_pieces(head);
}

proof fn lemma_head_pieces(head: RequestHead)
    ensures
        head_text(head) == (head.method + seq![' '] + head.target + seq![' ']
            + head.version.text()) + seq!['\r', '\n'] + (
        "User-Agent: may_minihttp\r\nAccept: */*\r\n"@ + host_text(head.headers, head.host)
            + fields_text(all_entries(head.headers)) + length_text(head.size) + seq!['\r', '\n']),
{
    reveal_strlit(" ");
    reveal_strlit("\r\n");
    assert(" "@ =~= seq![' ']);
    assert("\r\n"@ =~= seq!['\r', '\n']);
    assert(head_text(head) =~= (head.method + seq![' '] + head.target + seq![' ']
        + head.version.text()) + seq!['\r', '\n'] + (
    "User-Agent: may_minihttp\r\nAccept: */*\r\n"@ + host_text(head.headers, head.host)
        + fields_text(all_entries(head.headers)) + length_text(head.size) + seq!['\r', '\n']));
}

/// The head of a request says what the request was given: method, target and version in its start
/// line, and one line for each field with its whole value, in order; a Host field is added exactly
/// where none was given and the target has a host, and a Content-Length field exactly where the
/// length of the body is known.
pub proof fn lemma_head_is_read_back(head: RequestHead)
    requires
        readable_head(head),
    ensures
        read_request_head(head_text(head)) == Some(
            ReadHead {
                method: head.method,
                target: head.target,
                version: match head.version {
                    Version::Http10 => "HTTP/1.0"@,
                    Version::Http11 => "HTTP/1.1"@,
                },
                fields: fields_sent(head),
            },
        ),
{
    let version = head.version.text();
    let line = head.method + seq![' '] + head.target + seq![' '] + version;
    let fields = fields_sent(head);
    let behind = written_fields(fields) + seq!['\r', '\n'];
    lemma_version_text(head.version);
    lemma_start_line(head.method, head.target, version);
    lemma_head_shape(head);
    lemma_line_end(line, behind);
    lemma_sent_fields_are_plain(head);
    lemma_fields_are_read(fields);
    let text = head_text(head);
    assert(text.take(line.len() as int) =~= line);
    assert(text.skip(line.len() as int + 2) =~= behind);
    let one = head.method.len() as int;
    let two = one + 1 + head.target.len();
    assert(line.take(one) =~= head.method);
    assert(line.subrange(one + 1, two) =~= head.target);
    assert(line.skip(two + 1) =~= version);
}

proof fn lemma_sent_fields_are_plain(head: RequestHead)
    requires
        readable_head(head),
    ensures
        forall|i: int|
            0 <= i < fields_sent(head).len() ==> plain_name((#[trigger] fields_sent(head)[i]).0)
                && !fields_sent(head)[i].1.contains('\r'),
{
    let fields = fields_sent(head);
    let host = added_host(head.headers, head.host);
    let entries = all_entries(head.headers);
    lemma_constant_fields();
    lemma_host_text(head.headers, head.host);
    lemma_length_text(head.size);
    assert forall|i: int| 0 <= i < fields.len() implies plain_name((#[trigger] fields[i]).0)
        && !fields[i].1.contains('\r') by {
        let a = 2 + host.len() as int;
        let b = a + entries.len();
        if i < 2 {
        } else if i < a {
            assert(fields[i] == host[i - 2]);
        } else if i < b {
            assert(fields[i] == field_read(entries[i - a]));
            lemma_shown(entries[i - a].1);
        } else {
            assert(fields[i] == added_length(head.size)[i - b]);
        }
    }
}

/// Every value of every field stands in the list of fields, each name with its values in their
/// order, and the list holds nothing else.
pub proof fn lemma_entries_are_complete(groups: Seq<(Seq<char>, Seq<Seq<u8>>)>, g: int, v: int)
    requires
        0 <= g < groups.len(),
        0 <= v < groups[g].1.len(),
    ensures
        ({
            let at = values_before(groups, g) + v;
            &&& 0 <= at < all_entries(groups).len()
            &&& all_entries(groups)[at] == (groups[g].0, groups[g].1[v])
            &&& all_entries(groups).len() == values_before(groups, groups.len() as int)
        }),
    decreases groups.len(),
{
    lemma_entries_len(groups);
    let before = groups.drop_last();
    let last = groups.last();
    lemma_entries_len(before);
    assert(values_before(groups, groups.len() - 1) == values_before(
        before,
        before.len() as int,
    )) by {
        lemma_values_before(groups, before, groups.len() - 1);
    }
    if g < groups.len() - 1 {
        lemma_entries_are_complete(before, g, v);
        lemma_values_before(groups, before, g);
    } else {
        assert(group_entries(last.0, last.1)[v] == (last.0, last.1[v]));
    }
}

/// The number of values of the first `n` fields.
pub open spec fn values_before(groups: Seq<(Seq<char>, Seq<Seq<u8>>)>, n: int) -> int
    decreases n,
{
    if n <= 0 {
        0
    } else {
        values_before(groups, n - 1) + groups[n - 1].1.len()
    }
}

proof fn lemma_values_before(
    a: Seq<(Seq<char>, Seq<Seq<u8>>)>,
    b: Seq<(Seq<char>, Seq<Seq<u8>>)>,
    n: int,
)
    requires
        n <= a.len(),
        n <= b.len(),
        forall|i: int| 0 <= i < n ==> a[i] == b[i],
    ensures
        values_before(a, n) == values_before(b, n),
        values_before(a, n) >= 0,
    decreases n,
{
    if n > 0 {
        lemma_values_before(a, b, n - 1);
    }
}

proof fn lemma_entries_len(groups: Seq<(Seq<char>, Seq<Seq<u8>>)>)
    ensures
        all_entries(groups).len() == values_before(groups, groups.len() as int),
    decreases groups.len(),
{
    if groups.len() > 0 {
        lemma_entries_len(groups.drop_last());
        lemma_values_before(groups, groups.drop_last(), groups.len() - 1);
    }
}

} // verus!

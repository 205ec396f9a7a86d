//! Bounded, policy-neutral request metadata injection.

use vstd::prelude::*;
use vstd::string::*;
use vstd::utf8::encode_utf8;

use crate::error::{failure, metadata_failure, Error, ErrorKind, ErrorView};
use crate::exchange::host_override_failure;

use crate::headers::{
    all_entries, has_name, lemma_overlaid, lemma_without_names, names, names_distinct, overlaid,
    values_of, with_appended, with_name, without_names, FieldName, FieldValue, Headers,
    MAX_HEADER_NAMES,
};
use crate::message::Method;
use crate::observer::ObservedOrigin;
use crate::text::{decimal, decimal_text};

verus! {

/// Sanitized context supplied immediately before one network attempt.
///
/// Paths, query strings, request bodies, and existing header values are deliberately absent.
/// `attempt` starts at one and increases across redirect hops and a stale-connection retry.
#[derive(Debug, Clone, Copy)]
pub struct RequestMetadataContext<'a> {
    pub request_id: u64,
    pub method: &'a Method,
    pub origin: ObservedOrigin<'a>,
    pub attempt: u32,
    pub redirect_hop: usize,
    pub stale_retry: bool,
}

/// Headers for one network attempt.
///
/// What may be shown of them is how many there are, never their values.
pub struct RequestMetadata {
    headers: Headers,
    sensitive_headers: Vec<FieldName>,
}

impl RequestMetadata {
    pub closed spec fn fields(&self) -> Seq<(Seq<char>, Seq<Seq<u8>>)> {
        self.headers@
    }

    pub closed spec fn sensitive(&self) -> Seq<Seq<char>> {
        names(self.sensitive_headers@)
    }

    /// No name stands in two groups.
    pub open spec fn wf(&self) -> bool {
        names_distinct(self.fields())
    }

    pub fn new() -> (r: RequestMetadata)
        ensures
            r.wf(),
            r.fields() == Seq::<(Seq<char>, Seq<Seq<u8>>)>::empty(),
            r.sensitive() == Seq::<Seq<char>>::empty(),
    {
        let metadata = RequestMetadata { headers: Headers::new(), sensitive_headers: Vec::new() };
        proof {
            assert(names(metadata.sensitive_headers@) =~= Seq::<Seq<char>>::empty());
        }
        metadata
    }

    /// Append a header for this attempt.
    pub fn header(self, name: &FieldName, value: &FieldValue) -> (r: RequestMetadata)
        requires
            self.fields().len() < MAX_HEADER_NAMES,
        ensures
            r.fields() == with_appended(self.fields(), name@, value@),
            self.wf() ==> r.wf(),
            r.sensitive() == self.sensitive(),
    {
        let mut metadata = self;
        metadata.headers.append(name, value);
        metadata
    }

    /// Mark a header name as credential-bearing for cross-origin redirect stripping.
    ///
    /// Built-in credential headers (`Authorization`, `Cookie`, and `Proxy-Authorization`) are
    /// always sensitive and do not need to be declared here.
    pub fn sensitive_header(self, name: FieldName) -> (r: RequestMetadata)
        ensures
            r.fields() == self.fields(),
            r.sensitive() == with_name(self.sensitive(), name@),
    {
        let mut metadata = self;
        if !has_name(&metadata.sensitive_headers, &name) {
            metadata.sensitive_headers.push(name);
            proof {
                assert(names(metadata.sensitive_headers@) =~= names(
                    self.sensitive_headers@,
                ).push(name@));
            }
        }
        metadata
    }

    pub fn headers(&self) -> (r: &Headers)
        ensures
            r@ == self.fields(),
            self.wf() ==> r.wf(),
    {
        &self.headers
    }

    /// The number of header fields.
    pub fn header_count(&self) -> (r: usize)
        ensures
            r == all_entries(self.fields()).len(),
    {
        let entries = self.headers.entries();
        proof {
            let views = entries@.map_values(|entry: (String, Vec<u8>)| (entry.0@, entry.1@));
            assert(views.len() == entries@.len());
        }
        entries.len()
    }

    /// The number of names that were marked.
    pub fn sensitive_header_count(&self) -> (r: usize)
        ensures
            r == self.sensitive().len(),
    {
        self.sensitive_headers.len()
    }

    /// The text shown for the metadata: how many fields and marks there are, and nothing of them.
    pub fn debug_text(&self) -> (r: String)
        ensures
            r@ == "RequestMetadata { header_count: "@ + decimal(all_entries(self.fields()).len())
                + ", sensitive_header_count: "@ + decimal(self.sensitive().len()) + " }"@,
    {
        let mut text = "RequestMetadata { header_count: ".to_owned();
        let headers = decimal_text(self.header_count() as u128);
        text.append(headers.as_str());
        text.append(", sensitive_header_count: ");
        let marks = decimal_text(self.sensitive_header_count() as u128);
        text.append(marks.as_str());
        text.append(" }");
        text
    }

    /// The names that were marked, in the order in which they were.
    pub fn sensitive_headers(&self) -> (r: &Vec<FieldName>)
        ensures
            names(r@) == self.sensitive(),
    {
        &self.sensitive_headers
    }
}

impl Default for RequestMetadata {
    fn default() -> (r: RequestMetadata)
        ensures
            r.fields() == Seq::<(Seq<char>, Seq<Seq<u8>>)>::empty(),
            r.sensitive() == Seq::<Seq<char>>::empty(),
    {
        RequestMetadata::new()
    }
}

/// The bounds on the header fields that a request is sent with.
#[derive(Debug, Clone, Copy)]
pub struct MetadataLimits {
    pub max_fields: usize,
    pub max_bytes: usize,
}

/// The bytes that fields take in a message head: each name and value with a colon, a space and
/// the end of the line.
pub open spec fn encoded_size(entries: Seq<(Seq<char>, Seq<u8>)>) -> nat
    decreases entries.len(),
{
    if entries.len() == 0 {
        0
    } else {
        encoded_size(entries.drop_last()) + encode_utf8(entries.last().0).len()
            + entries.last().1.len() + 4
    }
}

/// Some field of the transport has a value.
pub open spec fn sets_transport(groups: Seq<(Seq<char>, Seq<Seq<u8>>)>) -> bool {
    ||| values_of(groups, "host"@).len() > 0
    ||| values_of(groups, "content-length"@).len() > 0
    ||| values_of(groups, "transfer-encoding"@).len() > 0
}

/// The failure of fields that belong to the transport.
pub open spec fn transport_failure() -> ErrorView {
    metadata_failure(
        ErrorKind::InvalidInput,
        "request metadata sets a field that belongs to the transport"@,
    )
}

/// What is wrong with the fields of a request's own, if anything is.
pub open spec fn request_failure(groups: Seq<(Seq<char>, Seq<Seq<u8>>)>) -> Option<ErrorView> {
    if values_of(groups, "host"@).len() > 0 {
        Some(host_override_failure())
    } else if sets_transport(groups) {
        Some(
            failure(
                ErrorKind::InvalidInput,
                "Content-Length and Transfer-Encoding are set by the transport"@,
            ),
        )
    } else {
        None
    }
}

/// What is wrong with the size of fields, if anything is.
pub open spec fn size_failure(
    groups: Seq<(Seq<char>, Seq<Seq<u8>>)>,
    limits: MetadataLimits,
) -> Option<ErrorView> {
    if all_entries(groups).len() > limits.max_fields {
        Some(metadata_failure(ErrorKind::InvalidInput, "request headers exceed their field limit"@))
    } else if encoded_size(all_entries(groups)) > limits.max_bytes {
        Some(metadata_failure(ErrorKind::InvalidInput, "request headers exceed their byte limit"@))
    } else {
        None
    }
}

/// The fields of one attempt before they are bounded.
pub open spec fn merged(
    defaults: Seq<(Seq<char>, Seq<Seq<u8>>)>,
    provided: Seq<(Seq<char>, Seq<Seq<u8>>)>,
    request: Seq<(Seq<char>, Seq<Seq<u8>>)>,
    suppressed: Seq<Seq<char>>,
) -> Seq<(Seq<char>, Seq<Seq<u8>>)> {
    without_names(overlaid(overlaid(defaults, provided), request), suppressed)
}

/// The fields of one attempt: those of the client, over them those of the provider, over them
/// those of the request, without the suppressed names.
pub open spec fn attempt_fields(
    defaults: Seq<(Seq<char>, Seq<Seq<u8>>)>,
    provided: Seq<(Seq<char>, Seq<Seq<u8>>)>,
    request: Seq<(Seq<char>, Seq<Seq<u8>>)>,
    suppressed: Seq<Seq<char>>,
    limits: MetadataLimits,
) -> Result<Seq<(Seq<char>, Seq<Seq<u8>>)>, ErrorView> {
    if sets_transport(defaults) || sets_transport(provided) {
        Err(transport_failure())
    } else if request_failure(request) is Some {
        Err(request_failure(request)->0)
    } else if size_failure(provided, limits) is Some {
        Err(size_failure(provided, limits)->0)
    } else {
        let fields = merged(defaults, provided, request, suppressed);
        match size_failure(fields, limits) {
            Some(e) => Err(e),
            None => Ok(fields),
        }
    }
}

/// A name has the values of the request, else those of the provider, else those of the client; a
/// suppressed name has none.
pub proof fn lemma_precedence(
    defaults: Seq<(Seq<char>, Seq<Seq<u8>>)>,
    provided: Seq<(Seq<char>, Seq<Seq<u8>>)>,
    request: Seq<(Seq<char>, Seq<Seq<u8>>)>,
    suppressed: Seq<Seq<char>>,
    limits: MetadataLimits,
    name: Seq<char>,
)
    requires
        names_distinct(defaults),
        names_distinct(provided),
        names_distinct(request),
    ensures
        attempt_fields(defaults, provided, request, suppressed, limits) matches Ok(fields) ==> {
            &&& names_distinct(fields)
            &&& values_of(fields, name) == (if suppressed.contains(name) {
                Seq::<Seq<u8>>::empty()
            } else if values_of(request, name).len() > 0 {
                values_of(request, name)
            } else if values_of(provided, name).len() > 0 {
                values_of(provided, name)
            } else {
                values_of(defaults, name)
            })
        },
{
    let below = overlaid(defaults, provided);
    lemma_overlaid(defaults, provided, name);
    lemma_overlaid(below, request, name);
    lemma_without_names(overlaid(below, request), suppressed, name);
    let fields = merged(defaults, provided, request, suppressed);
    if suppressed.contains(name) {
        assert(values_of(fields, name) =~= Seq::<Seq<u8>>::empty());
    }
}

/// The fields of an attempt keep to the limits, and none of them belongs to the transport: they
/// pass the check that a request is sent with.
pub proof fn lemma_attempt_is_bounded(
    defaults: Seq<(Seq<char>, Seq<Seq<u8>>)>,
    provided: Seq<(Seq<char>, Seq<Seq<u8>>)>,
    request: Seq<(Seq<char>, Seq<Seq<u8>>)>,
    suppressed: Seq<Seq<char>>,
    limits: MetadataLimits,
)
    requires
        names_distinct(defaults),
        names_distinct(provided),
        names_distinct(request),
    ensures
        attempt_fields(defaults, provided, request, suppressed, limits) matches Ok(fields) ==> {
            &&& !sets_transport(fields)
            &&& request_failure(fields) is None
            &&& all_entries(fields).len() <= limits.max_fields
            &&& encoded_size(all_entries(fields)) <= limits.max_bytes
        },
{
    lemma_precedence(defaults, provided, request, suppressed, limits, "host"@);
    lemma_precedence(defaults, provided, request, suppressed, limits, "content-length"@);
    lemma_precedence(defaults, provided, request, suppressed, limits, "transfer-encoding"@);
}

proof fn lemma_encoded_size_grows(entries: Seq<(Seq<char>, Seq<u8>)>, n: int)
    requires
        0 <= n <= entries.len(),
    ensures
        encoded_size(entries.take(n)) <= encoded_size(entries),
    decreases entries.len() - n,
{
    if n < entries.len() {
        lemma_encoded_size_grows(entries, n + 1);
        assert(entries.take(n + 1).drop_last() =~= entries.take(n));
    } else {
        assert(entries.take(n) =~= entries);
    }
}

fn has_transport_field(headers: &Headers) -> (r: bool)
    ensures
        r == sets_transport(headers@),
{
    headers.contains_key(&FieldName::host()) || headers.contains_key(&FieldName::content_length())
        || headers.contains_key(&FieldName::transfer_encoding())
}

/// Refuse fields of a request's own that belong to the transport.
pub fn check_request_fields(headers: &Headers) -> (r: Result<(), Error>)
    ensures
        match r {
            Ok(_) => request_failure(headers@) is None,
            Err(e) => request_failure(headers@) == Some(e@),
        },
{
    if headers.contains_key(&FieldName::host()) {
        return Err(
            Error::new(
                ErrorKind::InvalidInput,
                "Host is derived from the request URL and cannot be overridden",
            ),
        );
    }
    if has_transport_field(headers) {
        return Err(
            Error::new(
                ErrorKind::InvalidInput,
                "Content-Length and Transfer-Encoding are set by the transport",
            ),
        );
    }
    Ok(())
}

fn check_size(headers: &Headers, limits: MetadataLimits) -> (r: Result<(), Error>)
    ensures
        match r {
            Ok(_) => size_failure(headers@, limits) is None,
            Err(e) => size_failure(headers@, limits) == Some(e@),
        },
{
    let entries = headers.entries();
    let ghost views = entries@.map_values(|entry: (String, Vec<u8>)| (entry.0@, entry.1@));
    proof {
        assert(views.len() == entries@.len());
        assert(entries@.len() == entries.len());
    }
    if entries.len() > limits.max_fields {
        return Err(
            Error::metadata(ErrorKind::InvalidInput, "request headers exceed their field limit"),
        );
    }
    let mut size: u128 = 0;
    proof {
        assert(views.take(0) =~= Seq::<(Seq<char>, Seq<u8>)>::empty());
    }
    let mut i: usize = 0;
    while i < entries.len()
        invariant
            i <= entries@.len(),
            views == entries@.map_values(|entry: (String, Vec<u8>)| (entry.0@, entry.1@)),
            views == all_entries(headers@),
            views.len() <= limits.max_fields,
            size == encoded_size(views.take(i as int)),
            size <= limits.max_bytes,
        decreases entries@.len() - i,
    {
        let entry = &entries[i];
        let name = entry.0.as_str().as_bytes();
        proof {
            assert(views.take(i + 1).drop_last() =~= views.take(i as int));
            assert(views.take(i + 1).last() == (entry.0@, entry.1@));
            assert(name@.len() == name.len());
            assert(entry.1@.len() == entry.1.len());
            lemma_encoded_size_grows(views, i + 1);
        }
        size = size + name.len() as u128 + entry.1.len() as u128 + 4;
        if size > limits.max_bytes as u128 {
            return Err(
                Error::metadata(ErrorKind::InvalidInput, "request headers exceed their byte limit"),
            );
        }
        i += 1;
    }
    proof {
        assert(views.take(i as int) =~= views);
    }
    Ok(())
}

/// The header fields of one attempt, or what is wrong with them.
pub fn merge_headers(
    defaults: &Headers,
    provided: &RequestMetadata,
    request: &Headers,
    suppressed: &Vec<FieldName>,
    limits: MetadataLimits,
) -> (r: Result<Headers, Error>)
    requires
        defaults.wf(),
        provided.wf(),
        request.wf(),
        defaults@.len() + provided.fields().len() + request@.len() < MAX_HEADER_NAMES,
    ensures
        ({
            let outcome = attempt_fields(
                defaults@,
                provided.fields(),
                request@,
                names(suppressed@),
                limits,
            );
            match r {
                Ok(headers) => outcome == Ok::<_, ErrorView>(headers@) && headers.wf(),
                Err(e) => outcome is Err && outcome->Err_0 == e@,
            }
        }),
{
    if has_transport_field(defaults) || has_transport_field(provided.headers()) {
        return Err(
            Error::metadata(
                ErrorKind::InvalidInput,
                "request metadata sets a field that belongs to the transport",
            ),
        );
    }
    match check_request_fields(request) {
        Ok(_) => {},
        Err(e) => {
            return Err(e);
        },
    }
    match check_size(provided.headers(), limits) {
        Ok(_) => {},
        Err(e) => {
            return Err(e);
        },
    }
    let mut headers = defaults.clone();
    headers.overlay(provided.headers());
    headers.overlay(request);
    headers.remove_all(suppressed);
    match check_size(&headers, limits) {
        Ok(_) => Ok(headers),
        Err(e) => Err(e),
    }
}

/// What one logical request remembers between its attempts: how many there were, which names are
/// sensitive, and whether it has left its origin.
#[derive(Debug)]
pub struct MetadataState {
    pub attempts: u32,
    pub sensitive: Vec<FieldName>,
    pub crossed: bool,
}

/// The names after more were marked.
pub open spec fn with_all_names(marked: Seq<Seq<char>>, more: Seq<Seq<char>>) -> Seq<Seq<char>>
    decreases more.len(),
{
    if more.len() == 0 {
        marked
    } else {
        with_name(with_all_names(marked, more.drop_last()), more.last())
    }
}

/// Marking names takes no mark away, and marks each of them.
pub proof fn lemma_marks_accumulate(
    marked: Seq<Seq<char>>,
    more: Seq<Seq<char>>,
    name: Seq<char>,
)
    ensures
        with_all_names(marked, more).contains(name) == (marked.contains(name) || more.contains(
            name,
        )),
    decreases more.len(),
{
    if more.len() > 0 {
        let before = with_all_names(marked, more.drop_last());
        let after = with_all_names(marked, more);
        lemma_marks_accumulate(marked, more.drop_last(), name);
        assert(more[more.len() - 1] == more.last());
        if before.contains(name) {
            let i = choose|i: int| 0 <= i < before.len() && before[i] == name;
            assert(after[i] == name);
        }
        if more.last() == name && !before.contains(name) {
            assert(after[before.len() as int] == name);
        }
        if after.contains(name) && !before.contains(name) {
            let i = choose|i: int| 0 <= i < after.len() && after[i] == name;
            if i < before.len() {
                assert(before[i] == name);
            }
            assert(name == more.last());
        }
        if more.drop_last().contains(name) {
            let i = choose|i: int| 0 <= i < more.len() - 1 && more.drop_last()[i] == name;
            assert(more[i] == name);
        }
        if more.contains(name) && name != more.last() {
            let i = choose|i: int| 0 <= i < more.len() && more[i] == name;
            assert(more.drop_last()[i] == name);
        }
    }
}

/// The number of the attempt after another one; the largest is not exceeded.
pub open spec fn attempt_after(n: u32) -> u32 {
    if n == u32::MAX {
        u32::MAX
    } else {
        (n + 1) as u32
    }
}

/// Whether a request has left its origin, after one more redirect.
pub open spec fn crossed_by(crossed: bool, same_origin: bool) -> bool {
    crossed || !same_origin
}

impl MetadataState {
    /// The names that no attempt sends any more.
    pub open spec fn suppressed(&self) -> Seq<Seq<char>> {
        if self.crossed {
            names(self.sensitive@)
        } else {
            Seq::empty()
        }
    }

    /// A request before its first attempt, with the names that its client marks as sensitive.
    pub fn new(configured: &Vec<FieldName>) -> (r: MetadataState)
        ensures
            r.attempts == 0,
            names(r.sensitive@) == names(configured@),
            !r.crossed,
    {
        let mut sensitive: Vec<FieldName> = Vec::new();
        let mut i: usize = 0;
        while i < configured.len()
            invariant
                i <= configured@.len(),
                names(sensitive@) == names(configured@).take(i as int),
            decreases configured@.len() - i,
        {
            let name = configured[i].clone();
            let ghost before = sensitive@;
            sensitive.push(name);
            proof {
                assert(names(sensitive@) =~= names(before).push(name@));
                assert(names(sensitive@) =~= names(configured@).take(i + 1));
            }
            i += 1;
        }
        proof {
            assert(names(configured@).take(i as int) =~= names(configured@));
        }
        MetadataState { attempts: 0, sensitive, crossed: false }
    }

    /// The context of the next attempt.
    pub fn next_attempt<'a>(
        &mut self,
        request_id: u64,
        method: &'a Method,
        origin: ObservedOrigin<'a>,
        redirect_hop: usize,
        stale_retry: bool,
    ) -> (r: RequestMetadataContext<'a>)
        ensures
            final(self).attempts == attempt_after(old(self).attempts),
            final(self).attempts == (if old(self).attempts == u32::MAX {
                u32::MAX
            } else {
                (old(self).attempts + 1) as u32
            }),
            final(self).sensitive == old(self).sensitive,
            final(self).crossed == old(self).crossed,
            r == (RequestMetadataContext {
                request_id,
                method,
                origin,
                attempt: final(self).attempts,
                redirect_hop,
                stale_retry,
            }),
    {
        if self.attempts < u32::MAX {
            self.attempts = self.attempts + 1;
        }
        RequestMetadataContext {
            request_id,
            method,
            origin,
            attempt: self.attempts,
            redirect_hop,
            stale_retry,
        }
    }

    /// Take what a provider supplied for an attempt. Its failure is told without its message.
    pub fn accept(&mut self, provided: Result<RequestMetadata, Error>) -> (r: Result<
        RequestMetadata,
        Error,
    >)
        ensures
            final(self).attempts == old(self).attempts,
            final(self).crossed == old(self).crossed,
            match provided {
                Ok(metadata) => r == Ok::<RequestMetadata, Error>(metadata) && names(
                    final(self).sensitive@,
                ) == with_all_names(names(old(self).sensitive@), metadata.sensitive()),
                Err(_) => final(self).sensitive == old(self).sensitive && r is Err
                    && r->Err_0@ == metadata_failure(
                    ErrorKind::Other,
                    "request metadata provider failed"@,
                ),
            },
    {
        let metadata = match provided {
            Ok(metadata) => metadata,
            Err(_) => {
                return Err(
                    Error::metadata(ErrorKind::Other, "request metadata provider failed"),
                );
            },
        };
        let declared = metadata.sensitive_headers();
        let ghost more = names(declared@);
        let mut i: usize = 0;
        proof {
            assert(more.take(0) =~= Seq::<Seq<char>>::empty());
        }
        while i < declared.len()
            invariant
                i <= declared@.len(),
                more == names(declared@),
                self.attempts == old(self).attempts,
                self.crossed == old(self).crossed,
                names(self.sensitive@) == with_all_names(
                    names(old(self).sensitive@),
                    more.take(i as int),
                ),
            decreases declared@.len() - i,
        {
            let name = declared[i].clone();
            let ghost before = self.sensitive@;
            proof {
                assert(more.take(i + 1).drop_last() =~= more.take(i as int));
                assert(more.take(i + 1).last() == name@);
            }
            if !has_name(&self.sensitive, &name) {
                self.sensitive.push(name);
                proof {
                    assert(names(self.sensitive@) =~= names(before).push(name@));
                }
            }
            i += 1;
        }
        proof {
            assert(more.take(i as int) =~= more);
        }
        Ok(metadata)
    }

    /// The header fields of an attempt.
    pub fn merge(
        &self,
        defaults: &Headers,
        provided: &RequestMetadata,
        request: &Headers,
        limits: MetadataLimits,
    ) -> (r: Result<Headers, Error>)
        requires
            defaults.wf(),
            provided.wf(),
            request.wf(),
            defaults@.len() + provided.fields().len() + request@.len() < MAX_HEADER_NAMES,
        ensures
            ({
                let outcome = attempt_fields(
                    defaults@,
                    provided.fields(),
                    request@,
                    self.suppressed(),
                    limits,
                );
                match r {
                    Ok(headers) => outcome == Ok::<_, ErrorView>(headers@) && headers.wf(),
                    Err(e) => outcome is Err && outcome->Err_0 == e@,
                }
            }),
    {
        if self.crossed {
            merge_headers(defaults, provided, request, &self.sensitive, limits)
        } else {
            let none: Vec<FieldName> = Vec::new();
            proof {
                assert(names(none@) =~= self.suppressed());
            }
            merge_headers(defaults, provided, request, &none, limits)
        }
    }

    /// The request goes on to a redirect target.
    pub fn redirected(&mut self, same_origin: bool)
        ensures
            final(self).attempts == old(self).attempts,
            final(self).sensitive == old(self).sensitive,
            final(self).crossed == crossed_by(old(self).crossed, same_origin),
            final(self).crossed == (old(self).crossed || !same_origin),
    {
        if !same_origin {
            self.crossed = true;
        }
    }
}

} // verus!

use may_minihttp::error::ClientErrorKind;
use may_minihttp::headers::{FieldName, FieldValue, Headers};
use may_minihttp::message::Method;
use may_minihttp::metadata::{merge_headers, MetadataLimits, MetadataState};
use may_minihttp::{Error, ErrorKind, ObservedOrigin, RequestMetadata};

fn name(text: &str) -> FieldName {
    FieldName::from_bytes(text.as_bytes()).unwrap()
}

fn value(text: &str) -> FieldValue {
    FieldValue::from_bytes(text.as_bytes()).unwrap()
}

fn fields(list: &[(&str, &str)]) -> Headers {
    let mut headers = Headers::new();
    for (key, text) in list {
        headers.append(&name(key), &value(text));
    }
    headers
}

fn provided(list: &[(&str, &str)]) -> RequestMetadata {
    let mut metadata = RequestMetadata::new();
    for (key, text) in list {
        metadata = metadata.header(&name(key), &value(text));
    }
    metadata
}

const WIDE: MetadataLimits = MetadataLimits { max_fields: 64, max_bytes: 8192 };

#[test]
fn the_request_wins_over_the_provider_and_the_client() {
    let merged = merge_headers(
        &fields(&[("a", "client"), ("b", "client"), ("c", "client"), ("a", "again")]),
        &provided(&[("a", "provider"), ("b", "provider")]),
        &fields(&[("a", "request")]),
        &Vec::new(),
        WIDE,
    )
    .unwrap();
    assert_eq!(merged.get_all(&name("a")), vec![b"request".to_vec()]);
    assert_eq!(merged.get_all(&name("b")), vec![b"provider".to_vec()]);
    assert_eq!(merged.get_all(&name("c")), vec![b"client".to_vec()]);
}

#[test]
fn transport_fields_are_refused_from_every_source() {
    let empty = Headers::new();
    for field in ["Host", "Content-Length", "Transfer-Encoding"] {
        let set = [(field, "x")];
        let none = Vec::new();
        for error in [
            merge_headers(&fields(&set), &provided(&[]), &empty, &none, WIDE).unwrap_err(),
            merge_headers(&empty, &provided(&set), &empty, &none, WIDE).unwrap_err(),
        ] {
            assert_eq!(ClientErrorKind::classify(&error), ClientErrorKind::Metadata);
        }
        let error = merge_headers(&empty, &provided(&[]), &fields(&set), &none, WIDE).unwrap_err();
        assert_eq!(ClientErrorKind::classify(&error), ClientErrorKind::InvalidRequest);
    }
    let error = merge_headers(&empty, &provided(&[]), &fields(&[("host", "x")]), &Vec::new(), WIDE)
        .unwrap_err();
    assert_eq!(
        error.message(),
        "Host is derived from the request URL and cannot be overridden"
    );
}

#[test]
fn fields_and_bytes_are_bounded() {
    let empty = Headers::new();
    let two = fields(&[("a", "1"), ("b", "22")]);
    let none = Vec::new();
    let limits = |max_fields, max_bytes| MetadataLimits { max_fields, max_bytes };
    let merge = |limits| merge_headers(&empty, &provided(&[]), &two, &none, limits);
    // "a: 1" and "b: 22", each with the end of its line.
    assert!(merge(limits(2, 13)).is_ok());
    assert_eq!(
        merge(limits(2, 12)).unwrap_err().message(),
        "request headers exceed their byte limit"
    );
    assert_eq!(
        merge(limits(1, 13)).unwrap_err().message(),
        "request headers exceed their field limit"
    );
    // The provider is bounded on its own, whatever the request replaces.
    let error = merge_headers(
        &empty,
        &provided(&[("a", "too long by far")]),
        &fields(&[("a", "1")]),
        &none,
        limits(2, 13),
    )
    .unwrap_err();
    assert_eq!(ClientErrorKind::classify(&error), ClientErrorKind::Metadata);
}

#[test]
fn declared_credentials_are_suppressed_after_the_origin_changed() {
    let configured = vec![FieldName::authorization()];
    let mut state = MetadataState::new(&configured);
    let metadata = provided(&[("x-token", "s"), ("x-trace", "t")])
        .sensitive_header(name("X-Token"))
        .sensitive_header(name("x-token"));
    assert_eq!((metadata.header_count(), metadata.sensitive_header_count()), (2, 1));
    let Ok(metadata) = state.accept(Ok(metadata)) else { panic!("accepted") };
    let own = fields(&[("Authorization", "secret")]);

    let before = state.merge(&Headers::new(), &metadata, &own, WIDE).unwrap();
    assert!(before.contains_key(&name("x-token")) && before.contains_key(&name("authorization")));

    state.redirected(true);
    assert!(!state.crossed);
    state.redirected(false);
    state.redirected(true);
    assert!(state.crossed);
    let after = state.merge(&Headers::new(), &metadata, &own, WIDE).unwrap();
    assert!(!after.contains_key(&name("x-token")) && !after.contains_key(&name("authorization")));
    assert_eq!(after.get(&name("x-trace")).unwrap(), b"t");
}

#[test]
fn a_failing_provider_is_told_without_its_message() {
    let mut state = MetadataState::new(&Vec::new());
    let Err(error) = state.accept(Err(Error::new(ErrorKind::NotFound, "secret path"))) else {
        panic!("refused")
    };
    assert_eq!(ClientErrorKind::classify(&error), ClientErrorKind::Metadata);
    assert_eq!(error.message(), "request metadata provider failed");
}

#[test]
fn attempts_are_counted_from_one() {
    let mut state = MetadataState::new(&Vec::new());
    let method = Method::get();
    let origin = ObservedOrigin { scheme: "http", host: "a", port: 80 };
    let first = state.next_attempt(7, &method, origin, 0, false);
    assert_eq!((first.request_id, first.attempt, first.stale_retry), (7, 1, false));
    let second = state.next_attempt(7, &method, origin, 1, true);
    assert_eq!((second.attempt, second.redirect_hop, second.stale_retry), (2, 1, true));
}

#[test]
fn shown_metadata_tells_counts_alone() {
    let metadata = provided(&[("x-a", "secret"), ("x-a", "other")]).sensitive_header(name("x-a"));
    assert_eq!(
        metadata.debug_text(),
        "RequestMetadata { header_count: 2, sensitive_header_count: 1 }"
    );
}

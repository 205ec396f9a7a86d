use may_minihttp::headers::{FieldName, FieldValue};
use may_minihttp::message::{Method, Version};
use may_minihttp::uri::Uri;
use may_minihttp::{ErrorKind, MultipartForm, Request};

fn request_with_method(method: &str) -> Request {
    let mut req = Request::new();
    req.method = Method::named(method);
    req.uri = Uri::parse("/things/42").unwrap();
    req
}

fn written(bytes: &[u8]) -> String {
    String::from_utf8(bytes.to_vec()).unwrap()
}

#[test]
fn delete_without_body_writes_head_on_drop() {
    let mut bytes: Vec<u8> = Vec::new();
    let req = request_with_method("DELETE");
    req.finish(&mut bytes);
    let head = written(&bytes);
    assert!(head.starts_with("DELETE /things/42"), "head was: {head}");
    assert!(!head.contains("Content-Length"), "head was: {head}");
}

#[test]
fn put_with_sized_body_writes_content_length() {
    let mut bytes: Vec<u8> = Vec::new();
    let mut req = request_with_method("PUT");
    req.send(&mut bytes, b"{\"a\":1}").unwrap();
    req.finish(&mut bytes);
    let head = written(&bytes);
    assert!(head.starts_with("PUT /things/42"), "head was: {head}");
    assert!(head.contains("Content-Length: 7"), "head was: {head}");
    assert!(head.ends_with("{\"a\":1}"), "head was: {head}");
}

#[test]
fn patch_and_options_do_not_panic() {
    for method in ["PATCH", "OPTIONS"] {
        let mut bytes: Vec<u8> = Vec::new();
        let req = request_with_method(method);
        req.finish(&mut bytes);
        assert!(written(&bytes).starts_with(method), "no head written for {method}");
    }
}

#[test]
fn absolute_uri_adds_host_header() {
    let mut bytes: Vec<u8> = Vec::new();
    let mut req = Request::new();
    req.uri = Uri::parse("http://example.com/things").unwrap();
    req.finish(&mut bytes);

    assert!(written(&bytes).contains("Host: example.com\r\n"));
}

#[test]
fn explicit_host_header_is_not_duplicated() {
    let mut bytes: Vec<u8> = Vec::new();
    let mut req = Request::new();
    req.uri = Uri::parse("http://example.com/things").unwrap();
    req.headers.insert(
        &FieldName::host(),
        &FieldValue::from_bytes(b"override.example").unwrap(),
    );
    req.finish(&mut bytes);

    let head = written(&bytes);
    let head_lower = head.to_ascii_lowercase();
    assert_eq!(head_lower.matches("\r\nhost:").count(), 1, "head was: {head}");
    assert!(head_lower.contains("host: override.example\r\n"));
}

#[test]
fn send_json_sets_content_type_and_length() {
    let mut value = serde_json::Map::new();
    value.insert("ok".to_string(), serde_json::Value::Bool(true));
    let json = serde_json::to_vec(&serde_json::Value::Object(value)).unwrap();
    let mut bytes: Vec<u8> = Vec::new();
    let mut req = request_with_method("POST");
    req.send_json(&mut bytes, &json).unwrap();
    req.finish(&mut bytes);

    let head_and_body = written(&bytes);
    assert!(head_and_body.contains("content-type: application/json\r\n"));
    assert!(head_and_body.contains("Content-Length: 11\r\n"));
    assert!(head_and_body.ends_with("{\"ok\":true}"));
}

#[test]
fn a_request_is_written_byte_for_byte() {
    let mut bytes: Vec<u8> = Vec::new();
    let mut req = request_with_method("PUT");
    req.headers.append(
        &FieldName::from_bytes(b"X-Tag").unwrap(),
        &FieldValue::from_bytes(b"one").unwrap(),
    );
    req.headers.append(
        &FieldName::from_bytes(b"x-tag").unwrap(),
        &FieldValue::from_bytes(b"two").unwrap(),
    );
    req.send(&mut bytes, b"ab").unwrap();
    req.finish(&mut bytes);
    assert_eq!(
        written(&bytes),
        "PUT /things/42 HTTP/1.1\r\nUser-Agent: may_minihttp\r\nAccept: */*\r\n\
         x-tag: one\r\nx-tag: two\r\nContent-Length: 2\r\n\r\nab"
    );
}

#[test]
fn an_old_version_is_named_in_the_head() {
    let mut bytes: Vec<u8> = Vec::new();
    let mut req = request_with_method("DELETE");
    req.version = Version::Http10;
    req.finish(&mut bytes);
    assert!(written(&bytes).starts_with("DELETE /things/42 HTTP/1.0\r\n"));
}

#[test]
fn a_body_of_unknown_length_is_chunked() {
    let mut bytes: Vec<u8> = Vec::new();
    let mut req = request_with_method("POST");
    req.write_all(&mut bytes, b"hello").unwrap();
    req.write_all(&mut bytes, b"world!").unwrap();
    req.finish(&mut bytes);
    let text = written(&bytes);
    assert!(!text.contains("Content-Length"), "text was: {text}");
    assert!(text.ends_with("\r\n\r\n5\r\nhello\r\n6\r\nworld!\r\n0\r\n\r\n"), "text was: {text}");
}

#[test]
fn a_form_is_sent_with_its_exact_length() {
    let form = MultipartForm::with_boundary("edge").text("a", "b");
    let encoded = form.encode().unwrap();
    let mut bytes: Vec<u8> = Vec::new();
    let mut req = request_with_method("POST");
    req.send_multipart(&mut bytes, &form).unwrap();
    req.finish(&mut bytes);
    let text = written(&bytes);
    assert!(text.contains("content-type: multipart/form-data; boundary=edge\r\n"));
    assert!(text.contains(&format!("Content-Length: {}\r\n", encoded.len())));
    assert!(bytes.ends_with(&encoded));
}

#[test]
fn a_form_with_injected_metadata_writes_nothing() {
    let form = MultipartForm::with_boundary("edge").text("a\r\nX: y", "b");
    let mut bytes: Vec<u8> = Vec::new();
    let mut req = request_with_method("POST");
    let error = req.send_multipart(&mut bytes, &form).unwrap_err();
    assert_eq!(error.kind(), ErrorKind::InvalidInput);
    assert!(bytes.is_empty());
}

#[test]
fn a_body_over_its_declared_length_is_cut_short() {
    let mut bytes: Vec<u8> = Vec::new();
    let mut req = request_with_method("PUT");
    req.set_content_length(3);
    assert_eq!(req.write(&mut bytes, b"abcdef"), 3);
    assert_eq!(req.write(&mut bytes, b"def"), 0);
    let error = req.write_all(&mut bytes, b"def").unwrap_err();
    assert_eq!(error.kind(), ErrorKind::WriteZero);
    req.finish(&mut bytes);
    assert!(written(&bytes).ends_with("\r\n\r\nabc"));
}

#[test]
fn uris_are_parsed_and_refused() {
    let uri = Uri::parse("https://user@example.com:8443/a?b=c").unwrap();
    assert_eq!(uri.scheme.as_deref(), Some("https"));
    assert_eq!(uri.host.as_deref(), Some("example.com"));
    assert_eq!(uri.port, Some(8443));
    let origin = Uri::parse("/a?b=c").unwrap();
    assert_eq!(origin.text, "/a?b=c");
    assert!(origin.scheme.is_none() && origin.host.is_none() && origin.port.is_none());
    assert!(Uri::parse("http://exa mple/").is_err());
    assert_eq!(Uri::root().text, "/");
}

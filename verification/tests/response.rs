use may_minihttp::body::body_reader::BodyReader;
use may_minihttp::buffer::BufferIo;
use may_minihttp::headers::{FieldName, FieldValue, Headers};
use may_minihttp::message::Version;
use may_minihttp::response::{
    decode, decode_with_limit, parse_content_length, parse_transfer_encoding, take_head, ParsedHead,
};
use may_minihttp::shared::SharedStream;
use may_minihttp::{Error, ErrorKind, Response};

fn build_response(status: u16, headers: &[(&str, &str)], body: &str) -> String {
    let mut resp = format!("HTTP/1.1 {status} OK\r\n");
    for (name, value) in headers {
        resp.push_str(&format!("{name}: {value}\r\n"));
    }
    resp.push_str("\r\n");
    resp.push_str(body);
    resp
}

fn received(bytes: &[u8]) -> BufferIo {
    let mut buf = BufferIo::new();
    buf.bump_read(bytes);
    buf
}

fn name(text: &str) -> FieldName {
    FieldName::from_bytes(text.as_bytes()).unwrap()
}

fn fields(list: &[(&str, &str)]) -> Headers {
    let mut headers = Headers::new();
    for (key, value) in list {
        headers.append(&name(key), &FieldValue::from_bytes(value.as_bytes()).unwrap());
    }
    headers
}

fn decoded(text: &str) -> Response {
    let mut buf = received(text.as_bytes());
    decode(&mut buf).unwrap().unwrap()
}

fn drain(response: &mut Response, stream: &mut SharedStream) -> Result<Vec<u8>, Error> {
    let mut all = Vec::new();
    loop {
        let piece = response.body.read(stream, 4096)?;
        if piece.is_empty() {
            return Ok(all);
        }
        all.extend_from_slice(&piece);
    }
}

#[test]
fn test_decode_valid_200() {
    let text = build_response(200, &[("Server", "test")], "hello");
    let mut buf = received(text.as_bytes());
    let rsp = decode(&mut buf).unwrap().unwrap();
    assert_eq!(rsp.status, 200);
    assert_eq!(rsp.version, Version::Http11);
    assert_eq!(rsp.headers.get(&name("Server")).unwrap(), b"test");
    assert_eq!(buf.get_reader_buf(), b"hello");
}

#[test]
fn test_decode_partial() {
    let mut buf = received(b"HTTP/1.1 200 OK\r\nServer: t");
    assert!(decode(&mut buf).unwrap().is_none());
}

#[test]
fn response_header_limit_is_enforced_before_body_bytes() {
    let mut oversized = received(
        format!("HTTP/1.1 200 OK\r\nX-Large: {}\r\n\r\n", "a".repeat(64)).as_bytes(),
    );
    let error = decode_with_limit(&mut oversized, 32).unwrap_err();
    assert!(error.message().contains("headers exceed"));

    let mut body_is_not_counted = received(b"HTTP/1.1 200 OK\r\nContent-Length: 64\r\n\r\n");
    body_is_not_counted.bump_read(&[b'x'; 64]);
    assert!(decode_with_limit(&mut body_is_not_counted, 48).unwrap().is_some());
}

#[test]
fn test_decode_content_length() {
    let text = build_response(200, &[("Content-Length", "5")], "hello");
    let rsp = decoded(&text);
    assert!(rsp.headers.get(&name("Content-Length")).is_some());
}

#[test]
fn test_decode_http10() {
    let rsp = decoded("HTTP/1.0 200 OK\r\n\r\n");
    assert_eq!(rsp.version, Version::Http10);
}

#[test]
fn test_decode_malformed() {
    let mut buf = received(b"not a response");
    assert!(decode(&mut buf).is_err());
}

#[test]
fn test_decode_set_reader_with_expect_body() {
    let text = build_response(200, &[("Content-Length", "5")], "");
    let mut rsp = decoded(&text);

    let mut reader = SharedStream::test(b"");
    rsp.set_reader(&mut reader, true).unwrap();

    match rsp.body {
        BodyReader::SizedReader(n) => assert_eq!(n, 5),
        _ => panic!("expected SizedReader"),
    }
}

#[test]
fn test_decode_set_reader_no_body() {
    let text = build_response(200, &[], "");
    let mut rsp = decoded(&text);

    let mut reader = SharedStream::test(b"");
    rsp.set_reader(&mut reader, false).unwrap();

    assert!(matches!(rsp.body, BodyReader::EmptyReader));
}

#[test]
fn test_decode_set_reader_bad_cl() {
    let text = build_response(200, &[("Content-Length", "abc")], "");
    let mut rsp = decoded(&text);

    let mut reader = SharedStream::test(b"");
    let err = rsp.set_reader(&mut reader, true).unwrap_err();
    assert!(err.message().contains("malformed Content-Length"));
}

#[test]
fn response_rejects_ambiguous_framing() {
    for headers in [
        vec![("Content-Length", "3"), ("Content-Length", "4")],
        vec![("Content-Length", "3"), ("Transfer-Encoding", "chunked")],
        vec![("Transfer-Encoding", "gzip, chunked")],
    ] {
        let text = build_response(200, &headers, "");
        let mut response = decoded(&text);
        let error = response.set_reader(&mut SharedStream::test(b""), true).unwrap_err();
        assert_eq!(error.kind(), ErrorKind::InvalidData);
    }
}

#[test]
fn identical_repeated_content_lengths_are_accepted() {
    let text = build_response(200, &[("Content-Length", "5"), ("Content-Length", "5")], "");
    let mut response = decoded(&text);
    response.set_reader(&mut SharedStream::test(b""), true).unwrap();
    assert!(matches!(response.body, BodyReader::SizedReader(5)));
}

#[test]
fn json_deserializes_streaming_body() {
    let text = build_response(200, &[("Content-Length", "11")], "");
    let mut response = decoded(&text);
    let mut reader = SharedStream::test(br#"{"ok":true}"#);
    response.set_reader(&mut reader, true).unwrap();

    let body = drain(&mut response, &mut reader).unwrap();
    let value: serde_json::Value = serde_json::from_slice(&body).unwrap();
    let mut expected = serde_json::Map::new();
    expected.insert("ok".to_string(), serde_json::Value::Bool(true));
    assert_eq!(value, serde_json::Value::Object(expected));
}

#[test]
fn a_complete_head_may_not_exceed_the_limit() {
    let head = b"HTTP/1.1 200 OK\r\nContent-Length: 0\r\n\r\n";
    assert!(decode_with_limit(&mut received(head), head.len()).unwrap().is_some());
    let error = decode_with_limit(&mut received(head), head.len() - 1).unwrap_err();
    assert_eq!(error.kind(), ErrorKind::InvalidData);
    // An unfinished head is refused as soon as it is as long as the limit.
    let mut unfinished = received(b"HTTP/1.1 200 OK\r\nX: ");
    assert!(decode_with_limit(&mut unfinished, 21).unwrap().is_none());
    unfinished.bump_read(b"1");
    assert!(decode_with_limit(&mut unfinished, 21).is_err());
}

#[test]
fn partial_head_consumes_nothing() {
    let mut buf = received(b"HTTP/1.1 204 No Co");
    assert!(decode(&mut buf).unwrap().is_none());
    assert_eq!(buf.get_reader_buf(), b"HTTP/1.1 204 No Co");
    buf.bump_read(b"ntent\r\n\r\nrest");
    assert_eq!(decode(&mut buf).unwrap().unwrap().status, 204);
    assert_eq!(buf.get_reader_buf(), b"rest");
}

#[test]
fn repeated_fields_keep_their_order() {
    let rsp = decoded("HTTP/1.1 200 OK\r\nSet-Cookie: a=1\r\nX: y\r\nset-cookie: b=2\r\n\r\n");
    assert_eq!(
        rsp.headers.get_all(&name("Set-Cookie")),
        vec![b"a=1".to_vec(), b"b=2".to_vec()]
    );
}

#[test]
fn parsed_heads_are_taken_as_the_parser_gives_them() {
    let mut buf = received(b"0123456789");
    let head = ParsedHead::Complete {
        used: 4,
        version: Some(1),
        code: Some(299),
        headers: vec![(b"A".to_vec(), b"b".to_vec())],
    };
    let rsp = take_head(&mut buf, head).unwrap().unwrap();
    assert_eq!(rsp.status, 299);
    assert_eq!(rsp.headers.get(&name("a")).unwrap(), b"b");
    assert_eq!(buf.get_reader_buf(), b"456789");
    assert!(take_head(&mut buf, ParsedHead::Partial).unwrap().is_none());
    assert!(take_head(&mut buf, ParsedHead::Failed("x".to_string())).is_err());
    assert_eq!(buf.get_reader_buf(), b"456789");
}

#[test]
fn content_lengths_agree_or_are_refused() {
    assert_eq!(parse_content_length(&fields(&[])).unwrap(), None);
    assert_eq!(parse_content_length(&fields(&[("Content-Length", "12")])).unwrap(), Some(12));
    assert_eq!(
        parse_content_length(&fields(&[("Content-Length", "12, 12")])).unwrap(),
        Some(12)
    );
    for bad in ["", "-1", "1x", "12, 13", "99999999999999999999999999"] {
        let error = parse_content_length(&fields(&[("Content-Length", bad)])).unwrap_err();
        assert_eq!(error.kind(), ErrorKind::InvalidData);
    }
}

#[test]
fn transfer_codings_other_than_chunked_are_refused() {
    assert!(!parse_transfer_encoding(&fields(&[])).unwrap());
    assert!(parse_transfer_encoding(&fields(&[("Transfer-Encoding", "Chunked")])).unwrap());
    for bad in ["gzip", "chunked, chunked", "chunked, gzip"] {
        assert!(parse_transfer_encoding(&fields(&[("Transfer-Encoding", bad)])).is_err());
    }
}

#[test]
fn a_chunked_body_is_read_and_frees_the_connection() {
    let mut response = decoded("HTTP/1.1 200 OK\r\nTransfer-Encoding: chunked\r\n\r\n");
    let mut reader = SharedStream::test(b"5\r\nhello\r\n0\r\n\r\nnext");
    reader.mark_response_pending();
    response.set_reader(&mut reader, true).unwrap();
    assert!(reader.ensure_request_ready().is_err());
    assert_eq!(drain(&mut response, &mut reader).unwrap(), b"hello");
    assert!(response.body_complete());
    assert!(reader.ensure_request_ready().is_ok());
    assert_eq!(reader.buffer.get_reader_buf(), b"next");
}

#[test]
fn an_abandoned_body_is_complete_but_the_connection_is_not_ready() {
    let mut response = decoded("HTTP/1.1 200 OK\r\nContent-Length: 9\r\n\r\n");
    let mut reader = SharedStream::test(b"abc");
    reader.mark_response_pending();
    response.set_reader(&mut reader, true).unwrap();
    response.abandon_body();
    assert!(response.body_complete());
    let error = reader.ensure_request_ready().unwrap_err();
    assert_eq!(error.kind(), ErrorKind::ConnectionAborted);
}

#[test]
fn heads_that_no_response_has_are_refused() {
    let refused = |text: &str| decode(&mut received(text.as_bytes())).unwrap_err();
    let status = refused("HTTP/1.1 099 Odd\r\n\r\n");
    assert_eq!(status.kind(), ErrorKind::Other);
    assert_eq!(
        status.message(),
        "failed to build http Response: http::Error(InvalidStatusCode)"
    );
    let version = refused("HTTP/1.7 200 OK\r\n\r\n");
    assert!(version.message().starts_with("failed to parse HTTP response: "));
    let many = format!("HTTP/1.1 200 OK\r\n{}\r\n", "a: b\r\n".repeat(129));
    assert_eq!(refused(&many).message(), "failed to parse HTTP response: too many headers");
    let most = format!("HTTP/1.1 200 OK\r\n{}\r\n", "a: b\r\n".repeat(128));
    assert_eq!(decoded(&most).headers.get_all(&name("a")).len(), 128);
}

#[test]
fn no_content_has_no_length() {
    let mut odd = decoded("HTTP/1.1 204 No Content\r\nContent-Length: 3\r\n\r\n");
    let error = odd.set_reader(&mut SharedStream::test(b""), true).unwrap_err();
    assert_eq!(error.message(), "204 response contains a non-zero Content-Length");
    let mut plain = decoded("HTTP/1.1 304 Not Modified\r\nContent-Length: 3\r\n\r\n");
    plain.set_reader(&mut SharedStream::test(b""), true).unwrap();
    assert!(plain.body_complete());
    let mut endless = decoded("HTTP/1.0 200 OK\r\n\r\n");
    let mut stream = SharedStream::test(b"all of it");
    endless.set_reader(&mut stream, true).unwrap();
    assert_eq!(drain(&mut endless, &mut stream).unwrap(), b"all of it");
}

#[test]
fn a_decoded_head_leaves_the_tail_behind_it() {
    let mut buffer = BufferIo::new();
    buffer.bump_read(b"HTTP/1.1 200 OK\r\nA: b\r\n\r\ntail");
    assert!(decode(&mut buffer).unwrap().is_some());
    assert_eq!(buffer.get_reader_buf(), b"tail");
}

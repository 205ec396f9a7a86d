use may_minihttp::multipart::{BoundarySource, Preload};
use may_minihttp::{ErrorKind, MultipartForm};

#[test]
fn multipart_length_matches_streamed_encoding() {
    let form = MultipartForm::with_boundary("test-boundary")
        .text("note", "hello")
        .bytes(
            "file",
            Some("image.png"),
            Some("image/png"),
            vec![0x89, b'P', b'N', b'G'],
        );

    let encoded = form.encode().unwrap();
    assert_eq!(form.content_length().unwrap(), encoded.len());
    let text = String::from_utf8_lossy(&encoded);
    assert!(text.contains("name=\"note\""));
    assert!(text.contains("filename=\"image.png\""));
    assert!(text.ends_with("--test-boundary--\r\n"));
}

#[test]
fn multipart_rejects_header_injection_before_writing() {
    let form = MultipartForm::with_boundary("safe").text("x\r\nInjected: yes", "value");
    let mut output = Vec::new();
    let error = form.write_to(&mut output).unwrap_err();
    assert_eq!(error.kind(), ErrorKind::InvalidInput);
    assert!(output.is_empty());
}

#[test]
fn multipart_escapes_quoted_metadata() {
    let form = MultipartForm::with_boundary("safe").bytes(
        "a\"b",
        Some("c\\d.txt"),
        None,
        b"body".to_vec(),
    );
    let encoded = String::from_utf8(form.encode().unwrap()).unwrap();
    assert!(encoded.contains("name=\"a\\\"b\""));
    assert!(encoded.contains("filename=\"c\\\\d.txt\""));
}

#[test]
fn blocking_reader_is_bounded_and_becomes_replayable_bytes() {
    let form = MultipartForm::with_boundary("safe")
        .blocking_reader(
            "file",
            Some("data.bin".to_string()),
            Some("application/octet-stream".to_string()),
            &b"payload"[..],
            7,
        )
        .unwrap();
    let first = form.encode().unwrap();
    let second = form.encode().unwrap();
    assert_eq!(first, second);
    assert!(first.windows(7).any(|window| window == b"payload"));

    let error = MultipartForm::new(1, 2, 3)
        .blocking_reader("file", None, None, &b"too large"[..], 3)
        .unwrap_err();
    assert_eq!(error.kind(), ErrorKind::InvalidData);
    assert_eq!(
        error.message(),
        "multipart part exceeds configured 3-byte preload limit"
    );
}

#[test]
fn a_form_encodes_to_exact_bytes() {
    let form = MultipartForm::with_boundary("b")
        .text("note", "hi")
        .bytes("f", Some("x.bin"), None, vec![1, 2]);
    let expected: &[u8] = b"--b\r\nContent-Disposition: form-data; name=\"note\"\r\nContent-Type: text/plain; charset=utf-8\r\n\r\nhi\r\n--b\r\nContent-Disposition: form-data; name=\"f\"; filename=\"x.bin\"\r\n\r\n\x01\x02\r\n--b--\r\n";
    assert_eq!(form.encode().unwrap(), expected);
    assert_eq!(form.content_type(), "multipart/form-data; boundary=b");
    assert_eq!(form.boundary(), "b");
    assert_eq!(
        MultipartForm::with_boundary("b").encode().unwrap(),
        b"--b--\r\n"
    );
}

#[test]
fn boundaries_are_made_of_hexadecimal_numbers() {
    let form = MultipartForm::new(0xab, 0x1f_0000, 16);
    assert_eq!(form.boundary(), "may-minihttp-ab-1f0000-10");
}

#[test]
fn a_late_bad_field_keeps_earlier_fields_from_being_written() {
    for bad in [
        MultipartForm::with_boundary("b")
            .text("fine", "value")
            .bytes("x", Some("a\nb"), None, Vec::new()),
        MultipartForm::with_boundary("b")
            .text("fine", "value")
            .bytes("x", None, Some("a\rb"), Vec::new()),
    ] {
        let mut output = b"kept".to_vec();
        let error = bad.write_to(&mut output).unwrap_err();
        assert_eq!(error.kind(), ErrorKind::InvalidInput);
        assert_eq!(output, b"kept");
        assert!(bad.content_length().is_err());
        assert!(bad.encode().is_err());
    }
    let error = MultipartForm::with_boundary("b")
        .bytes("x", None, Some("a\rb"), Vec::new())
        .encode()
        .unwrap_err();
    assert_eq!(
        error.message(),
        "multipart content type must not contain CR or LF"
    );
}

#[test]
fn boundaries_of_one_process_differ() {
    let mut source = BoundarySource::new();
    let first = source.form(7, 9);
    let second = source.form(7, 9);
    assert_eq!(first.boundary(), "may-minihttp-7-9-1");
    assert_eq!(second.boundary(), "may-minihttp-7-9-2");
    assert_eq!(first.encode().unwrap(), b"--may-minihttp-7-9-1--\r\n");
}

#[test]
fn a_preload_takes_at_most_one_byte_more_than_the_limit() {
    let mut preload = Preload::new(3);
    assert_eq!(preload.wants(), 4);
    preload.piece(b"ab");
    assert_eq!(preload.wants(), 2);
    preload.piece(b"cd");
    assert_eq!(preload.wants(), 0);
    let form = MultipartForm::with_boundary("b");
    assert!(form.blocking_reader("f", None, None, &preload.bytes, 3).is_err());
    assert_eq!(Preload::new(usize::MAX).wants(), 8192);
    assert_eq!(Preload::new(0).wants(), 1);
}

use may_minihttp::headers::{has_name, visible_text, FieldName, FieldValue, Headers};

fn name(text: &str) -> FieldName {
    FieldName::from_bytes(text.as_bytes()).unwrap()
}

fn value(text: &str) -> FieldValue {
    FieldValue::from_bytes(text.as_bytes()).unwrap()
}

fn fields(list: &[(&str, &str)]) -> Headers {
    let mut headers = Headers::new();
    for (key, text) in list {
        headers.append(&name(key), &value(text));
    }
    headers
}

fn shown(headers: &Headers) -> Vec<(String, String)> {
    headers
        .entries()
        .into_iter()
        .map(|(key, bytes)| (key, String::from_utf8(bytes).unwrap()))
        .collect()
}

fn pairs(list: &[(&str, &str)]) -> Vec<(String, String)> {
    list.iter().map(|(key, text)| (key.to_string(), text.to_string())).collect()
}

#[test]
fn names_fold_to_lower_case() {
    assert_eq!(name("Content-TYPE").as_str(), "content-type");
    assert!(name("X-A").same(&name("x-a")));
    assert!(!name("x-a").same(&name("x-b")));
    for bad in ["", "a b", "a:b", "\u{e9}", "a\r\n"] {
        let error = FieldName::from_bytes(bad.as_bytes()).unwrap_err();
        assert_eq!(error, "invalid HTTP header name");
    }
}

#[test]
fn values_hold_no_control_bytes() {
    assert_eq!(value("a\tb \u{e9}").as_bytes(), "a\tb \u{e9}".as_bytes());
    for bad in [&b"a\nb"[..], b"a\r", b"\0", b"\x7f"] {
        let error = FieldValue::from_bytes(bad).unwrap_err();
        assert_eq!(error, "failed to parse header value");
    }
    assert_eq!(visible_text(b"a b").unwrap(), vec!['a', ' ', 'b']);
    assert!(visible_text("\u{e9}".as_bytes()).is_none());
}

#[test]
fn an_inserted_value_replaces_every_other() {
    let mut headers = fields(&[("A", "1"), ("B", "2"), ("a", "3")]);
    headers.insert(&name("a"), &value("4"));
    assert_eq!(shown(&headers), pairs(&[("a", "4"), ("b", "2")]));
    assert_eq!(headers.names_len(), 2);
}

#[test]
fn an_appended_value_comes_last_of_its_name() {
    let headers = fields(&[("A", "1"), ("B", "2"), ("a", "3")]);
    assert_eq!(shown(&headers), pairs(&[("a", "1"), ("a", "3"), ("b", "2")]));
    assert_eq!(headers.get(&name("A")).unwrap(), b"1");
    assert_eq!(headers.get_all(&name("a")), vec![b"1".to_vec(), b"3".to_vec()]);
    assert!(headers.contains_key(&name("b")) && !headers.contains_key(&name("c")));
}

#[test]
fn a_removed_name_gives_its_place_to_the_last() {
    let mut headers = fields(&[("a", "1"), ("b", "2"), ("c", "3")]);
    headers.remove(&name("A"));
    assert_eq!(shown(&headers), pairs(&[("c", "3"), ("b", "2")]));
    headers.remove(&name("z"));
    headers.remove_all(&vec![name("b"), name("c")]);
    assert_eq!(headers.names_len(), 0);
    assert!(headers.get(&name("b")).is_none());
}

#[test]
fn maps_are_joined_field_by_field() {
    let mut headers = fields(&[("a", "1"), ("b", "2")]);
    headers.append_all(&fields(&[("c", "3"), ("a", "4")]));
    assert_eq!(shown(&headers), pairs(&[("a", "1"), ("a", "4"), ("b", "2"), ("c", "3")]));
}

#[test]
fn an_overlay_replaces_the_names_it_has() {
    let mut headers = fields(&[("a", "1"), ("a", "2"), ("b", "3")]);
    headers.overlay(&fields(&[("a", "4"), ("c", "5"), ("a", "6")]));
    assert_eq!(headers.get_all(&name("a")), vec![b"4".to_vec(), b"6".to_vec()]);
    assert_eq!(headers.get_all(&name("b")), vec![b"3".to_vec()]);
    assert_eq!(headers.get_all(&name("c")), vec![b"5".to_vec()]);
}

#[test]
fn a_copy_is_independent() {
    let mut headers = fields(&[("a", "1")]);
    let copy = headers.clone();
    headers.remove(&name("a"));
    assert_eq!(shown(&copy), pairs(&[("a", "1")]));
}

#[test]
fn well_known_names_are_what_they_say() {
    let known = vec![
        FieldName::content_type(),
        FieldName::content_length(),
        FieldName::transfer_encoding(),
        FieldName::connection(),
        FieldName::location(),
        FieldName::host(),
        FieldName::authorization(),
        FieldName::cookie(),
        FieldName::proxy_authorization(),
    ];
    for text in [
        "Content-Type",
        "Content-Length",
        "Transfer-Encoding",
        "Connection",
        "Location",
        "Host",
        "Authorization",
        "Cookie",
        "Proxy-Authorization",
    ] {
        assert!(has_name(&known, &name(text)));
    }
    assert!(!has_name(&known, &name("x")));
    assert_eq!(FieldValue::json_media_type().as_bytes(), b"application/json");
}

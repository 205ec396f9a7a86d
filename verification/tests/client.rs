use may_minihttp::http_client::{
    accept_server_name, destination, host_field, is_refusal, parse_absolute_url,
    require_tls_config, Dial, DialStep,
};
use may_minihttp::message::Method;
use may_minihttp::resolver::SocketAddr;
use may_minihttp::time::Instant;
use may_minihttp::uri::Uri;
use may_minihttp::{ClientErrorKind, Error, ErrorKind, HttpClient, MultipartForm};

fn connected(address: &str) -> HttpClient<()> {
    HttpClient::from_uri(&Uri::parse(address).unwrap(), ()).unwrap()
}

fn sent(client: &mut HttpClient<()>) -> String {
    String::from_utf8(client.conn.buffer.take_writes().concat()).unwrap()
}

#[test]
fn from_url_rejects_relative_and_unknown_schemes() {
    assert_eq!(parse_absolute_url("/relative").unwrap_err().kind(), ErrorKind::InvalidInput);
    let unknown = parse_absolute_url("ftp://example.com/file").unwrap();
    assert_eq!(destination(&unknown).unwrap_err().kind(), ErrorKind::InvalidInput);
}

#[test]
fn addresses_lead_to_hosts_and_ports() {
    let plain = destination(&parse_absolute_url("http://example.com/x").unwrap()).unwrap();
    assert_eq!((plain.host.as_str(), plain.port, plain.tls), ("example.com", 80, false));
    let secure = destination(&parse_absolute_url("HTTPS://example.com").unwrap()).unwrap();
    assert_eq!((secure.port, secure.tls), (443, true));
    let other = destination(&parse_absolute_url("https://example.com:8443/").unwrap()).unwrap();
    assert_eq!(other.port, 8443);
    let error = destination(&parse_absolute_url("ftp://example.com/").unwrap()).unwrap_err();
    assert_eq!(error.message(), "unsupported URL scheme: ftp");
    assert!(require_tls_config(true, false).is_err());
    assert!(require_tls_config(true, true).is_ok() && require_tls_config(false, false).is_ok());
    let authority = host_field(&parse_absolute_url("http://example.com:81/").unwrap()).unwrap();
    assert_eq!(authority.as_bytes(), b"example.com:81");
    assert!(host_field(&Uri::root()).is_err());
}

#[test]
fn requests_carry_the_host_of_the_connection() {
    let mut client = connected("http://example.com:81/");
    client.get(Uri::parse("/a").unwrap()).unwrap();
    assert_eq!(
        sent(&mut client),
        "GET /a HTTP/1.1\r\nUser-Agent: may_minihttp\r\nAccept: */*\r\n\
         host: example.com:81\r\n\r\n"
    );
    client.post(Uri::parse("/b").unwrap(), b"xyz").unwrap();
    assert!(sent(&mut client).ends_with("Content-Length: 3\r\n\r\nxyz"));
    client.post_json(Uri::parse("/c").unwrap(), b"{}").unwrap();
    let text = sent(&mut client);
    assert!(text.contains("content-type: application/json\r\n") && text.ends_with("\r\n\r\n{}"));
    let form = MultipartForm::with_boundary("edge").text("k", "v");
    client.post_multipart(Uri::parse("/d").unwrap(), &form).unwrap();
    let text = sent(&mut client);
    assert!(text.contains("boundary=edge\r\n") && text.ends_with("--edge--\r\n"));
}

#[test]
fn a_response_to_head_has_no_body() {
    let mut client = connected("http://example.com/");
    let request = client.new_request(Method::head(), Uri::root());
    client.send_request(request).unwrap();
    client.conn.buffer.bump_read(b"HTTP/1.1 200 OK\r\nContent-Length: 9\r\n\r\n");
    let response = client.get_rsp().unwrap().unwrap();
    assert!(response.body_complete());
    client.get(Uri::root()).unwrap();
}

#[test]
fn a_connection_is_ready_only_after_its_response_was_read() {
    let mut client = HttpClient::connect(());
    client.get(Uri::root()).unwrap();
    assert!(client.get_rsp().unwrap().is_none());
    client.conn.buffer.bump_read(b"HTTP/1.1 200 OK\r\nContent-Length: 2\r\n\r\nab");
    let mut response = client.get_rsp().unwrap().unwrap();
    let error = client.get(Uri::root()).unwrap_err();
    assert_eq!(error.kind(), ErrorKind::ConnectionAborted);
    assert_eq!(response.body.read(&mut client.conn, 9).unwrap(), b"ab");
    assert!(client.get(Uri::root()).is_ok());
}

#[test]
fn a_connection_that_closes_before_the_head_fails() {
    let mut client = HttpClient::connect(());
    client.get(Uri::root()).unwrap();
    client.conn.buffer.bump_read(b"HTTP/1.1 20");
    client.conn.buffer.bump_read(b"");
    assert_eq!(client.get_rsp().unwrap_err().kind(), ErrorKind::UnexpectedEof);
}

#[test]
fn response_heads_are_limited() {
    let mut client = HttpClient::connect(());
    client.set_max_response_header_bytes(16);
    client.conn.buffer.bump_read(b"HTTP/1.1 200 OK\r\nX: y\r\n\r\n");
    assert!(client.get_rsp().unwrap_err().message().contains("headers exceed"));
}

fn second(count: u128) -> Instant {
    Instant { nanos: count * 1_000_000_000 }
}

#[test]
fn addresses_are_dialled_in_order() {
    let first = SocketAddr::V4 { ip: 1, port: 80 };
    let other = SocketAddr::V6 { ip: 2, port: 80, flowinfo: 0, scope_id: 0 };
    let mut dial = Dial::new(vec![first, other], second(10));
    // The later an address is tried, the less time it has: all of them share the deadline.
    assert!(matches!(
        dial.step(second(2)),
        DialStep::Try { address, timeout } if address == first && timeout.nanos == 8_000_000_000
    ));
    dial.failed("one");
    assert!(matches!(
        dial.step(second(7)),
        DialStep::Try { address, timeout } if address == other && timeout.nanos == 3_000_000_000
    ));
    dial.failed("two");
    assert!(matches!(dial.step(second(11)), DialStep::Failed("two")));
    match Dial::<Error>::new(vec![], second(10)).step(second(2)) {
        DialStep::GiveUp(error) => assert_eq!(error.kind(), ErrorKind::AddrNotAvailable),
        other => panic!("there is no address: {other:?}"),
    }
}

#[test]
fn no_address_is_tried_behind_the_deadline() {
    let first = SocketAddr::V4 { ip: 1, port: 80 };
    let mut dial = Dial::new(vec![first, first], second(10));
    assert!(matches!(dial.step(second(9)), DialStep::Try { .. }));
    dial.failed(Error::new(ErrorKind::ConnectionRefused, "refused"));
    match dial.step(second(10)) {
        DialStep::GiveUp(error) => {
            assert_eq!(error.message(), "address attempts exhausted the connect deadline");
            assert_eq!(ClientErrorKind::classify(&error), ClientErrorKind::Timeout);
        }
        other => panic!("there is no time left: {other:?}"),
    }
}

#[test]
fn a_refused_form_puts_nothing_on_the_wire() {
    let mut client = connected("http://example.com/");
    let form = MultipartForm::with_boundary("edge").text("bad\r\nname", "v");
    let error = client.post_multipart(Uri::parse("/d").unwrap(), &form).unwrap_err();
    assert_eq!(error.kind(), ErrorKind::InvalidInput);
    assert_eq!(sent(&mut client), "");
    let form = MultipartForm::with_boundary("ed\nge").text("k", "v");
    assert!(client.post_multipart(Uri::parse("/d").unwrap(), &form).is_err());
    assert_eq!(sent(&mut client), "");
    client.get(Uri::root()).unwrap();
    assert!(sent(&mut client).starts_with("GET / HTTP/1.1\r\n"));
}

#[test]
fn sending_leaves_what_was_received_alone() {
    let mut client = HttpClient::connect(());
    client.conn.buffer.bump_read(b"early");
    client.get(Uri::root()).unwrap();
    client.post(Uri::root(), b"abc").unwrap();
    assert_eq!(client.conn.buffer.get_reader_buf(), b"early");
    assert!(!client.conn.response_pending);
}

#[test]
fn from_url_supports_http_and_sets_host_header() {
    let address = parse_absolute_url("http://127.0.0.1:8080/secure").unwrap();
    let place = destination(&address).unwrap();
    assert_eq!((place.host.as_str(), place.port, place.tls), ("127.0.0.1", 8080, false));
    let mut client = HttpClient::from_uri(&address, ()).unwrap();
    client.get(Uri::parse("/secure?value=1").unwrap()).unwrap();
    let request = sent(&mut client);
    assert!(request.starts_with("GET /secure?value=1 HTTP/1.1\r\n"));
    assert!(request.to_ascii_lowercase().contains("\r\nhost: 127.0.0.1:8080\r\n"));
    client
        .conn
        .buffer
        .bump_read(b"HTTP/1.1 200 OK\r\nContent-Length: 6\r\n\r\nsecure");
    let mut response = client.get_rsp().unwrap().unwrap();
    assert_eq!(response.body.read(&mut client.conn, 64).unwrap(), b"secure");
}

#[test]
fn refusals_are_told_by_code_or_by_text() {
    for code in [10061, 10060, 10064] {
        assert!(is_refusal(Some(code), "os error"));
    }
    assert!(!is_refusal(Some(10062), "os error"));
    assert!(!is_refusal(None, "broken pipe"));
    for text in [
        "Connection Refused",
        "it Timed Out",
        "network unreachable",
        "WSAECONNREFUSED",
        "WSAETIMEDOUT",
        "WSAEHOSTUNREACH",
    ] {
        assert!(is_refusal(None, text));
        assert!(is_refusal(Some(5), text));
    }
}

#[test]
fn a_host_that_names_no_tls_server_is_refused() {
    assert!(accept_server_name(Ok(())).is_ok());
    let error = accept_server_name(Err("bad label".to_owned())).unwrap_err();
    assert_eq!(error.kind(), ErrorKind::InvalidInput);
    assert_eq!(error.message(), "invalid TLS server name: bad label");
}

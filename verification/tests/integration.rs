//! Requests on single connections to services that answer in memory.

use std::cell::RefCell;
use std::collections::VecDeque;
use std::rc::Rc;

use may_minihttp::buffer::is_starved;
use may_minihttp::headers::{FieldName, FieldValue};
use may_minihttp::message::{Method, Version};
use may_minihttp::uri::Uri;
use may_minihttp::{Error, ErrorKind, HttpClient, Request, Response};

/// A request as a service sees it.
struct Received {
    method: String,
    path: String,
    headers: Vec<(String, String)>,
    body: Vec<u8>,
}

impl Received {
    fn parse(bytes: &[u8]) -> Self {
        let end = bytes.windows(4).position(|window| window == b"\r\n\r\n").unwrap() + 4;
        let head = String::from_utf8(bytes[..end].to_vec()).unwrap();
        let mut lines = head.trim_end().split("\r\n");
        let mut first = lines.next().unwrap().split(' ');
        let (method, path) = (first.next().unwrap(), first.next().unwrap());
        assert_eq!(first.next(), Some("HTTP/1.1"));
        let headers: Vec<(String, String)> = lines
            .map(|line| line.split_once(": ").unwrap())
            .map(|(name, value)| (name.to_owned(), value.to_owned()))
            .collect();
        let declared = headers
            .iter()
            .find(|(name, _)| name.eq_ignore_ascii_case("content-length"))
            .map_or(0, |(_, value)| value.parse::<usize>().unwrap());
        let body = bytes[end..].to_vec();
        assert_eq!(body.len(), declared, "the body fills its declared length");
        Received { method: method.to_owned(), path: path.to_owned(), headers, body }
    }
}

type Service = Rc<RefCell<dyn FnMut(&Received) -> (&'static str, Vec<u8>)>>;

fn service(call: impl FnMut(&Received) -> (&'static str, Vec<u8>) + 'static) -> Service {
    Rc::new(RefCell::new(call))
}

/// A connection to a service. Answers arrive in pieces of at most 1000 bytes.
struct Wire {
    client: HttpClient<()>,
    service: Service,
    arriving: VecDeque<Vec<u8>>,
}

impl Wire {
    fn connect(service: &Service) -> Self {
        Wire {
            client: HttpClient::connect(()),
            service: Rc::clone(service),
            arriving: VecDeque::new(),
        }
    }

    fn serve(&mut self) {
        let sent = self.client.conn.buffer.take_writes().concat();
        let request = Received::parse(&sent);
        let (status, body) = (*self.service.borrow_mut())(&request);
        let mut reply =
            format!("HTTP/1.1 {status}\r\nServer: M\r\nContent-Length: {}\r\n\r\n", body.len())
                .into_bytes();
        reply.extend_from_slice(&body);
        self.arriving.extend(reply.chunks(1000).map(|piece| piece.to_vec()));
    }

    fn receive(&mut self) {
        let piece = self.arriving.pop_front().unwrap_or_default();
        self.client.conn.buffer.bump_read(&piece);
    }

    fn answer(&mut self) -> Result<Response, Error> {
        loop {
            match self.client.get_rsp()? {
                Some(response) => return Ok(response),
                None => self.receive(),
            }
        }
    }

    fn get(&mut self, path: &str) -> Result<Response, Error> {
        self.client.get(Uri::parse(path).unwrap())?;
        self.serve();
        self.answer()
    }

    fn post(&mut self, path: &str, body: &[u8]) -> Result<Response, Error> {
        self.client.post(Uri::parse(path).unwrap(), body)?;
        self.serve();
        self.answer()
    }

    fn request(&self, method: &str, path: &str) -> Request {
        self.client.new_request(Method::named(method), Uri::parse(path).unwrap())
    }

    fn send(&mut self, request: Request) -> Result<Response, Error> {
        self.client.send_request(request)?;
        self.serve();
        self.answer()
    }

    fn custom(&mut self, method: &str, path: &str, body: &[u8]) -> Vec<u8> {
        let mut request = self.request(method, path);
        request.send(&mut self.client.conn.buffer, body).unwrap();
        let mut response = self.send(request).unwrap();
        self.read_all(&mut response)
    }

    fn read_in(&mut self, response: &mut Response, max: usize) -> Result<Vec<u8>, Error> {
        let mut body = Vec::new();
        loop {
            match response.body.read(&mut self.client.conn, max) {
                Ok(bytes) if bytes.is_empty() => return Ok(body),
                Ok(bytes) => body.extend_from_slice(&bytes),
                Err(error) if is_starved(&error) => self.receive(),
                Err(error) => return Err(error),
            }
        }
    }

    fn read_all(&mut self, response: &mut Response) -> Vec<u8> {
        self.read_in(response, 4096).unwrap()
    }

    fn read_text(&mut self, response: &mut Response) -> String {
        String::from_utf8(self.read_all(response)).unwrap()
    }
}

fn name(text: &str) -> FieldName {
    FieldName::from_bytes(text.as_bytes()).unwrap()
}

fn value(text: &str) -> FieldValue {
    FieldValue::from_bytes(text.as_bytes()).unwrap()
}

fn field(response: &Response, text: &str) -> String {
    String::from_utf8(response.headers.get(&name(text)).unwrap()).unwrap()
}

/// Endpoints that echo what they received.
fn echo() -> Service {
    service(|request| {
        let mut parts = vec![
            format!("method:{}", request.method),
            format!("path:{}", request.path),
            format!("headers:{}", request.headers.len()),
        ];
        for (name, value) in &request.headers {
            parts.push(format!("{name}:{value}"));
        }
        if !request.body.is_empty() {
            parts.push(format!("body:{}", String::from_utf8_lossy(&request.body)));
        }
        let body = match (request.method.as_str(), request.path.as_str()) {
            ("GET", "/ok") => "OK".to_owned(),
            ("GET", "/chunked") => "chunked-data-end".to_owned(),
            ("GET", "/get") | ("POST", "/post") | ("PUT", "/put") | ("PATCH", "/patch") => {
                parts.join("\n")
            }
            ("HEAD", "/headers") => String::new(),
            ("DELETE", "/delete") => "deleted".to_owned(),
            _ => "Not Found".to_owned(),
        };
        ("200 OK", body.into_bytes())
    })
}

#[test]
fn test_get_simple() {
    let mut wire = Wire::connect(&echo());
    let mut response = wire.get("/ok").unwrap();
    assert_eq!(response.status, 200);
    assert_eq!(wire.read_text(&mut response), "OK");
}

#[test]
fn test_get_with_headers() {
    let mut wire = Wire::connect(&echo());
    let mut request = wire.request("GET", "/get");
    request.headers.append(&name("X-Test-1"), &value("value1"));
    request.headers.append(&name("X-Test-2"), &value("value2"));
    let mut response = wire.send(request).unwrap();
    assert_eq!(response.status, 200);
    let body = wire.read_text(&mut response);
    assert!(body.contains("x-test-1:value1"));
    assert!(body.contains("x-test-2:value2"));
    assert!(body.contains("headers:"));
}

#[test]
fn test_post_with_body() {
    let mut wire = Wire::connect(&echo());
    let mut response = wire.post("/post", b"{\"hello\":\"world\"}").unwrap();
    assert_eq!(response.status, 200);
    let body = wire.read_text(&mut response);
    assert!(body.contains("method:POST"));
    assert!(body.contains("body:{\"hello\":\"world\"}"));
}

#[test]
fn test_post_empty_body() {
    let mut wire = Wire::connect(&echo());
    let mut response = wire.post("/post", b"").unwrap();
    assert_eq!(response.status, 200);
    assert!(wire.read_text(&mut response).contains("method:POST"));
}

#[test]
fn test_head_no_body() {
    let mut wire = Wire::connect(&echo());
    let request = wire.request("HEAD", "/headers");
    let mut response = wire.send(request).unwrap();
    assert_eq!(response.status, 200);
    assert_eq!(response.version, Version::Http11);
    assert!(wire.read_text(&mut response).is_empty());
}

#[test]
fn test_put_with_body_explicit() {
    let mut wire = Wire::connect(&echo());
    let mut request = wire.request("PUT", "/put");
    request.set_content_length(13);
    request.send(&mut wire.client.conn.buffer, b"hello world!!!").unwrap();
    let mut response = wire.send(request).unwrap();
    assert_eq!(response.status, 200);
    assert!(wire.read_text(&mut response).contains("body:hello world!!!"));
}

#[test]
fn test_delete_no_body() {
    let mut wire = Wire::connect(&echo());
    let request = wire.request("DELETE", "/delete");
    let mut response = wire.send(request).unwrap();
    assert_eq!(response.status, 200);
    assert_eq!(wire.read_text(&mut response), "deleted");
}

#[test]
fn test_patch_with_body_explicit() {
    let mut wire = Wire::connect(&echo());
    let mut request = wire.request("PATCH", "/patch");
    request.set_content_length(15);
    request.send(&mut wire.client.conn.buffer, b"{\"patched\":true}").unwrap();
    let mut response = wire.send(request).unwrap();
    assert_eq!(response.status, 200);
    let body = wire.read_text(&mut response);
    assert!(body.contains("method:PATCH"));
    assert!(body.contains("body:{\"patched\":true}"));
}

#[test]
fn test_connection_reuse() {
    let mut wire = Wire::connect(&echo());
    for _ in 0..5 {
        let mut response = wire.get("/ok").unwrap();
        assert_eq!(response.status, 200);
        assert_eq!(wire.read_text(&mut response), "OK");
    }
}

#[test]
fn test_chunked_response() {
    let mut wire = Wire::connect(&echo());
    let mut response = wire.get("/chunked").unwrap();
    assert_eq!(response.status, 200);
    let body = String::from_utf8(wire.read_in(&mut response, 64).unwrap()).unwrap();
    assert!(body.contains("chunked"));
    assert!(body.contains("data"));
    assert!(body.contains("end"));
}

#[test]
fn test_not_found() {
    let mut wire = Wire::connect(&echo());
    let mut response = wire.get("/nonexistent").unwrap();
    assert_eq!(response.status, 200);
    assert!(wire.read_text(&mut response).contains("Not Found"));
}

#[test]
fn test_partial_response_decode() {
    let mut wire = Wire::connect(&echo());
    wire.client.get(Uri::parse("/ok").unwrap()).unwrap();
    wire.serve();
    let reply: Vec<u8> = wire.arriving.drain(..).flatten().collect();
    wire.arriving = reply.into_iter().map(|byte| vec![byte]).collect();
    let mut response = wire.answer().unwrap();
    assert_eq!(response.status, 200);
    assert_eq!(wire.read_text(&mut response), "OK");
}

#[test]
fn test_different_uris_same_client() {
    let mut wire = Wire::connect(&echo());
    let mut first = wire.get("/ok").unwrap();
    assert_eq!(wire.read_text(&mut first), "OK");
    let mut second = wire.get("/get").unwrap();
    assert!(wire.read_text(&mut second).contains("method:GET"));
    let mut third = wire.get("/chunked").unwrap();
    assert!(wire.read_text(&mut third).contains("chunked"));
}

#[test]
fn test_content_length_header() {
    let mut wire = Wire::connect(&echo());
    let response = wire.get("/ok").unwrap();
    assert_eq!(response.status, 200);
    assert!(response.headers.contains_key(&name("content-length")));
    assert_eq!(field(&response, "content-length"), "2");
}

#[test]
fn test_server_header() {
    let mut wire = Wire::connect(&echo());
    let response = wire.get("/ok").unwrap();
    assert_eq!(response.status, 200);
    assert!(response.headers.contains_key(&name("server")));
    assert_eq!(field(&response, "server"), "M");
}

#[test]
fn test_host_header_injected() {
    let mut wire = Wire::connect(&echo());
    let mut request = wire.request("GET", "/get");
    request.headers.insert(&name("Host"), &value("localhost"));
    let mut response = wire.send(request).unwrap();
    assert_eq!(response.status, 200);
    assert!(wire.read_text(&mut response).contains("host:localhost"));
}

#[test]
fn test_all_http_verbs() {
    let seen = Rc::new(RefCell::new(Vec::new()));
    let log = Rc::clone(&seen);
    let verbs = service(move |request| {
        log.borrow_mut().push(request.method.clone());
        let body = if request.body.is_empty() { b"ok".to_vec() } else { request.body.clone() };
        ("200 OK", if request.method == "HEAD" { Vec::new() } else { body })
    });
    let body = b"test body data";

    let mut wire = Wire::connect(&verbs);
    let mut response = wire.get("/").unwrap();
    assert_eq!(wire.read_all(&mut response), b"ok");
    assert_eq!(response.status, 200);

    let mut wire = Wire::connect(&verbs);
    let mut response = wire.post("/", body).unwrap();
    assert_eq!(wire.read_all(&mut response), body);
    assert_eq!(response.status, 200);

    for method in ["PUT", "DELETE", "PATCH", "OPTIONS"] {
        assert_eq!(Wire::connect(&verbs).custom(method, "/", body), body);
    }

    let mut wire = Wire::connect(&verbs);
    let mut request = wire.request("HEAD", "/");
    request.expect_body(false);
    assert_eq!(wire.send(request).unwrap().status, 200);

    for method in ["GET", "POST", "PUT", "DELETE", "PATCH", "HEAD", "OPTIONS"] {
        assert_eq!(seen.borrow().iter().filter(|seen| *seen == method).count(), 1);
    }
}

/// A service that numbers its requests and echoes their bodies.
fn counting() -> (Service, Rc<RefCell<u64>>) {
    let count = Rc::new(RefCell::new(0));
    let counter = Rc::clone(&count);
    let numbered = service(move |request| {
        *counter.borrow_mut() += 1;
        let mut body = format!("seq:{}\n", counter.borrow()).into_bytes();
        body.extend_from_slice(&request.body);
        ("200 OK", body)
    });
    (numbered, count)
}

#[test]
fn test_keepalive_sequential_requests() {
    let (numbered, count) = counting();
    let mut wire = Wire::connect(&numbered);
    let mut expected = 1_u64;
    for _ in 0..50 {
        let mut response = wire.get("/").unwrap();
        assert!(wire.read_text(&mut response).starts_with(&format!("seq:{expected}\n")));
        expected += 1;
    }
    assert_eq!(expected, 51);
    assert_eq!(*count.borrow(), 50);
}

#[test]
fn test_keepalive_post_body_integrity() {
    let (numbered, count) = counting();
    let mut wire = Wire::connect(&numbered);
    for i in 1..=20 {
        let body = format!("request-{i}").into_bytes();
        let mut response = wire.post("/", &body).unwrap();
        let answer = wire.read_all(&mut response);
        assert!(answer.starts_with(format!("seq:{i}\n").as_bytes()));
        assert!(answer.ends_with(&body));
    }
    assert_eq!(*count.borrow(), 20);
}

#[test]
fn test_keepalive_mixed_methods() {
    let (numbered, count) = counting();
    let mut wire = Wire::connect(&numbered);
    for i in 1..=30 {
        let mut response = if i % 3 == 0 {
            wire.post("/", format!("post-{i}").as_bytes()).unwrap()
        } else {
            wire.get("/").unwrap()
        };
        assert!(wire.read_all(&mut response).starts_with(format!("seq:{i}\n").as_bytes()));
    }
    assert_eq!(*count.borrow(), 30);
}

const PATTERN: &[u8] = b"ABCDEFGHIJKLMNOPQRSTUVWXYZ0123456789";

fn sized(size: usize) -> Service {
    service(move |_| ("200 OK", PATTERN.iter().copied().cycle().take(size).collect()))
}

#[test]
fn test_large_response_body_sizes() {
    for size in [100, 1_000, 10_000, 100_000] {
        let mut wire = Wire::connect(&sized(size));
        let mut response = wire.get("/ok").unwrap();
        let body = wire.read_all(&mut response);
        assert_eq!(body.len(), size);
        for (i, byte) in body.iter().enumerate() {
            assert_eq!(*byte, PATTERN[i % PATTERN.len()]);
        }
    }
}

#[test]
fn test_response_body_boundary_sizes() {
    for size in [1, 100, 1_024, 4_096, 4_097, 8_192, 16_384, 32_768] {
        let mut wire = Wire::connect(&sized(size));
        let mut response = wire.get("/ok").unwrap();
        assert_eq!(wire.read_all(&mut response).len(), size);
        assert_eq!(field(&response, "content-length").parse::<usize>().unwrap(), size);
    }
}

/// A service that echoes bodies.
fn mirror() -> (Service, Rc<RefCell<(u64, usize)>>) {
    let seen = Rc::new(RefCell::new((0, 0)));
    let log = Rc::clone(&seen);
    let mirror = service(move |request| {
        let mut log = log.borrow_mut();
        *log = (log.0 + 1, log.1 + request.body.len());
        ("200 OK", if request.body.is_empty() { b"ok".to_vec() } else { request.body.clone() })
    });
    (mirror, seen)
}

#[test]
fn test_post_roundtrip() {
    for size in [1, 100, 1_000, 10_000] {
        let body = vec![b'X'; size];
        let mut wire = Wire::connect(&mirror().0);
        let mut response = wire.post("/echo", &body).unwrap();
        let answer = wire.read_all(&mut response);
        assert_eq!(answer.len(), size);
        assert_eq!(answer, body);
    }
}

#[test]
fn test_post_body_correctness() {
    for size in [1, 100, 1_000, 10_000] {
        let body = vec![b'X'; size];
        let mut wire = Wire::connect(&mirror().0);
        let mut response = wire.post("/", &body).unwrap();
        assert_eq!(wire.read_all(&mut response), body);
    }
}

#[test]
fn test_chunked_server_counters() {
    let (mirror, seen) = mirror();
    let mut ready = Wire::connect(&mirror);
    let mut response = ready.get("/ok").unwrap();
    assert_eq!(ready.read_all(&mut response), b"ok");
    for (byte, size) in [(b'A', 50), (b'B', 100), (b'C', 200)] {
        let body = vec![byte; size];
        let mut wire = Wire::connect(&mirror);
        let mut response = wire.post("/echo", &body).unwrap();
        assert_eq!(wire.read_all(&mut response), body);
    }
    assert_eq!(*seen.borrow(), (4, 350));
}

/// A service that fails while its switch is on.
fn failing() -> (Service, Rc<RefCell<bool>>) {
    let broken = Rc::new(RefCell::new(false));
    let switch = Rc::clone(&broken);
    let service = service(move |_| {
        if *switch.borrow() {
            ("500 Internal Server Error", b"intentional error".to_vec())
        } else {
            ("200 OK", b"ok".to_vec())
        }
    });
    (service, broken)
}

#[test]
fn test_header_limit_at_boundary() {
    assert_eq!(Wire::connect(&failing().0).get("/").unwrap().status, 200);
}

#[test]
fn test_large_header_value() {
    assert_eq!(Wire::connect(&failing().0).get("/").unwrap().status, 200);
}

#[test]
fn test_service_error_500() {
    let (service, broken) = failing();
    *broken.borrow_mut() = true;
    let mut wire = Wire::connect(&service);
    let mut response = wire.get("/").unwrap();
    wire.read_all(&mut response);
    assert_eq!(response.status, 500);
    *broken.borrow_mut() = false;
    let mut wire = Wire::connect(&service);
    let mut response = wire.get("/").unwrap();
    assert!(wire.read_text(&mut response).contains("ok"));
}

#[test]
fn test_service_error_repeated() {
    let (service, broken) = failing();
    *broken.borrow_mut() = true;
    for _ in 0..5 {
        assert_eq!(Wire::connect(&service).get("/").unwrap().status, 500);
    }
}

#[test]
fn test_service_error_then_recovery() {
    let (service, broken) = failing();
    *broken.borrow_mut() = true;
    assert_eq!(Wire::connect(&service).get("/").unwrap().status, 500);
    *broken.borrow_mut() = false;
    let mut wire = Wire::connect(&service);
    let mut response = wire.get("/").unwrap();
    assert!(wire.read_text(&mut response).contains("ok"));
    assert_eq!(response.status, 200);
}

/// What a client makes of a fixed answer, after which the peer hangs up.
fn fixed(reply: &[u8]) -> (Wire, Result<Response, Error>) {
    let mut wire = Wire::connect(&echo());
    wire.client.get(Uri::parse("/").unwrap()).unwrap();
    wire.client.conn.buffer.take_writes();
    if !reply.is_empty() {
        wire.arriving.push_back(reply.to_vec());
    }
    let result = wire.answer();
    (wire, result)
}

fn fixed_body(reply: &str) -> (Response, Result<Vec<u8>, Error>) {
    let (mut wire, result) = fixed(reply.as_bytes());
    let mut response = result.unwrap();
    let body = wire.read_in(&mut response, 4096);
    (response, body)
}

#[test]
fn test_malformed_response() {
    let (_, result) = fixed(b"GARBAGE NOT HTTP");
    assert!(result.is_err());
}

#[test]
fn test_http10_200_with_body() {
    let (response, body) = fixed_body("HTTP/1.0 200 OK\r\nContent-Length: 11\r\n\r\nhello world");
    assert_eq!((response.version, response.status), (Version::Http10, 200));
    assert_eq!(body.unwrap(), b"hello world");
}

#[test]
fn test_http10_404() {
    let (response, body) =
        fixed_body("HTTP/1.0 404 Not Found\r\nContent-Length: 9\r\n\r\nnot found");
    assert_eq!((response.version, response.status), (Version::Http10, 404));
    assert_eq!(body.unwrap(), b"not found");
}

#[test]
fn test_http10_500() {
    let (response, body) =
        fixed_body("HTTP/1.0 500 Internal Server Error\r\nContent-Length: 5\r\n\r\nerror");
    assert_eq!((response.version, response.status), (Version::Http10, 500));
    assert_eq!(body.unwrap(), b"error");
}

#[test]
fn test_http10_version_detection() {
    let (response, body) = fixed_body("HTTP/1.0 200 OK\r\nContent-Length: 2\r\n\r\nok");
    assert_eq!((response.version, response.status), (Version::Http10, 200));
    assert_eq!(body.unwrap(), b"ok");
}

#[test]
fn test_http10_no_content_length() {
    let (response, body) = fixed_body("HTTP/1.0 200 OK\r\n\r\nhello");
    assert_eq!((response.version, response.status), (Version::Http10, 200));
    assert_eq!(body.unwrap(), b"hello");
}

#[test]
fn test_http10_with_headers() {
    let (response, body) = fixed_body(
        "HTTP/1.0 200 OK\r\nContent-Length: 5\r\nX-Custom-Header: test-value\r\nX-Other: 123\r\n\r\nhello",
    );
    assert_eq!((response.version, response.status), (Version::Http10, 200));
    assert_eq!(field(&response, "X-Custom-Header"), "test-value");
    assert_eq!(field(&response, "X-Other"), "123");
    assert_eq!(body.unwrap(), b"hello");
}

#[test]
fn test_truncated_body() {
    let (response, body) = fixed_body("HTTP/1.1 200 OK\r\nContent-Length: 10\r\n\r\nabc");
    assert_eq!(response.status, 200);
    assert_eq!(body.unwrap_err().kind(), ErrorKind::UnexpectedEof);
}

#[test]
fn test_non_numeric_cl() {
    let (_, result) = fixed(b"HTTP/1.1 200 OK\r\nContent-Length: notanumber\r\n\r\nhello");
    assert_eq!(result.unwrap_err().kind(), ErrorKind::InvalidData);
}

#[test]
fn test_missing_headers() {
    let (response, body) = fixed_body("HTTP/1.1 200 OK\r\n\r\ntest body");
    assert_eq!(response.status, 200);
    assert_eq!(body.unwrap(), b"test body");
}

#[test]
fn test_cl_zero() {
    let (response, body) = fixed_body("HTTP/1.1 204 No Content\r\nContent-Length: 0\r\n\r\n");
    assert_eq!(response.status, 204);
    assert!(body.unwrap().is_empty());
}

#[test]
fn test_garbage_after_body() {
    let (response, body) =
        fixed_body("HTTP/1.1 200 OK\r\nContent-Length: 5\r\n\r\nhelloGARBAGE");
    assert_eq!(response.status, 200);
    assert_eq!(body.unwrap(), b"hello");
}

#[test]
fn test_huge_cl() {
    let (response, body) =
        fixed_body("HTTP/1.1 200 OK\r\nContent-Length: 1000000000\r\n\r\nshort");
    assert_eq!(response.status, 200);
    assert_eq!(body.unwrap_err().kind(), ErrorKind::UnexpectedEof);
}

#[test]
fn test_duplicate_headers() {
    let (response, body) = fixed_body(
        "HTTP/1.1 200 OK\r\nContent-Length: 5\r\nX-Custom: first\r\nX-Custom: second\r\n\r\nhello",
    );
    assert_eq!(response.status, 200);
    let values = response.headers.get_all(&name("X-Custom"));
    assert_eq!(values, [b"first".to_vec(), b"second".to_vec()]);
    assert_eq!(body.unwrap(), b"hello");
}

#[test]
fn test_invalid_status() {
    let (_, result) = fixed(b"HTTP/1.1 ABC Bad Status\r\nContent-Length: 5\r\n\r\nhello");
    assert!(result.is_err());
}

#[test]
fn test_multiple_garbage() {
    for reply in ["", "HTTP/1.1 20", "\r\n", "GET \x00\x01\x02\r\n\r\n"] {
        assert!(fixed(reply.as_bytes()).1.is_err());
    }
}

#[test]
fn test_missing_crlf() {
    let (_, result) = fixed(b"HTTP/1.1 200 OK\r\nContent-Length: 5\r\n\rhello");
    assert!(result.is_err());
}

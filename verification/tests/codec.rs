use http_framing::dispatch::{error_response, process_compression_headers, respond};
use http_framing::{HeaderMap, HttpError, HttpErrorKind, HttpFrame, HttpServer, Method, Version};
use std::io::Read;

type Handler = fn(Vec<HttpFrame>) -> Result<Vec<HttpFrame>, HttpError>;

fn parse(bytes: &[u8]) -> Result<Vec<HttpFrame>, HttpError> {
    let mut stream = bytes.to_vec().into_iter();
    let read = HttpFrame::from_stream(&mut stream);
    let again = HttpFrame::from_bytes(bytes.to_vec());
    assert_eq!(format!("{:?}", read), format!("{:?}", again));
    read
}

fn strings(values: &[&str]) -> Vec<String> {
    values.iter().map(|v| v.to_string()).collect()
}

fn headers_of(frame: &HttpFrame) -> &HeaderMap {
    match frame {
        HttpFrame::RequestHead { headers, .. } => headers,
        HttpFrame::ResponseHead { headers, .. } => headers,
        HttpFrame::BodyChunk { .. } => panic!("a body has no headers"),
    }
}

fn ok_response(content_type: &str) -> HttpFrame {
    let mut headers = HeaderMap::new();
    headers.insert("Content-Type".to_string(), strings(&[content_type]));
    HttpFrame::ResponseHead { status: (200, "OK".to_string()), version: Version::Http1_1, headers }
}

fn handle_echo(request: Vec<HttpFrame>) -> Result<Vec<HttpFrame>, HttpError> {
    let uri = request[0].get_uri();
    let rest = uri["/echo/".len()..].as_bytes().to_vec();
    Ok(vec![ok_response("text/plain"), HttpFrame::BodyChunk { chunk: rest }])
}

fn handle_root(_request: Vec<HttpFrame>) -> Result<Vec<HttpFrame>, HttpError> {
    Ok(vec![HttpFrame::ResponseHead {
        status: (200, "ROOT".to_string()),
        version: Version::Http1_1,
        headers: HeaderMap::new(),
    }])
}

fn handle_files(_request: Vec<HttpFrame>) -> Result<Vec<HttpFrame>, HttpError> {
    Ok(vec![HttpFrame::ResponseHead {
        status: (200, "FILES".to_string()),
        version: Version::Http1_1,
        headers: HeaderMap::new(),
    }])
}

fn handle_failing(_request: Vec<HttpFrame>) -> Result<Vec<HttpFrame>, HttpError> {
    Err(HttpError::new(HttpErrorKind::IOError, "disk", None))
}

fn handle_nothing(_request: Vec<HttpFrame>) -> Result<Vec<HttpFrame>, HttpError> {
    Ok(Vec::new())
}

#[test]
fn parses_a_request_head() {
    let frames = parse(b"GET /echo/abc HTTP/1.1\r\nHost: x\r\n\r\n").unwrap();
    assert_eq!(frames.len(), 1);
    assert_eq!(frames[0].get_method(), Method::GET);
    assert_eq!(frames[0].get_uri(), "/echo/abc");
    match &frames[0] {
        HttpFrame::RequestHead { version, headers, .. } => {
            assert_eq!(*version, Version::Http1_1);
            assert_eq!(headers.len(), 1);
            assert_eq!(headers.get("Host"), Some(&strings(&["x"])));
        },
        _ => panic!("expected a request head"),
    }
}

#[test]
fn parses_every_method() {
    let names = ["GET", "POST", "PUT", "DELETE", "HEAD", "OPTIONS", "CONNECT", "TRACE"];
    let methods = [
        Method::GET,
        Method::POST,
        Method::PUT,
        Method::DELETE,
        Method::HEAD,
        Method::OPTIONS,
        Method::CONNECT,
        Method::TRACE,
    ];
    for (name, method) in names.iter().zip(methods.iter()) {
        let text = format!("{} / HTTP/1.0\r\n\r\n", name);
        let frames = parse(text.as_bytes()).unwrap();
        assert_eq!(frames[0].get_method(), *method);
        assert_eq!(Method::from_string(name).unwrap(), *method);
        assert_eq!(Method::to_string(method), *name);
    }
}

#[test]
fn unknown_method_is_a_bad_request() {
    let e = Method::from_string("get").unwrap_err();
    assert_eq!(e.kind(), HttpErrorKind::RequestError);
    assert_eq!(e.message(), "Bad Request");
    assert_eq!(e.code(), 400);
}

#[test]
fn versions_have_their_tokens() {
    let names = ["HTTP/1.0", "HTTP/1.1", "HTTP/2.0", "HTTP/3.0"];
    let versions = [Version::Http1_0, Version::Http1_1, Version::Http2_0, Version::Http3_0];
    for (name, version) in names.iter().zip(versions.iter()) {
        assert_eq!(Version::from_str(name).unwrap(), *version);
        assert_eq!(Version::to_str(*version), *name);
    }
    let e = Version::from_str("HTTP/1.2").unwrap_err();
    assert_eq!(e.kind(), HttpErrorKind::ParseError);
    assert_eq!(e.message(), "Error parsing version");
    assert_eq!(e.code(), 0);
}

#[test]
fn error_keeps_what_it_was_given() {
    let e = HttpError::new(HttpErrorKind::IOError, "I/O Error", None);
    assert_eq!(e.kind(), HttpErrorKind::IOError);
    assert_eq!(e.code(), 0);
    assert_eq!(e.to_string(), "HttpError: I/O Error");
    let e = HttpError::new(HttpErrorKind::ResponseError, "x", Some(502));
    assert_eq!(e.code(), 502);
}

#[test]
fn body_has_the_declared_length() {
    for length in [1usize, 2, 3, 10, 1024, 5000] {
        let body: Vec<u8> = (0..length).map(|i| (i % 251) as u8).collect();
        let mut bytes = format!("POST /files/a HTTP/1.1\r\nContent-Length: {}\r\n\r\n", length)
            .into_bytes();
        bytes.extend(&body);
        let frames = parse(&bytes).unwrap();
        assert_eq!(frames.len(), 2);
        match &frames[1] {
            HttpFrame::BodyChunk { chunk } => assert_eq!(chunk, &body),
            _ => panic!("expected a body"),
        }
    }
}

#[test]
fn zero_length_gives_no_body() {
    let frames = parse(b"POST /x HTTP/1.1\r\nContent-Length: 0\r\n\r\n").unwrap();
    assert_eq!(frames.len(), 1);
    let frames = parse(b"POST /x HTTP/1.1\r\nContent-Length: many\r\n\r\nabc").unwrap();
    assert_eq!(frames.len(), 1);
}

#[test]
fn body_reader_reads_exactly_the_length() {
    let mut stream = b"abcdef".to_vec().into_iter();
    let body = HttpFrame::body_frame_from_stream(4, &mut stream).unwrap();
    match body {
        HttpFrame::BodyChunk { chunk } => assert_eq!(chunk, b"abcd".to_vec()),
        _ => panic!("expected a body"),
    }
    assert_eq!(stream.collect::<Vec<u8>>(), b"ef".to_vec());
    let mut stream = Vec::new().into_iter();
    let body = HttpFrame::body_frame_from_stream(0, &mut stream).unwrap();
    match body {
        HttpFrame::BodyChunk { chunk } => assert!(chunk.is_empty()),
        _ => panic!("expected a body"),
    }
}

#[test]
fn parsing_leaves_what_follows_the_message() {
    let mut stream = b"GET / HTTP/1.1\r\nContent-Length: 2\r\n\r\nabNEXT".to_vec().into_iter();
    let frames = HttpFrame::from_stream(&mut stream).unwrap();
    assert_eq!(frames.len(), 2);
    assert_eq!(stream.collect::<Vec<u8>>(), b"NEXT".to_vec());
}

#[test]
fn truncated_body_is_a_bad_request() {
    let e = parse(b"POST /x HTTP/1.1\r\nContent-Length: 5\r\n\r\nabc").unwrap_err();
    assert_eq!(e.kind(), HttpErrorKind::RequestError);
    assert_eq!(e.message(), "Bad Request");
    assert_eq!(e.code(), 400);
}

#[test]
fn missing_terminator_never_yields_a_frame() {
    for text in [
        &b"GET / HTTP/1.1\r\nHost: x\r\n"[..],
        &b"GET / HTTP/1.1\r\nHost: x"[..],
        &b"GET / HTTP/1.1"[..],
        &b"GET / HTTP/1.1\nHost: x\n\n"[..],
        &b""[..],
    ] {
        let e = parse(text).unwrap_err();
        assert_eq!(e.kind(), HttpErrorKind::ParseError);
        assert_eq!(e.message(), "Error parsing message");
        assert_eq!(e.code(), 0);
    }
}

#[test]
fn line_ends_only_at_cr_lf() {
    let mut stream = b"a\rb\nc\r\nrest".to_vec().into_iter();
    let line = HttpFrame::line_from_stream(&mut stream).unwrap();
    assert_eq!(line, b"a\rb\nc\r\n".to_vec());
    assert_eq!(stream.collect::<Vec<u8>>(), b"rest".to_vec());
}

#[test]
fn malformed_start_lines() {
    let e = parse(b"\r\n\r\n").unwrap_err();
    assert_eq!((e.kind(), e.message(), e.code()), (HttpErrorKind::ParseError, "Bad Request", 0));
    let e = parse(b"FETCH / HTTP/1.1\r\n\r\n").unwrap_err();
    assert_eq!((e.kind(), e.message(), e.code()), (HttpErrorKind::ParseError, "Bad Request", 0));
    let e = parse(b"GET\r\n\r\n").unwrap_err();
    assert_eq!((e.kind(), e.message(), e.code()), (HttpErrorKind::RequestError, "Bad Request", 400));
    let e = parse(b"GET /\r\n\r\n").unwrap_err();
    assert_eq!((e.kind(), e.message(), e.code()), (HttpErrorKind::RequestError, "Bad Request", 400));
    let e = parse(b"GET / HTTP/9.9\r\n\r\n").unwrap_err();
    assert_eq!(
        (e.kind(), e.message(), e.code()),
        (HttpErrorKind::ParseError, "Error parsing version", 0)
    );
    let e = parse(b"GET /\xff HTTP/1.1\r\n\r\n").unwrap_err();
    assert_eq!(
        (e.kind(), e.message(), e.code()),
        (HttpErrorKind::ParseError, "Malformed message", 0)
    );
}

#[test]
fn parses_a_status_line() {
    let frames = parse(b"HTTP/1.1 404 Not Found\r\nServer: s\r\n\r\n").unwrap();
    match &frames[0] {
        HttpFrame::ResponseHead { status, version, headers } => {
            assert_eq!(status.0, 404);
            assert_eq!(status.1, "NotFound");
            assert_eq!(*version, Version::Http1_1);
            assert_eq!(headers.get("Server"), Some(&strings(&["s"])));
        },
        _ => panic!("expected a response head"),
    }
    let frames = parse(b"HTTP/1.0 200\r\n\r\n").unwrap();
    match &frames[0] {
        HttpFrame::ResponseHead { status, .. } => {
            assert_eq!(status.0, 200);
            assert_eq!(status.1, "");
        },
        _ => panic!("expected a response head"),
    }
}

#[test]
fn malformed_status_lines() {
    for text in [
        &b"HTTP/1.1\r\n\r\n"[..],
        &b"HTTP/1.1 abc OK\r\n\r\n"[..],
        &b"HTTP/1.1 65536 OK\r\n\r\n"[..],
        &b"HTTP/1.1 -1 OK\r\n\r\n"[..],
    ] {
        let e = parse(text).unwrap_err();
        assert_eq!(
            (e.kind(), e.message(), e.code()),
            (HttpErrorKind::ResponseError, "Parse Error", 0)
        );
    }
}

#[test]
fn header_values_are_split_and_trimmed() {
    let frames =
        parse(b"GET / HTTP/1.1\r\n  Accept-Encoding :  identity ,gzip,, br  \r\nEmpty:\r\n\r\n")
            .unwrap();
    let headers = headers_of(&frames[0]);
    assert_eq!(headers.len(), 2);
    assert_eq!(headers.get("Accept-Encoding"), Some(&strings(&["identity", "gzip", "", "br"])));
    assert_eq!(headers.get("Empty"), Some(&strings(&[""])));
    assert_eq!(headers.get("accept-encoding"), None);
    assert!(headers.contains_key("Empty"));
    assert!(!headers.contains_key("Missing"));
}

#[test]
fn header_is_split_at_the_first_colon() {
    let frames = parse(b"GET / HTTP/1.1\r\nHost: localhost:4221\r\n\r\n").unwrap();
    assert_eq!(headers_of(&frames[0]).get("Host"), Some(&strings(&["localhost:4221"])));
}

#[test]
fn repeated_header_keeps_the_last_values() {
    let frames = parse(b"GET / HTTP/1.1\r\nA: 1\r\nB: 2\r\nA: 3, 4\r\n\r\n").unwrap();
    let headers = headers_of(&frames[0]);
    assert_eq!(headers.len(), 2);
    assert_eq!(headers.get("A"), Some(&strings(&["3", "4"])));
    assert_eq!(headers.name_at(0), "A");
    assert_eq!(headers.name_at(1), "B");
}

#[test]
fn header_without_colon_is_malformed() {
    let e = parse(b"GET / HTTP/1.1\r\nHost x\r\n\r\n").unwrap_err();
    assert_eq!(
        (e.kind(), e.message(), e.code()),
        (HttpErrorKind::ParseError, "Malformed message", 0)
    );
    let e = parse(b"GET / HTTP/1.1\r\nHost: \xc3\x28\r\n\r\n").unwrap_err();
    assert_eq!(
        (e.kind(), e.message(), e.code()),
        (HttpErrorKind::ParseError, "Malformed message", 0)
    );
}

#[test]
fn header_map_replaces_and_keeps_order() {
    let mut headers = HeaderMap::new();
    assert_eq!(headers.len(), 0);
    headers.insert("A".to_string(), strings(&["1"]));
    headers.insert("B".to_string(), strings(&["2"]));
    headers.insert("A".to_string(), strings(&["3"]));
    assert_eq!(headers.len(), 2);
    assert_eq!(headers.find("A"), Some(0));
    assert_eq!(headers.find("B"), Some(1));
    assert_eq!(headers.find("C"), None);
    assert_eq!(headers.values_at(0), &strings(&["3"]));
    let copy = headers.clone();
    assert_eq!(copy.get("A"), Some(&strings(&["3"])));
    assert_eq!(copy.get("B"), Some(&strings(&["2"])));
}

#[test]
fn writes_a_request_head() {
    let mut headers = HeaderMap::new();
    headers.insert("Host".to_string(), strings(&["x"]));
    headers.insert("Accept".to_string(), strings(&["a", "b"]));
    let head = HttpFrame::RequestHead {
        method: Method::GET,
        uri: "/echo/abc".to_string(),
        version: Version::Http1_1,
        headers,
    };
    let bytes = HttpFrame::to_stream(vec![head]).unwrap();
    assert_eq!(bytes, b"GET /echo/abc HTTP/1.1\r\nHost: x\r\nAccept: a, b\r\n\r\n".to_vec());
}

#[test]
fn writes_a_response_with_its_length() {
    let bytes = HttpFrame::to_stream(vec![
        ok_response("text/plain"),
        HttpFrame::BodyChunk { chunk: b"abc".to_vec() },
    ])
    .unwrap();
    assert_eq!(
        bytes,
        b"HTTP/1.1 200 OK\r\nContent-Type: text/plain\r\nContent-Length: 3\r\n\r\nabc".to_vec()
    );
}

#[test]
fn declared_length_is_overwritten() {
    let mut headers = HeaderMap::new();
    headers.insert("Content-Length".to_string(), strings(&["999"]));
    headers.insert("X".to_string(), strings(&["y"]));
    let head = HttpFrame::ResponseHead {
        status: (201, "Created".to_string()),
        version: Version::Http1_0,
        headers,
    };
    let body = HttpFrame::BodyChunk { chunk: vec![7u8; 12] };
    let bytes = HttpFrame::to_stream(vec![head, body]).unwrap();
    let mut expected = b"HTTP/1.0 201 Created\r\nContent-Length: 12\r\nX: y\r\n\r\n".to_vec();
    expected.extend(vec![7u8; 12]);
    assert_eq!(bytes, expected);
}

#[test]
fn one_frame_alone_is_written_as_it_is() {
    let bytes = HttpFrame::to_stream(vec![HttpFrame::BodyChunk { chunk: b"raw".to_vec() }]).unwrap();
    assert_eq!(bytes, b"raw".to_vec());
    let bytes = HttpFrame::frame_to_stream(HttpFrame::BodyChunk { chunk: b"raw".to_vec() }).unwrap();
    assert_eq!(bytes, b"raw".to_vec());
    let bytes = HttpFrame::frame_to_stream(ok_response("a/b")).unwrap();
    assert_eq!(bytes, b"HTTP/1.1 200 OK\r\nContent-Type: a/b\r\n\r\n".to_vec());
}

#[test]
fn frames_that_are_no_message_are_refused() {
    let body = || HttpFrame::BodyChunk { chunk: b"x".to_vec() };
    for frames in [
        Vec::new(),
        vec![body(), body()],
        vec![ok_response("a"), ok_response("b")],
        vec![ok_response("a"), body(), body()],
    ] {
        let e = HttpFrame::to_stream(frames).unwrap_err();
        assert_eq!(
            (e.kind(), e.message(), e.code()),
            (HttpErrorKind::ResponseError, "Not a message", 0)
        );
    }
}

#[test]
fn request_head_survives_a_round_trip() {
    let mut headers = HeaderMap::new();
    headers.insert("Host".to_string(), strings(&["example.org"]));
    headers.insert("Accept-Encoding".to_string(), strings(&["identity", "gzip"]));
    headers.insert("X-Empty".to_string(), strings(&[""]));
    headers.insert("User-Agent".to_string(), strings(&["curl/8.0 (x y)"]));
    let head = HttpFrame::RequestHead {
        method: Method::DELETE,
        uri: "/files/\u{e9}t\u{e9}?q=1".to_string(),
        version: Version::Http1_0,
        headers,
    };
    let first = HttpFrame::to_stream(vec![head]).unwrap();
    let parsed = parse(&first).unwrap();
    assert_eq!(parsed.len(), 1);
    assert_eq!(parsed[0].get_uri(), "/files/\u{e9}t\u{e9}?q=1");
    let second = HttpFrame::to_stream(parsed).unwrap();
    assert_eq!(first, second);
}

#[test]
fn message_with_body_survives_a_round_trip() {
    let mut headers = HeaderMap::new();
    headers.insert("Host".to_string(), strings(&["h"]));
    let head = HttpFrame::RequestHead {
        method: Method::POST,
        uri: "/files/a".to_string(),
        version: Version::Http1_1,
        headers,
    };
    let body = HttpFrame::BodyChunk { chunk: b"hello\r\n\r\nworld".to_vec() };
    let first = HttpFrame::to_stream(vec![head, body]).unwrap();
    let parsed = parse(&first).unwrap();
    assert_eq!(parsed.len(), 2);
    let second = HttpFrame::to_stream(parsed).unwrap();
    assert_eq!(first, second);
}

fn split_head(bytes: &[u8]) -> (String, Vec<u8>) {
    let end = bytes.windows(4).position(|w| w == b"\r\n\r\n").unwrap() + 4;
    (String::from_utf8(bytes[..end].to_vec()).unwrap(), bytes[end..].to_vec())
}

#[test]
fn gzip_body_inflates_back() {
    let mut headers = HeaderMap::new();
    headers.insert("Content-Encoding".to_string(), strings(&["gzip"]));
    let head = HttpFrame::ResponseHead {
        status: (200, "OK".to_string()),
        version: Version::Http1_1,
        headers,
    };
    let plain = b"hello hello hello hello hello hello hello".to_vec();
    let bytes =
        HttpFrame::to_stream(vec![head, HttpFrame::BodyChunk { chunk: plain.clone() }]).unwrap();
    let (head_text, body) = split_head(&bytes);
    assert_eq!(
        head_text,
        format!(
            "HTTP/1.1 200 OK\r\nContent-Encoding: gzip\r\nContent-Length: {}\r\n\r\n",
            body.len()
        )
    );
    assert_ne!(body, plain);
    assert_eq!(&body[..4], &[0x1f, 0x8b, 8, 0]);
    let mut inflated = Vec::new();
    flate2::read::GzDecoder::new(&body[..]).read_to_end(&mut inflated).unwrap();
    assert_eq!(inflated, plain);
}

#[test]
fn deflate_body_inflates_back() {
    let mut headers = HeaderMap::new();
    headers.insert("Content-Encoding".to_string(), strings(&["deflate", "gzip"]));
    let plain = vec![42u8; 300];
    let data = HttpFrame::encode_body(&headers, plain.clone());
    assert_ne!(data, plain);
    assert!(data.len() < plain.len());
    let mut inflated = Vec::new();
    flate2::read::DeflateDecoder::new(&data[..]).read_to_end(&mut inflated).unwrap();
    assert_eq!(inflated, plain);
}

#[test]
fn other_encodings_leave_the_body() {
    let mut headers = HeaderMap::new();
    assert_eq!(HttpFrame::encode_body(&headers, b"abc".to_vec()), b"abc".to_vec());
    headers.insert("Content-Encoding".to_string(), strings(&["identity", "gzip"]));
    assert_eq!(HttpFrame::encode_body(&headers, b"abc".to_vec()), b"abc".to_vec());
    headers.insert("Content-Encoding".to_string(), strings(&["GZIP"]));
    assert_eq!(HttpFrame::encode_body(&headers, b"abc".to_vec()), b"abc".to_vec());
}

#[test]
fn compression_is_the_same_each_time() {
    let mut headers = HeaderMap::new();
    headers.insert("Content-Encoding".to_string(), strings(&["gzip"]));
    let a = HttpFrame::encode_body(&headers, b"some body".to_vec());
    let b = HttpFrame::encode_body(&headers, b"some body".to_vec());
    assert_eq!(a, b);
}

#[test]
fn frame_message_declares_the_length_of_what_it_is_given() {
    let bytes = HttpFrame::frame_message(ok_response("t"), b"0123456789");
    assert_eq!(
        bytes,
        b"HTTP/1.1 200 OK\r\nContent-Type: t\r\nContent-Length: 10\r\n\r\n0123456789".to_vec()
    );
}

fn request(text: &str) -> Vec<HttpFrame> {
    parse(text.as_bytes()).unwrap()
}

#[test]
fn echo_scenario() {
    let mut server: HttpServer<Handler> = HttpServer::new("127.0.0.1", 4221);
    server.add_route(Method::GET, "/echo/".to_string(), handle_echo);
    let out = server.handle_transaction(request("GET /echo/abc HTTP/1.1\r\nHost: x\r\n\r\n"));
    assert_eq!(
        out,
        b"HTTP/1.1 200 OK\r\nContent-Type: text/plain\r\nContent-Length: 3\r\n\r\nabc".to_vec()
    );
}

#[test]
fn longest_prefix_wins_whatever_the_order() {
    let mut server: HttpServer<Handler> = HttpServer::new("127.0.0.1", 4221);
    server.add_route(Method::GET, "/".to_string(), handle_root);
    server.add_route(Method::GET, "/files/".to_string(), handle_files);
    let out = server.handle_transaction(request("GET /files/readme.txt HTTP/1.1\r\n\r\n"));
    assert_eq!(out, b"HTTP/1.1 200 FILES\r\n\r\n".to_vec());
    let out = server.handle_transaction(request("GET /other HTTP/1.1\r\n\r\n"));
    assert_eq!(out, b"HTTP/1.1 200 ROOT\r\n\r\n".to_vec());

    let mut server: HttpServer<Handler> = HttpServer::new("127.0.0.1", 4221);
    server.add_route(Method::GET, "/files/".to_string(), handle_files);
    server.add_route(Method::GET, "/".to_string(), handle_root);
    let out = server.handle_transaction(request("GET /files/readme.txt HTTP/1.1\r\n\r\n"));
    assert_eq!(out, b"HTTP/1.1 200 FILES\r\n\r\n".to_vec());
}

#[test]
fn routes_are_kept_longest_first() {
    let mut server: HttpServer<Handler> = HttpServer::new("0.0.0.0", 80);
    assert_eq!(server.address(), "0.0.0.0");
    assert_eq!(server.port(), 80);
    server.add_route(Method::GET, "/a".to_string(), handle_root);
    server.add_route(Method::GET, "/abc".to_string(), handle_files);
    server.add_route(Method::GET, "/b".to_string(), handle_echo);
    server.add_route(Method::POST, "/abcd".to_string(), handle_failing);
    assert_eq!(server.route_count(), 4);
    assert_eq!(server.find_route(Method::POST, "/abcd"), Some(0));
    assert_eq!(server.find_route(Method::GET, "/abcd"), Some(1));
    assert_eq!(server.find_route(Method::GET, "/a"), Some(2));
    assert_eq!(server.find_route(Method::GET, "/b"), Some(3));
    assert_eq!(server.find_route(Method::GET, "/"), None);
    assert_eq!(server.find_route(Method::PUT, "/a"), None);
    assert!(*server.handler(1) == handle_files as Handler);
}

#[test]
fn equal_prefixes_keep_the_order_of_insertion() {
    let mut server: HttpServer<Handler> = HttpServer::new("127.0.0.1", 1);
    server.add_route(Method::GET, "/x".to_string(), handle_root);
    server.add_route(Method::GET, "/x".to_string(), handle_files);
    let out = server.handle_transaction(request("GET /x HTTP/1.1\r\n\r\n"));
    assert_eq!(out, b"HTTP/1.1 200 ROOT\r\n\r\n".to_vec());
}

#[test]
fn unserved_requests_get_status_400() {
    let mut server: HttpServer<Handler> = HttpServer::new("127.0.0.1", 4221);
    server.add_route(Method::GET, "/echo/".to_string(), handle_echo);
    let expected = b"HTTP/1.1 400 Bad Request\r\n\r\n".to_vec();
    assert_eq!(server.handle_transaction(request("GET /other HTTP/1.1\r\n\r\n")), expected);
    assert_eq!(server.handle_transaction(request("POST /echo/x HTTP/1.1\r\n\r\n")), expected);
    assert_eq!(server.handle_transaction(request("HTTP/1.1 200 OK\r\n\r\n")), expected);
    assert_eq!(server.handle_transaction(Vec::new()), expected);
}

#[test]
fn failing_handlers_get_status_500() {
    let mut server: HttpServer<Handler> = HttpServer::new("127.0.0.1", 4221);
    server.add_route(Method::GET, "/fail".to_string(), handle_failing);
    server.add_route(Method::GET, "/nothing".to_string(), handle_nothing);
    let expected = b"HTTP/1.1 500 Internal Server Error\r\n\r\n".to_vec();
    assert_eq!(server.handle_transaction(request("GET /fail HTTP/1.1\r\n\r\n")), expected);
    assert_eq!(server.handle_transaction(request("GET /nothing HTTP/1.1\r\n\r\n")), expected);
}

#[test]
fn negotiated_compression_is_declared_and_applied() {
    let mut server: HttpServer<Handler> = HttpServer::new("127.0.0.1", 4221);
    server.add_route(Method::GET, "/echo/".to_string(), handle_echo);
    let out = server.handle_transaction(request(
        "GET /echo/aaaaaaaaaaaaaaaaaaaaaaaaaaaa HTTP/1.1\r\nAccept-Encoding: identity, gzip\r\n\r\n",
    ));
    let (head_text, body) = split_head(&out);
    assert_eq!(
        head_text,
        format!(
            "HTTP/1.1 200 OK\r\nContent-Type: text/plain\r\nContent-Encoding: gzip\r\nContent-Length: {}\r\n\r\n",
            body.len()
        )
    );
    let mut inflated = Vec::new();
    flate2::read::GzDecoder::new(&body[..]).read_to_end(&mut inflated).unwrap();
    assert_eq!(inflated, b"aaaaaaaaaaaaaaaaaaaaaaaaaaaa".to_vec());
}

#[test]
fn first_offered_compression_is_chosen() {
    let frames = request("GET / HTTP/1.1\r\nAccept-Encoding: br, deflate, gzip\r\n\r\n");
    assert_eq!(process_compression_headers(&frames[0]).unwrap(), "deflate");
    let frames = request("GET / HTTP/1.1\r\nAccept-Encoding: br, identity\r\n\r\n");
    let e = process_compression_headers(&frames[0]).unwrap_err();
    assert_eq!(
        (e.kind(), e.message(), e.code()),
        (HttpErrorKind::RequestError, "No matching compression algorithm", 0)
    );
    let frames = request("GET / HTTP/1.1\r\n\r\n");
    assert!(process_compression_headers(&frames[0]).is_err());
    assert!(process_compression_headers(&ok_response("x")).is_err());
}

#[test]
fn response_without_body_is_not_stamped() {
    let out = respond(Some("gzip".to_string()), Ok(vec![ok_response("t")]));
    assert_eq!(out, b"HTTP/1.1 200 OK\r\nContent-Type: t\r\n\r\n".to_vec());
    let out = respond(
        None,
        Ok(vec![ok_response("t"), HttpFrame::BodyChunk { chunk: b"abc".to_vec() }]),
    );
    assert_eq!(out, b"HTTP/1.1 200 OK\r\nContent-Type: t\r\nContent-Length: 3\r\n\r\nabc".to_vec());
}

#[test]
fn unread_requests_are_answered_by_class() {
    let e = HttpError::new(HttpErrorKind::RequestError, "Bad Request", Some(400));
    assert_eq!(error_response(&e), Some(b"HTTP/1.1 400 Bad Request\r\n\r\n".to_vec()));
    let e = HttpError::new(HttpErrorKind::ParseError, "Error parsing message", None);
    assert_eq!(error_response(&e), None);
    let e = HttpError::new(HttpErrorKind::IOError, "I/O Error", None);
    assert_eq!(error_response(&e), None);
}

#[test]
fn connection_is_served_from_its_bytes() {
    let mut server: HttpServer<Handler> = HttpServer::new("127.0.0.1", 4221);
    server.add_route(Method::GET, "/echo/".to_string(), handle_echo);
    let mut stream = b"GET /echo/abc HTTP/1.1\r\nHost: x\r\n\r\nleft".to_vec().into_iter();
    let out = server.handle_client(&mut stream);
    assert_eq!(
        out,
        Some(b"HTTP/1.1 200 OK\r\nContent-Type: text/plain\r\nContent-Length: 3\r\n\r\nabc".to_vec())
    );
    assert_eq!(stream.collect::<Vec<u8>>(), b"left".to_vec());

    let mut stream = b"GET /echo/abc\r\n\r\n".to_vec().into_iter();
    assert_eq!(server.handle_client(&mut stream), Some(b"HTTP/1.1 400 Bad Request\r\n\r\n".to_vec()));

    let mut stream = b"GET /echo/abc HTTP/1.1\r\nHost: x\r\n".to_vec().into_iter();
    assert_eq!(server.handle_client(&mut stream), None);

    let mut stream = b"GET /nowhere HTTP/1.1\r\n\r\n".to_vec().into_iter();
    assert_eq!(server.handle_client(&mut stream), Some(b"HTTP/1.1 400 Bad Request\r\n\r\n".to_vec()));
}

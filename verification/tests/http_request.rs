use bytes::Bytes;
use webserver_from_scratch::http_request::{Headers, Method, Request, RequestError};

fn parsed(input: &'static [u8]) -> (Request, Result<(), RequestError>) {
    let mut request = Request::new();
    let result = request.parse(Bytes::from_static(input));
    (request, result)
}

#[test]
fn parse_basic_requests() {
    let mut request = Request::new();

    request
        .parse(Bytes::from_static(b"GET /test HTTP/1.1\r\n\r\n"))
        .expect("parsing request");

    assert_eq!(request.version, Some(1));
    assert_eq!(request.method, Some(Method::GET));
    assert_eq!(request.path, Some(String::from("/test")));
}

#[test]
fn accept_only_newline() {
    let mut request = Request::new();

    request
        .parse(Bytes::from_static(b"GET /test HTTP/1.1\n"))
        .expect("parsing request");

    assert_eq!(request.version, Some(1));
    assert_eq!(request.method, Some(Method::GET));
    assert_eq!(request.path, Some(String::from("/test")));
}

#[test]
fn do_not_accept_only_cr() {
    let mut request = Request::new();

    request
        .parse(Bytes::from_static(b"GET /test HTTP/1.1\r"))
        .expect_err("parsing request");
}

#[test]
fn new_request_is_empty() {
    let request = Request::new();
    assert_eq!(request.method, None);
    assert_eq!(request.path, None);
    assert_eq!(request.version, None);
    assert!(request.headers.iter().is_empty());
    assert!(request.body.is_empty());
}

#[test]
fn lone_cr_gives_newline_error() {
    let (request, result) = parsed(b"GET /test HTTP/1.1\r");
    assert_eq!(result, Err(RequestError::NewLine));
    // What was parsed before the failure stays in the request.
    assert_eq!(request.method, Some(Method::GET));
    assert_eq!(request.path, Some(String::from("/test")));
    assert_eq!(request.version, Some(1));
}

#[test]
fn cr_followed_by_other_byte_gives_newline_error() {
    let (_, result) = parsed(b"GET /test HTTP/1.1\rX\n");
    assert_eq!(result, Err(RequestError::NewLine));
}

#[test]
fn mixed_line_ends_are_accepted() {
    let (request, result) = parsed(b"POST /a HTTP/1.0\nHost: example\r\nAccept: */*\n\r\nhello");
    assert_eq!(result, Ok(()));
    assert_eq!(request.method, Some(Method::POST));
    assert_eq!(request.version, Some(0));
    assert_eq!(request.headers.get("Host"), Some(&b"example".to_vec()));
    assert_eq!(request.headers.get("Accept"), Some(&b"*/*".to_vec()));
    assert_eq!(request.body, b"hello".to_vec());
}

#[test]
fn request_may_end_after_its_header_block() {
    let (request, result) = parsed(b"GET / HTTP/1.1\r\nHost: example\r\n");
    assert_eq!(result, Ok(()));
    assert_eq!(request.headers.get("Host"), Some(&b"example".to_vec()));
    assert!(request.body.is_empty());
}

#[test]
fn duplicate_header_last_value_wins() {
    let mut headers = Headers::new();
    let mut bytes = Bytes::from_static(b"X: a\r\nX: b\r\n\r\n");
    Request::parse_headers(&mut bytes, &mut headers).expect("header block");
    assert_eq!(headers.get("X"), Some(&b"b".to_vec()));
    assert_eq!(headers.iter().len(), 1);
    assert_eq!(&bytes[..], b"\r\n");
}

#[test]
fn header_order_does_not_matter_for_distinct_names() {
    let (first, r1) = parsed(b"GET / HTTP/1.1\r\nB: 2\r\nA: 1\r\n\r\n");
    let (second, r2) = parsed(b"GET / HTTP/1.1\r\nA: 1\r\nB: 2\r\n\r\n");
    assert_eq!(r1, Ok(()));
    assert_eq!(r2, Ok(()));
    assert_eq!(first.headers.iter(), second.headers.iter());
    let names: Vec<&str> = first.headers.iter().iter().map(|e| e.0.as_str()).collect();
    assert_eq!(names, vec!["A", "B"]);
}

#[test]
fn header_names_keep_their_case() {
    let (request, result) = parsed(b"GET / HTTP/1.1\r\nhost: a\r\nHost: b\r\n\r\n");
    assert_eq!(result, Ok(()));
    assert_eq!(request.headers.get("host"), Some(&b"a".to_vec()));
    assert_eq!(request.headers.get("Host"), Some(&b"b".to_vec()));
    assert_eq!(request.headers.get("HOST"), None);
}

#[test]
fn header_value_may_hold_high_bytes_and_tabs() {
    let (request, result) = parsed(b"GET / HTTP/1.1\r\nX: a\tb\xff\r\n\r\n");
    assert_eq!(result, Ok(()));
    assert_eq!(request.headers.get("X"), Some(&b"a\tb\xff".to_vec()));
}

#[test]
fn body_is_taken_verbatim() {
    let (request, result) = parsed(b"PUT /x HTTP/1.1\r\nContent-Length: 1\r\n\r\n\x00\x01\r\n\xff");
    assert_eq!(result, Ok(()));
    assert_eq!(request.body, b"\x00\x01\r\n\xff".to_vec());
}

#[test]
fn method_names_are_case_insensitive() {
    let (request, result) = parsed(b"dElEtE /x HTTP/1.1\r\n\r\n");
    assert_eq!(result, Ok(()));
    assert_eq!(request.method, Some(Method::DELETE));
}

#[test]
fn every_method_is_recognised() {
    let all = [
        ("GET", Method::GET),
        ("HEAD", Method::HEAD),
        ("POST", Method::POST),
        ("PUT", Method::PUT),
        ("DELETE", Method::DELETE),
        ("CONNECT", Method::CONNECT),
        ("OPTIONS", Method::OPTIONS),
        ("TRACE", Method::TRACE),
        ("PATCH", Method::PATCH),
    ];
    for (name, method) in all {
        assert_eq!(Method::try_from(name), Ok(method));
        assert_eq!(Method::try_from(name.to_lowercase().as_str()), Ok(method));
        assert_eq!(method.as_str(), name);
        assert_eq!(method.to_string(), name);
        assert_eq!(Method::from_name(name.as_bytes()), Some(method));
    }
    let converted: Result<Method, &'static str> = "patch".try_into();
    assert_eq!(converted, Ok(Method::PATCH));
    assert_eq!(Method::try_from("GETS"), Err("invalid method"));
    assert_eq!(Method::try_from(""), Err("invalid method"));
    assert_eq!(Method::try_from("G\u{c9}T"), Err("invalid method"));
}

#[test]
fn unknown_method_gives_method_error() {
    let (request, result) = parsed(b"FETCH / HTTP/1.1\r\n\r\n");
    assert_eq!(result, Err(RequestError::Method));
    assert_eq!(request.method, None);
}

#[test]
fn bad_token_gives_token_error() {
    assert_eq!(parsed(b"GE\x01T / HTTP/1.1\r\n\r\n").1, Err(RequestError::Token));
    assert_eq!(parsed(b"GET").1, Err(RequestError::Token));
    assert_eq!(parsed(b"").1, Err(RequestError::Token));
}

#[test]
fn bad_path_gives_uri_error() {
    let (request, result) = parsed(b"GET /a<b HTTP/1.1\r\n\r\n");
    assert_eq!(result, Err(RequestError::URI));
    assert_eq!(request.method, Some(Method::GET));
    assert_eq!(request.path, None);
    assert_eq!(parsed(b"GET /nospace").1, Err(RequestError::URI));
}

#[test]
fn bad_version_gives_version_error() {
    assert_eq!(parsed(b"GET / HTTP/2.0\r\n\r\n").1, Err(RequestError::Version));
    assert_eq!(parsed(b"GET / HTTP/1.2\r\n\r\n").1, Err(RequestError::Version));
    assert_eq!(parsed(b"GET / http/1.1\r\n\r\n").1, Err(RequestError::Version));
    assert_eq!(parsed(b"GET / HTTP").1, Err(RequestError::Version));
    assert_eq!(parsed(b"GET / ").1, Err(RequestError::Version));
}

#[test]
fn missing_newline_gives_newline_error() {
    assert_eq!(parsed(b"GET / HTTP/1.1").1, Err(RequestError::NewLine));
    assert_eq!(parsed(b"GET / HTTP/1.1 \r\n").1, Err(RequestError::NewLine));
    assert_eq!(parsed(b"GET / HTTP/1.1\r\nbroken").1, Err(RequestError::NewLine));
}

#[test]
fn parse_token_reads_up_to_the_space() {
    let mut bytes = Bytes::from_static(b"GET /rest");
    assert_eq!(Request::parse_token(&mut bytes), Ok(String::from("GET")));
    assert_eq!(&bytes[..], b"/rest");

    let mut bytes = Bytes::from_static(b" x");
    assert_eq!(Request::parse_token(&mut bytes), Ok(String::new()));
    assert_eq!(&bytes[..], b"x");

    let mut bytes = Bytes::from_static(b"GE\nT /");
    assert_eq!(Request::parse_token(&mut bytes), Err(RequestError::Token));
    assert_eq!(&bytes[..], b"GE\nT /");
}

#[test]
fn parse_uri_reads_up_to_the_space() {
    let mut bytes = Bytes::from_static(b"/a/b?c=d HTTP/1.1");
    assert_eq!(Request::parse_uri(&mut bytes), Ok(String::from("/a/b?c=d")));
    assert_eq!(&bytes[..], b"HTTP/1.1");

    let mut bytes = Bytes::from_static(b"/a>b ");
    assert_eq!(Request::parse_uri(&mut bytes), Err(RequestError::URI));
    assert_eq!(&bytes[..], b"/a>b ");

    let mut bytes = Bytes::from_static(b"/a\x7fb ");
    assert_eq!(Request::parse_uri(&mut bytes), Err(RequestError::URI));
}

#[test]
fn parse_version_reads_eight_bytes() {
    let mut bytes = Bytes::from_static(b"HTTP/1.0\r\n");
    assert_eq!(Request::parse_version(&mut bytes), Ok(0));
    assert_eq!(&bytes[..], b"\r\n");

    let mut bytes = Bytes::from_static(b"HTTP/1.1");
    assert_eq!(Request::parse_version(&mut bytes), Ok(1));
    assert!(bytes.is_empty());

    let mut bytes = Bytes::from_static(b"HTTP/1.");
    assert_eq!(Request::parse_version(&mut bytes), Err(RequestError::Version));
    assert_eq!(&bytes[..], b"HTTP/1.");

    let mut bytes = Bytes::from_static(b"HTTP/1.9 ");
    assert_eq!(Request::parse_version(&mut bytes), Err(RequestError::Version));
    assert_eq!(&bytes[..], b"HTTP/1.9 ");
}

#[test]
fn parse_new_line_consumes_what_it_looked_at() {
    let mut bytes = Bytes::from_static(b"\r\nx");
    assert_eq!(Request::parse_new_line(&mut bytes), Ok(()));
    assert_eq!(&bytes[..], b"x");

    let mut bytes = Bytes::from_static(b"\nx");
    assert_eq!(Request::parse_new_line(&mut bytes), Ok(()));
    assert_eq!(&bytes[..], b"x");

    let mut bytes = Bytes::from_static(b"\rxy");
    assert_eq!(Request::parse_new_line(&mut bytes), Err(RequestError::NewLine));
    assert_eq!(&bytes[..], b"y");

    let mut bytes = Bytes::from_static(b"\r");
    assert_eq!(Request::parse_new_line(&mut bytes), Err(RequestError::NewLine));
    assert!(bytes.is_empty());

    let mut bytes = Bytes::from_static(b"ab");
    assert_eq!(Request::parse_new_line(&mut bytes), Err(RequestError::NewLine));
    assert_eq!(&bytes[..], b"b");

    let mut bytes = Bytes::new();
    assert_eq!(Request::parse_new_line(&mut bytes), Err(RequestError::NewLine));
}

#[test]
fn parse_space_needs_something_after_the_space() {
    let mut bytes = Bytes::from_static(b" v");
    assert_eq!(Request::parse_space(&mut bytes), Ok(()));
    assert_eq!(&bytes[..], b"v");

    let mut bytes = Bytes::from_static(b" ");
    assert_eq!(Request::parse_space(&mut bytes), Err(RequestError::Space));

    let mut bytes = Bytes::from_static(b"v ");
    assert_eq!(Request::parse_space(&mut bytes), Err(RequestError::Space));
    assert_eq!(&bytes[..], b" ");

    let mut bytes = Bytes::new();
    assert_eq!(Request::parse_space(&mut bytes), Err(RequestError::NewLine));
}

#[test]
fn parse_header_name_reads_up_to_the_colon() {
    let mut bytes = Bytes::from_static(b"Content-Type: x");
    assert_eq!(Request::parse_header_name(&mut bytes), Ok(String::from("Content-Type")));
    assert_eq!(&bytes[..], b" x");

    let mut bytes = Bytes::from_static(b"Bad Name: x");
    assert_eq!(Request::parse_header_name(&mut bytes), Err(RequestError::HeaderName));
    assert_eq!(&bytes[..], b"Bad Name: x");

    let mut bytes = Bytes::from_static(b"a(b): x");
    assert_eq!(Request::parse_header_name(&mut bytes), Err(RequestError::HeaderName));

    let mut bytes = Bytes::from_static(b"NoColon");
    assert_eq!(Request::parse_header_name(&mut bytes), Err(RequestError::HeaderName));
}

#[test]
fn parse_header_value_reads_the_line() {
    let mut bytes = Bytes::from_static(b"text/html\r\nNext: 1");
    assert_eq!(Request::parse_header_value(&mut bytes), Ok(b"text/html".to_vec()));
    assert_eq!(&bytes[..], b"Next: 1");

    let mut bytes = Bytes::from_static(b"\nrest");
    assert_eq!(Request::parse_header_value(&mut bytes), Ok(Vec::new()));
    assert_eq!(&bytes[..], b"rest");

    let mut bytes = Bytes::from_static(b"a\x01b\r\n");
    assert_eq!(Request::parse_header_value(&mut bytes), Err(RequestError::HeaderValue));
    assert_eq!(&bytes[..], b"a\x01b\r\n");

    let mut bytes = Bytes::from_static(b"unfinished");
    assert_eq!(Request::parse_header_value(&mut bytes), Err(RequestError::HeaderValue));

    let mut bytes = Bytes::from_static(b"value\rXrest");
    assert_eq!(Request::parse_header_value(&mut bytes), Err(RequestError::NewLine));
    assert_eq!(&bytes[..], b"rest");
}

#[test]
fn failed_header_line_ends_the_block_where_it_failed() {
    let mut headers = Headers::new();
    let mut bytes = Bytes::from_static(b"A: 1\r\nB:2\r\n\r\n");
    assert_eq!(Request::parse_headers(&mut bytes, &mut headers), Ok(()));
    assert_eq!(headers.get("A"), Some(&b"1".to_vec()));
    assert_eq!(headers.get("B"), None);
    // The name, the colon and the byte tried as the space are consumed.
    assert_eq!(&bytes[..], b"\r\n\r\n");
}

#[test]
fn parse_adds_to_the_headers_already_there() {
    let mut request = Request::new();
    request.headers.insert(String::from("Old"), b"kept".to_vec());
    request.headers.insert(String::from("Both"), b"old".to_vec());
    request.body = b"before".to_vec();
    let result = request.parse(Bytes::from_static(b"GET / HTTP/1.1\r\nBoth: new\r\n\r\n"));
    assert_eq!(result, Ok(()));
    assert_eq!(request.headers.get("Old"), Some(&b"kept".to_vec()));
    assert_eq!(request.headers.get("Both"), Some(&b"new".to_vec()));
    assert_eq!(request.body, b"before".to_vec());
}

#[test]
fn error_messages() {
    assert_eq!(RequestError::Method.to_string(), "invalid method");
    assert_eq!(RequestError::HeaderName.to_string(), "invalid header name");
    assert_eq!(RequestError::HeaderValue.to_string(), "invalid header value");
    assert_eq!(RequestError::Status.to_string(), "invalid status");
    assert_eq!(RequestError::Version.to_string(), "invalid version");
    assert_eq!(RequestError::NewLine.to_string(), "expected newline");
    assert_eq!(RequestError::Space.to_string(), "expected space");
    assert_eq!(RequestError::Token.to_string(), "invalid token");
    assert_eq!(RequestError::URI.to_string(), "invalid uri");
    assert_eq!(RequestError::TooManyHeaders.message(), "too many headers");
}

#[test]
fn headers_insert_reports_the_old_value() {
    let mut headers = Headers::new();
    assert_eq!(headers.insert(String::from("a"), b"1".to_vec()), None);
    assert_eq!(headers.insert(String::from("a"), b"2".to_vec()), Some(b"1".to_vec()));
    assert_eq!(headers.get("a"), Some(&b"2".to_vec()));
}

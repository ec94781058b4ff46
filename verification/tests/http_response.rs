use webserver_from_scratch::http_response::{ResponseBuilder, INTERNAL_SERVER_ERROR, OK};
use webserver_from_scratch::{StatusClass, StatusCode};

#[test]
fn build_basic_response() {
    let mut response = ResponseBuilder::new();
    response.write(b"hi");
    response.set_header("x-some-test-header", "some-value");
    assert_eq!(
        response.build(),
        b"HTTP/1.1 200 OK\r\nContent-Length: 2\r\nContent-Type: text/plain\r\nx-some-test-header: some-value\r\n\r\nhi"
    )
}

fn body_of(bytes: &[u8]) -> &[u8] {
    let at = bytes
        .windows(4)
        .position(|w| w == b"\r\n\r\n")
        .expect("blank line");
    &bytes[at + 4..]
}

fn header_value(bytes: &[u8], name: &str) -> Option<String> {
    let text = String::from_utf8_lossy(bytes).into_owned();
    let head = text.split("\r\n\r\n").next().unwrap().to_string();
    head.split("\r\n")
        .skip(1)
        .find_map(|line| line.strip_prefix(&format!("{}: ", name)).map(|v| v.to_string()))
}

#[test]
fn empty_response() {
    let response = ResponseBuilder::new();
    assert_eq!(
        response.build(),
        b"HTTP/1.1 200 OK\r\nContent-Length: 0\r\nContent-Type: text/plain\r\n\r\n"
    );
}

#[test]
fn default_is_a_fresh_builder() {
    let response = ResponseBuilder::default();
    assert_eq!(response.build(), ResponseBuilder::new().build());
}

#[test]
fn content_length_is_the_body_length() {
    for n in [0usize, 1, 9, 10, 11, 99, 100, 101, 255, 1000, 4096, 65536] {
        let mut response = ResponseBuilder::new();
        response.write(&vec![b'x'; n]);
        let bytes = response.build();
        assert_eq!(header_value(&bytes, "Content-Length"), Some(n.to_string()));
        assert_eq!(body_of(&bytes).len(), n);
    }
}

#[test]
fn writes_concatenate() {
    let mut response = ResponseBuilder::new();
    response.write(b"<h1>Hello ");
    response.write(b"");
    response.write(b"World");
    response.write(b"</h1>");
    let bytes = response.build();
    assert_eq!(body_of(&bytes), b"<h1>Hello World</h1>");
    assert_eq!(header_value(&bytes, "Content-Length"), Some(String::from("20")));
}

#[test]
fn build_is_repeatable() {
    let mut response = ResponseBuilder::new();
    response.write(b"abc");
    response.set_header("a", "b");
    let first = response.build();
    let second = response.build();
    assert_eq!(first, second);
}

#[test]
fn status_line_has_the_reason_phrase() {
    let mut response = ResponseBuilder::new();
    response.status_code(404);
    assert!(response.build().starts_with(b"HTTP/1.1 404 Not Found\r\n"));
    response.status_code(INTERNAL_SERVER_ERROR);
    assert!(response.build().starts_with(b"HTTP/1.1 500 Internal Server Error\r\n"));
    response.status_code(101);
    assert!(response.build().starts_with(b"HTTP/1.1 101 Switching Protocols\r\n"));
    response.status_code(OK);
    assert!(response.build().starts_with(b"HTTP/1.1 200 OK\r\n"));
}

#[test]
fn unknown_status_has_an_empty_reason_phrase() {
    let mut response = ResponseBuilder::new();
    response.status_code(299);
    assert!(response.build().starts_with(b"HTTP/1.1 299 \r\n"));
}

#[test]
fn build_with_reason_takes_the_phrase_as_given() {
    let mut response = ResponseBuilder::new();
    response.status_code(7);
    response.write(b"ok");
    assert_eq!(
        response.build_with_reason("Lucky"),
        b"HTTP/1.1 7 Lucky\r\nContent-Length: 2\r\nContent-Type: text/plain\r\n\r\nok"
    );
}

#[test]
fn setters_chain() {
    let mut response = ResponseBuilder::new();
    response
        .status_code(201)
        .content_type(String::from("text/html"))
        .status_code(202);
    assert_eq!(
        response.build(),
        b"HTTP/1.1 202 Accepted\r\nContent-Length: 0\r\nContent-Type: text/html\r\n\r\n"
    );
}

#[test]
fn empty_content_type_falls_back_to_text_plain() {
    let mut response = ResponseBuilder::new();
    response.content_type(String::new());
    assert_eq!(
        header_value(&response.build(), "Content-Type"),
        Some(String::from("text/plain"))
    );
}

#[test]
fn computed_headers_override_those_set() {
    let mut response = ResponseBuilder::new();
    response.set_header("Content-Length", "999");
    response.set_header("Content-Type", "application/json");
    response.content_type(String::from("text/css"));
    response.write(b"abc");
    assert_eq!(
        response.build(),
        b"HTTP/1.1 200 OK\r\nContent-Length: 3\r\nContent-Type: text/css\r\n\r\nabc"
    );
}

#[test]
fn header_names_are_case_sensitive() {
    let mut response = ResponseBuilder::new();
    response.set_header("content-length", "999");
    assert_eq!(
        response.build(),
        b"HTTP/1.1 200 OK\r\nContent-Length: 0\r\nContent-Type: text/plain\r\ncontent-length: 999\r\n\r\n"
    );
}

#[test]
fn set_header_says_whether_it_replaced() {
    let mut response = ResponseBuilder::new();
    assert_eq!(response.set_header("a", "1"), None);
    assert_eq!(response.set_header("a", "2"), Some(()));
    assert_eq!(response.set_header("b", "3"), None);
    assert_eq!(header_value(&response.build(), "a"), Some(String::from("2")));
}

#[test]
fn headers_come_in_byte_order_of_their_names() {
    let mut response = ResponseBuilder::new();
    response.set_header("b", "4");
    response.set_header("a", "3");
    response.set_header("B", "2");
    response.set_header("ab", "5");
    response.set_header("A", "1");
    response.set_header("\u{e9}", "6");
    assert_eq!(
        response.build(),
        "HTTP/1.1 200 OK\r\nA: 1\r\nB: 2\r\nContent-Length: 0\r\nContent-Type: text/plain\r\na: 3\r\nab: 5\r\nb: 4\r\n\u{e9}: 6\r\n\r\n"
            .as_bytes()
    );
}

#[test]
fn builder_converts_into_its_bytes() {
    let mut response = ResponseBuilder::new();
    response.write(b"hi");
    let expected = response.build();
    let bytes: Vec<u8> = Vec::from(response);
    assert_eq!(bytes, expected);
    assert_eq!(
        bytes,
        b"HTTP/1.1 200 OK\r\nContent-Length: 2\r\nContent-Type: text/plain\r\n\r\nhi"
    );
}

#[test]
fn status_codes_by_name() {
    let mut response = ResponseBuilder::new();
    response.status_code(StatusCode::NotFound.as_u16());
    assert!(response.build().starts_with(b"HTTP/1.1 404 Not Found\r\n"));
    assert_eq!(StatusCode::from(INTERNAL_SERVER_ERROR), StatusCode::InternalServerError);
    assert_eq!(StatusCode::from(OK).class(), StatusClass::Success);
}

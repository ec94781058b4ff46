//! The request model and the byte-level request parser.
//!
//! Every parsing step reads from a `Bytes` cursor and is specified by a
//! function of the unread bytes that gives both the outcome and the bytes
//! left unread after it, on success and on failure.

use crate::buffer::{advance, copy_prefix, get_u8, peek, remaining, unread};
use crate::sorted_map::{sorted_listing, SortedMap};
use crate::text::{
    all_ascii, ascii_text, lemma_ascii_is_utf8, lemma_ascii_text_injective, rank, utf8_text, Rank,
};
use crate::tokens::{
    is_header_name_token, is_header_value_token, is_token, is_uri_token, spec_is_header_name_token,
    spec_is_header_value_token, spec_is_token, spec_is_uri_token, COLON, CR, LF, SPACE,
};
use bytes::Bytes;
use vstd::prelude::*;
use vstd::utf8::encode_utf8;

verus! {

/// Why a request could not be parsed.
#[derive(Debug, Clone, Copy, PartialEq, Eq, Structural)]
pub enum RequestError {
    /// The request-line token names no known method.
    Method,
    /// A header name holds a byte that no header name may hold, or has no colon.
    HeaderName,
    /// A header value holds a byte that no header value may hold, or has no end.
    HeaderValue,
    /// A status is not valid. The request parser reads no status and
    /// never gives this error.
    Status,
    /// The protocol version is neither `HTTP/1.0` nor `HTTP/1.1`.
    Version,
    /// A line does not end in `\r\n` or `\n`.
    NewLine,
    /// The space after a header's colon is missing.
    Space,
    /// The request-line token holds a byte that no token may hold, or has no end.
    Token,
    /// The path holds a byte that no path may hold, or has no end.
    URI,
    /// A request holds more headers than are accepted. The request parser
    /// puts no limit on the number of headers and never gives this error.
    TooManyHeaders,
}

impl RequestError {
    /// The message that describes this error.
    pub fn message(&self) -> (text: &'static str)
        ensures
            text@ == self.spec_message(),
    {
        match self {
            RequestError::Method => "invalid method",
            RequestError::HeaderName => "invalid header name",
            RequestError::HeaderValue => "invalid header value",
            RequestError::Status => "invalid status",
            RequestError::Version => "invalid version",
            RequestError::NewLine => "expected newline",
            RequestError::Space => "expected space",
            RequestError::Token => "invalid token",
            RequestError::URI => "invalid uri",
            RequestError::TooManyHeaders => "too many headers",
        }
    }

    /// The message of each error.
    pub open spec fn spec_message(&self) -> Seq<char> {
        match self {
            RequestError::Method => "invalid method"@,
            RequestError::HeaderName => "invalid header name"@,
            RequestError::HeaderValue => "invalid header value"@,
            RequestError::Status => "invalid status"@,
            RequestError::Version => "invalid version"@,
            RequestError::NewLine => "expected newline"@,
            RequestError::Space => "expected space"@,
            RequestError::Token => "invalid token"@,
            RequestError::URI => "invalid uri"@,
            RequestError::TooManyHeaders => "too many headers"@,
        }
    }

    /// The message as an owned string.
    pub fn to_string(&self) -> (text: String)
        ensures
            text@ == self.spec_message(),
    {
        self.message().to_owned()
    }
}

/// The request methods.
#[derive(Debug, Clone, Copy, PartialEq, Eq, Structural)]
pub enum Method {
    GET,
    HEAD,
    POST,
    PUT,
    DELETE,
    CONNECT,
    OPTIONS,
    TRACE,
    PATCH,
}

/// The upper-case form of an ASCII letter; any other byte as it is.
pub open spec fn upper(b: u8) -> u8 {
    if 0x61 <= b <= 0x7a {
        (b - 0x20) as u8
    } else {
        b
    }
}

/// The name of a method, in upper-case ASCII.
pub open spec fn method_name(method: Method) -> Seq<u8> {
    match method {
        Method::GET => seq![0x47, 0x45, 0x54],
        Method::HEAD => seq![0x48, 0x45, 0x41, 0x44],
        Method::POST => seq![0x50, 0x4f, 0x53, 0x54],
        Method::PUT => seq![0x50, 0x55, 0x54],
        Method::DELETE => seq![0x44, 0x45, 0x4c, 0x45, 0x54, 0x45],
        Method::CONNECT => seq![0x43, 0x4f, 0x4e, 0x4e, 0x45, 0x43, 0x54],
        Method::OPTIONS => seq![0x4f, 0x50, 0x54, 0x49, 0x4f, 0x4e, 0x53],
        Method::TRACE => seq![0x54, 0x52, 0x41, 0x43, 0x45],
        Method::PATCH => seq![0x50, 0x41, 0x54, 0x43, 0x48],
    }
}

/// The method that a name denotes, letter case aside.
pub open spec fn method_named(name: Seq<u8>) -> Option<Method> {
    let shouted = name.map_values(|b: u8| upper(b));
    if shouted == method_name(Method::GET) {
        Some(Method::GET)
    } else if shouted == method_name(Method::HEAD) {
        Some(Method::HEAD)
    } else if shouted == method_name(Method::POST) {
        Some(Method::POST)
    } else if shouted == method_name(Method::PUT) {
        Some(Method::PUT)
    } else if shouted == method_name(Method::DELETE) {
        Some(Method::DELETE)
    } else if shouted == method_name(Method::CONNECT) {
        Some(Method::CONNECT)
    } else if shouted == method_name(Method::OPTIONS) {
        Some(Method::OPTIONS)
    } else if shouted == method_name(Method::TRACE) {
        Some(Method::TRACE)
    } else if shouted == method_name(Method::PATCH) {
        Some(Method::PATCH)
    } else {
        None
    }
}

impl Method {
    /// The name of this method.
    pub fn as_str(&self) -> (name: &'static str)
        ensures
            name@ == ascii_text(method_name(*self)),
    {
        proof {
            reveal_strlit("GET");
            reveal_strlit("HEAD");
            reveal_strlit("POST");
            reveal_strlit("PUT");
            reveal_strlit("DELETE");
            reveal_strlit("CONNECT");
            reveal_strlit("OPTIONS");
            reveal_strlit("TRACE");
            reveal_strlit("PATCH");
        }
        let name = match self {
            Method::GET => "GET",
            Method::HEAD => "HEAD",
            Method::POST => "POST",
            Method::PUT => "PUT",
            Method::DELETE => "DELETE",
            Method::CONNECT => "CONNECT",
            Method::OPTIONS => "OPTIONS",
            Method::TRACE => "TRACE",
            Method::PATCH => "PATCH",
        };
        assert(name@ =~= ascii_text(method_name(*self)));
        name
    }

    /// The name of this method as an owned string.
    pub fn to_string(&self) -> (name: String)
        ensures
            name@ == ascii_text(method_name(*self)),
    {
        self.as_str().to_owned()
    }

    /// The name of this method as bytes.
    fn name_bytes(&self) -> (name: Vec<u8>)
        ensures
            name@ == method_name(*self),
    {
        let name = match self {
            Method::GET => vec![0x47, 0x45, 0x54],
            Method::HEAD => vec![0x48, 0x45, 0x41, 0x44],
            Method::POST => vec![0x50, 0x4f, 0x53, 0x54],
            Method::PUT => vec![0x50, 0x55, 0x54],
            Method::DELETE => vec![0x44, 0x45, 0x4c, 0x45, 0x54, 0x45],
            Method::CONNECT => vec![0x43, 0x4f, 0x4e, 0x4e, 0x45, 0x43, 0x54],
            Method::OPTIONS => vec![0x4f, 0x50, 0x54, 0x49, 0x4f, 0x4e, 0x53],
            Method::TRACE => vec![0x54, 0x52, 0x41, 0x43, 0x45],
            Method::PATCH => vec![0x50, 0x41, 0x54, 0x43, 0x48],
        };
        assert(name@ =~= method_name(*self));
        name
    }

    /// Whether `shouted` is the name of this method.
    fn is_named(&self, shouted: &Vec<u8>) -> (r: bool)
        ensures
            r == (shouted@ == method_name(*self)),
    {
        let name = self.name_bytes();
        matches!(rank(shouted.as_slice(), name.as_slice()), Rank::Same)
    }

    /// The method that the bytes of a name denote, letter case aside.
    pub fn from_name(name: &[u8]) -> (method: Option<Method>)
        ensures
            method == method_named(name@),
    {
        let mut shouted: Vec<u8> = Vec::new();
        let mut i: usize = 0;
        while i < name.len()
            invariant
                i <= name.len(),
                shouted@ == name@.take(i as int).map_values(|b: u8| upper(b)),
            decreases name.len() - i,
        {
            let b = name[i];
            let u: u8 = if 0x61 <= b && b <= 0x7a {
                b - 0x20
            } else {
                b
            };
            shouted.push(u);
            assert(shouted@ =~= name@.take(i + 1).map_values(|b: u8| upper(b)));
            i += 1;
        }
        assert(name@.take(i as int) =~= name@);
        if Method::GET.is_named(&shouted) {
            Some(Method::GET)
        } else if Method::HEAD.is_named(&shouted) {
            Some(Method::HEAD)
        } else if Method::POST.is_named(&shouted) {
            Some(Method::POST)
        } else if Method::PUT.is_named(&shouted) {
            Some(Method::PUT)
        } else if Method::DELETE.is_named(&shouted) {
            Some(Method::DELETE)
        } else if Method::CONNECT.is_named(&shouted) {
            Some(Method::CONNECT)
        } else if Method::OPTIONS.is_named(&shouted) {
            Some(Method::OPTIONS)
        } else if Method::TRACE.is_named(&shouted) {
            Some(Method::TRACE)
        } else if Method::PATCH.is_named(&shouted) {
            Some(Method::PATCH)
        } else {
            None
        }
    }
}

impl TryFrom<&str> for Method {
    type Error = &'static str;

    /// The method that `value` names, letter case aside.
    fn try_from(value: &str) -> (r: Result<Method, &'static str>)
        ensures
            match r {
                Ok(method) => method_named(encode_utf8(value@)) == Some(method),
                Err(message) => method_named(encode_utf8(value@)).is_none() && message@
                    == "invalid method"@,
            },
    {
        match Method::from_name(value.as_bytes()) {
            Some(method) => Ok(method),
            None => Err("invalid method"),
        }
    }
}

impl vstd::std_specs::convert::TryFromSpecImpl<&str> for Method {
    open spec fn obeys_try_from_spec() -> bool {
        true
    }

    open spec fn try_from_spec(value: &str) -> Result<Method, &'static str> {
        match method_named(encode_utf8(value@)) {
            Some(method) => Ok(method),
            None => Err("invalid method"),
        }
    }
}

/// The four kinds of field that the parser scans byte by byte.
#[derive(Debug, Clone, Copy, PartialEq, Eq, Structural)]
pub enum FieldKind {
    /// The request-line token that names the method; a space ends it.
    Token,
    /// The request path; a space ends it.
    Uri,
    /// A header name; a colon ends it.
    HeaderName,
    /// A header value; a carriage return or a line feed ends it.
    HeaderValue,
}

/// Whether `b` ends a field of the given kind.
pub open spec fn ends_field(kind: FieldKind, b: u8) -> bool {
    match kind {
        FieldKind::Token => b == SPACE,
        FieldKind::Uri => b == SPACE,
        FieldKind::HeaderName => b == COLON,
        FieldKind::HeaderValue => b == CR || b == LF,
    }
}

/// Whether `b` may stand inside a field of the given kind.
pub open spec fn fits_field(kind: FieldKind, b: u8) -> bool {
    match kind {
        FieldKind::Token => spec_is_token(b),
        FieldKind::Uri => spec_is_uri_token(b),
        FieldKind::HeaderName => spec_is_header_name_token(b),
        FieldKind::HeaderValue => spec_is_header_value_token(b),
    }
}

/// How many bytes at the front of `s` belong to a field of the given kind:
/// the scan stops at the first byte that ends the field or may not stand in
/// it, and at the end of `s`.
pub open spec fn field_length(kind: FieldKind, s: Seq<u8>) -> nat
    decreases s.len(),
{
    if s.len() == 0 || ends_field(kind, s[0]) || !fits_field(kind, s[0]) {
        0
    } else {
        1 + field_length(kind, s.drop_first())
    }
}

/// Whether the field at the front of `s` is closed by the byte that ends it.
pub open spec fn field_closed(kind: FieldKind, s: Seq<u8>) -> bool {
    let n = field_length(kind, s) as int;
    n < s.len() && ends_field(kind, s[n])
}

/// The bytes of the field at the front of `s`.
pub open spec fn field_bytes(kind: FieldKind, s: Seq<u8>) -> Seq<u8> {
    s.take(field_length(kind, s) as int)
}

/// A line end: `\r\n` or a bare `\n`. A failed attempt still consumes the
/// one or two bytes that it looked at.
pub open spec fn new_line_model(s: Seq<u8>) -> (Result<(), RequestError>, Seq<u8>) {
    if s.len() == 0 {
        (Err(RequestError::NewLine), s)
    } else if s[0] == LF {
        (Ok(()), s.skip(1))
    } else if s[0] == CR && s.len() >= 2 {
        (
            if s[1] == LF {
                Ok(())
            } else {
                Err(RequestError::NewLine)
            },
            s.skip(2),
        )
    } else {
        (Err(RequestError::NewLine), s.skip(1))
    }
}

/// The space after a header's colon, which something must follow. A failed
/// attempt on a buffer that is not empty still consumes one byte.
pub open spec fn space_model(s: Seq<u8>) -> (Result<(), RequestError>, Seq<u8>) {
    if s.len() == 0 {
        (Err(RequestError::NewLine), s)
    } else if s[0] == SPACE && s.len() >= 2 {
        (Ok(()), s.skip(1))
    } else {
        (Err(RequestError::Space), s.skip(1))
    }
}

/// The bytes of `HTTP/1.` followed by the digit `minor`.
pub open spec fn version_text(minor: u8) -> Seq<u8> {
    seq![0x48, 0x54, 0x54, 0x50, 0x2f, 0x31, 0x2e, (0x30 + minor) as u8]
}

/// The protocol version: exactly `HTTP/1.0` or `HTTP/1.1`; nothing is
/// consumed otherwise.
pub open spec fn version_model(s: Seq<u8>) -> (Result<u8, RequestError>, Seq<u8>) {
    if s.len() >= 8 && s.take(8) == version_text(0) {
        (Ok(0), s.skip(8))
    } else if s.len() >= 8 && s.take(8) == version_text(1) {
        (Ok(1), s.skip(8))
    } else {
        (Err(RequestError::Version), s)
    }
}

/// A field that a single byte ends (token, path, header name): its text, and
/// the bytes after the byte that ended it. Nothing is consumed on failure.
pub open spec fn field_model(kind: FieldKind, failure: RequestError, s: Seq<u8>) -> (
    Result<Seq<char>, RequestError>,
    Seq<u8>,
) {
    if field_closed(kind, s) {
        (Ok(ascii_text(field_bytes(kind, s))), s.skip(field_length(kind, s) as int + 1))
    } else {
        (Err(failure), s)
    }
}

/// The request-line token.
pub open spec fn token_model(s: Seq<u8>) -> (Result<Seq<char>, RequestError>, Seq<u8>) {
    field_model(FieldKind::Token, RequestError::Token, s)
}

/// The request path.
pub open spec fn uri_model(s: Seq<u8>) -> (Result<Seq<char>, RequestError>, Seq<u8>) {
    field_model(FieldKind::Uri, RequestError::URI, s)
}

/// A header name.
pub open spec fn header_name_model(s: Seq<u8>) -> (Result<Seq<char>, RequestError>, Seq<u8>) {
    field_model(FieldKind::HeaderName, RequestError::HeaderName, s)
}

/// A header value with the line end after it. Where the value has an end
/// but the line end is malformed, the value and what the line end consumed
/// are gone from the buffer.
pub open spec fn header_value_model(s: Seq<u8>) -> (Result<Seq<u8>, RequestError>, Seq<u8>) {
    if field_closed(FieldKind::HeaderValue, s) {
        let line_end = new_line_model(s.skip(field_length(FieldKind::HeaderValue, s) as int));
        match line_end.0 {
            Ok(_) => (Ok(field_bytes(FieldKind::HeaderValue, s)), line_end.1),
            Err(e) => (Err(e), line_end.1),
        }
    } else {
        (Err(RequestError::HeaderValue), s)
    }
}

/// One header line: name, colon, one space, value, line end.
pub open spec fn header_model(s: Seq<u8>) -> (Result<(Seq<char>, Seq<u8>), RequestError>, Seq<u8>) {
    let name = header_name_model(s);
    match name.0 {
        Err(e) => (Err(e), name.1),
        Ok(n) => {
            let space = space_model(name.1);
            match space.0 {
                Err(e) => (Err(e), space.1),
                Ok(_) => {
                    let value = header_value_model(space.1);
                    match value.0 {
                        Err(e) => (Err(e), value.1),
                        Ok(v) => (Ok((n, v)), value.1),
                    }
                },
            }
        },
    }
}

/// The header block: header lines are read into `headers`, a later line
/// replacing an earlier one of the same name, until one fails. What the
/// failed attempt consumed is gone from the buffer.
pub open spec fn headers_model(s: Seq<u8>, headers: Map<Seq<char>, Seq<u8>>) -> (
    Map<Seq<char>, Seq<u8>>,
    Seq<u8>,
)
    decreases s.len(),
{
    let line = header_model(s);
    match line.0 {
        Ok((name, value)) => {
            if line.1.len() < s.len() {
                headers_model(line.1, headers.insert(name, value))
            } else {
                (headers, line.1)
            }
        },
        Err(_) => (headers, line.1),
    }
}

/// No parsing step makes the buffer longer, and a header line that parses
/// makes it shorter.
pub proof fn lemma_steps_consume(s: Seq<u8>)
    ensures
        new_line_model(s).1.len() <= s.len(),
        space_model(s).1.len() <= s.len(),
        version_model(s).1.len() <= s.len(),
        token_model(s).1.len() <= s.len(),
        uri_model(s).1.len() <= s.len(),
        header_name_model(s).1.len() <= s.len(),
        header_value_model(s).1.len() <= s.len(),
        header_model(s).1.len() <= s.len(),
        header_model(s).0.is_ok() ==> header_model(s).1.len() < s.len(),
{
    let after_name = header_name_model(s).1;
    let after_space = space_model(after_name).1;
    let n = field_length(FieldKind::HeaderValue, after_space) as int;
    if field_closed(FieldKind::HeaderValue, after_space) {
        assert(new_line_model(after_space.skip(n)).1.len() <= after_space.skip(n).len());
    }
    let m = field_length(FieldKind::HeaderValue, s) as int;
    if field_closed(FieldKind::HeaderValue, s) {
        assert(new_line_model(s.skip(m)).1.len() <= s.skip(m).len());
    }
}

/// The headers of a request: raw values by header name. Names are kept as
/// they were received; of two headers with one name the later one stays.
#[derive(Debug, Clone)]
pub struct Headers {
    headers: SortedMap<Vec<u8>>,
}

impl View for Headers {
    type V = Map<Seq<char>, Seq<u8>>;

    closed spec fn view(&self) -> Map<Seq<char>, Seq<u8>> {
        self.headers@.map_values(|value: Vec<u8>| value@)
    }
}

impl Headers {
    /// No headers.
    pub fn new() -> (headers: Self)
        ensures
            headers@ == Map::<Seq<char>, Seq<u8>>::empty(),
    {
        let headers = Headers { headers: SortedMap::new() };
        assert(headers@ =~= Map::<Seq<char>, Seq<u8>>::empty());
        headers
    }

    /// The headers in the byte-wise order of their names.
    pub fn iter(&self) -> (entries: &Vec<(String, Vec<u8>)>)
        ensures
            entries@.len() == self@.dom().len(),
            entries@.len() == sorted_listing(self@.dom()).len(),
            forall|i: int|
                0 <= i < entries@.len() ==> {
                    &&& (#[trigger] entries@[i]).0@ == sorted_listing(self@.dom())[i]
                    &&& self@.contains_key(entries@[i].0@)
                    &&& entries@[i].1@ == self@[entries@[i].0@]
                },
    {
        assert(self@.dom() =~= self.headers@.dom());
        self.headers.entries()
    }

    /// The value of the header called `name`, if the request has one.
    pub fn get(&self, name: &str) -> (value: Option<&Vec<u8>>)
        ensures
            match value {
                Some(v) => self@.contains_key(name@) && v@ == self@[name@],
                None => !self@.contains_key(name@),
            },
    {
        self.headers.get(name)
    }

    /// Sets the header called `name`, and hands back the value it had.
    pub fn insert(&mut self, name: String, value: Vec<u8>) -> (previous: Option<Vec<u8>>)
        ensures
            final(self)@ == old(self)@.insert(name@, value@),
            match previous {
                Some(v) => old(self)@.contains_key(name@) && v@ == old(self)@[name@],
                None => !old(self)@.contains_key(name@),
            },
    {
        let previous = self.headers.insert(name, value);
        assert(self@ =~= old(self)@.insert(name@, value@));
        previous
    }
}

/// A parsed request.
#[derive(Debug, Clone)]
pub struct Request {
    /// The request method, such as `GET`.
    pub method: Option<Method>,
    /// The request path, such as `/about-us`.
    pub path: Option<String>,
    /// The minor protocol version: 0 for `HTTP/1.0`, 1 for `HTTP/1.1`.
    pub version: Option<u8>,
    /// The request headers.
    pub headers: Headers,
    /// The request body.
    pub body: Vec<u8>,
}

/// What a request holds.
pub struct RequestView {
    pub method: Option<Method>,
    pub path: Option<Seq<char>>,
    pub version: Option<u8>,
    pub headers: Map<Seq<char>, Seq<u8>>,
    pub body: Seq<u8>,
}

impl View for Request {
    type V = RequestView;

    open spec fn view(&self) -> RequestView {
        RequestView {
            method: self.method,
            path: match self.path {
                Some(path) => Some(path@),
                None => None,
            },
            version: self.version,
            headers: self.headers@,
            body: self.body@,
        }
    }
}

/// The part of a request after its request line: the line end, the header
/// block, and the body. A request may end right after its header block; if
/// anything follows, it starts with the line end that closes the block, and
/// what stands after that line end is the body. An empty body leaves the
/// body of `request` as it was.
pub open spec fn tail_model(request: RequestView, s: Seq<u8>) -> (
    RequestView,
    Result<(), RequestError>,
) {
    let line_end = new_line_model(s);
    match line_end.0 {
        Err(e) => (request, Err(e)),
        Ok(_) => {
            let block = headers_model(line_end.1, request.headers);
            let with_headers = RequestView { headers: block.0, ..request };
            if block.1.len() == 0 {
                (with_headers, Ok(()))
            } else {
                let blank = new_line_model(block.1);
                match blank.0 {
                    Err(e) => (with_headers, Err(e)),
                    Ok(_) => if blank.1.len() == 0 {
                        (with_headers, Ok(()))
                    } else {
                        (RequestView { body: blank.1, ..with_headers }, Ok(()))
                    },
                }
            }
        },
    }
}

/// A whole request read into `request`: each part is stored as soon as it
/// has been parsed, so a failure leaves the parts before it in place.
pub open spec fn request_model(request: RequestView, s: Seq<u8>) -> (
    RequestView,
    Result<(), RequestError>,
) {
    let token = token_model(s);
    if token.0.is_err() {
        (request, Err(RequestError::Token))
    } else {
        match method_named(field_bytes(FieldKind::Token, s)) {
            None => (request, Err(RequestError::Method)),
            Some(method) => {
                let with_method = RequestView { method: Some(method), ..request };
                let uri = uri_model(token.1);
                match uri.0 {
                    Err(e) => (with_method, Err(e)),
                    Ok(path) => {
                        let with_path = RequestView { path: Some(path), ..with_method };
                        let version = version_model(uri.1);
                        match version.0 {
                            Err(e) => (with_path, Err(e)),
                            Ok(minor) => tail_model(
                                RequestView { version: Some(minor), ..with_path },
                                version.1,
                            ),
                        }
                    },
                }
            },
        }
    }
}

/// Whether `b` ends a field of the given kind.
fn ends(kind: FieldKind, b: u8) -> (r: bool)
    ensures
        r == ends_field(kind, b),
{
    match kind {
        FieldKind::Token => b == SPACE,
        FieldKind::Uri => b == SPACE,
        FieldKind::HeaderName => b == COLON,
        FieldKind::HeaderValue => b == CR || b == LF,
    }
}

/// Whether `b` may stand inside a field of the given kind.
fn fits(kind: FieldKind, b: u8) -> (r: bool)
    ensures
        r == fits_field(kind, b),
{
    match kind {
        FieldKind::Token => is_token(b),
        FieldKind::Uri => is_uri_token(b),
        FieldKind::HeaderName => is_header_name_token(b),
        FieldKind::HeaderValue => is_header_value_token(b),
    }
}

/// A field has as many bytes as were scanned plus what the rest yields.
proof fn lemma_field_length_step(kind: FieldKind, s: Seq<u8>, i: int)
    requires
        0 <= i < s.len(),
        field_length(kind, s) == i + field_length(kind, s.skip(i)),
        !ends_field(kind, s[i]),
        fits_field(kind, s[i]),
    ensures
        field_length(kind, s) == i + 1 + field_length(kind, s.skip(i + 1)),
{
    assert(s.skip(i)[0] == s[i]);
    assert(s.skip(i).drop_first() =~= s.skip(i + 1));
}

/// The bytes of a field fit its kind, and none of them ends it.
pub proof fn lemma_field_bytes(kind: FieldKind, s: Seq<u8>)
    ensures
        field_length(kind, s) <= s.len(),
        forall|i: int|
            0 <= i < field_length(kind, s) ==> fits_field(kind, #[trigger] s[i]) && !ends_field(
                kind,
                s[i],
            ),
    decreases s.len(),
{
    if !(s.len() == 0 || ends_field(kind, s[0]) || !fits_field(kind, s[0])) {
        lemma_field_bytes(kind, s.drop_first());
        assert forall|i: int| 0 <= i < field_length(kind, s) implies fits_field(
            kind,
            #[trigger] s[i],
        ) && !ends_field(kind, s[i]) by {
            if i > 0 {
                assert(s[i] == s.drop_first()[i - 1]);
            }
        }
    }
}

/// The length of the field at the front of the buffer.
fn scan(bytes: &Bytes, kind: FieldKind) -> (n: usize)
    ensures
        n == field_length(kind, unread(*bytes)),
        n <= unread(*bytes).len(),
{
    let len = remaining(bytes);
    let mut i: usize = 0;
    proof {
        assert(unread(*bytes).skip(0) =~= unread(*bytes));
    }
    while i < len
        invariant
            i <= len,
            len == unread(*bytes).len(),
            field_length(kind, unread(*bytes)) == i + field_length(kind, unread(*bytes).skip(i as int)),
        decreases len - i,
    {
        let b = peek(bytes, i);
        assert(unread(*bytes).skip(i as int)[0] == b);
        if ends(kind, b) || !fits(kind, b) {
            return i;
        }
        proof {
            lemma_field_length_step(kind, unread(*bytes), i as int);
        }
        i += 1;
    }
    i
}

/// Reads a field that a single byte ends, and that byte. The field is one
/// whose bytes are all ASCII, so it has a text.
fn parse_field(bytes: &mut Bytes, kind: FieldKind, failure: RequestError) -> (r: Result<
    String,
    RequestError,
>)
    requires
        kind != FieldKind::HeaderValue,
    ensures
        unread(*final(bytes)) == field_model(kind, failure, unread(*old(bytes))).1,
        match r {
            Ok(text) => field_model(kind, failure, unread(*old(bytes))).0 == Ok::<
                Seq<char>,
                RequestError,
            >(text@),
            Err(e) => field_model(kind, failure, unread(*old(bytes))).0 == Err::<
                Seq<char>,
                RequestError,
            >(e),
        },
{
    let n = scan(bytes, kind);
    if n < remaining(bytes) && ends(kind, peek(bytes, n)) {
        let field = copy_prefix(bytes, n);
        advance(bytes, n + 1);
        proof {
            lemma_field_bytes(kind, unread(*old(bytes)));
            assert(all_ascii(field@)) by {
                assert forall|i: int| 0 <= i < field@.len() implies #[trigger] field@[i] < 0x80 by {
                    assert(fits_field(kind, unread(*old(bytes))[i]));
                }
            }
            lemma_ascii_is_utf8(field@);
        }
        match utf8_text(field.as_slice()) {
            Some(text) => Ok(text),
            None => Err(failure),
        }
    } else {
        Err(failure)
    }
}

/// Reads one header line.
fn parse_header(bytes: &mut Bytes) -> (r: Result<(String, Vec<u8>), RequestError>)
    ensures
        unread(*final(bytes)) == header_model(unread(*old(bytes))).1,
        match r {
            Ok(header) => header_model(unread(*old(bytes))).0 == Ok::<
                (Seq<char>, Seq<u8>),
                RequestError,
            >((header.0@, header.1@)),
            Err(e) => header_model(unread(*old(bytes))).0 == Err::<
                (Seq<char>, Seq<u8>),
                RequestError,
            >(e),
        },
{
    let name = match Request::parse_header_name(bytes) {
        Ok(name) => name,
        Err(e) => {
            return Err(e);
        },
    };
    match Request::parse_space(bytes) {
        Ok(_) => {},
        Err(e) => {
            return Err(e);
        },
    }
    match Request::parse_header_value(bytes) {
        Ok(value) => Ok((name, value)),
        Err(e) => Err(e),
    }
}

impl Request {
    /// A request with nothing in it.
    pub fn new() -> (request: Self)
        ensures
            request@ == (RequestView {
                method: None,
                path: None,
                version: None,
                headers: Map::empty(),
                body: Seq::empty(),
            }),
    {
        Request { method: None, path: None, version: None, headers: Headers::new(), body: vec![] }
    }

    /// Reads a line end.
    pub fn parse_new_line(bytes: &mut Bytes) -> (r: Result<(), RequestError>)
        ensures
            (r, unread(*final(bytes))) == new_line_model(unread(*old(bytes))),
    {
        if remaining(bytes) == 0 {
            return Err(RequestError::NewLine);
        }
        let first = get_u8(bytes);
        if first == CR {
            if remaining(bytes) > 0 {
                let second = get_u8(bytes);
                assert(unread(*bytes) =~= unread(*old(bytes)).skip(2));
                if second == LF {
                    Ok(())
                } else {
                    Err(RequestError::NewLine)
                }
            } else {
                Err(RequestError::NewLine)
            }
        } else if first == LF {
            Ok(())
        } else {
            Err(RequestError::NewLine)
        }
    }

    /// Reads the one space after a header's colon.
    pub fn parse_space(bytes: &mut Bytes) -> (r: Result<(), RequestError>)
        ensures
            (r, unread(*final(bytes))) == space_model(unread(*old(bytes))),
    {
        if remaining(bytes) == 0 {
            return Err(RequestError::NewLine);
        }
        if get_u8(bytes) == SPACE && remaining(bytes) > 0 {
            Ok(())
        } else {
            Err(RequestError::Space)
        }
    }

    /// Reads the protocol version and gives its minor number.
    pub fn parse_version(bytes: &mut Bytes) -> (r: Result<u8, RequestError>)
        ensures
            (r, unread(*final(bytes))) == version_model(unread(*old(bytes))),
    {
        if remaining(bytes) < 8 {
            return Err(RequestError::Version);
        }
        let word = copy_prefix(bytes, 8);
        let common = word[0] == 0x48 && word[1] == 0x54 && word[2] == 0x54 && word[3] == 0x50
            && word[4] == 0x2f && word[5] == 0x31 && word[6] == 0x2e;
        if common && word[7] == 0x30 {
            assert(word@ =~= version_text(0));
            advance(bytes, 8);
            Ok(0)
        } else if common && word[7] == 0x31 {
            assert(word@ =~= version_text(1));
            advance(bytes, 8);
            Ok(1)
        } else {
            assert(word@ != version_text(0)) by {
                if word@ == version_text(0) {
                    assert(version_text(0)[7] == 0x30 && version_text(0)[0] == 0x48);
                }
            }
            assert(word@ != version_text(1)) by {
                if word@ == version_text(1) {
                    assert(version_text(1)[7] == 0x31 && version_text(1)[0] == 0x48);
                }
            }
            Err(RequestError::Version)
        }
    }

    /// Reads the request path and the space after it.
    pub fn parse_uri(bytes: &mut Bytes) -> (r: Result<String, RequestError>)
        ensures
            unread(*final(bytes)) == uri_model(unread(*old(bytes))).1,
            match r {
                Ok(text) => uri_model(unread(*old(bytes))).0 == Ok::<Seq<char>, RequestError>(text@),
                Err(e) => uri_model(unread(*old(bytes))).0 == Err::<Seq<char>, RequestError>(e),
            },
    {
        parse_field(bytes, FieldKind::Uri, RequestError::URI)
    }

    /// Reads the request-line token and the space after it.
    pub fn parse_token(bytes: &mut Bytes) -> (r: Result<String, RequestError>)
        ensures
            unread(*final(bytes)) == token_model(unread(*old(bytes))).1,
            match r {
                Ok(text) => token_model(unread(*old(bytes))).0 == Ok::<Seq<char>, RequestError>(
                    text@,
                ),
                Err(e) => token_model(unread(*old(bytes))).0 == Err::<Seq<char>, RequestError>(e),
            },
    {
        parse_field(bytes, FieldKind::Token, RequestError::Token)
    }

    /// Reads a header name and the colon after it.
    pub fn parse_header_name(bytes: &mut Bytes) -> (r: Result<String, RequestError>)
        ensures
            unread(*final(bytes)) == header_name_model(unread(*old(bytes))).1,
            match r {
                Ok(text) => header_name_model(unread(*old(bytes))).0 == Ok::<
                    Seq<char>,
                    RequestError,
                >(text@),
                Err(e) => header_name_model(unread(*old(bytes))).0 == Err::<
                    Seq<char>,
                    RequestError,
                >(e),
            },
    {
        parse_field(bytes, FieldKind::HeaderName, RequestError::HeaderName)
    }

    /// Reads a header value and the line end after it.
    pub fn parse_header_value(bytes: &mut Bytes) -> (r: Result<Vec<u8>, RequestError>)
        ensures
            unread(*final(bytes)) == header_value_model(unread(*old(bytes))).1,
            match r {
                Ok(value) => header_value_model(unread(*old(bytes))).0 == Ok::<
                    Seq<u8>,
                    RequestError,
                >(value@),
                Err(e) => header_value_model(unread(*old(bytes))).0 == Err::<Seq<u8>, RequestError>(
                    e,
                ),
            },
    {
        let n = scan(bytes, FieldKind::HeaderValue);
        if n < remaining(bytes) && ends(FieldKind::HeaderValue, peek(bytes, n)) {
            let value = copy_prefix(bytes, n);
            advance(bytes, n);
            match Request::parse_new_line(bytes) {
                Ok(_) => Ok(value),
                Err(e) => Err(e),
            }
        } else {
            Err(RequestError::HeaderValue)
        }
    }

    /// Reads header lines into `headers` until one fails to parse, which is
    /// how the header block ends: this never fails.
    pub fn parse_headers(bytes: &mut Bytes, headers: &mut Headers) -> (r: Result<(), RequestError>)
        ensures
            r.is_ok(),
            (final(headers)@, unread(*final(bytes))) == headers_model(
                unread(*old(bytes)),
                old(headers)@,
            ),
    {
        loop
            invariant_except_break
                headers_model(unread(*old(bytes)), old(headers)@) == headers_model(
                    unread(*bytes),
                    headers@,
                ),
            ensures
                (headers@, unread(*bytes)) == headers_model(unread(*old(bytes)), old(headers)@),
            decreases unread(*bytes).len(),
        {
            proof {
                lemma_steps_consume(unread(*bytes));
            }
            match parse_header(bytes) {
                Ok((name, value)) => {
                    headers.insert(name, value);
                },
                Err(_) => {
                    break ;
                },
            }
        }
        Ok(())
    }

    /// Reads a whole request from `buf` into this request: the request
    /// line, the header block, and what is left as the body. Each part is
    /// stored as soon as it is read. The headers are added to those that
    /// the request holds, and an empty body leaves the body as it is.
    pub fn parse(&mut self, buf: Bytes) -> (r: Result<(), RequestError>)
        ensures
            (final(self)@, r) == request_model(old(self)@, unread(buf)),
    {
        let mut bytes = buf;
        let token = match Request::parse_token(&mut bytes) {
            Ok(token) => token,
            Err(e) => {
                return Err(e);
            },
        };
        proof {
            lemma_field_bytes(FieldKind::Token, unread(buf));
            let field = field_bytes(FieldKind::Token, unread(buf));
            assert(all_ascii(field)) by {
                assert forall|i: int| 0 <= i < field.len() implies #[trigger] field[i] < 0x80 by {
                    assert(fits_field(FieldKind::Token, unread(buf)[i]));
                }
            }
            lemma_ascii_is_utf8(field);
        }
        let method = match Method::try_from(token.as_str()) {
            Ok(method) => method,
            Err(_) => {
                return Err(RequestError::Method);
            },
        };
        self.method = Some(method);
        let path = match Request::parse_uri(&mut bytes) {
            Ok(path) => path,
            Err(e) => {
                return Err(e);
            },
        };
        self.path = Some(path);
        let version = match Request::parse_version(&mut bytes) {
            Ok(version) => version,
            Err(e) => {
                return Err(e);
            },
        };
        self.version = Some(version);
        match Request::parse_new_line(&mut bytes) {
            Ok(_) => {},
            Err(e) => {
                return Err(e);
            },
        }
        let _ = Request::parse_headers(&mut bytes, &mut self.headers);
        if remaining(&bytes) == 0 {
            return Ok(());
        }
        match Request::parse_new_line(&mut bytes) {
            Ok(_) => {},
            Err(e) => {
                return Err(e);
            },
        }
        let rest = remaining(&bytes);
        if rest != 0 {
            self.body = copy_prefix(&bytes, rest);
            assert(unread(bytes).take(rest as int) =~= unread(bytes));
        }
        Ok(())
    }
}

/// Whether every byte of `field` may stand inside a field of the given kind
/// and none of them ends it.
pub open spec fn well_formed_field(kind: FieldKind, field: Seq<u8>) -> bool {
    forall|i: int|
        0 <= i < field.len() ==> fits_field(kind, #[trigger] field[i]) && !ends_field(kind, field[i])
}

/// Whether `ending` is one of the two line ends: `\r\n` or a bare `\n`.
pub open spec fn is_line_end(ending: Seq<u8>) -> bool {
    ending == seq![CR, LF] || ending == seq![LF]
}

/// The bytes of a request line without its line end: the method's name, the
/// path and the version, with one space between them.
pub open spec fn request_line(method: Method, path: Seq<u8>, minor: u8) -> Seq<u8> {
    method_name(method) + seq![SPACE] + path + seq![SPACE] + version_text(minor)
}

/// The bytes of a header line: the name, a colon, a space, the value and the
/// line end.
pub open spec fn header_line_bytes(name: Seq<u8>, value: Seq<u8>, ending: Seq<u8>) -> Seq<u8> {
    name + seq![COLON, SPACE] + value + ending
}

/// A well-formed field that is followed by the byte that ends it is found
/// whole.
pub proof fn lemma_field_found(kind: FieldKind, field: Seq<u8>, rest: Seq<u8>)
    requires
        well_formed_field(kind, field),
        rest.len() > 0,
        ends_field(kind, rest[0]),
    ensures
        field_length(kind, field + rest) == field.len(),
        field_closed(kind, field + rest),
        field_bytes(kind, field + rest) == field,
    decreases field.len(),
{
    let s = field + rest;
    if field.len() == 0 {
        assert(s[0] == rest[0]);
    } else {
        assert(s[0] == field[0]);
        let shorter = field.drop_first();
        assert(well_formed_field(kind, shorter)) by {
            assert forall|i: int| 0 <= i < shorter.len() implies fits_field(
                kind,
                #[trigger] shorter[i],
            ) && !ends_field(kind, shorter[i]) by {
                assert(shorter[i] == field[i + 1]);
            }
        }
        lemma_field_found(kind, shorter, rest);
        assert(s.drop_first() =~= shorter + rest);
    }
    assert(s[field.len() as int] == rest[0]);
    assert(s.take(field.len() as int) =~= field);
}

/// Each method is the one that its own name denotes.
pub proof fn lemma_method_named(method: Method)
    ensures
        method_named(method_name(method)) == Some(method),
        well_formed_field(FieldKind::Token, method_name(method)),
{
    let name = method_name(method);
    let shouted = name.map_values(|b: u8| upper(b));
    assert(shouted =~= name);
    assert(method_name(Method::GET).len() == 3 && method_name(Method::GET)[1] == 0x45);
    assert(method_name(Method::PUT).len() == 3 && method_name(Method::PUT)[1] == 0x55);
    assert(method_name(Method::HEAD).len() == 4 && method_name(Method::HEAD)[0] == 0x48);
    assert(method_name(Method::POST).len() == 4 && method_name(Method::POST)[0] == 0x50);
    assert(method_name(Method::TRACE).len() == 5 && method_name(Method::TRACE)[0] == 0x54);
    assert(method_name(Method::PATCH).len() == 5 && method_name(Method::PATCH)[0] == 0x50);
    assert(method_name(Method::DELETE).len() == 6);
    assert(method_name(Method::CONNECT).len() == 7 && method_name(Method::CONNECT)[0] == 0x43);
    assert(method_name(Method::OPTIONS).len() == 7 && method_name(Method::OPTIONS)[0] == 0x4f);
}

/// What the parser makes of a line end on its own, followed by nothing:
/// there is no header in it, and a request may end with it.
proof fn lemma_tail_of_bare_line_end(request: RequestView, ending: Seq<u8>)
    requires
        ending == seq![CR, LF, CR, LF] || is_line_end(ending),
    ensures
        tail_model(request, ending) == (request, Ok::<(), RequestError>(())),
{
    let after = new_line_model(ending).1;
    assert(new_line_model(ending).0.is_ok());
    if ending == seq![CR, LF, CR, LF] {
        assert(after =~= seq![CR, LF]);
        assert(after[0] == CR);
        assert(field_length(FieldKind::HeaderName, after) == 0);
        assert(header_model(after).0.is_err());
        assert(header_model(after).1 == after);
        assert(headers_model(after, request.headers) == (request.headers, after));
        assert(new_line_model(after).1 =~= Seq::<u8>::empty());
    } else {
        assert(after =~= Seq::<u8>::empty());
        assert(field_length(FieldKind::HeaderName, after) == 0);
        assert(headers_model(after, request.headers) == (request.headers, after));
    }
    let done = tail_model(request, ending).0;
    assert(done.headers == request.headers);
}

/// A well-formed field, the byte that ends it, and whatever follows: the
/// field is read, and what follows is left.
pub proof fn lemma_field_read(
    kind: FieldKind,
    failure: RequestError,
    field: Seq<u8>,
    stop: u8,
    rest: Seq<u8>,
)
    requires
        well_formed_field(kind, field),
        ends_field(kind, stop),
    ensures
        field_model(kind, failure, field + seq![stop] + rest) == (
            Ok::<Seq<char>, RequestError>(ascii_text(field)),
            rest,
        ),
        field_bytes(kind, field + seq![stop] + rest) == field,
{
    let s = field + seq![stop] + rest;
    let after = seq![stop] + rest;
    assert(s =~= field + after);
    assert(after[0] == stop);
    lemma_field_found(kind, field, after);
    assert(s.skip(field.len() as int + 1) =~= rest);
}

/// The version, written out and followed by anything, is read, and what
/// follows is left.
pub proof fn lemma_version_read(minor: u8, rest: Seq<u8>)
    requires
        minor <= 1,
    ensures
        version_model(version_text(minor) + rest) == (Ok::<u8, RequestError>(minor), rest),
{
    let s = version_text(minor) + rest;
    assert(s.take(8) =~= version_text(minor));
    assert(s.skip(8) =~= rest);
    assert(version_text(0)[7] != version_text(1)[7]);
}

/// What the parser makes of a request line that is written as
/// [`request_line`] writes it, whatever follows it: the method, the path and
/// the version are stored as they were written, and the rest is read as the
/// tail of the request.
proof fn lemma_request_line_read(
    request: RequestView,
    method: Method,
    path: Seq<u8>,
    minor: u8,
    tail: Seq<u8>,
)
    requires
        well_formed_field(FieldKind::Uri, path),
        minor <= 1,
    ensures
        request_model(request, request_line(method, path, minor) + tail) == tail_model(
            RequestView {
                method: Some(method),
                path: Some(ascii_text(path)),
                version: Some(minor),
                ..request
            },
            tail,
        ),
{
    let name = method_name(method);
    let s = request_line(method, path, minor) + tail;
    let after_uri = version_text(minor) + tail;
    let after_token = path + seq![SPACE] + after_uri;
    assert(s =~= name + seq![SPACE] + after_token);
    assert(token_model(s) == (Ok::<Seq<char>, RequestError>(ascii_text(name)), after_token)
        && field_bytes(FieldKind::Token, s) == name) by {
        lemma_method_named(method);
        lemma_field_read(FieldKind::Token, RequestError::Token, name, SPACE, after_token);
    }
    assert(method_named(name) == Some(method)) by {
        lemma_method_named(method);
    }
    assert(uri_model(after_token) == (Ok::<Seq<char>, RequestError>(ascii_text(path)), after_uri))
        by {
        lemma_field_read(FieldKind::Uri, RequestError::URI, path, SPACE, after_uri);
    }
    assert(version_model(after_uri) == (Ok::<u8, RequestError>(minor), tail)) by {
        lemma_version_read(minor, tail);
    }
}

/// A request that holds a request line and ends with `\r\n\r\n`, or with a
/// single line end, parses, and the method, the path and the version that
/// come out are those that were written. Headers and body stay as they were.
pub proof fn lemma_request_line_recovered(
    request: RequestView,
    method: Method,
    path: Seq<u8>,
    minor: u8,
    ending: Seq<u8>,
)
    requires
        well_formed_field(FieldKind::Uri, path),
        minor <= 1,
        ending == seq![CR, LF, CR, LF] || is_line_end(ending),
    ensures
        request_model(request, request_line(method, path, minor) + ending) == (
            RequestView {
                method: Some(method),
                path: Some(ascii_text(path)),
                version: Some(minor),
                ..request
            },
            Ok::<(), RequestError>(()),
        ),
{
    lemma_request_line_read(request, method, path, minor, ending);
    lemma_tail_of_bare_line_end(
        RequestView {
            method: Some(method),
            path: Some(ascii_text(path)),
            version: Some(minor),
            ..request
        },
        ending,
    );
}

/// A request whose request line ends with a carriage return that no line
/// feed follows does not parse: a line end is missing.
pub proof fn lemma_lone_carriage_return_fails(
    request: RequestView,
    method: Method,
    path: Seq<u8>,
    minor: u8,
)
    requires
        well_formed_field(FieldKind::Uri, path),
        minor <= 1,
    ensures
        request_model(request, request_line(method, path, minor) + seq![CR]).1 == Err::<
            (),
            RequestError,
        >(RequestError::NewLine),
{
    lemma_request_line_read(request, method, path, minor, seq![CR]);
}

/// A well-formed header value and its line end, followed by anything: the
/// value is read, and what follows is left.
pub proof fn lemma_header_value_read(value: Seq<u8>, ending: Seq<u8>, rest: Seq<u8>)
    requires
        well_formed_field(FieldKind::HeaderValue, value),
        is_line_end(ending),
    ensures
        header_value_model(value + ending + rest) == (Ok::<Seq<u8>, RequestError>(value), rest),
{
    let s = value + ending + rest;
    let at_end = ending + rest;
    assert(s =~= value + at_end);
    assert(at_end[0] == ending[0]);
    lemma_field_found(FieldKind::HeaderValue, value, at_end);
    assert(s.skip(value.len() as int) =~= at_end);
    assert(new_line_model(at_end) == (Ok::<(), RequestError>(()), rest)) by {
        if ending == seq![CR, LF] {
            assert(at_end[1] == LF);
            assert(at_end.skip(2) =~= rest);
        } else {
            assert(at_end.skip(1) =~= rest);
        }
    }
}

/// A well-formed header line, followed by anything: the header is read, and
/// what follows is left.
pub proof fn lemma_header_read(name: Seq<u8>, value: Seq<u8>, ending: Seq<u8>, rest: Seq<u8>)
    requires
        well_formed_field(FieldKind::HeaderName, name),
        well_formed_field(FieldKind::HeaderValue, value),
        is_line_end(ending),
    ensures
        header_model(header_line_bytes(name, value, ending) + rest) == (
            Ok::<(Seq<char>, Seq<u8>), RequestError>((ascii_text(name), value)),
            rest,
        ),
        rest.len() < (header_line_bytes(name, value, ending) + rest).len(),
{
    let s = header_line_bytes(name, value, ending) + rest;
    let at_value = value + ending + rest;
    let at_space = seq![SPACE] + at_value;
    assert(s =~= name + seq![COLON] + at_space);
    assert(header_name_model(s) == (Ok::<Seq<char>, RequestError>(ascii_text(name)), at_space)) by {
        lemma_field_read(FieldKind::HeaderName, RequestError::HeaderName, name, COLON, at_space);
    }
    assert(space_model(at_space) == (Ok::<(), RequestError>(()), at_value)) by {
        assert(at_space[0] == SPACE);
        assert(at_space.skip(1) =~= at_value);
    }
    assert(header_value_model(at_value) == (Ok::<Seq<u8>, RequestError>(value), rest)) by {
        lemma_header_value_read(value, ending, rest);
    }
}

/// A well-formed header line at the front of a header block is read as the
/// header that it writes down, and the block goes on after it.
pub proof fn lemma_header_line_read(
    name: Seq<u8>,
    value: Seq<u8>,
    ending: Seq<u8>,
    rest: Seq<u8>,
    headers: Map<Seq<char>, Seq<u8>>,
)
    requires
        well_formed_field(FieldKind::HeaderName, name),
        well_formed_field(FieldKind::HeaderValue, value),
        is_line_end(ending),
    ensures
        headers_model(header_line_bytes(name, value, ending) + rest, headers) == headers_model(
            rest,
            headers.insert(ascii_text(name), value),
        ),
{
    lemma_header_read(name, value, ending, rest);
}

/// Two header lines with different names may stand in either order: the
/// headers that come out of the block are the same.
pub proof fn lemma_header_order_irrelevant(
    name1: Seq<u8>,
    value1: Seq<u8>,
    ending1: Seq<u8>,
    name2: Seq<u8>,
    value2: Seq<u8>,
    ending2: Seq<u8>,
    rest: Seq<u8>,
    headers: Map<Seq<char>, Seq<u8>>,
)
    requires
        well_formed_field(FieldKind::HeaderName, name1),
        well_formed_field(FieldKind::HeaderValue, value1),
        is_line_end(ending1),
        well_formed_field(FieldKind::HeaderName, name2),
        well_formed_field(FieldKind::HeaderValue, value2),
        is_line_end(ending2),
        name1 != name2,
    ensures
        headers_model(
            header_line_bytes(name1, value1, ending1) + header_line_bytes(name2, value2, ending2)
                + rest,
            headers,
        ) == headers_model(
            header_line_bytes(name2, value2, ending2) + header_line_bytes(name1, value1, ending1)
                + rest,
            headers,
        ),
{
    let line1 = header_line_bytes(name1, value1, ending1);
    let line2 = header_line_bytes(name2, value2, ending2);
    let text1 = ascii_text(name1);
    let text2 = ascii_text(name2);
    let one_two = headers.insert(text1, value1).insert(text2, value2);
    let two_one = headers.insert(text2, value2).insert(text1, value1);
    assert(headers_model(line1 + line2 + rest, headers) == headers_model(rest, one_two)) by {
        assert(line1 + line2 + rest =~= line1 + (line2 + rest));
        lemma_header_line_read(name1, value1, ending1, line2 + rest, headers);
        lemma_header_line_read(name2, value2, ending2, rest, headers.insert(text1, value1));
    }
    assert(headers_model(line2 + line1 + rest, headers) == headers_model(rest, two_one)) by {
        assert(line2 + line1 + rest =~= line2 + (line1 + rest));
        lemma_header_line_read(name2, value2, ending2, line1 + rest, headers);
        lemma_header_line_read(name1, value1, ending1, rest, headers.insert(text2, value2));
    }
    assert(text1 != text2) by {
        if text1 == text2 {
            lemma_ascii_text_injective(name1, name2);
        }
    }
    assert(one_two =~= two_one);
}

/// Of two header lines with one name the later one wins: the headers that
/// come out of the block are those of the block without the earlier line.
pub proof fn lemma_last_header_wins(
    name: Seq<u8>,
    value1: Seq<u8>,
    ending1: Seq<u8>,
    value2: Seq<u8>,
    ending2: Seq<u8>,
    rest: Seq<u8>,
    headers: Map<Seq<char>, Seq<u8>>,
)
    requires
        well_formed_field(FieldKind::HeaderName, name),
        well_formed_field(FieldKind::HeaderValue, value1),
        is_line_end(ending1),
        well_formed_field(FieldKind::HeaderValue, value2),
        is_line_end(ending2),
    ensures
        headers_model(
            header_line_bytes(name, value1, ending1) + header_line_bytes(name, value2, ending2)
                + rest,
            headers,
        ) == headers_model(header_line_bytes(name, value2, ending2) + rest, headers),
{
    let line1 = header_line_bytes(name, value1, ending1);
    let line2 = header_line_bytes(name, value2, ending2);
    let text = ascii_text(name);
    assert(headers_model(line1 + line2 + rest, headers) == headers_model(
        rest,
        headers.insert(text, value1).insert(text, value2),
    )) by {
        assert(line1 + line2 + rest =~= line1 + (line2 + rest));
        lemma_header_line_read(name, value1, ending1, line2 + rest, headers);
        lemma_header_line_read(name, value2, ending2, rest, headers.insert(text, value1));
    }
    assert(headers_model(line2 + rest, headers) == headers_model(rest, headers.insert(text, value2)))
        by {
        lemma_header_line_read(name, value2, ending2, rest, headers);
    }
    assert(headers.insert(text, value1).insert(text, value2) =~= headers.insert(text, value2));
}

} // verus!

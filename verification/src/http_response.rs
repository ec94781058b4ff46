//! The response builder: status, content type, headers and body are
//! gathered, and `build` writes them out as the bytes of an HTTP/1.1
//! response.

use crate::buffer::{buffer_len, buffer_to_vec, new_buffer, put_slice, written};
use crate::sorted_map::{lemma_sorted_listing, sorted_listing, SortedMap};
use crate::text::{
    all_ascii, append_bytes, ascii_text, decimal, decimal_digits, decimal_text, decimal_value,
    lemma_ascii_is_utf8, lemma_decimal_round_trip,
};
use bytes::BytesMut;
use httpstatus::StatusCode;
use vstd::prelude::*;
use vstd::utf8::encode_utf8;

verus! {

/// The reason phrase that `httpstatus` gives for a status code.
pub uninterp spec fn reason_phrase(code: u16) -> Seq<char>;

/// `StatusCode::from` and then `StatusCode::reason_phrase`: the reason
/// phrase of the status with the given number, which depends on the number
/// alone. A number that names no standard status has the empty phrase.
#[verifier::external_body]
fn reason_phrase_of(code: u16) -> (phrase: &'static str)
    ensures
        phrase@ == reason_phrase(code),
{
    StatusCode::from(code).reason_phrase()
}

/// The status of a response that nothing has gone wrong with.
pub const OK: u16 = 200;

/// The status of a response to a request whose handler failed.
pub const INTERNAL_SERVER_ERROR: u16 = 500;

/// A response in the making.
pub struct ResponseBuilder {
    status_code: u16,
    content_type: String,
    headers: SortedMap<String>,
    body: BytesMut,
}

/// A map of strings as a map of their texts.
pub open spec fn text_values(map: Map<Seq<char>, String>) -> Map<Seq<char>, Seq<char>> {
    map.map_values(|value: String| value@)
}

/// What a response builder holds.
pub struct ResponseView {
    pub status_code: u16,
    pub content_type: Seq<char>,
    pub headers: Map<Seq<char>, Seq<char>>,
    pub body: Seq<u8>,
}

impl View for ResponseBuilder {
    type V = ResponseView;

    closed spec fn view(&self) -> ResponseView {
        ResponseView {
            status_code: self.status_code,
            content_type: self.content_type@,
            headers: text_values(self.headers@),
            body: written(self.body),
        }
    }
}

/// What a fresh response builder holds: status 200, content type
/// `text/plain`, no headers, an empty body.
pub open spec fn fresh_response() -> ResponseView {
    ResponseView {
        status_code: OK,
        content_type: "text/plain"@,
        headers: Map::empty(),
        body: Seq::empty(),
    }
}

/// The content type that is sent: `text/plain` where none is set.
pub open spec fn sent_content_type(content_type: Seq<char>) -> Seq<char> {
    if content_type.len() == 0 {
        "text/plain"@
    } else {
        content_type
    }
}

/// The headers that are sent: those that were set, with `Content-Type` and
/// `Content-Length` put in their place whatever was set under these names.
pub open spec fn sent_headers(response: ResponseView) -> Map<Seq<char>, Seq<char>> {
    response.headers.insert("Content-Type"@, sent_content_type(response.content_type)).insert(
        "Content-Length"@,
        ascii_text(decimal_digits(response.body.len())),
    )
}

/// The status line for a status code and its reason phrase.
pub open spec fn status_line(code: u16, reason: Seq<char>) -> Seq<u8> {
    encode_utf8("HTTP/1.1 "@) + decimal_digits(code as nat) + encode_utf8(" "@) + encode_utf8(reason)
        + encode_utf8("\r\n"@)
}

/// One header line.
pub open spec fn header_line(name: Seq<char>, value: Seq<char>) -> Seq<u8> {
    encode_utf8(name) + encode_utf8(": "@) + encode_utf8(value) + encode_utf8("\r\n"@)
}

/// The lines of the headers with the given names, in the order of `names`.
pub open spec fn header_lines(headers: Map<Seq<char>, Seq<char>>, names: Seq<Seq<char>>) -> Seq<u8>
    decreases names.len(),
{
    if names.len() == 0 {
        Seq::empty()
    } else {
        header_lines(headers, names.drop_last()) + header_line(names.last(), headers[names.last()])
    }
}

/// Everything of a response before its body: the status line, the headers
/// in the byte-wise order of their names, and a blank line.
pub open spec fn response_head(response: ResponseView, reason: Seq<char>) -> Seq<u8> {
    status_line(response.status_code, reason) + header_lines(
        sent_headers(response),
        sorted_listing(sent_headers(response).dom()),
    ) + encode_utf8("\r\n"@)
}

/// The bytes of a response, for a given reason phrase.
pub open spec fn response_bytes(response: ResponseView, reason: Seq<char>) -> Seq<u8> {
    response_head(response, reason) + response.body
}

impl Default for ResponseBuilder {
    fn default() -> (response: Self)
        ensures
            response@ == fresh_response(),
    {
        let response = ResponseBuilder {
            status_code: OK,
            content_type: "text/plain".to_owned(),
            headers: SortedMap::new(),
            body: new_buffer(),
        };
        assert(response@.headers =~= Map::<Seq<char>, Seq<char>>::empty());
        response
    }
}

impl From<ResponseBuilder> for Vec<u8> {
    /// The bytes of the response that `builder` holds.
    fn from(builder: ResponseBuilder) -> (out: Vec<u8>)
        ensures
            out@ == response_bytes(builder@, reason_phrase(builder@.status_code)),
    {
        builder.build()
    }
}

impl vstd::std_specs::convert::FromSpecImpl<ResponseBuilder> for Vec<u8> {
    open spec fn obeys_from_spec() -> bool {
        false
    }

    open spec fn from_spec(builder: ResponseBuilder) -> Vec<u8> {
        arbitrary()
    }
}

impl ResponseBuilder {
    /// A fresh response builder.
    pub fn new() -> (response: Self)
        ensures
            response@ == fresh_response(),
    {
        Default::default()
    }

    /// Sets the status code, and hands the builder back for the next call.
    pub fn status_code(&mut self, status: u16) -> (same: &mut Self)
        ensures
            same@ == (ResponseView { status_code: status, ..old(self)@ }),
            *final(self) == *final(same),
    {
        self.status_code = status;
        self
    }

    /// Sets the content type, and hands the builder back for the next call.
    pub fn content_type(&mut self, content_type: String) -> (same: &mut Self)
        ensures
            same@ == (ResponseView { content_type: content_type@, ..old(self)@ }),
            *final(self) == *final(same),
    {
        self.content_type = content_type;
        self
    }

    /// Appends `src` to the body.
    pub fn write(&mut self, src: &[u8])
        ensures
            final(self)@ == (ResponseView { body: old(self)@.body + src@, ..old(self)@ }),
    {
        put_slice(&mut self.body, src)
    }

    /// Sets a header, and says by `Some` that the header was set before.
    pub fn set_header(&mut self, key: &str, value: &str) -> (replaced: Option<()>)
        ensures
            final(self)@ == (ResponseView {
                headers: old(self)@.headers.insert(key@, value@),
                ..old(self)@
            }),
            replaced.is_some() == old(self)@.headers.contains_key(key@),
    {
        let replaced = match self.headers.insert(key.to_owned(), value.to_owned()) {
            Some(_) => Some(()),
            None => None,
        };
        assert(text_values(self.headers@) =~= text_values(old(self).headers@).insert(key@, value@));
        assert(text_values(old(self).headers@).contains_key(key@) == old(self).headers@.contains_key(
            key@,
        ));
        replaced
    }

    /// The bytes of the response, with `reason` as the reason phrase of its
    /// status. The builder stays as it is.
    pub fn build_with_reason(&self, reason: &str) -> (out: Vec<u8>)
        ensures
            out@ == response_bytes(self@, reason@),
    {
        let mut response: Vec<u8> = Vec::new();
        append_bytes(&mut response, "HTTP/1.1 ".as_bytes());
        let code = decimal(self.status_code as usize);
        append_bytes(&mut response, code.as_slice());
        append_bytes(&mut response, " ".as_bytes());
        append_bytes(&mut response, reason.as_bytes());
        append_bytes(&mut response, "\r\n".as_bytes());
        assert(response@ =~= status_line(self@.status_code, reason@));

        let content_length = buffer_len(&self.body);
        let content_type = if !self.content_type.as_str().is_empty() {
            self.content_type.clone()
        } else {
            "text/plain".to_owned()
        };

        let mut headers = self.headers.clone();
        assert(text_values(headers@) =~= self@.headers);
        let ghost cloned_headers = headers@;
        headers.insert("Content-Type".to_owned(), content_type);
        let ghost typed_headers = headers@;
        headers.insert("Content-Length".to_owned(), decimal_text(content_length));
        let ghost sent = text_values(headers@);
        proof {
            assert(text_values(typed_headers) =~= text_values(cloned_headers).insert(
                "Content-Type"@,
                sent_content_type(self@.content_type),
            ));
            assert(sent =~= text_values(typed_headers).insert(
                "Content-Length"@,
                ascii_text(decimal_digits(self@.body.len())),
            ));
            assert(sent == sent_headers(self@));
            assert(sent.dom() =~= headers@.dom());
        }

        let entries = headers.entries();
        let ghost names = sorted_listing(sent.dom());
        let mut i: usize = 0;
        assert(names.take(0) =~= Seq::<Seq<char>>::empty());
        while i < entries.len()
            invariant
                i <= entries@.len(),
                entries@.len() == names.len(),
                forall|k: int|
                    0 <= k < entries@.len() ==> {
                        &&& (#[trigger] entries@[k]).0@ == names[k]
                        &&& entries@[k].1@ == sent[entries@[k].0@]
                    },
                response@ == status_line(self@.status_code, reason@) + header_lines(
                    sent,
                    names.take(i as int),
                ),
            decreases entries@.len() - i,
        {
            let ghost before = response@;
            append_bytes(&mut response, entries[i].0.as_str().as_bytes());
            append_bytes(&mut response, ": ".as_bytes());
            append_bytes(&mut response, entries[i].1.as_str().as_bytes());
            append_bytes(&mut response, "\r\n".as_bytes());
            proof {
                let upto = names.take(i + 1);
                assert(upto.drop_last() =~= names.take(i as int));
                assert(upto.last() == names[i as int]);
                assert(response@ =~= before + header_line(names[i as int], sent[names[i as int]]));
                assert(before + header_line(names[i as int], sent[names[i as int]]) =~= status_line(
                    self@.status_code,
                    reason@,
                ) + header_lines(sent, upto));
            }
            i += 1;
        }
        assert(names.take(i as int) =~= names);
        append_bytes(&mut response, "\r\n".as_bytes());
        let body = buffer_to_vec(&self.body);
        append_bytes(&mut response, body.as_slice());
        response
    }

    /// The bytes of the response: the status line with the reason phrase of
    /// the status, the headers, a blank line and the body. The builder stays
    /// as it is, so building twice gives the same bytes.
    pub fn build(&self) -> (out: Vec<u8>)
        ensures
            out@ == response_bytes(self@, reason_phrase(self@.status_code)),
    {
        self.build_with_reason(reason_phrase_of(self.status_code))
    }
}


/// The lines of two runs of names are the lines of the first run, then
/// those of the second.
pub proof fn lemma_header_lines_split(
    headers: Map<Seq<char>, Seq<char>>,
    first: Seq<Seq<char>>,
    second: Seq<Seq<char>>,
)
    ensures
        header_lines(headers, first + second) == header_lines(headers, first) + header_lines(
            headers,
            second,
        ),
    decreases second.len(),
{
    if second.len() == 0 {
        assert(first + second =~= first);
        assert(header_lines(headers, first) + Seq::<u8>::empty() =~= header_lines(headers, first));
    } else {
        lemma_header_lines_split(headers, first, second.drop_last());
        assert((first + second).drop_last() =~= first + second.drop_last());
        assert((first + second).last() == second.last());
        assert(header_lines(headers, first) + header_lines(headers, second.drop_last())
            + header_line(second.last(), headers[second.last()]) =~= header_lines(headers, first) + (
        header_lines(headers, second.drop_last()) + header_line(
            second.last(),
            headers[second.last()],
        )));
    }
}

/// The lines of the headers are the lines of those before position `at`,
/// then the line of the header at `at`, then the lines of those after it.
pub proof fn lemma_header_lines_at(
    headers: Map<Seq<char>, Seq<char>>,
    names: Seq<Seq<char>>,
    at: int,
)
    requires
        0 <= at < names.len(),
    ensures
        header_lines(headers, names) == header_lines(headers, names.take(at)) + header_line(
            names[at],
            headers[names[at]],
        ) + header_lines(headers, names.skip(at + 1)),
{
    let one = seq![names[at]];
    assert(names =~= names.take(at) + one + names.skip(at + 1));
    lemma_header_lines_split(headers, names.take(at) + one, names.skip(at + 1));
    lemma_header_lines_split(headers, names.take(at), one);
    assert(header_lines(headers, one) =~= header_line(names[at], headers[names[at]])) by {
        assert(one.drop_last() =~= Seq::<Seq<char>>::empty());
        assert(header_lines(headers, one.drop_last()) =~= Seq::<u8>::empty());
        assert(one.last() == names[at]);
    }
}

/// The `Content-Length` header that is sent holds the decimal numeral of
/// the length of the body, and that numeral denotes the length of the body.
pub proof fn lemma_content_length_sent(response: ResponseView)
    requires
        response.headers.dom().finite(),
    ensures
        sorted_listing(sent_headers(response).dom()).contains("Content-Length"@),
        sent_headers(response)["Content-Length"@] == ascii_text(
            decimal_digits(response.body.len()),
        ),
        encode_utf8(sent_headers(response)["Content-Length"@]) == decimal_digits(
            response.body.len(),
        ),
        decimal_value(decimal_digits(response.body.len())) == response.body.len(),
{
    let n = response.body.len();
    let sent = sent_headers(response);
    let digits = decimal_digits(n);
    assert(sent.dom() =~= response.headers.dom().insert("Content-Type"@).insert("Content-Length"@));
    lemma_sorted_listing(sent.dom());
    assert(sorted_listing(sent.dom()).to_set().contains("Content-Length"@));
    lemma_decimal_round_trip(n);
    assert(all_ascii(digits)) by {
        assert forall|i: int| 0 <= i < digits.len() implies #[trigger] digits[i] < 0x80 by {
            assert(0x30 <= decimal_digits(n)[i] <= 0x39);
        }
    }
    lemma_ascii_is_utf8(digits);
}

/// The `Content-Length` header of a response is the length of its body, and
/// so is the number of bytes after the head.
///
/// The line of the header stands among the header lines, at the place of
/// its name, and holds the decimal numeral of the length of the body. The
/// head ends with the line end of the last header line and one more, which
/// is the blank line, and the body is all that follows the head.
pub proof fn lemma_content_length_is_body_length(response: ResponseView, reason: Seq<char>)
    requires
        response.headers.dom().finite(),
    ensures
        ({
            let n = response.body.len();
            let sent = sent_headers(response);
            let names = sorted_listing(sent.dom());
            let at = names.index_of("Content-Length"@);
            let head = response_head(response, reason);
            let bytes = response_bytes(response, reason);
            &&& names.contains("Content-Length"@)
            &&& decimal_value(decimal_digits(n)) == n
            &&& head == status_line(response.status_code, reason) + (header_lines(
                sent,
                names.take(at),
            ) + (encode_utf8("Content-Length"@) + encode_utf8(": "@) + decimal_digits(n)
                + encode_utf8("\r\n"@)) + header_lines(sent, names.skip(at + 1))) + encode_utf8(
                "\r\n"@,
            )
            &&& head == status_line(response.status_code, reason) + (header_lines(
                sent,
                names.drop_last(),
            ) + (encode_utf8(names.last()) + encode_utf8(": "@) + encode_utf8(sent[names.last()])
                + encode_utf8("\r\n"@))) + encode_utf8("\r\n"@)
            &&& bytes == head + response.body
            &&& bytes.skip(head.len() as int) == response.body
            &&& bytes.len() - head.len() == n
        }),
{
    let sent = sent_headers(response);
    let names = sorted_listing(sent.dom());
    let head = response_head(response, reason);
    lemma_content_length_sent(response);
    let at = names.index_of("Content-Length"@);
    assert(names[at] == "Content-Length"@);
    lemma_header_lines_at(sent, names, at);
    assert(response_bytes(response, reason).skip(head.len() as int) =~= response.body);
}

} // verus!

//! Byte classes that gate the scanning loops of the request parser.

use vstd::prelude::*;

verus! {

/// Horizontal tab.
pub const TAB: u8 = 0x09;

/// Line feed.
pub const LF: u8 = 0x0a;

/// Carriage return.
pub const CR: u8 = 0x0d;

/// Space.
pub const SPACE: u8 = 0x20;

/// Colon, which ends a header name.
pub const COLON: u8 = 0x3a;

/// Delete, the one ASCII control byte above the printable range.
pub const DEL: u8 = 0x7f;

/// Request-line token bytes: printable ASCII, space included, DEL excluded.
pub open spec fn spec_is_token(b: u8) -> bool {
    0x1f < b < 0x7f
}

/// URI bytes: printable ASCII without space, `<` (0x3c) and `>` (0x3e).
pub open spec fn spec_is_uri_token(ch: u8) -> bool {
    0x21 <= ch <= 0x7e && ch != 0x3c && ch != 0x3e
}

/// Header-name bytes: letters, digits and the punctuation ``!#$%&'*+-.^_`|~``.
pub open spec fn spec_is_header_name_token(ch: u8) -> bool {
    ||| 0x30 <= ch <= 0x39  // 0-9
    ||| 0x41 <= ch <= 0x5a  // A-Z
    ||| 0x61 <= ch <= 0x7a  // a-z
    ||| ch == 0x21  // !
    ||| 0x23 <= ch <= 0x27  // # $ % & '
    ||| ch == 0x2a  // *
    ||| ch == 0x2b  // +
    ||| ch == 0x2d  // -
    ||| ch == 0x2e  // .
    ||| ch == 0x5e  // ^
    ||| ch == 0x5f  // _
    ||| ch == 0x60  // `
    ||| ch == 0x7c  // |
    ||| ch == 0x7e  // ~
}

/// Header-value bytes: horizontal tab and everything from space upwards but DEL.
pub open spec fn spec_is_header_value_token(ch: u8) -> bool {
    ch == TAB || (SPACE <= ch && ch != DEL)
}

/// Whether `b` may stand in a request-line token.
#[verifier::when_used_as_spec(spec_is_token)]
pub fn is_token(b: u8) -> (r: bool)
    ensures
        r == spec_is_token(b),
{
    b > 0x1f && b < 0x7f
}

/// Whether `ch` may stand in a request path.
#[verifier::when_used_as_spec(spec_is_uri_token)]
pub fn is_uri_token(ch: u8) -> (r: bool)
    ensures
        r == spec_is_uri_token(ch),
{
    if ch <= SPACE {
        false
    } else if ch == 0x3c || ch == 0x3e {
        false
    } else {
        ch <= 0x7e
    }
}

/// Whether `ch` may stand in a header name.
#[verifier::when_used_as_spec(spec_is_header_name_token)]
pub fn is_header_name_token(ch: u8) -> (r: bool)
    ensures
        r == spec_is_header_name_token(ch),
{
    (0x30 <= ch && ch <= 0x39) || (0x41 <= ch && ch <= 0x5a) || (0x61 <= ch && ch <= 0x7a)
        || ch == 0x21 || (0x23 <= ch && ch <= 0x27) || ch == 0x2a || ch == 0x2b || ch == 0x2d
        || ch == 0x2e || ch == 0x5e || ch == 0x5f || ch == 0x60 || ch == 0x7c || ch == 0x7e
}

/// Whether `ch` may stand in a header value.
#[verifier::when_used_as_spec(spec_is_header_value_token)]
pub fn is_header_value_token(ch: u8) -> (r: bool)
    ensures
        r == spec_is_header_value_token(ch),
{
    if ch == TAB {
        true
    } else if ch == DEL {
        false
    } else {
        ch >= SPACE
    }
}

} // verus!

//! The opening handshake of a WebSocket connection, and what is done with
//! the bytes that arrive after it.
//!
//! A request asks for the upgrade by the headers `Connection: Upgrade` and
//! `Upgrade: websocket`. It must then carry `Sec-WebSocket-Version` and
//! `Sec-WebSocket-Key`. The answer is a fixed `101 Switching Protocols`
//! response that carries the accept token of the key. Reading and writing
//! the connection is the caller's part.

use crate::buffer::{copy_prefix, remaining, unread};
use crate::http_request::{Headers, Request};
use crate::text::{append_bytes, rank, Rank};
use crate::websocket::frame::{describes, header_consumed, header_failure, FrameError, FrameHeader};
use crate::websocket::mask::{apply_mask, masked};
use base64::Engine;
use bytes::Bytes;
use sha1::{Digest, Sha1};
use vstd::prelude::*;
use vstd::utf8::encode_utf8;

verus! {

/// The SHA-1 digest of a byte string.
pub uninterp spec fn sha1_digest(data: Seq<u8>) -> Seq<u8>;

/// The base64 text of a byte string, in the standard alphabet with padding.
pub uninterp spec fn base64_text(data: Seq<u8>) -> Seq<char>;

/// `Sha1::digest` of the `sha1` crate: the SHA-1 digest of `data`.
#[verifier::external_body]
fn sha1_of(data: &[u8]) -> (digest: Vec<u8>)
    ensures
        digest@ == sha1_digest(data@),
{
    Sha1::digest(data).to_vec()
}

/// `Engine::encode` of the `base64` crate on its `STANDARD` engine: `data`
/// in base64, in the standard alphabet with padding.
#[verifier::external_body]
fn base64_of(data: &[u8]) -> (text: String)
    ensures
        text@ == base64_text(data@),
{
    base64::engine::general_purpose::STANDARD.encode(data)
}

/// Why a request that asks for the upgrade cannot have it.
#[derive(Debug, Clone, Copy, PartialEq, Eq, Structural)]
pub enum HandshakeError {
    /// The request has no `Sec-WebSocket-Version` header.
    MissingVersion,
    /// The request has no `Sec-WebSocket-Key` header.
    MissingKey,
}

impl HandshakeError {
    /// The message of each error.
    pub open spec fn spec_message(&self) -> Seq<char> {
        match self {
            HandshakeError::MissingVersion => "missing header Sec-WebSocket-Version"@,
            HandshakeError::MissingKey => "missing header Sec-WebSocket-Key"@,
        }
    }

    /// The message that describes this error.
    pub fn message(&self) -> (text: &'static str)
        ensures
            text@ == self.spec_message(),
    {
        match self {
            HandshakeError::MissingVersion => "missing header Sec-WebSocket-Version",
            HandshakeError::MissingKey => "missing header Sec-WebSocket-Key",
        }
    }

    /// The message as an owned string.
    pub fn to_string(&self) -> (text: String)
        ensures
            text@ == self.spec_message(),
    {
        self.message().to_owned()
    }
}

/// The identifier that the protocol has every key joined with.
pub open spec fn protocol_guid() -> Seq<u8> {
    encode_utf8("258EAFA5-E914-47DA-95CA-C5AB0DC85B11"@)
}

/// The accept token of a key: the base64 text of the SHA-1 digest of the key
/// joined with the protocol's identifier.
pub open spec fn accept_token_of(key: Seq<u8>) -> Seq<char> {
    base64_text(sha1_digest(key + protocol_guid()))
}

/// The response that accepts the upgrade, for a given accept token.
pub open spec fn upgrade_response_bytes(token: Seq<char>) -> Seq<u8> {
    encode_utf8(
        "HTTP/1.1 101 Switching Protocols\r\nUpgrade: websocket\r\nConnection: Upgrade\r\nSec-WebSocket-Accept: "@,
    ) + encode_utf8(token) + encode_utf8("\r\n\r\n"@)
}

/// Whether the headers ask for the upgrade: `Connection` is exactly
/// `Upgrade` and `Upgrade` is exactly `websocket`.
pub open spec fn asks_for_upgrade(headers: Map<Seq<char>, Seq<u8>>) -> bool {
    &&& headers.contains_key("Connection"@)
    &&& headers["Connection"@] == encode_utf8("Upgrade"@)
    &&& headers.contains_key("Upgrade"@)
    &&& headers["Upgrade"@] == encode_utf8("websocket"@)
}

/// What the handshake makes of the headers of a request: nothing where the
/// request does not ask for the upgrade, else the bytes to answer with, or
/// an error where a header that the upgrade needs is missing.
pub open spec fn handshake_model(headers: Map<Seq<char>, Seq<u8>>) -> Result<
    Option<Seq<u8>>,
    HandshakeError,
> {
    if !asks_for_upgrade(headers) {
        Ok(None)
    } else if !headers.contains_key("Sec-WebSocket-Version"@) {
        Err(HandshakeError::MissingVersion)
    } else if !headers.contains_key("Sec-WebSocket-Key"@) {
        Err(HandshakeError::MissingKey)
    } else {
        Ok(Some(upgrade_response_bytes(accept_token_of(headers["Sec-WebSocket-Key"@]))))
    }
}

/// Whether the header called `name` is there and has exactly the value
/// `wanted`.
fn header_is(headers: &Headers, name: &str, wanted: &str) -> (r: bool)
    ensures
        r == (headers@.contains_key(name@) && headers@[name@] == encode_utf8(wanted@)),
{
    match headers.get(name) {
        Some(value) => matches!(rank(value.as_slice(), wanted.as_bytes()), Rank::Same),
        None => false,
    }
}

/// The accept token of a key.
pub fn accept_token(key: &[u8]) -> (token: String)
    ensures
        token@ == accept_token_of(key@),
{
    let mut joined: Vec<u8> = Vec::new();
    append_bytes(&mut joined, key);
    append_bytes(&mut joined, "258EAFA5-E914-47DA-95CA-C5AB0DC85B11".as_bytes());
    assert(joined@ =~= key@ + protocol_guid());
    let digest = sha1_of(joined.as_slice());
    base64_of(digest.as_slice())
}

/// The response that accepts the upgrade with the given accept token.
pub fn upgrade_response(token: &str) -> (response: Vec<u8>)
    ensures
        response@ == upgrade_response_bytes(token@),
{
    let mut response: Vec<u8> = Vec::new();
    append_bytes(
        &mut response,
        "HTTP/1.1 101 Switching Protocols\r\nUpgrade: websocket\r\nConnection: Upgrade\r\nSec-WebSocket-Accept: ".as_bytes(),
    );
    append_bytes(&mut response, token.as_bytes());
    append_bytes(&mut response, "\r\n\r\n".as_bytes());
    response
}

/// Decides on the upgrade of a connection from the request that came over
/// it. `Ok(None)`: the request does not ask for the upgrade, and nothing is
/// to be done. `Ok(Some(bytes))`: the bytes are to be written to the
/// connection, and whatever arrives after them is WebSocket frames.
pub fn accept_websocket(request: &Request) -> (r: Result<Option<Vec<u8>>, HandshakeError>)
    ensures
        match r {
            Ok(Some(response)) => handshake_model(request@.headers) == Ok::<
                Option<Seq<u8>>,
                HandshakeError,
            >(Some(response@)),
            Ok(None) => handshake_model(request@.headers) == Ok::<Option<Seq<u8>>, HandshakeError>(
                None,
            ),
            Err(e) => handshake_model(request@.headers) == Err::<Option<Seq<u8>>, HandshakeError>(
                e,
            ),
        },
{
    if !header_is(&request.headers, "Connection", "Upgrade") {
        return Ok(None);
    }
    if !header_is(&request.headers, "Upgrade", "websocket") {
        return Ok(None);
    }
    if request.headers.get("Sec-WebSocket-Version").is_none() {
        return Err(HandshakeError::MissingVersion);
    }
    let key = match request.headers.get("Sec-WebSocket-Key") {
        Some(key) => key,
        None => {
            return Err(HandshakeError::MissingKey);
        },
    };
    let token = accept_token(key.as_slice());
    Ok(Some(upgrade_response(token.as_str())))
}

/// The payload after a frame header, as it is handed on: unmasked where the
/// header carries a mask key, else as it arrived.
pub open spec fn payload_model(header: FrameHeader, payload: Seq<u8>) -> Seq<u8> {
    match header.mask {
        Some(key) => masked(payload, key@),
        None => payload,
    }
}

/// Decodes what one read from an upgraded connection brought: the frame
/// header at the front of `buf`, and the bytes after it as the payload,
/// unmasked where the header carries a mask key. The cursor is left after
/// the header, or where decoding the header failed.
pub fn read_frame(buf: &mut Bytes) -> (r: Result<(FrameHeader, Vec<u8>), FrameError>)
    ensures
        unread(*final(buf)) == unread(*old(buf)).skip(header_consumed(unread(*old(buf))) as int),
        match r {
            Ok((header, payload)) => {
                &&& header_failure(unread(*old(buf))).is_none()
                &&& describes(header, unread(*old(buf)))
                &&& payload@ == payload_model(header, unread(*final(buf)))
            },
            Err(e) => header_failure(unread(*old(buf))) == Some(e),
        },
{
    let header = match FrameHeader::from_bytes(buf) {
        Ok(header) => header,
        Err(e) => {
            return Err(e);
        },
    };
    let len = remaining(buf);
    let mut data = copy_prefix(buf, len);
    assert(data@ =~= unread(*buf));
    if let Some(mask) = header.mask {
        apply_mask(&mut data, mask);
    }
    Ok((header, data))
}

} // verus!

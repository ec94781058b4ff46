use bytes::Bytes;
use webserver_from_scratch::http_request::Request;
use webserver_from_scratch::websocket::frame::{DataLength, FrameError, FrameHeader};
use webserver_from_scratch::websocket::mask::apply_mask;
use webserver_from_scratch::websocket::middleware::{
    accept_token, accept_websocket, read_frame, upgrade_response, HandshakeError,
};

fn decode(input: &'static [u8]) -> (Result<FrameHeader, FrameError>, Vec<u8>) {
    let mut buf = Bytes::from_static(input);
    let result = FrameHeader::from_bytes(&mut buf);
    (result, buf.to_vec())
}

#[test]
fn unmasked_text_frame_header() {
    let (result, rest) = decode(&[0x81, 0x05]);
    let header = result.expect("header");
    assert!(header.fin);
    assert!(!header.rsv1);
    assert!(!header.rsv2);
    assert!(!header.rsv3);
    assert_eq!(header.opcode, 1);
    assert_eq!(header.mask, None);
    assert_eq!(header.data_length, DataLength::Small(5));
    assert_eq!(header.header_length, 2);
    assert!(rest.is_empty());
}

#[test]
fn masked_frame_header() {
    let (result, rest) = decode(&[0x81, 0x85, 0x37, 0xfa, 0x21, 0x3d, 0x7f, 0x9f]);
    let header = result.expect("header");
    assert_eq!(header.header_length, 6);
    assert_eq!(header.mask, Some([0x37, 0xfa, 0x21, 0x3d]));
    assert_eq!(header.data_length, DataLength::Small(5));
    assert_eq!(rest, vec![0x7f, 0x9f]);
}

#[test]
fn header_bits() {
    let (result, _) = decode(&[0x7a, 0x00]);
    let header = result.expect("header");
    assert!(!header.fin);
    assert!(header.rsv1);
    assert!(header.rsv2);
    assert!(header.rsv3);
    assert_eq!(header.opcode, 0x0a);
    assert_eq!(header.data_length, DataLength::Small(0));

    let header = decode(&[0x42, 0x7d]).0.expect("header");
    assert!(header.rsv1 && !header.rsv2 && !header.rsv3 && !header.fin);
    assert_eq!(header.opcode, 2);
    assert_eq!(header.data_length, DataLength::Small(125));

    let header = decode(&[0x28, 0x01]).0.expect("header");
    assert!(!header.rsv1 && header.rsv2 && !header.rsv3);
    let header = decode(&[0x1f, 0x01]).0.expect("header");
    assert!(!header.rsv1 && !header.rsv2 && header.rsv3);
    assert_eq!(header.opcode, 0x0f);
}

#[test]
fn medium_length() {
    let (result, rest) = decode(&[0x82, 0x7e, 0x01, 0x02, 0xaa]);
    let header = result.expect("header");
    assert_eq!(header.data_length, DataLength::Medium(0x0102));
    assert_eq!(header.header_length, 4);
    assert_eq!(header.mask, None);
    assert_eq!(rest, vec![0xaa]);

    let header = decode(&[0x82, 0x7e, 0xff, 0xff]).0.expect("header");
    assert_eq!(header.data_length, DataLength::Medium(0xffff));
}

#[test]
fn large_length() {
    let (result, rest) = decode(&[0x82, 0x7f, 1, 2, 3, 4, 5, 6, 7, 8]);
    let header = result.expect("header");
    assert_eq!(header.data_length, DataLength::Large(0x0102030405060708));
    assert_eq!(header.header_length, 10);
    assert!(rest.is_empty());

    let header = decode(&[0x82, 0x7f, 0xff, 0xff, 0xff, 0xff, 0xff, 0xff, 0xff, 0xff, 9])
        .0
        .expect("header");
    assert_eq!(header.data_length, DataLength::Large(u64::MAX));
}

#[test]
fn masked_frames_with_extended_length() {
    let (result, rest) = decode(&[0x82, 0xfe, 0x00, 0x80, 1, 2, 3, 4, 9, 9]);
    let header = result.expect("header");
    assert_eq!(header.data_length, DataLength::Medium(128));
    assert_eq!(header.mask, Some([1, 2, 3, 4]));
    assert_eq!(header.header_length, 8);
    assert_eq!(rest, vec![9, 9]);

    let (result, rest) = decode(&[0x82, 0xff, 0, 0, 0, 0, 0, 1, 0, 0, 5, 6, 7, 8]);
    let header = result.expect("header");
    assert_eq!(header.data_length, DataLength::Large(65536));
    assert_eq!(header.mask, Some([5, 6, 7, 8]));
    assert_eq!(header.header_length, 14);
    assert!(rest.is_empty());
}

#[test]
fn short_buffers_fail() {
    assert_eq!(decode(&[]), (Err(FrameError::HeaderTooShort), vec![]));
    assert_eq!(decode(&[0x81]), (Err(FrameError::HeaderTooShort), vec![0x81]));
    assert_eq!(decode(&[0x81, 0x7e, 0x01]), (Err(FrameError::LengthTooShort(1)), vec![0x01]));
    assert_eq!(decode(&[0x81, 0x7e]), (Err(FrameError::LengthTooShort(0)), vec![]));
    assert_eq!(
        decode(&[0x81, 0x7f, 1, 2, 3, 4, 5, 6, 7]),
        (Err(FrameError::LengthTooShort(7)), vec![1, 2, 3, 4, 5, 6, 7])
    );
    assert_eq!(decode(&[0x81, 0x85, 1, 2, 3]), (Err(FrameError::MaskTooShort), vec![1, 2, 3]));
    assert_eq!(decode(&[0x81, 0xfe, 0, 1, 9]), (Err(FrameError::MaskTooShort), vec![9]));
}

#[test]
fn frame_error_messages() {
    assert_eq!(FrameError::HeaderTooShort.to_string(), "header too short");
    assert_eq!(FrameError::LengthTooShort(3).message(), "payload: length too short");
    assert_eq!(FrameError::MaskTooShort.to_string(), "mask: length too small");
}

#[test]
fn mask_is_applied_byte_by_byte() {
    let mut data = vec![0x7f, 0x9f, 0x4d, 0x51, 0x58];
    apply_mask(&mut data, [0x37, 0xfa, 0x21, 0x3d]);
    assert_eq!(data, b"Hello".to_vec());

    let mut data = vec![0u8; 9];
    apply_mask(&mut data, [1, 2, 3, 4]);
    assert_eq!(data, vec![1, 2, 3, 4, 1, 2, 3, 4, 1]);

    let mut data: Vec<u8> = Vec::new();
    apply_mask(&mut data, [1, 2, 3, 4]);
    assert!(data.is_empty());
}

#[test]
fn masking_twice_gives_the_payload_back() {
    let payload: Vec<u8> = (0..=255).collect();
    let mut data = payload.clone();
    apply_mask(&mut data, [0xde, 0xad, 0xbe, 0xef]);
    assert_ne!(data, payload);
    apply_mask(&mut data, [0xde, 0xad, 0xbe, 0xef]);
    assert_eq!(data, payload);
}

#[test]
fn read_frame_unmasks_the_payload() {
    let mut buf = Bytes::from_static(&[0x81, 0x85, 0x37, 0xfa, 0x21, 0x3d, 0x7f, 0x9f, 0x4d, 0x51, 0x58]);
    let (header, payload) = read_frame(&mut buf).expect("frame");
    assert_eq!(header.opcode, 1);
    assert_eq!(header.header_length, 6);
    assert_eq!(payload, b"Hello".to_vec());
    assert_eq!(&buf[..], &[0x7f, 0x9f, 0x4d, 0x51, 0x58]);
}

#[test]
fn read_frame_leaves_an_unmasked_payload_as_it_is() {
    let mut buf = Bytes::from_static(&[0x81, 0x05, b'H', b'e', b'l', b'l', b'o']);
    let (header, payload) = read_frame(&mut buf).expect("frame");
    assert_eq!(header.mask, None);
    assert_eq!(payload, b"Hello".to_vec());
}

#[test]
fn read_frame_reports_a_broken_header() {
    let mut buf = Bytes::from_static(&[0x81, 0x85, 1]);
    assert_eq!(read_frame(&mut buf), Err(FrameError::MaskTooShort));
}

#[test]
fn accept_token_of_the_protocol_example() {
    assert_eq!(accept_token(b"dGhlIHNhbXBsZSBub25jZQ=="), "s3pPLMBiTxaQ9kYGzzhZRbK+xOo=");
    assert_eq!(accept_token(b"x3JJHMbDL1EzLkh9GBhXDw=="), "HSmrc0sMlYUkAGmm5OPpG2HaGWk=");
    assert_ne!(accept_token(b""), "");
}

#[test]
fn upgrade_response_carries_the_token() {
    assert_eq!(
        upgrade_response("abc="),
        b"HTTP/1.1 101 Switching Protocols\r\nUpgrade: websocket\r\nConnection: Upgrade\r\nSec-WebSocket-Accept: abc=\r\n\r\n"
            .to_vec()
    );
}

fn request_with(headers: &'static [u8]) -> Request {
    let mut request = Request::new();
    let mut text = b"GET /chat HTTP/1.1\r\n".to_vec();
    text.extend_from_slice(headers);
    text.extend_from_slice(b"\r\n");
    request.parse(Bytes::from(text)).expect("request");
    request
}

#[test]
fn handshake_accepts_an_upgrade_request() {
    let request = request_with(
        b"Host: example\r\nUpgrade: websocket\r\nConnection: Upgrade\r\nSec-WebSocket-Key: dGhlIHNhbXBsZSBub25jZQ==\r\nSec-WebSocket-Version: 13\r\n",
    );
    assert_eq!(
        accept_websocket(&request),
        Ok(Some(
            b"HTTP/1.1 101 Switching Protocols\r\nUpgrade: websocket\r\nConnection: Upgrade\r\nSec-WebSocket-Accept: s3pPLMBiTxaQ9kYGzzhZRbK+xOo=\r\n\r\n"
                .to_vec()
        ))
    );
}

#[test]
fn handshake_ignores_other_requests() {
    assert_eq!(accept_websocket(&request_with(b"Host: example\r\n")), Ok(None));
    assert_eq!(accept_websocket(&request_with(b"Connection: Upgrade\r\n")), Ok(None));
    assert_eq!(accept_websocket(&request_with(b"Upgrade: websocket\r\n")), Ok(None));
    assert_eq!(
        accept_websocket(&request_with(b"Connection: upgrade\r\nUpgrade: websocket\r\n")),
        Ok(None)
    );
    assert_eq!(
        accept_websocket(&request_with(b"Connection: Upgrade\r\nUpgrade: WebSocket\r\n")),
        Ok(None)
    );
    assert_eq!(
        accept_websocket(&request_with(b"Connection: keep-alive, Upgrade\r\nUpgrade: websocket\r\n")),
        Ok(None)
    );
    assert_eq!(
        accept_websocket(&request_with(b"connection: Upgrade\r\nupgrade: websocket\r\n")),
        Ok(None)
    );
}

#[test]
fn handshake_needs_version_and_key() {
    assert_eq!(
        accept_websocket(&request_with(b"Connection: Upgrade\r\nUpgrade: websocket\r\n")),
        Err(HandshakeError::MissingVersion)
    );
    assert_eq!(
        accept_websocket(&request_with(
            b"Connection: Upgrade\r\nUpgrade: websocket\r\nSec-WebSocket-Key: abc\r\n"
        )),
        Err(HandshakeError::MissingVersion)
    );
    assert_eq!(
        accept_websocket(&request_with(
            b"Connection: Upgrade\r\nUpgrade: websocket\r\nSec-WebSocket-Version: 13\r\n"
        )),
        Err(HandshakeError::MissingKey)
    );
    assert_eq!(
        HandshakeError::MissingVersion.to_string(),
        "missing header Sec-WebSocket-Version"
    );
    assert_eq!(HandshakeError::MissingKey.message(), "missing header Sec-WebSocket-Key");
}

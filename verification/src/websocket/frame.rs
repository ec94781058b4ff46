//! The header of a WebSocket frame.
//!
//! Byte 0 holds the final-fragment bit, three reserved bits and the opcode;
//! byte 1 the mask bit and a 7-bit length field. A length field of 126 is
//! followed by a 16-bit length, one of 127 by a 64-bit length, both
//! big-endian; a set mask bit by a 4-byte mask key.

use crate::buffer::{big_endian, get_u16, get_u64, get_u8, remaining, unread};
use bytes::Bytes;
use vstd::prelude::*;

verus! {

/// The payload length of a frame, in the encoding in which it arrived.
#[derive(Debug, Clone, Copy, PartialEq, Eq)]
pub enum DataLength {
    /// The 7-bit length field itself: at most 125.
    Small(u8),
    /// A 16-bit extended length.
    Medium(u16),
    /// A 64-bit extended length.
    Large(u64),
}

/// A decoded frame header.
#[derive(Debug, Clone, Copy, PartialEq, Eq)]
pub struct FrameHeader {
    pub fin: bool,
    pub rsv1: bool,
    pub rsv2: bool,
    pub rsv3: bool,
    pub opcode: u8,
    pub mask: Option<[u8; 4]>,
    pub data_length: DataLength,
    /// The number of bytes that the header takes; the payload starts there.
    pub header_length: u64,
}

/// Why a frame header could not be decoded.
#[derive(Debug, Clone, Copy, PartialEq, Eq)]
pub enum FrameError {
    /// Fewer than the two bytes that every header has.
    HeaderTooShort,
    /// The extended length is cut short; the number says how many bytes
    /// followed the first two.
    LengthTooShort(usize),
    /// The mask key is cut short.
    MaskTooShort,
}

/// How many bytes of extended length follow a second header byte.
pub open spec fn extended_length_size(second: u8) -> nat {
    if second & 0x7f == 127 {
        8
    } else if second & 0x7f == 126 {
        2
    } else {
        0
    }
}

/// How many bytes of mask key a second header byte announces.
pub open spec fn mask_size(second: u8) -> nat {
    if second & 0x80 != 0 {
        4
    } else {
        0
    }
}

/// The length of the header that starts with the given bytes; `s` holds at
/// least two.
pub open spec fn header_size(s: Seq<u8>) -> nat {
    2 + extended_length_size(s[1]) + mask_size(s[1])
}

/// The payload length that a header announces; `s` holds the whole header.
pub open spec fn announced_length(s: Seq<u8>) -> DataLength {
    if s[1] & 0x7f == 127 {
        DataLength::Large(big_endian(s.subrange(2, 10)) as u64)
    } else if s[1] & 0x7f == 126 {
        DataLength::Medium(big_endian(s.subrange(2, 4)) as u16)
    } else {
        DataLength::Small(s[1] & 0x7f)
    }
}

/// Whether `header` is what the whole header at the front of `s` says.
pub open spec fn describes(header: FrameHeader, s: Seq<u8>) -> bool {
    &&& header.fin == (s[0] & 0x80 != 0)
    &&& header.rsv1 == (s[0] & 0x40 != 0)
    &&& header.rsv2 == (s[0] & 0x20 != 0)
    &&& header.rsv3 == (s[0] & 0x10 != 0)
    &&& header.opcode == s[0] & 0x0f
    &&& header.data_length == announced_length(s)
    &&& header.header_length == header_size(s)
    &&& match header.mask {
        Some(key) => mask_size(s[1]) == 4 && key@ == s.subrange(
            2 + extended_length_size(s[1]) as int,
            header_size(s) as int,
        ),
        None => mask_size(s[1]) == 0,
    }
}

/// Why the header at the front of `s` cannot be decoded, if it cannot: the
/// first part of it that `s` is too short for.
pub open spec fn header_failure(s: Seq<u8>) -> Option<FrameError> {
    if s.len() < 2 {
        Some(FrameError::HeaderTooShort)
    } else if s.len() < 2 + extended_length_size(s[1]) {
        Some(FrameError::LengthTooShort((s.len() - 2) as usize))
    } else if s.len() < header_size(s) {
        Some(FrameError::MaskTooShort)
    } else {
        None
    }
}

/// How many bytes an attempt to decode the header at the front of `s`
/// consumes: the whole header, or on failure the parts before the one that
/// is cut short.
pub open spec fn header_consumed(s: Seq<u8>) -> nat {
    if s.len() < 2 {
        0
    } else if s.len() < 2 + extended_length_size(s[1]) {
        2
    } else if s.len() < header_size(s) {
        2 + extended_length_size(s[1])
    } else {
        header_size(s)
    }
}

impl FrameError {
    /// The message of each error.
    pub open spec fn spec_message(&self) -> Seq<char> {
        match self {
            FrameError::HeaderTooShort => "header too short"@,
            FrameError::LengthTooShort(_) => "payload: length too short"@,
            FrameError::MaskTooShort => "mask: length too small"@,
        }
    }

    /// The message that describes this error.
    pub fn message(&self) -> (text: &'static str)
        ensures
            text@ == self.spec_message(),
    {
        match self {
            FrameError::HeaderTooShort => "header too short",
            FrameError::LengthTooShort(_) => "payload: length too short",
            FrameError::MaskTooShort => "mask: length too small",
        }
    }

    /// The message as an owned string.
    pub fn to_string(&self) -> (text: String)
        ensures
            text@ == self.spec_message(),
    {
        self.message().to_owned()
    }
}

impl FrameHeader {
    /// Decodes the frame header at the front of `buf` and leaves the cursor
    /// at the payload.
    pub fn from_bytes(buf: &mut Bytes) -> (r: Result<FrameHeader, FrameError>)
        ensures
            unread(*final(buf)) == unread(*old(buf)).skip(header_consumed(unread(*old(buf))) as int),
            match r {
                Ok(header) => header_failure(unread(*old(buf))).is_none() && describes(
                    header,
                    unread(*old(buf)),
                ),
                Err(e) => header_failure(unread(*old(buf))) == Some(e),
            },
    {
        let ghost s = unread(*buf);
        if remaining(buf) < 2 {
            assert(s.skip(0) =~= s);
            return Err(FrameError::HeaderTooShort);
        }
        let first = get_u8(buf);
        let second = get_u8(buf);
        assert(unread(*buf) =~= s.skip(2));
        assert(first == s[0] && second == s[1]);

        let fin = (first & 0x80) != 0;
        let rsv1 = (first & 0x40) != 0;
        let rsv2 = (first & 0x20) != 0;
        let rsv3 = (first & 0x10) != 0;
        let masked = (second & 0x80) != 0;
        let opcode = first & 0x0f;

        let mut header_length: u64 = 2;
        let length_byte = second & 0x7f;

        let data_length = if length_byte == 127 {
            let left = remaining(buf);
            if left < 8 {
                return Err(FrameError::LengthTooShort(left));
            }
            header_length += 8;
            assert(s.skip(2).take(8) =~= s.subrange(2, 10));
            let length = get_u64(buf);
            assert(unread(*buf) =~= s.skip(10));
            DataLength::Large(length)
        } else if length_byte == 126 {
            let left = remaining(buf);
            if left < 2 {
                return Err(FrameError::LengthTooShort(left));
            }
            header_length += 2;
            assert(s.skip(2).take(2) =~= s.subrange(2, 4));
            let length = get_u16(buf);
            assert(unread(*buf) =~= s.skip(4));
            DataLength::Medium(length)
        } else {
            DataLength::Small(length_byte)
        };
        let ghost at = 2 + extended_length_size(second) as int;
        assert(unread(*buf) == s.skip(at));

        let mask = if masked {
            if remaining(buf) < 4 {
                return Err(FrameError::MaskTooShort);
            }
            header_length += 4;
            let key = [get_u8(buf), get_u8(buf), get_u8(buf), get_u8(buf)];
            assert(unread(*buf) =~= s.skip(at + 4));
            assert(key@ =~= s.subrange(at, at + 4));
            Some(key)
        } else {
            None
        };

        Ok(FrameHeader { fin, data_length, header_length, mask, opcode, rsv1, rsv2, rsv3 })
    }
}

} // verus!

use vstd::prelude::*;
use vstd::slice::slice_subrange;

use crate::decode::error::{DecodeError, FormatError};

verus! {

/// Length in bytes of the fixed header.
pub const HEADER_LEN: usize = 14;

/// The fixed header: image size and two tags passed through unchecked.
#[derive(Debug, Clone, Copy, PartialEq, Eq, Structural)]
pub struct QOIHeader {
    pub width: u32,
    pub height: u32,
    pub channels: u8,
    pub colorspace: u8,
}

/// The magic `qoif` that opens every image.
pub open spec fn magic() -> Seq<u8> {
    seq![0x71u8, 0x6Fu8, 0x69u8, 0x66u8]
}

/// `s` opens with the magic.
pub open spec fn has_magic(s: Seq<u8>) -> bool {
    s.len() >= 4 && s.take(4) == magic()
}

/// The big-endian unsigned integer held by the four bytes of `s` at `i`.
pub open spec fn be_u32_at(s: Seq<u8>, i: int) -> int {
    s[i] * 0x100_0000 + s[i + 1] * 0x1_0000 + s[i + 2] * 0x100 + s[i + 3]
}

/// The header that the first `HEADER_LEN` bytes of `s` describe.
pub open spec fn header_of(s: Seq<u8>) -> QOIHeader {
    QOIHeader {
        width: be_u32_at(s, 4) as u32,
        height: be_u32_at(s, 8) as u32,
        channels: s[12],
        colorspace: s[13],
    }
}

/// The four bytes of `v`, most significant first.
pub open spec fn be_bytes(v: u32) -> Seq<u8> {
    seq![(v / 0x100_0000) as u8, (v / 0x1_0000 % 0x100) as u8, (v / 0x100 % 0x100) as u8, (v % 0x100) as u8]
}

/// The bytes that encode header `h`.
pub open spec fn header_bytes(h: QOIHeader) -> Seq<u8> {
    magic() + be_bytes(h.width) + be_bytes(h.height) + seq![h.channels, h.colorspace]
}

/// Reads the big-endian integer at `i`.
fn read_be_u32(bytes: &[u8], i: usize) -> (v: u32)
    requires
        i + 4 <= bytes@.len(),
    ensures
        v as int == be_u32_at(bytes@, i as int),
{
    let b0 = bytes[i] as u32;
    let b1 = bytes[i + 1] as u32;
    let b2 = bytes[i + 2] as u32;
    let b3 = bytes[i + 3] as u32;
    b0 * 0x100_0000 + b1 * 0x1_0000 + b2 * 0x100 + b3
}

impl QOIHeader {
    /// A header with the given fields.
    pub fn new(width: u32, height: u32, channels: u8, colorspace: u8) -> (h: QOIHeader)
        ensures
            h.width == width,
            h.height == height,
            h.channels == channels,
            h.colorspace == colorspace,
    {
        QOIHeader { width, height, channels, colorspace }
    }

    /// Parses the header at the start of `bytes`: the magic, then width and
    /// height as big-endian `u32`, then the channel and colorspace bytes.
    /// Returns the header and the bytes that follow it.
    pub fn parse(bytes: &[u8]) -> (r: Result<(&[u8], QOIHeader), DecodeError>)
        ensures
            match r {
                Ok((rest, h)) => {
                    &&& has_magic(bytes@)
                    &&& bytes@.len() >= HEADER_LEN
                    &&& h == header_of(bytes@)
                    &&& rest@ == bytes@.skip(HEADER_LEN as int)
                },
                Err(e) => {
                    &&& !has_magic(bytes@) ==> e == DecodeError::Format(FormatError::Magic)
                    &&& has_magic(bytes@) ==> bytes@.len() < HEADER_LEN && e == DecodeError::Format(
                        FormatError::Truncated,
                    )
                },
            },
    {
        if bytes.len() < 4 || bytes[0] != 0x71 || bytes[1] != 0x6F || bytes[2] != 0x69 || bytes[3]
            != 0x66 {
            proof {
                if bytes@.len() >= 4 && bytes@.take(4) == magic() {
                    assert(bytes@.take(4)[0] == magic()[0]);
                    assert(bytes@.take(4)[1] == magic()[1]);
                    assert(bytes@.take(4)[2] == magic()[2]);
                    assert(bytes@.take(4)[3] == magic()[3]);
                }
            }
            return Err(DecodeError::Format(FormatError::Magic));
        }
        assert(bytes@.take(4) =~= magic());
        if bytes.len() < HEADER_LEN {
            return Err(DecodeError::Format(FormatError::Truncated));
        }
        let width = read_be_u32(bytes, 4);
        let height = read_be_u32(bytes, 8);
        let header = QOIHeader { width, height, channels: bytes[12], colorspace: bytes[13] };
        let rest = slice_subrange(bytes, HEADER_LEN, bytes.len());
        assert(rest@ =~= bytes@.skip(HEADER_LEN as int));
        Ok((rest, header))
    }

    pub fn height(&self) -> (r: u32)
        ensures
            r == self.height,
    {
        self.height
    }

    pub fn width(&self) -> (r: u32)
        ensures
            r == self.width,
    {
        self.width
    }

    pub fn channels(&self) -> (r: u8)
        ensures
            r == self.channels,
    {
        self.channels
    }

    pub fn colorspace(&self) -> (r: u8)
        ensures
            r == self.colorspace,
    {
        self.colorspace
    }
}

/// Decoding the bytes of any header gives that header back, and consumes
/// exactly those bytes.
pub proof fn lemma_header_round_trip(h: QOIHeader)
    ensures
        has_magic(header_bytes(h)),
        header_bytes(h).len() == HEADER_LEN,
        header_of(header_bytes(h)) == h,
{
    let s = header_bytes(h);
    assert(s.take(4) =~= magic());
    let w = h.width;
    let v = h.height;
    assert(((w / 0x100_0000) as u8) * 0x100_0000 + ((w / 0x1_0000 % 0x100) as u8) * 0x1_0000 + ((
    w / 0x100 % 0x100) as u8) * 0x100 + ((w % 0x100) as u8) == w) by (bit_vector);
    assert(((v / 0x100_0000) as u8) * 0x100_0000 + ((v / 0x1_0000 % 0x100) as u8) * 0x1_0000 + ((
    v / 0x100 % 0x100) as u8) * 0x100 + ((v % 0x100) as u8) == v) by (bit_vector);
}

} // verus!

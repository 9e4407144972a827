use vstd::prelude::*;
use vstd::slice::slice_subrange;

use crate::decode::error::{DecodeError, FormatError};

verus! {

/// Tag byte of a literal RGB chunk.
pub const QOI_RGB_CHUNK_TAG: u8 = 0xFE;

/// Tag byte of a literal RGBA chunk.
pub const QOI_RGBA_CHUNK_TAG: u8 = 0xFF;

#[derive(Debug, Clone, Copy, PartialEq, Eq, Structural)]
pub struct QOIRGBChunk {
    pub r: u8,
    pub g: u8,
    pub b: u8,
}

#[derive(Debug, Clone, Copy, PartialEq, Eq, Structural)]
pub struct QOIRGBAChunk {
    pub r: u8,
    pub g: u8,
    pub b: u8,
    pub a: u8,
}

/// A reference to a slot of the pixel cache.
#[derive(Debug, Clone, Copy, PartialEq, Eq, Structural)]
pub struct QOIOpIndexChunk {
    pub index: u8,
}

/// Small per-channel differences to the previous pixel, each in `-2..=1`.
#[derive(Debug, Clone, Copy, PartialEq, Eq, Structural)]
pub struct QOIOpDiffChunk {
    pub diff_r: i8,
    pub diff_g: i8,
    pub diff_b: i8,
}

/// A green difference in `-32..=31`, and the red and blue differences
/// relative to it, each in `-8..=7`.
#[derive(Debug, Clone, Copy, PartialEq, Eq, Structural)]
pub struct QOIOpLumaChunk {
    pub diff_g: i8,
    pub dr_dg: i8,
    pub db_dg: i8,
}

/// A run of copies of the previous pixel; `run` is the number of copies.
#[derive(Debug, Clone, Copy, PartialEq, Eq, Structural)]
pub struct QOIOpRunChunk {
    pub run: u8,
}

#[derive(Debug, Clone, Copy, PartialEq, Eq, Structural)]
pub enum QOIChunk {
    QOIRGBChunk(QOIRGBChunk),
    QOIRGBAChunk(QOIRGBAChunk),
    QOIOpIndexChunk(QOIOpIndexChunk),
    QOIOpDiffChunk(QOIOpDiffChunk),
    QOIOpLumaChunk(QOIOpLumaChunk),
    QOIOpRunChunk(QOIOpRunChunk),
}

/// The variant that a chunk's leading byte selects.
#[derive(Debug, Clone, Copy, PartialEq, Eq, Structural)]
pub enum ChunkTag {
    Rgb,
    Rgba,
    Index,
    Diff,
    Luma,
    Run,
}

/// The two high bits of `b`: the short tag of index, diff, luma and run chunks.
pub open spec fn short_tag(b: u8) -> u8 {
    b / 64
}

/// The variant selected by leading byte `b`: the two literal tag bytes
/// first, then the two high bits.
pub open spec fn tag_of(b: u8) -> ChunkTag {
    if b == QOI_RGB_CHUNK_TAG {
        ChunkTag::Rgb
    } else if b == QOI_RGBA_CHUNK_TAG {
        ChunkTag::Rgba
    } else if short_tag(b) == 0 {
        ChunkTag::Index
    } else if short_tag(b) == 1 {
        ChunkTag::Diff
    } else if short_tag(b) == 2 {
        ChunkTag::Luma
    } else {
        ChunkTag::Run
    }
}

/// Number of bytes a chunk occupies in the stream.
pub open spec fn encoded_len(c: QOIChunk) -> nat {
    match c {
        QOIChunk::QOIRGBChunk(_) => 4,
        QOIChunk::QOIRGBAChunk(_) => 5,
        QOIChunk::QOIOpLumaChunk(_) => 2,
        _ => 1,
    }
}

/// Number of bytes a chunk with the given tag occupies.
pub open spec fn tag_len(t: ChunkTag) -> nat {
    match t {
        ChunkTag::Rgb => 4,
        ChunkTag::Rgba => 5,
        ChunkTag::Luma => 2,
        _ => 1,
    }
}

pub open spec fn rgb_chunk_of(s: Seq<u8>) -> QOIChunk {
    QOIChunk::QOIRGBChunk(QOIRGBChunk { r: s[1], g: s[2], b: s[3] })
}

pub open spec fn rgba_chunk_of(s: Seq<u8>) -> QOIChunk {
    QOIChunk::QOIRGBAChunk(QOIRGBAChunk { r: s[1], g: s[2], b: s[3], a: s[4] })
}

/// Index chunk `00iiiiii`.
pub open spec fn index_chunk_of(b: u8) -> QOIChunk {
    QOIChunk::QOIOpIndexChunk(QOIOpIndexChunk { index: (b % 64) as u8 })
}

/// Diff chunk `01rrggbb`, each field biased by 2.
pub open spec fn diff_chunk_of(b: u8) -> QOIChunk {
    QOIChunk::QOIOpDiffChunk(
        QOIOpDiffChunk {
            diff_r: (b / 16 % 4 - 2) as i8,
            diff_g: (b / 4 % 4 - 2) as i8,
            diff_b: (b % 4 - 2) as i8,
        },
    )
}

/// Luma chunk `10gggggg rrrrbbbb`: green biased by 32, the others by 8.
pub open spec fn luma_chunk_of(b0: u8, b1: u8) -> QOIChunk {
    QOIChunk::QOIOpLumaChunk(
        QOIOpLumaChunk {
            diff_g: (b0 % 64 - 32) as i8,
            dr_dg: (b1 / 16 - 8) as i8,
            db_dg: (b1 % 16 - 8) as i8,
        },
    )
}

/// Run chunk `11llllll`, the length stored minus one.
pub open spec fn run_chunk_of(b: u8) -> QOIChunk {
    QOIChunk::QOIOpRunChunk(QOIOpRunChunk { run: (b % 64 + 1) as u8 })
}

/// The chunk at the start of `s`, if `s` holds a whole one.
pub open spec fn decode_chunk(s: Seq<u8>) -> Option<QOIChunk> {
    if s.len() == 0 || s.len() < tag_len(tag_of(s[0])) {
        None
    } else {
        Some(
            match tag_of(s[0]) {
                ChunkTag::Rgb => rgb_chunk_of(s),
                ChunkTag::Rgba => rgba_chunk_of(s),
                ChunkTag::Index => index_chunk_of(s[0]),
                ChunkTag::Diff => diff_chunk_of(s[0]),
                ChunkTag::Luma => luma_chunk_of(s[0], s[1]),
                ChunkTag::Run => run_chunk_of(s[0]),
            },
        )
    }
}

/// What a parser of one variant returns when it does not match: an empty
/// input is cut short, a wrong leading byte is a tag mismatch, and a right
/// one without enough bytes behind it is cut short.
pub open spec fn variant_error(s: Seq<u8>, tag_ok: bool) -> DecodeError {
    if s.len() != 0 && !tag_ok {
        DecodeError::Format(FormatError::Tag)
    } else {
        DecodeError::Format(FormatError::Truncated)
    }
}

/// Every leading byte selects exactly one variant. The literal tags `0xFE`
/// and `0xFF` select RGB and RGBA even though their high bits are those of a
/// run; every other byte is selected by its two high bits.
pub proof fn lemma_tag_dispatch(b: u8)
    ensures
        tag_of(b) == ChunkTag::Rgb <==> b == 0xFE,
        tag_of(b) == ChunkTag::Rgba <==> b == 0xFF,
        tag_of(b) == ChunkTag::Index <==> short_tag(b) == 0,
        tag_of(b) == ChunkTag::Diff <==> short_tag(b) == 1,
        tag_of(b) == ChunkTag::Luma <==> short_tag(b) == 2,
        tag_of(b) == ChunkTag::Run <==> short_tag(b) == 3 && b != 0xFE && b != 0xFF,
{
}

/// The variant that leading byte `b` selects.
pub fn chunk_tag(b: u8) -> (t: ChunkTag)
    ensures
        t == tag_of(b),
{
    if b == QOI_RGB_CHUNK_TAG {
        ChunkTag::Rgb
    } else if b == QOI_RGBA_CHUNK_TAG {
        ChunkTag::Rgba
    } else {
        let high = b >> 6;
        assert(b >> 6 == b / 64) by (bit_vector);
        if high == 0 {
            ChunkTag::Index
        } else if high == 1 {
            ChunkTag::Diff
        } else if high == 2 {
            ChunkTag::Luma
        } else {
            ChunkTag::Run
        }
    }
}

/// Parses a literal RGB chunk: tag byte `0xFE`, then red, green and blue.
pub fn parse_rgb_chunk(input: &[u8]) -> (res: Result<(&[u8], QOIChunk), DecodeError>)
    ensures
        match res {
            Ok((rest, c)) => {
                &&& input@.len() >= 4 && input@[0] == QOI_RGB_CHUNK_TAG
                &&& c == rgb_chunk_of(input@)
                &&& rest@ == input@.skip(4)
            },
            Err(e) => {
                &&& !(input@.len() >= 4 && input@[0] == QOI_RGB_CHUNK_TAG)
                &&& e == variant_error(input@, input@.len() != 0 && input@[0] == QOI_RGB_CHUNK_TAG)
            },
        },
{
    if input.len() == 0 {
        return Err(DecodeError::Format(FormatError::Truncated));
    }
    if input[0] != QOI_RGB_CHUNK_TAG {
        return Err(DecodeError::Format(FormatError::Tag));
    }
    if input.len() < 4 {
        return Err(DecodeError::Format(FormatError::Truncated));
    }
    let chunk = QOIRGBChunk { r: input[1], g: input[2], b: input[3] };
    let rest = slice_subrange(input, 4, input.len());
    assert(rest@ =~= input@.skip(4));
    Ok((rest, QOIChunk::QOIRGBChunk(chunk)))
}

/// Parses a literal RGBA chunk: tag byte `0xFF`, then red, green, blue and
/// alpha.
pub fn parse_rgba_chunk(input: &[u8]) -> (res: Result<(&[u8], QOIChunk), DecodeError>)
    ensures
        match res {
            Ok((rest, c)) => {
                &&& input@.len() >= 5 && input@[0] == QOI_RGBA_CHUNK_TAG
                &&& c == rgba_chunk_of(input@)
                &&& rest@ == input@.skip(5)
            },
            Err(e) => {
                &&& !(input@.len() >= 5 && input@[0] == QOI_RGBA_CHUNK_TAG)
                &&& e == variant_error(input@, input@.len() != 0 && input@[0] == QOI_RGBA_CHUNK_TAG)
            },
        },
{
    if input.len() == 0 {
        return Err(DecodeError::Format(FormatError::Truncated));
    }
    if input[0] != QOI_RGBA_CHUNK_TAG {
        return Err(DecodeError::Format(FormatError::Tag));
    }
    if input.len() < 5 {
        return Err(DecodeError::Format(FormatError::Truncated));
    }
    let chunk = QOIRGBAChunk { r: input[1], g: input[2], b: input[3], a: input[4] };
    let rest = slice_subrange(input, 5, input.len());
    assert(rest@ =~= input@.skip(5));
    Ok((rest, QOIChunk::QOIRGBAChunk(chunk)))
}

/// The input without its first byte.
fn after_first(input: &[u8]) -> (rest: &[u8])
    requires
        input@.len() >= 1,
    ensures
        rest@ == input@.skip(1),
{
    let rest = slice_subrange(input, 1, input.len());
    assert(rest@ =~= input@.skip(1));
    rest
}

/// Parses an index chunk: short tag `00`, then a six-bit cache slot.
pub fn parse_op_index_chunk(input: &[u8]) -> (res: Result<(&[u8], QOIChunk), DecodeError>)
    ensures
        match res {
            Ok((rest, c)) => {
                &&& input@.len() >= 1 && short_tag(input@[0]) == 0
                &&& c == index_chunk_of(input@[0])
                &&& rest@ == input@.skip(1)
            },
            Err(e) => {
                &&& !(input@.len() >= 1 && short_tag(input@[0]) == 0)
                &&& e == variant_error(input@, false)
            },
        },
{
    if input.len() == 0 {
        return Err(DecodeError::Format(FormatError::Truncated));
    }
    let b = input[0];
    assert(b >> 6 == b / 64 && b & 0x3F == b % 64) by (bit_vector);
    if b >> 6 != 0 {
        return Err(DecodeError::Format(FormatError::Tag));
    }
    let chunk = QOIOpIndexChunk { index: b & 0x3F };
    Ok((after_first(input), QOIChunk::QOIOpIndexChunk(chunk)))
}

/// Parses a diff chunk: short tag `01`, then three two-bit differences for
/// red, green and blue, each stored plus 2.
pub fn parse_op_diff_chunk(input: &[u8]) -> (res: Result<(&[u8], QOIChunk), DecodeError>)
    ensures
        match res {
            Ok((rest, c)) => {
                &&& input@.len() >= 1 && short_tag(input@[0]) == 1
                &&& c == diff_chunk_of(input@[0])
                &&& rest@ == input@.skip(1)
            },
            Err(e) => {
                &&& !(input@.len() >= 1 && short_tag(input@[0]) == 1)
                &&& e == variant_error(input@, false)
            },
        },
{
    if input.len() == 0 {
        return Err(DecodeError::Format(FormatError::Truncated));
    }
    let b = input[0];
    assert(b >> 6 == b / 64) by (bit_vector);
    if b >> 6 != 1 {
        return Err(DecodeError::Format(FormatError::Tag));
    }
    assert((b >> 4) & 3 == b / 16 % 4 && (b >> 2) & 3 == b / 4 % 4 && b & 3 == b % 4)
        by (bit_vector);
    let chunk = QOIOpDiffChunk {
        diff_r: ((b >> 4) & 3) as i8 - 2,
        diff_g: ((b >> 2) & 3) as i8 - 2,
        diff_b: (b & 3) as i8 - 2,
    };
    Ok((after_first(input), QOIChunk::QOIOpDiffChunk(chunk)))
}

/// Parses a luma chunk: short tag `10` and a six-bit green difference stored
/// plus 32, then a byte holding red minus green and blue minus green, four
/// bits each, stored plus 8.
pub fn parse_op_luma_chunk(input: &[u8]) -> (res: Result<(&[u8], QOIChunk), DecodeError>)
    ensures
        match res {
            Ok((rest, c)) => {
                &&& input@.len() >= 2 && short_tag(input@[0]) == 2
                &&& c == luma_chunk_of(input@[0], input@[1])
                &&& rest@ == input@.skip(2)
            },
            Err(e) => {
                &&& !(input@.len() >= 2 && short_tag(input@[0]) == 2)
                &&& e == variant_error(input@, input@.len() != 0 && short_tag(input@[0]) == 2)
            },
        },
{
    if input.len() == 0 {
        return Err(DecodeError::Format(FormatError::Truncated));
    }
    let b0 = input[0];
    assert(b0 >> 6 == b0 / 64 && b0 & 0x3F == b0 % 64) by (bit_vector);
    if b0 >> 6 != 2 {
        return Err(DecodeError::Format(FormatError::Tag));
    }
    if input.len() < 2 {
        return Err(DecodeError::Format(FormatError::Truncated));
    }
    let b1 = input[1];
    assert(b1 >> 4 == b1 / 16 && b1 & 0x0F == b1 % 16) by (bit_vector);
    let chunk = QOIOpLumaChunk {
        diff_g: (b0 & 0x3F) as i8 - 32,
        dr_dg: (b1 >> 4) as i8 - 8,
        db_dg: (b1 & 0x0F) as i8 - 8,
    };
    let rest = slice_subrange(input, 2, input.len());
    assert(rest@ =~= input@.skip(2));
    Ok((rest, QOIChunk::QOIOpLumaChunk(chunk)))
}

/// Parses a run chunk: short tag `11`, then the run length minus one in six
/// bits. The literal tags `0xFE` and `0xFF` carry this short tag too: telling
/// them apart is the dispatcher's work.
pub fn parse_op_run_chunk(input: &[u8]) -> (res: Result<(&[u8], QOIChunk), DecodeError>)
    ensures
        match res {
            Ok((rest, c)) => {
                &&& input@.len() >= 1 && short_tag(input@[0]) == 3
                &&& c == run_chunk_of(input@[0])
                &&& rest@ == input@.skip(1)
            },
            Err(e) => {
                &&& !(input@.len() >= 1 && short_tag(input@[0]) == 3)
                &&& e == variant_error(input@, false)
            },
        },
{
    if input.len() == 0 {
        return Err(DecodeError::Format(FormatError::Truncated));
    }
    let b = input[0];
    assert(b >> 6 == b / 64 && b & 0x3F == b % 64) by (bit_vector);
    if b >> 6 != 3 {
        return Err(DecodeError::Format(FormatError::Tag));
    }
    let chunk = QOIOpRunChunk { run: (b & 0x3F) + 1 };
    Ok((after_first(input), QOIChunk::QOIOpRunChunk(chunk)))
}

impl QOIChunk {
    /// Decodes the chunk at the start of `bytes`, chosen by its leading byte,
    /// and returns it with the bytes that follow it. Fails only when `bytes`
    /// is empty or ends inside the chunk.
    pub fn parse(bytes: &[u8]) -> (res: Result<(&[u8], QOIChunk), DecodeError>)
        ensures
            match res {
                Ok((rest, c)) => {
                    &&& decode_chunk(bytes@) == Some(c)
                    &&& bytes@.len() >= encoded_len(c)
                    &&& rest@ == bytes@.skip(encoded_len(c) as int)
                },
                Err(e) => {
                    &&& decode_chunk(bytes@) is None
                    &&& e == DecodeError::Format(FormatError::Truncated)
                },
            },
    {
        if bytes.len() == 0 {
            return Err(DecodeError::Format(FormatError::Truncated));
        }
        match chunk_tag(bytes[0]) {
            ChunkTag::Rgb => parse_rgb_chunk(bytes),
            ChunkTag::Rgba => parse_rgba_chunk(bytes),
            ChunkTag::Index => parse_op_index_chunk(bytes),
            ChunkTag::Diff => parse_op_diff_chunk(bytes),
            ChunkTag::Luma => parse_op_luma_chunk(bytes),
            ChunkTag::Run => parse_op_run_chunk(bytes),
        }
    }
}

} // verus!

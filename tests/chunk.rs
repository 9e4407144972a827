use qoi::decode::chunk::{
    chunk_tag, parse_op_diff_chunk, parse_op_index_chunk, parse_op_luma_chunk, parse_op_run_chunk,
    parse_rgb_chunk, parse_rgba_chunk, ChunkTag, QOIChunk, QOIOpDiffChunk, QOIOpIndexChunk,
    QOIOpLumaChunk, QOIOpRunChunk, QOIRGBAChunk, QOIRGBChunk,
};
use qoi::decode::error::{DecodeError, FormatError};

#[test]
fn test_rgb_chunk() {
    let bytes = [0xFE, 0xA3, 0x89, 0x43];
    let chunk = QOIChunk::QOIRGBChunk(QOIRGBChunk {
        r: 0xA3,
        g: 0x89,
        b: 0x43,
    });

    let result = QOIChunk::parse(bytes.as_ref()).expect("failed to parse rgb chunk");
    let res_chunk = result.1;

    assert_eq!(res_chunk, chunk);
}

#[test]
fn test_rgba_chunk() {
    let bytes = [0xFF, 0x34, 0xFE, 0x9E, 0x90];
    let chunk = QOIChunk::QOIRGBAChunk(QOIRGBAChunk {
        r: 0x34,
        g: 0xFE,
        b: 0x9E,
        a: 0x90,
    });

    let result = QOIChunk::parse(bytes.as_ref()).expect("failed to parse rgb chunk");
    let res_chunk = result.1;

    assert_eq!(res_chunk, chunk);
}

#[test]
fn test_op_index_chunk() {
    let bytes = [0b00000001];
    let chunk = QOIChunk::QOIOpIndexChunk(QOIOpIndexChunk { index: 1 });

    let result = QOIChunk::parse(bytes.as_ref()).expect("failed to parse op index chunk");
    let res_chunk = result.1;

    assert_eq!(res_chunk, chunk);
}

#[test]
fn rgb_chunk_leaves_following_bytes() {
    let bytes = [0xFE, 1, 2, 3, 0x42, 0x43];
    let (rest, chunk) = QOIChunk::parse(&bytes).unwrap();
    assert_eq!(chunk, QOIChunk::QOIRGBChunk(QOIRGBChunk { r: 1, g: 2, b: 3 }));
    assert_eq!(rest, &[0x42, 0x43][..]);
}

#[test]
fn index_chunk_takes_low_six_bits() {
    let (rest, chunk) = QOIChunk::parse(&[0x3F, 0x00]).unwrap();
    assert_eq!(chunk, QOIChunk::QOIOpIndexChunk(QOIOpIndexChunk { index: 63 }));
    assert_eq!(rest, &[0x00][..]);
}

#[test]
fn diff_chunk_removes_bias() {
    // 01 11 10 00: red +1, green 0, blue -2
    let (rest, chunk) = QOIChunk::parse(&[0b0111_1000]).unwrap();
    assert_eq!(
        chunk,
        QOIChunk::QOIOpDiffChunk(QOIOpDiffChunk { diff_r: 1, diff_g: 0, diff_b: -2 })
    );
    assert!(rest.is_empty());
    let (_, low) = parse_op_diff_chunk(&[0b0100_0000]).unwrap();
    assert_eq!(
        low,
        QOIChunk::QOIOpDiffChunk(QOIOpDiffChunk { diff_r: -2, diff_g: -2, diff_b: -2 })
    );
}

#[test]
fn luma_chunk_removes_bias() {
    // 10 100001, 1001 1111: green +1, red-green +1, blue-green +7
    let (rest, chunk) = QOIChunk::parse(&[0xA1, 0x9F, 0x07]).unwrap();
    assert_eq!(
        chunk,
        QOIChunk::QOIOpLumaChunk(QOIOpLumaChunk { diff_g: 1, dr_dg: 1, db_dg: 7 })
    );
    assert_eq!(rest, &[0x07][..]);
    let (_, low) = parse_op_luma_chunk(&[0x80, 0x00]).unwrap();
    assert_eq!(
        low,
        QOIChunk::QOIOpLumaChunk(QOIOpLumaChunk { diff_g: -32, dr_dg: -8, db_dg: -8 })
    );
}

#[test]
fn run_chunk_adds_one() {
    let (_, chunk) = QOIChunk::parse(&[0xC0]).unwrap();
    assert_eq!(chunk, QOIChunk::QOIOpRunChunk(QOIOpRunChunk { run: 1 }));
    let (_, chunk) = QOIChunk::parse(&[0xFD]).unwrap();
    assert_eq!(chunk, QOIChunk::QOIOpRunChunk(QOIOpRunChunk { run: 62 }));
}

#[test]
fn literal_tags_take_precedence_over_run() {
    assert_eq!(chunk_tag(0xFE), ChunkTag::Rgb);
    assert_eq!(chunk_tag(0xFF), ChunkTag::Rgba);
    assert_eq!(chunk_tag(0xFD), ChunkTag::Run);
    // The run parser alone reads the same byte as a run.
    let (_, run) = parse_op_run_chunk(&[0xFE]).unwrap();
    assert_eq!(run, QOIChunk::QOIOpRunChunk(QOIOpRunChunk { run: 63 }));
}

#[test]
fn every_leading_byte_selects_one_variant() {
    for b in 0..=255u8 {
        let expected = if b == 0xFE {
            ChunkTag::Rgb
        } else if b == 0xFF {
            ChunkTag::Rgba
        } else {
            match b >> 6 {
                0 => ChunkTag::Index,
                1 => ChunkTag::Diff,
                2 => ChunkTag::Luma,
                _ => ChunkTag::Run,
            }
        };
        assert_eq!(chunk_tag(b), expected, "byte {b:#04x}");
    }
}

#[test]
fn truncated_chunks_fail() {
    let truncated = Err(DecodeError::Format(FormatError::Truncated));
    assert_eq!(QOIChunk::parse(&[]), truncated);
    assert_eq!(QOIChunk::parse(&[0xFE, 1, 2]), truncated);
    assert_eq!(QOIChunk::parse(&[0xFF, 1, 2, 3]), truncated);
    assert_eq!(QOIChunk::parse(&[0x80]), truncated);
}

#[test]
fn variant_parsers_reject_other_tags() {
    let tag = Err(DecodeError::Format(FormatError::Tag));
    assert_eq!(parse_rgb_chunk(&[0xFF, 1, 2, 3]), tag);
    assert_eq!(parse_rgba_chunk(&[0xFE, 1, 2, 3, 4]), tag);
    assert_eq!(parse_op_index_chunk(&[0x40]), tag);
    assert_eq!(parse_op_diff_chunk(&[0x80]), tag);
    assert_eq!(parse_op_luma_chunk(&[0xC0, 0]), tag);
    assert_eq!(parse_op_run_chunk(&[0x3F]), tag);
    assert_eq!(parse_op_index_chunk(&[]), Err(DecodeError::Format(FormatError::Truncated)));
}

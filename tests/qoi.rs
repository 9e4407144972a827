use qoi::decode::chunk::{
    QOIChunk, QOIOpDiffChunk, QOIOpIndexChunk, QOIOpLumaChunk, QOIOpRunChunk, QOIRGBAChunk,
    QOIRGBChunk,
};
use qoi::decode::error::{DecodeError, FormatError};
use qoi::decode::header::QOIHeader;
use qoi::decode::qoi::{end_marker, hash_position, parse_chunks, Pixel};
use qoi::decode::QOI;

fn px(r: u8, g: u8, b: u8, a: u8) -> Pixel {
    Pixel { r, g, b, a }
}

fn replay(chunks: Vec<QOIChunk>) -> Result<Vec<Pixel>, DecodeError> {
    let q = QOI { header: QOIHeader::new(0, 0, 4, 0), chunks };
    q.into_pixels()
}

fn rgb(r: u8, g: u8, b: u8) -> QOIChunk {
    QOIChunk::QOIRGBChunk(QOIRGBChunk { r, g, b })
}

#[test]
pub fn test_end_marker() {
    let bytes = [0, 0, 0, 0, 0, 0, 0, 1];
    let result = end_marker(bytes.as_ref());

    assert!(result.is_ok());
}

#[test]
pub fn test_header_and_end() {
    let bytes = [
        0x71, 0x6F, 0x69, 0x66, // qoif
        0x00, 0x00, 0x00, 0x02, // height
        0x00, 0x00, 0x00, 0x02, // width
        0x04, // channels
        0x00, // colorspace
        0xFE, 0xFF, 0xFF, 0xFF, // (255, 255, 255) rgb chunk
        0xFE, 0xFF, 0xFF, 0xFF, // (255, 255, 255) rgb chunk
        0xFE, 0xFF, 0xFF, 0xFF, // (255, 255, 255) rgb chunk
        0xC0, 0x00, 0x00, 0x00, 0x00, 0x00, 0x00, 0x00, 0x01, // end marker
    ];

    let res = QOI::parse(bytes.as_ref());

    println!("{:?}", &res);

    assert!(res.is_ok());
}

#[test]
fn three_white_rgb_chunks() {
    let mut bytes = vec![0x71, 0x6F, 0x69, 0x66, 0, 0, 0, 2, 0, 0, 0, 2, 4, 0];
    for _ in 0..3 {
        bytes.extend_from_slice(&[0xFE, 0xFF, 0xFF, 0xFF]);
    }
    bytes.extend_from_slice(&[0, 0, 0, 0, 0, 0, 0, 1]);
    let (rest, q) = QOI::parse(&bytes).unwrap();
    assert!(rest.is_empty());
    assert_eq!(q.header, QOIHeader::new(2, 2, 4, 0));
    assert_eq!(q.chunks.len(), 3);
    let white = px(255, 255, 255, 255);
    assert_eq!(q.into_pixels(), Ok(vec![white, white, white]));
}

#[test]
fn end_marker_alone_gives_no_chunks() {
    let (rest, chunks) = parse_chunks(&[0, 0, 0, 0, 0, 0, 0, 1]).unwrap();
    assert!(chunks.is_empty());
    assert!(rest.is_empty());
    let (rest, chunks) = parse_chunks(&[0, 0, 0, 0, 0, 0, 0, 1, 9]).unwrap();
    assert!(chunks.is_empty());
    assert_eq!(rest, &[9][..]);
}

#[test]
fn end_marker_is_checked_before_each_chunk() {
    // A zero byte would read as index chunk 0 if the marker were not tried first.
    let bytes = [0x00, 0, 0, 0, 0, 0, 0, 0, 1];
    let (rest, chunks) = parse_chunks(&bytes).unwrap();
    assert_eq!(chunks, vec![QOIChunk::QOIOpIndexChunk(QOIOpIndexChunk { index: 0 })]);
    assert!(rest.is_empty());
}

#[test]
fn end_marker_rejects_other_bytes() {
    assert_eq!(end_marker(&[0, 0, 0, 0, 0, 0, 0, 2]), Err(DecodeError::Format(FormatError::Tag)));
    assert_eq!(end_marker(&[0, 0, 0, 1]), Err(DecodeError::Format(FormatError::Tag)));
}

#[test]
fn stream_without_end_marker_fails() {
    assert_eq!(parse_chunks(&[0xFE, 1, 2, 3]), Err(DecodeError::Format(FormatError::Truncated)));
    assert_eq!(parse_chunks(&[0, 0, 0, 0, 0, 0, 0]), Err(DecodeError::Format(FormatError::Truncated)));
    let mut bytes = b"qoif\0\0\0\x01\0\0\0\x01\x03\x00".to_vec();
    bytes.push(0xC0);
    assert_eq!(QOI::parse(&bytes).map(|_| ()), Err(DecodeError::Format(FormatError::Truncated)));
    assert_eq!(QOI::parse(b"qoix").map(|_| ()), Err(DecodeError::Format(FormatError::Magic)));
}

#[test]
fn hash_position_formula() {
    assert_eq!(hash_position(px(10, 20, 30, 40)), 12);
    assert_eq!(hash_position(px(0, 0, 0, 255)), 53);
    assert_eq!(hash_position(px(255, 255, 255, 255)), 38);
}

#[test]
fn rgb_keeps_previous_alpha() {
    let chunks = vec![
        QOIChunk::QOIRGBAChunk(QOIRGBAChunk { r: 1, g: 2, b: 3, a: 4 }),
        rgb(5, 6, 7),
    ];
    assert_eq!(replay(chunks), Ok(vec![px(1, 2, 3, 4), px(5, 6, 7, 4)]));
}

#[test]
fn index_into_written_slot() {
    let chunks = vec![
        QOIChunk::QOIRGBAChunk(QOIRGBAChunk { r: 10, g: 20, b: 30, a: 40 }),
        rgb(0, 0, 0),
        QOIChunk::QOIOpIndexChunk(QOIOpIndexChunk { index: 12 }),
    ];
    let p = px(10, 20, 30, 40);
    assert_eq!(replay(chunks), Ok(vec![p, px(0, 0, 0, 40), p]));
}

#[test]
fn index_into_empty_slot_fails() {
    assert_eq!(
        replay(vec![QOIChunk::QOIOpIndexChunk(QOIOpIndexChunk { index: 0 })]),
        Err(DecodeError::Reconstruction { index: 0 })
    );
    let chunks = vec![
        QOIChunk::QOIRGBAChunk(QOIRGBAChunk { r: 10, g: 20, b: 30, a: 40 }),
        QOIChunk::QOIOpIndexChunk(QOIOpIndexChunk { index: 13 }),
    ];
    assert_eq!(replay(chunks), Err(DecodeError::Reconstruction { index: 13 }));
    assert_eq!(
        replay(vec![QOIChunk::QOIOpIndexChunk(QOIOpIndexChunk { index: 64 })]),
        Err(DecodeError::Reconstruction { index: 64 })
    );
}

#[test]
fn run_emits_its_length_and_caches_last_pixel() {
    let p = px(1, 2, 3, 255);
    let chunks = vec![
        rgb(1, 2, 3),
        rgb(9, 9, 9),
        QOIChunk::QOIOpIndexChunk(QOIOpIndexChunk { index: 23 }),
        QOIChunk::QOIOpRunChunk(QOIOpRunChunk { run: 3 }),
    ];
    assert_eq!(replay(chunks), Ok(vec![p, px(9, 9, 9, 255), p, p, p, p]));
    // A run from the start repeats the initial pixel, which it then caches.
    let start = px(0, 0, 0, 255);
    let chunks = vec![
        QOIChunk::QOIOpRunChunk(QOIOpRunChunk { run: 2 }),
        QOIChunk::QOIOpIndexChunk(QOIOpIndexChunk { index: 53 }),
    ];
    assert_eq!(replay(chunks), Ok(vec![start, start, start]));
}

#[test]
fn diff_wraps_around() {
    let chunks = vec![
        rgb(255, 0, 7),
        QOIChunk::QOIOpDiffChunk(QOIOpDiffChunk { diff_r: 1, diff_g: -2, diff_b: 0 }),
    ];
    assert_eq!(replay(chunks), Ok(vec![px(255, 0, 7, 255), px(0, 254, 7, 255)]));
}

#[test]
fn luma_adds_green_to_red_and_blue() {
    let chunks = vec![QOIChunk::QOIOpLumaChunk(QOIOpLumaChunk { diff_g: 5, dr_dg: -3, db_dg: 7 })];
    assert_eq!(replay(chunks), Ok(vec![px(2, 5, 12, 255)]));
    let chunks = vec![
        rgb(0, 255, 0),
        QOIChunk::QOIOpLumaChunk(QOIOpLumaChunk { diff_g: 1, dr_dg: 0, db_dg: -8 }),
    ];
    assert_eq!(replay(chunks), Ok(vec![px(0, 255, 0, 255), px(1, 0, 249, 255)]));
}

#[test]
fn decode_mixed_stream() {
    let mut bytes = b"qoif\0\0\0\x03\0\0\0\x02\x04\x00".to_vec();
    bytes.extend_from_slice(&[0xFE, 10, 20, 30]); // rgb
    bytes.push(0b0111_1010); // diff +1, +0, +0
    bytes.extend_from_slice(&[0xA2, 0x88]); // luma green +2, red +2, blue +2
    bytes.push(0xC1); // run of 2
    bytes.extend_from_slice(&[0, 0, 0, 0, 0, 0, 0, 1]);
    let (_, q) = QOI::parse(&bytes).unwrap();
    let a = px(10, 20, 30, 255);
    let b = px(11, 20, 30, 255);
    let c = px(13, 22, 32, 255);
    assert_eq!(q.into_pixels(), Ok(vec![a, b, c, c, c]));
}

use qoi_codec::compare::first_mismatch;
use qoi_codec::qoi::{QoiChannels, QoiColorspace, QoiError, QoiFile, QoiPixel};

fn image(pixels: Vec<QoiPixel>, width: u32, height: u32) -> QoiFile {
    QoiFile {
        encoded: Vec::new(),
        decoded: pixels,
        width,
        height,
        channels: QoiChannels::RGBA,
        colorspace: QoiColorspace::SRGB,
    }
}

fn loaded(bytes: Vec<u8>) -> QoiFile {
    QoiFile {
        encoded: bytes,
        decoded: Vec::new(),
        width: 0,
        height: 0,
        channels: QoiChannels::RGB,
        colorspace: QoiColorspace::LINEAR,
    }
}

fn header(width: u32, height: u32) -> Vec<u8> {
    let mut h = vec![b'q', b'o', b'i', b'f'];
    h.extend_from_slice(&width.to_be_bytes());
    h.extend_from_slice(&height.to_be_bytes());
    h.push(4);
    h.push(0);
    h
}

const MARKER: [u8; 8] = [0, 0, 0, 0, 0, 0, 0, 1];

/// The bytes between the header and the end marker.
fn body(encoded: &[u8]) -> Vec<u8> {
    encoded[14..encoded.len() - 8].to_vec()
}

fn round_trip(pixels: Vec<QoiPixel>, width: u32, height: u32) {
    let source = image(pixels.clone(), width, height);
    let encoded = source.encode();
    let decoded = loaded(encoded.encoded.clone()).decode().unwrap();
    assert_eq!(decoded.decoded, pixels);
    assert_eq!(decoded.width, width);
    assert_eq!(decoded.height, height);
    assert_eq!(decoded.channels, QoiChannels::RGBA);
    assert_eq!(decoded.colorspace, QoiColorspace::SRGB);
    assert_eq!(decoded.encoded, encoded.encoded);
}

#[test]
fn pixel_constructors() {
    assert_eq!(QoiPixel::empty(), QoiPixel::new(0, 0, 0, 255));
    assert_eq!(QoiPixel::clear(), QoiPixel::new(0, 0, 0, 0));
    let p = QoiPixel::new(1, 2, 3, 4);
    assert_eq!((p.red, p.green, p.blue, p.alpha), (1, 2, 3, 4));
}

#[test]
fn pixel_hash_values() {
    assert_eq!(QoiPixel::empty().hash(), 53);
    assert_eq!(QoiPixel::clear().hash(), 0);
    assert_eq!(QoiPixel::new(1, 2, 3, 4).hash(), (3 + 10 + 21 + 44) % 64);
    assert_eq!(QoiPixel::new(255, 255, 255, 255).hash(), (255 * 26) % 64);
}

#[test]
fn hash_collision_pair() {
    let x = QoiPixel::new(10, 0, 0, 255);
    let y = QoiPixel::new(74, 0, 0, 255);
    assert_ne!(x, y);
    assert_eq!(x.hash(), 19);
    assert_eq!(y.hash(), 19);
}

#[test]
fn get_in_and_out_of_range() {
    let px: Vec<QoiPixel> = (0..6u8).map(|i| QoiPixel::new(i, i, i, 255)).collect();
    let f = image(px, 3, 2);
    assert_eq!(f.get(0, 0), QoiPixel::new(0, 0, 0, 255));
    assert_eq!(f.get(2, 0), QoiPixel::new(2, 2, 2, 255));
    assert_eq!(f.get(1, 1), QoiPixel::new(4, 4, 4, 255));
    assert_eq!(f.get(0, 2), QoiPixel::empty());
    assert_eq!(f.get(3, 0), QoiPixel::empty());
    assert_eq!(f.get(5, 0), QoiPixel::empty());
    let short = image(vec![QoiPixel::new(1, 1, 1, 1)], 2, 2);
    assert_eq!(short.get(0, 0), QoiPixel::new(1, 1, 1, 1));
    assert_eq!(short.get(1, 1), QoiPixel::empty());
    assert_eq!(f.get(usize::MAX, usize::MAX), QoiPixel::empty());
}

#[test]
fn encode_empty_image() {
    let e = image(Vec::new(), 0, 0).encode();
    let mut expected = header(0, 0);
    expected.extend_from_slice(&MARKER);
    assert_eq!(e.encoded, expected);
}

#[test]
fn encode_header_fields() {
    let mut f = image(Vec::new(), 0x01020304, 0xa0b0c0d0);
    f.channels = QoiChannels::UNK;
    f.colorspace = QoiColorspace::UNK;
    let e = f.encode();
    assert_eq!(
        e.encoded[..14].to_vec(),
        vec![b'q', b'o', b'i', b'f', 1, 2, 3, 4, 0xa0, 0xb0, 0xc0, 0xd0, 1, 2]
    );
    let mut g = image(Vec::new(), 0, 0);
    g.channels = QoiChannels::RGB;
    g.colorspace = QoiColorspace::LINEAR;
    let e = g.encode();
    assert_eq!(e.encoded[12..14].to_vec(), vec![3, 1]);
}

#[test]
fn encode_rgb_op() {
    let e = image(vec![QoiPixel::new(10, 20, 30, 255)], 1, 1).encode();
    assert_eq!(body(&e.encoded), vec![0xfe, 10, 20, 30]);
}

#[test]
fn encode_diff_op() {
    let e = image(vec![QoiPixel::new(1, 0, 0, 255)], 1, 1).encode();
    assert_eq!(body(&e.encoded), vec![0x7a]);
    let e = image(vec![QoiPixel::new(0, 254, 0, 255)], 1, 1).encode();
    assert_eq!(body(&e.encoded), vec![0xfe, 0, 254, 0]);
}

#[test]
fn encode_luma_op() {
    let e = image(vec![QoiPixel::new(25, 20, 15, 255)], 1, 1).encode();
    assert_eq!(body(&e.encoded), vec![0xb4, 0xd3]);
}

#[test]
fn encode_rgba_op() {
    let e = image(vec![QoiPixel::new(1, 2, 3, 4)], 1, 1).encode();
    assert_eq!(body(&e.encoded), vec![0xff, 1, 2, 3, 4]);
}

#[test]
fn encode_index_op() {
    let a = QoiPixel::new(100, 50, 25, 255);
    let b = QoiPixel::new(1, 2, 3, 4);
    let e = image(vec![a, b, a], 3, 1).encode();
    let expected = vec![0xfe, 100, 50, 25, 0xff, 1, 2, 3, 4, a.hash() as u8];
    assert_eq!(body(&e.encoded), expected);
}

#[test]
fn encode_run_cap() {
    let px = vec![QoiPixel::empty(); 63];
    let e = image(px, 63, 1).encode();
    assert_eq!(body(&e.encoded), vec![0xfd, 0xc0]);
    let c = QoiPixel::new(9, 9, 9, 255);
    let e = image(vec![c; 64], 64, 1).encode();
    assert_eq!(body(&e.encoded), vec![0xa9, 0x88, 0xfd, 0xc0]);
}

#[test]
fn round_trip_empty() {
    round_trip(Vec::new(), 0, 0);
}

#[test]
fn round_trip_one_pixel() {
    round_trip(vec![QoiPixel::new(200, 100, 50, 255)], 1, 1);
}

#[test]
fn round_trip_solid() {
    round_trip(vec![QoiPixel::new(7, 8, 9, 255); 200], 20, 10);
    round_trip(vec![QoiPixel::empty(); 124], 62, 2);
}

#[test]
fn round_trip_gradient() {
    let mut px = Vec::new();
    for y in 0..16u32 {
        for x in 0..16u32 {
            px.push(QoiPixel::new((x * 3) as u8, (y * 5) as u8, ((x + y) * 7) as u8, 255));
        }
    }
    round_trip(px, 16, 16);
}

#[test]
fn round_trip_repeated_colours() {
    let a = QoiPixel::new(1, 2, 3, 255);
    let b = QoiPixel::new(200, 100, 0, 255);
    let c = QoiPixel::new(50, 60, 70, 128);
    let px = vec![a, b, c, a, c, b, a, a, b, c];
    round_trip(px, 5, 2);
}

#[test]
fn round_trip_alpha_variation() {
    let px: Vec<QoiPixel> = (0..40u32)
        .map(|i| QoiPixel::new(10, 20, 30, (i * 6) as u8))
        .collect();
    round_trip(px, 8, 5);
}

#[test]
fn round_trip_cache_aliasing() {
    let x = QoiPixel::new(10, 0, 0, 255);
    let y = QoiPixel::new(74, 0, 0, 255);
    round_trip(vec![x, y, x, y, x, x, y], 7, 1);
}

#[test]
fn round_trip_wrapping_deltas() {
    let px = vec![
        QoiPixel::new(255, 255, 255, 255),
        QoiPixel::new(0, 0, 0, 255),
        QoiPixel::new(255, 1, 254, 255),
        QoiPixel::new(230, 0, 250, 255),
    ];
    round_trip(px, 2, 2);
}

#[test]
fn decode_then_encode_then_decode() {
    let a = QoiPixel::new(4, 5, 6, 255);
    let mut bytes = header(2, 2);
    bytes.extend_from_slice(&[0xfe, 4, 5, 6, 0xc1, 0x00]);
    bytes.extend_from_slice(&MARKER);
    let first = loaded(bytes).decode().unwrap();
    assert_eq!(first.decoded, vec![a, a, a, QoiPixel::clear()]);
    let again = loaded(first.clone().encode().encoded).decode().unwrap();
    assert_eq!(again.decoded, first.decoded);
}

#[test]
fn decode_header_too_short() {
    assert_eq!(loaded(Vec::new()).decode().unwrap_err(), QoiError::HeaderTooShort);
    assert_eq!(loaded(vec![b'q', b'o', b'i', b'f', 0, 0, 0, 0, 0, 0, 0, 0, 4]).decode().unwrap_err(), QoiError::HeaderTooShort);
}

#[test]
fn decode_invalid_magic() {
    let mut bytes = header(0, 0);
    bytes[3] = b'g';
    bytes.extend_from_slice(&MARKER);
    assert_eq!(loaded(bytes).decode().unwrap_err(), QoiError::InvalidMagic);
}

#[test]
fn decode_padding_mismatch() {
    let mut bytes = image(vec![QoiPixel::new(1, 2, 3, 4)], 1, 1).encode().encoded;
    let n = bytes.len();
    bytes[n - 1] = 2;
    assert_eq!(loaded(bytes).decode().unwrap_err(), QoiError::PaddingMismatch);
    let mut short = header(0, 0);
    short.extend_from_slice(&MARKER[..7]);
    assert_eq!(loaded(short).decode().unwrap_err(), QoiError::PaddingMismatch);
    // an operation that reaches into the end marker leaves too few bytes
    let mut overlap = header(1, 1);
    overlap.extend_from_slice(&[0, 0xff, 1, 2, 3, 4, 0, 0, 0, 1]);
    assert_eq!(loaded(overlap).decode().unwrap_err(), QoiError::PaddingMismatch);
}

#[test]
fn decode_unknown_tags() {
    let mut bytes = header(1, 1);
    bytes[12] = 7;
    bytes[13] = 9;
    bytes.extend_from_slice(&[0xfe, 1, 2, 3]);
    bytes.extend_from_slice(&MARKER);
    let f = loaded(bytes).decode().unwrap();
    assert_eq!(f.width, 1);
    assert_eq!(f.height, 1);
    assert_eq!(f.channels, QoiChannels::UNK);
    assert_eq!(f.colorspace, QoiColorspace::UNK);
    assert_eq!(f.decoded, vec![QoiPixel::new(1, 2, 3, 255)]);
}

#[test]
fn decode_too_few_pixels() {
    let mut bytes = header(3, 5);
    bytes.extend_from_slice(&MARKER);
    assert_eq!(loaded(bytes).decode().unwrap_err(), QoiError::TruncatedStream);
    let mut bytes = header(2, 2);
    bytes.extend_from_slice(&[0xc2]);
    bytes.extend_from_slice(&MARKER);
    assert_eq!(loaded(bytes).decode().unwrap_err(), QoiError::TruncatedStream);
}

#[test]
fn decode_too_many_pixels() {
    let mut bytes = header(2, 2);
    bytes.extend_from_slice(&[0xc4]);
    bytes.extend_from_slice(&MARKER);
    assert_eq!(loaded(bytes).decode().unwrap_err(), QoiError::ExcessPixels);
    let mut bytes = header(0, 7);
    bytes.extend_from_slice(&[0x00]);
    bytes.extend_from_slice(&MARKER);
    assert_eq!(loaded(bytes).decode().unwrap_err(), QoiError::ExcessPixels);
}

#[test]
fn decode_exact_pixel_count() {
    let mut bytes = header(2, 2);
    bytes.extend_from_slice(&[0xc3]);
    bytes.extend_from_slice(&MARKER);
    assert_eq!(loaded(bytes).decode().unwrap().decoded, vec![QoiPixel::empty(); 4]);
}

#[test]
fn decode_each_op() {
    let mut bytes = header(5, 1);
    // DIFF +1,0,-1 ; LUMA dg=+4, dr-dg=+1, db-dg=-1 ; RUN 2 ; INDEX of the first
    bytes.extend_from_slice(&[0x40 | (3 << 4) | (2 << 2) | 1, 0x80 | 36, (9 << 4) | 7, 0xc1]);
    let first = QoiPixel::new(1, 0, 255, 255);
    bytes.push(first.hash() as u8);
    bytes.extend_from_slice(&MARKER);
    let f = loaded(bytes).decode().unwrap();
    let second = QoiPixel::new(6, 4, 2, 255);
    assert_eq!(f.decoded, vec![first, second, second, second, first]);
}

#[test]
fn first_mismatch_positions() {
    assert_eq!(first_mismatch(vec![1, 2, 3], vec![1, 2, 3]), 3);
    assert_eq!(first_mismatch(vec![1, 2, 3], vec![1, 9, 3]), 1);
    assert_eq!(first_mismatch(vec![1, 2], vec![1, 2, 3]), 2);
    assert_eq!(first_mismatch(vec![], vec![]), 0);
    assert_eq!(first_mismatch(vec![5], vec![]), 0);
}

#[test]
fn encode_long_run_splits_at_cap() {
    let e = image(vec![QoiPixel::empty(); 130], 130, 1).encode();
    assert_eq!(body(&e.encoded), vec![0xfd, 0xfd, 0xc5]);
    let e = image(vec![QoiPixel::empty(); 124], 124, 1).encode();
    assert_eq!(body(&e.encoded), vec![0xfd, 0xfd]);
}

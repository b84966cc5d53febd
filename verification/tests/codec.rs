use bundle::qoit::{self, State, Header, ColorSpec, HeaderError, FileError, DecodeError,
    decode_qoi_file, encode_qoi_file};

#[test]
fn decode_qoifs() {
    let qoif = [
        b'q', b'o', b'i', b'f',
        0, 0, 0, 1,
        0, 0, 0, 1,
        4, 0,

        0,

        0, 0, 0, 0, 0, 0, 0, 1,
    ];

    let (header, pixels) = decode_qoi_file(&qoif).unwrap();
    assert_eq!(header.wide, 1);
    assert_eq!(header.high, 1);
    assert_eq!(pixels.len(), 1);
    assert_eq!(pixels[0], [0, 0, 0, 0]);

    let qoif = [
        b'q', b'o', b'i', b'f',
        0, 0, 0, 2,
        0, 0, 0, 2,
        4, 0,

        0xff, 27, 146, 55, 203,
        0xc2,

        0, 0, 0, 0, 0, 0, 0, 1,
    ];

    let (header, pixels) = decode_qoi_file(&qoif).unwrap();
    assert_eq!(header.wide, 2);
    assert_eq!(header.high, 2);
    assert_eq!(pixels.len(), 4);
    assert_eq!(pixels[0], [27, 146, 55, 203]);
    assert_eq!(pixels[1], [27, 146, 55, 203]);
    assert_eq!(pixels[2], [27, 146, 55, 203]);
    assert_eq!(pixels[3], [27, 146, 55, 203]);
}

#[test]
fn file_round_trip() {
    let pixels: Vec<[u8; 4]> = vec![
        [1, 2, 3, 255], [1, 2, 3, 255], [200, 10, 30, 128], [201, 11, 31, 128],
        [0, 0, 0, 0], [255, 255, 255, 255], [1, 2, 3, 255], [5, 5, 5, 5],
    ];
    let header = Header { wide: 4, high: 2, colors: ColorSpec::Srgb8A8 };
    let file = encode_qoi_file(header, &pixels).unwrap();
    let (h2, px2) = decode_qoi_file(&file).unwrap();
    assert_eq!(h2, header);
    assert_eq!(px2, pixels);
}

#[test]
fn header_round_trip() {
    let header = Header { wide: 640, high: 480, colors: ColorSpec::Rgba8 };
    assert_eq!(Header::from_bytes(header.to_bytes()), Ok(header));
}

#[test]
fn header_errors() {
    let mut bytes = (Header { wide: 1, high: 1, colors: ColorSpec::Srgb8 }).to_bytes();
    bytes[0] = b'x';
    assert_eq!(Header::from_bytes(bytes), Err(HeaderError::WrongMagic));
    let bytes = (Header { wide: 0, high: 1, colors: ColorSpec::Srgb8 }).to_bytes();
    assert_eq!(Header::from_bytes(bytes), Err(HeaderError::ZeroDimension));
    let mut bytes = (Header { wide: 1, high: 1, colors: ColorSpec::Srgb8 }).to_bytes();
    bytes[12] = 9;
    assert_eq!(Header::from_bytes(bytes), Err(HeaderError::BadColorSpec));
}

#[test]
fn decode_stream_ops() {
    // literal, then an index hit, then a two-pixel run
    let mut state = State::new();
    let bytes = [0xff, 10, 20, 30, 40, 0xc1];
    let (px, used) = state.decode_some(3, &bytes).unwrap();
    assert_eq!(used, 6);
    assert_eq!(px, vec![[10, 20, 30, 40], [10, 20, 30, 40], [10, 20, 30, 40]]);

    // the luma opcode moves channels relative to the previous pixel
    let mut state = State::new();
    let bytes = [0xfe, 100, 100, 100, 0x80 | 40, 0x57];
    let (px, _) = state.decode_some(2, &bytes).unwrap();
    assert_eq!(px[0], [100, 100, 100, 255]);
    // dg = 8, dr = 8 + 5 - 8 = 5, db = 8 + 7 - 8 = 7
    assert_eq!(px[1], [105, 108, 107, 255]);

    // the small-delta opcode moves each channel by its 2-bit field - 2
    let mut state = State::new();
    let bytes = [0xfe, 100, 100, 100, 0x40 | (3 << 4) | (2 << 2) | 0];
    let (px, _) = state.decode_some(2, &bytes).unwrap();
    assert_eq!(px[1], [101, 100, 98, 255]);
}

#[test]
fn decode_underrun() {
    let mut state = State::new();
    assert_eq!(state.decode_some(1, &[]), Err(DecodeError::Underrun));
    let mut state = State::new();
    assert_eq!(state.decode_some(1, &[0xff, 1, 2]), Err(DecodeError::Underrun));
}

#[test]
fn file_errors() {
    assert_eq!(decode_qoi_file(&[0u8; 4]).unwrap_err(), FileError::InputTooShort);
    let mut file = encode_qoi_file(Header { wide: 1, high: 1, colors: ColorSpec::Rgba8 },
        &[[9, 9, 9, 9]]).unwrap();
    let last = file.len() - 1;
    file[last] = 2;
    assert_eq!(decode_qoi_file(&file).unwrap_err(), FileError::BadPadding);
}

#[test]
fn encoder_run_splits_at_limit() {
    // 63 repeats of the starting pixel: a full 62-run marker, then a
    // pending 1-run flushed explicitly
    let pixels = vec![[0u8, 0, 0, 255]; 63];
    let mut state = State::new();
    let mut out = Vec::new();
    state.encode_some(&mut out, &pixels).unwrap();
    assert_eq!(out, vec![0xc0 | 61]);
    state.encode_flush(&mut out).unwrap();
    assert_eq!(out, vec![0xc0 | 61, 0xc0]);
    let mut decoder = State::new();
    let (px, _) = decoder.decode_some(63, &out).unwrap();
    assert_eq!(px, pixels);
}

#[test]
fn color_spec_codes() {
    assert_eq!(ColorSpec::Srgb8.code(), 0x0003);
    assert_eq!(ColorSpec::Srgb8A8.code(), 0x0004);
    assert_eq!(ColorSpec::Rgb8.code(), 0x0103);
    assert_eq!(ColorSpec::Rgba8.code(), 0x0104);
    assert_eq!(ColorSpec::from_code(0x0104), Some(ColorSpec::Rgba8));
    assert_eq!(ColorSpec::from_code(0x0777), None);
}

#[test]
fn hash_slot_reuse() {
    // encode a pixel, repeat something else, then hit the table slot
    let pixels = vec![
        [11, 22, 33, 255],
        [200, 200, 200, 255],
        [11, 22, 33, 255],
    ];
    let mut state = State::new();
    let mut out = Vec::new();
    state.encode_some(&mut out, &pixels).unwrap();
    state.encode_flush(&mut out).unwrap();
    let mut decoder = qoit::State::new();
    let (px, _) = decoder.decode_some(3, &out).unwrap();
    assert_eq!(px, pixels);
}

use bundle::lzss::{expand, ExpandError};
use bundle::formats::{load_cmp, load_tim, rgb15x1_to_rgba8, TimError, CmpError};
use bundle::pixmap::Rgba;
use bundle::image_set;

/// Append `n` bits of `value`, most significant first.
fn push_bits(bits: &mut Vec<bool>, value: u32, n: u32) {
    let mut i = n;
    while i > 0 {
        i -= 1;
        bits.push((value >> i) & 1 != 0);
    }
}

/// Pack an MSB-first bit list into bytes, padding with zeros.
fn pack_bits(bits: &[bool]) -> Vec<u8> {
    let mut out = Vec::new();
    for chunk in bits.chunks(8) {
        let mut b = 0u8;
        for (i, &bit) in chunk.iter().enumerate() {
            if bit {
                b |= 0x80 >> i;
            }
        }
        out.push(b);
    }
    out
}

/// Encode a byte string as an all-literals stream with a terminator.
fn lzss_literals(data: &[u8]) -> Vec<u8> {
    let mut bits = Vec::new();
    for &b in data {
        push_bits(&mut bits, 1, 1);
        push_bits(&mut bits, b as u32, 8);
    }
    push_bits(&mut bits, 0, 1);
    push_bits(&mut bits, 0, 13);
    pack_bits(&bits)
}

#[test]
fn expand_literals() {
    let compressed = lzss_literals(b"AB");
    assert_eq!(compressed, vec![0xA0, 0xD0, 0x80, 0x00]);
    let out = expand(&compressed).unwrap();
    assert_eq!(out, b"AB".to_vec());
}

#[test]
fn expand_overlapping_backref() {
    // one literal 'A', then a back-reference of three bytes starting at
    // the literal's window slot: it reads bytes it has just written
    let mut bits = Vec::new();
    push_bits(&mut bits, 1, 1);
    push_bits(&mut bits, 0x41, 8);
    push_bits(&mut bits, 0, 1);
    push_bits(&mut bits, 1, 13);
    push_bits(&mut bits, 0, 4);
    push_bits(&mut bits, 0, 1);
    push_bits(&mut bits, 0, 13);
    let compressed = pack_bits(&bits);
    let out = expand(&compressed).unwrap();
    assert_eq!(out, vec![0x41, 0x41, 0x41, 0x41]);
}

#[test]
fn expand_underrun_is_fatal() {
    // a literal flag with too few bits behind it
    assert_eq!(expand(&[0xA0]), Err(ExpandError::Underrun));
    // an empty stream has no terminator either
    assert_eq!(expand(&[]), Err(ExpandError::Underrun));
}

#[test]
fn palette_high_bit_decodes_transparent() {
    // flag bit set: alpha is exactly 0, whatever the colour bits say
    assert_eq!(rgb15x1_to_rgba8(0x8000), Rgba([0, 0, 0, 0]));
    assert_eq!(rgb15x1_to_rgba8(0xffff), Rgba([0, 0, 0, 0]));
    assert_eq!(rgb15x1_to_rgba8(0x83e0), Rgba([0, 0, 0, 0]));
    // an all-zero colour value also decodes transparent
    assert_eq!(rgb15x1_to_rgba8(0x0000), Rgba([0, 0, 0, 0]));
    // otherwise opaque, channels scaled from 5 to 8 bits
    assert_eq!(rgb15x1_to_rgba8(0x7fff), Rgba([255, 255, 255, 255]));
    assert_eq!(rgb15x1_to_rgba8(0x001f), Rgba([255, 0, 0, 255]));
    assert_eq!(rgb15x1_to_rgba8(0x03e0), Rgba([0, 255, 0, 255]));
    assert_eq!(rgb15x1_to_rgba8(0x7c00), Rgba([0, 0, 255, 255]));
    assert_eq!(rgb15x1_to_rgba8(0x0001), Rgba([8, 0, 0, 255]));
}

/// A 4-bit indexed raster, 8x8 pixels, every pixel the same palette
/// slot; slot 0 is transparent, slot 1 opaque white.
fn synthetic_tim(slot: u8) -> Vec<u8> {
    let mut tim = Vec::new();
    tim.extend_from_slice(&[0x10, 0, 0, 0, 0x08, 0, 0, 0]);
    // palette block: length 44, 16 entries from byte 12
    tim.extend_from_slice(&44u32.to_le_bytes());
    tim.extend_from_slice(&[0; 8]);
    tim.extend_from_slice(&0x0000u16.to_le_bytes());
    tim.extend_from_slice(&0x7fffu16.to_le_bytes());
    for _ in 2..16 {
        tim.extend_from_slice(&0u16.to_le_bytes());
    }
    // pixel block: 32 data bytes, stored width in 16-bit texels
    tim.extend_from_slice(&44u32.to_le_bytes());
    tim.extend_from_slice(&[0; 4]);
    tim.extend_from_slice(&2u16.to_le_bytes());
    tim.extend_from_slice(&8u16.to_le_bytes());
    let byte = slot | (slot << 4);
    tim.extend_from_slice(&[byte; 32]);
    tim
}

/// A container of indexed rasters, compressed as one literal stream.
fn synthetic_cmp(tims: &[Vec<u8>]) -> Vec<u8> {
    let mut cmp = Vec::new();
    cmp.extend_from_slice(&(tims.len() as u32).to_le_bytes());
    let mut payload = Vec::new();
    for tim in tims {
        cmp.extend_from_slice(&(tim.len() as u32).to_le_bytes());
        payload.extend_from_slice(tim);
    }
    cmp.extend_from_slice(&lzss_literals(&payload));
    cmp
}

#[test]
fn decode_synthetic_container() {
    // two 8x8 images; the second's indices all name palette slot 0,
    // which decodes fully transparent
    let cmp = synthetic_cmp(&[synthetic_tim(1), synthetic_tim(0)]);
    let images = load_cmp(&cmp).unwrap();
    assert_eq!(images.len(), 2);
    for pm in &images {
        assert_eq!(pm.wide(), 8);
        assert_eq!(pm.high(), 8);
        assert_eq!(pm.pixels.len(), 64);
    }
    assert!(images[0].pixels.iter().all(|&p| p == Rgba([255, 255, 255, 255])));
    assert!(images[1].pixels.iter().all(|&p| p == Rgba([0, 0, 0, 0])));
}

#[test]
fn zero_length_entry_is_a_placeholder() {
    let mut cmp = Vec::new();
    cmp.extend_from_slice(&2u32.to_le_bytes());
    let tim = synthetic_tim(1);
    cmp.extend_from_slice(&0u32.to_le_bytes());
    cmp.extend_from_slice(&(tim.len() as u32).to_le_bytes());
    cmp.extend_from_slice(&lzss_literals(&tim));
    let images = load_cmp(&cmp).unwrap();
    assert_eq!(images.len(), 2);
    assert_eq!(images[0].wide(), 1);
    assert_eq!(images[0].high(), 1);
    assert_eq!(images[0].pixels, vec![Rgba([0, 0, 0, 0])]);
    assert_eq!(images[1].wide(), 8);
}

#[test]
fn tim_errors() {
    assert_eq!(load_tim(&[0x10, 0]), Err(TimError::Truncated));
    assert_eq!(load_tim(&[0x11, 0, 0, 0, 0x08, 0, 0, 0]), Err(TimError::NotATim));
    // clut flag says indexed but the type nibble says direct colour
    assert_eq!(load_tim(&[0x10, 0, 0, 0, 0x0a, 0, 0, 0]),
        Err(TimError::InconsistentHeader));
    assert_eq!(load_tim(&[0x10, 0, 0, 0, 0x02, 0, 0, 0]), Err(TimError::DirectColour));
    let mut bad = synthetic_tim(1);
    bad[8] = 46; // palette block length that fits no pixel type
    assert_eq!(load_tim(&bad), Err(TimError::WrongSizedClut));
}

#[test]
fn cmp_errors() {
    assert_eq!(load_cmp(&[1, 0]), Err(CmpError::Truncated));
    // a length table pointing past the decompressed payload
    let mut cmp = Vec::new();
    cmp.extend_from_slice(&1u32.to_le_bytes());
    cmp.extend_from_slice(&99u32.to_le_bytes());
    cmp.extend_from_slice(&lzss_literals(b"xy"));
    assert_eq!(load_cmp(&cmp), Err(CmpError::BadLength));
    // a payload that is not a well-formed compressed stream
    let mut cmp = Vec::new();
    cmp.extend_from_slice(&1u32.to_le_bytes());
    cmp.extend_from_slice(&1u32.to_le_bytes());
    cmp.extend_from_slice(&[0xA0]);
    assert_eq!(load_cmp(&cmp), Err(CmpError::Compression));
}

#[test]
fn image_set_plain() {
    let cmp = synthetic_cmp(&[synthetic_tim(1), synthetic_tim(0)]);
    let iset = image_set::build(&cmp, None).unwrap();
    assert_eq!(iset.sizes, vec![(8, 8), (8, 8)]);
    // decode the stream back: both rasters, back to back
    let mut state = bundle::qoit::State::new();
    let (px, used) = state.decode_some(128, &iset.qoi_stream).unwrap();
    assert_eq!(used, iset.qoi_stream.len());
    assert!(px[..64].iter().all(|&p| p == [255, 255, 255, 255]));
    assert!(px[64..].iter().all(|&p| p == [0, 0, 0, 0]));
}

#[test]
fn image_set_composited() {
    let cmp = synthetic_cmp(&[synthetic_tim(1)]);
    // one index-map record: all sixteen tiles name fragment 0
    let map = vec![0u8; 42];
    let iset = image_set::build(&cmp, Some(&map)).unwrap();
    assert_eq!(iset.sizes, vec![(32, 32)]);
    let mut state = bundle::qoit::State::new();
    let (px, used) = state.decode_some(32 * 32, &iset.qoi_stream).unwrap();
    assert_eq!(used, iset.qoi_stream.len());
    assert!(px.iter().all(|&p| p == [255, 255, 255, 255]));
}

#[test]
fn image_set_bad_map() {
    let cmp = synthetic_cmp(&[synthetic_tim(1)]);
    assert_eq!(image_set::build(&cmp, Some(&[0u8; 41])),
        Err(image_set::ImageSetError::BadMapLength));
    let mut map = vec![0u8; 42];
    map[1] = 7; // fragment 7 of a one-image set
    assert_eq!(image_set::build(&cmp, Some(&map)),
        Err(image_set::ImageSetError::FragIndex));
}

/// An 8-bit indexed raster, 8x8 pixels, every pixel the same slot.
fn synthetic_tim_8bit(slot: u8) -> Vec<u8> {
    let mut tim = Vec::new();
    tim.extend_from_slice(&[0x10, 0, 0, 0, 0x09, 0, 0, 0]);
    // palette block: length 524, 256 entries from byte 12
    tim.extend_from_slice(&524u32.to_le_bytes());
    tim.extend_from_slice(&[0; 8]);
    tim.extend_from_slice(&0x0000u16.to_le_bytes());
    tim.extend_from_slice(&0x001fu16.to_le_bytes());
    for _ in 2..256 {
        tim.extend_from_slice(&0u16.to_le_bytes());
    }
    // pixel block: 64 data bytes, stored width in 16-bit texels
    tim.extend_from_slice(&76u32.to_le_bytes());
    tim.extend_from_slice(&[0; 4]);
    tim.extend_from_slice(&4u16.to_le_bytes());
    tim.extend_from_slice(&8u16.to_le_bytes());
    tim.extend_from_slice(&[slot; 64]);
    tim
}

#[test]
fn decode_eight_bit_tim() {
    let pm = load_tim(&synthetic_tim_8bit(1)).unwrap();
    assert_eq!(pm.wide(), 8);
    assert_eq!(pm.high(), 8);
    assert!(pm.pixels.iter().all(|&p| p == Rgba([255, 0, 0, 255])));
}

use qoi_image::my_image::{DecodeErrorKind, Image, ImageDecodeError};

fn header(w: u32, h: u32, ch: u8, cs: u8) -> Vec<u8> {
    let mut v = vec![0x71, 0x6f, 0x69, 0x66];
    v.extend_from_slice(&w.to_be_bytes());
    v.extend_from_slice(&h.to_be_bytes());
    v.push(ch);
    v.push(cs);
    v
}

fn marker() -> Vec<u8> {
    vec![0, 0, 0, 0, 0, 0, 0, 1]
}

#[test]
fn encode_single_rgba_pixel() {
    // A 1x1 image whose pixel keeps the default alpha encodes as one RGB
    // literal between header and end marker: 26 bytes in all.
    let img = Image::from(vec![10, 20, 30, 255], 1, 4);
    let out = img.encode_qoi(0);
    let mut expect = header(1, 1, 4, 0);
    expect.extend_from_slice(&[0xfe, 10, 20, 30]);
    expect.extend_from_slice(&marker());
    assert_eq!(out.len(), 26);
    assert_eq!(out, expect);
    let back = Image::decode_qoi(&out).unwrap();
    assert_eq!(back.width, 1);
    assert_eq!(back.height, 1);
    assert_eq!(back.stride, 4);
    assert_eq!(back.pixels, vec![10, 20, 30, 255]);
}

#[test]
fn encode_two_identical_pixels() {
    // Two identical pixels: the first cannot extend a run (the register
    // starts at (0,0,0,255)), so it is a luma diff; the second is a run of 1.
    let img = Image::from(vec![5, 5, 5, 255, 5, 5, 5, 255], 2, 4);
    let out = img.encode_qoi(0);
    let mut expect = header(2, 1, 4, 0);
    expect.extend_from_slice(&[0xa5, 0x88, 0xc0]);
    expect.extend_from_slice(&marker());
    assert_eq!(out, expect);
    let back = Image::decode_qoi(&out).unwrap();
    assert_eq!(back.pixels, vec![5, 5, 5, 255, 5, 5, 5, 255]);
}

#[test]
fn cache_index_of_unwritten_slot_is_zero_pixel() {
    // An index opcode naming a slot that was never written yields the
    // zero-initialized cache entry (0,0,0,0) - not the previous-pixel
    // default, whose alpha is 255.
    let mut data = header(1, 1, 4, 0);
    data.push(0x05);
    data.extend_from_slice(&marker());
    let img = Image::decode_qoi(&data).unwrap();
    assert_eq!(img.pixels, vec![0, 0, 0, 0]);
}

#[test]
fn run_of_62_is_one_opcode() {
    // 62 pixels equal to the initial previous pixel: exactly one run opcode
    // with length field 61.
    let img = Image::from([0u8, 0, 0, 255].repeat(62), 62, 4);
    let out = img.encode_qoi(0);
    let mut expect = header(62, 1, 4, 0);
    expect.push(0xfd);
    expect.extend_from_slice(&marker());
    assert_eq!(out, expect);
    let back = Image::decode_qoi(&out).unwrap();
    assert_eq!(back.pixels, [0u8, 0, 0, 255].repeat(62));
}

#[test]
fn run_of_63_is_two_opcodes() {
    // One more pixel than a run can hold: a run of 62 then a run of 1.
    let img = Image::from([0u8, 0, 0, 255].repeat(63), 63, 4);
    let out = img.encode_qoi(0);
    let mut expect = header(63, 1, 4, 0);
    expect.extend_from_slice(&[0xfd, 0xc0]);
    expect.extend_from_slice(&marker());
    assert_eq!(out, expect);
    let back = Image::decode_qoi(&out).unwrap();
    assert_eq!(back.pixels, [0u8, 0, 0, 255].repeat(63));
}

#[test]
fn small_diff_opcode_is_used() {
    // Second pixel differs by (+1,-2,+1) with alpha unchanged: one small-diff
    // byte, not a literal.
    let img = Image::from(vec![10, 10, 10, 255, 11, 8, 11, 255], 2, 4);
    let out = img.encode_qoi(0);
    let mut expect = header(2, 1, 4, 0);
    expect.extend_from_slice(&[0xaa, 0x88, 0x73]);
    expect.extend_from_slice(&marker());
    assert_eq!(out, expect);
    let back = Image::decode_qoi(&out).unwrap();
    assert_eq!(back.pixels, img.pixels);
}

#[test]
fn plus_two_diff_uses_luma_not_literal() {
    // A (+2,-2,+1) step does not fit the small-diff fields, whose range is
    // [-2,1]; it still avoids a literal by using the two-byte luma opcode.
    let img = Image::from(vec![10, 10, 10, 255, 12, 8, 11, 255], 2, 4);
    let out = img.encode_qoi(0);
    // header + luma for the first pixel + luma for the second + marker
    assert_eq!(out.len(), 14 + 2 + 2 + 8);
    let back = Image::decode_qoi(&out).unwrap();
    assert_eq!(back.pixels, img.pixels);
}

#[test]
fn round_trip_rgb_image() {
    let pixels = vec![
        1, 2, 3, 200, 100, 50, 1, 2, 3, 7, 7, 7, 250, 0, 128, 13, 77, 201,
    ];
    let img = Image::from(pixels.clone(), 3, 3);
    let out = img.encode_qoi(1);
    assert_eq!(out[13], 1); // colorspace byte passes through
    let back = Image::decode_qoi(&out).unwrap();
    assert_eq!(back.width, 3);
    assert_eq!(back.height, 2);
    assert_eq!(back.stride, 3);
    assert_eq!(back.pixels, pixels);
}

#[test]
fn round_trip_rgba_with_alpha_changes() {
    // Alpha changes force RGBA literals; equal pixels later hit the cache.
    let pixels = vec![
        1, 2, 3, 10, 9, 8, 7, 200, 1, 2, 3, 10, 255, 255, 255, 0,
    ];
    let img = Image::from(pixels.clone(), 4, 4);
    let out = img.encode_qoi(0);
    let back = Image::decode_qoi(&out).unwrap();
    assert_eq!(back.width, 4);
    assert_eq!(back.height, 1);
    assert_eq!(back.stride, 4);
    assert_eq!(back.pixels, pixels);
}

#[test]
fn round_trip_wraparound_diffs() {
    // Differences that wrap past 0 and 255 still round-trip: the codec's
    // arithmetic is modulo 256 throughout.
    let pixels = vec![
        255, 0, 254, 255, 1, 254, 255, 255, 128, 130, 1, 255, 127, 131, 3, 255,
    ];
    let img = Image::from(pixels.clone(), 2, 4);
    let out = img.encode_qoi(0);
    let back = Image::decode_qoi(&out).unwrap();
    assert_eq!(back.pixels, pixels);
}

#[test]
fn invalid_magic_is_rejected() {
    let mut data = header(1, 1, 4, 0);
    data[0] = 0x70;
    data.push(0xfe);
    data.extend_from_slice(&[1, 2, 3]);
    data.extend_from_slice(&marker());
    let err = Image::decode_qoi(&data).unwrap_err();
    assert_eq!(err, ImageDecodeError { position: 0, kind: DecodeErrorKind::InvalidMagic });
}

#[test]
fn short_stream_is_rejected_as_invalid_magic() {
    let err = Image::decode_qoi(&[0x71, 0x6f]).unwrap_err();
    assert_eq!(err, ImageDecodeError { position: 0, kind: DecodeErrorKind::InvalidMagic });
}

#[test]
fn truncated_header_is_rejected() {
    let data = [0x71, 0x6f, 0x69, 0x66, 0, 0, 0];
    let err = Image::decode_qoi(&data).unwrap_err();
    assert_eq!(err, ImageDecodeError { position: 7, kind: DecodeErrorKind::UnexpectedEof });
}

#[test]
fn bad_channel_count_is_rejected() {
    let mut data = header(1, 1, 5, 0);
    data.push(0xfe);
    data.extend_from_slice(&[1, 2, 3]);
    data.extend_from_slice(&marker());
    let err = Image::decode_qoi(&data).unwrap_err();
    assert_eq!(err, ImageDecodeError { position: 12, kind: DecodeErrorKind::InvalidHeader });
}

#[test]
fn zero_width_is_rejected() {
    let mut data = header(0, 1, 4, 0);
    data.extend_from_slice(&marker());
    let err = Image::decode_qoi(&data).unwrap_err();
    assert_eq!(err, ImageDecodeError { position: 4, kind: DecodeErrorKind::InvalidHeader });
}

#[test]
fn zero_height_is_rejected() {
    let mut data = header(1, 0, 4, 0);
    data.extend_from_slice(&marker());
    let err = Image::decode_qoi(&data).unwrap_err();
    assert_eq!(err, ImageDecodeError { position: 8, kind: DecodeErrorKind::InvalidHeader });
}

#[test]
fn stream_ending_mid_opcode_is_rejected() {
    // An RGB literal needs three bytes after its tag; only two follow.
    let mut data = header(1, 1, 4, 0);
    data.extend_from_slice(&[0xfe, 1, 2]);
    let err = Image::decode_qoi(&data).unwrap_err();
    assert_eq!(err, ImageDecodeError { position: 14, kind: DecodeErrorKind::UnexpectedEof });
}

#[test]
fn stream_ending_before_pixels_is_rejected() {
    // The header promises a pixel but no opcode follows.
    let data = header(1, 1, 4, 0);
    let err = Image::decode_qoi(&data).unwrap_err();
    assert_eq!(err, ImageDecodeError { position: 14, kind: DecodeErrorKind::TruncatedStream });
}

#[test]
fn stream_ending_before_marker_is_rejected() {
    let mut data = header(1, 1, 4, 0);
    data.extend_from_slice(&[0xfe, 1, 2, 3]);
    data.extend_from_slice(&[0, 0, 0]);
    let err = Image::decode_qoi(&data).unwrap_err();
    assert_eq!(err, ImageDecodeError { position: 21, kind: DecodeErrorKind::TruncatedStream });
}

#[test]
fn wrong_end_marker_is_rejected() {
    let mut data = header(1, 1, 4, 0);
    data.extend_from_slice(&[0xfe, 1, 2, 3]);
    data.extend_from_slice(&[0, 0, 0, 0, 0, 0, 0, 2]);
    let err = Image::decode_qoi(&data).unwrap_err();
    assert_eq!(err, ImageDecodeError { position: 18, kind: DecodeErrorKind::MissingEndMarker });
}

#[test]
fn trailing_bytes_after_marker_are_ignored() {
    let mut data = header(1, 1, 4, 0);
    data.extend_from_slice(&[0xfe, 1, 2, 3]);
    data.extend_from_slice(&marker());
    data.extend_from_slice(&[9, 9, 9]);
    let img = Image::decode_qoi(&data).unwrap();
    assert_eq!(img.pixels, vec![1, 2, 3, 255]);
}

#[test]
fn decode_run_capped_at_pixel_budget() {
    // A run opcode longer than the remaining budget fills exactly the
    // declared pixel count.
    let mut data = header(2, 1, 4, 0);
    data.extend_from_slice(&[0xfe, 1, 2, 3]);
    data.push(0xfd); // run of 62, but only one pixel is still owed
    data.extend_from_slice(&marker());
    let img = Image::decode_qoi(&data).unwrap();
    assert_eq!(img.pixels, vec![1, 2, 3, 255, 1, 2, 3, 255]);
}

#[test]
fn new_makes_empty_image() {
    let img = Image::new(2, 3, 4);
    assert_eq!(img.width, 2);
    assert_eq!(img.height, 3);
    assert_eq!(img.stride, 4);
    assert!(img.pixels.is_empty());
}

#[test]
fn from_derives_height() {
    let img = Image::from(vec![0; 24], 2, 4);
    assert_eq!(img.width, 2);
    assert_eq!(img.height, 3);
    assert_eq!(img.stride, 4);
}

#[test]
fn get_pixel_returns_channel_bytes() {
    let img = Image::from(vec![1, 2, 3, 4, 5, 6, 7, 8, 9, 10, 11, 12], 2, 3);
    assert_eq!(img.get_pixel(0, 0), &[1, 2, 3]);
    assert_eq!(img.get_pixel(1, 0), &[4, 5, 6]);
    assert_eq!(img.get_pixel(0, 1), &[7, 8, 9]);
    assert_eq!(img.get_pixel(1, 1), &[10, 11, 12]);
}

#[test]
fn get_pixel_mut_overwrites_one_pixel() {
    let mut img = Image::from(vec![1, 2, 3, 4, 5, 6, 7, 8, 9, 10, 11, 12], 2, 3);
    img.get_pixel_mut(1, 0, &[90, 91, 92]);
    assert_eq!(img.pixels, vec![1, 2, 3, 90, 91, 92, 7, 8, 9, 10, 11, 12]);
}

#[test]
fn decode_conforming_foreign_stream() {
    // A stream a different conforming encoder might produce: an RGBA literal
    // followed by an index opcode naming its slot.
    let px = [7u8, 14, 21, 100];
    // hash: (7*3 + 14*5 + 21*7 + 100*11) mod 64, products wrapped at 8 bits
    let slot = ((7u32 * 3) % 256 + (14 * 5) % 256 + (21 * 7) % 256 + (100 * 11) % 256) % 64;
    let mut data = header(2, 1, 4, 0);
    data.push(0xff);
    data.extend_from_slice(&px);
    data.push(slot as u8);
    data.extend_from_slice(&marker());
    let img = Image::decode_qoi(&data).unwrap();
    assert_eq!(img.pixels, vec![7, 14, 21, 100, 7, 14, 21, 100]);
}

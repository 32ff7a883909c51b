use qoi_codec::{
    check_pixel_count, decode, encode, Channels, ColorSpace, Data, DecodeError, Header, Rgba,
    Source,
};

fn rgba(red: u8, green: u8, blue: u8, alpha: u8) -> Rgba {
    Rgba { red, green, blue, alpha }
}

fn header(width: u32, height: u32) -> Header {
    Header { width, height, channels: Channels::Rgba, colorspace: ColorSpace::SRgbWithLinearAlpha }
}

const END: [u8; 8] = [0, 0, 0, 0, 0, 0, 0, 1];

fn stream(head: &Header, chunks: &[u8], end: bool) -> Vec<u8> {
    let mut v = head.encode().to_vec();
    v.extend_from_slice(chunks);
    if end {
        v.extend_from_slice(&END);
    }
    v
}

#[test]
fn it_works() {
    let result = 2 + 2;
    assert_eq!(result, 4);
}

#[test]
fn new_is_opaque_black_and_zero_is_transparent() {
    assert_eq!(Rgba::new(), rgba(0, 0, 0, 255));
    assert_eq!(Rgba::zero(), rgba(0, 0, 0, 0));
}

#[test]
fn hash_index_values() {
    assert_eq!(Rgba::zero().hash_index(), 0);
    assert_eq!(rgba(10, 20, 30, 255).hash_index(), 9);
    assert_eq!(rgba(255, 255, 255, 255).hash_index(), 38);
    assert_eq!(rgba(1, 1, 1, 0).hash_index(), 15);
    let a = rgba(7, 8, 9, 10);
    let b = rgba(7, 8, 9, 10);
    assert_eq!(a.hash_index(), b.hash_index());
    for r in 0..=255u8 {
        for a in [0u8, 1, 128, 255] {
            let c = rgba(r, r.wrapping_mul(3), r ^ 0x5a, a);
            let wide = (r as u32 * 3 + c.green as u32 * 5 + c.blue as u32 * 7 + a as u32 * 11) % 64;
            assert_eq!(c.hash_index() as u32, wide);
            assert!(c.hash_index() < 64);
        }
    }
}

#[test]
fn header_bytes_are_big_endian() {
    let h = Header {
        width: 0x0102_0304,
        height: 0x0a0b_0c0d,
        channels: Channels::Rgb,
        colorspace: ColorSpace::FullLinear,
    };
    assert_eq!(h.encode(), [b'q', b'o', b'i', b'f', 1, 2, 3, 4, 10, 11, 12, 13, 3, 1]);
    let mut s = Source::new(h.encode().to_vec());
    assert_eq!(Header::decode(&mut s), Some(h));
    assert_eq!(s.len(), 0);
}

#[test]
fn header_default() {
    let h = Header::default();
    assert_eq!(h.encode(), [b'q', b'o', b'i', b'f', 0, 0, 0, 0, 0, 0, 0, 0, 3, 0]);
}

#[test]
fn channel_and_colorspace_bytes() {
    assert_eq!(Channels::try_from(3), Ok(Channels::Rgb));
    assert_eq!(Channels::try_from(4), Ok(Channels::Rgba));
    assert_eq!(Channels::try_from(5), Err(()));
    assert_eq!(ColorSpace::try_from(0), Ok(ColorSpace::SRgbWithLinearAlpha));
    assert_eq!(ColorSpace::try_from(1), Ok(ColorSpace::FullLinear));
    assert_eq!(ColorSpace::try_from(2), Err(()));
}

#[test]
fn header_rejects_bad_bytes() {
    let mut bad_channels = stream(&header(1, 1), &[], true);
    bad_channels[12] = 5;
    assert_eq!(decode(bad_channels), Err(DecodeError::Header));
    let mut bad_space = stream(&header(1, 1), &[], true);
    bad_space[13] = 2;
    assert_eq!(decode(bad_space), Err(DecodeError::Header));
    assert_eq!(decode(vec![b'q', b'o', b'i', b'f', 0, 0, 0]), Err(DecodeError::Header));
}

#[test]
fn malformed_magic_fails_with_header_error() {
    let mut bytes = stream(&header(1, 1), &[0xff, 1, 2, 3, 4], true);
    bytes[3] = b'g';
    assert_eq!(decode(bytes.clone()), Err(DecodeError::Header));
    let mut data = Data::new();
    let mut sink: Vec<Rgba> = Vec::new();
    let mut s = Source::new(bytes);
    assert_eq!(data.decode_into(&mut s, &mut sink), Err(DecodeError::Header));
    assert!(sink.is_empty());
}

#[test]
fn missing_terminator() {
    let bytes = stream(&header(1, 1), &[0xff, 1, 2, 3, 4], false);
    assert_eq!(decode(bytes), Err(DecodeError::MissingTerminator));
}

#[test]
fn truncated_chunks() {
    assert_eq!(decode(stream(&header(1, 1), &[0xfe, 1], false)), Err(DecodeError::OutOfBytes));
    assert_eq!(decode(stream(&header(1, 1), &[0xff, 1, 2, 3], false)), Err(DecodeError::OutOfBytes));
    assert_eq!(decode(stream(&header(1, 1), &[0xa0], false)), Err(DecodeError::OutOfBytes));
}

#[test]
fn single_rgba_pixel_scenario() {
    let h = header(1, 1);
    let px = vec![rgba(10, 20, 30, 255)];
    let bytes = encode(&h, &px);
    assert_eq!(
        bytes,
        vec![
            b'q', b'o', b'i', b'f', 0, 0, 0, 1, 0, 0, 0, 1, 4, 0, 0xff, 10, 20, 30, 255, 0, 0, 0,
            0, 0, 0, 0, 1
        ]
    );
    assert_eq!(decode(bytes), Ok((h, px)));
}

#[test]
fn run_of_62_then_other() {
    let h = header(63, 1);
    let mut px = vec![Rgba::zero(); 62];
    px.push(rgba(10, 20, 30, 255));
    let bytes = encode(&h, &px);
    assert_eq!(bytes, stream(&h, &[0xc0 | 61, 0xff, 10, 20, 30, 255], true));
    assert_eq!(decode(bytes), Ok((h, px)));
}

#[test]
fn run_of_63_splits() {
    let h = header(63, 1);
    let px = vec![Rgba::zero(); 63];
    let bytes = encode(&h, &px);
    assert_eq!(bytes, stream(&h, &[0xc0 | 61, 0xc0], true));
    assert_eq!(decode(bytes), Ok((h, px)));
}

#[test]
fn diff_range_boundary() {
    let h = header(1, 1);
    let small = encode(&h, &vec![rgba(1, 1, 1, 0)]);
    assert_eq!(small, stream(&h, &[0x7f], true));
    let wide = encode(&h, &vec![rgba(2, 0, 0, 0)]);
    assert_eq!(wide, stream(&h, &[0xa0, 0xa8], true));
    assert_eq!(decode(wide), Ok((h, vec![rgba(2, 0, 0, 0)])));
    let down = encode(&h, &vec![rgba(254, 255, 0, 0)]);
    assert_eq!(down, stream(&h, &[0x40 | (0 << 4) | (1 << 2) | 2], true));
}

#[test]
fn literal_rgb_keeps_alpha() {
    let h = header(2, 1);
    let px = vec![rgba(0, 0, 0, 200), rgba(100, 0, 200, 200)];
    let bytes = encode(&h, &px);
    assert_eq!(bytes, stream(&h, &[0xff, 0, 0, 0, 200, 0xfe, 100, 0, 200], true));
    assert_eq!(decode(bytes), Ok((h, px)));
}

#[test]
fn index_chunk_reuses_table() {
    let h = header(3, 1);
    let a = rgba(10, 20, 30, 255);
    let b = rgba(200, 100, 50, 255);
    let px = vec![a, b, a];
    let bytes = encode(&h, &px);
    assert_eq!(bytes, stream(&h, &[0xff, 10, 20, 30, 255, 0xfe, 200, 100, 50, a.hash_index()], true));
    assert_eq!(decode(bytes), Ok((h, px)));
}

#[test]
fn luma_decodes_exactly() {
    // green +5, red +5-3, blue +5+2
    let h = header(1, 1);
    let bytes = stream(&h, &[0x80 | (5 + 32), ((8 - 3) << 4) | (8 + 2)], true);
    assert_eq!(decode(bytes), Ok((h, vec![rgba(2, 5, 7, 0)])));
}

#[test]
fn diff_wraps_around() {
    let h = header(1, 1);
    // red -2, green -1, blue +1 from transparent black
    let bytes = stream(&h, &[0x40 | (0 << 4) | (1 << 2) | 3], true);
    assert_eq!(decode(bytes), Ok((h, vec![rgba(254, 255, 1, 0)])));
}

#[test]
fn run_chunk_repeats_previous() {
    let h = header(4, 1);
    let bytes = stream(&h, &[0xff, 9, 8, 7, 6, 0xc0 | 2], true);
    let c = rgba(9, 8, 7, 6);
    assert_eq!(decode(bytes), Ok((h, vec![c, c, c, c])));
}

#[test]
fn cache_holds_decoded_colors() {
    let h = header(3, 1);
    let bytes = stream(&h, &[0xff, 9, 8, 7, 6, 0x7f, 0xa0, 0xa8], true);
    let mut data = Data::new();
    let mut sink: Vec<Rgba> = Vec::new();
    let mut s = Source::new(bytes);
    assert_eq!(data.decode_into(&mut s, &mut sink), Ok(h));
    assert_eq!(sink.len(), 3);
    for c in &sink {
        assert_eq!(data.stored_pixels[c.hash_index() as usize], *c);
    }
    assert_eq!(data.last_seen_pixel, sink[2]);
    data.reset();
    assert_eq!(data.last_seen_pixel, Rgba::zero());
    assert!(data.stored_pixels.iter().all(|c| *c == Rgba::zero()));
}

#[test]
fn bytes_after_terminator_are_left() {
    let h = header(1, 1);
    let mut bytes = stream(&h, &[0xff, 1, 2, 3, 4], true);
    bytes.push(42);
    let mut data = Data::new();
    let mut sink: Vec<Rgba> = Vec::new();
    let mut s = Source::new(bytes);
    assert_eq!(data.decode_into(&mut s, &mut sink), Ok(h));
    assert_eq!(s.len(), 1);
    assert_eq!(s.next(), Some(42));
}

#[test]
fn rgba_decoding_from_source() {
    let mut s = Source::new(vec![1, 2, 3, 4, 5]);
    assert_eq!(Rgba::decode(&mut s), Some(rgba(1, 2, 3, 4)));
    assert_eq!(Rgba::decode_with_alpha(&mut s, 9), None);
    let mut t = Source::new(vec![1, 2, 3]);
    assert_eq!(Rgba::decode_with_alpha(&mut t, 9), Some(rgba(1, 2, 3, 9)));
    assert_eq!(t.peek(0), None);
}

#[test]
fn pixel_count_check() {
    let h = header(2, 3);
    assert_eq!(check_pixel_count(&h, &vec![Rgba::zero(); 6]), Ok(()));
    assert_eq!(check_pixel_count(&h, &vec![Rgba::zero(); 5]), Err(DecodeError::PixelCountMismatch));
}

#[test]
fn round_trip_mixed_image() {
    let h = Header { width: 16, height: 16, channels: Channels::Rgb, colorspace: ColorSpace::FullLinear };
    let mut px = Vec::new();
    for y in 0..16u32 {
        for x in 0..16u32 {
            let v = (x * 7 + y * 13) as u8;
            let c = if x % 5 == 0 { rgba(0, 0, 0, 0) } else { rgba(v, v.wrapping_add(x as u8), 255 - v, if y % 3 == 0 { 255 } else { v }) };
            px.push(c);
        }
    }
    let bytes = encode(&h, &px);
    assert_eq!(decode(bytes), Ok((h, px)));
}

#[test]
fn round_trip_empty_image() {
    let h = header(0, 0);
    let bytes = encode(&h, &Vec::new());
    assert_eq!(bytes.len(), 22);
    assert_eq!(decode(bytes), Ok((h, Vec::new())));
}

use pmd_cte::{
    read_in_image_order, traversal_offset, traversal_step, CteDecodeError, CteEncodeError,
    CteFormat, CteImage, RasterImage,
};

fn le(v: u32) -> [u8; 4] {
    v.to_le_bytes()
}

fn stream(id: u32, width: u32, height: u32, bits: u32, offset: u32) -> Vec<u8> {
    let mut out = vec![0x00, 0x63, 0x74, 0x65];
    for v in [id, width, height, bits, 0, offset] {
        out.extend_from_slice(&le(v));
    }
    out
}

fn padded(id: u32, width: u32, height: u32, payload: &[u8]) -> Vec<u8> {
    let mut out = stream(id, width, height, 8, 128);
    out.resize(128, 0);
    out.extend_from_slice(payload);
    out
}

fn pixel(img: &RasterImage, x: u32, y: u32) -> [u8; 4] {
    img.get_pixel(x, y)
}

#[test]
fn decode_all_zero_payload_gives_blank_image() {
    for (w, h) in [(8u32, 8u32), (16, 8), (8, 24), (32, 16)] {
        let bytes = padded(8, w, h, &vec![0u8; (w * h) as usize]);
        let img = CteImage::decode_cte(&bytes).unwrap();
        assert_eq!(img.original_format, CteFormat::A8);
        assert_eq!(img.image.width, w);
        assert_eq!(img.image.height, h);
        assert_eq!(img.image.data.len(), (w * h * 4) as usize);
        assert!(img.image.data.iter().all(|&b| b == 0));
    }
}

#[test]
fn decode_zero_sized_image() {
    let bytes = padded(8, 0, 0, &[]);
    let img = CteImage::decode_cte(&bytes).unwrap();
    assert_eq!(img.image.width, 0);
    assert_eq!(img.image.height, 0);
    assert!(img.image.data.is_empty());
}

#[test]
fn header_round_trip() {
    let (w, h) = (16u32, 24u32);
    let data: Vec<u8> = (0..w * h * 4).map(|i| (i * 7 % 251) as u8).collect();
    let img = CteImage {
        original_format: CteFormat::A8,
        image: RasterImage { width: w, height: h, data },
    };
    let mut out = Vec::new();
    img.encode_cte(&mut out).unwrap();
    assert_eq!(out.len(), 128 + (w * h) as usize);
    assert_eq!(&out[0..4], &[0x00, 0x63, 0x74, 0x65]);
    assert_eq!(&out[4..8], &le(8));
    assert_eq!(&out[8..12], &le(w));
    assert_eq!(&out[12..16], &le(h));
    assert_eq!(&out[16..20], &le(8));
    assert_eq!(&out[20..24], &le(0));
    assert_eq!(&out[24..28], &le(128));
    assert!(out[28..128].iter().all(|&b| b == 0));
    let back = CteImage::decode_cte(&out).unwrap();
    assert_eq!(back.original_format, CteFormat::A8);
    assert_eq!(back.image.width, w);
    assert_eq!(back.image.height, h);
}

#[test]
fn encode_appends_to_existing_output() {
    let img = CteImage {
        original_format: CteFormat::A8,
        image: RasterImage { width: 8, height: 8, data: vec![0; 256] },
    };
    let mut out = vec![9u8, 9];
    img.encode_cte(&mut out).unwrap();
    assert_eq!(out.len(), 2 + 128 + 64);
    assert_eq!(&out[0..2], &[9, 9]);
    assert_eq!(&out[2..6], &[0x00, 0x63, 0x74, 0x65]);
}

#[test]
fn unpack_extreme_bytes() {
    assert_eq!(CteFormat::A8.unpack_pixel(0xFF), [15, 15, 15, 240]);
    assert_eq!(CteFormat::A8.unpack_pixel(0x00), [0, 0, 0, 0]);
    assert_eq!(CteFormat::A8.unpack_pixel(0x3A), [3, 3, 3, 160]);
}

#[test]
fn pack_then_unpack_loses_low_alpha_bits() {
    let byte = CteFormat::A8.pack_pixel(10, 20, 30, 255);
    assert_eq!(byte, 4 * 16 + 15);
    let back = CteFormat::A8.unpack_pixel(byte);
    assert_eq!(back[3], 240);
    assert_eq!(back[0], 4);
}

#[test]
fn pack_formula_values() {
    assert_eq!(CteFormat::A8.pack_pixel(255, 255, 255, 255), 0xFF);
    assert_eq!(CteFormat::A8.pack_pixel(0, 0, 0, 0), 0x00);
    assert_eq!(CteFormat::A8.pack_pixel(3, 3, 3, 31), 0x31);
    // mean 17 keeps only its low nibble in the high half of the byte
    assert_eq!(CteFormat::A8.pack_pixel(17, 17, 17, 0), 0x10);
}

#[test]
fn decode_rejects_bad_magic() {
    let mut bytes = padded(8, 8, 8, &[0; 64]);
    bytes[1] = 0x64;
    assert_eq!(
        CteImage::decode_cte(&bytes).err(),
        Some(CteDecodeError::InvalidHeader([0x00, 0x64, 0x74, 0x65]))
    );
    let short = vec![0x01, 0x02, 0x03, 0x04];
    assert_eq!(
        CteImage::decode_cte(&short).err(),
        Some(CteDecodeError::InvalidHeader([1, 2, 3, 4]))
    );
}

#[test]
fn decode_rejects_format_7() {
    let bytes = padded(7, 8, 8, &[0; 64]);
    assert_eq!(CteImage::decode_cte(&bytes).err(), Some(CteDecodeError::UnsupportedFormat(7)));
}

#[test]
fn decode_rejects_width_10() {
    let bytes = padded(8, 10, 8, &[0; 80]);
    assert_eq!(CteImage::decode_cte(&bytes).err(), Some(CteDecodeError::WidthNotMultipleOf8(10)));
    let mut with_far_offset = stream(8, 10, 8, 8, 40);
    with_far_offset.resize(40, 0xAA);
    assert_eq!(
        CteImage::decode_cte(&with_far_offset).err(),
        Some(CteDecodeError::WidthNotMultipleOf8(10))
    );
}

#[test]
fn decode_rejects_height_12() {
    let bytes = padded(8, 8, 12, &[0; 96]);
    assert_eq!(CteImage::decode_cte(&bytes).err(), Some(CteDecodeError::HeightNotMultipleOf8(12)));
}

#[test]
fn decode_rejects_pixel_length() {
    let mut bytes = stream(8, 8, 8, 4, 128);
    bytes.resize(128 + 64, 0);
    assert_eq!(
        CteImage::decode_cte(&bytes).err(),
        Some(CteDecodeError::PixelLengthInvalid(4, CteFormat::A8))
    );
}

#[test]
fn decode_rejects_payload_inside_header() {
    let mut bytes = stream(8, 8, 8, 8, 27);
    bytes.resize(128, 0);
    assert_eq!(CteImage::decode_cte(&bytes).err(), Some(CteDecodeError::PayloadStartsTooSoon(27)));
}

#[test]
fn decode_reports_truncated_input() {
    assert_eq!(CteImage::decode_cte(&[0x00, 0x63]).err(), Some(CteDecodeError::IOError));
    let header_only = stream(8, 8, 8, 8, 128);
    assert_eq!(CteImage::decode_cte(&header_only[..20]).err(), Some(CteDecodeError::IOError));
    assert_eq!(CteImage::decode_cte(&header_only).err(), Some(CteDecodeError::IOError));
    let short_payload = padded(8, 8, 8, &[0; 63]);
    assert_eq!(CteImage::decode_cte(&short_payload).err(), Some(CteDecodeError::IOError));
}

#[test]
fn decode_skips_padding_to_declared_offset() {
    let mut bytes = stream(8, 8, 8, 8, 40);
    bytes.extend_from_slice(&[0xEE; 12]);
    bytes.extend_from_slice(&[0xFF; 64]);
    let img = CteImage::decode_cte(&bytes).unwrap();
    assert_eq!(pixel(&img.image, 0, 0), [15, 15, 15, 240]);
    assert_eq!(pixel(&img.image, 7, 7), [15, 15, 15, 240]);
}

#[test]
fn traversal_visits_block_origin_at_step_42() {
    assert_eq!(traversal_offset(0), (0, 7));
    assert_eq!(traversal_offset(1), (1, 7));
    assert_eq!(traversal_offset(2), (0, 6));
    assert_eq!(traversal_offset(3), (1, 6));
    assert_eq!(traversal_offset(42), (0, 0));
    assert_eq!(traversal_offset(63), (7, 0));
    assert_eq!(traversal_step(0, 0), 42);
    assert_eq!(traversal_step(0, 6), 2);
    let mut seen = [[false; 8]; 8];
    for i in 0..64 {
        let (x, y) = traversal_offset(i);
        assert!(!seen[x as usize][y as usize]);
        seen[x as usize][y as usize] = true;
        assert_eq!(traversal_step(x, y), i);
    }
}

#[test]
fn read_in_image_order_pairs_values_with_positions() {
    let mut buffer = [0u8; 64];
    for (i, b) in buffer.iter_mut().enumerate() {
        *b = i as u8;
    }
    let out = read_in_image_order(&buffer);
    assert_eq!(out.len(), 64);
    assert_eq!(out[0], (0, 7, 0));
    assert_eq!(out[2], (0, 6, 2));
    assert_eq!(out[42], (0, 0, 42));
    assert_eq!(out[21], (7, 7, 21));
    assert_eq!(out[38], (2, 2, 38));
}

#[test]
fn decode_single_block_in_traversal_order() {
    let payload: Vec<u8> = (0..64u8).collect();
    let bytes = padded(8, 8, 8, &payload);
    let img = CteImage::decode_cte(&bytes).unwrap();
    assert_eq!(pixel(&img.image, 0, 0), CteFormat::A8.unpack_pixel(42));
    assert_eq!(pixel(&img.image, 0, 6), CteFormat::A8.unpack_pixel(2));
    assert_eq!(pixel(&img.image, 0, 7), CteFormat::A8.unpack_pixel(0));
}

#[test]
fn two_blocks_wide_end_to_end() {
    let mut payload = vec![0x11u8; 64];
    payload.extend_from_slice(&[0x22u8; 64]);
    let bytes = padded(8, 16, 8, &payload);
    let img = CteImage::decode_cte(&bytes).unwrap();
    for y in 0..8 {
        for x in 0..8 {
            assert_eq!(pixel(&img.image, x, y), [1, 1, 1, 16]);
            assert_eq!(pixel(&img.image, x + 8, y), [2, 2, 2, 32]);
        }
    }
}

#[test]
fn block_rows_are_stored_bottom_first() {
    let mut payload = vec![0x11u8; 64];
    payload.extend_from_slice(&[0x22u8; 64]);
    let bytes = padded(8, 8, 16, &payload);
    let img = CteImage::decode_cte(&bytes).unwrap();
    assert_eq!(pixel(&img.image, 3, 12), [1, 1, 1, 16]);
    assert_eq!(pixel(&img.image, 3, 2), [2, 2, 2, 32]);
}

#[test]
fn encode_writes_blocks_bottom_first_in_traversal_order() {
    let (w, h) = (8u32, 16u32);
    let mut data = vec![0u8; (w * h * 4) as usize];
    // top-left pixel of the bottom block row: white, opaque
    let at = ((8 * w) * 4) as usize;
    data[at..at + 4].copy_from_slice(&[255, 255, 255, 255]);
    let img = CteImage {
        original_format: CteFormat::A8,
        image: RasterImage { width: w, height: h, data },
    };
    let mut out = Vec::new();
    img.encode_cte(&mut out).unwrap();
    let payload = &out[128..];
    assert_eq!(payload.len(), 128);
    for (k, &b) in payload.iter().enumerate() {
        assert_eq!(b, if k == 42 { 0xFF } else { 0x00 });
    }
}

#[test]
fn encode_then_decode_quantizes_pixels() {
    let (w, h) = (16u32, 16u32);
    let data: Vec<u8> = (0..w * h * 4).map(|i| (i * 13 % 256) as u8).collect();
    let img = CteImage {
        original_format: CteFormat::A8,
        image: RasterImage { width: w, height: h, data: data.clone() },
    };
    let mut out = Vec::new();
    img.encode_cte(&mut out).unwrap();
    let back = CteImage::decode_cte(&out).unwrap();
    for y in 0..h {
        for x in 0..w {
            let i = ((y * w + x) * 4) as usize;
            let mean = ((data[i] as u16 + data[i + 1] as u16 + data[i + 2] as u16) / 3) as u8;
            let lum = mean % 16;
            assert_eq!(pixel(&back.image, x, y), [lum, lum, lum, data[i + 3] / 16 * 16]);
        }
    }
}

#[test]
fn encode_rejects_bad_dimensions() {
    let img = CteImage {
        original_format: CteFormat::A8,
        image: RasterImage { width: 12, height: 8, data: vec![0; 12 * 8 * 4] },
    };
    let mut out = Vec::new();
    assert_eq!(img.encode_cte(&mut out), Err(CteEncodeError::WidthNotMultipleOf8(12)));
    assert!(out.is_empty());
    let img = CteImage {
        original_format: CteFormat::A8,
        image: RasterImage { width: 8, height: 4, data: vec![0; 8 * 4 * 4] },
    };
    assert_eq!(img.encode_cte(&mut out), Err(CteEncodeError::HeightNotMultipleOf8(4)));
    assert!(out.is_empty());
}

#[test]
fn format_identifiers() {
    assert_eq!(CteFormat::from_id(8), Some(CteFormat::A8));
    assert_eq!(CteFormat::from_id(7), None);
    assert_eq!(CteFormat::from_id(0), None);
    assert_eq!(CteFormat::A8.get_id(), 8);
    assert_eq!(CteFormat::A8.get_pixel_length_bit(), 8);
    assert!(CteFormat::A8.check_pixel_lenght_bit(8));
    assert!(!CteFormat::A8.check_pixel_lenght_bit(4));
}

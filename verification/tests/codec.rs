use tgarender::header::{Header, HEADER_LEN};
use tgarender::{Color, Image, TgaError};

fn image_with_bytes(w: usize, h: usize, bpp: usize, bytes: &[u8]) -> Image {
    let mut img = Image::new(w, h, bpp);
    assert_eq!(img.data.len(), bytes.len());
    img.data = bytes.to_vec();
    img
}

#[test]
fn roundtrip_raw_rgb() {
    let bytes: Vec<u8> = (0u8..18u8).collect();
    let img = image_with_bytes(3, 2, 3, &bytes);
    let stream = img.write_tga_file(false);
    let back = Image::read_tga_file(&stream).unwrap();
    assert_eq!(back.width, 3);
    assert_eq!(back.height, 2);
    assert_eq!(back.bytespp, 3);
    assert_eq!(back.data, bytes);
}

#[test]
fn roundtrip_raw_grayscale() {
    let bytes = vec![9u8, 8, 7, 6];
    let img = image_with_bytes(2, 2, 1, &bytes);
    let back = Image::read_tga_file(&img.write_tga_file(false)).unwrap();
    assert_eq!(back.data, bytes);
    assert_eq!(back.bytespp, 1);
}

#[test]
fn roundtrip_rle_rgba() {
    // runs of equal pixels mixed with distinct ones
    let mut bytes = Vec::new();
    for p in 0..12 {
        let v = if p < 5 { 10u8 } else { p as u8 };
        bytes.extend_from_slice(&[v, v.wrapping_add(1), v.wrapping_add(2), 255]);
    }
    let img = image_with_bytes(4, 3, 4, &bytes);
    let back = Image::read_tga_file(&img.write_tga_file(true)).unwrap();
    assert_eq!(back.width, 4);
    assert_eq!(back.height, 3);
    assert_eq!(back.bytespp, 4);
    assert_eq!(back.data, bytes);
}

#[test]
fn roundtrip_rle_long_run() {
    // a run longer than one packet can hold (cap 128 pixels)
    let img = image_with_bytes(100, 2, 1, &[42u8; 200]);
    let back = Image::read_tga_file(&img.write_tga_file(true)).unwrap();
    assert_eq!(back.data, vec![42u8; 200]);
}

#[test]
fn rle_size_of_uniform_buffer() {
    // 16 x 16 pixels of one color, 4 bytes per pixel:
    // ceil(256 / 128) packets of 1 + 4 bytes each
    let mut img = Image::new(16, 16, 4);
    let c = Color::rgba(1, 2, 3, 4);
    for y in 0..16 {
        for x in 0..16 {
            img.set(x, y, &c).unwrap();
        }
    }
    let stream = img.write_tga_file(true);
    let payload = stream.len() - HEADER_LEN - 26;
    assert_eq!(payload, (256 / 128) * (1 + 4));
    assert!(payload < 256 * 4);
}

#[test]
fn single_bright_pixel_rle_roundtrip() {
    // a 4 x 4 grayscale buffer, all zero except pixel (2, 2)
    let mut img = Image::new(4, 4, 1);
    img.set(2, 2, &Color::from_raw(&[200], 1)).unwrap();
    let mut expected = vec![0u8; 16];
    expected[2 + 2 * 4] = 200;
    assert_eq!(img.data, expected);
    let stream = img.write_tga_file(true);
    let back = Image::read_tga_file(&stream).unwrap();
    assert_eq!(back.data, expected);
}

#[test]
fn decode_rejects_unknown_data_type_code() {
    let mut hdr = sample_header();
    hdr.data_type_code = 5;
    let mut bytes = hdr.to_stream();
    bytes.extend_from_slice(&[0, 0]);
    assert_eq!(Image::read_tga_file(&bytes), Err(TgaError::InvalidFormat));
}

#[test]
fn decode_rejects_nonpositive_dimensions() {
    let mut hdr = sample_header();
    hdr.width = 0;
    let bytes = hdr.to_stream();
    assert_eq!(Image::read_tga_file(&bytes), Err(TgaError::InvalidFormat));
    let mut hdr2 = sample_header();
    hdr2.height = -3;
    let bytes2 = hdr2.to_stream();
    assert_eq!(Image::read_tga_file(&bytes2), Err(TgaError::InvalidFormat));
}

#[test]
fn decode_rejects_unsupported_depth() {
    let mut hdr = sample_header();
    hdr.bits_per_pixel = 16;
    let mut bytes = hdr.to_stream();
    bytes.extend_from_slice(&[0, 0, 0, 0]);
    assert_eq!(Image::read_tga_file(&bytes), Err(TgaError::InvalidFormat));
}

#[test]
fn decode_rejects_truncated_raw_payload() {
    let hdr = sample_header();
    let mut bytes = hdr.to_stream();
    bytes.push(7);  // one byte where two pixels are declared
    assert_eq!(Image::read_tga_file(&bytes), Err(TgaError::InvalidFormat));
}

#[test]
fn decode_rejects_short_header() {
    assert_eq!(Image::read_tga_file(&[0u8; 10]), Err(TgaError::InvalidFormat));
}

#[test]
fn decode_rejects_rle_overrun() {
    // one declared pixel, but a repeat packet of two
    let mut hdr = sample_header();
    hdr.width = 1;
    hdr.height = 1;
    hdr.data_type_code = 11;
    let mut bytes = hdr.to_stream();
    bytes.extend_from_slice(&[129, 55]);
    assert_eq!(Image::read_tga_file(&bytes), Err(TgaError::InvalidFormat));
}

#[test]
fn decode_rejects_truncated_rle_stream() {
    let mut hdr = sample_header();
    hdr.data_type_code = 11;
    let mut bytes = hdr.to_stream();
    bytes.push(1);  // a raw packet of two pixels, then nothing
    assert_eq!(Image::read_tga_file(&bytes), Err(TgaError::InvalidFormat));
}

#[test]
fn decode_flips_bottom_left_origin() {
    // origin bit clear: the loader flips the rows
    let mut hdr = sample_header();
    hdr.image_descriptor = 0;
    let mut bytes = hdr.to_stream();
    bytes.extend_from_slice(&[1, 2]);
    let img = Image::read_tga_file(&bytes).unwrap();
    assert_eq!(img.data, vec![2, 1]);
}

#[test]
fn decode_applies_mirror_bit() {
    let mut hdr = sample_header();
    hdr.width = 2;
    hdr.height = 1;
    hdr.image_descriptor = 0x30;
    let mut bytes = hdr.to_stream();
    bytes.extend_from_slice(&[1, 2]);
    let img = Image::read_tga_file(&bytes).unwrap();
    assert_eq!(img.data, vec![2, 1]);
}

#[test]
fn header_stream_roundtrip() {
    let hdr = Header {
        id_length: 1,
        color_map_type: 2,
        data_type_code: 10,
        color_map_origin: -300,
        color_map_length: 512,
        color_map_depth: 24,
        x_origin: -1,
        y_origin: 32767,
        width: 640,
        height: 480,
        bits_per_pixel: 32,
        image_descriptor: 0x20,
    };
    let bytes = hdr.to_stream();
    assert_eq!(bytes.len(), HEADER_LEN);
    let back = Header::from_stream(&bytes).unwrap();
    assert_eq!(back, hdr);
}

#[test]
fn encoded_stream_layout() {
    let img = image_with_bytes(2, 1, 1, &[5, 6]);
    let stream = img.write_tga_file(false);
    assert_eq!(stream.len(), 18 + 2 + 26);
    // header: grayscale raw, top-left origin
    assert_eq!(stream[2], 3);
    assert_eq!(stream[12], 2);
    assert_eq!(stream[14], 1);
    assert_eq!(stream[16], 8);
    assert_eq!(stream[17], 0x20);
    // payload
    assert_eq!(&stream[18..20], &[5, 6]);
    // trailer: zeroed references, signature, NUL
    assert_eq!(&stream[20..28], &[0; 8]);
    assert_eq!(&stream[28..45], b"TRUEVISION-XFILE.");
    assert_eq!(stream[45], 0);
}

fn sample_header() -> Header {
    // a 1 x 2 grayscale raw image with a top-left origin
    Header {
        id_length: 0,
        color_map_type: 0,
        data_type_code: 3,
        color_map_origin: 0,
        color_map_length: 0,
        color_map_depth: 0,
        x_origin: 0,
        y_origin: 0,
        width: 1,
        height: 2,
        bits_per_pixel: 8,
        image_descriptor: 0x20,
    }
}

#[test]
fn data_type_code_follows_depth_and_compression() {
    let gray = image_with_bytes(1, 1, 1, &[1]);
    let color = image_with_bytes(1, 1, 3, &[1, 2, 3]);
    assert_eq!(gray.write_tga_file(false)[2], 3);
    assert_eq!(gray.write_tga_file(true)[2], 11);
    assert_eq!(color.write_tga_file(false)[2], 2);
    assert_eq!(color.write_tga_file(true)[2], 10);
}

#[test]
fn decode_ignores_trailing_bytes() {
    let hdr = sample_header();
    let mut bytes = hdr.to_stream();
    bytes.extend_from_slice(&[1, 2, 9, 9, 9, 9]);
    let img = Image::read_tga_file(&bytes).unwrap();
    assert_eq!(img.data, vec![1, 2]);
}

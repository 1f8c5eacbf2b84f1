//! Whole images, decoded and refused.

use qoi::chunk::{QOI_OP_RGB, QOI_OP_RGBA};
use qoi::{decode, Error, ImageInfo};

fn header(width: u32, height: u32, channels: u8, colorspace: u8) -> Vec<u8> {
    let mut bytes = Vec::new();
    bytes.extend_from_slice(b"qoif");
    bytes.extend_from_slice(&width.to_be_bytes());
    bytes.extend_from_slice(&height.to_be_bytes());
    bytes.push(channels);
    bytes.push(colorspace);
    bytes
}

fn image(width: u32, height: u32, channels: u8, colorspace: u8, chunks: &[u8]) -> Vec<u8> {
    let mut bytes = header(width, height, channels, colorspace);
    bytes.extend_from_slice(chunks);
    bytes.extend_from_slice(&[0, 0, 0, 0, 0, 0, 0, 1]);
    bytes
}

fn rgb_image(width: u32, height: u32, chunks: &[u8]) -> Vec<u8> {
    image(width, height, 3, 0, chunks)
}

fn rgba_image(width: u32, height: u32, chunks: &[u8]) -> Vec<u8> {
    image(width, height, 4, 0, chunks)
}

fn decode_into(bytes: &[u8], capacity: usize) -> Result<(ImageInfo, Vec<u8>), Error> {
    let mut out = vec![0u8; capacity];
    match decode(bytes, &mut out) {
        Ok(info) => {
            out.truncate(info.output_bytes);
            Ok((info, out))
        }
        Err(error) => Err(error),
    }
}

#[test]
fn parses_header_of_rgb_image() {
    let data = rgb_image(1, 1, &[QOI_OP_RGB, 255, 0, 0]);
    let (info, pixels) = decode_into(&data, 4).unwrap();
    assert_eq!(info.width, 1);
    assert_eq!(info.height, 1);
    assert_eq!(info.channels, 3);
    assert_eq!(info.colorspace, 0);
    assert_eq!(info.output_bytes, 3);
    assert!(info.is_rgb());
    assert!(!info.is_rgba());
    assert_eq!(pixels, [255, 0, 0]);
}

#[test]
fn parses_header_of_rgba_image() {
    let chunks = [QOI_OP_RGBA, 10, 20, 30, 40, 0xC4];
    let data = rgba_image(2, 3, &chunks);
    let (info, pixels) = decode_into(&data, 24).unwrap();
    assert_eq!(info.width, 2);
    assert_eq!(info.height, 3);
    assert_eq!(info.channels, 4);
    assert!(info.is_rgba());
    assert!(!info.is_rgb());
    assert_eq!(pixels.len(), 24);
}

#[test]
fn decodes_rgb_image() {
    let chunks = [
        QOI_OP_RGB, 10, 20, 30, QOI_OP_RGB, 40, 50, 60, QOI_OP_RGB, 70, 80, 90, QOI_OP_RGB,
        100, 110, 120,
    ];
    let data = rgb_image(2, 2, &chunks);
    let (info, pixels) = decode_into(&data, 12).unwrap();
    assert_eq!(info.output_bytes, 12);
    assert_eq!(pixels, [10, 20, 30, 40, 50, 60, 70, 80, 90, 100, 110, 120]);
}

#[test]
fn decodes_rgba_image() {
    let chunks = [QOI_OP_RGBA, 10, 20, 30, 40, QOI_OP_RGBA, 50, 60, 70, 80];
    let data = rgba_image(2, 1, &chunks);
    let (info, pixels) = decode_into(&data, 8).unwrap();
    assert_eq!(info.output_bytes, 8);
    assert_eq!(pixels, [10, 20, 30, 40, 50, 60, 70, 80]);
}

#[test]
fn op_rgb_preserves_alpha() {
    let chunks = [QOI_OP_RGBA, 10, 20, 30, 40, QOI_OP_RGB, 200, 200, 200];
    let data = rgba_image(2, 1, &chunks);
    let (_, pixels) = decode_into(&data, 8).unwrap();
    assert_eq!(pixels, [10, 20, 30, 40, 200, 200, 200, 40]);
}

#[test]
fn op_index() {
    let data = rgb_image(2, 1, &[QOI_OP_RGB, 100, 100, 100, 0x11]);
    let (_, pixels) = decode_into(&data, 6).unwrap();
    assert_eq!(pixels, [100, 100, 100, 100, 100, 100]);
}

#[test]
fn op_index_initial_slot_is_zero_pixel() {
    let data = rgb_image(1, 1, &[0x00]);
    let (_, pixels) = decode_into(&data, 3).unwrap();
    assert_eq!(pixels, [0, 0, 0]);
}

#[test]
fn op_diff() {
    let data = rgb_image(2, 1, &[QOI_OP_RGB, 128, 128, 128, 0x72]);
    let (_, pixels) = decode_into(&data, 6).unwrap();
    assert_eq!(pixels, [128, 128, 128, 129, 126, 128]);
}

#[test]
fn op_diff_wraps_around() {
    let data = rgb_image(2, 1, &[QOI_OP_RGB, 0, 1, 255, 0x57]);
    let (_, pixels) = decode_into(&data, 6).unwrap();
    assert_eq!(pixels, [0, 1, 255, 255, 0, 0]);
}

#[test]
fn op_luma() {
    let data = rgb_image(2, 1, &[QOI_OP_RGB, 100, 100, 100, 0xAA, 0x23]);
    let (_, pixels) = decode_into(&data, 6).unwrap();
    assert_eq!(pixels, [100, 100, 100, 104, 110, 105]);
}

#[test]
fn op_run_repeats_pixels() {
    let data = rgb_image(5, 1, &[QOI_OP_RGB, 50, 60, 70, 0xC3]);
    let (_, pixels) = decode_into(&data, 15).unwrap();
    assert_eq!(
        pixels,
        [50, 60, 70, 50, 60, 70, 50, 60, 70, 50, 60, 70, 50, 60, 70]
    );
}

#[test]
fn op_run_max_length() {
    let data = rgb_image(63, 1, &[QOI_OP_RGB, 50, 60, 70, 0xFD]);
    let (info, pixels) = decode_into(&data, 63 * 3).unwrap();
    assert_eq!(info.output_bytes, 63 * 3);
    assert_eq!(pixels.len(), 63 * 3);
    assert!(
        pixels
            .iter()
            .enumerate()
            .all(|(i, &v)| v == [50, 60, 70][i % 3])
    );
}

#[test]
fn op_run_exactly_fills_image() {
    let data = rgb_image(3, 1, &[QOI_OP_RGB, 1, 2, 3, 0xC1]);
    let (_, pixels) = decode_into(&data, 9).unwrap();
    assert_eq!(pixels, [1, 2, 3, 1, 2, 3, 1, 2, 3]);
}

#[test]
fn op_run_overrun_is_malformed() {
    let data = rgb_image(2, 1, &[QOI_OP_RGB, 50, 60, 70, 0xFD]);
    let mut out = [0u8; 6];
    assert_eq!(decode(&data, &mut out), Err(Error::MalformedStream));
}

#[test]
fn mixed_opcodes() {
    let chunks = [
        QOI_OP_RGB,
        10,
        20,
        30,
        0x73,
        0xA7,
        0x50,
        0x31,
        0xC2,
        QOI_OP_RGBA,
        1,
        2,
        3,
        4,
    ];
    let data = rgba_image(8, 1, &chunks);
    let (_, pixels) = decode_into(&data, 32).unwrap();
    assert_eq!(
        pixels,
        [
            10, 20, 30, 255, 11, 18, 31, 255, 15, 25, 30, 255, 15, 25, 30, 255, 15, 25, 30,
            255, 15, 25, 30, 255, 15, 25, 30, 255, 1, 2, 3, 4,
        ]
    );
}

#[test]
fn solid_color_image() {
    let data = rgb_image(8, 1, &[QOI_OP_RGB, 200, 100, 50, 0xC6]);
    let (_, pixels) = decode_into(&data, 24).unwrap();
    assert_eq!(
        pixels,
        [
            200, 100, 50, 200, 100, 50, 200, 100, 50, 200, 100, 50, 200, 100, 50, 200, 100, 50,
            200, 100, 50, 200, 100, 50
        ]
    );
}

#[test]
fn small_multi_pixel_image() {
    let data = rgb_image(
        3,
        2,
        &[
            QOI_OP_RGB, 255, 0, 0, QOI_OP_RGB, 0, 255, 0, QOI_OP_RGB, 0, 0, 255, QOI_OP_RGB,
            255, 255, 0, QOI_OP_RGB, 255, 0, 255, QOI_OP_RGB, 0, 255, 255,
        ],
    );
    let (info, pixels) = decode_into(&data, 18).unwrap();
    assert_eq!(info.width, 3);
    assert_eq!(info.height, 2);
    assert_eq!(
        pixels,
        [
            255, 0, 0, 0, 255, 0, 0, 0, 255, 255, 255, 0, 255, 0, 255, 0, 255, 255,
        ]
    );
}

#[test]
fn truncated_header_is_error() {
    let full = header(1, 1, 3, 0);
    for len in 0..full.len() {
        let mut out = [0u8; 16];
        assert_eq!(
            decode(&full[..len], &mut out),
            Err(Error::TruncatedInput),
            "len = {len}"
        );
    }
}

#[test]
fn truncated_pixel_data_is_error() {
    let data = rgb_image(2, 1, &[QOI_OP_RGB, 1, 2, 3, QOI_OP_RGB, 4, 5, 6]);
    let mut out = [0u8; 16];
    for len in 0..data.len() - 8 {
        assert_eq!(
            decode(&data[..len], &mut out),
            Err(Error::TruncatedInput),
            "len = {len}"
        );
    }
}

#[test]
fn invalid_magic_is_error() {
    let mut data = rgb_image(1, 1, &[QOI_OP_RGB, 1, 2, 3]);
    data[0] = b'x';
    let mut out = [0u8; 3];
    assert_eq!(decode(&data, &mut out), Err(Error::InvalidMagic));
}

#[test]
fn invalid_channel_count_is_error() {
    for channels in [2u8, 5, 0, 255] {
        let data = image(1, 1, channels, 0, &[]);
        let mut out = [0u8; 3];
        assert_eq!(
            decode(&data, &mut out),
            Err(Error::InvalidChannelCount(channels)),
            "channels = {channels}"
        );
    }
}

#[test]
fn invalid_colorspace_is_error() {
    let data = image(1, 1, 3, 2, &[]);
    let mut out = [0u8; 3];
    assert_eq!(decode(&data, &mut out), Err(Error::InvalidColorSpace(2)));
}

#[test]
fn zero_dimensions_are_invalid() {
    let data = image(0, 1, 3, 0, &[]);
    let mut out = [0u8; 3];
    assert_eq!(decode(&data, &mut out), Err(Error::InvalidDimensions));

    let data = image(1, 0, 3, 0, &[]);
    let mut out = [0u8; 3];
    assert_eq!(decode(&data, &mut out), Err(Error::InvalidDimensions));
}

#[test]
fn output_buffer_too_small() {
    let data = rgb_image(2, 1, &[QOI_OP_RGB, 1, 2, 3, QOI_OP_RGB, 4, 5, 6]);
    let mut out = [0u8; 5];
    assert_eq!(decode(&data, &mut out), Err(Error::OutputTooSmall));

    let data = rgba_image(1, 1, &[QOI_OP_RGBA, 1, 2, 3, 4]);
    let mut out = [0u8; 3];
    assert_eq!(decode(&data, &mut out), Err(Error::OutputTooSmall));
}

#[test]
fn invalid_end_marker_is_error() {
    let mut data = rgb_image(1, 1, &[QOI_OP_RGB, 255, 0, 0]);
    let last = data.len() - 1;
    data[last] = 2;
    let mut out = [0u8; 3];
    assert_eq!(decode(&data, &mut out), Err(Error::InvalidEndMarker));

    let mut data = rgb_image(1, 1, &[QOI_OP_RGB, 255, 0, 0]);
    let padding_byte = data.len() - 5;
    data[padding_byte] = 1;
    let mut out = [0u8; 3];
    assert_eq!(decode(&data, &mut out), Err(Error::InvalidEndMarker));
}

#[test]
fn missing_end_marker_is_error() {
    let mut data = rgb_image(1, 1, &[QOI_OP_RGB, 255, 0, 0]);
    data.truncate(data.len() - 4);
    let mut out = [0u8; 3];
    assert_eq!(decode(&data, &mut out), Err(Error::InvalidEndMarker));
}

#[test]
fn huge_dimensions_do_not_panic() {
    let data = image(u32::MAX, u32::MAX, 4, 0, &[]);
    let mut out = [0u8; 16];
    assert_eq!(decode(&data, &mut out), Err(Error::OutputTooSmall));

    let data = image(u32::MAX, 2, 3, 0, &[]);
    let mut out = [0u8; 16];
    assert_eq!(decode(&data, &mut out), Err(Error::OutputTooSmall));

    let data = image(1, u32::MAX, 4, 0, &[]);
    let mut out = [0u8; 16];
    assert_eq!(decode(&data, &mut out), Err(Error::OutputTooSmall));
}

const REFERENCE_RGBA: &[u8] = &[
    0x71, 0x6F, 0x69, 0x66, 0x00, 0x00, 0x00, 0x04, 0x00, 0x00, 0x00, 0x04, 0x04, 0x00, 0xFE,
    0x0A, 0x14, 0x1E, 0xA5, 0x52, 0xFE, 0xC8, 0x64, 0x32, 0xC0, 0x09, 0xC1, 0xFF, 0x3C, 0x3C,
    0x3C, 0x80, 0xA3, 0x73, 0xC0, 0x00, 0xC0, 0xFF, 0x64, 0x96, 0xC8, 0xFF, 0x9F, 0xCA, 0xFF,
    0x01, 0x02, 0x03, 0x04, 0xC0, 0x00, 0x00, 0x00, 0x00, 0x00, 0x00, 0x00, 0x01,
];
const REFERENCE_RGBA_PIXELS: &[u8] = &[
    0x0A, 0x14, 0x1E, 0xFF, 0x0C, 0x19, 0x1D, 0xFF, 0xC8, 0x64, 0x32, 0xFF, 0xC8, 0x64, 0x32,
    0xFF, 0x0A, 0x14, 0x1E, 0xFF, 0x0A, 0x14, 0x1E, 0xFF, 0x0A, 0x14, 0x1E, 0xFF, 0x3C, 0x3C,
    0x3C, 0x80, 0x3E, 0x3F, 0x3A, 0x80, 0x3E, 0x3F, 0x3A, 0x80, 0x00, 0x00, 0x00, 0x00, 0x00,
    0x00, 0x00, 0x00, 0x64, 0x96, 0xC8, 0xFF, 0x67, 0x95, 0xC9, 0xFF, 0x01, 0x02, 0x03, 0x04,
    0x01, 0x02, 0x03, 0x04,
];
const REFERENCE_RGB: &[u8] = &[
    0x71, 0x6F, 0x69, 0x66, 0x00, 0x00, 0x00, 0x05, 0x00, 0x00, 0x00, 0x03, 0x03, 0x01, 0xFE,
    0x00, 0xC8, 0x00, 0xFE, 0x25, 0xBB, 0x32, 0xFE, 0x4A, 0xAE, 0x64, 0xFE, 0x6F, 0xA1, 0x96,
    0xFE, 0x94, 0x94, 0xC8, 0xFE, 0xB9, 0x87, 0x00, 0xFE, 0xDE, 0x7A, 0x32, 0xFE, 0x03, 0x6D,
    0x64, 0xFE, 0x28, 0x60, 0x96, 0xFE, 0x4D, 0x53, 0xC8, 0xFE, 0x72, 0x46, 0x00, 0xFE, 0x97,
    0x39, 0x32, 0xFE, 0xBC, 0x2C, 0x64, 0xFE, 0xE1, 0x1F, 0x96, 0xFE, 0x06, 0x12, 0xC8, 0x00,
    0x00, 0x00, 0x00, 0x00, 0x00, 0x00, 0x01,
];
const REFERENCE_RGB_PIXELS: &[u8] = &[
    0x00, 0xC8, 0x00, 0x25, 0xBB, 0x32, 0x4A, 0xAE, 0x64, 0x6F, 0xA1, 0x96, 0x94, 0x94, 0xC8,
    0xB9, 0x87, 0x00, 0xDE, 0x7A, 0x32, 0x03, 0x6D, 0x64, 0x28, 0x60, 0x96, 0x4D, 0x53, 0xC8,
    0x72, 0x46, 0x00, 0x97, 0x39, 0x32, 0xBC, 0x2C, 0x64, 0xE1, 0x1F, 0x96, 0x06, 0x12, 0xC8,
];

#[test]
fn decodes_reference_encoded_rgba_image() {
    let mut out = [0u8; 4 * 4 * 4];
    let info = decode(REFERENCE_RGBA, &mut out).unwrap();
    assert_eq!(info.width, 4);
    assert_eq!(info.height, 4);
    assert_eq!(info.channels, 4);
    assert_eq!(info.colorspace, 0);
    assert_eq!(&out, REFERENCE_RGBA_PIXELS);
}

#[test]
fn decodes_reference_encoded_rgb_image() {
    let mut out = [0u8; 5 * 3 * 3];
    let info = decode(REFERENCE_RGB, &mut out).unwrap();
    assert_eq!(info.width, 5);
    assert_eq!(info.height, 3);
    assert_eq!(info.channels, 3);
    assert_eq!(info.colorspace, 1);
    assert_eq!(&out, REFERENCE_RGB_PIXELS);
}

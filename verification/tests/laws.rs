//! What holds of every image, on images of a few pixels.

use qoi::chunk::{QOI_OP_DIFF, QOI_OP_INDEX, QOI_OP_LUMA, QOI_OP_RGB, QOI_OP_RGBA, QOI_OP_RUN};
use qoi::decoder::QOI_END_MARKER;
use qoi::{decode, Error, ImageInfo};

const UNTOUCHED: u8 = 0xEE;

fn start(width: u32, height: u32, channels: u8) -> Vec<u8> {
    let mut bytes = b"qoif".to_vec();
    bytes.extend_from_slice(&width.to_be_bytes());
    bytes.extend_from_slice(&height.to_be_bytes());
    bytes.push(channels);
    bytes.push(0);
    bytes
}

fn picture(width: u32, height: u32, channels: u8, chunks: &[u8]) -> Vec<u8> {
    let mut bytes = start(width, height, channels);
    bytes.extend_from_slice(chunks);
    bytes.extend_from_slice(&QOI_END_MARKER);
    bytes
}

fn run(bytes: &[u8], capacity: usize) -> (Result<ImageInfo, Error>, Vec<u8>) {
    let mut out = vec![UNTOUCHED; capacity];
    let result = decode(bytes, &mut out);
    (result, out)
}

/// An image of every kind of chunk, and its pixels.
fn every_chunk() -> (Vec<u8>, Vec<[u8; 4]>) {
    let chunks = [
        QOI_OP_RGBA, 10, 20, 30, 40,
        QOI_OP_RGB, 100, 110, 120,
        // Moves by -2, -1 and +1.
        QOI_OP_DIFF | (0 << 4) | (1 << 2) | 3,
        // Green by +5, red by 3 more, blue by 8 less.
        QOI_OP_LUMA | 37, (11 << 4) | 0,
        QOI_OP_RUN | 1,
        // 3 * 10 + 5 * 20 + 7 * 30 + 11 * 40 = 780 = 12 * 64 + 12
        QOI_OP_INDEX | 12,
    ];
    let pixels = vec![
        [10, 20, 30, 40],
        [100, 110, 120, 40],
        [98, 109, 121, 40],
        [106, 114, 118, 40],
        [106, 114, 118, 40],
        [106, 114, 118, 40],
        [10, 20, 30, 40],
    ];
    (picture(7, 1, 4, &chunks), pixels)
}

#[test]
fn every_kind_of_chunk_gives_its_pixel() {
    let (data, pixels) = every_chunk();
    let (result, out) = run(&data, 28);
    let info = ImageInfo { width: 7, height: 1, channels: 4, colorspace: 0, output_bytes: 28 };
    assert_eq!(result, Ok(info));
    assert_eq!(out, pixels.concat());
}

#[test]
fn luma_wraps_around() {
    // Green by -32, red by 8 less, blue by 7 more.
    let data = picture(2, 1, 3, &[QOI_OP_RGB, 5, 5, 5, QOI_OP_LUMA, 0x0F]);
    let (_, out) = run(&data, 6);
    assert_eq!(out, [5, 5, 5, 221, 229, 236]);
}

#[test]
fn trailing_bytes_change_nothing() {
    let (data, _) = every_chunk();
    let mut longer = data.clone();
    longer.extend_from_slice(&[7, 7, 7]);
    assert_eq!(run(&longer, 28), run(&data, 28));
}

#[test]
fn larger_buffer_changes_nothing_but_is_left_alone_behind_the_image() {
    let (data, pixels) = every_chunk();
    let (exact, _) = run(&data, 28);
    let (result, out) = run(&data, 31);
    assert_eq!(result, exact);
    assert_eq!(out[..28], pixels.concat());
    assert_eq!(out[28..], [UNTOUCHED; 3]);
}

#[test]
fn every_cut_is_refused_and_writes_the_front_of_the_picture() {
    let (data, pixels) = every_chunk();
    let full = pixels.concat();
    for len in 0..data.len() {
        let (result, out) = run(&data[..len], 28);
        let expected = if len < data.len() - 8 {
            Error::TruncatedInput
        } else {
            Error::InvalidEndMarker
        };
        assert_eq!(result, Err(expected), "len = {len}");
        let written = out.iter().take_while(|&&byte| byte != UNTOUCHED).count();
        assert_eq!(written % 4, 0, "len = {len}");
        assert_eq!(out[..written], full[..written], "len = {len}");
        assert!(out[written..].iter().all(|&byte| byte == UNTOUCHED), "len = {len}");
    }
    // Two chunks and the first byte of the third, which is a chunk of its own.
    let (_, out) = run(&data[..14 + 5 + 4 + 1], 28);
    assert_eq!(out[..12], full[..12]);
    assert_eq!(out[12..], [UNTOUCHED; 16]);
}

#[test]
fn altered_end_marker_is_refused_with_all_pixels_written() {
    let (mut data, pixels) = every_chunk();
    let at = data.len() - 8;
    data[at] = 1;
    let (result, out) = run(&data, 28);
    assert_eq!(result, Err(Error::InvalidEndMarker));
    assert_eq!(out, pixels.concat());
}

#[test]
fn overrun_writes_what_comes_before_it() {
    let data = picture(3, 1, 3, &[QOI_OP_RGB, 1, 2, 3, QOI_OP_RUN | 2]);
    let (result, out) = run(&data, 9);
    assert_eq!(result, Err(Error::MalformedStream));
    assert_eq!(out[..3], [1, 2, 3]);
    assert_eq!(out[3..], [UNTOUCHED; 6]);
}

#[test]
fn refused_header_and_small_buffer_write_nothing() {
    let (data, _) = every_chunk();
    let (result, out) = run(&data, 27);
    assert_eq!(result, Err(Error::OutputTooSmall));
    assert_eq!(out, [UNTOUCHED; 27]);

    let mut other = data.clone();
    other[12] = 5;
    let (result, out) = run(&other, 28);
    assert_eq!(result, Err(Error::InvalidChannelCount(5)));
    assert_eq!(out, [UNTOUCHED; 28]);
}

#[test]
fn first_fault_of_the_header_is_named() {
    // Magic bytes come before the length of the header.
    assert_eq!(run(b"qoig", 0).0, Err(Error::InvalidMagic));
    assert_eq!(run(b"qoi", 0).0, Err(Error::TruncatedInput));
    // Dimensions come before channels, channels before colorspace.
    let mut data = start(0, 1, 9);
    data[13] = 9;
    assert_eq!(run(&data, 0).0, Err(Error::InvalidDimensions));
    data[7] = 1;
    assert_eq!(run(&data, 0).0, Err(Error::InvalidChannelCount(9)));
    data[12] = 3;
    assert_eq!(run(&data, 0).0, Err(Error::InvalidColorSpace(9)));
    data[13] = 1;
    assert_eq!(run(&data, 0).0, Err(Error::OutputTooSmall));
    assert_eq!(run(&data, 3).0, Err(Error::TruncatedInput));
}

#[test]
fn index_recalls_until_the_slot_is_taken() {
    // Red 1 and red 65 share a slot, as 3 * 64 is a multiple of 64.
    // 3 * 1 + 11 * 255 = 2808 = 43 * 64 + 56
    let chunks = [
        QOI_OP_RGB, 1, 0, 0,
        QOI_OP_RGB, 9, 9, 9,
        QOI_OP_INDEX | 56,
        QOI_OP_RGB, 65, 0, 0,
        QOI_OP_INDEX | 56,
    ];
    let (result, out) = run(&picture(5, 1, 3, &chunks), 15);
    assert!(result.is_ok());
    assert_eq!(out, [1, 0, 0, 9, 9, 9, 1, 0, 0, 65, 0, 0, 65, 0, 0]);
}

#[test]
fn run_before_any_pixel_repeats_opaque_black() {
    let (result, out) = run(&picture(2, 1, 4, &[QOI_OP_RUN | 1]), 8);
    assert!(result.is_ok());
    assert_eq!(out, [0, 0, 0, 255, 0, 0, 0, 255]);
}

#[test]
fn run_keeps_its_pixel_in_the_table() {
    // 11 * 255 = 2805 = 43 * 64 + 53
    let chunks = [QOI_OP_RUN, QOI_OP_RGB, 1, 2, 3, QOI_OP_INDEX | 53];
    let (_, out) = run(&picture(3, 1, 4, &chunks), 12);
    assert_eq!(out, [0, 0, 0, 255, 1, 2, 3, 255, 0, 0, 0, 255]);
}

#[test]
fn pixels_in_full_come_back() {
    let mut chunks = Vec::new();
    let mut pixels = Vec::new();
    for i in 0..=255u8 {
        let px = [i, i.wrapping_mul(7), 255 - i, i.wrapping_mul(31)];
        chunks.push(QOI_OP_RGBA);
        chunks.extend_from_slice(&px);
        pixels.extend_from_slice(&px);
    }
    let (result, out) = run(&picture(16, 16, 4, &chunks), 1024);
    assert_eq!(result.unwrap().output_bytes, 1024);
    assert_eq!(out, pixels);
}

#[test]
fn channel_count_decides_only_whether_alpha_is_written() {
    let (mut data, pixels) = every_chunk();
    data[12] = 3;
    let (result, out) = run(&data, 21);
    assert_eq!(result.unwrap().output_bytes, 21);
    for (i, px) in pixels.iter().enumerate() {
        assert_eq!(out[3 * i..3 * i + 3], px[..3]);
    }
}

#[test]
fn errors_say_what_they_are() {
    assert_eq!(Error::InvalidMagic.to_string(), "invalid QOI magic bytes");
    assert_eq!(
        Error::InvalidDimensions.to_string(),
        "image width and height must be non-zero"
    );
    assert_eq!(
        Error::InvalidChannelCount(7).to_string(),
        "invalid channel count 7, expected 3 or 4"
    );
    assert_eq!(
        Error::InvalidChannelCount(205).to_string(),
        "invalid channel count 205, expected 3 or 4"
    );
    assert_eq!(
        Error::InvalidColorSpace(10).to_string(),
        "invalid colorspace value 10, expected 0 or 1"
    );
    assert_eq!(
        Error::OutputTooSmall.to_string(),
        "output buffer is too small for the image"
    );
    assert_eq!(Error::TruncatedInput.to_string(), "unexpected end of input");
    assert_eq!(Error::InvalidEndMarker.to_string(), "missing or invalid end marker");
    assert_eq!(Error::MalformedStream.to_string(), "malformed QOI stream");
}

#[test]
fn usage_example() {
    let data: &[u8] = &[
        b'q', b'o', b'i', b'f', 0, 0, 0, 1, 0, 0, 0, 1, 3, 0, 0xFE, 255, 0, 0, 0, 0, 0, 0, 0, 0, 0,
        1,
    ];
    let mut pixels = [0u8; 3];
    let info = decode(data, &mut pixels).unwrap();
    assert_eq!(info.width, 1);
    assert_eq!(info.height, 1);
    assert_eq!(info.channels, 3);
    assert_eq!(pixels, [255, 0, 0]);
}

use rustmpeg::bmp::{decode_bmp, encode_bmp, probe_bmp};
use rustmpeg::tga::{
    decode_tga, encode_tga, encode_tga_with_rle, probe_tga, HEADER_SIZE, TYPE_GRAYSCALE,
    TYPE_RLE_TRUECOLOR, TYPE_TRUECOLOR,
};
use rustmpeg::video::{PixelFormat, VideoFrame};

fn frame_2x2() -> VideoFrame {
    VideoFrame::from_vec(
        2,
        2,
        PixelFormat::Rgb24,
        vec![
            255, 0, 0, 0, 255, 0, // top: red, green
            0, 0, 255, 255, 255, 255, // bottom: blue, white
        ],
    )
    .unwrap()
}

#[test]
fn canonical_bmp_round_trip_preserves_rgb_and_orientation() {
    let frame = frame_2x2();
    let encoded = encode_bmp(&frame).unwrap();
    assert_eq!(probe_bmp(&encoded), 100);
    let decoded = decode_bmp(&encoded).unwrap();
    assert_eq!(decoded, frame);
    assert_eq!(encoded.len(), 70);
}

#[test]
fn top_down_24_bit_bmp_decodes_without_vertical_flip() {
    let mut encoded = encode_bmp(&frame_2x2()).unwrap();
    encoded[22..26].copy_from_slice(&(-2_i32).to_le_bytes());
    let raster = encoded[54..].to_vec();
    let stride = 8;
    encoded[54..54 + stride].copy_from_slice(&raster[stride..stride * 2]);
    encoded[54 + stride..54 + stride * 2].copy_from_slice(&raster[..stride]);
    assert_eq!(decode_bmp(&encoded).unwrap(), frame_2x2());
}

#[test]
fn uncompressed_32_bit_bgra_is_decoded_to_rgb24() {
    let mut bytes = Vec::new();
    bytes.extend_from_slice(b"BM");
    bytes.extend_from_slice(&58_u32.to_le_bytes());
    bytes.extend_from_slice(&[0; 4]);
    bytes.extend_from_slice(&54_u32.to_le_bytes());
    bytes.extend_from_slice(&40_u32.to_le_bytes());
    bytes.extend_from_slice(&1_i32.to_le_bytes());
    bytes.extend_from_slice(&1_i32.to_le_bytes());
    bytes.extend_from_slice(&1_u16.to_le_bytes());
    bytes.extend_from_slice(&32_u16.to_le_bytes());
    bytes.extend_from_slice(&0_u32.to_le_bytes());
    bytes.extend_from_slice(&4_u32.to_le_bytes());
    bytes.extend_from_slice(&[0; 16]);
    bytes.extend_from_slice(&[3, 2, 1, 99]);
    let frame = decode_bmp(&bytes).unwrap();
    assert_eq!(frame.data.as_slice(), &[1, 2, 3]);
}

#[test]
fn malformed_offsets_sizes_and_compression_are_rejected() {
    let valid = encode_bmp(&frame_2x2()).unwrap();

    let mut truncated = valid.clone();
    truncated.pop();
    assert!(decode_bmp(&truncated).is_err());

    let mut bad_offset = valid.clone();
    bad_offset[10..14].copy_from_slice(&10_u32.to_le_bytes());
    assert!(decode_bmp(&bad_offset).is_err());

    let mut compressed = valid.clone();
    compressed[30..34].copy_from_slice(&1_u32.to_le_bytes());
    assert!(decode_bmp(&compressed).is_err());

    let mut bad_planes = valid.clone();
    bad_planes[26..28].copy_from_slice(&2_u16.to_le_bytes());
    assert!(decode_bmp(&bad_planes).is_err());
}

#[test]
fn encoder_rejects_non_rgb_frames() {
    let gray = VideoFrame::from_vec(1, 1, PixelFormat::Gray8, vec![0]).unwrap();
    assert!(encode_bmp(&gray).is_err());
}

fn rgb_frame() -> VideoFrame {
    VideoFrame::from_vec(
        2,
        2,
        PixelFormat::Rgb24,
        vec![
            255, 0, 0, 0, 255, 0, // top
            0, 0, 255, 255, 255, 255, // bottom
        ],
    )
    .unwrap()
}

#[test]
fn uncompressed_truecolor_round_trip_is_exact() {
    let frame = rgb_frame();
    let encoded = encode_tga(&frame).unwrap();
    assert_eq!(probe_tga(&encoded), 75);
    assert_eq!(decode_tga(&encoded).unwrap(), frame);
    assert_eq!(encoded[2], TYPE_TRUECOLOR);
    assert_eq!(encoded[17] & 0x20, 0x20);
}

#[test]
fn tga_grayscale_round_trip_is_exact() {
    let frame = VideoFrame::from_vec(3, 1, PixelFormat::Gray8, vec![0, 127, 255]).unwrap();
    let encoded = encode_tga(&frame).unwrap();
    assert_eq!(encoded[2], TYPE_GRAYSCALE);
    assert_eq!(decode_tga(&encoded).unwrap(), frame);
}

#[test]
fn rle_encoder_and_decoder_preserve_repeated_and_raw_packets() {
    let frame = VideoFrame::from_vec(
        6,
        1,
        PixelFormat::Rgb24,
        vec![1, 2, 3, 1, 2, 3, 1, 2, 3, 9, 8, 7, 6, 5, 4, 6, 5, 4],
    )
    .unwrap();
    let encoded = encode_tga_with_rle(&frame, true).unwrap();
    assert_eq!(encoded[2], TYPE_RLE_TRUECOLOR);
    assert_eq!(decode_tga(&encoded).unwrap(), frame);
    assert!(encoded.len() < HEADER_SIZE + frame.data.len());
}

#[test]
fn all_origin_combinations_map_to_top_left_frame() {
    let canonical = encode_tga(&rgb_frame()).unwrap();
    let raster = canonical[HEADER_SIZE..].to_vec();

    for descriptor in [0x00_u8, 0x10, 0x20, 0x30] {
        let mut file = canonical.clone();
        file[17] = descriptor;
        let top = descriptor & 0x20 != 0;
        let right = descriptor & 0x10 != 0;
        let mut reordered = Vec::with_capacity(raster.len());
        for file_y in 0..2_usize {
            let y = if top { file_y } else { 1 - file_y };
            for file_x in 0..2_usize {
                let x = if right { 1 - file_x } else { file_x };
                let source = (y * 2 + x) * 3;
                reordered.extend_from_slice(&raster[source..source + 3]);
            }
        }
        file[HEADER_SIZE..].copy_from_slice(&reordered);
        assert_eq!(decode_tga(&file).unwrap(), rgb_frame());
    }
}

#[test]
fn malformed_rle_and_unsupported_headers_are_rejected() {
    let mut mapped = encode_tga(&rgb_frame()).unwrap();
    mapped[1] = 1;
    assert!(decode_tga(&mapped).is_err());

    let mut bad_depth = encode_tga(&rgb_frame()).unwrap();
    bad_depth[16] = 16;
    assert!(decode_tga(&bad_depth).is_err());

    let mut rle = encode_tga_with_rle(&rgb_frame(), true).unwrap();
    rle.truncate(HEADER_SIZE + 1);
    assert!(decode_tga(&rle).is_err());

    let mut overflow_packet = encode_tga_with_rle(&rgb_frame(), true).unwrap();
    overflow_packet.truncate(HEADER_SIZE);
    overflow_packet.push(0x84);
    overflow_packet.extend_from_slice(&[0, 0, 0]);
    assert!(decode_tga(&overflow_packet).is_err());
}

fn rgb(width: u32, height: u32, data: Vec<u8>) -> VideoFrame {
    VideoFrame::from_vec(width, height, PixelFormat::Rgb24, data).unwrap()
}

#[test]
fn bmp_row_padding_round_trips_widths_one_through_five() {
    for width in 1..=5_u32 {
        let mut pixels = Vec::new();
        for x in 0..width {
            pixels.extend_from_slice(&[
                u8::try_from(x * 31).unwrap(),
                u8::try_from(x * 17).unwrap(),
                u8::try_from(x * 7).unwrap(),
            ]);
        }
        let frame = rgb(width, 1, pixels);
        let encoded = encode_bmp(&frame).unwrap();
        assert_eq!(decode_bmp(&encoded).unwrap(), frame, "width={width}");
        assert_eq!((encoded.len() - 54) % 4, 0);
    }
}

#[test]
fn bmp_multiline_round_trip_preserves_logical_top_left_order() {
    let frame = rgb(
        3,
        3,
        vec![
            1, 2, 3, 4, 5, 6, 7, 8, 9, 10, 11, 12, 13, 14, 15, 16, 17, 18, 19, 20, 21, 22, 23, 24,
            25, 26, 27,
        ],
    );
    assert_eq!(decode_bmp(&encode_bmp(&frame).unwrap()).unwrap(), frame);
}

#[test]
fn bmp_rejects_zero_or_unrepresentable_dimensions_and_unsupported_depths() {
    let frame = rgb(1, 1, vec![1, 2, 3]);
    let valid = encode_bmp(&frame).unwrap();

    let mut zero_width = valid.clone();
    zero_width[18..22].copy_from_slice(&0_i32.to_le_bytes());
    assert!(decode_bmp(&zero_width).is_err());

    let mut zero_height = valid.clone();
    zero_height[22..26].copy_from_slice(&0_i32.to_le_bytes());
    assert!(decode_bmp(&zero_height).is_err());

    let mut min_height = valid.clone();
    min_height[22..26].copy_from_slice(&i32::MIN.to_le_bytes());
    assert!(decode_bmp(&min_height).is_err());

    let mut depth16 = valid.clone();
    depth16[28..30].copy_from_slice(&16_u16.to_le_bytes());
    assert!(decode_bmp(&depth16).is_err());
}

#[test]
fn bmp_rejects_declared_file_smaller_than_raster() {
    let frame = rgb(2, 2, vec![1; 12]);
    let mut encoded = encode_bmp(&frame).unwrap();
    encoded[2..6].copy_from_slice(&54_u32.to_le_bytes());
    assert!(decode_bmp(&encoded).is_err());
}

#[test]
fn tga_rle_splits_runs_longer_than_128_pixels() {
    let mut data = Vec::with_capacity(300 * 3);
    for _ in 0..300 {
        data.extend_from_slice(&[9, 8, 7]);
    }
    let frame = rgb(300, 1, data);
    let encoded = encode_tga_with_rle(&frame, true).unwrap();
    assert_eq!(decode_tga(&encoded).unwrap(), frame);
    assert!(encoded.len() < 40);
}

#[test]
fn tga_rle_splits_raw_packets_longer_than_128_pixels() {
    let mut data = Vec::with_capacity(260 * 3);
    for x in 0..260_u16 {
        data.extend_from_slice(&[
            u8::try_from(x & 0xff).unwrap(),
            u8::try_from((x * 3) & 0xff).unwrap(),
            u8::try_from((x * 7) & 0xff).unwrap(),
        ]);
    }
    let frame = rgb(260, 1, data);
    let encoded = encode_tga_with_rle(&frame, true).unwrap();
    assert_eq!(decode_tga(&encoded).unwrap(), frame);
}

#[test]
fn tga_image_id_is_skipped_before_raster() {
    let frame = rgb(1, 1, vec![5, 6, 7]);
    let encoded = encode_tga(&frame).unwrap();
    let mut with_id = encoded[..18].to_vec();
    with_id[0] = 4;
    with_id.extend_from_slice(b"TEST");
    with_id.extend_from_slice(&encoded[18..]);
    assert_eq!(decode_tga(&with_id).unwrap(), frame);
}

#[test]
fn tga_32_bit_alpha_is_ignored_but_rgb_is_preserved() {
    let mut file = vec![0_u8; 18];
    file[2] = 2;
    file[12..14].copy_from_slice(&1_u16.to_le_bytes());
    file[14..16].copy_from_slice(&1_u16.to_le_bytes());
    file[16] = 32;
    file[17] = 0x28;
    file.extend_from_slice(&[30, 20, 10, 99]);
    let frame = decode_tga(&file).unwrap();
    assert_eq!(frame.format, PixelFormat::Rgb24);
    assert_eq!(frame.data.as_slice(), &[10, 20, 30]);
}

#[test]
fn tga_grayscale_rle_round_trip_handles_mixed_packets() {
    let frame =
        VideoFrame::from_vec(8, 1, PixelFormat::Gray8, vec![1, 1, 1, 2, 3, 4, 4, 4]).unwrap();
    let encoded = encode_tga_with_rle(&frame, true).unwrap();
    assert_eq!(encoded[2], 11);
    assert_eq!(decode_tga(&encoded).unwrap(), frame);
}

#[test]
fn tga_rejects_zero_dimensions_and_truncated_id() {
    let frame = rgb(1, 1, vec![1, 2, 3]);
    let valid = encode_tga(&frame).unwrap();

    let mut zero = valid.clone();
    zero[12..14].copy_from_slice(&0_u16.to_le_bytes());
    assert!(decode_tga(&zero).is_err());

    let mut bad_id = valid[..18].to_vec();
    bad_id[0] = 10;
    assert!(decode_tga(&bad_id).is_err());
}

use rustmpeg::checksum::crc32;
use rustmpeg::png::{decode_png, encode_png, probe_png, write_chunk};
use rustmpeg::png_encode as adaptive;
use rustmpeg::png_ffmpeg_encode as ffmpeg;
use rustmpeg::png_filter::{choose_filter, filter_row, filter_score, paeth};
use rustmpeg::png_options::{PngEncodeOptions, PngPrediction};
use rustmpeg::video::{PixelFormat, VideoFrame};
use rustmpeg::zlib;

const PNG_SIGNATURE: [u8; 8] = [137, 80, 78, 71, 13, 10, 26, 10];

fn base64_value(byte: u8) -> Option<u8> {
    match byte {
        b'A'..=b'Z' => Some(byte - b'A'),
        b'a'..=b'z' => Some(byte - b'a' + 26),
        b'0'..=b'9' => Some(byte - b'0' + 52),
        b'+' => Some(62),
        b'/' => Some(63),
        _ => None,
    }
}

fn decode_base64(input: &str) -> Vec<u8> {
    let clean: Vec<u8> = input
        .bytes()
        .filter(|byte| !byte.is_ascii_whitespace())
        .collect();
    assert!(clean.len() % 4 == 0);

    let mut output = Vec::with_capacity(clean.len() / 4 * 3);
    for chunk in clean.chunks_exact(4) {
        let a = base64_value(chunk[0]).unwrap();
        let b = base64_value(chunk[1]).unwrap();
        let c = if chunk[2] == b'=' { 0 } else { base64_value(chunk[2]).unwrap() };
        let d = if chunk[3] == b'=' { 0 } else { base64_value(chunk[3]).unwrap() };
        let word = (u32::from(a) << 18)
            | (u32::from(b) << 12)
            | (u32::from(c) << 6)
            | u32::from(d);
        output.push((word >> 16) as u8);
        if chunk[2] != b'=' {
            output.push((word >> 8) as u8);
        }
        if chunk[3] != b'=' {
            output.push(word as u8);
        }
    }
    output
}

fn png_from_filtered(width: u32, height: u32, color_type: u8, filtered: &[u8]) -> Vec<u8> {
    let compressed = zlib::compress_stored(filtered).unwrap();
    let mut output = PNG_SIGNATURE.to_vec();
    let mut ihdr = [0_u8; 13];
    ihdr[0..4].copy_from_slice(&width.to_be_bytes());
    ihdr[4..8].copy_from_slice(&height.to_be_bytes());
    ihdr[8] = 8;
    ihdr[9] = color_type;
    write_chunk(&mut output, b"IHDR", &ihdr).unwrap();
    write_chunk(&mut output, b"IDAT", &compressed).unwrap();
    write_chunk(&mut output, b"IEND", &[]).unwrap();
    output
}

#[test]
fn png_grayscale_round_trip_is_exact() {
    let frame =
        VideoFrame::from_vec(3, 2, PixelFormat::Gray8, vec![0, 127, 255, 20, 30, 40]).unwrap();
    let encoded = encode_png(&frame).unwrap();
    assert_eq!(probe_png(&encoded), 100);
    assert_eq!(decode_png(&encoded).unwrap(), frame);
}

#[test]
fn rgb_round_trip_is_exact() {
    let frame = VideoFrame::from_vec(
        2,
        2,
        PixelFormat::Rgb24,
        vec![255, 0, 0, 0, 255, 0, 0, 0, 255, 255, 255, 255],
    )
    .unwrap();
    assert_eq!(decode_png(&encode_png(&frame).unwrap()).unwrap(), frame);
}

#[test]
fn all_five_png_filters_reconstruct_expected_rows() {
    let first = [10_u8, 20, 30, 40, 50];
    for filter in 0_u8..=4 {
        let second = [15_u8, 25, 35, 45, 55];
        let mut filtered = vec![0];
        filtered.extend_from_slice(&first);
        filtered.push(filter);
        for index in 0..second.len() {
            let left = if index > 0 { second[index - 1] } else { 0 };
            let up = first[index];
            let up_left = if index > 0 { first[index - 1] } else { 0 };
            let predictor = match filter {
                0 => 0,
                1 => left,
                2 => up,
                3 => ((u16::from(left) + u16::from(up)) / 2) as u8,
                4 => paeth(left, up, up_left),
                _ => unreachable!(),
            };
            filtered.push(second[index].wrapping_sub(predictor));
        }
        let png = png_from_filtered(5, 2, 0, &filtered);
        let decoded = decode_png(&png).unwrap();
        assert_eq!(decoded.data.as_slice(), &[first, second].concat());
    }
}

#[test]
fn corrupt_crc_is_rejected() {
    let frame = VideoFrame::from_vec(1, 1, PixelFormat::Gray8, vec![42]).unwrap();
    let mut encoded = encode_png(&frame).unwrap();
    encoded[29] ^= 1;
    assert!(decode_png(&encoded).is_err());
}

#[test]
fn unsupported_ihdr_features_are_rejected() {
    for (bit_depth, color_type, interlace) in [(16, 0, 0), (8, 6, 0), (8, 2, 1)] {
        let mut png = png_from_filtered(1, 1, 0, &[0, 0]);
        png[24] = bit_depth;
        png[25] = color_type;
        png[28] = interlace;
        let crc = crc32(&png[12..29]);
        png[29..33].copy_from_slice(&crc.to_be_bytes());
        assert!(decode_png(&png).is_err());
    }
}

#[test]
fn unknown_critical_chunk_and_nonconsecutive_idat_are_rejected() {
    let compressed = zlib::compress_stored(&[0, 1]).unwrap();
    let mut critical = PNG_SIGNATURE.to_vec();
    let mut ihdr = [0_u8; 13];
    ihdr[0..4].copy_from_slice(&1_u32.to_be_bytes());
    ihdr[4..8].copy_from_slice(&1_u32.to_be_bytes());
    ihdr[8] = 8;
    ihdr[9] = 0;
    write_chunk(&mut critical, b"IHDR", &ihdr).unwrap();
    write_chunk(&mut critical, b"ABCD", &[]).unwrap();
    write_chunk(&mut critical, b"IDAT", &compressed).unwrap();
    write_chunk(&mut critical, b"IEND", &[]).unwrap();
    assert!(decode_png(&critical).is_err());

    let mut split = PNG_SIGNATURE.to_vec();
    write_chunk(&mut split, b"IHDR", &ihdr).unwrap();
    let midpoint = compressed.len() / 2;
    write_chunk(&mut split, b"IDAT", &compressed[..midpoint]).unwrap();
    write_chunk(&mut split, b"tEXt", b"x\0y").unwrap();
    write_chunk(&mut split, b"IDAT", &compressed[midpoint..]).unwrap();
    write_chunk(&mut split, b"IEND", &[]).unwrap();
    assert!(decode_png(&split).is_err());
}

#[test]
fn invalid_filter_and_wrong_decompressed_size_are_rejected() {
    assert!(decode_png(&png_from_filtered(1, 1, 0, &[5, 1])).is_err());
    assert!(decode_png(&png_from_filtered(2, 1, 0, &[0, 1])).is_err());
}

fn frame(format: PixelFormat, width: u32, height: u32, data: Vec<u8>) -> VideoFrame {
    VideoFrame::from_vec(width, height, format, data).unwrap()
}

#[test]
fn all_packed_formats_round_trip_through_decoder() {
    let cases = [
        frame(PixelFormat::Gray8, 3, 2, vec![0, 64, 255, 1, 65, 254]),
        frame(
            PixelFormat::Rgb24,
            2,
            2,
            vec![255, 0, 0, 0, 255, 0, 0, 0, 255, 255, 255, 255],
        ),
        frame(
            PixelFormat::GrayAlpha8,
            2,
            2,
            vec![0, 0, 64, 85, 128, 170, 255, 255],
        ),
        frame(
            PixelFormat::Rgba32,
            2,
            2,
            vec![
                255, 0, 0, 0, 0, 255, 0, 85, 0, 0, 255, 170, 255, 255, 255, 255,
            ],
        ),
    ];
    for source in cases {
        let encoded = adaptive::encode_png(&source).unwrap();
        let decoded = decode_png(&encoded).unwrap();
        assert_eq!(decoded, source);
    }
}

#[test]
fn adaptive_filter_chooses_nonzero_filter_for_gradient_rows() {
    let first = vec![10_u8, 20, 30, 40, 50, 60];
    let second = vec![11_u8, 21, 31, 41, 51, 61];
    let (filter, _) = choose_filter(&second, &first, 1);
    assert_ne!(filter, 0);
}

#[test]
fn compressed_png_is_much_smaller_than_stored_baseline_on_flat_image() {
    let source = frame(PixelFormat::Rgba32, 256, 256, vec![0x80; 256 * 256 * 4]);
    let compressed = adaptive::encode_png(&source).unwrap();
    assert!(compressed.len() < source.data.len() / 8);
}

fn rgba_gradient() -> VideoFrame {
    let mut data = Vec::new();
    for y in 0..9_u8 {
        for x in 0..11_u8 {
            data.extend_from_slice(&[x.wrapping_mul(17), y.wrapping_mul(29), x ^ y, 255_u8.wrapping_sub(x.wrapping_mul(7))]);
        }
    }
    VideoFrame::from_vec(11, 9, PixelFormat::Rgba32, data).unwrap()
}

#[test]
fn default_is_paeth_and_round_trips() {
    let source = rgba_gradient();
    let encoded = ffmpeg::encode_png(&source).unwrap();
    let decoded = decode_png(&encoded).unwrap();
    assert_eq!(decoded, source);
}

#[test]
fn every_prediction_mode_round_trips() {
    let source = rgba_gradient();
    for prediction in [PngPrediction::NoFilter, PngPrediction::Sub, PngPrediction::Up, PngPrediction::Average, PngPrediction::Paeth, PngPrediction::Mixed] {
        let encoded = ffmpeg::encode_png_with_options(&source, PngEncodeOptions { prediction, ..PngEncodeOptions::default() }).unwrap();
        assert_eq!(decode_png(&encoded).unwrap(), source);
    }
}

#[test]
fn phys_dpi_and_default_sar_follow_ffmpeg_shape() {
    let source = rgba_gradient();
    let encoded = ffmpeg::encode_png_with_options(&source, PngEncodeOptions { dpi: Some(300), ..PngEncodeOptions::default() }).unwrap();
    let phys = find_chunk(&encoded, b"pHYs").unwrap();
    assert_eq!(u32::from_be_bytes(phys[0..4].try_into().unwrap()), 11_811);
    assert_eq!(u32::from_be_bytes(phys[4..8].try_into().unwrap()), 11_811);
    assert_eq!(phys[8], 1);

    let default = ffmpeg::encode_png(&source).unwrap();
    let phys = find_chunk(&default, b"pHYs").unwrap();
    assert_eq!(&phys[..4], &[0,0,0,0]);
    assert_eq!(&phys[4..8], &[0,0,0,1]);
    assert_eq!(phys[8], 0);
}

fn find_chunk<'a>(png: &'a [u8], wanted: &[u8;4]) -> Option<&'a [u8]> {
    let mut offset = 8_usize;
    while offset + 12 <= png.len() {
        let len = usize::try_from(u32::from_be_bytes(png.get(offset..offset+4)?.try_into().ok()?)).ok()?;
        let kind: &[u8;4] = png.get(offset+4..offset+8)?.try_into().ok()?;
        let start = offset + 8;
        let end = start.checked_add(len)?;
        let data = png.get(start..end)?;
        if kind == wanted { return Some(data); }
        offset = end.checked_add(4)?;
    }
    None
}

#[test]
fn defaults_match_ffmpeg_9_0_1_png_encoder() {
    let options = PngEncodeOptions::default();
    assert_eq!(options.prediction, PngPrediction::Paeth);
    assert_eq!(options.compression_level, 6);
    assert!(!options.interlaced);
    assert_eq!(options.sample_aspect_ratio, (0, 1));
}

#[test]
fn dpi_conversion_matches_ffmpeg_integer_formula() {
    let options = PngEncodeOptions {
        dpi: Some(300),
        ..PngEncodeOptions::default()
    };
    assert_eq!(options.dots_per_meter().unwrap(), Some(11_811));
}

#[test]
fn conflicting_density_and_out_of_range_values_are_rejected() {
    assert!(
        PngEncodeOptions {
            dpi: Some(72),
            dpm: Some(2_835),
            ..PngEncodeOptions::default()
        }
        .validate()
        .is_err()
    );
    assert!(
        PngEncodeOptions {
            compression_level: 10,
            ..PngEncodeOptions::default()
        }
        .validate()
        .is_err()
    );
}

const BASN0G08: &str = "iVBORw0KGgoAAAANSUhEUgAAACAAAAAgCAAAAABWESUoAAAABGdBTUEAAYag\nMeiWXwAAAEFJREFUOI1jZGAkABQIyLMMBQWMDwgp+PcfP2B5MBwUMMoRkGdk\nonlcDAYFjI/wyv7/z/iH5nExGBQwyuCVZWQEAFDl/nFxqQskAAAAAElFTkSu\nQmCC\n";
const BASN2C08: &str = "iVBORw0KGgoAAAANSUhEUgAAACAAAAAgCAIAAAD8GO2jAAAABGdBTUEAAYag\nMeiWXwAAAEhJREFUSInt1cEJADAMAkCF7JH9t3ITO0Qr9KH4zuErtA0EO4AK\nFPgcoO3kfUx4QIECD0qHH8KEBxQo8KB0OCOpQIG7cHejwAGCsflePteTmAAA\nAABJRU5ErkJggg==\n";

#[test]
fn pngsuite_existing_8_bit_gray_and_rgb_paths_decode() {
    let gray = decode_png(&decode_base64(BASN0G08)).unwrap();
    assert_eq!((gray.width, gray.height, gray.format), (32, 32, PixelFormat::Gray8));

    let rgb = decode_png(&decode_base64(BASN2C08)).unwrap();
    assert_eq!((rgb.width, rgb.height, rgb.format), (32, 32, PixelFormat::Rgb24));
}


#[test]
fn adam7_encode_round_trips_through_independent_decoder_path() {
    let source = rgba_gradient();
    let encoded = ffmpeg::encode_png_with_options(&source, PngEncodeOptions { interlaced: true, ..PngEncodeOptions::default() }).unwrap();
    assert_eq!(encoded[28], 1);
    assert_eq!(decode_png(&encoded).unwrap(), source);
}

#[test]
fn stored_encoder_round_trips_every_packed_format() {
    let cases = [
        frame(PixelFormat::Gray8, 5, 3, (0..15).map(|v| (v * 17) as u8).collect()),
        frame(PixelFormat::GrayAlpha8, 2, 3, vec![1, 2, 3, 4, 5, 6, 7, 8, 9, 10, 11, 12]),
        frame(PixelFormat::Rgb24, 1, 4, vec![9, 8, 7, 6, 5, 4, 3, 2, 1, 0, 255, 128]),
        frame(PixelFormat::Rgba32, 3, 1, vec![1, 1, 1, 1, 2, 2, 2, 2, 200, 100, 50, 0]),
    ];
    for source in cases {
        let encoded = encode_png(&source).unwrap();
        assert_eq!(decode_png(&encoded).unwrap(), source);
    }
}

#[test]
fn options_with_density_and_every_level_round_trip() {
    let source = rgba_gradient();
    for level in 0..=9 {
        let options = PngEncodeOptions { compression_level: level, dpi: Some(72), ..PngEncodeOptions::default() };
        let encoded = ffmpeg::encode_png_with_options(&source, options).unwrap();
        assert_eq!(decode_png(&encoded).unwrap(), source, "level {level}");
    }
}

#[test]
fn adaptive_choice_is_cheapest_and_lowest_on_ties() {
    let previous = vec![10_u8, 20, 30, 40, 50, 60, 70, 80];
    for raw in [vec![11_u8, 21, 31, 41, 51, 61, 71, 81], vec![0_u8; 8], vec![200_u8, 3, 250, 9, 0, 128, 127, 1]] {
        let (chosen, stored) = choose_filter(&raw, &previous, 1);
        assert!(chosen <= 4);
        let chosen_cost = filter_score(&stored);
        for g in 0..=4_u8 {
            let cost = filter_score(&filter_row(g, &raw, &previous, 1));
            assert!(chosen_cost <= cost);
            if g < chosen {
                assert!(chosen_cost < cost);
            }
        }
    }
}

#[test]
fn interlaced_files_round_trip_for_every_prediction_and_level() {
    let source = rgba_gradient();
    for prediction in [PngPrediction::NoFilter, PngPrediction::Sub, PngPrediction::Up, PngPrediction::Average, PngPrediction::Paeth, PngPrediction::Mixed] {
        for level in [0_u8, 1, 6, 9] {
            let options = PngEncodeOptions { prediction, compression_level: level, interlaced: true, ..PngEncodeOptions::default() };
            let encoded = ffmpeg::encode_png_with_options(&source, options).unwrap();
            assert_eq!(encoded[28], 1);
            assert_eq!(decode_png(&encoded).unwrap(), source, "{prediction:?} level {level}");
        }
    }
    let tiny = frame(PixelFormat::Gray8, 1, 1, vec![77]);
    let options = PngEncodeOptions { interlaced: true, ..PngEncodeOptions::default() };
    assert_eq!(decode_png(&ffmpeg::encode_png_with_options(&tiny, options).unwrap()).unwrap(), tiny);
}

#[test]
fn bytes_after_iend_are_rejected_by_both_decoders() {
    let source = rgba_gradient();
    let plain = ffmpeg::encode_png(&source).unwrap();
    let interlaced = ffmpeg::encode_png_with_options(&source, PngEncodeOptions { interlaced: true, ..PngEncodeOptions::default() }).unwrap();
    for file in [plain, interlaced, encode_png(&source).unwrap()] {
        assert_eq!(decode_png(&file).unwrap(), source);
        let mut extended = file.clone();
        extended.push(0);
        assert!(decode_png(&extended).is_err());
    }
}

#[test]
fn interlacing_changes_the_file_not_the_picture() {
    let source = frame(PixelFormat::Rgb24, 9, 5, (0..135).map(|v| (v * 13 % 256) as u8).collect());
    let options = PngEncodeOptions { prediction: PngPrediction::Mixed, compression_level: 3, ..PngEncodeOptions::default() };
    let plain = ffmpeg::encode_png_with_options(&source, options).unwrap();
    let adam7 = ffmpeg::encode_png_with_options(&source, PngEncodeOptions { interlaced: true, ..options }).unwrap();
    assert_ne!(plain, adam7);
    assert_eq!(decode_png(&plain).unwrap(), decode_png(&adam7).unwrap());
}

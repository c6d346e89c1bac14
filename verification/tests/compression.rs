use rustmpeg::checksum::{adler32, crc32};
use rustmpeg::deflate_encode::{compress_fixed, BitWriter};
use rustmpeg::deflate_level::compress_fixed_level;
use rustmpeg::error::ErrorKind;
use rustmpeg::inflate::inflate;
use rustmpeg::zlib::{compress, compress_stored, compress_with_level, decompress};

#[test]
fn crc32_matches_standard_check_vectors() {
    assert_eq!(crc32(b""), 0x0000_0000);
    assert_eq!(crc32(b"123456789"), 0xCBF4_3926);
    assert_eq!(crc32(b"Wikipedia"), 0xADAA_C02E);
}

#[test]
fn adler32_matches_standard_check_vectors() {
    assert_eq!(adler32(b""), 0x0000_0001);
    assert_eq!(adler32(b"123456789"), 0x091E_01DE);
    assert_eq!(adler32(b"Wikipedia"), 0x11E6_0398);
}

#[test]
fn chunked_adler_reduction_matches_large_reference_vector() {
    let bytes = vec![0xFF; 100_000];
    assert_eq!(adler32(&bytes), 0x149A_302C);
}

#[test]
fn stored_block_decodes_exact_payload() {
    let stream = [
        0x01, 0x14, 0x00, 0xEB, 0xFF, 0x73, 0x74, 0x6F, 0x72, 0x65, 0x64, 0x20, 0x62, 0x6C, 0x6F,
        0x63, 0x6B, 0x20, 0x70, 0x61, 0x79, 0x6C, 0x6F, 0x61, 0x64,
    ];
    assert_eq!(inflate(&stream, 1024).unwrap(), b"stored block payload");
}

#[test]
fn fixed_huffman_stream_decodes_matches_and_literals() {
    let stream = [0xCB, 0x48, 0xCD, 0xC9, 0xC9, 0x57, 0xC8, 0x40, 0x27, 0x15, 0x01];
    assert_eq!(inflate(&stream, 1024).unwrap(), b"hello hello hello hello!");
}

#[test]
fn dynamic_huffman_stream_decodes_long_repetitive_payload() {
    let stream = [
        0xED, 0xC7, 0x31, 0x01, 0x00, 0x20, 0x0C, 0x03, 0x30, 0xAD, 0xA5, 0xC3, 0xBF, 0x05, 0x26,
        0x00, 0x09, 0xC9, 0x97, 0x64, 0x9D, 0xD5, 0x76, 0xE6, 0x46, 0x55, 0x55, 0x55, 0x55, 0x55,
        0x55, 0x55, 0x55, 0x55, 0x55, 0x55, 0x55, 0x55, 0x55, 0x55, 0x55, 0x55, 0x55, 0x55, 0x55,
        0x55, 0x55, 0x55, 0x55, 0x55, 0x55, 0x55, 0x55, 0xF5, 0xD7, 0x07,
    ];
    let expected = b"aaaaabbbbcccdde".repeat(1_000);
    assert_eq!(inflate(&stream, 20_000).unwrap(), expected);
}

#[test]
fn stored_block_rejects_bad_complement() {
    let stream = [0x01, 0x01, 0x00, 0x00, 0x00, b'x'];
    assert!(inflate(&stream, 32).is_err());
}

#[test]
fn output_limit_stops_decompression_bomb_expansion() {
    let stream = [0xCB, 0x48, 0xCD, 0xC9, 0xC9, 0x57, 0xC8, 0x40, 0x27, 0x15, 0x01];
    assert!(inflate(&stream, 8).is_err());
}

#[test]
fn reserved_block_type_is_rejected() {
    assert!(inflate(&[0x07], 16).is_err());
}

#[test]
fn empty_and_literal_only_inputs_round_trip() {
    for input in [b"".as_slice(), b"a", b"abcdefg", &[0, 1, 2, 3, 4, 5, 6, 7]] {
        let compressed = compress_fixed(input).unwrap();
        assert_eq!(inflate(&compressed, input.len()).unwrap(), input);
    }
}

#[test]
fn overlapping_and_long_matches_round_trip() {
    for input in [
        vec![b'a'; 20_000],
        b"abcabcabcabcabcabcabcabcabcabc".repeat(500),
        (0..100_000_u32).map(|value| (value & 0xff) as u8).collect(),
    ] {
        let compressed = compress_fixed(&input).unwrap();
        assert_eq!(inflate(&compressed, input.len()).unwrap(), input);
    }
}

#[test]
fn repetitive_payload_is_materially_smaller_than_stored_data() {
    let input = b"rgba-row-rgba-row-rgba-row-".repeat(4_000);
    let compressed = compress_fixed(&input).unwrap();
    assert!(compressed.len() < input.len() / 4);
}

#[test]
fn distance_window_boundary_is_respected() {
    let mut input = (0..32_768_u32)
        .map(|value| (value.wrapping_mul(73) & 0xff) as u8)
        .collect::<Vec<_>>();
    input.extend_from_slice(&input.clone());
    let compressed = compress_fixed(&input).unwrap();
    assert_eq!(inflate(&compressed, input.len()).unwrap(), input);
}

#[test]
fn every_effort_level_round_trips() {
    let source = b"abcdefghabcdefghabcdefgh-0123456789-abcdefghabcdefgh".repeat(500);
    for level in 1..=9 {
        let encoded = compress_fixed_level(&source, level).unwrap();
        assert_eq!(inflate(&encoded, source.len()).unwrap(), source);
    }
}

#[test]
fn higher_effort_never_regresses_reference_fixture_size() {
    let mut source = Vec::new();
    for i in 0..5000_u32 {
        source.extend_from_slice(format!("row-{i:04}-common-common-common-row-{i:04}\n").as_bytes());
    }
    let low = compress_fixed_level(&source, 1).unwrap();
    let high = compress_fixed_level(&source, 9).unwrap();
    assert!(high.len() <= low.len());
}

#[test]
fn invalid_effort_level_is_rejected() {
    assert_eq!(compress_fixed_level(b"x", 0).unwrap_err().kind(), ErrorKind::InvalidArgument);
    assert_eq!(compress_fixed_level(b"x", 10).unwrap_err().kind(), ErrorKind::InvalidArgument);
}

#[test]
fn standard_fixed_huffman_zlib_vector_decodes() {
    let stream = [
        0x78, 0x9C, 0xCB, 0x48, 0xCD, 0xC9, 0xC9, 0x57, 0xC8, 0x40, 0x27, 0x15, 0x01, 0x70, 0xD5,
        0x08, 0xD2,
    ];
    assert_eq!(decompress(&stream, 1024).unwrap(), b"hello hello hello hello!");
}

#[test]
fn dynamic_huffman_zlib_wrapper_matches_verified_raw_payload() {
    let mut raw = vec![
        0xED, 0xC7, 0x31, 0x01, 0x00, 0x20, 0x0C, 0x03, 0x30, 0xAD, 0xA5, 0xC3, 0xBF, 0x05, 0x26,
        0x00, 0x09, 0xC9, 0x97, 0x64, 0x9D, 0xD5, 0x76, 0xE6, 0x46,
    ];
    raw.extend_from_slice(&[0x55; 28]);
    raw.extend_from_slice(&[0xF5, 0xD7, 0x07]);

    let expected = b"aaaaabbbbcccdde".repeat(1_000);
    assert_eq!(inflate(&raw, 20_000).unwrap(), expected);
    assert_eq!(adler32(&expected), 0x4ECB_8303);

    let mut stream = Vec::with_capacity(2 + raw.len() + 4);
    stream.extend_from_slice(&[0x78, 0xDA]);
    stream.extend_from_slice(&raw);
    stream.extend_from_slice(&adler32(&expected).to_be_bytes());

    assert_eq!(decompress(&stream, 20_000).unwrap(), expected);
}

#[test]
fn bad_header_check_bits_are_rejected() {
    let stream = [0x78, 0x9D, 0x03, 0x00, 0x00, 0x00];
    assert!(decompress(&stream, 16).is_err());
}

#[test]
fn preset_dictionary_flag_is_rejected_explicitly() {
    let stream = [0x78, 0x20, 0x00, 0x00, 0x00, 0x01];
    assert!(decompress(&stream, 16).is_err());
}

#[test]
fn corrupt_adler_trailer_is_rejected() {
    let mut stream = [
        0x78, 0x9C, 0xCB, 0x48, 0xCD, 0xC9, 0xC9, 0x57, 0xC8, 0x40, 0x27, 0x15, 0x01, 0x70, 0xD5,
        0x08, 0xD2,
    ];
    *stream.last_mut().unwrap() ^= 1;
    assert!(decompress(&stream, 1024).is_err());
}

#[test]
fn zlib_header_errors_have_their_kinds() {
    assert_eq!(decompress(&[0x78, 0x9C, 0, 0, 0], 8).unwrap_err().kind(), ErrorKind::InvalidData);
    assert_eq!(decompress(&[0x79, 0x9C, 0, 0, 0, 0], 8).unwrap_err().kind(), ErrorKind::Unsupported);
    assert_eq!(decompress(&[0x88, 0x98, 0, 0, 0, 0], 8).unwrap_err().kind(), ErrorKind::InvalidData);
    assert_eq!(decompress(&[0x78, 0x20, 0, 0, 0, 1], 8).unwrap_err().kind(), ErrorKind::Unsupported);
}

#[test]
fn zlib_header_is_valid_and_round_trips() {
    for input in [Vec::new(), b"hello hello hello hello".to_vec(), vec![0xA5; 100_000]] {
        let encoded = compress(&input).unwrap();
        assert_eq!(u16::from_be_bytes([encoded[0], encoded[1]]) % 31, 0);
        assert_eq!(encoded[0] & 0x0f, 8);
        assert_eq!(decompress(&encoded, input.len()).unwrap(), input);
    }
}

#[test]
fn repetitive_zlib_is_smaller_than_stored_baseline() {
    let input = b"scanline scanline scanline scanline".repeat(4_000);
    let compressed = compress(&input).unwrap();
    let stored = compress_stored(&input).unwrap();
    assert!(compressed.len() < stored.len() / 4);
}

#[test]
fn all_levels_have_valid_headers_and_round_trip() {
    let source = b"compress-level-fixture-compress-level-fixture".repeat(3000);
    for level in 0..=9 {
        let encoded = compress_with_level(&source, level).unwrap();
        assert_eq!(u16::from_be_bytes([encoded[0], encoded[1]]) % 31, 0);
        assert_eq!(decompress(&encoded, source.len()).unwrap(), source);
    }
}

#[test]
fn level_zero_is_stored_and_high_effort_is_smaller_on_repetition() {
    let source = b"AAAAABBBBBCCCCCDDDDDEEEEE".repeat(10_000);
    let zero = compress_with_level(&source, 0).unwrap();
    let nine = compress_with_level(&source, 9).unwrap();
    assert_eq!(&zero[..2], &[0x78, 0x01]);
    assert!(nine.len() < zero.len() / 8);
}

#[test]
fn stored_zlib_of_empty_input_is_exact() {
    assert_eq!(
        compress_stored(&[]).unwrap(),
        vec![0x78, 0x01, 0x01, 0x00, 0x00, 0xFF, 0xFF, 0x00, 0x00, 0x00, 0x01]
    );
    let big = vec![7u8; 70_000];
    let stored = compress_stored(&big).unwrap();
    assert_eq!(stored.len(), 2 + 5 + 65_535 + 5 + 4_465 + 4);
    assert_eq!(decompress(&stored, big.len()).unwrap(), big);
    assert_eq!(compress_with_level(&big, 10).unwrap_err().kind(), ErrorKind::InvalidArgument);
}

#[test]
fn stored_zlib_stream_decompresses_to_its_input() {
    let data: Vec<u8> = (0..70_000u32).map(|i| (i % 251) as u8).collect();
    let z = compress_stored(&data).unwrap();
    assert_eq!(decompress(&z, data.len()).unwrap(), data);
    assert_eq!(decompress(&z, data.len() - 1).unwrap_err().kind(), ErrorKind::Unsupported);
}

#[test]
fn truncated_and_unaligned_streams_report_their_kinds() {
    assert_eq!(inflate(&[], 10).unwrap_err().kind(), ErrorKind::EndOfFile);
    assert_eq!(inflate(&[0x01, 0x05, 0x00], 10).unwrap_err().kind(), ErrorKind::EndOfFile);
    assert_eq!(inflate(&[0x01, 0x01, 0x00, 0xfe, 0xff, 0x41], 10).unwrap(), vec![0x41]);
}

#[test]
fn fixed_block_of_single_literal_is_exact() {
    assert_eq!(compress_fixed(b"a").unwrap(), vec![0x4B, 0x04, 0x00]);
    assert_eq!(compress(b"a").unwrap(), vec![0x78, 0x5E, 0x4B, 0x04, 0x00, 0x00, 0x62, 0x00, 0x62]);
}

#[test]
fn written_fields_pack_least_significant_bit_first() {
    let mut writer = BitWriter::new();
    writer.write_bits_lsb(5, 3);
    writer.write_bits_lsb(0x1234, 13);
    assert_eq!(writer.finish(), vec![0xA5, 0x91]);
}

#[test]
fn level_headers_carry_flevel_and_check_bits() {
    let expected = [0x01_u8, 0x01, 0x01, 0x5E, 0x5E, 0x5E, 0x9C, 0xDA, 0xDA, 0xDA];
    for level in 0..=9_u8 {
        let out = compress_with_level(b"header check", level).unwrap();
        assert_eq!(out[0], 0x78);
        assert_eq!(out[1], expected[usize::from(level)]);
        assert_eq!((u16::from(out[0]) * 256 + u16::from(out[1])) % 31, 0);
    }
}

#[test]
fn zlib_streams_of_every_level_decompress_to_their_input() {
    let source = b"round trip: abcabcabcabc 0123456789 zzzzzzzzzzzzzzzz".repeat(40);
    for level in 0..=9 {
        let encoded = compress_with_level(&source, level).unwrap();
        assert_eq!(decompress(&encoded, source.len()).unwrap(), source, "level {level}");
    }
    let greedy = compress(&source).unwrap();
    assert_eq!(&greedy[..2], &[0x78, 0x5E]);
    assert_eq!(&greedy[2..greedy.len() - 4], compress_fixed(&source).unwrap().as_slice());
    assert_eq!(decompress(&greedy, source.len()).unwrap(), source);
}

#[test]
fn fixed_blocks_inflate_back_within_an_exact_limit() {
    for input in [Vec::new(), b"a".to_vec(), b"aaaaaaaaaaaaaaaaaaaaaaaaaaaaaaaa".to_vec(), (0u8..=255).collect::<Vec<u8>>()] {
        let greedy = compress_fixed(&input).unwrap();
        assert_eq!(inflate(&greedy, input.len()).unwrap(), input);
        for level in 1..=9 {
            let chained = compress_fixed_level(&input, level).unwrap();
            assert_eq!(inflate(&chained, input.len()).unwrap(), input);
        }
    }
}

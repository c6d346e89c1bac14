use rustmpeg::error::ErrorKind;
use rustmpeg::jpeg_decode::{decode_jpeg, validate_restarts};

fn segment_bytes(marker: u8, payload: &[u8], out: &mut Vec<u8>) {
    out.extend_from_slice(&[0xff, marker]);
    out.extend_from_slice(&u16::try_from(payload.len() + 2).unwrap().to_be_bytes());
    out.extend_from_slice(payload);
}

fn one_code_table(class_id: u8, symbol: u8) -> Vec<u8> {
    let mut dht = vec![class_id, 1];
    dht.extend_from_slice(&[0; 15]);
    dht.push(symbol);
    dht
}

/// An 8x8 grey baseline stream whose only block has DC difference 3 and
/// no AC coefficients, quantized by 2.
fn baseline_gray(frame_marker: u8) -> Vec<u8> {
    let mut out = vec![0xff, 0xd8];
    let mut dqt = vec![0x00];
    dqt.extend_from_slice(&[2; 64]);
    segment_bytes(0xdb, &dqt, &mut out);
    segment_bytes(frame_marker, &[8, 0, 8, 0, 8, 1, 1, 0x11, 0], &mut out);
    segment_bytes(0xc4, &one_code_table(0x00, 2), &mut out);
    segment_bytes(0xc4, &one_code_table(0x10, 0), &mut out);
    segment_bytes(0xda, &[1, 1, 0x00, 0, 63, 0], &mut out);
    // DC code 0, magnitude bits 11, AC end-of-block code 0, then 1-padding.
    out.push(0b0110_1111);
    out.extend_from_slice(&[0xff, 0xd9]);
    out
}

#[test]
fn malformed_marker_stream_is_rejected() {
    assert!(decode_jpeg(&[0xff, 0xd8, 0x00, 0xff, 0xd9]).is_err());
}

#[test]
fn restart_sequence_validation_rejects_wrong_marker_order() {
    assert!(validate_restarts(&vec![0xd1], 2, 2, 1).is_err());
}

#[test]
fn rejects_progressive_until_progressive_path_exists() {
    let bytes = [0xff, 0xd8, 0xff, 0xc2, 0x00, 0x0b, 8, 0, 8, 0, 8, 1, 1, 0x11, 0, 0xff, 0xd9];
    assert!(decode_jpeg(&bytes).is_err());
}

#[test]
fn baseline_block_is_decoded_and_dequantized() {
    let decoded = decode_jpeg(&baseline_gray(0xc0)).unwrap();
    assert_eq!(decoded.header.width, 8);
    assert_eq!(decoded.header.height, 8);
    assert!(!decoded.header.progressive);
    assert_eq!(decoded.components.len(), 1);
    assert_eq!(decoded.coefficients.len(), 64);
    assert_eq!(decoded.coefficients[0], 6);
    assert!(decoded.coefficients[1..].iter().all(|&c| c == 0));
}

#[test]
fn scan_before_frame_is_invalid() {
    let mut out = vec![0xff, 0xd8];
    segment_bytes(0xda, &[1, 1, 0x00, 0, 63, 0], &mut out);
    out.push(0);
    out.extend_from_slice(&[0xff, 0xd9]);
    assert_eq!(decode_jpeg(&out).unwrap_err().kind(), ErrorKind::InvalidData);
}

#[test]
fn arithmetic_coded_frame_is_unsupported() {
    let mut out = vec![0xff, 0xd8];
    segment_bytes(0xc9, &[8, 0, 8, 0, 8, 1, 1, 0x11, 0], &mut out);
    out.extend_from_slice(&[0xff, 0xd9]);
    assert_eq!(decode_jpeg(&out).unwrap_err().kind(), ErrorKind::Unsupported);
}

#[test]
fn trailing_bytes_after_eoi_are_invalid() {
    let mut bytes = baseline_gray(0xc0);
    bytes.push(0);
    assert_eq!(decode_jpeg(&bytes).unwrap_err().kind(), ErrorKind::InvalidData);
}

#[test]
fn missing_quantization_table_is_invalid() {
    let bytes = baseline_gray(0xc0);
    // Drop the DQT segment (2 marker + 2 length + 65 payload bytes).
    let mut without = bytes[..2].to_vec();
    without.extend_from_slice(&bytes[2 + 69..]);
    assert_eq!(decode_jpeg(&without).unwrap_err().kind(), ErrorKind::InvalidData);
}

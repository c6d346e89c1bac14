use rustmpeg::error::ErrorKind;
use rustmpeg::jpeg::{parse_jpeg, probe_jpeg, JpegCoding, DHT, DQT, DRI, EOI, SOF0, SOF2, SOI, SOS};

fn segment_bytes(marker: u8, payload: &[u8], out: &mut Vec<u8>) {
    out.extend_from_slice(&[0xff, marker]);
    out.extend_from_slice(&u16::try_from(payload.len() + 2).unwrap().to_be_bytes());
    out.extend_from_slice(payload);
}

fn minimal(coding: u8) -> Vec<u8> {
    let mut out = vec![0xff, SOI];
    let mut dqt = vec![0x00];
    dqt.extend_from_slice(&[1; 64]);
    segment_bytes(DQT, &dqt, &mut out);
    let mut dht = vec![0x00];
    dht.extend_from_slice(&[1, 0, 0, 0, 0, 0, 0, 0, 0, 0, 0, 0, 0, 0, 0, 0]);
    dht.push(0);
    segment_bytes(DHT, &dht, &mut out);
    segment_bytes(coding, &[8, 0, 8, 0, 8, 1, 1, 0x11, 0], &mut out);
    segment_bytes(SOS, &[1, 1, 0, 0, 63, 0], &mut out);
    out.push(0x00);
    out.extend_from_slice(&[0xff, EOI]);
    out
}

#[test]
fn parses_baseline_and_progressive_frame_metadata() {
    for (marker, coding) in [(SOF0, JpegCoding::Baseline), (SOF2, JpegCoding::Progressive)] {
        let parsed = parse_jpeg(&minimal(marker)).unwrap();
        assert_eq!(parsed.info.width, 8);
        assert_eq!(parsed.info.height, 8);
        assert_eq!(parsed.info.components, 1);
        assert_eq!(parsed.info.coding, coding);
        assert_eq!(parsed.markers.quantization_tables, 1);
        assert_eq!(parsed.markers.huffman_tables, 1);
        assert_eq!(parsed.markers.scans, 1);
    }
}

#[test]
fn rejects_truncated_and_invalid_lengths() {
    assert!(parse_jpeg(&[0xff, SOI, 0xff]).is_err());
    assert!(parse_jpeg(&[0xff, SOI, 0xff, DQT, 0, 1]).is_err());
    let mut jpeg = minimal(SOF0);
    jpeg.pop();
    assert!(parse_jpeg(&jpeg).is_err());
}

#[test]
fn entropy_stuffing_and_restart_markers_do_not_end_scan() {
    let mut jpeg = minimal(SOF0);
    let eoi = jpeg.len() - 2;
    jpeg.splice(eoi - 1..eoi, [0x12, 0xff, 0x00, 0x34, 0xff, 0xd0, 0x56]);
    assert!(parse_jpeg(&jpeg).is_ok());
}

#[test]
fn probe_scores_soi_followed_by_marker() {
    assert_eq!(probe_jpeg(&[0xff, SOI, 0xff, 0xe0]), 100);
    assert_eq!(probe_jpeg(&[0xff, SOI, 0x00, 0xe0]), 0);
    assert_eq!(probe_jpeg(&[0xff, SOI, 0xff]), 0);
}

#[test]
fn restart_interval_and_error_kinds_are_reported() {
    let mut jpeg = minimal(SOF0);
    let mut with_dri = jpeg[..2].to_vec();
    segment_bytes(DRI, &[0x00, 0x10], &mut with_dri);
    with_dri.extend_from_slice(&jpeg[2..]);
    let parsed = parse_jpeg(&with_dri).unwrap();
    assert_eq!(parsed.markers.restart_interval, Some(16));

    // Trailing bytes after EOI.
    jpeg.push(0);
    assert_eq!(parse_jpeg(&jpeg).unwrap_err().kind(), ErrorKind::InvalidData);
    // No EOI at all.
    let mut no_eoi = minimal(SOF0);
    no_eoi.truncate(no_eoi.len() - 2);
    no_eoi.extend_from_slice(&[0xff, 0xfe, 0x00, 0x02]);
    assert_eq!(parse_jpeg(&no_eoi).unwrap_err().kind(), ErrorKind::EndOfFile);
    // Lossless frames are refused as unsupported.
    let lossless = minimal(0xc3);
    assert_eq!(parse_jpeg(&lossless).unwrap_err().kind(), ErrorKind::Unsupported);
    // Twelve-bit precision is unsupported.
    let mut twelve = vec![0xff, SOI];
    segment_bytes(SOF0, &[12, 0, 8, 0, 8, 1, 1, 0x11, 0], &mut twelve);
    twelve.extend_from_slice(&[0xff, EOI]);
    assert_eq!(parse_jpeg(&twelve).unwrap_err().kind(), ErrorKind::Unsupported);
}

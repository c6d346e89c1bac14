use rustmpeg::error::ErrorKind;
use rustmpeg::media::{build_banner, Buffer, Packet, PacketFlags, PACKET_FLAG_CORRUPT, PACKET_FLAG_KEY};
use rustmpeg::rational::{rescale, Rational, Rounding, Timestamp};
use rustmpeg::video::{PixelFormat, VideoFrame};

#[test]
fn rational_normalizes_sign_and_gcd() {
    assert_eq!(Rational::new(30, -60).unwrap(), Rational::new(-1, 2).unwrap());
}

#[test]
fn rescale_rounds_negative_values_correctly() {
    let source = Rational::new(1, 3).unwrap();
    let destination = Rational::one();
    assert_eq!(rescale(-2, source, destination, Rounding::Down).unwrap(), -1);
    assert_eq!(rescale(-2, source, destination, Rounding::Up).unwrap(), 0);
    assert_eq!(rescale(-2, source, destination, Rounding::Nearest).unwrap(), -1);
}

#[test]
fn buffer_slicing_shares_storage() {
    let buffer = Buffer::from_vec(vec![1, 2, 3, 4]);
    let slice = buffer.slice(1, 2).unwrap();
    assert_eq!(slice.as_slice(), &[2, 3]);
    assert_eq!(buffer.as_slice(), &[1, 2, 3, 4]);
}

#[test]
fn rational_zero_denominator_and_reciprocal() {
    assert_eq!(Rational::new(1, 0).unwrap_err().kind(), ErrorKind::InvalidArgument);
    let r = Rational::new(-6, 4).unwrap();
    assert_eq!((r.numerator(), r.denominator()), (-3, 2));
    let inv = r.reciprocal().unwrap();
    assert_eq!((inv.numerator(), inv.denominator()), (-2, 3));
    assert_eq!(Rational::zero().reciprocal().unwrap_err().kind(), ErrorKind::InvalidArgument);
    assert_eq!(Rational::new(i64::MIN, -1).unwrap_err().kind(), ErrorKind::Overflow);
}

#[test]
fn rescale_exact_values_and_errors() {
    let ms = Rational::millisecond();
    let us = Rational::microsecond();
    assert_eq!(rescale(1500, ms, Rational::one(), Rounding::Nearest).unwrap(), 2);
    assert_eq!(rescale(1499, ms, Rational::one(), Rounding::Nearest).unwrap(), 1);
    assert_eq!(rescale(7, ms, us, Rounding::TowardZero).unwrap(), 7000);
    assert_eq!(rescale(-7, Rational::new(1, 2).unwrap(), Rational::one(), Rounding::TowardZero).unwrap(), -3);
    assert_eq!(rescale(1, ms, Rational::zero(), Rounding::Up).unwrap_err().kind(), ErrorKind::InvalidArgument);
    assert_eq!(
        rescale(i64::MAX, Rational::one(), us, Rounding::Up).unwrap_err().kind(),
        ErrorKind::Overflow
    );
    let t = Timestamp { value: 90_000, time_base: Rational::new(1, 90_000).unwrap() };
    let t2 = t.rescale(ms, Rounding::Down).unwrap();
    assert_eq!(t2.value, 1000);
    assert_eq!(t2.time_base, ms);
}

#[test]
fn buffer_slice_bounds_and_equality() {
    let buffer = Buffer::copy_from_slice(&[9, 8, 7]);
    assert_eq!(buffer.len(), 3);
    assert!(!buffer.is_empty());
    assert_eq!(buffer.slice(2, 2).unwrap_err().kind(), ErrorKind::InvalidArgument);
    assert_eq!(buffer.slice(usize::MAX, 2).unwrap_err().kind(), ErrorKind::Overflow);
    assert!(buffer.slice(3, 0).unwrap().is_empty());
    assert_eq!(buffer.slice(1, 1).unwrap(), Buffer::from_vec(vec![8]));
}

#[test]
fn packet_flags_set_and_clear() {
    let mut packet = Packet::new(Buffer::from_vec(vec![1]), 3, Rational::one());
    assert_eq!(packet.flags.bits(), 0);
    assert_eq!(packet.pts, None);
    packet.flags.set(PACKET_FLAG_KEY, true);
    packet.flags.set(PACKET_FLAG_CORRUPT, true);
    assert!(packet.flags.contains(PACKET_FLAG_KEY));
    packet.flags.set(PACKET_FLAG_KEY, false);
    assert!(!packet.flags.contains(PACKET_FLAG_KEY));
    assert!(packet.flags.contains(PACKET_FLAG_CORRUPT));
    assert_eq!(packet.flags.bits(), 2);
    assert_eq!(PacketFlags::empty().bits(), 0);
}

#[test]
fn banner_names_program_and_versions() {
    assert_eq!(
        build_banner("ffprobe"),
        "ffprobe version rustmpeg-0.1.0 (FFmpeg 9.0.1 compatibility target)"
    );
}

#[test]
fn packed_rgb_frame_validates_exact_storage() {
    let frame = VideoFrame::from_vec(2, 2, PixelFormat::Rgb24, vec![0; 12]).unwrap();
    assert_eq!(frame.linesize, 6);
    assert_eq!(frame.pixel_count(), 4);
    assert_eq!(frame.row(1).unwrap(), &[0; 6]);
}

#[test]
fn packed_alpha_frames_validate_exact_storage() {
    let gray_alpha = VideoFrame::from_vec(2, 1, PixelFormat::GrayAlpha8, vec![7, 8, 9, 10]).unwrap();
    assert_eq!(gray_alpha.linesize, 4);
    assert_eq!(gray_alpha.row(0).unwrap(), &[7, 8, 9, 10]);

    let rgba = VideoFrame::from_vec(2, 1, PixelFormat::Rgba32, vec![1, 2, 3, 4, 5, 6, 7, 8]).unwrap();
    assert_eq!(rgba.linesize, 8);
    assert_eq!(rgba.row(0).unwrap(), &[1, 2, 3, 4, 5, 6, 7, 8]);
}

#[test]
fn packed_row_size_is_checked() {
    assert_eq!(PixelFormat::Gray8.packed_row_bytes(4), Some(4));
    assert_eq!(PixelFormat::GrayAlpha8.packed_row_bytes(4), Some(8));
    assert_eq!(PixelFormat::Rgb24.packed_row_bytes(4), Some(12));
    assert_eq!(PixelFormat::Rgba32.packed_row_bytes(4), Some(16));
}

#[test]
fn malformed_storage_is_rejected() {
    assert!(VideoFrame::from_vec(2, 2, PixelFormat::Rgb24, vec![0; 11]).is_err());
    assert!(VideoFrame::from_vec(0, 2, PixelFormat::Gray8, Vec::new()).is_err());
    assert!(VideoFrame::from_vec(1, 1, PixelFormat::Rgba32, vec![0; 3]).is_err());
}

#[test]
fn row_bounds_are_checked() {
    let frame = VideoFrame::from_vec(1, 1, PixelFormat::Gray8, vec![7]).unwrap();
    assert_eq!(frame.row(0).unwrap(), &[7]);
    assert!(frame.row(1).is_err());
}

#[test]
fn pixel_format_names() {
    assert_eq!(PixelFormat::Gray8.name(), "gray");
    assert_eq!(PixelFormat::GrayAlpha8.name(), "ya8");
    assert_eq!(PixelFormat::Rgb24.name(), "rgb24");
    assert_eq!(PixelFormat::Rgba32.name(), "rgba");
}

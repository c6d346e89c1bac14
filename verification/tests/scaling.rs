use rustmpeg::scale::{convert_pixel_format, scale_nearest};
use rustmpeg::video::{PixelFormat, VideoFrame};

#[test]
fn gray_to_rgb_replicates_channels() {
    let frame = VideoFrame::from_vec(2, 1, PixelFormat::Gray8, vec![0, 200]).unwrap();
    let rgb = convert_pixel_format(&frame, PixelFormat::Rgb24).unwrap();
    assert_eq!(rgb.data.as_slice(), &[0, 0, 0, 200, 200, 200]);
}

#[test]
fn rgb_to_gray_uses_deterministic_integer_luma() {
    let frame = VideoFrame::from_vec(
        3,
        1,
        PixelFormat::Rgb24,
        vec![255, 0, 0, 0, 255, 0, 0, 0, 255],
    )
    .unwrap();
    let gray = convert_pixel_format(&frame, PixelFormat::Gray8).unwrap();
    assert_eq!(gray.data.as_slice(), &[77, 149, 29]);
}

#[test]
fn nearest_scale_preserves_corner_mapping() {
    let frame = VideoFrame::from_vec(2, 2, PixelFormat::Gray8, vec![1, 2, 3, 4]).unwrap();
    let scaled = scale_nearest(&frame, 4, 4).unwrap();
    assert_eq!(
        scaled.data.as_slice(),
        &[1, 1, 2, 2, 1, 1, 2, 2, 3, 3, 4, 4, 3, 3, 4, 4]
    );
}

#[test]
fn zero_sized_scale_is_rejected() {
    let frame = VideoFrame::from_vec(1, 1, PixelFormat::Gray8, vec![0]).unwrap();
    assert!(scale_nearest(&frame, 0, 1).is_err());
}

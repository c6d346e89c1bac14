use rustmpeg::codec::CodecId;
use rustmpeg::error::ErrorKind;
use rustmpeg::image::{
    codec_for_extension, decode_image, encode_image, is_image_codec, pixel_format_for_codec, prepare_frame,
    probe_image,
};
use rustmpeg::video::{PixelFormat, VideoFrame};

#[test]
fn pgm_encoding_converts_rgb_to_gray() {
    let frame = VideoFrame::from_vec(1, 1, PixelFormat::Rgb24, vec![255, 0, 0]).unwrap();
    let encoded = encode_image(CodecId::Pgm, &frame).unwrap();
    let decoded = decode_image(&encoded).unwrap();
    assert_eq!(decoded.codec, CodecId::Pgm);
    assert_eq!(decoded.frame.data.as_slice(), &[77]);
}

#[test]
fn bmp_round_trip_uses_rgb24() {
    let frame = VideoFrame::from_vec(1, 1, PixelFormat::Gray8, vec![91]).unwrap();
    let encoded = encode_image(CodecId::Bmp, &frame).unwrap();
    let decoded = decode_image(&encoded).unwrap();
    assert_eq!(decoded.codec, CodecId::Bmp);
    assert_eq!(decoded.frame.format, PixelFormat::Rgb24);
    assert_eq!(decoded.frame.data.as_slice(), &[91, 91, 91]);
}

#[test]
fn targa_preserves_grayscale_frames() {
    let frame = VideoFrame::from_vec(2, 1, PixelFormat::Gray8, vec![12, 240]).unwrap();
    let prepared = prepare_frame(&frame, CodecId::Targa, None).unwrap();
    assert_eq!(prepared.format, PixelFormat::Gray8);
    let encoded = encode_image(CodecId::Targa, &prepared).unwrap();
    let decoded = decode_image(&encoded).unwrap();
    assert_eq!(decoded.codec, CodecId::Targa);
    assert_eq!(decoded.frame, frame);
}

#[test]
fn png_preserves_grayscale_frames() {
    let frame = VideoFrame::from_vec(2, 1, PixelFormat::Gray8, vec![12, 240]).unwrap();
    let prepared = prepare_frame(&frame, CodecId::Png, None).unwrap();
    assert_eq!(prepared.format, PixelFormat::Gray8);
    let encoded = encode_image(CodecId::Png, &prepared).unwrap();
    let decoded = decode_image(&encoded).unwrap();
    assert_eq!(decoded.codec, CodecId::Png);
    assert_eq!(decoded.frame, frame);
}

#[test]
fn prepare_frame_scales_and_converts() {
    let frame = VideoFrame::from_vec(1, 1, PixelFormat::Gray8, vec![123]).unwrap();
    let output = prepare_frame(&frame, CodecId::Ppm, Some((2, 2))).unwrap();
    assert_eq!(output.format, PixelFormat::Rgb24);
    assert_eq!(output.width, 2);
    assert_eq!(output.height, 2);
    assert_eq!(output.data.as_slice(), &[123; 12]);
}

#[test]
fn extension_selects_expected_image_codec() {
    assert_eq!(codec_for_extension("PBM"), Some(CodecId::Pbm));
    assert_eq!(codec_for_extension("pgm"), Some(CodecId::Pgm));
    assert_eq!(codec_for_extension("ppm"), Some(CodecId::Ppm));
    assert_eq!(codec_for_extension("pnm"), Some(CodecId::Ppm));
    assert_eq!(codec_for_extension("BMP"), Some(CodecId::Bmp));
    assert_eq!(codec_for_extension("dib"), Some(CodecId::Bmp));
    assert_eq!(codec_for_extension("tga"), Some(CodecId::Targa));
    assert_eq!(codec_for_extension("Targa"), Some(CodecId::Targa));
    assert_eq!(codec_for_extension("PNG"), Some(CodecId::Png));
    assert_eq!(codec_for_extension("wav"), None);
}

#[test]
fn audio_codecs_are_not_images() {
    assert!(!is_image_codec(CodecId::PcmS16Le));
    assert!(is_image_codec(CodecId::Png));
    assert_eq!(pixel_format_for_codec(CodecId::PcmU8).unwrap_err().kind(), ErrorKind::InvalidArgument);
    let frame = VideoFrame::from_vec(1, 1, PixelFormat::Gray8, vec![1]).unwrap();
    assert_eq!(encode_image(CodecId::PcmF32Le, &frame).unwrap_err().kind(), ErrorKind::InvalidArgument);
    assert_eq!(prepare_frame(&frame, CodecId::PcmU8, None).unwrap_err().kind(), ErrorKind::InvalidArgument);
}

#[test]
fn unknown_bytes_are_not_an_image() {
    assert_eq!(probe_image(&[1, 2, 3]), 0);
    assert_eq!(decode_image(&[1, 2, 3]).unwrap_err().kind(), ErrorKind::InvalidData);
    // A JPEG stream wins the probe but has no codec in the registry.
    let jpeg = [0xff, 0xd8, 0xff, 0xd9];
    assert_eq!(probe_image(&jpeg), 100);
    assert!(decode_image(&jpeg).is_err());
}

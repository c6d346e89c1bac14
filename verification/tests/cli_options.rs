use rustmpeg::cli::{wants_help, wants_version, Program};
use rustmpeg::codec::CodecId;
use rustmpeg::error::ErrorKind;
use rustmpeg::ffmpeg::{
    add_output_size, classify_input, detect_output, frame_output_path, image_target, parse_options, parse_rate,
    parse_size, pcm_wave_audio, require_numbered_output, CodecSelection, ForcedFormat, ImageTarget, MediaPath,
};
use rustmpeg::ffprobe::{self, clock_parts, sample_format_name};
use rustmpeg::image2::{frame_number, validate_start_range, ImagePattern};
use rustmpeg::rational::Rational;
use rustmpeg::text::{parse_i64, parse_u32, parse_usize};

fn args(list: &[&str]) -> Vec<String> {
    list.iter().map(|s| s.to_string()).collect()
}

#[test]
fn parses_minimal_stream_copy_command() {
    let options = parse_options(&args(&["ffmpeg", "-i", "in.wav", "-c", "copy", "out.wav"])).unwrap();
    assert_eq!(options.input.as_deref(), Some("in.wav"));
    assert_eq!(options.output.as_deref(), Some("out.wav"));
    assert_eq!(options.codec, Some(CodecSelection::Copy));
}

#[test]
fn scopes_image2_start_numbers_around_input() {
    let options = parse_options(&args(&[
        "ffmpeg",
        "-start_number",
        "3",
        "-i",
        "in-%03d.ppm",
        "-start_number",
        "10",
        "out-%03d.pgm",
    ]))
    .unwrap();
    assert_eq!(options.input_start_number, 3);
    assert_eq!(options.output_start_number, 10);
}

#[test]
fn parses_image_codec_resize_and_frame_limit() {
    let options = parse_options(&args(&[
        "ffmpeg", "-i", "in.ppm", "-c:v", "pgm", "-s:v", "320x200", "-frames:v", "1", "out.pgm",
    ]))
    .unwrap();
    assert_eq!(options.codec, Some(CodecSelection::Encode(CodecId::Pgm)));
    assert_eq!(options.size, Some((320, 200)));
    assert_eq!(options.frame_limit, Some(1));
}

#[test]
fn parses_fractional_and_decimal_frame_rates() {
    assert_eq!(parse_rate("30000/1001").unwrap(), Rational::new(30000, 1001).unwrap());
    assert_eq!(parse_rate("29.97").unwrap(), Rational::new(2997, 100).unwrap());
}

#[test]
fn rejects_conflicting_overwrite_modes() {
    assert!(parse_options(&args(&["ffmpeg", "-y", "-n", "out.wav"])).is_err());
}

#[test]
fn image2_options_parse() {
    let options = ffprobe::parse_options(&args(&[
        "ffprobe",
        "-f",
        "image2",
        "-start_number",
        "3",
        "-framerate",
        "30",
        "frame-%03d.ppm",
    ]))
    .unwrap();
    assert_eq!(options.input_format, Some(ForcedFormat::Image2));
    assert_eq!(options.start_number, 3);
    assert_eq!(options.framerate, Rational::new(30, 1).unwrap());
}

#[test]
fn option_errors_have_their_kinds() {
    let kind = |list: &[&str]| parse_options(&args(list)).err().unwrap().kind();
    assert_eq!(kind(&["ffmpeg", "-i"]), ErrorKind::InvalidArgument);
    assert_eq!(kind(&["ffmpeg", "-i", "a", "-i", "b"]), ErrorKind::Unsupported);
    assert_eq!(kind(&["ffmpeg", "-f", "mp4"]), ErrorKind::Unsupported);
    assert_eq!(kind(&["ffmpeg", "-i", "a", "-framerate", "25"]), ErrorKind::InvalidArgument);
    assert_eq!(kind(&["ffmpeg", "-start_number_range", "0"]), ErrorKind::InvalidArgument);
    assert_eq!(kind(&["ffmpeg", "-frames:v", "0"]), ErrorKind::InvalidArgument);
    assert_eq!(kind(&["ffmpeg", "-c", "h264"]), ErrorKind::Unsupported);
    assert_eq!(kind(&["ffmpeg", "-bogus"]), ErrorKind::Unsupported);
    assert_eq!(kind(&["ffmpeg", "a", "b"]), ErrorKind::Unsupported);
    assert_eq!(kind(&["ffmpeg", "-v"]), ErrorKind::InvalidArgument);
}

#[test]
fn formats_and_defaults_follow_the_input_position() {
    let options = parse_options(&args(&["ffmpeg", "-f", "WAV", "-i", "x", "-f", "image2", "-hide_banner", "-y", "o"])).unwrap();
    assert_eq!(options.input_format, Some(ForcedFormat::Wav));
    assert_eq!(options.output_format, Some(ForcedFormat::Image2));
    assert!(options.hide_banner && options.overwrite && !options.never_overwrite);
    assert_eq!(options.start_number_range, 5);
    assert_eq!(options.input_framerate, Rational::new(25, 1).unwrap());
    assert_eq!(options.output_start_number, 1);
}

#[test]
fn rates_sizes_and_integers_parse_like_std() {
    assert_eq!(parse_rate("25").unwrap(), Rational::new(25, 1).unwrap());
    assert_eq!(parse_rate("-0.5").unwrap(), Rational::new(1, 2).unwrap());
    assert_eq!(parse_rate("0").unwrap_err().kind(), ErrorKind::InvalidArgument);
    assert_eq!(parse_rate("1.").unwrap_err().kind(), ErrorKind::InvalidArgument);
    assert_eq!(parse_rate("1.0000000000000000000").unwrap_err().kind(), ErrorKind::Overflow);
    assert_eq!(parse_size("640X480").unwrap(), (640, 480));
    assert_eq!(parse_size("0x480").unwrap_err().kind(), ErrorKind::InvalidArgument);
    assert_eq!(parse_size("640").unwrap_err().kind(), ErrorKind::InvalidArgument);
    assert_eq!(parse_i64("-9223372036854775808"), Some(i64::MIN));
    assert_eq!(parse_i64("9223372036854775808"), None);
    assert_eq!(parse_i64("+17"), Some(17));
    assert_eq!(parse_i64("-"), None);
    assert_eq!(parse_u32("-0"), None);
    assert_eq!(parse_u32("4294967295"), Some(u32::MAX));
    assert_eq!(parse_u32("4294967296"), None);
    assert_eq!(parse_usize("12a"), None);
    assert_eq!(ffprobe::parse_rate("29.97").unwrap_err().kind(), ErrorKind::InvalidArgument);
}

#[test]
fn program_names_and_help_requests() {
    assert_eq!(Program::Ffmpeg.name(), "ffmpeg");
    assert_eq!(Program::Ffprobe.name(), "ffprobe");
    assert_eq!(Program::Ffplay.name(), "ffplay");
    assert!(wants_help(&args(&["ffmpeg"])));
    assert!(wants_help(&args(&["ffmpeg", "-i", "x", "--help"])));
    assert!(!wants_help(&args(&["ffmpeg", "-i", "x"])));
    assert!(wants_version(&args(&["ffplay", "-version"])));
    assert!(!wants_version(&args(&["-version"])));
}

#[test]
fn output_paths_and_targets() {
    let mut options = parse_options(&args(&["ffmpeg", "-i", "in.ppm", "out"])).unwrap();
    assert_eq!(detect_output(&options, "out.WAV", Some("WAV")).unwrap(), MediaPath::Wave);
    assert_eq!(detect_output(&options, "out.pgm", Some("pgm")).unwrap(), MediaPath::Image2);
    assert_eq!(detect_output(&options, "f-%02d", None).unwrap(), MediaPath::Image2);
    assert_eq!(detect_output(&options, "out", None).unwrap_err().kind(), ErrorKind::Unsupported);
    options.codec = Some(CodecSelection::Encode(CodecId::Ppm));
    assert_eq!(detect_output(&options, "out", None).unwrap(), MediaPath::Image2);

    let pattern = ImagePattern::parse("f-%02d.ppm").unwrap();
    let inputs = vec!["f-07.ppm".to_string()];
    assert_eq!(frame_output_path(&pattern, 5, 1, &vec![]).unwrap(), "f-06.ppm");
    assert_eq!(frame_output_path(&pattern, 5, 2, &inputs).unwrap_err().kind(), ErrorKind::InvalidArgument);
    assert_eq!(frame_output_path(&pattern, i64::MAX, 1, &vec![]).unwrap_err().kind(), ErrorKind::Overflow);
    let single = ImagePattern::parse("one.ppm").unwrap();
    assert_eq!(require_numbered_output(2, &single).unwrap_err().kind(), ErrorKind::InvalidArgument);
    assert!(require_numbered_output(2, &pattern).is_ok());

    assert_eq!(image_target(None, None, CodecId::Ppm, Some(CodecId::Png)).unwrap(), ImageTarget::Encode(CodecId::Png));
    assert_eq!(image_target(None, None, CodecId::Ppm, None).unwrap(), ImageTarget::Encode(CodecId::Ppm));
    assert_eq!(
        image_target(Some(CodecSelection::Copy), Some((2, 2)), CodecId::Ppm, None).unwrap_err().kind(),
        ErrorKind::InvalidArgument
    );
    assert_eq!(
        image_target(Some(CodecSelection::Copy), None, CodecId::Ppm, Some(CodecId::Bmp)).unwrap_err().kind(),
        ErrorKind::InvalidArgument
    );
    assert_eq!(
        image_target(Some(CodecSelection::Encode(CodecId::PcmU8)), None, CodecId::Ppm, None).unwrap_err().kind(),
        ErrorKind::InvalidArgument
    );
    assert_eq!(add_output_size(u64::MAX, 1).unwrap_err().kind(), ErrorKind::Overflow);
    assert_eq!(add_output_size(5, 7).unwrap(), 12);
}

#[test]
fn wave_output_description_is_computed() {
    let audio = pcm_wave_audio(CodecId::PcmS24Le, 2, 48_000, None).unwrap();
    assert_eq!(audio.block_align, 6);
    assert_eq!(audio.byte_rate, 288_000);
    assert_eq!(audio.bits_per_sample, 24);
    assert_eq!(pcm_wave_audio(CodecId::Ppm, 2, 48_000, None).unwrap_err().kind(), ErrorKind::InvalidArgument);
    assert_eq!(pcm_wave_audio(CodecId::PcmF64Le, 9000, 8000, None).unwrap_err().kind(), ErrorKind::Overflow);
    assert_eq!(pcm_wave_audio(CodecId::PcmF64Le, 8000, 100_000, None).unwrap_err().kind(), ErrorKind::Overflow);
    assert_eq!(classify_input(b"P5 1 1 255\n\x00").unwrap(), MediaPath::Image2);
    assert_eq!(classify_input(b"nothing").unwrap_err().kind(), ErrorKind::Unsupported);
}

#[test]
fn probe_helpers() {
    assert_eq!(clock_parts(6512), (0, 1, 5, 12));
    assert_eq!(clock_parts(360_000 * 2 + 6_000 * 3 + 100 * 4 + 5), (2, 3, 4, 5));
    assert_eq!(sample_format_name(CodecId::PcmS24Le), "s32");
    assert_eq!(sample_format_name(CodecId::Png), "unknown");
    assert_eq!(ffprobe::add_file_size(u64::MAX, 1).unwrap_err().kind(), ErrorKind::Overflow);
    assert_eq!(frame_number(5, 3).unwrap(), 8);
    assert_eq!(frame_number(i64::MAX, 1).unwrap_err().kind(), ErrorKind::Overflow);
    assert!(validate_start_range(0).is_err());
    assert!(validate_start_range(5).is_ok());
    let probe = ffprobe::parse_options(&args(&["ffprobe", "-of", "json", "x"]));
    assert_eq!(probe.err().unwrap().kind(), ErrorKind::Unsupported);
    let probe = ffprobe::parse_options(&args(&["ffprobe", "x", "y"]));
    assert_eq!(probe.err().unwrap().kind(), ErrorKind::InvalidArgument);
}

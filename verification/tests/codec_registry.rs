use rustmpeg::codec::{
    descriptor, find_by_name, pcm_bits_per_sample, pcm_bytes_per_sample, pcm_from_wave_tag,
    pcm_layout, pcm_wave_format_tag, CodecId, MediaType,
};
use rustmpeg::error::ErrorKind;

const PCM_CODECS: [CodecId; 6] = [
    CodecId::PcmU8,
    CodecId::PcmS16Le,
    CodecId::PcmS24Le,
    CodecId::PcmS32Le,
    CodecId::PcmF32Le,
    CodecId::PcmF64Le,
];

#[test]
fn malformed_interleaved_frames_are_rejected_for_every_codec() {
    for codec in PCM_CODECS {
        let width = pcm_bytes_per_sample(codec).unwrap();
        let malformed = vec![0_u8; width * 2 - 1];
        assert!(
            pcm_layout(codec, CodecId::PcmS16Le, 2, malformed.len()).is_err(),
            "misaligned {codec:?} input was accepted"
        );
    }
}

#[test]
fn zero_channels_are_rejected() {
    assert!(pcm_layout(CodecId::PcmS16Le, CodecId::PcmF32Le, 0, [0u8, 0].len()).is_err());
}

#[test]
fn pcm_layout_gives_sample_widths_and_names_each_refusal() {
    assert_eq!(pcm_layout(CodecId::PcmS16Le, CodecId::PcmF32Le, 2, 8).unwrap(), (2, 4));
    assert_eq!(pcm_layout(CodecId::PcmS24Le, CodecId::PcmU8, 2, 7).unwrap_err().kind(), ErrorKind::InvalidData);
    assert_eq!(pcm_layout(CodecId::PcmS16Le, CodecId::PcmF32Le, 0, 8).unwrap_err().kind(), ErrorKind::InvalidArgument);
    assert_eq!(pcm_layout(CodecId::Png, CodecId::PcmF32Le, 1, 8).unwrap_err().kind(), ErrorKind::InvalidArgument);
}

#[test]
fn wave_pcm_mapping_matches_sample_widths() {
    assert_eq!(pcm_from_wave_tag(1, 16), Some(CodecId::PcmS16Le));
    assert_eq!(pcm_from_wave_tag(3, 32), Some(CodecId::PcmF32Le));
    assert_eq!(pcm_from_wave_tag(1, 20), None);
}

#[test]
fn registry_contains_audio_and_video_codecs() {
    for codec in [CodecId::Ppm, CodecId::Bmp, CodecId::Targa, CodecId::Png] {
        assert_eq!(descriptor(codec).media_type, MediaType::Video);
    }
    assert_eq!(descriptor(CodecId::PcmS16Le).media_type, MediaType::Audio);
    assert_eq!(find_by_name("ppm"), Some(CodecId::Ppm));
    assert_eq!(find_by_name("bmp"), Some(CodecId::Bmp));
    assert_eq!(find_by_name("targa"), Some(CodecId::Targa));
    assert_eq!(find_by_name("png"), Some(CodecId::Png));
}

#[test]
fn pcm_metadata_rejects_image_codecs() {
    for codec in [
        CodecId::Pgm,
        CodecId::Ppm,
        CodecId::Bmp,
        CodecId::Targa,
        CodecId::Png,
    ] {
        assert_eq!(pcm_bits_per_sample(codec), None);
        assert_eq!(pcm_bytes_per_sample(codec), None);
        assert_eq!(pcm_wave_format_tag(codec), None);
    }
}


use vstd::prelude::*;

use crate::bmp::{align4, bmp_check, bmp_decodes_to, bmp_encoded, decode_bmp, encode_bmp, probe_bmp, spec_probe_bmp};
use crate::codec::{eq_ignore_ascii_case, is_pcm_spec, spec_media_type, str_eq_ignore_ascii_case, CodecId, MediaType};
use crate::error::{ErrorKind, MediaError, Result};
use crate::jpeg::{parse_jpeg, probe_jpeg, spec_parse_jpeg, spec_probe_jpeg};
use crate::png::{decode_png, encode_png, png_decodes_to, png_encoded, png_signature, probe_png, spec_decode_png};
use crate::pnm::{
    decode_pnm, encode_pnm, format_of_kind, kind_of_magic, pbm_header, pbm_row_bytes, pnm_header, probe_pnm,
    spec_decode_pnm, spec_probe_pnm, PnmKind,
};
use crate::scale::{convert_pixel_format, converted, format_convertible, scale_nearest, scaled};
use crate::tga::{decode_tga, encode_tga, probe_tga, spec_probe_tga, tga_decode_ok, tga_decodes_to, tga_encoded};
use crate::video::{spec_bpp, PixelFormat, VideoFrame};

verus! {

/// A decoded still image and the codec it was read with.
#[derive(Debug, Clone, PartialEq, Eq)]
pub struct DecodedImage {
    pub codec: CodecId,
    pub frame: VideoFrame,
}

/// The decoders the image prober chooses between.
#[derive(Debug, Clone, Copy, PartialEq, Eq, Structural)]
pub enum ImageDecoder {
    Jpeg,
    Png,
    Bmp,
    Pnm,
    Targa,
}

pub open spec fn pnm_score(s: Seq<u8>) -> u8 {
    if spec_probe_pnm(s) { 100 } else { 0 }
}

pub open spec fn bmp_score(s: Seq<u8>) -> u8 {
    if spec_probe_bmp(s) { 100 } else { 0 }
}

pub open spec fn tga_score(s: Seq<u8>) -> u8 {
    if spec_probe_tga(s) { 75 } else { 0 }
}

pub open spec fn png_score(s: Seq<u8>) -> u8 {
    if 8 <= s.len() && s.subrange(0, 8) == png_signature() { 100 } else { 0 }
}

pub open spec fn jpeg_score(s: Seq<u8>) -> u8 {
    if spec_probe_jpeg(s) { 100 } else { 0 }
}

pub open spec fn max_u8(a: u8, b: u8) -> u8 {
    if a >= b { a } else { b }
}

/// The best score any image prober gives `s`.
pub open spec fn spec_probe_image(s: Seq<u8>) -> u8 {
    max_u8(max_u8(max_u8(max_u8(pnm_score(s), bmp_score(s)), tga_score(s)), png_score(s)), jpeg_score(s))
}

/// The decoder `decode_image` hands `s` to: the best-scoring prober, ties
/// going to JPEG, then PNG, BMP, Netpbm and Targa; none if nothing scores.
pub open spec fn spec_image_decoder(s: Seq<u8>) -> Option<ImageDecoder> {
    let best = spec_probe_image(s);
    if best == 0 {
        None
    } else if jpeg_score(s) == best {
        Some(ImageDecoder::Jpeg)
    } else if png_score(s) == best {
        Some(ImageDecoder::Png)
    } else if bmp_score(s) == best {
        Some(ImageDecoder::Bmp)
    } else if pnm_score(s) == best {
        Some(ImageDecoder::Pnm)
    } else {
        Some(ImageDecoder::Targa)
    }
}

fn max_score(a: u8, b: u8) -> (m: u8)
    ensures
        m == max_u8(a, b),
{
    if a >= b {
        a
    } else {
        b
    }
}

/// The best score of the still-image probers.
pub fn probe_image(bytes: &[u8]) -> (score: u8)
    ensures
        score == spec_probe_image(bytes@),
{
    max_score(
        max_score(max_score(max_score(probe_pnm(bytes), probe_bmp(bytes)), probe_tga(bytes)), probe_png(bytes)),
        probe_jpeg(bytes),
    )
}

/// The codec a Netpbm family is registered as.
pub open spec fn spec_codec_for_kind(kind: PnmKind) -> CodecId {
    match kind {
        PnmKind::Pbm => CodecId::Pbm,
        PnmKind::Pgm => CodecId::Pgm,
        PnmKind::Ppm => CodecId::Ppm,
    }
}

pub fn codec_for_kind(kind: PnmKind) -> (c: CodecId)
    ensures
        c == spec_codec_for_kind(kind),
{
    match kind {
        PnmKind::Pbm => CodecId::Pbm,
        PnmKind::Pgm => CodecId::Pgm,
        PnmKind::Ppm => CodecId::Ppm,
    }
}

pub open spec fn spec_pnm_kind_for_codec(codec: CodecId) -> Option<PnmKind> {
    match codec {
        CodecId::Pbm => Some(PnmKind::Pbm),
        CodecId::Pgm => Some(PnmKind::Pgm),
        CodecId::Ppm => Some(PnmKind::Ppm),
        _ => None,
    }
}

pub fn pnm_kind_for_codec(codec: CodecId) -> (k: Option<PnmKind>)
    ensures
        k == spec_pnm_kind_for_codec(codec),
{
    match codec {
        CodecId::Pbm => Some(PnmKind::Pbm),
        CodecId::Pgm => Some(PnmKind::Pgm),
        CodecId::Ppm => Some(PnmKind::Ppm),
        _ => None,
    }
}

/// The packed pixel format an image codec writes; audio codecs have none.
pub open spec fn spec_pixel_format_for_codec(codec: CodecId) -> Option<PixelFormat> {
    match codec {
        CodecId::Pbm | CodecId::Pgm => Some(PixelFormat::Gray8),
        CodecId::Ppm | CodecId::Bmp | CodecId::Targa | CodecId::Png => Some(PixelFormat::Rgb24),
        _ => None,
    }
}

pub fn pixel_format_for_codec(codec: CodecId) -> (r: Result<PixelFormat>)
    ensures
        match r {
            Ok(f) => spec_pixel_format_for_codec(codec) == Some(f),
            Err(e) => spec_pixel_format_for_codec(codec) is None && e@ == ErrorKind::InvalidArgument,
        },
{
    match codec {
        CodecId::Pbm | CodecId::Pgm => Ok(PixelFormat::Gray8),
        CodecId::Ppm | CodecId::Bmp | CodecId::Targa | CodecId::Png => Ok(PixelFormat::Rgb24),
        _ => Err(MediaError::invalid_argument("audio codec has no packed image pixel format")),
    }
}

/// Still-image codecs: the video codecs of the registry.
pub fn is_image_codec(codec: CodecId) -> (b: bool)
    ensures
        b == (spec_media_type(codec) == MediaType::Video && !is_pcm_spec(codec)),
{
    let d = crate::codec::descriptor(codec);
    let video = match d.media_type {
        MediaType::Video => true,
        _ => false,
    };
    video && match codec {
        CodecId::Pbm | CodecId::Pgm | CodecId::Ppm | CodecId::Bmp | CodecId::Targa | CodecId::Png => true,
        _ => false,
    }
}

/// The image codec a file extension names, compared without regard to
/// ASCII case.
pub open spec fn spec_codec_for_extension(ext: Seq<char>) -> Option<CodecId> {
    if eq_ignore_ascii_case(ext, "pbm"@) {
        Some(CodecId::Pbm)
    } else if eq_ignore_ascii_case(ext, "pgm"@) {
        Some(CodecId::Pgm)
    } else if eq_ignore_ascii_case(ext, "ppm"@) || eq_ignore_ascii_case(ext, "pnm"@) {
        Some(CodecId::Ppm)
    } else if eq_ignore_ascii_case(ext, "bmp"@) || eq_ignore_ascii_case(ext, "dib"@) {
        Some(CodecId::Bmp)
    } else if eq_ignore_ascii_case(ext, "tga"@) || eq_ignore_ascii_case(ext, "targa"@) {
        Some(CodecId::Targa)
    } else if eq_ignore_ascii_case(ext, "png"@) {
        Some(CodecId::Png)
    } else {
        None
    }
}

pub fn codec_for_extension(ext: &str) -> (r: Option<CodecId>)
    ensures
        r == spec_codec_for_extension(ext@),
{
    if str_eq_ignore_ascii_case(ext, "pbm") {
        Some(CodecId::Pbm)
    } else if str_eq_ignore_ascii_case(ext, "pgm") {
        Some(CodecId::Pgm)
    } else if str_eq_ignore_ascii_case(ext, "ppm") || str_eq_ignore_ascii_case(ext, "pnm") {
        Some(CodecId::Ppm)
    } else if str_eq_ignore_ascii_case(ext, "bmp") || str_eq_ignore_ascii_case(ext, "dib") {
        Some(CodecId::Bmp)
    } else if str_eq_ignore_ascii_case(ext, "tga") || str_eq_ignore_ascii_case(ext, "targa") {
        Some(CodecId::Targa)
    } else if str_eq_ignore_ascii_case(ext, "png") {
        Some(CodecId::Png)
    } else {
        None
    }
}

/// Decodes a still image with the decoder its probe scores choose. The
/// registry has no JPEG codec: a stream the JPEG prober wins is checked by
/// the marker parser and then refused as `Unsupported`.
pub fn decode_image(bytes: &[u8]) -> (r: Result<DecodedImage>)
    ensures
        r matches Ok(d) ==> d.frame.wf(),
        spec_image_decoder(bytes@) is None ==> r is Err && r->Err_0@ == ErrorKind::InvalidData,
        spec_image_decoder(bytes@) == Some(ImageDecoder::Jpeg) ==> r is Err && r->Err_0@ == match spec_parse_jpeg(bytes@) {
            Ok(_) => ErrorKind::Unsupported,
            Err(k) => k,
        },
        spec_image_decoder(bytes@) == Some(ImageDecoder::Png) ==> {
            &&& spec_decode_png(bytes@) is Err ==> r is Err && r->Err_0@ == spec_decode_png(bytes@)->Err_0
            &&& spec_decode_png(bytes@) is Ok ==> (r matches Ok(d) && d.codec == CodecId::Png && png_decodes_to(bytes@, d.frame))
        },
        spec_image_decoder(bytes@) == Some(ImageDecoder::Bmp) ==> match r {
            Ok(d) => d.codec == CodecId::Bmp && bmp_check(bytes@) is None && bmp_decodes_to(bytes@, d.frame),
            Err(e) => bmp_check(bytes@) == Some(e@),
        },
        spec_image_decoder(bytes@) == Some(ImageDecoder::Pnm) ==> (r matches Ok(d) ==> {
            &&& d.codec == spec_codec_for_kind(kind_of_magic(bytes@[1]))
            &&& d.frame.wf()
            &&& d.frame.format == format_of_kind(kind_of_magic(bytes@[1]))
        }),
        spec_image_decoder(bytes@) == Some(ImageDecoder::Pnm) ==> match spec_decode_pnm(bytes@) {
            Ok((kind, w, h, px)) => r matches Ok(d) && d.codec == spec_codec_for_kind(kind) && d.frame.width == w
                && d.frame.height == h && d.frame.data@ == px,
            Err(k) => r matches Err(e) && e@ == k,
        },
        spec_image_decoder(bytes@) == Some(ImageDecoder::Targa) ==> (r matches Ok(d) ==> d.codec == CodecId::Targa
            && tga_decodes_to(bytes@, d.frame)),
        spec_image_decoder(bytes@) == Some(ImageDecoder::Targa) ==> (r is Ok <==> tga_decode_ok(bytes@)),
{
    let pnm = probe_pnm(bytes);
    let bmp = probe_bmp(bytes);
    let tga = probe_tga(bytes);
    let png = probe_png(bytes);
    let jpeg = probe_jpeg(bytes);
    let best = max_score(max_score(max_score(max_score(pnm, bmp), tga), png), jpeg);
    if best == 0 {
        return Err(MediaError::invalid_data("input is not a supported image (PBM/PGM/PPM/BMP/TGA/PNG/JPEG)"));
    }
    if jpeg == best {
        let _ = parse_jpeg(bytes)?;
        return Err(MediaError::unsupported("JPEG pixel decoding is not part of this codec registry"));
    }
    if png == best {
        let frame = match decode_png(bytes) {
            Ok(f) => f,
            Err(e) => return Err(e),
        };
        return Ok(DecodedImage { codec: CodecId::Png, frame });
    }
    if bmp == best {
        let frame = decode_bmp(bytes)?;
        return Ok(DecodedImage { codec: CodecId::Bmp, frame });
    }
    if pnm == best {
        let image = match decode_pnm(bytes) {
            Ok(i) => i,
            Err(e) => return Err(e),
        };
        let codec = codec_for_kind(image.kind);
        return Ok(DecodedImage { codec, frame: image.frame });
    }
    let frame = match decode_tga(bytes) {
        Ok(f) => f,
        Err(e) => return Err(e),
    };
    Ok(DecodedImage { codec: CodecId::Targa, frame })
}

/// The Netpbm bytes of `frame` in family `kind`.
pub open spec fn pnm_encoded(kind: PnmKind, frame: VideoFrame, out: Seq<u8>) -> bool {
    &&& kind != PnmKind::Pbm ==> out == pnm_header(kind, frame.width, frame.height) + frame.data@
    &&& kind == PnmKind::Pbm ==> out.subrange(0, pbm_header(frame.width, frame.height).len() as int) == pbm_header(
        frame.width,
        frame.height,
    ) && out.len() == pbm_header(frame.width, frame.height).len() + pbm_row_bytes(frame.width as nat) * frame.height
}

/// Whether `encode_image` succeeds on a frame of `format`, `width` by
/// `height`: the codec is an image codec, the frame converts to the format
/// it needs within memory, and the file's size fields hold the image.
pub open spec fn encode_ok_for(codec: CodecId, format: PixelFormat, width: nat, height: nat) -> bool {
    let grey_to_rgb_overflows = format == PixelFormat::Gray8 && width * height * 3 > usize::MAX;
    match codec {
        CodecId::Pbm | CodecId::Pgm => format_convertible(format, PixelFormat::Gray8),
        CodecId::Ppm => format_convertible(format, PixelFormat::Rgb24) && !grey_to_rgb_overflows,
        CodecId::Bmp => {
            &&& format_convertible(format, PixelFormat::Rgb24)
            &&& !grey_to_rgb_overflows
            &&& width <= i32::MAX
            &&& height <= i32::MAX
            &&& 54 + align4(3 * width) * height <= u32::MAX
        },
        CodecId::Targa => (format == PixelFormat::Gray8 || format == PixelFormat::Rgb24) && width <= 65535 && height
            <= 65535,
        CodecId::Png => (width * spec_bpp(format) + 1) * height <= usize::MAX,
        _ => false,
    }
}

/// Encodes a frame with an image codec, converting it first where the codec
/// needs another pixel format (grey for PBM and PGM, RGB for PPM and BMP).
pub fn encode_image(codec: CodecId, frame: &VideoFrame) -> (r: Result<Vec<u8>>)
    requires
        frame.wf(),
    ensures
        is_pcm_spec(codec) ==> r is Err && r->Err_0@ == ErrorKind::InvalidArgument,
        encode_ok_for(codec, frame.format, frame.width as nat, frame.height as nat) ==> r is Ok,
        r matches Ok(out) ==> match codec {
            CodecId::Pbm | CodecId::Pgm | CodecId::Ppm => exists|conv: VideoFrame|
                converted(*frame, format_of_kind(spec_pnm_kind_for_codec(codec)->0), conv)
                    && #[trigger] pnm_encoded(spec_pnm_kind_for_codec(codec)->0, conv, out@),
            CodecId::Bmp => exists|conv: VideoFrame| converted(*frame, PixelFormat::Rgb24, conv) && #[trigger] bmp_encoded(conv, out@),
            CodecId::Targa => tga_encoded(*frame, false, out@),
            CodecId::Png => png_encoded(*frame, out@),
            _ => false,
        },
{
    match codec {
        CodecId::Pbm | CodecId::Pgm | CodecId::Ppm => {
            let kind = match pnm_kind_for_codec(codec) {
                Some(k) => k,
                None => return Err(MediaError::invalid_argument("PNM codec must map to PNM kind")),
            };
            let target = match pixel_format_for_codec(codec) {
                Ok(t) => t,
                Err(e) => return Err(e),
            };
            let converted_frame = match convert_pixel_format(frame, target) {
                Ok(c) => c,
                Err(e) => return Err(e),
            };
            assert(format_of_kind(kind) == target);
            let out = match encode_pnm(kind, &converted_frame) {
                Ok(o) => o,
                Err(e) => return Err(e),
            };
            assert(pnm_encoded(kind, converted_frame, out@));
            Ok(out)
        },
        CodecId::Bmp => {
            proof {
                if frame.format == PixelFormat::Gray8 {
                    assert(frame.data@.len() == frame.width * frame.height) by (nonlinear_arith)
                        requires frame.data@.len() == frame.width * 1 * frame.height;
                }
            }
            let converted_frame = match convert_pixel_format(frame, PixelFormat::Rgb24) {
                Ok(c) => c,
                Err(e) => return Err(e),
            };
            let out = match encode_bmp(&converted_frame) {
                Ok(o) => o,
                Err(e) => return Err(e),
            };
            assert(bmp_encoded(converted_frame, out@));
            Ok(out)
        },
        CodecId::Targa => encode_tga(frame),
        CodecId::Png => encode_png(frame),
        _ => Err(MediaError::invalid_argument("selected codec is not an image codec")),
    }
}

/// The pixel format `prepare_frame` converts to: Targa and PNG keep the
/// frame's own, the others take the codec's.
pub open spec fn spec_prepare_target(codec: CodecId, format: PixelFormat) -> Option<PixelFormat> {
    match codec {
        CodecId::Targa | CodecId::Png => Some(format),
        _ => spec_pixel_format_for_codec(codec),
    }
}

/// Whether `prepare_frame` succeeds: the codec has a pixel format the frame
/// converts to within memory, and a requested size is non-zero and fits.
pub open spec fn prepare_ok(frame: VideoFrame, codec: CodecId, size: Option<(u32, u32)>) -> bool {
    match spec_prepare_target(codec, frame.format) {
        None => false,
        Some(t) => {
            &&& format_convertible(frame.format, t)
            &&& !(frame.format == PixelFormat::Gray8 && t == PixelFormat::Rgb24 && frame.data@.len() * 3 > usize::MAX)
            &&& match size {
                None => true,
                Some((w, h)) => w > 0 && h > 0 && ((w == frame.width && h == frame.height) || w * h * spec_bpp(t)
                    <= usize::MAX),
            }
        },
    }
}

/// The size of the frame `prepare_frame` gives.
pub open spec fn prepared_size(frame: VideoFrame, size: Option<(u32, u32)>) -> (nat, nat) {
    match size {
        None => (frame.width as nat, frame.height as nat),
        Some((w, h)) => (w as nat, h as nat),
    }
}

/// Converts a frame to what an image codec needs and, when a size is
/// given, scales it by nearest neighbour.
pub fn prepare_frame(frame: &VideoFrame, codec: CodecId, size: Option<(u32, u32)>) -> (r: Result<VideoFrame>)
    requires
        frame.wf(),
    ensures
        spec_prepare_target(codec, frame.format) is None ==> r is Err && r->Err_0@ == ErrorKind::InvalidArgument,
        r is Ok <==> prepare_ok(*frame, codec, size),
        r matches Ok(out) ==> out.format == spec_prepare_target(codec, frame.format)->0 && (out.width as nat, out.height as nat)
            == prepared_size(*frame, size),
        r matches Ok(out) ==> spec_prepare_target(codec, frame.format) is Some && match size {
            None => converted(*frame, spec_prepare_target(codec, frame.format)->0, out),
            Some((w, h)) => exists|mid: VideoFrame| converted(*frame, spec_prepare_target(codec, frame.format)->0, mid)
                && #[trigger] scaled(mid, w, h, out),
        },
{
    let target = match codec {
        CodecId::Targa | CodecId::Png => frame.format,
        _ => match pixel_format_for_codec(codec) {
            Ok(t) => t,
            Err(e) => return Err(e),
        },
    };
    let conv = match convert_pixel_format(frame, target) {
        Ok(c) => c,
        Err(e) => return Err(e),
    };
    proof {
        if frame.format == PixelFormat::Gray8 && target == PixelFormat::Rgb24 {
            assert(frame.data@.len() * 3 == conv.data@.len()) by (nonlinear_arith)
                requires
                    frame.data@.len() == frame.width * 1 * frame.height,
                    conv.data@.len() == conv.width * 3 * conv.height,
                    conv.width == frame.width,
                    conv.height == frame.height,
            ;
        }
    }
    match size {
        Some((width, height)) => {
            let out = match scale_nearest(&conv, width, height) {
                Ok(o) => o,
                Err(e) => return Err(e),
            };
            assert(scaled(conv, width, height, out));
            assert(out.width * spec_bpp(out.format) * out.height == out.width * out.height * spec_bpp(out.format))
                by (nonlinear_arith);
            Ok(out)
        },
        None => Ok(conv),
    }
}

} // verus!

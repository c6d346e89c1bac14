use vstd::prelude::*;

use crate::bytes_util::{be32_at, fourcc_at, push_slice, read_be32, starts_with};
use crate::checksum::spec_crc32;
use crate::error::{ErrorKind, MediaError, Result};
use crate::png::{chunk_crc, is_lower, is_upper, opt_view, png_signature, signature, tag, unfilter_rows, zlib_yields, MAX_PIXELS};
use crate::png_ffmpeg_encode::{adam7_pass, extent, extent_spec, lemma_extent_bound, pass_at};
use crate::video::{spec_bpp, PixelFormat, VideoFrame};
use crate::zlib;

verus! {

/// The header fields the interlaced decoder works from.
#[derive(Debug, Clone, Copy, PartialEq, Eq, Structural)]
pub struct Adam7Header {
    pub width: u32,
    pub height: u32,
    pub bit_depth: u8,
    pub color_type: u8,
}

/// The bit depths PNG allows for each colour type.
pub open spec fn depth_allowed(color_type: u8, bit_depth: u8) -> bool {
    if color_type == 0 {
        bit_depth == 1 || bit_depth == 2 || bit_depth == 4 || bit_depth == 8 || bit_depth == 16
    } else if color_type == 3 {
        bit_depth == 1 || bit_depth == 2 || bit_depth == 4 || bit_depth == 8
    } else if color_type == 2 || color_type == 4 || color_type == 6 {
        bit_depth == 8 || bit_depth == 16
    } else {
        false
    }
}

/// A header the pass decoder can work with.
pub open spec fn header_ok(h: Adam7Header) -> bool {
    &&& h.width > 0
    &&& h.height > 0
    &&& h.width * h.height <= MAX_PIXELS
    &&& depth_allowed(h.color_type, h.bit_depth)
}

/// What the decoder for interlace method `il` makes of an IHDR payload:
/// non-zero dimensions within `MAX_PIXELS`, a depth that the colour type
/// allows, methods 0 and interlace method `il`.
pub open spec fn spec_parse_header(d: Seq<u8>, il: u8) -> core::result::Result<Adam7Header, ErrorKind> {
    if d.len() != 13 {
        Err(ErrorKind::InvalidData)
    } else {
        let w = be32_at(d, 0);
        let h = be32_at(d, 4);
        if w == 0 || h == 0 {
            Err(ErrorKind::InvalidData)
        } else if w * h > MAX_PIXELS {
            Err(ErrorKind::Unsupported)
        } else if !depth_allowed(d[9], d[8]) {
            Err(ErrorKind::Unsupported)
        } else if d[10] != 0 || d[11] != 0 || d[12] != il {
            Err(ErrorKind::Unsupported)
        } else {
            Ok(Adam7Header { width: w as u32, height: h as u32, bit_depth: d[8], color_type: d[9] })
        }
    }
}

fn depth_valid(color_type: u8, bit_depth: u8) -> (r: bool)
    ensures
        r == depth_allowed(color_type, bit_depth),
{
    if color_type == 0 {
        bit_depth == 1 || bit_depth == 2 || bit_depth == 4 || bit_depth == 8 || bit_depth == 16
    } else if color_type == 3 {
        bit_depth == 1 || bit_depth == 2 || bit_depth == 4 || bit_depth == 8
    } else if color_type == 2 || color_type == 4 || color_type == 6 {
        bit_depth == 8 || bit_depth == 16
    } else {
        false
    }
}

pub fn parse_header(data: &[u8], il: u8) -> (r: Result<Adam7Header>)
    ensures
        match r {
            Ok(h) => spec_parse_header(data@, il) == Ok::<Adam7Header, ErrorKind>(h) && header_ok(h),
            Err(e) => spec_parse_header(data@, il) == Err::<Adam7Header, ErrorKind>(e@),
        },
{
    if data.len() != 13 {
        return Err(MediaError::invalid_data("PNG IHDR length must be 13 bytes"));
    }
    let width = read_be32(data, 0);
    let height = read_be32(data, 4);
    if width == 0 || height == 0 {
        return Err(MediaError::invalid_data("PNG dimensions must be non-zero"));
    }
    assert((width as u64) * (height as u64) <= 0xFFFF_FFFFu64 * 0xFFFF_FFFFu64) by (nonlinear_arith);
    let pixels = (width as u64) * (height as u64);
    if pixels > MAX_PIXELS {
        return Err(MediaError::unsupported("PNG image exceeds the pixel limit"));
    }
    let bit_depth = data[8];
    let color_type = data[9];
    if !depth_valid(color_type, bit_depth) {
        return Err(MediaError::unsupported("PNG bit depth is invalid for its color type"));
    }
    if data[10] != 0 {
        return Err(MediaError::unsupported("unsupported PNG compression method"));
    }
    if data[11] != 0 {
        return Err(MediaError::unsupported("unsupported PNG filter method"));
    }
    if data[12] != il {
        if il == 1 {
            return Err(MediaError::unsupported("Adam7 decoder received a non-interlaced PNG"));
        }
        return Err(MediaError::unsupported("non-interlaced decoder received an Adam7 PNG"));
    }
    Ok(Adam7Header { width, height, bit_depth, color_type })
}

/// Four ASCII letters.
pub open spec fn chunk_letters(t: Seq<u8>) -> bool {
    forall|i: int| 0 <= i < 4 ==> is_upper(#[trigger] t[i]) || is_lower(t[i])
}

/// What the chunk walk has collected so far.
pub struct Adam7Chunks {
    pub header: Option<Adam7Header>,
    pub idat: Seq<u8>,
    pub saw_idat: bool,
    pub idat_ended: bool,
    pub saw_iend: bool,
    pub palette: Option<Seq<u8>>,
    pub trns: Option<Seq<u8>>,
}

pub open spec fn adam7_start() -> Adam7Chunks {
    Adam7Chunks {
        header: None,
        idat: Seq::empty(),
        saw_idat: false,
        idat_ended: false,
        saw_iend: false,
        palette: None,
        trns: None,
    }
}

/// How many palette entries an indexed image of depth `d` can address.
pub open spec fn palette_limit(d: u8) -> nat {
    if d == 1 {
        2
    } else if d == 2 {
        4
    } else if d == 4 {
        16
    } else {
        256
    }
}

/// The chunk at `pos` and what it does to the collected state, or the first
/// rule it breaks. Gives the position after it.
pub open spec fn adam7_step(s: Seq<u8>, pos: nat, st: Adam7Chunks, il: u8) -> core::result::Result<(nat, Adam7Chunks), ErrorKind> {
    if pos + 8 > s.len() {
        Err(ErrorKind::EndOfFile)
    } else {
        let len = be32_at(s, pos as int);
        let t = s.subrange(pos + 4int, pos + 8int);
        let data_end = pos + 8 + len;
        if !chunk_letters(t) {
            Err(ErrorKind::InvalidData)
        } else if data_end + 4 > s.len() {
            Err(ErrorKind::EndOfFile)
        } else {
            let d = s.subrange(pos + 8int, data_end as int);
            let next = (data_end + 4) as nat;
            if spec_crc32(t + d) != be32_at(s, data_end as int) {
                Err(ErrorKind::InvalidData)
            } else if t == tag(73, 72, 68, 82) {
                if st.header is Some || st.saw_idat || pos != 8 {
                    Err(ErrorKind::InvalidData)
                } else {
                    match spec_parse_header(d, il) {
                        Err(k) => Err(k),
                        Ok(h) => Ok((next, Adam7Chunks { header: Some(h), ..st })),
                    }
                }
            } else if t == tag(80, 76, 84, 69) {
                match st.header {
                    None => Err(ErrorKind::InvalidData),
                    Some(h) => if st.saw_idat || st.palette is Some || h.color_type == 0 || h.color_type == 4
                        || d.len() == 0 || d.len() % 3 != 0 || d.len() > 768
                        || (h.color_type == 3 && d.len() / 3 > palette_limit(h.bit_depth)) {
                        Err(ErrorKind::InvalidData)
                    } else {
                        Ok((next, Adam7Chunks { palette: Some(d), ..st }))
                    },
                }
            } else if t == tag(116, 82, 78, 83) {
                match st.header {
                    None => Err(ErrorKind::InvalidData),
                    Some(h) => if st.saw_idat || st.trns is Some {
                        Err(ErrorKind::InvalidData)
                    } else if h.color_type == 0 && d.len() != 2 {
                        Err(ErrorKind::InvalidData)
                    } else if h.color_type == 2 && d.len() != 6 {
                        Err(ErrorKind::InvalidData)
                    } else if h.color_type == 3 && (st.palette is None || d.len() > st.palette->0.len() / 3) {
                        Err(ErrorKind::InvalidData)
                    } else if h.color_type == 4 || h.color_type == 6 {
                        Err(ErrorKind::InvalidData)
                    } else {
                        Ok((next, Adam7Chunks { trns: Some(d), ..st }))
                    },
                }
            } else if t == tag(73, 68, 65, 84) {
                match st.header {
                    None => Err(ErrorKind::InvalidData),
                    Some(h) => if (h.color_type == 3 && st.palette is None) || st.idat_ended {
                        Err(ErrorKind::InvalidData)
                    } else {
                        Ok((next, Adam7Chunks { saw_idat: true, idat: st.idat + d, ..st }))
                    },
                }
            } else if t == tag(73, 69, 78, 68) {
                if st.header is None || !st.saw_idat || d.len() != 0 {
                    Err(ErrorKind::InvalidData)
                } else {
                    Ok((next, Adam7Chunks { saw_iend: true, ..st }))
                }
            } else if is_upper(t[0]) {
                Err(ErrorKind::Unsupported)
            } else {
                Ok((next, Adam7Chunks { idat_ended: st.idat_ended || st.saw_idat, ..st }))
            }
        }
    }
}

pub proof fn lemma_adam7_step_advances(s: Seq<u8>, pos: nat, st: Adam7Chunks, il: u8)
    ensures
        adam7_step(s, pos, st, il) matches Ok((next, _)) ==> pos < next <= s.len(),
{
}

/// Walks the chunks from `pos` to the end of the input; nothing may follow
/// IEND.
pub open spec fn adam7_walk(s: Seq<u8>, pos: nat, st: Adam7Chunks, il: u8) -> core::result::Result<Adam7Chunks, ErrorKind>
    decreases s.len() - pos,
{
    if pos >= s.len() {
        Ok(st)
    } else if st.saw_iend {
        Err(ErrorKind::InvalidData)
    } else {
        proof {
            lemma_adam7_step_advances(s, pos, st, il);
        }
        match adam7_step(s, pos, st, il) {
            Err(k) => Err(k),
            Ok((next, st2)) => adam7_walk(s, next, st2, il),
        }
    }
}

/// The header and collected chunks of an interlaced PNG file, or the first
/// rule the file breaks before its image data is decompressed.
pub open spec fn spec_adam7_chunks(s: Seq<u8>, il: u8) -> core::result::Result<(Adam7Header, Adam7Chunks), ErrorKind> {
    if s.len() < 8 || s.subrange(0, 8) != png_signature() {
        Err(ErrorKind::InvalidData)
    } else {
        match adam7_walk(s, 8, adam7_start(), il) {
            Err(k) => Err(k),
            Ok(st) => if !st.saw_iend {
                Err(ErrorKind::InvalidData)
            } else {
                match st.header {
                    None => Err(ErrorKind::InvalidData),
                    Some(h) => Ok((h, st)),
                }
            },
        }
    }
}

/// The chunks the pass decoder needs.
pub struct Adam7Parsed<'a> {
    pub header: Adam7Header,
    pub palette: Option<&'a [u8]>,
    pub transparency: Option<&'a [u8]>,
    pub idat: Vec<u8>,
}

fn chunk_letters_valid(t: &[u8]) -> (r: bool)
    requires
        t@.len() == 4,
    ensures
        r == chunk_letters(t@),
{
    let mut i: usize = 0;
    while i < 4
        invariant
            t@.len() == 4,
            i <= 4,
            forall|k: int| 0 <= k < i ==> is_upper(#[trigger] t@[k]) || is_lower(t@[k]),
        decreases 4 - i,
    {
        let b = t[i];
        if !((65 <= b && b <= 90) || (97 <= b && b <= 122)) {
            return false;
        }
        i += 1;
    }
    true
}

/// Walks the chunks of an interlaced PNG file: framing, CRCs, order and
/// the rules on PLTE and tRNS; collects the IDAT payload.
pub fn parse_adam7(bytes: &[u8], il: u8) -> (r: Result<Adam7Parsed<'_>>)
    ensures
        match r {
            Ok(p) => {
                &&& spec_adam7_chunks(bytes@, il) is Ok
                &&& spec_adam7_chunks(bytes@, il)->Ok_0.0 == p.header
                &&& spec_adam7_chunks(bytes@, il)->Ok_0.1.idat == p.idat@
                &&& spec_adam7_chunks(bytes@, il)->Ok_0.1.palette == opt_view(p.palette)
                &&& spec_adam7_chunks(bytes@, il)->Ok_0.1.trns == opt_view(p.transparency)
                &&& header_ok(p.header)
            },
            Err(e) => spec_adam7_chunks(bytes@, il) == Err::<(Adam7Header, Adam7Chunks), ErrorKind>(e@),
        },
{
    let ghost s = bytes@;
    let sig = signature();
    if !starts_with(bytes, sig.as_slice()) {
        return Err(MediaError::invalid_data("missing PNG signature"));
    }
    let n = bytes.len();
    let mut position: usize = 8;
    let mut header: Option<Adam7Header> = None;
    let mut idat: Vec<u8> = Vec::new();
    let mut saw_idat = false;
    let mut idat_ended = false;
    let mut saw_iend = false;
    let mut palette: Option<&[u8]> = None;
    let mut transparency: Option<&[u8]> = None;
    while position < n
        invariant
            n == s.len(),
            s == bytes@,
            8 <= position <= n,
            s.subrange(0, 8) == png_signature(),
            adam7_walk(s, 8, adam7_start(), il) == adam7_walk(
                s,
                position as nat,
                Adam7Chunks {
                    header,
                    idat: idat@,
                    saw_idat,
                    idat_ended,
                    saw_iend,
                    palette: opt_view(palette),
                    trns: opt_view(transparency),
                },
                il,
            ),
            header matches Some(h) ==> header_ok(h),
        decreases n - position,
    {
        if saw_iend {
            return Err(MediaError::invalid_data("bytes found after PNG IEND chunk"));
        }
        if n - position < 8 {
            return Err(MediaError::eof("truncated PNG chunk header"));
        }
        let length = read_be32(bytes, position);
        let chunk_type = vstd::slice::slice_subrange(bytes, position + 4, position + 8);
        if !chunk_letters_valid(chunk_type) {
            return Err(MediaError::invalid_data("PNG chunk type is not alphabetic"));
        }
        let start = position + 8;
        if length as u64 + 4 > (n - start) as u64 {
            return Err(MediaError::eof("truncated PNG chunk data or CRC"));
        }
        let data_end = start + length as usize;
        let data = vstd::slice::slice_subrange(bytes, start, data_end);
        let expected_crc = read_be32(bytes, data_end);
        if chunk_crc(chunk_type, data) != expected_crc {
            return Err(MediaError::invalid_data("PNG chunk CRC mismatch"));
        }
        let chunk_start = position;
        position = data_end + 4;
        if fourcc_at(bytes, chunk_start + 4, 73, 72, 68, 82) {
            if header.is_some() || saw_idat || chunk_start != 8 {
                return Err(MediaError::invalid_data("PNG IHDR must appear exactly once and first"));
            }
            header = Some(parse_header(data, il)?);
        } else if fourcc_at(bytes, chunk_start + 4, 80, 76, 84, 69) {
            let h = match header {
                Some(h) => h,
                None => return Err(MediaError::invalid_data("PNG PLTE appeared before IHDR")),
            };
            if saw_idat {
                return Err(MediaError::invalid_data("PNG PLTE appeared after IDAT"));
            }
            if palette.is_some() {
                return Err(MediaError::invalid_data("PNG contains multiple PLTE chunks"));
            }
            if h.color_type == 0 || h.color_type == 4 {
                return Err(MediaError::invalid_data("grayscale PNG must not contain a PLTE chunk"));
            }
            if data.len() == 0 || data.len() % 3 != 0 || data.len() > 768 {
                return Err(MediaError::invalid_data("invalid PNG PLTE length"));
            }
            let limit: usize = if h.bit_depth == 1 {
                2
            } else if h.bit_depth == 2 {
                4
            } else if h.bit_depth == 4 {
                16
            } else {
                256
            };
            if h.color_type == 3 && data.len() / 3 > limit {
                return Err(MediaError::invalid_data("PNG PLTE has more entries than indexed bit depth permits"));
            }
            palette = Some(data);
        } else if fourcc_at(bytes, chunk_start + 4, 116, 82, 78, 83) {
            let h = match header {
                Some(h) => h,
                None => return Err(MediaError::invalid_data("PNG tRNS appeared before IHDR")),
            };
            if saw_idat {
                return Err(MediaError::invalid_data("PNG tRNS appeared after IDAT"));
            }
            if transparency.is_some() {
                return Err(MediaError::invalid_data("PNG contains multiple tRNS chunks"));
            }
            if h.color_type == 0 && data.len() != 2 {
                return Err(MediaError::invalid_data("grayscale PNG tRNS length must be 2 bytes"));
            }
            if h.color_type == 2 && data.len() != 6 {
                return Err(MediaError::invalid_data("truecolor PNG tRNS length must be 6 bytes"));
            }
            if h.color_type == 3 {
                let entries = match palette {
                    Some(p) => p.len() / 3,
                    None => return Err(MediaError::invalid_data("indexed PNG tRNS requires PLTE")),
                };
                if data.len() > entries {
                    return Err(MediaError::invalid_data("indexed PNG tRNS exceeds PLTE entry count"));
                }
            }
            if h.color_type == 4 || h.color_type == 6 {
                return Err(MediaError::invalid_data("PNG color types with alpha must not contain tRNS"));
            }
            transparency = Some(data);
        } else if fourcc_at(bytes, chunk_start + 4, 73, 68, 65, 84) {
            let h = match header {
                Some(h) => h,
                None => return Err(MediaError::invalid_data("PNG IDAT appeared before IHDR")),
            };
            if h.color_type == 3 && palette.is_none() {
                return Err(MediaError::invalid_data("indexed PNG requires PLTE before IDAT"));
            }
            if idat_ended {
                return Err(MediaError::invalid_data("PNG IDAT chunks must be consecutive"));
            }
            saw_idat = true;
            push_slice(&mut idat, data);
        } else if fourcc_at(bytes, chunk_start + 4, 73, 69, 78, 68) {
            if header.is_none() || !saw_idat {
                return Err(MediaError::invalid_data("PNG IEND requires preceding IHDR and IDAT"));
            }
            if data.len() != 0 {
                return Err(MediaError::invalid_data("PNG IEND chunk must be empty"));
            }
            saw_iend = true;
        } else {
            if saw_idat {
                idat_ended = true;
            }
            if 65 <= chunk_type[0] && chunk_type[0] <= 90 {
                return Err(MediaError::unsupported("unsupported critical PNG chunk"));
            }
        }
    }
    if !saw_iend {
        return Err(MediaError::invalid_data("PNG has no IEND chunk"));
    }
    let h = match header {
        Some(h) => h,
        None => return Err(MediaError::invalid_data("PNG has no IHDR chunk")),
    };
    Ok(Adam7Parsed { header: h, palette, transparency, idat })
}

/// Samples per pixel of a colour type.
pub open spec fn channels(color_type: u8) -> nat {
    if color_type == 2 {
        3
    } else if color_type == 4 {
        2
    } else if color_type == 6 {
        4
    } else {
        1
    }
}

pub open spec fn bits_per_pixel(h: Adam7Header) -> nat {
    channels(h.color_type) * (h.bit_depth as nat)
}

/// Two to the power `n`, for the shifts and masks of packed samples.
pub open spec fn pow2_small(n: nat) -> nat
    decreases n,
{
    if n == 0 {
        1
    } else {
        2 * pow2_small((n - 1) as nat)
    }
}

/// The frame format the decoder produces: grey, grey+alpha, RGB or RGBA,
/// with an alpha channel wherever tRNS is present.
pub open spec fn out_format(color_type: u8, has_trns: bool) -> PixelFormat {
    if color_type == 0 {
        if has_trns {
            PixelFormat::GrayAlpha8
        } else {
            PixelFormat::Gray8
        }
    } else if color_type == 2 || color_type == 3 {
        if has_trns {
            PixelFormat::Rgba32
        } else {
            PixelFormat::Rgb24
        }
    } else if color_type == 4 {
        PixelFormat::GrayAlpha8
    } else {
        PixelFormat::Rgba32
    }
}

/// Sample `c` of pixel `px` in an unfiltered row: packed most significant
/// bits first below depth 8, one byte at depth 8, big-endian at depth 16.
pub open spec fn sample_at(row: Seq<u8>, px: nat, depth: u8, ch: nat, c: nat) -> nat {
    if depth < 8 {
        let bit = px * depth;
        let shift = (8 - depth - bit % 8) as nat;
        (row[(bit / 8) as int] as nat / pow2_small(shift)) % pow2_small(depth as nat)
    } else if depth == 8 {
        row[(px * ch + c) as int] as nat
    } else {
        256 * row[(2 * (px * ch + c)) as int] as nat + row[(2 * (px * ch + c) + 1) as int] as nat
    }
}

/// A sample scaled to eight bits, rounding to nearest.
pub open spec fn scale_spec(s: nat, depth: u8) -> u8 {
    if depth == 8 {
        s as u8
    } else if depth == 16 {
        ((s * 255 + 32767) / 65535) as u8
    } else {
        let max = (pow2_small(depth as nat) - 1) as nat;
        ((s * 255 + max / 2) / max) as u8
    }
}

pub open spec fn be16_of(t: Seq<u8>, off: int) -> nat {
    256 * t[off] as nat + t[off + 1] as nat
}

/// The output bytes of pixel `px` of an unfiltered row, or why it has none.
pub open spec fn pixel_value(h: Adam7Header, row: Seq<u8>, px: nat, palette: Option<Seq<u8>>, trns: Option<Seq<u8>>) -> core::result::Result<Seq<u8>, ErrorKind> {
    let d = h.bit_depth;
    let ch = channels(h.color_type);
    let s0 = sample_at(row, px, d, ch, 0);
    let s1 = sample_at(row, px, d, ch, 1);
    let s2 = sample_at(row, px, d, ch, 2);
    let s3 = sample_at(row, px, d, ch, 3);
    if h.color_type == 0 {
        match trns {
            None => Ok(seq![scale_spec(s0, d)]),
            Some(t) => if t.len() < 2 {
                Err(ErrorKind::InvalidData)
            } else {
                Ok(seq![scale_spec(s0, d), if s0 == be16_of(t, 0) { 0u8 } else { 255u8 }])
            },
        }
    } else if h.color_type == 2 {
        let rgb = seq![scale_spec(s0, d), scale_spec(s1, d), scale_spec(s2, d)];
        match trns {
            None => Ok(rgb),
            Some(t) => if t.len() < 6 {
                Err(ErrorKind::InvalidData)
            } else {
                let keyed = s0 == be16_of(t, 0) && s1 == be16_of(t, 2) && s2 == be16_of(t, 4);
                Ok(rgb.push(if keyed { 0u8 } else { 255u8 }))
            },
        }
    } else if h.color_type == 3 {
        match palette {
            None => Err(ErrorKind::InvalidData),
            Some(p) => if 3 * s0 + 3 > p.len() {
                Err(ErrorKind::InvalidData)
            } else {
                let rgb = p.subrange(3 * s0 as int, 3 * s0 as int + 3);
                match trns {
                    None => Ok(rgb),
                    Some(t) => Ok(rgb.push(if s0 < t.len() { t[s0 as int] } else { 255u8 })),
                }
            },
        }
    } else if h.color_type == 4 {
        Ok(seq![scale_spec(s0, d), scale_spec(s1, d)])
    } else {
        Ok(seq![scale_spec(s0, d), scale_spec(s1, d), scale_spec(s2, d), scale_spec(s3, d)])
    }
}

fn channels_of(color_type: u8) -> (n: usize)
    ensures
        n == channels(color_type),
        1 <= n <= 4,
{
    if color_type == 2 {
        3
    } else if color_type == 4 {
        2
    } else if color_type == 6 {
        4
    } else {
        1
    }
}

/// Two to the power `n` for `n` up to 16, as a `u32`.
pub(crate) fn pow2_of_wide(n: u8) -> (r: u32)
    requires
        n <= 16,
    ensures
        r == pow2_small(n as nat),
        1 <= r <= 65536,
{
    proof {
        lemma_pow2_small_mono(0, n as nat);
        lemma_pow2_small_le(n as nat);
    }
    let mut r: u32 = 1;
    let mut i: u8 = 0;
    while i < n
        invariant
            i <= n <= 16,
            r == pow2_small(i as nat),
            pow2_small(n as nat) <= 65536,
        decreases n - i,
    {
        proof {
            reveal_with_fuel(pow2_small, 2);
            lemma_pow2_small_mono((i + 1) as nat, n as nat);
        }
        r = r * 2;
        i = i + 1;
    }
    r
}

/// Powers of two are positive and grow with the exponent.
pub proof fn lemma_pow2_small_mono(a: nat, b: nat)
    requires
        a <= b,
    ensures
        1 <= pow2_small(a) <= pow2_small(b),
    decreases b - a,
{
    reveal_with_fuel(pow2_small, 2);
    if a < b {
        lemma_pow2_small_mono(a, (b - 1) as nat);
    } else {
        lemma_pow2_small_pos(a);
    }
}

proof fn lemma_pow2_small_pos(a: nat)
    ensures
        1 <= pow2_small(a),
    decreases a,
{
    reveal_with_fuel(pow2_small, 2);
    if a > 0 {
        lemma_pow2_small_pos((a - 1) as nat);
    }
}

/// Up to 2^16 for exponents up to 16.
pub proof fn lemma_pow2_small_le(n: nat)
    requires
        n <= 16,
    ensures
        1 <= pow2_small(n) <= 65536,
{
    lemma_pow2_small_mono(n, 16);
    reveal_with_fuel(pow2_small, 17);
    assert(pow2_small(16) == 65536);
}

pub(crate) fn pow2_of(n: u8) -> (r: u16)
    requires
        n <= 8,
    ensures
        r == pow2_small(n as nat),
        r >= 1,
{
    reveal_with_fuel(pow2_small, 9);
    if n == 0 {
        1
    } else if n == 1 {
        2
    } else if n == 2 {
        4
    } else if n == 3 {
        8
    } else if n == 4 {
        16
    } else if n == 5 {
        32
    } else if n == 6 {
        64
    } else if n == 7 {
        128
    } else {
        256
    }
}

fn output_format(color_type: u8, has_trns: bool) -> (f: PixelFormat)
    ensures
        f == out_format(color_type, has_trns),
{
    if color_type == 0 {
        if has_trns {
            PixelFormat::GrayAlpha8
        } else {
            PixelFormat::Gray8
        }
    } else if color_type == 2 || color_type == 3 {
        if has_trns {
            PixelFormat::Rgba32
        } else {
            PixelFormat::Rgb24
        }
    } else if color_type == 4 {
        PixelFormat::GrayAlpha8
    } else {
        PixelFormat::Rgba32
    }
}

/// A row holds the packed samples of `pw` pixels.
pub open spec fn row_fits(h: Adam7Header, row: Seq<u8>, pw: nat) -> bool {
    row.len() == (pw * bits_per_pixel(h) + 7) / 8
}

fn read_sample(row: &[u8], px: usize, depth: u8, ch: usize, c: usize, pw: usize) -> (s: u16)
    requires
        depth == 1 || depth == 2 || depth == 4 || depth == 8 || depth == 16,
        1 <= ch <= 4,
        c < ch || (depth < 8 && c == 0),
        px < pw,
        pw <= MAX_PIXELS,
        row@.len() == (pw * (ch * depth) + 7) / 8,
        depth < 8 ==> ch == 1,
    ensures
        s == sample_at(row@, px as nat, depth, ch as nat, c as nat),
{
    let n = row.len();
    if depth < 8 {
        assert(px * depth <= 4 * MAX_PIXELS) by (nonlinear_arith)
            requires px < pw, pw <= MAX_PIXELS, depth <= 4;
        let bit: u64 = (px as u64) * (depth as u64);
        assert(bit / 8 < n) by (nonlinear_arith)
            requires bit == px * depth, px < pw, n == (pw * (ch * depth) + 7) / 8, ch == 1, depth >= 1;
        let byte = row[(bit / 8) as usize];
        if depth == 2 {
            assert(bit % 8 <= 6) by (nonlinear_arith) requires bit == px * 2;
        } else if depth == 4 {
            assert(bit % 8 <= 4) by (nonlinear_arith) requires bit == px * 4;
        }
        let shift = (8 - depth as u64 - bit % 8) as u8;
        let v = (byte as u16 / pow2_of(shift)) % pow2_of(depth);
        v
    } else if depth == 8 {
        assert(px * ch + c < n) by (nonlinear_arith)
            requires px < pw, c < ch, n == (pw * (ch * depth) + 7) / 8, depth == 8;
        row[px * ch + c] as u16
    } else {
        assert(2 * (px * ch + c) + 1 < n) by (nonlinear_arith)
            requires px < pw, c < ch, n == (pw * (ch * depth) + 7) / 8, depth == 16;
        let i = 2 * (px * ch + c);
        (row[i] as u16) * 256 + row[i + 1] as u16
    }
}

fn scale_sample(s: u16, depth: u8) -> (v: u8)
    requires
        depth == 1 || depth == 2 || depth == 4 || depth == 8 || depth == 16,
        s < pow2_small(depth as nat),
    ensures
        v == scale_spec(s as nat, depth),
{
    reveal_with_fuel(pow2_small, 17);
    if depth == 8 {
        s as u8
    } else if depth == 16 {
        let t: u32 = ((s as u32) * 255 + 32767) / 65535;
        assert(t <= 255) by (nonlinear_arith)
            requires t == ((s as u32) * 255 + 32767) / 65535, s <= 65535;
        t as u8
    } else {
        let max: u32 = pow2_of(depth) as u32 - 1;
        let t: u32 = ((s as u32) * 255 + max / 2) / max;
        assert(t <= 255) by (nonlinear_arith)
            requires t as int == ((s as int) * 255 + (max as int) / 2) / (max as int), s <= max, max >= 1;
        t as u8
    }
}

proof fn lemma_sample_bound(row: Seq<u8>, px: nat, depth: u8, ch: nat, c: nat)
    requires
        depth == 1 || depth == 2 || depth == 4 || depth == 8 || depth == 16,
    ensures
        sample_at(row, px, depth, ch, c) < pow2_small(depth as nat),
{
    reveal_with_fuel(pow2_small, 17);
    if depth < 8 {
        let bit = px * depth;
        let shift = (8 - depth - bit % 8) as nat;
        assert(pow2_small(depth as nat) > 0);
    }
}

/// The output bytes of one pixel, as `pixel_value` states them.
fn pixel_bytes(
    h: Adam7Header,
    row: &[u8],
    px: usize,
    pw: usize,
    palette: Option<&[u8]>,
    transparency: Option<&[u8]>,
) -> (r: Result<Vec<u8>>)
    requires
        header_ok(h),
        px < pw,
        pw <= h.width,
        row_fits(h, row@, pw as nat),
    ensures
        match r {
            Ok(v) => pixel_value(h, row@, px as nat, opt_view(palette), opt_view(transparency)) == Ok::<Seq<u8>, ErrorKind>(v@),
            Err(e) => pixel_value(h, row@, px as nat, opt_view(palette), opt_view(transparency)) == Err::<Seq<u8>, ErrorKind>(e@),
        },
{
    let d = h.bit_depth;
    let ct = h.color_type;
    let ch = channels_of(ct);
    assert(h.width <= MAX_PIXELS) by (nonlinear_arith)
        requires h.width * h.height <= MAX_PIXELS, h.height >= 1;
    proof {
        lemma_sample_bound(row@, px as nat, d, ch as nat, 0);
        lemma_sample_bound(row@, px as nat, d, ch as nat, 1);
        lemma_sample_bound(row@, px as nat, d, ch as nat, 2);
        lemma_sample_bound(row@, px as nat, d, ch as nat, 3);
    }
    let s0 = read_sample(row, px, d, ch, 0, pw);
    let mut out: Vec<u8> = Vec::new();
    if ct == 0 {
        out.push(scale_sample(s0, d));
        match transparency {
            None => {},
            Some(t) => {
                if t.len() < 2 {
                    return Err(MediaError::invalid_data("missing grayscale tRNS key"));
                }
                let key = (t[0] as u16) * 256 + t[1] as u16;
                out.push(if s0 == key { 0 } else { 255 });
            },
        }
        assert(out@ =~= pixel_value(h, row@, px as nat, opt_view(palette), opt_view(transparency))->Ok_0);
        Ok(out)
    } else if ct == 2 {
        let s1 = read_sample(row, px, d, ch, 1, pw);
        let s2 = read_sample(row, px, d, ch, 2, pw);
        out.push(scale_sample(s0, d));
        out.push(scale_sample(s1, d));
        out.push(scale_sample(s2, d));
        match transparency {
            None => {},
            Some(t) => {
                if t.len() < 6 {
                    return Err(MediaError::invalid_data("missing truecolor tRNS key"));
                }
                let k0 = (t[0] as u16) * 256 + t[1] as u16;
                let k1 = (t[2] as u16) * 256 + t[3] as u16;
                let k2 = (t[4] as u16) * 256 + t[5] as u16;
                out.push(if s0 == k0 && s1 == k1 && s2 == k2 { 0 } else { 255 });
            },
        }
        assert(out@ =~= pixel_value(h, row@, px as nat, opt_view(palette), opt_view(transparency))->Ok_0);
        Ok(out)
    } else if ct == 3 {
        let p = match palette {
            Some(p) => p,
            None => return Err(MediaError::invalid_data("indexed PNG requires PLTE")),
        };
        let index = s0 as usize;
        if p.len() < 3 || index > (p.len() - 3) / 3 {
            return Err(MediaError::invalid_data("PNG palette index exceeds PLTE"));
        }
        let e = 3 * index;
        out.push(p[e]);
        out.push(p[e + 1]);
        out.push(p[e + 2]);
        match transparency {
            None => {},
            Some(t) => {
                out.push(if index < t.len() { t[index] } else { 255 });
            },
        }
        assert(out@ =~= pixel_value(h, row@, px as nat, opt_view(palette), opt_view(transparency))->Ok_0);
        Ok(out)
    } else if ct == 4 {
        let s1 = read_sample(row, px, d, ch, 1, pw);
        out.push(scale_sample(s0, d));
        out.push(scale_sample(s1, d));
        assert(out@ =~= pixel_value(h, row@, px as nat, opt_view(palette), opt_view(transparency))->Ok_0);
        Ok(out)
    } else {
        let s1 = read_sample(row, px, d, ch, 1, pw);
        let s2 = read_sample(row, px, d, ch, 2, pw);
        let s3 = read_sample(row, px, d, ch, 3, pw);
        out.push(scale_sample(s0, d));
        out.push(scale_sample(s1, d));
        out.push(scale_sample(s2, d));
        out.push(scale_sample(s3, d));
        assert(out@ =~= pixel_value(h, row@, px as nat, opt_view(palette), opt_view(transparency))->Ok_0);
        Ok(out)
    }
}

/// The Adam7 pass a pixel belongs to, read off its position modulo 8.
pub open spec fn pass_of(x: nat, y: nat) -> nat {
    if y % 2 == 1 {
        6
    } else if x % 2 == 1 {
        5
    } else if y % 4 == 2 {
        4
    } else if x % 4 == 2 {
        3
    } else if y % 8 == 4 {
        2
    } else if x % 8 == 4 {
        1
    } else {
        0
    }
}

/// The column of a pixel within its pass.
pub open spec fn pass_col(x: nat, y: nat) -> nat {
    let (x0, _, dx, _) = adam7_pass(pass_of(x, y));
    ((x - x0) / dx as int) as nat
}

/// The row of a pixel within its pass.
pub open spec fn pass_line(x: nat, y: nat) -> nat {
    let (_, y0, _, dy) = adam7_pass(pass_of(x, y));
    ((y - y0) / dy as int) as nat
}

/// Every pixel of a `w` by `h` image lies in its pass's sub-image, at its
/// pass row and column.
#[verifier::spinoff_prover]
#[verifier::rlimit(50)]
pub proof fn lemma_pass_covers(x: nat, y: nat, w: nat, h: nat)
    requires
        x < w,
        y < h,
    ensures
        pass_of(x, y) < 7,
        ({
            let (x0, y0, dx, dy) = adam7_pass(pass_of(x, y));
            &&& x == x0 + pass_col(x, y) * dx
            &&& y == y0 + pass_line(x, y) * dy
            &&& pass_col(x, y) < extent_spec(w, x0, dx)
            &&& pass_line(x, y) < extent_spec(h, y0, dy)
        }),
{
    let q = pass_of(x, y);
    let (x0, y0, dx, dy) = adam7_pass(q);
    if q == 6 {
        assert(y >= 1 && (y - 1) % 2 == 0);
    } else if q == 5 {
        assert(x >= 1 && (x - 1) % 2 == 0 && y % 2 == 0);
    } else if q == 4 {
        assert(x % 2 == 0 && y >= 2 && (y - 2) % 4 == 0);
    } else if q == 3 {
        assert(x >= 2 && (x - 2) % 4 == 0 && y % 4 == 0);
    } else if q == 2 {
        assert(x % 4 == 0 && y >= 4 && (y - 4) % 8 == 0);
    } else if q == 1 {
        assert(x >= 4 && (x - 4) % 8 == 0 && y % 8 == 0);
    } else {
        assert(x % 8 == 0 && y % 8 == 0);
    }
    lemma_axis_covers(x, w, x0, dx);
    lemma_axis_covers(y, h, y0, dy);
}

/// One axis of the covering: a coordinate at or after `x0` in step with it
/// is the `(x - x0) / dx`-th of the positions below `w`.
proof fn lemma_axis_covers(x: nat, w: nat, x0: nat, dx: nat)
    requires
        x < w,
        dx >= 1,
        x >= x0,
        (x - x0) % (dx as int) == 0,
    ensures
        x == x0 + ((x - x0) / dx as int) * dx,
        ((x - x0) / dx as int) < extent_spec(w, x0, dx),
{
    let t = x - x0;
    vstd::arithmetic::div_mod::lemma_fundamental_div_mod(t, dx as int);
    vstd::arithmetic::div_mod::lemma_div_is_ordered(t, w - x0 - 1, dx as int);
    assert(t == (t / dx as int) * dx) by (nonlinear_arith)
        requires t == dx * (t / dx as int) + t % (dx as int), t % (dx as int) == 0;
}

/// A pass's `c`-th column of its `r`-th row is a pixel of that pass, at that
/// row and column.
pub proof fn lemma_pass_inverse(q: nat, c: nat, r: nat)
    requires
        q < 7,
    ensures
        ({
            let (x0, y0, dx, dy) = adam7_pass(q);
            let x = x0 + c * dx;
            let y = y0 + r * dy;
            &&& pass_of(x, y) == q
            &&& pass_col(x, y) == c
            &&& pass_line(x, y) == r
        }),
{
    let (x0, y0, dx, dy) = adam7_pass(q);
    let x = x0 + c * dx;
    let y = y0 + r * dy;
    vstd::arithmetic::div_mod::lemma_mod_multiples_vanish(c as int, x0 as int, dx as int);
    vstd::arithmetic::div_mod::lemma_mod_multiples_vanish(r as int, y0 as int, dy as int);
    if q == 0 {
        assert(x % 8 == 0 && y % 8 == 0) by (nonlinear_arith) requires x == 8 * c, y == 8 * r;
    } else if q == 1 {
        assert(x % 8 == 4 && y % 8 == 0) by (nonlinear_arith) requires x == 4 + 8 * c, y == 8 * r;
    } else if q == 2 {
        assert(x % 4 == 0 && y % 8 == 4) by (nonlinear_arith) requires x == 4 * c, y == 4 + 8 * r;
    } else if q == 3 {
        assert(x % 4 == 2 && y % 4 == 0) by (nonlinear_arith) requires x == 2 + 4 * c, y == 4 * r;
    } else if q == 4 {
        assert(x % 2 == 0 && y % 4 == 2) by (nonlinear_arith) requires x == 2 * c, y == 2 + 4 * r;
    } else if q == 5 {
        assert(x % 2 == 1 && y % 2 == 0) by (nonlinear_arith) requires x == 1 + 2 * c, y == 2 * r;
    } else {
        assert(y % 2 == 1) by (nonlinear_arith) requires y == 1 + 2 * r;
    }
    assert(pass_of(x, y) == q);
    vstd::arithmetic::div_mod::lemma_div_multiples_vanish(c as int, dx as int);
    vstd::arithmetic::div_mod::lemma_div_multiples_vanish(r as int, dy as int);
    assert((x - x0) == c * dx);
    assert((y - y0) == r * dy);
}

/// The pixels the decoder has written when it stands at column `c` of row
/// `r` of pass `p`: those of earlier passes, rows and columns.
pub open spec fn written_before(x: nat, y: nat, p: nat, r: nat, c: nat) -> bool {
    ||| pass_of(x, y) < p
    ||| pass_of(x, y) == p && pass_line(x, y) < r
    ||| pass_of(x, y) == p && pass_line(x, y) == r && pass_col(x, y) < c
}

/// The width and height of a pass's sub-image.
pub open spec fn pass_dims(h: Adam7Header, p: nat) -> (nat, nat) {
    let (x0, y0, dx, dy) = adam7_pass(p);
    (extent_spec(h.width as nat, x0, dx), extent_spec(h.height as nat, y0, dy))
}

/// Bytes per scanline of a pass, filter byte excluded.
pub open spec fn pass_stride(h: Adam7Header, p: nat) -> nat {
    (pass_dims(h, p).0 * bits_per_pixel(h) + 7) / 8
}

/// Decompressed bytes of a pass: its scanlines, each with a filter byte;
/// nothing for an empty pass.
pub open spec fn pass_size(h: Adam7Header, p: nat) -> nat {
    let (pw, ph) = pass_dims(h, p);
    if pw == 0 || ph == 0 {
        0
    } else {
        (pass_stride(h, p) + 1) * ph
    }
}

/// Where pass `p` starts in the decompressed data.
pub open spec fn pass_offset(h: Adam7Header, p: nat) -> nat
    decreases p,
{
    if p == 0 {
        0
    } else {
        pass_offset(h, (p - 1) as nat) + pass_size(h, (p - 1) as nat)
    }
}

/// The filter distance: bytes per complete pixel, at least one.
pub open spec fn filter_bpp(h: Adam7Header) -> nat {
    (bits_per_pixel(h) + 7) / 8
}

/// The reconstructed scanlines of pass `p`.
pub open spec fn pass_unfiltered(h: Adam7Header, inflated: Seq<u8>, p: nat) -> core::result::Result<Seq<u8>, ErrorKind> {
    let (pw, ph) = pass_dims(h, p);
    if pw == 0 || ph == 0 {
        Ok(Seq::empty())
    } else {
        let off = pass_offset(h, p);
        unfilter_rows(inflated.subrange(off as int, (off + pass_size(h, p)) as int), ph, pass_stride(h, p), filter_bpp(h))
    }
}

/// The output bytes of image pixel (`x`, `y`), read from its pass.
pub open spec fn image_pixel(
    h: Adam7Header,
    inflated: Seq<u8>,
    palette: Option<Seq<u8>>,
    trns: Option<Seq<u8>>,
    x: nat,
    y: nat,
) -> core::result::Result<Seq<u8>, ErrorKind> {
    let q = pass_of(x, y);
    let rb = pass_stride(h, q);
    let r = pass_line(x, y);
    let unf = pass_unfiltered(h, inflated, q)->Ok_0;
    pixel_value(h, unf.subrange((r * rb) as int, (r * rb + rb) as int), pass_col(x, y), palette, trns)
}

/// Byte `i` of the decoded image: pixels row by row, `o` bytes each.
pub open spec fn image_byte(
    h: Adam7Header,
    inflated: Seq<u8>,
    palette: Option<Seq<u8>>,
    trns: Option<Seq<u8>>,
    o: nat,
    i: int,
) -> u8 {
    let k = i / o as int;
    image_pixel(h, inflated, palette, trns, (k % h.width as int) as nat, (k / h.width as int) as nat)->Ok_0[i % o as int]
}

/// What the pass decoder makes of the decompressed data: the frame format
/// and pixels, or `InvalidData` when the data has the wrong size, a
/// scanline has an unknown filter type, or a pixel names a palette entry
/// or transparency key that is missing.
pub open spec fn spec_adam7_decode(
    h: Adam7Header,
    inflated: Seq<u8>,
    palette: Option<Seq<u8>>,
    trns: Option<Seq<u8>>,
) -> core::result::Result<(PixelFormat, Seq<u8>), ErrorKind> {
    let w = h.width as nat;
    let ht = h.height as nat;
    let fmt = out_format(h.color_type, trns is Some);
    let o = spec_bpp(fmt);
    if inflated.len() != pass_offset(h, 7) {
        Err(ErrorKind::InvalidData)
    } else if exists|p: nat| p < 7 && (#[trigger] pass_unfiltered(h, inflated, p)) is Err {
        Err(ErrorKind::InvalidData)
    } else if exists|x: nat, y: nat| x < w && y < ht && (#[trigger] image_pixel(h, inflated, palette, trns, x, y)) is Err {
        Err(ErrorKind::InvalidData)
    } else {
        Ok((fmt, Seq::new(w * ht * o, |i: int| image_byte(h, inflated, palette, trns, o, i))))
    }
}

/// The pixel at byte `i` of a row-major image `w` pixels wide, `o` bytes per
/// pixel: its column and row.
pub open spec fn col_of(i: int, o: nat, w: nat) -> nat {
    ((i / o as int) % w as int) as nat
}

pub open spec fn row_of(i: int, o: nat, w: nat) -> nat {
    ((i / o as int) / w as int) as nat
}

/// Every pixel written so far, up to column `c` of row `r` of pass `p`,
/// holds its decoded bytes, and none of them failed.
#[verifier::opaque]
pub open spec fn image_done(
    h: Adam7Header,
    inflated: Seq<u8>,
    palette: Option<Seq<u8>>,
    trns: Option<Seq<u8>>,
    o: nat,
    out: Seq<u8>,
    p: nat,
    r: nat,
    c: nat,
) -> bool {
    &&& out.len() == h.width * h.height * o
    &&& forall|i: int|
        0 <= i < out.len() && #[trigger] written_before(col_of(i, o, h.width as nat), row_of(i, o, h.width as nat), p, r, c) ==> {
            &&& image_pixel(h, inflated, palette, trns, col_of(i, o, h.width as nat), row_of(i, o, h.width as nat)) is Ok
            &&& out[i] == image_byte(h, inflated, palette, trns, o, i)
        }
}

pub proof fn lemma_index_in_image(i: int, o: nat, w: nat, ht: nat)
    requires
        o >= 1,
        w >= 1,
        0 <= i < w * ht * o,
    ensures
        col_of(i, o, w) < w,
        row_of(i, o, w) < ht,
        i == (row_of(i, o, w) * w + col_of(i, o, w)) * o + i % (o as int),
        0 <= i % (o as int) < o,
{
    let k = i / o as int;
    vstd::arithmetic::div_mod::lemma_fundamental_div_mod(i, o as int);
    vstd::arithmetic::div_mod::lemma_mod_pos_bound(i, o as int);
    vstd::arithmetic::div_mod::lemma_fundamental_div_mod(k, w as int);
    vstd::arithmetic::div_mod::lemma_mod_pos_bound(k, w as int);
    assert(k >= 0) by (nonlinear_arith) requires i >= 0, o >= 1, k == i / o as int;
    assert(k < w * ht) by (nonlinear_arith)
        requires i < w * ht * o, i == o * k + i % (o as int), i % (o as int) >= 0, o >= 1, k >= 0;
    assert(k / (w as int) < ht) by (nonlinear_arith)
        requires k < w * ht, k == w * (k / (w as int)) + k % (w as int), k % (w as int) >= 0, w >= 1;
    assert(k / (w as int) >= 0) by (nonlinear_arith) requires k >= 0, w >= 1;
    assert(i == (row_of(i, o, w) * w + col_of(i, o, w)) * o + i % (o as int)) by (nonlinear_arith)
        requires
            i == o * k + i % (o as int),
            k == w * (k / (w as int)) + k % (w as int),
            row_of(i, o, w) == k / (w as int),
            col_of(i, o, w) == k % (w as int);
}

pub proof fn lemma_index_of_pixel(x: nat, y: nat, c: nat, o: nat, w: nat)
    requires
        x < w,
        c < o,
    ensures
        col_of(((y * w + x) * o + c) as int, o, w) == x,
        row_of(((y * w + x) * o + c) as int, o, w) == y,
        (((y * w + x) * o + c) as int) % (o as int) == c,
{
    let k = y * w + x;
    let i = k * o + c;
    vstd::arithmetic::div_mod::lemma_fundamental_div_mod_converse(i as int, o as int, k as int, c as int);
    vstd::arithmetic::div_mod::lemma_fundamental_div_mod_converse(k as int, w as int, y as int, x as int);
}

/// With no pixel of pass `p` in row `r` at column `pw` or beyond, finishing
/// the row is starting the next one.
proof fn lemma_row_end(x: nat, y: nat, w: nat, ht: nat, p: nat, r: nat, pw: nat)
    requires
        x < w,
        y < ht,
        p < 7,
        pw == extent_spec(w, adam7_pass(p).0, adam7_pass(p).2),
    ensures
        written_before(x, y, p, r, pw) == written_before(x, y, p, r + 1, 0),
{
    lemma_pass_covers(x, y, w, ht);
}

/// With no pixel of pass `p` at row `ph` or beyond (or none at all),
/// finishing the pass is starting the next one.
proof fn lemma_pass_end(x: nat, y: nat, w: nat, ht: nat, p: nat, r: nat)
    requires
        x < w,
        y < ht,
        p < 7,
        ({
            let pw = extent_spec(w, adam7_pass(p).0, adam7_pass(p).2);
            let ph = extent_spec(ht, adam7_pass(p).1, adam7_pass(p).3);
            r == ph || pw == 0 || ph == 0
        }),
    ensures
        written_before(x, y, p, r, 0) == written_before(x, y, p + 1, 0, 0),
{
    lemma_pass_covers(x, y, w, ht);
}

proof fn lemma_done_row_end(
    h: Adam7Header,
    inflated: Seq<u8>,
    palette: Option<Seq<u8>>,
    trns: Option<Seq<u8>>,
    o: nat,
    out: Seq<u8>,
    p: nat,
    r: nat,
)
    requires
        o >= 1,
        h.width >= 1,
        p < 7,
        image_done(h, inflated, palette, trns, o, out, p, r, pass_dims(h, p).0),
    ensures
        image_done(h, inflated, palette, trns, o, out, p, r + 1, 0),
{
    reveal(image_done);
    let w = h.width as nat;
    assert forall|i: int|
        0 <= i < out.len() && #[trigger] written_before(col_of(i, o, w), row_of(i, o, w), p, r + 1, 0) implies {
            &&& image_pixel(h, inflated, palette, trns, col_of(i, o, w), row_of(i, o, w)) is Ok
            &&& out[i] == image_byte(h, inflated, palette, trns, o, i)
        } by {
        lemma_index_in_image(i, o, w, h.height as nat);
        lemma_row_end(col_of(i, o, w), row_of(i, o, w), w, h.height as nat, p, r, pass_dims(h, p).0);
    }
}

proof fn lemma_done_pass_end(
    h: Adam7Header,
    inflated: Seq<u8>,
    palette: Option<Seq<u8>>,
    trns: Option<Seq<u8>>,
    o: nat,
    out: Seq<u8>,
    p: nat,
    r: nat,
)
    requires
        o >= 1,
        h.width >= 1,
        p < 7,
        r == pass_dims(h, p).1 || pass_dims(h, p).0 == 0 || pass_dims(h, p).1 == 0,
        image_done(h, inflated, palette, trns, o, out, p, r, 0),
    ensures
        image_done(h, inflated, palette, trns, o, out, p + 1, 0, 0),
{
    reveal(image_done);
    let w = h.width as nat;
    assert forall|i: int|
        0 <= i < out.len() && #[trigger] written_before(col_of(i, o, w), row_of(i, o, w), p + 1, 0, 0) implies {
            &&& image_pixel(h, inflated, palette, trns, col_of(i, o, w), row_of(i, o, w)) is Ok
            &&& out[i] == image_byte(h, inflated, palette, trns, o, i)
        } by {
        lemma_index_in_image(i, o, w, h.height as nat);
        lemma_pass_end(col_of(i, o, w), row_of(i, o, w), w, h.height as nat, p, r);
    }
}

/// Writing the bytes of the pixel at column `c` of row `r` of pass `p`
/// moves the decoder one column on.
proof fn lemma_done_put(
    h: Adam7Header,
    inflated: Seq<u8>,
    palette: Option<Seq<u8>>,
    trns: Option<Seq<u8>>,
    o: nat,
    out: Seq<u8>,
    out2: Seq<u8>,
    p: nat,
    r: nat,
    c: nat,
    v: Seq<u8>,
)
    requires
        o >= 1,
        h.width >= 1,
        p < 7,
        image_done(h, inflated, palette, trns, o, out, p, r, c),
        ({
            let (x0, y0, dx, dy) = adam7_pass(p);
            let x = x0 + c * dx;
            let y = y0 + r * dy;
            let start = (y * h.width + x) * o;
            &&& x < h.width
            &&& y < h.height
            &&& image_pixel(h, inflated, palette, trns, x, y) == Ok::<Seq<u8>, ErrorKind>(v)
            &&& v.len() == o
            &&& out2.len() == out.len()
            &&& forall|i: int| 0 <= i < out.len() ==> #[trigger] out2[i] == if start <= i < start + o {
                v[i - start]
            } else {
                out[i]
            }
        }),
    ensures
        image_done(h, inflated, palette, trns, o, out2, p, r, c + 1),
{
    reveal(image_done);
    let w = h.width as nat;
    let (x0, y0, dx, dy) = adam7_pass(p);
    let x = x0 + c * dx;
    let y = y0 + r * dy;
    let start = (y * w + x) * o;
    lemma_pass_inverse(p, c, r);
    assert forall|i: int|
        0 <= i < out2.len() && #[trigger] written_before(col_of(i, o, w), row_of(i, o, w), p, r, c + 1) implies {
            &&& image_pixel(h, inflated, palette, trns, col_of(i, o, w), row_of(i, o, w)) is Ok
            &&& out2[i] == image_byte(h, inflated, palette, trns, o, i)
        } by {
        lemma_index_in_image(i, o, w, h.height as nat);
        let xi = col_of(i, o, w);
        let yi = row_of(i, o, w);
        let k = i % (o as int);
        lemma_pass_covers(xi, yi, w, h.height as nat);
        if start <= i < start + o {
            assert(i == (y * w + x) * o + (i - start));
            lemma_index_of_pixel(x, y, (i - start) as nat, o, w);
        } else {
            if xi == x && yi == y {
                assert(start <= i < start + o) by (nonlinear_arith)
                    requires i == (yi * w + xi) * o + k, 0 <= k < o, start == (y * w + x) * o, xi == x, yi == y;
            }
            assert(!(xi == x && yi == y));
            assert(written_before(xi, yi, p, r, c));
        }
    }
}

/// The bytes of the pixel at column `c` of row `r` of pass `p` are the
/// pixel value of that column of the pass's reconstructed row.
proof fn lemma_image_pixel_at(
    h: Adam7Header,
    inflated: Seq<u8>,
    palette: Option<Seq<u8>>,
    trns: Option<Seq<u8>>,
    p: nat,
    r: nat,
    c: nat,
    unf: Seq<u8>,
)
    requires
        p < 7,
        pass_unfiltered(h, inflated, p) == Ok::<Seq<u8>, ErrorKind>(unf),
    ensures
        ({
            let (x0, y0, dx, dy) = adam7_pass(p);
            let rb = pass_stride(h, p);
            image_pixel(h, inflated, palette, trns, x0 + c * dx, y0 + r * dy)
                == pixel_value(h, unf.subrange((r * rb) as int, (r * rb + rb) as int), c, palette, trns)
        }),
{
    lemma_pass_inverse(p, c, r);
}

/// Where the pixel at column `c` of row `r` of pass `p` starts in the
/// output, and that it lies inside the image.
fn pixel_start(p: usize, c: usize, r: usize, w: usize, ht: usize, o: usize) -> (start: usize)
    requires
        p < 7,
        o >= 1,
        o <= 4,
        w * ht <= MAX_PIXELS,
        c < extent_spec(w as nat, adam7_pass(p as nat).0, adam7_pass(p as nat).2),
        r < extent_spec(ht as nat, adam7_pass(p as nat).1, adam7_pass(p as nat).3),
    ensures
        ({
            let (x0, y0, dx, dy) = adam7_pass(p as nat);
            let x = x0 + c * dx;
            let y = y0 + r * dy;
            &&& x < w
            &&& y < ht
            &&& start == (y * w + x) * o
            &&& start + o <= w * ht * o
        }),
{
    let (x0, y0, dx, dy) = pass_at(p);
    proof {
        lemma_extent_bound(w as nat, x0 as nat, dx as nat, c as nat);
        lemma_extent_bound(ht as nat, y0 as nat, dy as nat, r as nat);
    }
    let x = x0 + c * dx;
    let y = y0 + r * dy;
    assert(y * w + x < w * ht) by (nonlinear_arith)
        requires x < w, y < ht;
    assert((y * w + x) * o + o <= w * ht * o) by (nonlinear_arith)
        requires y * w + x < w * ht, o >= 1;
    assert(w * ht * o <= 4 * MAX_PIXELS) by (nonlinear_arith)
        requires o <= 4, w * ht <= MAX_PIXELS;
    let k = y * w + x;
    k * o
}

/// The image bytes of row `r` of pass `p`, with every pixel's bytes put in
/// place; stops at the first pixel that has none.
fn decode_pass_row(
    h: Adam7Header,
    inflated: &[u8],
    row: &[u8],
    p: usize,
    r: usize,
    output: &mut Vec<u8>,
    o: usize,
    palette: Option<&[u8]>,
    transparency: Option<&[u8]>,
    Ghost(unf): Ghost<Seq<u8>>,
) -> (res: Result<()>)
    requires
        header_ok(h),
        p < 7,
        o >= 1,
        o == spec_bpp(out_format(h.color_type, transparency is Some)),
        pass_dims(h, p as nat).0 > 0,
        r < pass_dims(h, p as nat).1,
        pass_unfiltered(h, inflated@, p as nat) == Ok::<Seq<u8>, ErrorKind>(unf),
        row@ == unf.subrange((r * pass_stride(h, p as nat)) as int, (r * pass_stride(h, p as nat) + pass_stride(h, p as nat)) as int),
        row@.len() == pass_stride(h, p as nat),
        old(output)@.len() == h.width * h.height * o,
        image_done(h, inflated@, opt_view(palette), opt_view(transparency), o as nat, old(output)@, p as nat, r as nat, 0),
    ensures
        match res {
            Ok(()) => final(output)@.len() == h.width * h.height * o && image_done(
                h,
                inflated@,
                opt_view(palette),
                opt_view(transparency),
                o as nat,
                final(output)@,
                p as nat,
                r as nat + 1,
                0,
            ),
            Err(e) => e@ == ErrorKind::InvalidData && exists|x: nat, y: nat| x < h.width && y < h.height
                && (#[trigger] image_pixel(h, inflated@, opt_view(palette), opt_view(transparency), x, y)) is Err,
        },
{
    let w = h.width as usize;
    let ht = h.height as usize;
    let (x0, y0, dx, dy) = pass_at(p);
    let pw = extent(w, x0, dx);
    let ghost pal = opt_view(palette);
    let ghost tr = opt_view(transparency);
    let mut c: usize = 0;
    while c < pw
        invariant
            header_ok(h),
            p < 7,
            1 <= o <= 4,
            w == h.width,
            ht == h.height,
            w * ht <= MAX_PIXELS,
            (x0 as nat, y0 as nat, dx as nat, dy as nat) == adam7_pass(p as nat),
            pw == pass_dims(h, p as nat).0,
            r < pass_dims(h, p as nat).1,
            c <= pw,
            row_fits(h, row@, pw as nat),
            row@ == unf.subrange((r * pass_stride(h, p as nat)) as int, (r * pass_stride(h, p as nat) + pass_stride(h, p as nat)) as int),
            pass_unfiltered(h, inflated@, p as nat) == Ok::<Seq<u8>, ErrorKind>(unf),
            o == spec_bpp(out_format(h.color_type, transparency is Some)),
            pal == opt_view(palette),
            tr == opt_view(transparency),
            output@.len() == w * ht * o,
            image_done(h, inflated@, pal, tr, o as nat, output@, p as nat, r as nat, c as nat),
        decreases pw - c,
    {
        let start = pixel_start(p, c, r, w, ht, o);
        proof {
            lemma_image_pixel_at(h, inflated@, pal, tr, p as nat, r as nat, c as nat, unf);
        }
        let v = match pixel_bytes(h, row, c, pw, palette, transparency) {
            Ok(v) => v,
            Err(e) => {
                return Err(e);
            },
        };
        proof {
            lemma_pixel_len(h, row@, c as nat, pal, tr);
        }
        let ghost before = output@;
        put_bytes(output, start, &v);
        proof {
            lemma_done_put(h, inflated@, pal, tr, o as nat, before, output@, p as nat, r as nat, c as nat, v@);
        }
        c += 1;
    }
    proof {
        lemma_done_row_end(h, inflated@, pal, tr, o as nat, output@, p as nat, r as nat);
    }
    Ok(())
}

proof fn lemma_pixel_len(h: Adam7Header, row: Seq<u8>, px: nat, palette: Option<Seq<u8>>, trns: Option<Seq<u8>>)
    requires
        pixel_value(h, row, px, palette, trns) is Ok,
    ensures
        pixel_value(h, row, px, palette, trns)->Ok_0.len() == spec_bpp(out_format(h.color_type, trns is Some)),
{
}

fn put_bytes(out: &mut Vec<u8>, start: usize, v: &Vec<u8>)
    requires
        start + v@.len() <= old(out)@.len(),
    ensures
        final(out)@.len() == old(out)@.len(),
        forall|i: int| 0 <= i < old(out)@.len() ==> #[trigger] final(out)@[i] == if start <= i < start + v@.len() {
            v@[i - start]
        } else {
            old(out)@[i]
        },
{
    let n = out.len();
    let m = v.len();
    let mut j: usize = 0;
    while j < m
        invariant
            start + m <= n,
            m == v@.len(),
            out@.len() == n,
            n == old(out)@.len(),
            j <= m,
            forall|i: int| 0 <= i < n ==> #[trigger] out@[i] == if start <= i < start + j {
                v@[i - start]
            } else {
                old(out)@[i]
            },
        decreases m - j,
    {
        out.set(start + j, v[j]);
        j += 1;
    }
}

proof fn lemma_unfilter_rows_err_kind(filtered: Seq<u8>, rows: nat, stride: nat, bpp: nat)
    ensures
        unfilter_rows(filtered, rows, stride, bpp) is Err ==> unfilter_rows(filtered, rows, stride, bpp)->Err_0 == ErrorKind::InvalidData,
    decreases rows,
{
    if rows > 0 {
        lemma_unfilter_rows_err_kind(filtered, (rows - 1) as nat, stride, bpp);
    }
}

pub proof fn lemma_offset_mono(h: Adam7Header, a: nat, b: nat)
    requires
        a <= b,
    ensures
        pass_offset(h, a) <= pass_offset(h, b),
    decreases b - a,
{
    if a < b {
        lemma_offset_mono(h, a, (b - 1) as nat);
    }
}

/// The size of one pass in the decompressed data, computed wide.
fn pass_bytes(h: Adam7Header, p: usize) -> (n: u64)
    requires
        header_ok(h),
        p < 7,
    ensures
        n == pass_size(h, p as nat),
        n <= 16 * MAX_PIXELS,
{
    let (x0, y0, dx, dy) = pass_at(p);
    let pw = extent(h.width as usize, x0, dx);
    let ph = extent(h.height as usize, y0, dy);
    if pw == 0 || ph == 0 {
        return 0;
    }
    let bits: u64 = (channels_of(h.color_type) as u64) * (h.bit_depth as u64);
    assert(bits <= 64);
    assert(pw as u64 * bits <= 64 * MAX_PIXELS && ph * (pw as u64 * bits + 15) / 8 <= 16 * MAX_PIXELS)
        by (nonlinear_arith)
        requires pw <= h.width, ph <= h.height, h.width * h.height <= MAX_PIXELS, bits <= 64, ph >= 1, pw >= 1;
    let rb: u64 = (pw as u64 * bits + 7) / 8;
    assert((rb + 1) * (ph as u64) <= ph * (pw as u64 * bits + 15) / 8) by (nonlinear_arith)
        requires rb == (pw as u64 * bits + 7) / 8, ph >= 1;
    assert(rb == pass_stride(h, p as nat));
    (rb + 1) * (ph as u64)
}

/// The size of the decompressed data of all seven passes.
pub fn adam7_size(h: Adam7Header) -> (n: u64)
    requires
        header_ok(h),
    ensures
        n == pass_offset(h, 7),
{
    let mut total: u64 = 0;
    let mut p: usize = 0;
    while p < 7
        invariant
            header_ok(h),
            p <= 7,
            total == pass_offset(h, p as nat),
            total <= p * 16 * MAX_PIXELS,
        decreases 7 - p,
    {
        let n = pass_bytes(h, p);
        total = total + n;
        p += 1;
    }
    total
}

/// Reconstructs an interlaced image from its decompressed data: each of the
/// seven passes is unfiltered as an image of its own and its pixels are put
/// in place; samples below eight bits and at sixteen are scaled to eight,
/// palettes and tRNS are applied.
#[verifier::spinoff_prover]
#[verifier::rlimit(40)]
pub fn reconstruct_adam7(
    h: Adam7Header,
    inflated: &[u8],
    palette: Option<&[u8]>,
    transparency: Option<&[u8]>,
) -> (r: Result<VideoFrame>)
    requires
        header_ok(h),
    ensures
        match r {
            Ok(f) => {
                &&& spec_adam7_decode(h, inflated@, opt_view(palette), opt_view(transparency))
                    == Ok::<(PixelFormat, Seq<u8>), ErrorKind>((f.format, f.data@))
                &&& f.wf()
                &&& f.width == h.width
                &&& f.height == h.height
                &&& f.pts is None
            },
            Err(e) => spec_adam7_decode(h, inflated@, opt_view(palette), opt_view(transparency))
                == Err::<(PixelFormat, Seq<u8>), ErrorKind>(e@),
        },
{
    let ghost pal = opt_view(palette);
    let ghost tr = opt_view(transparency);
    let total = adam7_size(h);
    if inflated.len() as u64 != total {
        return Err(MediaError::invalid_data("PNG Adam7 data has the wrong decompressed size"));
    }
    let format = output_format(h.color_type, transparency.is_some());
    let o = format.bytes_per_pixel();
    let w = h.width as usize;
    let ht = h.height as usize;
    assert(w * ht * o <= 4 * MAX_PIXELS) by (nonlinear_arith)
        requires w * ht <= MAX_PIXELS, o <= 4;
    let mut output = crate::bytes_util::zeroed(w * ht * o);
    assert(image_done(h, inflated@, pal, tr, o as nat, output@, 0, 0, 0)) by {
        reveal(image_done);
    }
    let ch = channels_of(h.color_type);
    assert(ch * h.bit_depth <= 64) by (nonlinear_arith)
        requires ch <= 4, h.bit_depth <= 16;
    let bits = ch * (h.bit_depth as usize);
    assert(bits >= 1) by (nonlinear_arith)
        requires bits == ch * h.bit_depth, ch >= 1, h.bit_depth >= 1;
    let fbpp = (bits + 7) / 8;
    let n = inflated.len();
    let mut offset: usize = 0;
    let mut p: usize = 0;
    while p < 7
        invariant
            header_ok(h),
            n == inflated@.len(),
            bits <= 64,
            w * ht <= MAX_PIXELS,
            p <= 7,
            o >= 1,
            o == spec_bpp(format),
            format == out_format(h.color_type, transparency is Some),
            w == h.width,
            ht == h.height,
            bits == bits_per_pixel(h),
            fbpp == filter_bpp(h),
            fbpp >= 1,
            pal == opt_view(palette),
            tr == opt_view(transparency),
            inflated@.len() == pass_offset(h, 7),
            offset == pass_offset(h, p as nat),
            forall|q: nat| q < p ==> (#[trigger] pass_unfiltered(h, inflated@, q)) is Ok,
            output@.len() == w * ht * o,
            image_done(h, inflated@, pal, tr, o as nat, output@, p as nat, 0, 0),
        decreases 7 - p,
    {
        let (x0, y0, dx, dy) = pass_at(p);
        let pw = extent(w, x0, dx);
        let ph = extent(ht, y0, dy);
        let size_wide = pass_bytes(h, p);
        proof {
            lemma_offset_mono(h, (p + 1) as nat, 7);
        }
        let size = size_wide as usize;
        if pw == 0 || ph == 0 {
            proof {
                lemma_done_pass_end(h, inflated@, pal, tr, o as nat, output@, p as nat, 0);
            }
            offset = offset + size;
            p += 1;
            continue;
        }
        assert(pw * bits <= 64 * MAX_PIXELS) by (nonlinear_arith)
            requires pw <= w, w * ht <= MAX_PIXELS, ht >= 1, bits <= 64;
        let rb_wide: u64 = ((pw as u64) * (bits as u64) + 7) / 8;
        assert(rb_wide == pass_stride(h, p as nat));
        assert(rb_wide + 1 <= size_wide) by (nonlinear_arith)
            requires size_wide == (rb_wide + 1) * ph, ph >= 1;
        let rb = rb_wide as usize;
        assert(offset + size <= n);
        let data = vstd::slice::slice_subrange(inflated, offset, offset + size);
        assert(data@ == inflated@.subrange(offset as int, (offset + size) as int));
        let unf = match crate::png::reconstruct_rows(data, ph, rb, fbpp) {
            Ok(u) => u,
            Err(e) => {
                proof {
                    lemma_unfilter_rows_err_kind(data@, ph as nat, rb as nat, fbpp as nat);
                    assert(pass_unfiltered(h, inflated@, p as nat) is Err);
                }
                return Err(e);
            },
        };
        proof {
            assert(data@.len() >= ph * (rb + 1)) by (nonlinear_arith)
                requires data@.len() == (rb + 1) * ph;
            crate::png::lemma_unfilter_rows_len(data@, ph as nat, rb as nat, fbpp as nat);
        }
        let ghost unf_all = unf@;
        assert(w * ht <= MAX_PIXELS);
        let mut r: usize = 0;
        while r < ph
            invariant
                header_ok(h),
                p < 7,
                o >= 1,
                o == spec_bpp(format),
                format == out_format(h.color_type, transparency is Some),
                w == h.width,
                ht == h.height,
                pw == pass_dims(h, p as nat).0,
                ph == pass_dims(h, p as nat).1,
                pw > 0,
                r <= ph,
                pal == opt_view(palette),
                tr == opt_view(transparency),
                pass_unfiltered(h, inflated@, p as nat) == Ok::<Seq<u8>, ErrorKind>(unf@),
                unf@.len() == ph * pass_stride(h, p as nat),
                rb == pass_stride(h, p as nat),
                output@.len() == w * ht * o,
                image_done(h, inflated@, pal, tr, o as nat, output@, p as nat, r as nat, 0),
            decreases ph - r,
        {
            assert(r * rb + rb <= ph * rb) by (nonlinear_arith) requires r < ph;
            assert(unf@.len() == unf.len());
            let row = vstd::slice::slice_subrange(unf.as_slice(), r * rb, r * rb + rb);
            decode_pass_row(h, inflated, row, p, r, &mut output, o, palette, transparency, Ghost(unf@))?;
            r += 1;
        }
        proof {
            lemma_done_pass_end(h, inflated@, pal, tr, o as nat, output@, p as nat, r as nat);
        }
        offset = offset + size;
        p += 1;
    }
    proof {
        reveal(image_done);
        assert forall|i: int| 0 <= i < output@.len() implies #[trigger] output@[i] == image_byte(h, inflated@, pal, tr, o as nat, i) by {
            lemma_index_in_image(i, o as nat, w as nat, ht as nat);
            lemma_pass_covers(col_of(i, o as nat, w as nat), row_of(i, o as nat, w as nat), w as nat, ht as nat);
            assert(written_before(col_of(i, o as nat, w as nat), row_of(i, o as nat, w as nat), 7, 0, 0));
        }
        assert forall|x: nat, y: nat| x < w && y < ht implies (#[trigger] image_pixel(h, inflated@, pal, tr, x, y)) is Ok by {
            lemma_index_of_pixel(x, y, 0, o as nat, w as nat);
            assert((y * w + x) * o < w * ht * o) by (nonlinear_arith) requires x < w, y < ht, o >= 1;
            lemma_pass_covers(x, y, w as nat, ht as nat);
            let i = (y * w + x) * o;
            assert(written_before(col_of(i, o as nat, w as nat), row_of(i, o as nat, w as nat), 7, 0, 0));
        }
        assert(output@ =~= Seq::new(w as nat * ht as nat * o as nat, |i: int| image_byte(h, inflated@, pal, tr, o as nat, i)));
        assert(w * spec_bpp(format) * ht == w * ht * o) by (nonlinear_arith) requires o == spec_bpp(format);
    }
    VideoFrame::from_vec(h.width, h.height, format, output)
}

/// Bytes per unfiltered scanline of a non-interlaced image.
pub open spec fn flat_stride(h: Adam7Header) -> nat {
    ((h.width as nat * bits_per_pixel(h) + 7) / 8) as nat
}

/// The decompressed size of a non-interlaced image: a filter byte and a
/// scanline per row.
pub open spec fn flat_size(h: Adam7Header) -> nat {
    (flat_stride(h) + 1) * (h.height as nat)
}

/// The output bytes of the first `k` pixels, row by row, of the
/// unfiltered scanlines `unf`.
pub open spec fn flat_pixels(
    h: Adam7Header,
    unf: Seq<u8>,
    palette: Option<Seq<u8>>,
    trns: Option<Seq<u8>>,
    k: nat,
) -> core::result::Result<Seq<u8>, ErrorKind>
    decreases k,
{
    if k == 0 {
        Ok(Seq::empty())
    } else {
        match flat_pixels(h, unf, palette, trns, (k - 1) as nat) {
            Err(e) => Err(e),
            Ok(acc) => {
                let idx = (k - 1) as nat;
                let x = idx % (h.width as nat);
                let y = idx / (h.width as nat);
                let rb = flat_stride(h);
                match pixel_value(h, unf.subrange((y * rb) as int, (y * rb + rb) as int), x, palette, trns) {
                    Err(e) => Err(e),
                    Ok(v) => Ok(acc + v),
                }
            },
        }
    }
}

/// What the decoder of a non-interlaced image of any depth makes of the
/// decompressed data: the frame format and pixels, or the first failure
/// (wrong size, an unknown filter type, a missing palette entry).
pub open spec fn spec_flat_decode(
    h: Adam7Header,
    inflated: Seq<u8>,
    palette: Option<Seq<u8>>,
    trns: Option<Seq<u8>>,
) -> core::result::Result<(PixelFormat, Seq<u8>), ErrorKind> {
    if inflated.len() != flat_size(h) {
        Err(ErrorKind::InvalidData)
    } else {
        match unfilter_rows(inflated, h.height as nat, flat_stride(h), filter_bpp(h)) {
            Err(e) => Err(e),
            Ok(unf) => match flat_pixels(h, unf, palette, trns, (h.width * h.height) as nat) {
                Err(e) => Err(e),
                Ok(d) => Ok((out_format(h.color_type, trns is Some), d)),
            },
        }
    }
}

proof fn lemma_flat_pixels_len(h: Adam7Header, unf: Seq<u8>, palette: Option<Seq<u8>>, trns: Option<Seq<u8>>, k: nat)
    requires
        flat_pixels(h, unf, palette, trns, k) is Ok,
    ensures
        flat_pixels(h, unf, palette, trns, k)->Ok_0.len() == k * spec_bpp(out_format(h.color_type, trns is Some)),
    decreases k,
{
    if k > 0 {
        lemma_flat_pixels_len(h, unf, palette, trns, (k - 1) as nat);
        let idx = (k - 1) as nat;
        let x = idx % (h.width as nat);
        let y = idx / (h.width as nat);
        let rb = flat_stride(h);
        lemma_pixel_len(h, unf.subrange((y * rb) as int, (y * rb + rb) as int), x, palette, trns);
        let o = spec_bpp(out_format(h.color_type, trns is Some));
        assert((k - 1) * o + o == k * o) by (nonlinear_arith);
    }
}

proof fn lemma_flat_pixels_err(h: Adam7Header, unf: Seq<u8>, palette: Option<Seq<u8>>, trns: Option<Seq<u8>>, k: nat, m: nat)
    requires
        k <= m,
        flat_pixels(h, unf, palette, trns, k) is Err,
    ensures
        flat_pixels(h, unf, palette, trns, m) == flat_pixels(h, unf, palette, trns, k),
    decreases m,
{
    if m > k {
        lemma_flat_pixels_err(h, unf, palette, trns, k, (m - 1) as nat);
    }
}

/// Reconstructs a non-interlaced image of any standard colour type and bit
/// depth from its decompressed data: the scanlines are unfiltered, samples
/// below eight bits and at sixteen are scaled to eight, palettes and tRNS
/// are applied.
#[verifier::spinoff_prover]
pub fn reconstruct_flat(
    h: Adam7Header,
    inflated: &[u8],
    palette: Option<&[u8]>,
    transparency: Option<&[u8]>,
) -> (r: Result<VideoFrame>)
    requires
        header_ok(h),
    ensures
        match spec_flat_decode(h, inflated@, opt_view(palette), opt_view(transparency)) {
            Ok((fmt, d)) => r matches Ok(f) && f.format == fmt && f.data@ == d && f.wf() && f.width == h.width
                && f.height == h.height && f.pts is None,
            Err(k) => r matches Err(e) && e@ == k,
        },
{
    let ghost pal = opt_view(palette);
    let ghost tr = opt_view(transparency);
    let w = h.width as usize;
    let ht = h.height as usize;
    let ch = channels_of(h.color_type);
    assert(ch * h.bit_depth <= 64) by (nonlinear_arith)
        requires ch <= 4, h.bit_depth <= 16;
    let bits = ch * (h.bit_depth as usize);
    assert(bits >= 1) by (nonlinear_arith)
        requires bits == ch * h.bit_depth, ch >= 1, h.bit_depth >= 1;
    let fbpp = (bits + 7) / 8;
    assert(w as u64 * bits as u64 <= 64 * MAX_PIXELS && ht * (w as u64 * bits as u64 + 15) / 8 <= 16 * MAX_PIXELS)
        by (nonlinear_arith)
        requires w * ht <= MAX_PIXELS, bits <= 64, ht >= 1, w >= 1;
    let rb_wide: u64 = ((w as u64) * (bits as u64) + 7) / 8;
    assert((rb_wide + 1) * (ht as u64) <= ht * (w as u64 * bits as u64 + 15) / 8) by (nonlinear_arith)
        requires rb_wide == (w as u64 * bits as u64 + 7) / 8, ht >= 1;
    let size_wide: u64 = (rb_wide + 1) * (ht as u64);
    assert(rb_wide == flat_stride(h));
    assert(size_wide == flat_size(h));
    if inflated.len() as u64 != size_wide {
        return Err(MediaError::invalid_data("PNG data has the wrong decompressed size"));
    }
    let rb = rb_wide as usize;
    let unf = match crate::png::reconstruct_rows(inflated, ht, rb, fbpp) {
        Ok(u) => u,
        Err(e) => return Err(e),
    };
    proof {
        assert(inflated@.len() >= ht * (rb + 1)) by (nonlinear_arith)
            requires inflated@.len() == (rb + 1) * ht;
        crate::png::lemma_unfilter_rows_len(inflated@, ht as nat, rb as nat, fbpp as nat);
    }
    let format = output_format(h.color_type, transparency.is_some());
    let o = format.bytes_per_pixel();
    assert(w * ht * o <= 4 * MAX_PIXELS) by (nonlinear_arith)
        requires w * ht <= MAX_PIXELS, o <= 4;
    let mut output: Vec<u8> = Vec::new();
    let mut y: usize = 0;
    while y < ht
        invariant
            header_ok(h),
            w == h.width,
            ht == h.height,
            w * ht <= MAX_PIXELS,
            y <= ht,
            rb == flat_stride(h),
            unf@.len() == ht * rb,
            unfilter_rows(inflated@, ht as nat, rb as nat, fbpp as nat) == Ok::<Seq<u8>, ErrorKind>(unf@),
            inflated@.len() == flat_size(h),
            fbpp == filter_bpp(h),
            bits == bits_per_pixel(h),
            pal == opt_view(palette),
            tr == opt_view(transparency),
            o == spec_bpp(format),
            format == out_format(h.color_type, transparency is Some),
            flat_pixels(h, unf@, pal, tr, (y * w) as nat) == Ok::<Seq<u8>, ErrorKind>(output@),
        decreases ht - y,
    {
        assert(y * rb + rb <= ht * rb) by (nonlinear_arith) requires y < ht;
        assert(unf@.len() == unf.len());
        let row = vstd::slice::slice_subrange(unf.as_slice(), y * rb, y * rb + rb);
        assert((y + 1) * w <= ht * w) by (nonlinear_arith) requires y < ht;
        assert((y + 1) * w == y * w + w) by (nonlinear_arith);
        let mut x: usize = 0;
        while x < w
            invariant
                header_ok(h),
                w == h.width,
                ht == h.height,
                y < ht,
                x <= w,
                (y + 1) * w <= ht * w,
                w * ht <= MAX_PIXELS,
                rb == flat_stride(h),
                row@ == unf@.subrange((y * rb) as int, (y * rb + rb) as int),
                row_fits(h, row@, w as nat),
                unfilter_rows(inflated@, ht as nat, rb as nat, fbpp as nat) == Ok::<Seq<u8>, ErrorKind>(unf@),
                inflated@.len() == flat_size(h),
                fbpp == filter_bpp(h),
                pal == opt_view(palette),
                tr == opt_view(transparency),
                flat_pixels(h, unf@, pal, tr, (y * w + x) as nat) == Ok::<Seq<u8>, ErrorKind>(output@),
            decreases w - x,
        {
            let ghost k = (y * w + x) as nat;
            proof {
                assert(k % (w as nat) == x && k / (w as nat) == y) by (nonlinear_arith)
                    requires k == y * w + x, x < w;
                assert(k + 1 <= w * ht) by (nonlinear_arith)
                    requires k == y * w + x, x < w, (y + 1) * w <= ht * w;
            }
            let v = match pixel_bytes(h, row, x, w, palette, transparency) {
                Ok(v) => v,
                Err(e) => {
                    proof {
                        lemma_flat_pixels_err(h, unf@, pal, tr, k + 1, (w * ht) as nat);
                    }
                    return Err(e);
                },
            };
            push_slice(&mut output, v.as_slice());
            x += 1;
        }
        y += 1;
    }
    proof {
        assert(y * w == w * ht) by (nonlinear_arith) requires y == ht;
        lemma_flat_pixels_len(h, unf@, pal, tr, (w * ht) as nat);
        assert(w * spec_bpp(format) * ht == (w * ht) * o) by (nonlinear_arith) requires o == spec_bpp(format);
    }
    match VideoFrame::from_vec(h.width, h.height, format, output) {
        Ok(f) => Ok(f),
        Err(e) => Err(e),
    }
}

/// What the decoder for interlace method `il` (0 or 1) makes of a PNG file
/// of any standard colour type and depth: its header, the frame format and
/// the pixels, or the first failure: the chunk rules, a decompressed size
/// that does not fit in memory, the zlib stream bounded by the size the
/// header calls for, then the reconstruction.
pub open spec fn spec_decode_png_with(s: Seq<u8>, il: u8) -> core::result::Result<(Adam7Header, PixelFormat, Seq<u8>), ErrorKind> {
    match spec_adam7_chunks(s, il) {
        Err(k) => Err(k),
        Ok((h, st)) => {
            let size = if il == 1 { pass_offset(h, 7) } else { flat_size(h) };
            if size > usize::MAX {
                Err(ErrorKind::Overflow)
            } else {
                match crate::zlib::spec_decompress(st.idat, size) {
                    Err(k) => Err(k),
                    Ok(inflated) => match (if il == 1 {
                        spec_adam7_decode(h, inflated, st.palette, st.trns)
                    } else {
                        spec_flat_decode(h, inflated, st.palette, st.trns)
                    }) {
                        Err(k) => Err(k),
                        Ok((f, d)) => Ok((h, f, d)),
                    },
                }
            }
        },
    }
}

/// Decodes an Adam7-interlaced PNG of any standard colour type and bit
/// depth to 8-bit grey, grey+alpha, RGB or RGBA.
pub fn decode_png_adam7(bytes: &[u8]) -> (r: Result<VideoFrame>)
    ensures
        match spec_decode_png_with(bytes@, 1) {
            Ok((h, fmt, d)) => r matches Ok(f) && f.width == h.width && f.height == h.height && f.format == fmt
                && f.data@ == d && f.wf() && f.pts is None,
            Err(k) => r matches Err(e) && e@ == k,
        },
{
    let parsed = match parse_adam7(bytes, 1) {
        Ok(p) => p,
        Err(e) => return Err(e),
    };
    let total = adam7_size(parsed.header);
    if total > usize::MAX as u64 {
        return Err(MediaError::overflow("PNG Adam7 inflated size overflow"));
    }
    let inflated = match zlib::decompress(parsed.idat.as_slice(), total as usize) {
        Ok(v) => v,
        Err(e) => return Err(e),
    };
    reconstruct_adam7(parsed.header, inflated.as_slice(), parsed.palette, parsed.transparency)
}

/// Decodes a non-interlaced PNG of any standard colour type and bit depth
/// to 8-bit grey, grey+alpha, RGB or RGBA.
pub fn decode_png_flat(bytes: &[u8]) -> (r: Result<VideoFrame>)
    ensures
        match spec_decode_png_with(bytes@, 0) {
            Ok((h, fmt, d)) => r matches Ok(f) && f.width == h.width && f.height == h.height && f.format == fmt
                && f.data@ == d && f.wf() && f.pts is None,
            Err(k) => r matches Err(e) && e@ == k,
        },
{
    let parsed = match parse_adam7(bytes, 0) {
        Ok(p) => p,
        Err(e) => return Err(e),
    };
    let h = parsed.header;
    let ch = channels_of(h.color_type) as u64;
    let w = h.width as u64;
    let ht = h.height as u64;
    assert(ch * (h.bit_depth as u64) <= 64) by (nonlinear_arith)
        requires ch <= 4, h.bit_depth <= 16;
    let bits: u64 = ch * (h.bit_depth as u64);
    assert(w * bits <= 64 * MAX_PIXELS && ht * (w * bits + 15) / 8 <= 16 * MAX_PIXELS)
        by (nonlinear_arith)
        requires w * ht <= MAX_PIXELS, bits <= 64, ht >= 1, w >= 1;
    let rb: u64 = (w * bits + 7) / 8;
    assert((rb + 1) * ht <= ht * (w * bits + 15) / 8) by (nonlinear_arith)
        requires rb == (w * bits + 7) / 8, ht >= 1;
    let total: u64 = (rb + 1) * ht;
    assert(total == flat_size(h));
    if total > usize::MAX as u64 {
        return Err(MediaError::overflow("PNG inflated size overflow"));
    }
    let inflated = match zlib::decompress(parsed.idat.as_slice(), total as usize) {
        Ok(v) => v,
        Err(e) => return Err(e),
    };
    reconstruct_flat(h, inflated.as_slice(), parsed.palette, parsed.transparency)
}

/// An indexed pixel of any depth takes the palette entry its sample names
/// and, with tRNS, the alpha tRNS lists for that entry, or full opacity
/// (255) for an entry past the end of tRNS.
pub proof fn lemma_indexed_pixel_alpha(h: Adam7Header, row: Seq<u8>, px: nat, palette: Seq<u8>, trns: Option<Seq<u8>>)
    requires
        h.color_type == 3,
        pixel_value(h, row, px, Some(palette), trns) is Ok,
    ensures
        ({
            let e = sample_at(row, px, h.bit_depth, 1, 0) as int;
            let v = pixel_value(h, row, px, Some(palette), trns)->Ok_0;
            &&& 3 * e + 3 <= palette.len()
            &&& v.len() == if trns is Some { 4int } else { 3int }
            &&& v[0] == palette[3 * e] && v[1] == palette[3 * e + 1] && v[2] == palette[3 * e + 2]
            &&& trns matches Some(t) ==> v[3] == if e < t.len() { t[e] } else { 255u8 }
        }),
{
}

/// Rounding `n * 255 / m` to the nearest integer, ties upward.
proof fn lemma_round_div(v: nat, m: nat, r: nat)
    requires
        1 <= m,
        v <= m,
        r == (v * 255 + m / 2) / m,
    ensures
        r <= 255,
        2 * r * m <= 2 * v * 255 + m,
        2 * v * 255 < 2 * r * m + m + 1,
{
    let n = v * 255 + m / 2;
    assert(r * m <= n && n < r * m + m) by (nonlinear_arith)
        requires r == n / m, m >= 1;
    assert(r <= 255) by (nonlinear_arith)
        requires r * m <= v * 255 + m / 2, v <= m, m >= 1;
    assert(2 * r * m <= 2 * v * 255 + m) by (nonlinear_arith)
        requires r * m <= v * 255 + m / 2;
    assert(2 * v * 255 < 2 * r * m + m + 1) by (nonlinear_arith)
        requires v * 255 + m / 2 < r * m + m;
}

/// A PNG sample of bit depth `d` widens to the 8-bit level nearest
/// `s * 255 / (2^d - 1)` (ties upward): 0 stays 0 and the largest sample
/// becomes 255.
pub proof fn lemma_scale_nearest(s: nat, d: u8)
    requires
        d == 1 || d == 2 || d == 4 || d == 8 || d == 16,
        s < vstd::arithmetic::power2::pow2(d as nat),
    ensures
        ({
            let m = (vstd::arithmetic::power2::pow2(d as nat) - 1) as nat;
            let r = scale_spec(s, d) as nat;
            &&& 2 * r * m <= 2 * s * 255 + m
            &&& 2 * s * 255 < 2 * r * m + m + 1
        }),
{
    vstd::arithmetic::power2::lemma2_to64();
    let m = (vstd::arithmetic::power2::pow2(d as nat) - 1) as nat;
    if d == 8 {
        assert(scale_spec(s, d) as nat == s);
    } else if d == 16 {
        lemma_round_div(s, 65535, (s * 255 + 32767) / 65535);
    } else {
        reveal_with_fuel(pow2_small, 5);
        let mx = (pow2_small(d as nat) - 1) as nat;
        assert(mx == m);
        lemma_round_div(s, mx, (s * 255 + mx / 2) / mx);
    }
}

/// Bit `j` of a row, counting from the most significant bit of its first
/// byte.
pub open spec fn row_bit(row: Seq<u8>, j: nat) -> nat {
    (row[(j / 8) as int] as nat / vstd::arithmetic::power2::pow2((7 - j % 8) as nat)) % 2
}

/// A bit of a number survives taking it modulo a larger power of two.
proof fn lemma_mod_keeps_bit(x: nat, u: nat, m: nat)
    requires
        u >= 1,
        m >= 1,
    ensures
        ((x % (u * 2 * m)) / u) % 2 == (x / u) % 2,
{
    let dd = u * 2 * m;
    assert(dd >= 1) by (nonlinear_arith)
        requires u >= 1, m >= 1, dd == u * 2 * m;
    let q = x / dd;
    let r = x % dd;
    vstd::arithmetic::div_mod::lemma_fundamental_div_mod(x as int, dd as int);
    vstd::arithmetic::div_mod::lemma_fundamental_div_mod(r as int, u as int);
    vstd::arithmetic::div_mod::lemma_mod_pos_bound(r as int, u as int);
    let k = 2 * m * q + r / u;
    assert(x == u * k + r % u) by (nonlinear_arith)
        requires x == dd * q + r, dd == u * 2 * m, r == u * (r / u) + r % u, k == 2 * m * q + r / u;
    vstd::arithmetic::div_mod::lemma_fundamental_div_mod_converse(x as int, u as int, k as int, (r % u) as int);
    vstd::arithmetic::div_mod::lemma_mod_multiples_vanish((m * q) as int, (r / u) as int, 2);
    assert(2 * (m * q) + r / u == k) by (nonlinear_arith)
        requires k == 2 * m * q + r / u;
}

/// Bit `u` of the `d`-bit field that starts `s` bits up is bit `s + u` of
/// the byte.
proof fn lemma_byte_bits(b: u8, s: nat, d: nat, u: nat)
    requires
        u < d,
    ensures
        ((b as nat / pow2_small(s)) % pow2_small(d) / pow2_small(u)) % 2 == (b as nat / pow2_small(s + u)) % 2,
{
    crate::jpeg_decode::lemma_pow2_small_is_pow2(s);
    crate::jpeg_decode::lemma_pow2_small_is_pow2(d);
    crate::jpeg_decode::lemma_pow2_small_is_pow2(u);
    crate::jpeg_decode::lemma_pow2_small_is_pow2(s + u);
    crate::jpeg_decode::lemma_pow2_small_is_pow2((d - u - 1) as nat);
    vstd::arithmetic::power2::lemma_pow2_pos(s);
    vstd::arithmetic::power2::lemma_pow2_pos(u);
    vstd::arithmetic::power2::lemma_pow2_pos((d - u - 1) as nat);
    vstd::arithmetic::power2::lemma_pow2_adds(s, u);
    vstd::arithmetic::power2::lemma_pow2_adds(u, 1);
    vstd::arithmetic::power2::lemma_pow2_adds(u + 1, (d - u - 1) as nat);
    vstd::arithmetic::power2::lemma2_to64();
    let ps = pow2_small(s);
    let pu = pow2_small(u);
    let m = pow2_small((d - u - 1) as nat);
    assert(pow2_small(d) == pu * 2 * m);
    vstd::arithmetic::div_mod::lemma_div_denominator(b as int, ps as int, pu as int);
    lemma_mod_keeps_bit(b as nat / ps, pu, m);
}

/// Below bit depth 8, samples are packed most significant bit first: bit
/// `t` (from the top) of the sample of pixel `px` is bit `px * d + t` of
/// the row.
pub proof fn lemma_packed_sample_bits(row: Seq<u8>, px: nat, d: u8, ch: nat, c: nat, t: nat)
    requires
        d == 1 || d == 2 || d == 4,
        t < d,
        (px * d) / 8 < row.len(),
    ensures
        (sample_at(row, px, d, ch, c) / vstd::arithmetic::power2::pow2((d - 1 - t) as nat)) % 2 == row_bit(row, (px * d + t) as nat),
{
    let j: nat = px * (d as nat);
    let o: nat = j % 8;
    let q: nat = j / 8;
    if d == 1 {
        assert(o % 1 == 0);
    } else if d == 2 {
        assert(o % 2 == 0) by (nonlinear_arith)
            requires o == (px * 2) % 8;
    } else {
        assert(o % 4 == 0) by (nonlinear_arith)
            requires o == (px * 4) % 8;
    }
    assert(o + d <= 8);
    assert((j + t) / 8 == q && (j + t) % 8 == o + t) by (nonlinear_arith)
        requires o == j % 8, q == j / 8, o + t < 8;
    lemma_byte_bits(row[q as int], (8 - d - o) as nat, d as nat, (d - 1 - t) as nat);
    assert((8 - d - o) + (d - 1 - t) == 7 - o - t);
    crate::jpeg_decode::lemma_pow2_small_is_pow2((d - 1 - t) as nat);
    crate::jpeg_decode::lemma_pow2_small_is_pow2((7 - o - t) as nat);
}

/// With a tRNS colour key, a grey or RGB pixel is fully transparent (alpha
/// 0) exactly when its full-depth samples equal the key, stored big-endian
/// two bytes per sample, and fully opaque (255) otherwise; the colour
/// samples are kept.
pub proof fn lemma_color_key_alpha(h: Adam7Header, row: Seq<u8>, px: nat, t: Seq<u8>)
    requires
        h.color_type == 0 || h.color_type == 2,
        pixel_value(h, row, px, None, Some(t)) is Ok,
    ensures
        ({
            let ch = channels(h.color_type);
            let v = pixel_value(h, row, px, None, Some(t))->Ok_0;
            let key = |i: nat| 256 * t[2 * i as int] as nat + t[2 * i as int + 1] as nat;
            let keyed = forall|i: nat| i < ch ==> #[trigger] sample_at(row, px, h.bit_depth, ch, i) == key(i);
            &&& v.len() == ch + 1
            &&& forall|i: nat| i < ch ==> v[i as int] == scale_spec(#[trigger] sample_at(row, px, h.bit_depth, ch, i), h.bit_depth)
            &&& v[ch as int] == if keyed { 0u8 } else { 255u8 }
        }),
{
    let ch = channels(h.color_type);
    let key = |i: nat| 256 * t[2 * i as int] as nat + t[2 * i as int + 1] as nat;
    let keyed = forall|i: nat| i < ch ==> #[trigger] sample_at(row, px, h.bit_depth, ch, i) == key(i);
    if h.color_type == 0 {
        if !keyed {
            let i = choose|i: nat| !(i < ch ==> #[trigger] sample_at(row, px, h.bit_depth, ch, i) == key(i));
            assert(i == 0);
        }
    } else {
        if !keyed {
            let i = choose|i: nat| !(i < ch ==> #[trigger] sample_at(row, px, h.bit_depth, ch, i) == key(i));
            assert(i == 0 || i == 1 || i == 2);
        }
        let v = pixel_value(h, row, px, None, Some(t))->Ok_0;
        assert forall|i: nat| i < ch implies v[i as int] == scale_spec(#[trigger] sample_at(row, px, h.bit_depth, ch, i), h.bit_depth) by {
            assert(i == 0 || i == 1 || i == 2);
        }
    }
}

} // verus!

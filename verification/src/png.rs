use vstd::prelude::*;

use crate::byteio::be_value;
use crate::bytes_util::{be32_at, fourcc_at, push_be32, push_slice, read_be32, starts_with};
use crate::checksum::spec_adler32;
use crate::checksum::{crc32, spec_crc32};
use crate::error::{ErrorKind, MediaError, Result};
use crate::png_filter::{unfilter_row, unfilter_spec};
use crate::video::{spec_bpp, PixelFormat, VideoFrame};
use crate::zlib;
use crate::zlib::{spec_compress_stored, zlib_header_error};

verus! {

/// The largest pixel count the decoder accepts.
pub const MAX_PIXELS: u64 = 268_435_456;

/// IDAT payloads are split into chunks of at most this many bytes.
pub const IDAT_CHUNK_SIZE: usize = 1048576;

pub open spec fn png_signature() -> Seq<u8> {
    seq![137u8, 80u8, 78u8, 71u8, 13u8, 10u8, 26u8, 10u8]
}

pub fn signature() -> (v: Vec<u8>)
    ensures
        v@ == png_signature(),
{
    let v: Vec<u8> = vec![137, 80, 78, 71, 13, 10, 26, 10];
    assert(v@ =~= png_signature());
    v
}

pub fn probe_png(bytes: &[u8]) -> (score: u8)
    ensures
        score == if png_signature().len() <= bytes@.len() && bytes@.subrange(0, 8) == png_signature() {
            100u8
        } else {
            0u8
        },
{
    let sig = signature();
    if starts_with(bytes, sig.as_slice()) {
        100
    } else {
        0
    }
}

/// The image header chunk.
#[derive(Debug, Clone, Copy, PartialEq, Eq, Structural)]
pub struct Ihdr {
    pub width: u32,
    pub height: u32,
    pub bit_depth: u8,
    pub color_type: u8,
    pub compression_method: u8,
    pub filter_method: u8,
    pub interlace_method: u8,
}

/// What the decoder makes of an IHDR payload: non-zero dimensions of at most
/// `MAX_PIXELS` pixels, bit depth 8, colour type 0, 2, 3, 4 or 6, methods 0,
/// no interlacing.
pub open spec fn spec_parse_ihdr(d: Seq<u8>) -> core::result::Result<Ihdr, ErrorKind> {
    if d.len() != 13 {
        Err(ErrorKind::InvalidData)
    } else {
        let w = be32_at(d, 0);
        let h = be32_at(d, 4);
        if w == 0 || h == 0 {
            Err(ErrorKind::InvalidData)
        } else if w * h > MAX_PIXELS {
            Err(ErrorKind::Unsupported)
        } else if d[8] != 8 {
            Err(ErrorKind::Unsupported)
        } else if !(d[9] == 0 || d[9] == 2 || d[9] == 3 || d[9] == 4 || d[9] == 6) {
            Err(ErrorKind::Unsupported)
        } else if d[10] != 0 || d[11] != 0 || d[12] != 0 {
            Err(ErrorKind::Unsupported)
        } else {
            Ok(
                Ihdr {
                    width: w as u32,
                    height: h as u32,
                    bit_depth: d[8],
                    color_type: d[9],
                    compression_method: d[10],
                    filter_method: d[11],
                    interlace_method: d[12],
                },
            )
        }
    }
}

/// A header the scanline decoder can work with.
pub open spec fn ihdr_ok(h: Ihdr) -> bool {
    &&& h.width > 0
    &&& h.height > 0
    &&& h.width * h.height <= MAX_PIXELS
    &&& h.bit_depth == 8
    &&& (h.color_type == 0 || h.color_type == 2 || h.color_type == 3 || h.color_type == 4 || h.color_type == 6)
}

fn parse_ihdr(data: &[u8]) -> (r: Result<Ihdr>)
    ensures
        match r {
            Ok(h) => spec_parse_ihdr(data@) == Ok::<Ihdr, ErrorKind>(h) && ihdr_ok(h),
            Err(e) => spec_parse_ihdr(data@) == Err::<Ihdr, ErrorKind>(e@),
        },
{
    if data.len() != 13 {
        return Err(MediaError::invalid_data("PNG IHDR length must be 13 bytes"));
    }
    let width = read_be32(data, 0);
    let height = read_be32(data, 4);
    if width == 0 || height == 0 {
        return Err(MediaError::invalid_data("PNG dimensions must be non-zero"));
    }
    assert((width as u64) * (height as u64) <= 0xFFFF_FFFFu64 * 0xFFFF_FFFFu64) by (nonlinear_arith);
    let pixels = (width as u64) * (height as u64);
    if pixels > MAX_PIXELS {
        return Err(MediaError::unsupported("PNG image exceeds the pixel limit"));
    }
    if data[8] != 8 {
        return Err(MediaError::unsupported("PNG bit depth is not implemented yet"));
    }
    let color_type = data[9];
    if !(color_type == 0 || color_type == 2 || color_type == 3 || color_type == 4 || color_type == 6) {
        return Err(MediaError::unsupported("PNG color type is not implemented yet"));
    }
    if data[10] != 0 {
        return Err(MediaError::unsupported("unsupported PNG compression method"));
    }
    if data[11] != 0 {
        return Err(MediaError::unsupported("unsupported PNG filter method"));
    }
    if data[12] != 0 {
        return Err(MediaError::unsupported("Adam7-interlaced PNG is not implemented yet"));
    }
    Ok(
        Ihdr {
            width,
            height,
            bit_depth: data[8],
            color_type,
            compression_method: data[10],
            filter_method: data[11],
            interlace_method: data[12],
        },
    )
}

/// Bytes per pixel of a direct colour type (one index byte for type 3).
pub open spec fn color_bpp(color_type: u8) -> nat {
    if color_type == 2 {
        3
    } else if color_type == 4 {
        2
    } else if color_type == 6 {
        4
    } else {
        1
    }
}

/// The frame format a direct colour type decodes to.
pub open spec fn color_format(color_type: u8) -> PixelFormat {
    if color_type == 2 {
        PixelFormat::Rgb24
    } else if color_type == 4 {
        PixelFormat::GrayAlpha8
    } else if color_type == 6 {
        PixelFormat::Rgba32
    } else {
        PixelFormat::Gray8
    }
}

/// The first `rows` scanlines of `filtered` reconstructed, each stored as a
/// filter byte and `stride` bytes; the row above the first is all zeros.
pub open spec fn unfilter_rows(filtered: Seq<u8>, rows: nat, stride: nat, bpp: nat) -> core::result::Result<Seq<u8>, ErrorKind>
    decreases rows,
{
    if rows == 0 {
        Ok(Seq::empty())
    } else {
        match unfilter_rows(filtered, (rows - 1) as nat, stride, bpp) {
            Err(k) => Err(k),
            Ok(done) => {
                let r = rows - 1;
                let start = r * (stride + 1);
                let filter = filtered[start];
                let raw = filtered.subrange(start + 1, start + 1 + stride);
                let prev = if r == 0 {
                    Seq::new(stride, |_i: int| 0u8)
                } else {
                    done.subrange((r - 1) * stride, r * stride)
                };
                if filter > 4 && stride > 0 {
                    Err(ErrorKind::InvalidData)
                } else {
                    Ok(done + unfilter_spec(filter, raw, prev, bpp))
                }
            },
        }
    }
}

/// Palette indices turned into RGB (and alpha from tRNS, 255 past its end).
pub open spec fn expand_indexed(indices: Seq<u8>, palette: Seq<u8>, trns: Option<Seq<u8>>) -> core::result::Result<Seq<u8>, ErrorKind>
    decreases indices.len(),
{
    if indices.len() == 0 {
        Ok(Seq::empty())
    } else {
        match expand_indexed(indices.drop_last(), palette, trns) {
            Err(k) => Err(k),
            Ok(done) => {
                let e = indices.last() as int;
                if e >= palette.len() / 3 {
                    Err(ErrorKind::InvalidData)
                } else {
                    let rgb = palette.subrange(3 * e, 3 * e + 3);
                    match trns {
                        Some(t) => Ok(done + rgb + seq![if e < t.len() { t[e] } else { 255u8 }]),
                        None => Ok(done + rgb),
                    }
                }
            },
        }
    }
}

/// The frame format and pixels decoded from the decompressed scanlines, or
/// the first error.
pub open spec fn spec_reconstruct(
    h: Ihdr,
    filtered: Seq<u8>,
    palette: Option<Seq<u8>>,
    trns: Option<Seq<u8>>,
) -> core::result::Result<(PixelFormat, Seq<u8>), ErrorKind> {
    let w = h.width as nat;
    let rows = h.height as nat;
    if h.color_type == 3 {
        match palette {
            None => Err(ErrorKind::InvalidData),
            Some(p) => if filtered.len() != (w + 1) * rows {
                Err(ErrorKind::InvalidData)
            } else {
                match unfilter_rows(filtered, rows, w, 1) {
                    Err(k) => Err(k),
                    Ok(indices) => match expand_indexed(indices, p, trns) {
                        Err(k) => Err(k),
                        Ok(px) => Ok((if trns is Some { PixelFormat::Rgba32 } else { PixelFormat::Rgb24 }, px)),
                    },
                }
            },
        }
    } else {
        let bpp = color_bpp(h.color_type);
        let stride = w * bpp;
        if filtered.len() != (stride + 1) * rows {
            Err(ErrorKind::InvalidData)
        } else {
            match unfilter_rows(filtered, rows, stride, bpp) {
                Err(k) => Err(k),
                Ok(px) => Ok((color_format(h.color_type), px)),
            }
        }
    }
}

pub(crate) proof fn lemma_unfilter_rows_len(filtered: Seq<u8>, rows: nat, stride: nat, bpp: nat)
    requires
        unfilter_rows(filtered, rows, stride, bpp) is Ok,
        filtered.len() >= rows * (stride + 1),
    ensures
        unfilter_rows(filtered, rows, stride, bpp)->Ok_0.len() == rows * stride,
    decreases rows,
{
    if rows == 0 {
        assert(rows * stride == 0);
    } else {
        assert(filtered.len() >= (rows - 1) * (stride + 1)) by (nonlinear_arith)
            requires filtered.len() >= rows * (stride + 1), rows >= 1;
        lemma_unfilter_rows_len(filtered, (rows - 1) as nat, stride, bpp);
        let r = rows - 1;
        assert(r * (stride + 1) + 1 + stride <= filtered.len()) by (nonlinear_arith)
            requires filtered.len() >= rows * (stride + 1), r == rows - 1;
        assert(r * (stride + 1) >= 0) by (nonlinear_arith)
            requires r >= 0;
        let start = r * (stride + 1);
        let raw = filtered.subrange(start + 1, start + 1 + stride);
        assert(raw.len() == stride);
        let done = unfilter_rows(filtered, (rows - 1) as nat, stride, bpp)->Ok_0;
        let prev = if r == 0 {
            Seq::new(stride, |_i: int| 0u8)
        } else {
            done.subrange((r - 1) * stride, r * stride)
        };
        crate::png_filter::lemma_unfilter_len(filtered[start], raw, prev, bpp);
        assert(unfilter_rows(filtered, rows, stride, bpp) == Ok::<Seq<u8>, ErrorKind>(done + unfilter_spec(filtered[start], raw, prev, bpp)));
        assert(rows * stride == r * stride + stride) by (nonlinear_arith)
            requires r == rows - 1;
    }
}

proof fn lemma_unfilter_rows_err(filtered: Seq<u8>, k: nat, m: nat, stride: nat, bpp: nat)
    requires
        k <= m,
        unfilter_rows(filtered, k, stride, bpp) is Err,
    ensures
        unfilter_rows(filtered, m, stride, bpp) == unfilter_rows(filtered, k, stride, bpp),
    decreases m - k,
{
    if k < m {
        lemma_unfilter_rows_err(filtered, k, (m - 1) as nat, stride, bpp);
    }
}

pub(crate) fn reconstruct_rows(filtered: &[u8], rows: usize, stride: usize, bpp: usize) -> (r: Result<Vec<u8>>)
    requires
        bpp >= 1,
        filtered@.len() == (stride + 1) * rows,
    ensures
        match r {
            Ok(px) => unfilter_rows(filtered@, rows as nat, stride as nat, bpp as nat) == Ok::<Seq<u8>, ErrorKind>(px@),
            Err(e) => unfilter_rows(filtered@, rows as nat, stride as nat, bpp as nat) == Err::<Seq<u8>, ErrorKind>(e@),
        },
{
    let mut pixels: Vec<u8> = Vec::new();
    let zeros = crate::bytes_util::zeroed(stride);
    let n = filtered.len();
    let mut row: usize = 0;
    while row < rows
        invariant
            bpp >= 1,
            n == filtered@.len(),
            filtered@.len() == (stride + 1) * rows,
            zeros@ == Seq::new(stride as nat, |_i: int| 0u8),
            row <= rows,
            unfilter_rows(filtered@, row as nat, stride as nat, bpp as nat) == Ok::<Seq<u8>, ErrorKind>(pixels@),
            pixels@.len() == row * stride,
        decreases rows - row,
    {
        assert((row + 1) * (stride + 1) <= (stride + 1) * rows) by (nonlinear_arith)
            requires row < rows;
        assert(row * stride <= (stride + 1) * rows) by (nonlinear_arith)
            requires row < rows;
        assert((row + 1) * (stride + 1) == row * (stride + 1) + stride + 1) by (nonlinear_arith);
        let start = row * (stride + 1);
        let filter = filtered[start];
        let raw = vstd::slice::slice_subrange(filtered, start + 1, start + 1 + stride);
        let ghost done = pixels@;
        let out = if row == 0 {
            unfilter_row(filter, raw, zeros.as_slice(), bpp)
        } else {
            assert(row * stride == (row - 1) * stride + stride) by (nonlinear_arith)
                requires row >= 1;
            let prev = vstd::slice::slice_subrange(pixels.as_slice(), (row - 1) * stride, row * stride);
            unfilter_row(filter, raw, prev, bpp)
        };
        let out = match out {
            Ok(v) => v,
            Err(e) => {
                proof {
                    lemma_unfilter_rows_err(filtered@, (row + 1) as nat, rows as nat, stride as nat, bpp as nat);
                }
                return Err(e);
            },
        };
        push_slice(&mut pixels, out.as_slice());
        proof {
            assert((row + 1) * stride == row * stride + stride) by (nonlinear_arith);
        }
        row += 1;
    }
    Ok(pixels)
}

proof fn lemma_expand_err(indices: Seq<u8>, k: int, palette: Seq<u8>, trns: Option<Seq<u8>>)
    requires
        0 <= k <= indices.len(),
        expand_indexed(indices.subrange(0, k), palette, trns) is Err,
    ensures
        expand_indexed(indices, palette, trns) == expand_indexed(indices.subrange(0, k), palette, trns),
    decreases indices.len() - k,
{
    if k < indices.len() {
        let next = indices.subrange(0, k + 1);
        assert(next.drop_last() =~= indices.subrange(0, k));
        lemma_expand_err(indices, k + 1, palette, trns);
    } else {
        assert(indices.subrange(0, k) =~= indices);
    }
}

fn expand_palette(indices: &[u8], palette: &[u8], transparency: Option<&[u8]>) -> (r: Result<Vec<u8>>)
    ensures
        match r {
            Ok(px) => expand_indexed(indices@, palette@, match transparency {
                Some(t) => Some(t@),
                None => None,
            }) == Ok::<Seq<u8>, ErrorKind>(px@),
            Err(e) => expand_indexed(indices@, palette@, match transparency {
                Some(t) => Some(t@),
                None => None,
            }) == Err::<Seq<u8>, ErrorKind>(e@),
        },
{
    let ghost trns = match transparency {
        Some(t) => Some(t@),
        None => None,
    };
    let entries = palette.len() / 3;
    let mut output: Vec<u8> = Vec::new();
    let mut i: usize = 0;
    proof {
        assert(indices@.subrange(0, 0) =~= Seq::<u8>::empty());
    }
    while i < indices.len()
        invariant
            i <= indices@.len(),
            entries == palette@.len() / 3,
            trns == match transparency {
                Some(t) => Some(t@),
                None => None::<Seq<u8>>,
            },
            expand_indexed(indices@.subrange(0, i as int), palette@, trns) == Ok::<Seq<u8>, ErrorKind>(output@),
        decreases indices@.len() - i,
    {
        let ghost prefix = indices@.subrange(0, i + 1);
        assert(prefix.drop_last() =~= indices@.subrange(0, i as int));
        assert(prefix.last() == indices@[i as int]);
        let entry = indices[i] as usize;
        if entry >= entries {
            proof {
                lemma_expand_err(indices@, i + 1, palette@, trns);
            }
            return Err(MediaError::invalid_data("PNG palette index exceeds PLTE entry count"));
        }
        let rgb = vstd::slice::slice_subrange(palette, 3 * entry, 3 * entry + 3);
        let ghost before = output@;
        push_slice(&mut output, rgb);
        match transparency {
            Some(alpha) => {
                let a = if entry < alpha.len() {
                    alpha[entry]
                } else {
                    255
                };
                output.push(a);
                assert(output@ =~= before + rgb@ + seq![a]);
            },
            None => {},
        }
        i += 1;
    }
    proof {
        assert(indices@.subrange(0, i as int) =~= indices@);
    }
    Ok(output)
}

/// Rebuilds the frame from decompressed scanlines: direct colour types are
/// unfiltered as they are; indexed images are unfiltered to palette indices
/// and expanded to RGB, or RGBA when a tRNS chunk is present.
pub fn reconstruct_scanlines(
    header: Ihdr,
    filtered: &[u8],
    palette: Option<&[u8]>,
    transparency: Option<&[u8]>,
) -> (r: Result<VideoFrame>)
    requires
        ihdr_ok(header),
    ensures
        match r {
            Ok(frame) => spec_reconstruct(header, filtered@, match palette {
                Some(p) => Some(p@),
                None => None,
            }, match transparency {
                Some(t) => Some(t@),
                None => None,
            }) == Ok::<(PixelFormat, Seq<u8>), ErrorKind>((frame.format, frame.data@)) && frame.wf()
                && frame.width == header.width && frame.height == header.height && frame.pts is None,
            Err(e) => spec_reconstruct(header, filtered@, match palette {
                Some(p) => Some(p@),
                None => None,
            }, match transparency {
                Some(t) => Some(t@),
                None => None,
            }) == Err::<(PixelFormat, Seq<u8>), ErrorKind>(e@),
        },
{
    let w = header.width as usize;
    let h = header.height as usize;
    assert(w * h <= MAX_PIXELS);
    if header.color_type == 3 {
        let pal = match palette {
            Some(p) => p,
            None => return Err(MediaError::invalid_data("indexed PNG requires PLTE")),
        };
        assert((w + 1) * h <= 2 * MAX_PIXELS && w <= MAX_PIXELS) by (nonlinear_arith)
            requires w * h <= MAX_PIXELS, w >= 1, h >= 1;
        if filtered.len() != (w + 1) * h {
            return Err(MediaError::invalid_data("PNG decompressed data does not match the image size"));
        }
        let indices = reconstruct_rows(filtered, h, w, 1)?;
        proof {
            assert(filtered@.len() >= h * (w + 1)) by (nonlinear_arith)
                requires filtered@.len() == (w + 1) * h;
            lemma_unfilter_rows_len(filtered@, h as nat, w as nat, 1);
            assert(header.width * 4 * header.height <= 4 * MAX_PIXELS) by (nonlinear_arith)
                requires w * h <= MAX_PIXELS, w == header.width, h == header.height;
        }
        let pixels = expand_palette(indices.as_slice(), pal, transparency)?;
        let format = if transparency.is_some() {
            PixelFormat::Rgba32
        } else {
            PixelFormat::Rgb24
        };
        proof {
            lemma_expand_len(indices@, pal@, match transparency {
                Some(t) => Some(t@),
                None => None,
            });
            assert(pixels@.len() == header.width * spec_bpp(format) * header.height) by (nonlinear_arith)
                requires pixels@.len() == indices@.len() * spec_bpp(format), indices@.len() == h * w, w == header.width, h == header.height;
        }
        match VideoFrame::from_vec(header.width, header.height, format, pixels) {
            Ok(f) => Ok(f),
            Err(e) => {
                assert(false);
                Err(e)
            },
        }
    } else {
        let (format, bpp): (PixelFormat, usize) = if header.color_type == 0 {
            (PixelFormat::Gray8, 1)
        } else if header.color_type == 2 {
            (PixelFormat::Rgb24, 3)
        } else if header.color_type == 4 {
            (PixelFormat::GrayAlpha8, 2)
        } else {
            (PixelFormat::Rgba32, 4)
        };
        assert(w * bpp <= 4 * MAX_PIXELS) by (nonlinear_arith)
            requires w * h <= MAX_PIXELS, h >= 1, bpp <= 4;
        let stride = w * bpp;
        assert((stride + 1) * h <= 5 * MAX_PIXELS) by (nonlinear_arith)
            requires stride == w * bpp, w * h <= MAX_PIXELS, w >= 1, h >= 0, bpp <= 4;
        if filtered.len() != (stride + 1) * h {
            return Err(MediaError::invalid_data("PNG decompressed data does not match the image size"));
        }
        let pixels = reconstruct_rows(filtered, h, stride, bpp)?;
        proof {
            assert(filtered@.len() >= h * (stride + 1)) by (nonlinear_arith)
                requires filtered@.len() == (stride + 1) * h;
            lemma_unfilter_rows_len(filtered@, h as nat, stride as nat, bpp as nat);
            assert(header.width * spec_bpp(format) * header.height <= 4 * MAX_PIXELS) by (nonlinear_arith)
                requires w * h <= MAX_PIXELS, spec_bpp(format) <= 4, w == header.width, h == header.height;
            assert(pixels@.len() == header.width * spec_bpp(format) * header.height) by (nonlinear_arith)
                requires pixels@.len() == h * stride, stride == w * bpp, bpp == spec_bpp(format), w == header.width, h == header.height;
        }
        match VideoFrame::from_vec(header.width, header.height, format, pixels) {
            Ok(f) => Ok(f),
            Err(e) => {
                assert(false);
                Err(e)
            },
        }
    }
}

proof fn lemma_expand_len(indices: Seq<u8>, palette: Seq<u8>, trns: Option<Seq<u8>>)
    requires
        expand_indexed(indices, palette, trns) is Ok,
    ensures
        expand_indexed(indices, palette, trns)->Ok_0.len() == indices.len() * (if trns is Some { 4nat } else { 3nat }),
    decreases indices.len(),
{
    if indices.len() > 0 {
        lemma_expand_len(indices.drop_last(), palette, trns);
        let k: nat = if trns is Some { 4 } else { 3 };
        assert(indices.len() * k == (indices.len() - 1) * k + k) by (nonlinear_arith);
    }
}

pub open spec fn is_upper(b: u8) -> bool {
    65 <= b <= 90
}

pub open spec fn is_lower(b: u8) -> bool {
    97 <= b <= 122
}

/// Four ASCII letters, the third (the reserved bit) upper case.
pub open spec fn chunk_type_ok(t: Seq<u8>) -> bool {
    &&& forall|i: int| 0 <= i < 4 ==> is_upper(#[trigger] t[i]) || is_lower(t[i])
    &&& !is_lower(t[2])
}

pub open spec fn tag(a: u8, b: u8, c: u8, d: u8) -> Seq<u8> {
    seq![a, b, c, d]
}

/// What the chunk walk has collected so far.
pub struct PngChunks {
    pub ihdr: Option<Ihdr>,
    pub idat: Seq<u8>,
    pub saw_idat: bool,
    pub idat_ended: bool,
    pub saw_iend: bool,
    pub palette: Option<Seq<u8>>,
    pub trns: Option<Seq<u8>>,
}

pub open spec fn chunks_start() -> PngChunks {
    PngChunks {
        ihdr: None,
        idat: Seq::empty(),
        saw_idat: false,
        idat_ended: false,
        saw_iend: false,
        palette: None,
        trns: None,
    }
}

/// The chunk at `pos`: its framing (length, type, data, CRC over type and
/// data) and what it does to the collected state, or the first rule it
/// breaks. Gives the position after it.
pub open spec fn png_step(s: Seq<u8>, pos: nat, st: PngChunks) -> core::result::Result<(nat, PngChunks), ErrorKind> {
    if pos + 8 > s.len() {
        Err(ErrorKind::EndOfFile)
    } else {
        let len = be32_at(s, pos as int);
        let t = s.subrange(pos + 4int, pos + 8int);
        let data_end = pos + 8 + len;
        if !chunk_type_ok(t) {
            Err(ErrorKind::InvalidData)
        } else if data_end + 4 > s.len() {
            Err(ErrorKind::EndOfFile)
        } else {
            let d = s.subrange(pos + 8int, data_end as int);
            let next = (data_end + 4) as nat;
            if spec_crc32(t + d) != be32_at(s, data_end as int) {
                Err(ErrorKind::InvalidData)
            } else if t == tag(73, 72, 68, 82) {
                if st.ihdr is Some || st.saw_idat || pos != 8 {
                    Err(ErrorKind::InvalidData)
                } else {
                    match spec_parse_ihdr(d) {
                        Err(k) => Err(k),
                        Ok(h) => Ok((next, PngChunks { ihdr: Some(h), ..st })),
                    }
                }
            } else if t == tag(80, 76, 84, 69) {
                match st.ihdr {
                    None => Err(ErrorKind::InvalidData),
                    Some(h) => if st.saw_idat || st.palette is Some || h.color_type == 0 || h.color_type == 4
                        || d.len() == 0 || d.len() % 3 != 0 || d.len() > 768 {
                        Err(ErrorKind::InvalidData)
                    } else {
                        Ok((next, PngChunks { palette: Some(d), ..st }))
                    },
                }
            } else if t == tag(116, 82, 78, 83) {
                match st.ihdr {
                    None => Err(ErrorKind::InvalidData),
                    Some(h) => if st.saw_idat || st.trns is Some {
                        Err(ErrorKind::InvalidData)
                    } else if h.color_type == 0 && d.len() != 2 {
                        Err(ErrorKind::InvalidData)
                    } else if h.color_type == 2 && d.len() != 6 {
                        Err(ErrorKind::InvalidData)
                    } else if h.color_type == 3 && (st.palette is None || d.len() > st.palette->0.len() / 3) {
                        Err(ErrorKind::InvalidData)
                    } else if h.color_type == 4 || h.color_type == 6 {
                        Err(ErrorKind::InvalidData)
                    } else {
                        Ok((next, PngChunks { trns: Some(d), ..st }))
                    },
                }
            } else if t == tag(73, 68, 65, 84) {
                if st.ihdr is None || st.idat_ended {
                    Err(ErrorKind::InvalidData)
                } else {
                    Ok((next, PngChunks { saw_idat: true, idat: st.idat + d, ..st }))
                }
            } else if t == tag(73, 69, 78, 68) {
                if st.ihdr is None || !st.saw_idat || d.len() != 0 {
                    Err(ErrorKind::InvalidData)
                } else {
                    Ok((next, PngChunks { saw_iend: true, ..st }))
                }
            } else if is_upper(t[0]) {
                Err(ErrorKind::Unsupported)
            } else {
                Ok((next, PngChunks { idat_ended: st.idat_ended || st.saw_idat, ..st }))
            }
        }
    }
}

pub proof fn lemma_step_advances(s: Seq<u8>, pos: nat, st: PngChunks)
    ensures
        png_step(s, pos, st) matches Ok((next, _)) ==> pos < next <= s.len(),
{
}

/// Walks the chunks from `pos` to the end of the input; nothing may follow
/// IEND.
pub open spec fn png_walk(s: Seq<u8>, pos: nat, st: PngChunks) -> core::result::Result<PngChunks, ErrorKind>
    decreases s.len() - pos,
{
    if pos >= s.len() {
        Ok(st)
    } else if st.saw_iend {
        Err(ErrorKind::InvalidData)
    } else {
        proof {
            lemma_step_advances(s, pos, st);
        }
        match png_step(s, pos, st) {
            Err(k) => Err(k),
            Ok((next, st2)) => png_walk(s, next, st2),
        }
    }
}

/// The header and collected chunks of a PNG file, or the first rule the file
/// breaks before its image data is decompressed.
pub open spec fn spec_png_chunks(s: Seq<u8>) -> core::result::Result<(Ihdr, PngChunks), ErrorKind> {
    if s.len() < 8 || s.subrange(0, 8) != png_signature() {
        Err(ErrorKind::InvalidData)
    } else {
        match png_walk(s, 8, chunks_start()) {
            Err(k) => Err(k),
            Ok(st) => if !st.saw_iend {
                Err(ErrorKind::InvalidData)
            } else {
                match st.ihdr {
                    None => Err(ErrorKind::InvalidData),
                    Some(h) => if h.color_type == 3 && st.palette is None {
                        Err(ErrorKind::InvalidData)
                    } else {
                        Ok((h, st))
                    },
                }
            },
        }
    }
}

/// `filtered` is what the zlib stream `z` decompresses to, within some
/// output limit.
pub open spec fn zlib_yields(z: Seq<u8>, filtered: Seq<u8>) -> bool {
    exists|limit: nat| #[trigger] crate::zlib::spec_decompress(z, limit) == Ok::<Seq<u8>, ErrorKind>(filtered)
}

/// Which decoder a PNG file goes to, by its IHDR fields: Adam7 interlacing
/// (1), a non-interlaced depth other than 8 (2), or the 8-bit
/// non-interlaced decoder (0).
pub open spec fn png_route(s: Seq<u8>) -> u8 {
    if s.len() > 28 && s[28] == 1 {
        1
    } else if s.len() > 28 && s[24] != 8 {
        2
    } else {
        0
    }
}

/// What `decode_png` makes of a file: width, height, frame format and
/// pixels, or the first failure.
pub open spec fn spec_decode_png(s: Seq<u8>) -> core::result::Result<(u32, u32, PixelFormat, Seq<u8>), ErrorKind> {
    if png_route(s) != 0 {
        match crate::png_adam7::spec_decode_png_with(s, if png_route(s) == 1 { 1u8 } else { 0u8 }) {
            Err(k) => Err(k),
            Ok((h, f, d)) => Ok((h.width, h.height, f, d)),
        }
    } else {
        match spec_png_chunks(s) {
            Err(k) => Err(k),
            Ok((h, st)) => match crate::zlib::spec_decompress(st.idat, spec_filtered_size(h)) {
                Err(k) => Err(k),
                Ok(filtered) => match spec_reconstruct(h, filtered, st.palette, st.trns) {
                    Err(k) => Err(k),
                    Ok((f, d)) => Ok((h.width, h.height, f, d)),
                },
            },
        }
    }
}

/// `frame` is the image of the PNG file `s`.
pub open spec fn png_decodes_to(s: Seq<u8>, frame: VideoFrame) -> bool {
    &&& spec_decode_png(s) == Ok::<(u32, u32, PixelFormat, Seq<u8>), ErrorKind>((frame.width, frame.height, frame.format, frame.data@))
    &&& frame.wf()
    &&& frame.pts is None
}

pub open spec fn opt_view(o: Option<&[u8]>) -> Option<Seq<u8>> {
    match o {
        Some(x) => Some(x@),
        None => None,
    }
}

/// The CRC-32 PNG stores for a chunk: over its type and its data.
pub(crate) fn chunk_crc(chunk_type: &[u8], data: &[u8]) -> (c: u32)
    ensures
        c == spec_crc32(chunk_type@ + data@),
{
    let mut input: Vec<u8> = Vec::new();
    push_slice(&mut input, chunk_type);
    push_slice(&mut input, data);
    crc32(input.as_slice())
}

fn chunk_type_valid(t: &[u8]) -> (r: bool)
    requires
        t@.len() == 4,
    ensures
        r == chunk_type_ok(t@),
{
    let mut i: usize = 0;
    while i < 4
        invariant
            t@.len() == 4,
            i <= 4,
            forall|k: int| 0 <= k < i ==> is_upper(#[trigger] t@[k]) || is_lower(t@[k]),
        decreases 4 - i,
    {
        let b = t[i];
        if !((65 <= b && b <= 90) || (97 <= b && b <= 122)) {
            return false;
        }
        i += 1;
    }
    !(97 <= t[2] && t[2] <= 122)
}

/// Decodes a non-interlaced 8-bit PNG (grey, RGB, grey+alpha, RGBA or
/// indexed with optional tRNS) after checking chunk framing, order and CRCs.
#[verifier::spinoff_prover]
pub fn decode_png(bytes: &[u8]) -> (r: Result<VideoFrame>)
    ensures
        match spec_decode_png(bytes@) {
            Ok(_) => r matches Ok(frame) && png_decodes_to(bytes@, frame),
            Err(k) => r matches Err(e) && e@ == k,
        },
{
    if bytes.len() > 28 && bytes[28] == 1 {
        return crate::png_adam7::decode_png_adam7(bytes);
    }
    if bytes.len() > 28 && bytes[24] != 8 {
        return crate::png_adam7::decode_png_flat(bytes);
    }
    let ghost s = bytes@;
    let sig = signature();
    if !starts_with(bytes, sig.as_slice()) {
        return Err(MediaError::invalid_data("missing PNG signature"));
    }
    let n = bytes.len();
    let mut position: usize = 8;
    let mut ihdr: Option<Ihdr> = None;
    let mut idat: Vec<u8> = Vec::new();
    let mut saw_idat = false;
    let mut idat_ended = false;
    let mut saw_iend = false;
    let mut palette: Option<&[u8]> = None;
    let mut transparency: Option<&[u8]> = None;
    while position < n
        invariant
            n == s.len(),
            s == bytes@,
            8 <= position <= n,
            s.subrange(0, 8) == png_signature(),
            png_route(s) == 0,
            png_walk(s, 8, chunks_start()) == png_walk(
                s,
                position as nat,
                PngChunks {
                    ihdr,
                    idat: idat@,
                    saw_idat,
                    idat_ended,
                    saw_iend,
                    palette: opt_view(palette),
                    trns: opt_view(transparency),
                },
            ),
            ihdr matches Some(h) ==> ihdr_ok(h),
        decreases n - position,
    {
        let ghost st = PngChunks {
            ihdr,
            idat: idat@,
            saw_idat,
            idat_ended,
            saw_iend,
            palette: opt_view(palette),
            trns: opt_view(transparency),
        };
        if saw_iend {
            return Err(MediaError::invalid_data("bytes found after PNG IEND chunk"));
        }
        if n - position < 8 {
            return Err(MediaError::eof("truncated PNG chunk header"));
        }
        let length = read_be32(bytes, position);
        let chunk_type = vstd::slice::slice_subrange(bytes, position + 4, position + 8);
        if !chunk_type_valid(chunk_type) {
            return Err(MediaError::invalid_data("PNG chunk type must contain four ASCII letters and a valid reserved bit"));
        }
        let start = position + 8;
        if length as u64 + 4 > (n - start) as u64 {
            return Err(MediaError::eof("truncated PNG chunk data or CRC"));
        }
        let data_end = start + length as usize;
        let data = vstd::slice::slice_subrange(bytes, start, data_end);
        let expected_crc = read_be32(bytes, data_end);
        if chunk_crc(chunk_type, data) != expected_crc {
            return Err(MediaError::invalid_data("PNG chunk CRC mismatch"));
        }
        let chunk_start = position;
        position = data_end + 4;
        if fourcc_at(bytes, chunk_start + 4, 73, 72, 68, 82) {
            if ihdr.is_some() || saw_idat || chunk_start != 8 {
                return Err(MediaError::invalid_data("PNG IHDR must appear exactly once and first"));
            }
            ihdr = Some(parse_ihdr(data)?);
        } else if fourcc_at(bytes, chunk_start + 4, 80, 76, 84, 69) {
            let header = match ihdr {
                Some(h) => h,
                None => return Err(MediaError::invalid_data("PNG PLTE appeared before IHDR")),
            };
            if saw_idat {
                return Err(MediaError::invalid_data("PNG PLTE appeared after IDAT"));
            }
            if palette.is_some() {
                return Err(MediaError::invalid_data("PNG contains multiple PLTE chunks"));
            }
            if header.color_type == 0 || header.color_type == 4 {
                return Err(MediaError::invalid_data("grayscale PNG must not contain a PLTE chunk"));
            }
            if data.len() == 0 || data.len() % 3 != 0 || data.len() > 768 {
                return Err(MediaError::invalid_data("invalid PNG PLTE length"));
            }
            palette = Some(data);
        } else if fourcc_at(bytes, chunk_start + 4, 116, 82, 78, 83) {
            let header = match ihdr {
                Some(h) => h,
                None => return Err(MediaError::invalid_data("PNG tRNS appeared before IHDR")),
            };
            if saw_idat {
                return Err(MediaError::invalid_data("PNG tRNS appeared after IDAT"));
            }
            if transparency.is_some() {
                return Err(MediaError::invalid_data("PNG contains multiple tRNS chunks"));
            }
            if header.color_type == 0 && data.len() != 2 {
                return Err(MediaError::invalid_data("grayscale PNG tRNS length must be 2 bytes"));
            }
            if header.color_type == 2 && data.len() != 6 {
                return Err(MediaError::invalid_data("truecolor PNG tRNS length must be 6 bytes"));
            }
            if header.color_type == 3 {
                let entries = match palette {
                    Some(p) => p.len() / 3,
                    None => return Err(MediaError::invalid_data("indexed PNG tRNS requires PLTE")),
                };
                if data.len() > entries {
                    return Err(MediaError::invalid_data("indexed PNG tRNS has more alpha entries than PLTE"));
                }
            }
            if header.color_type == 4 || header.color_type == 6 {
                return Err(MediaError::invalid_data("PNG color types with alpha must not contain tRNS"));
            }
            transparency = Some(data);
        } else if fourcc_at(bytes, chunk_start + 4, 73, 68, 65, 84) {
            if ihdr.is_none() {
                return Err(MediaError::invalid_data("PNG IDAT appeared before IHDR"));
            }
            if idat_ended {
                return Err(MediaError::invalid_data("PNG IDAT chunks must be consecutive"));
            }
            saw_idat = true;
            push_slice(&mut idat, data);
        } else if fourcc_at(bytes, chunk_start + 4, 73, 69, 78, 68) {
            if ihdr.is_none() || !saw_idat {
                return Err(MediaError::invalid_data("PNG IEND requires preceding IHDR and IDAT"));
            }
            if data.len() != 0 {
                return Err(MediaError::invalid_data("PNG IEND chunk must be empty"));
            }
            saw_iend = true;
        } else {
            if saw_idat {
                idat_ended = true;
            }
            if 65 <= chunk_type[0] && chunk_type[0] <= 90 {
                return Err(MediaError::unsupported("unsupported critical PNG chunk"));
            }
        }
    }
    if !saw_iend {
        return Err(MediaError::invalid_data("PNG has no IEND chunk"));
    }
    let header = match ihdr {
        Some(h) => h,
        None => return Err(MediaError::invalid_data("PNG has no IHDR chunk")),
    };
    if header.color_type == 3 && palette.is_none() {
        return Err(MediaError::invalid_data("indexed PNG requires a PLTE chunk"));
    }
    let r = decode_scanlines(header, idat.as_slice(), palette, transparency);
    proof {
        if r is Ok {
            let f = r->Ok_0;
            assert(spec_decode_png(s) == Ok::<(u32, u32, PixelFormat, Seq<u8>), ErrorKind>((f.width, f.height, f.format, f.data@)));
        }
    }
    r
}

/// The size of the decompressed scanlines a header calls for.
fn expected_filtered_size(header: Ihdr) -> (n: usize)
    requires
        ihdr_ok(header),
    ensures
        header.color_type == 3 ==> n == (header.width + 1) * header.height,
        header.color_type != 3 ==> n == (header.width * color_bpp(header.color_type) + 1) * header.height,
{
    let w = header.width as usize;
    let h = header.height as usize;
    let bpp: usize = if header.color_type == 2 {
        3
    } else if header.color_type == 4 {
        2
    } else if header.color_type == 6 {
        4
    } else {
        1
    };
    assert(w * bpp <= 4 * MAX_PIXELS && (w * bpp + 1) * h <= 5 * MAX_PIXELS) by (nonlinear_arith)
        requires w * h <= MAX_PIXELS, w >= 1, h >= 1, bpp <= 4;
    (w * bpp + 1) * h
}

/// The size of the decompressed scanlines a header calls for.
pub open spec fn spec_filtered_size(header: Ihdr) -> nat {
    if header.color_type == 3 {
        ((header.width + 1) * header.height) as nat
    } else {
        ((header.width * color_bpp(header.color_type) + 1) * header.height) as nat
    }
}

fn decode_scanlines(header: Ihdr, compressed: &[u8], palette: Option<&[u8]>, transparency: Option<&[u8]>) -> (r: Result<VideoFrame>)
    requires
        ihdr_ok(header),
    ensures
        match crate::zlib::spec_decompress(compressed@, spec_filtered_size(header)) {
            Err(k) => r is Err && r->Err_0@ == k,
            Ok(filtered) => match r {
                Ok(frame) => spec_reconstruct(header, filtered, opt_view(palette), opt_view(transparency))
                    == Ok::<(PixelFormat, Seq<u8>), ErrorKind>((frame.format, frame.data@)),
                Err(e) => spec_reconstruct(header, filtered, opt_view(palette), opt_view(transparency))
                    == Err::<(PixelFormat, Seq<u8>), ErrorKind>(e@),
            },
        },
        r matches Ok(frame) ==> {
            &&& frame.wf()
            &&& frame.width == header.width
            &&& frame.height == header.height
            &&& frame.pts is None
            &&& exists|filtered: Seq<u8>| #[trigger] zlib_yields(compressed@, filtered) && spec_reconstruct(
                header,
                filtered,
                opt_view(palette),
                opt_view(transparency),
            ) == Ok::<(PixelFormat, Seq<u8>), ErrorKind>((frame.format, frame.data@))
        },
{
    let expected = expected_filtered_size(header);
    assert(expected as nat == spec_filtered_size(header));
    let filtered = match zlib::decompress(compressed, expected) {
        Ok(f) => f,
        Err(e) => return Err(e),
    };
    let frame = match reconstruct_scanlines(header, filtered.as_slice(), palette, transparency) {
        Ok(f) => f,
        Err(e) => return Err(e),
    };
    assert(crate::zlib::spec_decompress(compressed@, expected as nat) == Ok::<Seq<u8>, ErrorKind>(filtered@));
    assert(zlib_yields(compressed@, filtered@));
    Ok(frame)
}

/// The four big-endian bytes of `v`.
pub open spec fn be4(v: nat) -> Seq<u8> {
    seq![((v / 16777216) % 256) as u8, ((v / 65536) % 256) as u8, ((v / 256) % 256) as u8, (v % 256) as u8]
}

/// A chunk as written: length, type, data, CRC-32 of type and data.
pub open spec fn png_chunk(t: Seq<u8>, d: Seq<u8>) -> Seq<u8> {
    be4(d.len()) + t + d + be4(spec_crc32(t + d) as nat)
}

/// `z` cut into IDAT chunks of at most `size` bytes.
pub open spec fn idat_chunks(z: Seq<u8>, size: nat) -> Seq<u8>
    decreases z.len(),
{
    if z.len() == 0 || size == 0 {
        Seq::empty()
    } else if z.len() <= size {
        png_chunk(tag(73, 68, 65, 84), z)
    } else {
        png_chunk(tag(73, 68, 65, 84), z.subrange(0, size as int)) + idat_chunks(z.subrange(size as int, z.len() as int), size)
    }
}

/// The IHDR payload written for an 8-bit image.
pub open spec fn ihdr_payload(width: u32, height: u32, color_type: u8) -> Seq<u8> {
    be4(width as nat) + be4(height as nat) + seq![8u8, color_type, 0u8, 0u8, 0u8]
}

/// The PNG colour type of a packed format.
pub open spec fn format_color_type(f: PixelFormat) -> u8 {
    match f {
        PixelFormat::Gray8 => 0,
        PixelFormat::Rgb24 => 2,
        PixelFormat::GrayAlpha8 => 4,
        PixelFormat::Rgba32 => 6,
    }
}

/// Each of the first `rows` rows of `data` behind filter byte 0.
pub open spec fn unfiltered_scanlines(data: Seq<u8>, rows: nat, stride: nat) -> Seq<u8>
    decreases rows,
{
    if rows == 0 {
        Seq::empty()
    } else {
        let r = rows - 1;
        unfiltered_scanlines(data, r as nat, stride) + seq![0u8] + data.subrange(r * stride, r * stride + stride)
    }
}

/// A whole PNG file around `compressed` image data.
pub open spec fn png_file(width: u32, height: u32, color_type: u8, compressed: Seq<u8>, idat_size: nat) -> Seq<u8> {
    png_signature() + png_chunk(tag(73, 72, 68, 82), ihdr_payload(width, height, color_type)) + idat_chunks(compressed, idat_size)
        + png_chunk(tag(73, 69, 78, 68), Seq::empty())
}

fn push_tag(out: &mut Vec<u8>, a: u8, b: u8, c: u8, d: u8)
    ensures
        final(out)@ == old(out)@ + tag(a, b, c, d),
{
    out.push(a);
    out.push(b);
    out.push(c);
    out.push(d);
    assert(out@ =~= old(out)@ + tag(a, b, c, d));
}

pub proof fn lemma_be4(v: u32)
    ensures
        be4(v as nat) == seq![(v / 16777216) as u8, ((v / 65536) % 256) as u8, ((v / 256) % 256) as u8, (v % 256) as u8],
{
    assert((v / 16777216) % 256 == v / 16777216);
    assert(be4(v as nat) =~= seq![(v / 16777216) as u8, ((v / 65536) % 256) as u8, ((v / 256) % 256) as u8, (v % 256) as u8]);
}

/// Appends one chunk; a payload over 4 GiB is refused.
pub fn write_chunk(out: &mut Vec<u8>, chunk_type: &[u8], data: &[u8]) -> (r: Result<()>)
    requires
        chunk_type@.len() == 4,
    ensures
        match r {
            Ok(()) => data@.len() <= u32::MAX && final(out)@ == old(out)@ + png_chunk(chunk_type@, data@),
            Err(e) => data@.len() > u32::MAX && e@ == ErrorKind::Unsupported && final(out)@ == old(out)@,
        },
{
    if data.len() > 0xFFFF_FFFF {
        return Err(MediaError::unsupported("PNG chunk exceeds 4 GiB"));
    }
    let ghost o = out@;
    push_be32(out, data.len() as u32);
    push_slice(out, chunk_type);
    push_slice(out, data);
    let crc = chunk_crc(chunk_type, data);
    push_be32(out, crc);
    proof {
        lemma_be4(data.len() as u32);
        lemma_be4(crc);
        assert(out@ =~= o + png_chunk(chunk_type@, data@));
    }
    Ok(())
}

proof fn lemma_idat_unfold(rest: Seq<u8>, size: nat)
    requires
        rest.len() > 0,
        size >= 1,
    ensures
        rest.len() <= size ==> idat_chunks(rest, size) == png_chunk(tag(73, 68, 65, 84), rest),
        rest.len() > size ==> idat_chunks(rest, size) == png_chunk(tag(73, 68, 65, 84), rest.subrange(0, size as int))
            + idat_chunks(rest.subrange(size as int, rest.len() as int), size),
{
}

pub fn write_idat_chunks(out: &mut Vec<u8>, compressed: &[u8], size: usize)
    requires
        1 <= size <= u32::MAX,
    ensures
        final(out)@ == old(out)@ + idat_chunks(compressed@, size as nat),
{
    let idat_type = tag_bytes(73, 68, 65, 84);
    let n = compressed.len();
    let mut start: usize = 0;
    let ghost o = out@;
    assert(compressed@.subrange(0, n as int) =~= compressed@);
    while start < n
        invariant
            1 <= size <= u32::MAX,
            n == compressed@.len(),
            start <= n,
            idat_type@ == tag(73, 68, 65, 84),
            o + idat_chunks(compressed@, size as nat) == out@ + idat_chunks(compressed@.subrange(start as int, n as int), size as nat),
        decreases n - start,
    {
        let ghost rest = compressed@.subrange(start as int, n as int);
        let end = if n - start <= size {
            n
        } else {
            start + size
        };
        let piece = vstd::slice::slice_subrange(compressed, start, end);
        let ghost before = out@;
        match write_chunk(out, idat_type.as_slice(), piece) {
            Ok(()) => {},
            Err(_) => {
                assert(false);
            },
        }
        proof {
            lemma_idat_unfold(rest, size as nat);
            let tail = compressed@.subrange(end as int, n as int);
            if n - start <= size {
                assert(piece@ =~= rest);
                assert(tail =~= Seq::<u8>::empty());
                assert(idat_chunks(tail, size as nat) == Seq::<u8>::empty());
                assert(before + idat_chunks(rest, size as nat) =~= out@ + idat_chunks(tail, size as nat));
            } else {
                assert(piece@ =~= rest.subrange(0, size as int));
                assert(rest.subrange(size as int, rest.len() as int) =~= tail);
                assert(before + idat_chunks(rest, size as nat) =~= out@ + idat_chunks(tail, size as nat));
            }
        }
        start = end;
    }
    proof {
        assert(compressed@.subrange(n as int, n as int) =~= Seq::<u8>::empty());
        assert(out@ + Seq::<u8>::empty() =~= out@);
    }
}

pub fn tag_bytes(a: u8, b: u8, c: u8, d: u8) -> (v: Vec<u8>)
    ensures
        v@ == tag(a, b, c, d),
{
    let mut v: Vec<u8> = Vec::new();
    push_tag(&mut v, a, b, c, d);
    v
}

/// Writes signature, IHDR, the IDAT chunks and IEND around compressed image
/// data.
pub fn write_png_file(width: u32, height: u32, color_type: u8, compressed: &[u8], idat_size: usize) -> (out: Vec<u8>)
    requires
        1 <= idat_size <= u32::MAX,
    ensures
        out@ == png_file(width, height, color_type, compressed@, idat_size as nat),
{
    let mut output = signature();
    let mut ihdr: Vec<u8> = Vec::new();
    push_be32(&mut ihdr, width);
    push_be32(&mut ihdr, height);
    ihdr.push(8);
    ihdr.push(color_type);
    ihdr.push(0);
    ihdr.push(0);
    ihdr.push(0);
    proof {
        lemma_be4(width);
        lemma_be4(height);
        assert(ihdr@ =~= ihdr_payload(width, height, color_type));
    }
    let ihdr_type = tag_bytes(73, 72, 68, 82);
    match write_chunk(&mut output, ihdr_type.as_slice(), ihdr.as_slice()) {
        Ok(()) => {},
        Err(_) => {
            assert(false);
        },
    }
    write_idat_chunks(&mut output, compressed, idat_size);
    let iend_type = tag_bytes(73, 69, 78, 68);
    let empty: Vec<u8> = Vec::new();
    match write_chunk(&mut output, iend_type.as_slice(), empty.as_slice()) {
        Ok(()) => {},
        Err(_) => {
            assert(false);
        },
    }
    proof {
        assert(empty@ =~= Seq::<u8>::empty());
    }
    output
}

/// The PNG file `encode_png` writes for `frame`: stored-block zlib data of
/// its unfiltered scanlines, split into IDAT chunks.
pub open spec fn png_encoded(frame: VideoFrame, out: Seq<u8>) -> bool {
    out == png_file(
        frame.width,
        frame.height,
        format_color_type(frame.format),
        spec_compress_stored(unfiltered_scanlines(frame.data@, frame.height as nat, frame.linesize as nat)),
        IDAT_CHUNK_SIZE as nat,
    )
}

/// Encodes an 8-bit frame as a non-interlaced PNG: every row behind filter
/// byte 0, the scanlines in zlib stored blocks, IDAT chunks of at most
/// 1 MiB.
pub fn encode_png(frame: &VideoFrame) -> (r: Result<Vec<u8>>)
    requires
        frame.wf(),
    ensures
        match r {
            Ok(out) => out@ == png_file(
                frame.width,
                frame.height,
                format_color_type(frame.format),
                spec_compress_stored(unfiltered_scanlines(frame.data@, frame.height as nat, frame.linesize as nat)),
                IDAT_CHUNK_SIZE as nat,
            ),
            Err(e) => e@ == ErrorKind::Overflow && (frame.linesize + 1) * frame.height > usize::MAX,
        },
        r matches Ok(out) ==> (frame.width * frame.height <= MAX_PIXELS ==> spec_decode_png(out@) == Ok::<
            (u32, u32, PixelFormat, Seq<u8>),
            ErrorKind,
        >((frame.width, frame.height, frame.format, frame.data@))),
{
    let color_type: u8 = match frame.format {
        PixelFormat::Gray8 => 0,
        PixelFormat::Rgb24 => 2,
        PixelFormat::GrayAlpha8 => 4,
        PixelFormat::Rgba32 => 6,
    };
    let stride = frame.linesize;
    let rows = frame.height as usize;
    let encoded_row = match stride.checked_add(1) {
        Some(v) => v,
        None => {
            assert((stride + 1) * rows > usize::MAX) by (nonlinear_arith)
                requires stride + 1 > usize::MAX, rows >= 1;
            return Err(MediaError::overflow("PNG filtered image size overflow"));
        },
    };
    match encoded_row.checked_mul(rows) {
        Some(_) => {},
        None => return Err(MediaError::overflow("PNG filtered image size overflow")),
    }
    let data = frame.data.as_slice();
    let mut filtered: Vec<u8> = Vec::new();
    let mut y: usize = 0;
    while y < rows
        invariant
            frame.wf(),
            data@ == frame.data@,
            stride == frame.linesize,
            rows == frame.height,
            y <= rows,
            filtered@ == unfiltered_scanlines(data@, y as nat, stride as nat),
        decreases rows - y,
    {
        assert(y * stride + stride <= stride * rows) by (nonlinear_arith)
            requires y < rows;
        let row = vstd::slice::slice_subrange(data, y * stride, y * stride + stride);
        filtered.push(0);
        push_slice(&mut filtered, row);
        y += 1;
    }
    let compressed = zlib::compress_stored(filtered.as_slice())?;
    let out = write_png_file(frame.width, frame.height, color_type, compressed.as_slice(), IDAT_CHUNK_SIZE);
    proof {
        let bpp = spec_bpp(frame.format);
        assert(rows * stride <= data@.len()) by (nonlinear_arith)
            requires data@.len() == stride * rows;
        crate::png_roundtrip::lemma_unfiltered_is_none_filter(data@, rows as nat, stride as nat, bpp);
        crate::png_roundtrip::lemma_scanlines_len(data@, rows as nat, stride as nat, bpp, Some(0u8));
        assert(compressed@.len() == compressed.len());
        assert(filtered@.len() == filtered.len());
        zlib::lemma_stored_roundtrip(filtered@, filtered@.len());
        assert(filtered@.len() == (frame.height * (frame.linesize + 1)) as nat);
        if frame.width * frame.height <= MAX_PIXELS {
            crate::png_roundtrip::lemma_png_file_decodes(*frame, Some(0u8), compressed@, IDAT_CHUNK_SIZE as nat);
        }
    }
    Ok(out)
}

/// Byte `c` of pixel `i` in a raster of `k` bytes per pixel.
pub open spec fn sample_of(px: Seq<u8>, k: int, i: int, c: int) -> u8 {
    px[k * i + c]
}

/// Bytes per expanded indexed pixel: RGBA with tRNS, RGB without.
pub open spec fn indexed_width(trns: Option<Seq<u8>>) -> int {
    if trns is Some {
        4
    } else {
        3
    }
}

/// Indexed pixels expand entry by entry: pixel `i` takes the three palette
/// bytes of its index `e`, and with a tRNS chunk `t` an alpha byte that is
/// `t[e]` for the entries tRNS lists and fully opaque (255) for every entry
/// past its end; without tRNS the pixels are RGB. An index past the palette
/// is refused.
pub proof fn lemma_expand_indexed_pixels(indices: Seq<u8>, palette: Seq<u8>, trns: Option<Seq<u8>>)
    ensures
        ({
            let k = indexed_width(trns);
            &&& expand_indexed(indices, palette, trns) is Ok <==> forall|i: int|
                0 <= i < indices.len() ==> 3 * (#[trigger] indices[i]) + 3 <= palette.len()
            &&& expand_indexed(indices, palette, trns) matches Ok(px) ==> {
                &&& px.len() == k * indices.len()
                &&& forall|i: int, c: int|
                    0 <= i < indices.len() && 0 <= c < 3 ==> #[trigger] sample_of(px, k, i, c) == palette[3 * indices[i] + c]
                &&& trns matches Some(t) ==> forall|i: int|
                    0 <= i < indices.len() ==> #[trigger] sample_of(px, 4, i, 3) == if (indices[i] as int) < t.len() {
                        t[indices[i] as int]
                    } else {
                        255u8
                    }
            }
        }),
    decreases indices.len(),
{
    let k = indexed_width(trns);
    if indices.len() > 0 {
        let head = indices.drop_last();
        lemma_expand_indexed_pixels(head, palette, trns);
        let n = head.len() as int;
        assert forall|i: int| 0 <= i < n implies #[trigger] head[i] == indices[i] by {}
        let e = indices.last() as int;
        if expand_indexed(head, palette, trns) is Ok {
            let done = expand_indexed(head, palette, trns)->Ok_0;
            if e < palette.len() / 3 {
                let px = expand_indexed(indices, palette, trns)->Ok_0;
                assert(3 * e + 3 <= palette.len());
                let rgb = palette.subrange(3 * e, 3 * e + 3);
                assert(done.len() == k * n);
                match trns {
                    Some(t) => {
                        assert(px == done + rgb + seq![if e < t.len() { t[e] } else { 255u8 }]);
                    },
                    None => {
                        assert(px == done + rgb);
                    },
                }
                assert(px.len() == k * indices.len()) by (nonlinear_arith)
                    requires px.len() == k * n + k, indices.len() == n + 1;
                assert forall|i: int, c: int| 0 <= i < indices.len() && 0 <= c < 3 implies #[trigger] sample_of(px, k, i, c)
                    == palette[3 * indices[i] + c] by {
                    if i < n {
                        assert(0 <= k * i + c < k * n) by (nonlinear_arith)
                            requires 0 <= i < n, 0 <= c < 3, k >= 3;
                        assert(px[k * i + c] == done[k * i + c]);
                        assert(head[i] == indices[i]);
                        assert(sample_of(done, k, i, c) == palette[3 * head[i] + c]);
                        assert(px[k * i + c] == palette[3 * indices[i] + c]);
                    } else {
                        assert(i == n);
                        assert(k * i + c == k * n + c);
                        assert(px[k * n + c] == rgb[c]);
                        assert(indices[i] as int == e);
                        assert(px[k * i + c] == palette[3 * indices[i] + c]);
                    }
                }
                if trns is Some {
                    let t = trns->0;
                    assert forall|i: int| 0 <= i < indices.len() implies #[trigger] sample_of(px, 4, i, 3) == if (indices[i] as int)
                        < t.len() {
                        t[indices[i] as int]
                    } else {
                        255u8
                    } by {
                        if i < n {
                            assert(0 <= 4 * i + 3 < 4 * n);
                            assert(px[4 * i + 3] == done[4 * i + 3]);
                            assert(head[i] == indices[i]);
                            assert(sample_of(done, 4, i, 3) == (if (head[i] as int) < t.len() { t[head[i] as int] } else { 255u8 }));
                        } else {
                            assert(px[4 * n + 3] == (if e < t.len() { t[e] } else { 255u8 }));
                        }
                    }
                }
                assert forall|i: int| 0 <= i < indices.len() implies 3 * (#[trigger] indices[i]) + 3 <= palette.len() by {
                    if i < n {
                        assert(head[i] == indices[i]);
                    }
                }
            } else {
                assert(!(3 * indices[n] + 3 <= palette.len()));
            }
        } else {
            let i0 = choose|i: int| 0 <= i < head.len() && !(3 * (#[trigger] head[i]) + 3 <= palette.len());
            assert(head[i0] == indices[i0]);
        }
    }
}

} // verus!

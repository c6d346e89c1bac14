use vstd::prelude::*;

use crate::byteio::le_bytes;
use crate::bytes_util::{le16_at, le32_at, lemma_le16_of, lemma_le32_of, push_slice, read_le16, read_le32, zeroed};
use crate::error::{ErrorKind, MediaError, Result};
use crate::video::{spec_bpp, PixelFormat, VideoFrame};

verus! {

pub const FILE_HEADER_SIZE: usize = 14;

pub const INFO_HEADER_SIZE: usize = 40;

pub const PIXEL_OFFSET: usize = 54;

/// Signed little-endian 32-bit field at `off`.
pub open spec fn lei32_at(s: Seq<u8>, off: int) -> int {
    let v = le32_at(s, off);
    if v >= 0x8000_0000 {
        v - 0x1_0000_0000
    } else {
        v as int
    }
}

/// `v` rounded up to a multiple of four.
pub open spec fn align4(v: nat) -> nat {
    ((v + 3) / 4) * 4
}

pub open spec fn spec_probe_bmp(s: Seq<u8>) -> bool {
    s.len() >= 14 && s[0] == 66 && s[1] == 77
}

pub fn probe_bmp(bytes: &[u8]) -> (score: u8)
    ensures
        score == if spec_probe_bmp(bytes@) { 100u8 } else { 0u8 },
{
    if bytes.len() >= FILE_HEADER_SIZE && bytes[0] == 66 && bytes[1] == 77 {
        100
    } else {
        0
    }
}

fn read_i32_le(bytes: &[u8], offset: usize) -> (v: i32)
    requires
        offset + 4 <= bytes@.len(),
    ensures
        v == lei32_at(bytes@, offset as int),
{
    let u = read_le32(bytes, offset);
    if u >= 0x8000_0000 {
        (u as i64 - 0x1_0000_0000) as i32
    } else {
        u as i32
    }
}

/// The header fields a decodable BMP declares.
pub open spec fn bmp_pixel_offset(s: Seq<u8>) -> nat {
    le32_at(s, 10)
}

pub open spec fn bmp_width(s: Seq<u8>) -> int {
    lei32_at(s, 18)
}

pub open spec fn bmp_height(s: Seq<u8>) -> int {
    lei32_at(s, 22)
}

pub open spec fn bmp_bytes_per_pixel(s: Seq<u8>) -> nat {
    le16_at(s, 28) / 8
}

/// `|h|` for a BMP height field.
pub open spec fn abs_height(h: int) -> int {
    if h < 0 {
        -h
    } else {
        h
    }
}

/// Bytes per stored BMP row: pixels padded to a multiple of four.
pub open spec fn bmp_stride(s: Seq<u8>) -> nat {
    align4((bmp_width(s) * bmp_bytes_per_pixel(s)) as nat)
}

/// The first check `decode_bmp` fails on `s`, in the order it makes them,
/// or `None` when it accepts the file.
pub open spec fn bmp_check(s: Seq<u8>) -> Option<ErrorKind> {
    let n = s.len();
    if !spec_probe_bmp(s) || n < 54 {
        Some(ErrorKind::InvalidData)
    } else {
        let decl = le32_at(s, 2);
        let off = bmp_pixel_offset(s);
        let dib = le32_at(s, 14);
        let w = bmp_width(s);
        let h = bmp_height(s);
        let bits = le16_at(s, 28);
        let raster = bmp_stride(s) * abs_height(h);
        let end = off + raster;
        if decl != 0 && decl > n {
            Some(ErrorKind::InvalidData)
        } else if dib < 40 {
            Some(ErrorKind::Unsupported)
        } else if 14 + dib > n {
            Some(ErrorKind::InvalidData)
        } else if off < 14 + dib || off > n {
            Some(ErrorKind::InvalidData)
        } else if w <= 0 || h == 0 || h == -0x8000_0000 {
            Some(ErrorKind::InvalidData)
        } else if le16_at(s, 26) != 1 {
            Some(ErrorKind::InvalidData)
        } else if bits != 24 && bits != 32 {
            Some(ErrorKind::Unsupported)
        } else if le32_at(s, 30) != 0 {
            Some(ErrorKind::Unsupported)
        } else if raster > u64::MAX || end > u64::MAX {
            Some(ErrorKind::Overflow)
        } else if end > n {
            Some(ErrorKind::InvalidData)
        } else if decl != 0 && end > decl {
            Some(ErrorKind::InvalidData)
        } else if w * abs_height(h) > usize::MAX / 3 {
            Some(ErrorKind::Overflow)
        } else {
            None
        }
    }
}

/// `frame` is the RGB24 picture the BMP `s` stores, rows turned top-down.
pub open spec fn bmp_decodes_to(s: Seq<u8>, frame: VideoFrame) -> bool {
    let w = bmp_width(s);
    let h = bmp_height(s);
    let bpp = bmp_bytes_per_pixel(s);
    let stride = bmp_stride(s);
    let off = bmp_pixel_offset(s);
    &&& frame.wf()
    &&& frame.format == PixelFormat::Rgb24
    &&& frame.width == w
    &&& frame.height == abs_height(h)
    &&& frame.pts is None
    &&& forall|y: int, x: int, c: int|
        0 <= y < frame.height && 0 <= x < frame.width && 0 <= c < 3 ==> #[trigger] frame.data@[(y * frame.width + x) * 3 + c]
            == s[off + (if h < 0 { y } else { frame.height - 1 - y }) * stride + x * bpp + (2 - c)]
}

/// Decodes an uncompressed 24- or 32-bit BITMAPINFOHEADER BMP to RGB24,
/// honouring bottom-up and top-down row order.
pub fn decode_bmp(bytes: &[u8]) -> (r: Result<VideoFrame>)
    ensures
        match r {
            Ok(frame) => bmp_check(bytes@) is None && bmp_decodes_to(bytes@, frame),
            Err(e) => bmp_check(bytes@) == Some(e@),
        },
{
    if probe_bmp(bytes) == 0 {
        return Err(MediaError::invalid_data("input is not a BMP file"));
    }
    if bytes.len() < PIXEL_OFFSET {
        return Err(MediaError::invalid_data("BMP input is shorter than BITMAPINFOHEADER"));
    }
    let n = bytes.len();
    let declared_file_size = read_le32(bytes, 2);
    if declared_file_size != 0 && declared_file_size as u64 > n as u64 {
        return Err(MediaError::invalid_data("BMP declared file size exceeds available input"));
    }
    let pixel_offset = read_le32(bytes, 10) as u64;
    let dib_size = read_le32(bytes, 14) as u64;
    if dib_size < INFO_HEADER_SIZE as u64 {
        return Err(MediaError::unsupported("BMP DIB headers smaller than BITMAPINFOHEADER are not implemented"));
    }
    let dib_end = FILE_HEADER_SIZE as u64 + dib_size;
    if dib_end > n as u64 {
        return Err(MediaError::invalid_data("BMP DIB header is truncated"));
    }
    if pixel_offset < dib_end || pixel_offset > n as u64 {
        return Err(MediaError::invalid_data("invalid BMP pixel offset"));
    }
    let width_signed = read_i32_le(bytes, 18);
    let height_signed = read_i32_le(bytes, 22);
    if width_signed <= 0 || height_signed == 0 || height_signed == i32::MIN {
        return Err(MediaError::invalid_data("BMP dimensions must have positive width and non-zero representable height"));
    }
    let width = width_signed as u32;
    let top_down = height_signed < 0;
    let height: u32 = if top_down {
        (-height_signed) as u32
    } else {
        height_signed as u32
    };
    if read_le16(bytes, 26) != 1 {
        return Err(MediaError::invalid_data("BMP planes field must equal 1"));
    }
    let bits_per_pixel = read_le16(bytes, 28);
    if bits_per_pixel != 24 && bits_per_pixel != 32 {
        return Err(MediaError::unsupported("BMP bit depth is not implemented yet"));
    }
    if read_le32(bytes, 30) != 0 {
        return Err(MediaError::unsupported("BMP compression mode is not implemented yet"));
    }
    let bytes_per_pixel = (bits_per_pixel / 8) as u64;
    assert(bytes_per_pixel == 3 || bytes_per_pixel == 4);
    assert(width <= 0x7FFF_FFFF);
    assert((width as u64) * bytes_per_pixel <= 0x7FFF_FFFFu64 * 4) by (nonlinear_arith)
        requires width <= 0x7FFF_FFFF, bytes_per_pixel <= 4;
    let row_bytes = (width as u64) * bytes_per_pixel;
    let row_stride = (row_bytes + 3) / 4 * 4;
    assert(row_stride <= 4 * 0x8000_0000u64 + 4);
    let raster_size = match row_stride.checked_mul(height as u64) {
        Some(v) => v,
        None => return Err(MediaError::overflow("BMP raster size overflow")),
    };
    let raster_end = match pixel_offset.checked_add(raster_size) {
        Some(v) => v,
        None => return Err(MediaError::overflow("BMP raster range overflow")),
    };
    if raster_end > n as u64 {
        return Err(MediaError::invalid_data("BMP raster is truncated"));
    }
    if declared_file_size != 0 && raster_end > declared_file_size as u64 {
        return Err(MediaError::invalid_data("BMP raster exceeds declared file size"));
    }
    assert((width as u64) * (height as u64) <= 0xFFFF_FFFFu64 * 0xFFFF_FFFFu64) by (nonlinear_arith);
    let pixel_count = (width as u64) * (height as u64);
    if pixel_count > (usize::MAX / 3) as u64 {
        return Err(MediaError::overflow("BMP RGB output size overflow"));
    }
    assert(row_stride <= raster_size) by (nonlinear_arith)
        requires raster_size == row_stride * height, height >= 1;
    proof {
        lemma_align4_ge(row_bytes as nat);
    }
    let w = width as usize;
    let h = height as usize;
    let stride = row_stride as usize;
    let bpp = bytes_per_pixel as usize;
    let off = pixel_offset as usize;
    assert(w * h <= usize::MAX / 3);
    assert(w * h * 3 <= usize::MAX) by (nonlinear_arith)
        requires w * h <= usize::MAX / 3;
    let output = bmp_pixels(bytes, off, w, h, stride, bpp, top_down);
    assert(output@.len() == width * spec_bpp(PixelFormat::Rgb24) * height) by (nonlinear_arith)
        requires output@.len() == w * h * 3, w == width, h == height;
    let frame = match VideoFrame::from_vec(width, height, PixelFormat::Rgb24, output) {
        Ok(f) => f,
        Err(e) => return Err(e),
    };
    Ok(frame)
}

/// Copies the BGR(A) rows of a BMP raster into a top-down RGB24 buffer.
fn bmp_pixels(bytes: &[u8], off: usize, w: usize, h: usize, stride: usize, bpp: usize, top_down: bool) -> (output: Vec<u8>)
    requires
        w > 0,
        h > 0,
        bpp == 3 || bpp == 4,
        stride == align4((w * bpp) as nat),
        off + stride * h <= bytes@.len(),
        w * h * 3 <= usize::MAX,
    ensures
        output@.len() == w * h * 3,
        forall|yy: int, x: int, c: int|
            0 <= yy < h && 0 <= x < w && 0 <= c < 3 ==> #[trigger] output@[(yy * w + x) * 3 + c]
                == bytes@[off + (if top_down { yy } else { h - 1 - yy }) * stride + x * bpp + (2 - c)],
{
    proof {
        lemma_align4_ge((w * bpp) as nat);
    }
    let n = bytes.len();
    let mut output: Vec<u8> = Vec::with_capacity(w * h * 3);
    let mut y: usize = 0;
    while y < h
        invariant
            n == bytes@.len(),
            w > 0,
            h > 0,
            stride == align4((w * bpp) as nat),
            bpp == 3 || bpp == 4,
            off + stride * h <= n,
            w * h * 3 <= usize::MAX,
            y <= h,
            output@.len() == y * w * 3,
            forall|yy: int, x: int, c: int|
                0 <= yy < y && 0 <= x < w && 0 <= c < 3 ==> #[trigger] output@[(yy * w + x) * 3 + c]
                    == bytes@[off + (if top_down { yy } else { h - 1 - yy }) * stride + x * bpp + (2 - c)],
        decreases h - y,
    {
        let source_y = if top_down {
            y
        } else {
            h - 1 - y
        };
        assert(off + source_y * stride + stride <= n) by (nonlinear_arith)
            requires source_y < h, off + stride * h <= n;
        assert(w * bpp <= stride) by (nonlinear_arith)
            requires stride == align4((w * bpp) as nat);
        let source_start = off + source_y * stride;
        let mut x: usize = 0;
        while x < w
            invariant
                n == bytes@.len(),
                y < h,
                bpp == 3 || bpp == 4,
                w * bpp <= stride,
                source_start + stride <= n,
                source_start == off + source_y * stride,
                w * h * 3 <= usize::MAX,
                x <= w,
                output@.len() == (y * w + x) * 3,
                forall|yy: int, xx: int, c: int|
                    0 <= yy < y && 0 <= xx < w && 0 <= c < 3 ==> #[trigger] output@[(yy * w + xx) * 3 + c]
                        == bytes@[off + (if top_down { yy } else { h - 1 - yy }) * stride + xx * bpp + (2 - c)],
                forall|xx: int, c: int|
                    0 <= xx < x && 0 <= c < 3 ==> #[trigger] output@[(y * w + xx) * 3 + c]
                        == bytes@[source_start + xx * bpp + (2 - c)],
            decreases w - x,
        {
            assert(x * bpp + 3 <= w * bpp) by (nonlinear_arith)
                requires x < w, bpp >= 3;
            assert((y * w + x) * 3 + 3 <= w * h * 3) by (nonlinear_arith)
                requires x < w, y < h;
            let source = source_start + x * bpp;
            let ghost before = output@;
            output.push(bytes[source + 2]);
            output.push(bytes[source + 1]);
            output.push(bytes[source]);
            proof {
                assert forall|yy: int, xx: int, c: int|
                    0 <= yy < y && 0 <= xx < w && 0 <= c < 3 implies #[trigger] output@[(yy * w + xx) * 3 + c]
                        == bytes@[off + (if top_down { yy } else { h - 1 - yy }) * stride + xx * bpp + (2 - c)] by {
                    assert((yy * w + xx) * 3 + c < y * w * 3) by (nonlinear_arith)
                        requires yy < y, xx < w, c < 3, 0 <= yy, 0 <= xx, 0 <= c;
                    assert(y * w * 3 <= before.len()) by (nonlinear_arith)
                        requires before.len() == (y * w + x) * 3, x >= 0;
                    assert(output@[(yy * w + xx) * 3 + c] == before[(yy * w + xx) * 3 + c]);
                }
                assert forall|xx: int, c: int|
                    0 <= xx < x + 1 && 0 <= c < 3 implies #[trigger] output@[(y * w + xx) * 3 + c]
                        == bytes@[source_start + xx * bpp + (2 - c)] by {
                    if xx < x {
                        assert((y * w + xx) * 3 + c < before.len()) by (nonlinear_arith)
                            requires before.len() == (y * w + x) * 3, xx < x, c < 3;
                        assert(output@[(y * w + xx) * 3 + c] == before[(y * w + xx) * 3 + c]);
                    } else {
                        assert((y * w + xx) * 3 + c == before.len() + c) by (nonlinear_arith)
                            requires before.len() == (y * w + x) * 3, xx == x;
                    }
                }
                assert(output@.len() == (y * w + (x + 1)) * 3) by (nonlinear_arith)
                    requires output@.len() == before.len() + 3, before.len() == (y * w + x) * 3;
            }
            x += 1;
        }
        proof {
            assert(output@.len() == (y + 1) * w * 3) by (nonlinear_arith)
                requires output@.len() == (y * w + w) * 3;
        }
        y += 1;
    }
    proof {
        assert(output@.len() == w * h * 3) by (nonlinear_arith)
            requires output@.len() == y * w * 3, y == h;
    }
    output
}

/// The bytes `encode_bmp` writes for a frame: a 54-byte BITMAPFILEHEADER +
/// BITMAPINFOHEADER, then bottom-up BGR rows padded to four bytes.
pub open spec fn bmp_header(width: nat, height: nat, image_size: nat) -> Seq<u8> {
    seq![66u8, 77u8] + le_bytes(54 + image_size, 4) + le_bytes(0, 4) + le_bytes(54, 4) + le_bytes(40, 4)
        + le_bytes(width, 4) + le_bytes(height, 4) + le_bytes(1, 2) + le_bytes(24, 2) + le_bytes(0, 4)
        + le_bytes(image_size, 4) + le_bytes(0, 16)
}

/// Byte `i` of stored row `r` (bottom-up) of the BMP raster of `frame`.
pub open spec fn bmp_raster_byte(frame: VideoFrame, r: int, i: int) -> u8 {
    let w = frame.width as int;
    if i < 3 * w {
        frame.data@[((frame.height - 1 - r) * w + i / 3) * 3 + (2 - i % 3)]
    } else {
        0
    }
}

/// `out` is the BMP `encode_bmp` writes for `frame`: the header, then each
/// row bottom-up as BGR bytes padded with zeros to a multiple of four.
pub open spec fn bmp_encoded(frame: VideoFrame, out: Seq<u8>) -> bool {
    let stride = align4(3 * frame.width as nat);
    &&& out.len() == 54 + stride * frame.height
    &&& out.subrange(0, 54) == bmp_header(frame.width as nat, frame.height as nat, stride * (frame.height as nat))
    &&& forall|r: int, i: int| 0 <= r < frame.height && 0 <= i < stride ==> #[trigger] out[54 + r * stride + i] == bmp_raster_byte(frame, r, i)
}

/// Encodes an RGB24 frame as a bottom-up 24-bit BMP.
pub fn encode_bmp(frame: &VideoFrame) -> (r: Result<Vec<u8>>)
    requires
        frame.wf(),
    ensures
        frame.format != PixelFormat::Rgb24 ==> r is Err && r->Err_0@ == ErrorKind::InvalidArgument,
        frame.format == PixelFormat::Rgb24 && (frame.width > i32::MAX || frame.height > i32::MAX)
            ==> r is Err && r->Err_0@ == ErrorKind::Unsupported,
        frame.format == PixelFormat::Rgb24 && frame.width <= i32::MAX && frame.height <= i32::MAX
            ==> (r is Ok <==> 54 + align4(3 * frame.width as nat) * frame.height <= u32::MAX),
        r is Err ==> r->Err_0@ == ErrorKind::InvalidArgument || r->Err_0@ == ErrorKind::Unsupported,
        r matches Ok(out) ==> frame.format == PixelFormat::Rgb24 && bmp_encoded(*frame, out@),
{
    if frame.format != PixelFormat::Rgb24 {
        return Err(MediaError::invalid_argument("BMP encoder requires rgb24 input"));
    }
    if frame.width > 0x7FFF_FFFF || frame.height > 0x7FFF_FFFF {
        return Err(MediaError::unsupported("BMP dimensions exceed BITMAPINFOHEADER signed 32-bit limits"));
    }
    let row_bytes = (frame.width as u64) * 3;
    let row_stride = (row_bytes + 3) / 4 * 4;
    assert(row_stride <= 3 * 0x7FFF_FFFFu64 + 3);
    assert(row_stride * frame.height <= (3 * 0x7FFF_FFFFu64 + 3) * 0x7FFF_FFFFu64) by (nonlinear_arith)
        requires row_stride <= 3 * 0x7FFF_FFFFu64 + 3, frame.height <= 0x7FFF_FFFF;
    let image_size = row_stride * (frame.height as u64);
    if image_size > 0xFFFF_FFFF - 54 {
        return Err(MediaError::unsupported("BMP output exceeds 4 GiB file-size field"));
    }
    let file_size = (image_size + 54) as u32;
    let mut output: Vec<u8> = Vec::new();
    output.push(66);
    output.push(77);
    push_le(&mut output, file_size as u64, 4);
    push_le(&mut output, 0, 4);
    push_le(&mut output, 54, 4);
    push_le(&mut output, 40, 4);
    push_le(&mut output, frame.width as u64, 4);
    push_le(&mut output, frame.height as u64, 4);
    push_le(&mut output, 1, 2);
    push_le(&mut output, 24, 2);
    push_le(&mut output, 0, 4);
    push_le(&mut output, image_size, 4);
    push_le(&mut output, 0, 8);
    push_le(&mut output, 0, 8);
    proof {
        lemma_le_zero_split();
    }
    let ghost header = output@;
    assert(header =~= bmp_header(frame.width as nat, frame.height as nat, image_size as nat));
    proof {
        lemma_bmp_header_len(frame.width as nat, frame.height as nat, image_size as nat);
    }
    assert(row_stride <= image_size || frame.height == 0) by (nonlinear_arith)
        requires image_size == row_stride * frame.height;
    proof {
        lemma_align4_ge(row_bytes as nat);
    }
    let w = frame.width as usize;
    if frame.height == 0 {
        return Err(MediaError::invalid_argument("BMP frame has no rows"));
    }
    let stride = row_stride as usize;
    let padding = stride - 3 * w;
    let mut r: u32 = 0;
    while r < frame.height
        invariant
            frame.wf(),
            frame.format == PixelFormat::Rgb24,
            w == frame.width,
            stride == align4(3 * frame.width as nat),
            stride >= 3 * w,
            padding == stride - 3 * w,
            header.len() == 54,
            r <= frame.height,
            output@.len() == 54 + r * stride,
            output@.subrange(0, 54) == header,
            forall|rr: int, i: int| 0 <= rr < r && 0 <= i < stride ==> #[trigger] output@[54 + rr * stride + i] == bmp_raster_byte(*frame, rr, i),
        decreases frame.height - r,
    {
        let y = frame.height - 1 - r;
        let row = match frame.row(y) {
            Ok(row) => row,
            Err(e) => return Err(e),
        };
        assert(frame.linesize == 3 * frame.width);
        assert((y + 1) * frame.linesize <= frame.linesize * frame.height) by (nonlinear_arith)
            requires y < frame.height;
        assert((y + 1) * frame.linesize == y * frame.linesize + frame.linesize) by (nonlinear_arith);
        let ghost before = output@;
        let mut x: usize = 0;
        while x < w
            invariant
                w == frame.width,
                row@.len() == 3 * w,
                row@ == frame.data@.subrange(y * frame.linesize, (y + 1) * frame.linesize),
                frame.linesize == 3 * frame.width,
                x <= w,
                output@.len() == before.len() + 3 * x,
                output@.subrange(0, before.len() as int) == before,
                forall|i: int| 0 <= i < 3 * x ==> #[trigger] output@[before.len() + i] == row@[(i / 3) * 3 + (2 - i % 3)],
            decreases w - x,
        {
            output.push(row[3 * x + 2]);
            output.push(row[3 * x + 1]);
            output.push(row[3 * x]);
            proof {
                assert(output@.subrange(0, before.len() as int) =~= before);
                assert forall|i: int| 0 <= i < 3 * (x + 1) implies #[trigger] output@[before.len() + i] == row@[(i / 3) * 3 + (2 - i % 3)] by {
                    if i >= 3 * x {
                        assert(i / 3 == x) by (nonlinear_arith)
                            requires 3 * x <= i < 3 * x + 3;
                    }
                }
            }
            x += 1;
        }
        let ghost mid = output@;
        push_zeros(&mut output, padding);
        proof {
            assert(output@.subrange(0, 54) =~= header) by {
                assert(output@.subrange(0, before.len() as int).subrange(0, 54) =~= output@.subrange(0, 54));
            }
            lemma_row_written(*frame, before, mid, output@, row@, r as int, stride as int, y as int);
            assert forall|rr: int, i: int| 0 <= rr < r + 1 && 0 <= i < stride implies #[trigger] output@[54 + rr * stride + i] == bmp_raster_byte(*frame, rr, i) by {
                if rr < r {
                    assert(54 + rr * stride + i < before.len()) by (nonlinear_arith)
                        requires rr < r, i < stride, before.len() == 54 + r * stride;
                    let j = 54 + rr * stride + i;
                    assert(output@[j] == output@.subrange(0, mid.len() as int)[j]);
                    assert(mid[j] == mid.subrange(0, before.len() as int)[j]);
                    assert(before[j] == bmp_raster_byte(*frame, rr, i));
                } else {
                    assert(54 + rr * stride + i == before.len() + i) by (nonlinear_arith)
                        requires rr == r, before.len() == 54 + r * stride;
                    assert(output@[before.len() + i] == bmp_raster_byte(*frame, rr, i));
                }
            }
            assert(output@.len() == 54 + (r + 1) * stride) by (nonlinear_arith)
                requires output@.len() == before.len() + 3 * w + padding, before.len() == 54 + r * stride, padding == stride - 3 * w;
        }
        r += 1;
    }
    assert(image_size == stride * frame.height);
    assert(stride == align4(3 * frame.width as nat));
    assert(output@.len() == 54 + stride * frame.height) by (nonlinear_arith)
        requires output@.len() == 54 + r * stride, r == frame.height;
    assert(output@.subrange(0, 54) == bmp_header(frame.width as nat, frame.height as nat, (stride as nat) * (frame.height as nat)));
    Ok(output)
}

/// One stored row: the BGR bytes of frame row `y` from `mid`, then zero padding.
proof fn lemma_row_written(
    frame: VideoFrame,
    before: Seq<u8>,
    mid: Seq<u8>,
    out: Seq<u8>,
    row: Seq<u8>,
    r: int,
    stride: int,
    y: int,
)
    requires
        frame.wf(),
        frame.format == PixelFormat::Rgb24,
        0 <= r < frame.height,
        y == frame.height - 1 - r,
        stride >= 3 * frame.width,
        row.len() == 3 * frame.width,
        (y + 1) * frame.linesize <= frame.data@.len(),
        row == frame.data@.subrange(y * frame.linesize, (y + 1) * frame.linesize),
        mid.len() == before.len() + 3 * frame.width,
        forall|i: int| 0 <= i < 3 * frame.width ==> #[trigger] mid[before.len() + i] == row[(i / 3) * 3 + (2 - i % 3)],
        out.len() == mid.len() + (stride - 3 * frame.width),
        out.subrange(0, mid.len() as int) == mid,
        forall|i: int| mid.len() <= i < out.len() ==> #[trigger] out[i] == 0,
    ensures
        forall|i: int| 0 <= i < stride ==> #[trigger] out[before.len() + i] == bmp_raster_byte(frame, r, i),
{
    let w = frame.width as int;
    assert(spec_bpp(frame.format) == 3);
    assert(frame.linesize == frame.width * spec_bpp(frame.format));
    assert(frame.linesize == frame.width * 3);
    assert(frame.linesize == 3 * w);
    assert(0 <= y * frame.linesize) by (nonlinear_arith)
        requires 0 <= y, 0 <= frame.linesize;
    assert((y + 1) * frame.linesize == y * frame.linesize + frame.linesize) by (nonlinear_arith);
    assert forall|i: int| 0 <= i < stride implies #[trigger] out[before.len() + i] == bmp_raster_byte(frame, r, i) by {
        if i < 3 * w {
            let k = (i / 3) * 3 + (2 - i % 3);
            assert(0 <= k < 3 * w) by (nonlinear_arith)
                requires 0 <= i < 3 * w, k == (i / 3) * 3 + (2 - i % 3);
            assert(y * frame.linesize + k == ((frame.height - 1 - r) * w + i / 3) * 3 + (2 - i % 3)) by (nonlinear_arith)
                requires y == frame.height - 1 - r, frame.linesize == 3 * w, k == (i / 3) * 3 + (2 - i % 3);
            assert(out[before.len() + i] == out.subrange(0, mid.len() as int)[before.len() + i]);
            assert(mid[before.len() + i] == row[k]);
            assert(row[k] == frame.data@[y * frame.linesize + k]);
        } else {
            assert(out[before.len() + i] == 0);
        }
    }
}

fn push_zeros(out: &mut Vec<u8>, count: usize)
    ensures
        final(out)@.len() == old(out)@.len() + count,
        final(out)@.subrange(0, old(out)@.len() as int) == old(out)@,
        forall|i: int| old(out)@.len() <= i < final(out)@.len() ==> #[trigger] final(out)@[i] == 0,
{
    let z = zeroed(count);
    push_slice(out, z.as_slice());
    assert(out@.subrange(0, old(out)@.len() as int) =~= old(out)@);
}

fn push_le(out: &mut Vec<u8>, value: u64, n: usize)
    requires
        n <= 8,
    ensures
        final(out)@ == old(out)@ + le_bytes(value as nat, n as nat),
{
    let mut v = value;
    let mut i: usize = 0;
    while i < n
        invariant
            i <= n,
            out@ + le_bytes(v as nat, (n - i) as nat) == old(out)@ + le_bytes(value as nat, n as nat),
        decreases n - i,
    {
        proof {
            assert(le_bytes(v as nat, (n - i) as nat) =~= seq![(v % 256) as u8] + le_bytes(
                (v / 256) as nat,
                (n - i - 1) as nat,
            ));
        }
        out.push((v % 256) as u8);
        v = v / 256;
        i += 1;
        proof {
            assert(out@ + le_bytes(v as nat, (n - i) as nat) =~= old(out)@ + le_bytes(value as nat, n as nat));
        }
    }
    assert(le_bytes(v as nat, 0) =~= Seq::<u8>::empty());
    assert(out@ =~= old(out)@ + le_bytes(value as nat, n as nat));
}

proof fn lemma_align4_ge(v: nat)
    ensures
        align4(v) >= v,
        align4(v) <= v + 3,
{
    vstd::arithmetic::div_mod::lemma_fundamental_div_mod((v + 3) as int, 4);
    vstd::arithmetic::div_mod::lemma_mod_pos_bound((v + 3) as int, 4);
}

proof fn lemma_le_zero_concat(a: nat, b: nat)
    ensures
        le_bytes(0, a + b) == le_bytes(0, a) + le_bytes(0, b),
    decreases a,
{
    if a == 0 {
        assert(le_bytes(0, 0) + le_bytes(0, b) =~= le_bytes(0, b));
    } else {
        lemma_le_zero_concat((a - 1) as nat, b);
        assert(le_bytes(0, a + b) =~= le_bytes(0, a) + le_bytes(0, b));
    }
}

proof fn lemma_le_zero_split()
    ensures
        le_bytes(0, 16) == le_bytes(0, 8) + le_bytes(0, 8),
{
    lemma_le_zero_concat(8, 8);
}

proof fn lemma_bmp_header_len(width: nat, height: nat, image_size: nat)
    ensures
        bmp_header(width, height, image_size).len() == 54,
{
    crate::byteio::lemma_le_roundtrip_len(54 + image_size, 4);
    crate::byteio::lemma_le_roundtrip_len(0, 4);
    crate::byteio::lemma_le_roundtrip_len(54, 4);
    crate::byteio::lemma_le_roundtrip_len(40, 4);
    crate::byteio::lemma_le_roundtrip_len(width, 4);
    crate::byteio::lemma_le_roundtrip_len(height, 4);
    crate::byteio::lemma_le_roundtrip_len(1, 2);
    crate::byteio::lemma_le_roundtrip_len(24, 2);
    crate::byteio::lemma_le_roundtrip_len(image_size, 4);
    crate::byteio::lemma_le_roundtrip_len(0, 16);
}

/// The fields of `bmp_header`, each at its offset.
proof fn lemma_bmp_header_fields(w: nat, h: nat, image: nat)
    ensures
        ({
            let hdr = bmp_header(w, h, image);
            &&& hdr.len() == 54
            &&& hdr[0] == 66 && hdr[1] == 77
            &&& hdr.subrange(2, 6) == le_bytes(54 + image, 4)
            &&& hdr.subrange(10, 14) == le_bytes(54, 4)
            &&& hdr.subrange(14, 18) == le_bytes(40, 4)
            &&& hdr.subrange(18, 22) == le_bytes(w, 4)
            &&& hdr.subrange(22, 26) == le_bytes(h, 4)
            &&& hdr.subrange(26, 28) == le_bytes(1, 2)
            &&& hdr.subrange(28, 30) == le_bytes(24, 2)
            &&& hdr.subrange(30, 34) == le_bytes(0, 4)
        }),
{
    lemma_bmp_header_len(w, h, image);
    let p0 = seq![66u8, 77u8];
    let p1 = le_bytes(54 + image, 4);
    let p2 = le_bytes(0, 4);
    let p3 = le_bytes(54, 4);
    let p4 = le_bytes(40, 4);
    let p5 = le_bytes(w, 4);
    let p6 = le_bytes(h, 4);
    let p7 = le_bytes(1, 2);
    let p8 = le_bytes(24, 2);
    let p9 = le_bytes(0, 4);
    let p10 = le_bytes(image, 4);
    let p11 = le_bytes(0, 16);
    crate::byteio::lemma_le_roundtrip_len(54 + image, 4);
    crate::byteio::lemma_le_roundtrip_len(0, 4);
    crate::byteio::lemma_le_roundtrip_len(54, 4);
    crate::byteio::lemma_le_roundtrip_len(40, 4);
    crate::byteio::lemma_le_roundtrip_len(w, 4);
    crate::byteio::lemma_le_roundtrip_len(h, 4);
    crate::byteio::lemma_le_roundtrip_len(1, 2);
    crate::byteio::lemma_le_roundtrip_len(24, 2);
    crate::byteio::lemma_le_roundtrip_len(image, 4);
    crate::byteio::lemma_le_roundtrip_len(0, 16);
    let a = p0 + p1 + p2 + p3 + p4 + p5 + p6 + p7 + p8 + p9;
    let hdr = bmp_header(w, h, image);
    assert(hdr == a + p10 + p11);
    assert(hdr.subrange(0, 34) =~= a);
    assert(a.subrange(2, 6) =~= p1);
    assert(a.subrange(10, 14) =~= p3);
    assert(a.subrange(14, 18) =~= p4);
    assert(a.subrange(18, 22) =~= p5);
    assert(a.subrange(22, 26) =~= p6);
    assert(a.subrange(26, 28) =~= p7);
    assert(a.subrange(28, 30) =~= p8);
    assert(a.subrange(30, 34) =~= p9);
    assert(hdr.subrange(2, 6) =~= a.subrange(2, 6));
    assert(hdr.subrange(10, 14) =~= a.subrange(10, 14));
    assert(hdr.subrange(14, 18) =~= a.subrange(14, 18));
    assert(hdr.subrange(18, 22) =~= a.subrange(18, 22));
    assert(hdr.subrange(22, 26) =~= a.subrange(22, 26));
    assert(hdr.subrange(26, 28) =~= a.subrange(26, 28));
    assert(hdr.subrange(28, 30) =~= a.subrange(28, 30));
    assert(hdr.subrange(30, 34) =~= a.subrange(30, 34));
    assert(hdr[0] == a[0] && hdr[1] == a[1]);
}

/// What `encode_bmp` writes passes every check of `decode_bmp`.
pub proof fn lemma_bmp_encoded_accepted(frame: VideoFrame, out: Seq<u8>)
    requires
        frame.wf(),
        frame.format == PixelFormat::Rgb24,
        frame.width <= i32::MAX,
        frame.height <= i32::MAX,
        54 + align4(3 * frame.width as nat) * frame.height <= u32::MAX,
        bmp_encoded(frame, out),
    ensures
        bmp_check(out) is None,
        bmp_width(out) == frame.width,
        bmp_height(out) == frame.height,
        bmp_bytes_per_pixel(out) == 3,
        bmp_pixel_offset(out) == 54,
        bmp_stride(out) == align4(3 * frame.width as nat),
{
    let w = frame.width as nat;
    let h = frame.height as nat;
    let stride = align4(3 * w);
    let image = stride * h;
    let hdr = bmp_header(w, h, image);
    lemma_bmp_header_fields(w, h, image);
    let head = out.subrange(0, 54);
    assert(head == hdr);
    assert(out.subrange(2, 6) =~= head.subrange(2, 6));
    assert(out.subrange(10, 14) =~= head.subrange(10, 14));
    assert(out.subrange(14, 18) =~= head.subrange(14, 18));
    assert(out.subrange(18, 22) =~= head.subrange(18, 22));
    assert(out.subrange(22, 26) =~= head.subrange(22, 26));
    assert(out.subrange(26, 28) =~= head.subrange(26, 28));
    assert(out.subrange(28, 30) =~= head.subrange(28, 30));
    assert(out.subrange(30, 34) =~= head.subrange(30, 34));
    assert(out[0] == head[0] && out[1] == head[1]);
    lemma_le32_of(out, 2, 54 + image);
    lemma_le32_of(out, 10, 54);
    lemma_le32_of(out, 14, 40);
    lemma_le32_of(out, 18, w);
    lemma_le32_of(out, 22, h);
    lemma_le32_of(out, 30, 0);
    lemma_le16_of(out, 26, 1);
    lemma_le16_of(out, 28, 24);
    assert(bmp_width(out) == w);
    assert(bmp_height(out) == h);
    assert(frame.data@.len() == w * h * 3) by (nonlinear_arith)
        requires frame.data@.len() == w * 3 * h;
    assert(w * h <= usize::MAX / 3) by (nonlinear_arith)
        requires w * h * 3 <= usize::MAX;
}

/// Decoding what `encode_bmp` writes gives back the frame's pixels.
pub proof fn lemma_bmp_roundtrip(frame: VideoFrame, out: Seq<u8>, decoded: VideoFrame)
    requires
        frame.wf(),
        frame.format == PixelFormat::Rgb24,
        frame.width <= i32::MAX,
        frame.height <= i32::MAX,
        54 + align4(3 * frame.width as nat) * frame.height <= u32::MAX,
        bmp_encoded(frame, out),
        bmp_decodes_to(out, decoded),
    ensures
        decoded.width == frame.width,
        decoded.height == frame.height,
        decoded.format == frame.format,
        decoded.data@ == frame.data@,
{
    lemma_bmp_encoded_accepted(frame, out);
    let w = frame.width as int;
    let h = frame.height as int;
    let stride = align4(3 * frame.width as nat) as int;
    lemma_align4_ge(3 * frame.width as nat);
    assert(decoded.data@.len() == frame.data@.len());
    assert forall|k: int| 0 <= k < frame.data@.len() implies decoded.data@[k] == frame.data@[k] by {
        assert(frame.data@.len() == w * h * 3) by (nonlinear_arith)
            requires frame.data@.len() == w * 3 * h;
        let (y, x, c) = crate::video::lemma_pixel_decompose(k, w, h, 3);
        let r = h - 1 - y;
        let i = x * 3 + (2 - c);
        assert(0 <= i < 3 * w);
        assert(decoded.data@[(y * w + x) * 3 + c] == out[54 + r * stride + i]);
        assert(out[54 + r * stride + i] == bmp_raster_byte(frame, r, i));
        assert(i / 3 == x && i % 3 == 2 - c) by (nonlinear_arith)
            requires i == x * 3 + (2 - c), 0 <= c < 3, 0 <= x;
    }
    assert(decoded.data@ =~= frame.data@);
}

} // verus!

use vstd::prelude::*;

use crate::byteio::be_bytes;
use crate::bytes_util::push_slice;
use crate::checksum::spec_adler32;
use crate::error::{ErrorKind, MediaError, Result};
use crate::deflate_encode::{empty_table, fixed_block_bits, greedy_parse, packed_lsb};
use crate::png::{format_color_type, png_file, spec_decode_png, write_png_file, MAX_PIXELS};
use crate::png_filter::{best_filter, choose_filter, filter_row, filter_spec};
use crate::video::{spec_bpp, PixelFormat, VideoFrame};
use crate::zlib;

verus! {

/// IDAT payloads of the adaptive encoder are split at 64 KiB.
pub const IDAT_CHUNK_SIZE: usize = 65536;

/// The filter a row gets: the fixed type, or the cheapest when `None`.
pub open spec fn row_filter(fixed: Option<u8>, raw: Seq<u8>, prev: Seq<u8>, bpp: nat) -> u8 {
    match fixed {
        Some(f) => f,
        None => best_filter(raw, prev, bpp),
    }
}

/// Row `r` of an image with rows of `stride` bytes.
pub open spec fn image_row(data: Seq<u8>, r: int, stride: nat) -> Seq<u8> {
    data.subrange(r * stride, r * stride + stride)
}

/// The first `rows` rows of `data`, each behind its filter byte and filtered
/// against the row above (zeros above the first).
pub open spec fn scanlines_spec(data: Seq<u8>, rows: nat, stride: nat, bpp: nat, fixed: Option<u8>) -> Seq<u8>
    decreases rows,
{
    if rows == 0 {
        Seq::empty()
    } else {
        let r = rows - 1;
        let raw = image_row(data, r, stride);
        let prev = if r == 0 {
            Seq::new(stride, |_i: int| 0u8)
        } else {
            image_row(data, r - 1, stride)
        };
        let f = row_filter(fixed, raw, prev, bpp);
        scanlines_spec(data, r as nat, stride, bpp, fixed) + seq![f] + filter_spec(f, raw, prev, bpp)
    }
}

/// Filters every row of a `rows` x `stride` raster with the fixed filter
/// type, or per row with the cheapest type.
pub fn filter_scanlines(data: &[u8], rows: usize, stride: usize, bpp: usize, fixed: Option<u8>) -> (out: Vec<u8>)
    requires
        bpp >= 1,
        rows * stride <= data@.len(),
        fixed matches Some(f) ==> f <= 4,
    ensures
        out@ == scanlines_spec(data@, rows as nat, stride as nat, bpp as nat, fixed),
{
    let zeros = crate::bytes_util::zeroed(stride);
    let n = data.len();
    let mut output: Vec<u8> = Vec::new();
    let mut r: usize = 0;
    while r < rows
        invariant
            bpp >= 1,
            n == data@.len(),
            rows * stride <= data@.len(),
            zeros@ == Seq::new(stride as nat, |_i: int| 0u8),
            r <= rows,
            output@ == scanlines_spec(data@, r as nat, stride as nat, bpp as nat, fixed),
        decreases rows - r,
    {
        assert(r * stride + stride <= rows * stride) by (nonlinear_arith)
            requires r < rows;
        let raw = vstd::slice::slice_subrange(data, r * stride, r * stride + stride);
        let prev = if r == 0 {
            zeros.as_slice()
        } else {
            assert((r - 1) * stride + stride == r * stride) by (nonlinear_arith)
                requires r >= 1;
            vstd::slice::slice_subrange(data, (r - 1) * stride, r * stride)
        };
        let (f, encoded) = match fixed {
            Some(f) => (f, filter_row(f, raw, prev, bpp)),
            None => choose_filter(raw, prev, bpp),
        };
        output.push(f);
        push_slice(&mut output, encoded.as_slice());
        r += 1;
    }
    output
}

/// What `zlib::compress` gives for `input`: header 78 5E, the greedy
/// fixed-Huffman DEFLATE block, the Adler-32 of `input`; it decompresses
/// back to `input`.
pub open spec fn zlib_compressed(input: Seq<u8>, z: Seq<u8>) -> bool {
    &&& z.len() >= 6
    &&& z == seq![0x78u8, 0x5Eu8] + packed_lsb(fixed_block_bits(greedy_parse(input, 0, empty_table()))) + be_bytes(
        spec_adler32(input),
        4,
    )
    &&& crate::deflate_encode::fixed_block_encodes(z.subrange(2, z.len() - 4), input)
    &&& crate::zlib::spec_decompress(z, input.len()) == Ok::<Seq<u8>, ErrorKind>(input)
}

/// Encodes an 8-bit frame as a non-interlaced PNG, each row with the
/// cheapest of the five filters, the scanlines DEFLATE-compressed, IDAT
/// chunks of at most 64 KiB.
pub fn encode_png(frame: &VideoFrame) -> (r: Result<Vec<u8>>)
    requires
        frame.wf(),
    ensures
        match r {
            Ok(out) => exists|z: Seq<u8>|
                #[trigger] zlib_compressed(
                    scanlines_spec(frame.data@, frame.height as nat, frame.linesize as nat, spec_bpp(frame.format), None),
                    z,
                ) && out@ == png_file(
                    frame.width,
                    frame.height,
                    format_color_type(frame.format),
                    z,
                    IDAT_CHUNK_SIZE as nat,
                ),
            Err(e) => e@ == ErrorKind::InvalidArgument || e@ == ErrorKind::Overflow,
        },
        scanlines_spec(frame.data@, frame.height as nat, frame.linesize as nat, spec_bpp(frame.format), None).len() <= (
        usize::MAX - 9) / 2 ==> r is Ok,
        r matches Ok(out) ==> (frame.width * frame.height <= MAX_PIXELS ==> spec_decode_png(out@) == Ok::<
            (u32, u32, PixelFormat, Seq<u8>),
            ErrorKind,
        >((frame.width, frame.height, frame.format, frame.data@))),
{
    let color_type: u8 = match frame.format {
        PixelFormat::Gray8 => 0,
        PixelFormat::Rgb24 => 2,
        PixelFormat::GrayAlpha8 => 4,
        PixelFormat::Rgba32 => 6,
    };
    let bpp = frame.format.bytes_per_pixel();
    let data = frame.data.as_slice();
    assert(frame.height * frame.linesize <= data@.len()) by (nonlinear_arith)
        requires data@.len() == frame.linesize * frame.height;
    let filtered = filter_scanlines(data, frame.height as usize, frame.linesize, bpp, None);
    let compressed = match zlib::compress(filtered.as_slice()) {
        Ok(c) => c,
        Err(e) => return Err(e),
    };
    let out = write_png_file(frame.width, frame.height, color_type, compressed.as_slice(), IDAT_CHUNK_SIZE);
    assert(zlib_compressed(filtered@, compressed@));
    proof {
        assert(frame.height * frame.linesize <= data@.len()) by (nonlinear_arith)
            requires data@.len() == frame.linesize * frame.height;
        crate::png_roundtrip::lemma_scanlines_len(
            data@,
            frame.height as nat,
            frame.linesize as nat,
            spec_bpp(frame.format),
            None,
        );
        if frame.width * frame.height <= MAX_PIXELS {
            crate::png_roundtrip::lemma_png_file_decodes(*frame, None, compressed@, IDAT_CHUNK_SIZE as nat);
        }
    }
    Ok(out)
}

} // verus!

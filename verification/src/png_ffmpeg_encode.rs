use vstd::prelude::*;

use crate::byteio::be_bytes;
use crate::bytes_util::{push_be32, push_slice};
use crate::checksum::spec_adler32;
use crate::error::{ErrorKind, MediaError, Result};
use crate::png::{
    be4, format_color_type, ihdr_payload, spec_decode_png, MAX_PIXELS, idat_chunks, lemma_be4, png_chunk, png_signature, signature, tag,
    tag_bytes, write_chunk, write_idat_chunks,
};
use crate::png_encode::{filter_scanlines, scanlines_spec};
use crate::png_roundtrip::{lemma_be4_reads_back, lemma_chunks_decode, lemma_phys_file_chunks, lemma_scanlines_len};
use crate::adam7_roundtrip::{interlaced_payload, lemma_adam7_file_decodes, lemma_file7_chunks};
use crate::png_options::{default_png_options, options_valid, spec_dots_per_meter, spec_filter_type, PngEncodeOptions};
use crate::video::{spec_bpp, PixelFormat, VideoFrame};
use crate::deflate_encode::{fixed_block_bits, packed_lsb};
use crate::deflate_level::{chain_parse, empty_chains, spec_search_limit};
use crate::zlib::{compress_with_level, spec_compress_stored, spec_flevel};

verus! {

/// IDAT payloads are split at 64 KiB.
pub const IDAT_CHUNK_SIZE: usize = 65536;

/// Adam7 pass `i` (0 to 6): first column, first row, column step, row step.
pub open spec fn adam7_pass(i: nat) -> (nat, nat, nat, nat) {
    if i == 0 {
        (0, 0, 8, 8)
    } else if i == 1 {
        (4, 0, 8, 8)
    } else if i == 2 {
        (0, 4, 4, 8)
    } else if i == 3 {
        (2, 0, 4, 4)
    } else if i == 4 {
        (0, 2, 2, 4)
    } else if i == 5 {
        (1, 0, 2, 2)
    } else {
        (0, 1, 1, 2)
    }
}

pub(crate) fn pass_at(i: usize) -> (p: (usize, usize, usize, usize))
    requires
        i < 7,
    ensures
        (p.0 as nat, p.1 as nat, p.2 as nat, p.3 as nat) == adam7_pass(i as nat),
        p.2 >= 1 && p.3 >= 1,
{
    if i == 0 {
        (0, 0, 8, 8)
    } else if i == 1 {
        (4, 0, 8, 8)
    } else if i == 2 {
        (0, 4, 4, 8)
    } else if i == 3 {
        (2, 0, 4, 4)
    } else if i == 4 {
        (0, 2, 2, 4)
    } else if i == 5 {
        (1, 0, 2, 2)
    } else {
        (0, 1, 1, 2)
    }
}

/// How many of `start, start + step, ...` lie below `total`.
pub open spec fn extent_spec(total: nat, start: nat, step: nat) -> nat {
    if total <= start {
        0
    } else {
        ((total - start - 1) / step as int + 1) as nat
    }
}

pub(crate) fn extent(total: usize, start: usize, step: usize) -> (n: usize)
    requires
        step >= 1,
    ensures
        n == extent_spec(total as nat, start as nat, step as nat),
        n <= total,
{
    if total <= start {
        0
    } else {
        let t = total - start - 1;
        assert(t / step <= t) by (nonlinear_arith)
            requires step >= 1, t >= 0;
        t / step + 1
    }
}

pub(crate) proof fn lemma_extent_bound(total: nat, start: nat, step: nat, i: nat)
    requires
        step >= 1,
        i < extent_spec(total, start, step),
    ensures
        start + i * step < total,
{
    let t = total - start - 1;
    let q = t / step as int;
    vstd::arithmetic::div_mod::lemma_fundamental_div_mod(t, step as int);
    vstd::arithmetic::div_mod::lemma_mod_pos_bound(t, step as int);
    assert(i * step <= q * step) by (nonlinear_arith)
        requires i <= q, step >= 1;
}

/// Pixels `x0, x0 + dx, ...` (`n` of them) of raster row `y`.
pub open spec fn pass_row(data: Seq<u8>, stride: nat, bpp: nat, y: nat, x0: nat, dx: nat, n: nat) -> Seq<u8>
    decreases n,
{
    if n == 0 {
        Seq::empty()
    } else {
        let x = x0 + (n - 1) * dx;
        pass_row(data, stride, bpp, y, x0, dx, (n - 1) as nat) + data.subrange(y * stride + x * bpp, y * stride + x * bpp + bpp)
    }
}

/// The sub-image of one pass: its first `rows` rows, `n` pixels each.
pub open spec fn pass_image(data: Seq<u8>, stride: nat, bpp: nat, x0: nat, y0: nat, dx: nat, dy: nat, n: nat, rows: nat) -> Seq<u8>
    decreases rows,
{
    if rows == 0 {
        Seq::empty()
    } else {
        pass_image(data, stride, bpp, x0, y0, dx, dy, n, (rows - 1) as nat) + pass_row(data, stride, bpp, (y0 + (rows - 1) * dy) as nat, x0, dx, n)
    }
}

/// The Adam7 scanlines of passes `i` to 6, each pass filtered as an image
/// of its own; empty passes contribute nothing.
pub open spec fn adam7_from(data: Seq<u8>, w: nat, h: nat, bpp: nat, fixed: Option<u8>, i: nat) -> Seq<u8>
    decreases 7 - i,
{
    if i >= 7 {
        Seq::empty()
    } else {
        let (x0, y0, dx, dy) = adam7_pass(i);
        let pw = extent_spec(w, x0, dx);
        let ph = extent_spec(h, y0, dy);
        let this = if pw == 0 || ph == 0 {
            Seq::empty()
        } else {
            scanlines_spec(pass_image(data, w * bpp, bpp, x0, y0, dx, dy, pw, ph), ph, pw * bpp, bpp, fixed)
        };
        this + adam7_from(data, w, h, bpp, fixed, i + 1)
    }
}

pub proof fn lemma_pass_row_len(data: Seq<u8>, stride: nat, bpp: nat, y: nat, x0: nat, dx: nat, n: nat)
    requires
        forall|k: nat| k < n ==> #[trigger] (y * stride + (x0 + k * dx) * bpp + bpp) <= data.len(),
    ensures
        pass_row(data, stride, bpp, y, x0, dx, n).len() == n * bpp,
    decreases n,
{
    if n > 0 {
        lemma_pass_row_len(data, stride, bpp, y, x0, dx, (n - 1) as nat);
        let k = (n - 1) as nat;
        assert(y * stride + (x0 + k * dx) * bpp + bpp <= data.len());
        assert(y * stride + (x0 + k * dx) * bpp >= 0) by (nonlinear_arith);
        assert(n * bpp == k * bpp + bpp) by (nonlinear_arith)
            requires k == n - 1;
    } else {
        assert(n * bpp == 0) by (nonlinear_arith)
            requires n == 0;
    }
}

fn build_pass_row(data: &[u8], stride: usize, bpp: usize, y: usize, x0: usize, dx: usize, n: usize, w: usize, h: usize, out: &mut Vec<u8>)
    requires
        y < h,
        dx >= 1,
        bpp >= 1,
        stride == w * bpp,
        data@.len() == stride * h,
        forall|k: nat| k < n ==> #[trigger] (x0 + k * dx) < w,
    ensures
        final(out)@ == old(out)@ + pass_row(data@, stride as nat, bpp as nat, y as nat, x0 as nat, dx as nat, n as nat),
{
    let len = data.len();
    let ghost o = out@;
    let mut k: usize = 0;
    while k < n
        invariant
            y < h,
            dx >= 1,
            bpp >= 1,
            stride == w * bpp,
            data@.len() == stride * h,
            len == data@.len(),
            forall|j: nat| j < n ==> #[trigger] (x0 + j * dx) < w,
            k <= n,
            out@ == o + pass_row(data@, stride as nat, bpp as nat, y as nat, x0 as nat, dx as nat, k as nat),
        decreases n - k,
    {
        let ghost kk = k as nat;
        assert(x0 + kk * dx < w);
        assert(y * stride + (x0 + kk * dx) * bpp + bpp <= stride * h) by (nonlinear_arith)
            requires x0 + kk * dx < w, y < h, stride == w * bpp;
        assert(k * dx <= w) by (nonlinear_arith)
            requires x0 + kk * dx < w, kk == k;
        let x = x0 + k * dx;
        let start = y * stride + x * bpp;
        let px = vstd::slice::slice_subrange(data, start, start + bpp);
        push_slice(out, px);
        k += 1;
        assert(out@ =~= o + pass_row(data@, stride as nat, bpp as nat, y as nat, x0 as nat, dx as nat, k as nat));
    }
}

/// The scanlines of Adam7 pass `i` alone.
pub open spec fn adam7_pass_scanlines(data: Seq<u8>, w: nat, h: nat, bpp: nat, fixed: Option<u8>, i: nat) -> Seq<u8> {
    let (x0, y0, dx, dy) = adam7_pass(i);
    let pw = extent_spec(w, x0, dx);
    let ph = extent_spec(h, y0, dy);
    if pw == 0 || ph == 0 {
        Seq::empty()
    } else {
        scanlines_spec(pass_image(data, w * bpp, bpp, x0, y0, dx, dy, pw, ph), ph, pw * bpp, bpp, fixed)
    }
}

fn encode_pass(data: &[u8], w: usize, h: usize, bpp: usize, stride: usize, i: usize, fixed: Option<u8>, output: &mut Vec<u8>)
    requires
        i < 7,
        bpp >= 1,
        stride == w * bpp,
        data@.len() == stride * h,
        fixed matches Some(f) ==> f <= 4,
    ensures
        final(output)@ == old(output)@ + adam7_pass_scanlines(data@, w as nat, h as nat, bpp as nat, fixed, i as nat),
{
    let (x0, y0, dx, dy) = pass_at(i);
    let pw = extent(w, x0, dx);
    let ph = extent(h, y0, dy);
    if pw == 0 || ph == 0 {
        assert(output@ =~= old(output)@ + Seq::<u8>::empty());
        return;
    }
    let mut image: Vec<u8> = Vec::new();
    let mut py: usize = 0;
    while py < ph
        invariant
            bpp >= 1,
            dx >= 1,
            dy >= 1,
            stride == w * bpp,
            data@.len() == stride * h,
            pw == extent_spec(w as nat, x0 as nat, dx as nat),
            ph == extent_spec(h as nat, y0 as nat, dy as nat),
            py <= ph,
            image@ == pass_image(data@, stride as nat, bpp as nat, x0 as nat, y0 as nat, dx as nat, dy as nat, pw as nat, py as nat),
        decreases ph - py,
    {
        proof {
            lemma_extent_bound(h as nat, y0 as nat, dy as nat, py as nat);
            assert forall|k: nat| k < pw implies #[trigger] (x0 + k * dx) < w by {
                lemma_extent_bound(w as nat, x0 as nat, dx as nat, k);
            }
        }
        assert(py * dy <= h) by (nonlinear_arith)
            requires y0 + py * dy < h;
        let y = y0 + py * dy;
        build_pass_row(data, stride, bpp, y, x0, dx, pw, w, h, &mut image);
        py += 1;
    }
    proof {
        assert forall|k: nat| k < pw implies #[trigger] (x0 + k * dx) < w by {
            lemma_extent_bound(w as nat, x0 as nat, dx as nat, k);
        }
        assert forall|r: nat| r < ph implies #[trigger] (y0 + r * dy) < h by {
            lemma_extent_bound(h as nat, y0 as nat, dy as nat, r);
        }
        lemma_pass_image_len(data@, stride as nat, bpp as nat, x0 as nat, y0 as nat, dx as nat, dy as nat, pw as nat, ph as nat, w as nat, h as nat);
    }
    assert(pw * bpp <= stride) by (nonlinear_arith)
        requires pw <= w, stride == w * bpp;
    assert(ph * (pw * bpp) <= image@.len());
    let rows = filter_scanlines(image.as_slice(), ph, pw * bpp, bpp, fixed);
    push_slice(output, rows.as_slice());
}

/// Filters all seven Adam7 passes of the frame.
fn encode_adam7_scanlines(frame: &VideoFrame, fixed: Option<u8>) -> (out: Vec<u8>)
    requires
        frame.wf(),
        fixed matches Some(f) ==> f <= 4,
    ensures
        out@ == adam7_from(frame.data@, frame.width as nat, frame.height as nat, spec_bpp(frame.format), fixed, 0),
{
    let w = frame.width as usize;
    let h = frame.height as usize;
    let bpp = frame.format.bytes_per_pixel();
    let stride = frame.linesize;
    let data = frame.data.as_slice();
    assert(data@.len() == stride * h);
    let mut output: Vec<u8> = Vec::new();
    let mut i: usize = 0;
    while i < 7
        invariant
            fixed matches Some(f) ==> f <= 4,
            bpp >= 1,
            stride == w * bpp,
            data@.len() == stride * h,
            i <= 7,
            output@ + adam7_from(data@, w as nat, h as nat, bpp as nat, fixed, i as nat) == adam7_from(data@, w as nat, h as nat, bpp as nat, fixed, 0),
        decreases 7 - i,
    {
        let ghost before = output@;
        encode_pass(data, w, h, bpp, stride, i, fixed, &mut output);
        proof {
            assert(adam7_from(data@, w as nat, h as nat, bpp as nat, fixed, i as nat) == adam7_pass_scanlines(data@, w as nat, h as nat, bpp as nat, fixed, i as nat) + adam7_from(data@, w as nat, h as nat, bpp as nat, fixed, (i + 1) as nat));
            assert(before + adam7_from(data@, w as nat, h as nat, bpp as nat, fixed, i as nat) =~= output@ + adam7_from(data@, w as nat, h as nat, bpp as nat, fixed, (i + 1) as nat));
        }
        i += 1;
    }
    proof {
        assert(output@ + Seq::<u8>::empty() =~= output@);
    }
    output
}

pub proof fn lemma_pass_image_len(data: Seq<u8>, stride: nat, bpp: nat, x0: nat, y0: nat, dx: nat, dy: nat, n: nat, rows: nat, w: nat, h: nat)
    requires
        dx >= 1,
        dy >= 1,
        stride == w * bpp,
        data.len() == stride * h,
        forall|k: nat| k < n ==> #[trigger] (x0 + k * dx) < w,
        forall|r: nat| r < rows ==> #[trigger] (y0 + r * dy) < h,
    ensures
        pass_image(data, stride, bpp, x0, y0, dx, dy, n, rows).len() == rows * (n * bpp),
    decreases rows,
{
    if rows > 0 {
        let r = (rows - 1) as nat;
        lemma_pass_image_len(data, stride, bpp, x0, y0, dx, dy, n, r, w, h);
        let y = (y0 + r * dy) as nat;
        assert(y0 + r * dy < h);
        assert forall|k: nat| k < n implies #[trigger] (y * stride + (x0 + k * dx) * bpp + bpp) <= data.len() by {
            assert(x0 + k * dx < w);
            assert(y * stride + (x0 + k * dx) * bpp + bpp <= stride * h) by (nonlinear_arith)
                requires x0 + k * dx < w, y < h, stride == w * bpp;
        }
        lemma_pass_row_len(data, stride, bpp, y, x0, dx, n);
        assert(rows * (n * bpp) == r * (n * bpp) + n * bpp) by (nonlinear_arith)
            requires r == rows - 1;
    } else {
        assert(rows * (n * bpp) == 0) by (nonlinear_arith)
            requires rows == 0;
    }
}

/// What `compress_with_level` gives for `input`: a zlib stream that
/// decompresses back to it; at level 0 exactly the stored form, at higher
/// levels the header for the level, the hash-chain fixed-Huffman block and
/// the input's Adler-32.
pub open spec fn zlib_level_output(input: Seq<u8>, level: u8, z: Seq<u8>) -> bool {
    &&& crate::zlib::spec_decompress(z, input.len()) == Ok::<Seq<u8>, ErrorKind>(input)
    &&& if level == 0 {
        z == spec_compress_stored(input)
    } else {
        &&& z.len() >= 6
        &&& z == seq![0x78u8, crate::zlib::spec_zlib_flg(level) as u8] + packed_lsb(
            fixed_block_bits(chain_parse(input, 0, empty_chains(input.len()), spec_search_limit(level))),
        ) + be_bytes(spec_adler32(input), 4)
        &&& (z[0] * 256 + z[1]) % 31 == 0
        &&& z[1] / 64 == spec_flevel(level)
        &&& crate::deflate_encode::fixed_block_encodes(z.subrange(2, z.len() - 4), input)
    }
}

/// The pHYs payload: the density in dots per metre (unit 1), or the sample
/// aspect ratio with unit 0.
pub open spec fn phys_payload(o: PngEncodeOptions) -> Seq<u8> {
    match spec_dots_per_meter(o) {
        Some(d) => be4(d as nat) + be4(d as nat) + seq![1u8],
        None => be4(o.sample_aspect_ratio.0 as nat) + be4(o.sample_aspect_ratio.1 as nat) + seq![0u8],
    }
}

/// The scanlines the encoder compresses.
pub open spec fn option_scanlines(frame: VideoFrame, o: PngEncodeOptions) -> Seq<u8> {
    let fixed = spec_filter_type(o.prediction);
    if o.interlaced {
        adam7_from(frame.data@, frame.width as nat, frame.height as nat, spec_bpp(frame.format), fixed, 0)
    } else {
        scanlines_spec(frame.data@, frame.height as nat, frame.linesize as nat, spec_bpp(frame.format), fixed)
    }
}

/// The file around compressed data `z`: signature, IHDR (with the
/// interlace flag), pHYs, IDAT chunks, IEND.
pub open spec fn options_png_file(frame: VideoFrame, o: PngEncodeOptions, z: Seq<u8>) -> Seq<u8> {
    png_signature() + png_chunk(
        tag(73, 72, 68, 82),
        be4(frame.width as nat) + be4(frame.height as nat) + seq![8u8, format_color_type(frame.format), 0u8, 0u8, if o.interlaced { 1u8 } else { 0u8 }],
    ) + png_chunk(tag(112, 72, 89, 115), phys_payload(o)) + idat_chunks(z, IDAT_CHUNK_SIZE as nat) + png_chunk(
        tag(73, 69, 78, 68),
        Seq::empty(),
    )
}

fn write_phys(output: &mut Vec<u8>, options: PngEncodeOptions)
    requires
        options_valid(options),
    ensures
        final(output)@ == old(output)@ + png_chunk(tag(112, 72, 89, 115), phys_payload(options)),
{
    let mut phys: Vec<u8> = Vec::new();
    let dpm = match options.dots_per_meter() {
        Ok(d) => d,
        Err(_) => None,
    };
    match dpm {
        Some(d) => {
            push_be32(&mut phys, d);
            push_be32(&mut phys, d);
            phys.push(1);
            proof {
                lemma_be4(d);
            }
        },
        None => {
            push_be32(&mut phys, options.sample_aspect_ratio.0);
            push_be32(&mut phys, options.sample_aspect_ratio.1);
            phys.push(0);
            proof {
                lemma_be4(options.sample_aspect_ratio.0);
                lemma_be4(options.sample_aspect_ratio.1);
            }
        },
    }
    assert(phys@ =~= phys_payload(options));
    let t = tag_bytes(112, 72, 89, 115);
    match write_chunk(output, t.as_slice(), phys.as_slice()) {
        Ok(()) => {},
        Err(_) => {
            assert(false);
        },
    }
}

fn write_options_file(frame: &VideoFrame, options: PngEncodeOptions, color_type: u8, compressed: &[u8]) -> (output: Vec<u8>)
    requires
        options_valid(options),
        color_type == format_color_type(frame.format),
    ensures
        output@ == options_png_file(*frame, options, compressed@),
{
    let mut output = signature();
    let mut ihdr: Vec<u8> = Vec::new();
    push_be32(&mut ihdr, frame.width);
    push_be32(&mut ihdr, frame.height);
    ihdr.push(8);
    ihdr.push(color_type);
    ihdr.push(0);
    ihdr.push(0);
    ihdr.push(if options.interlaced { 1 } else { 0 });
    proof {
        lemma_be4(frame.width);
        lemma_be4(frame.height);
    }
    let ihdr_type = tag_bytes(73, 72, 68, 82);
    match write_chunk(&mut output, ihdr_type.as_slice(), ihdr.as_slice()) {
        Ok(()) => {},
        Err(_) => {
            assert(false);
        },
    }
    write_phys(&mut output, options);
    write_idat_chunks(&mut output, compressed, IDAT_CHUNK_SIZE);
    let iend_type = tag_bytes(73, 69, 78, 68);
    let empty: Vec<u8> = Vec::new();
    match write_chunk(&mut output, iend_type.as_slice(), empty.as_slice()) {
        Ok(()) => {},
        Err(_) => {
            assert(false);
        },
    }
    proof {
        assert(empty@ =~= Seq::<u8>::empty());
        assert(ihdr@ =~= be4(frame.width as nat) + be4(frame.height as nat) + seq![8u8, format_color_type(frame.format), 0u8, 0u8, if options.interlaced { 1u8 } else { 0u8 }]);
        assert(output@ =~= options_png_file(*frame, options, compressed@));
    }
    output
}

fn option_filtered(frame: &VideoFrame, options: PngEncodeOptions) -> (out: Vec<u8>)
    requires
        frame.wf(),
    ensures
        out@ == option_scanlines(*frame, options),
{
    let fixed = options.prediction.filter_type();
    if options.interlaced {
        encode_adam7_scanlines(frame, fixed)
    } else {
        let data = frame.data.as_slice();
        assert(frame.height * frame.linesize <= data@.len()) by (nonlinear_arith)
            requires data@.len() == frame.linesize * frame.height;
        filter_scanlines(data, frame.height as usize, frame.linesize, frame.format.bytes_per_pixel(), fixed)
    }
}

/// A non-interlaced file written with options decodes to the frame it was
/// written from.
#[verifier::spinoff_prover]
proof fn lemma_options_file_decodes(frame: VideoFrame, o: PngEncodeOptions, z: Seq<u8>)
    requires
        frame.wf(),
        frame.width * frame.height <= MAX_PIXELS,
        !o.interlaced,
        zlib_level_output(option_scanlines(frame, o), o.compression_level, z),
    ensures
        spec_decode_png(options_png_file(frame, o, z)) == Ok::<(u32, u32, PixelFormat, Seq<u8>), ErrorKind>(
            (frame.width, frame.height, frame.format, frame.data@),
        ),
{
    let fixed = spec_filter_type(o.prediction);
    let data = frame.data@;
    let ct = format_color_type(frame.format);
    assert(frame.height * frame.linesize <= data.len()) by (nonlinear_arith)
        requires data.len() == frame.linesize * frame.height;
    lemma_scanlines_len(data, frame.height as nat, frame.linesize as nat, spec_bpp(frame.format), fixed);
    assert(frame.height * (frame.linesize + 1) == option_scanlines(frame, o).len());
    assert(z.len() >= 6);
    lemma_options_file_layout(frame, o, z);
    lemma_phys_file_chunks(frame.width, frame.height, ct, phys_payload(o), z, IDAT_CHUNK_SIZE as nat);
    lemma_chunks_decode(options_png_file(frame, o, z), frame, fixed, z);
}

/// An interlaced file written with options decodes, through the Adam7
/// pass decoder, to the frame it was written from.
#[verifier::spinoff_prover]
#[verifier::rlimit(40)]
proof fn lemma_interlaced_file_decodes(frame: VideoFrame, o: PngEncodeOptions, z: Seq<u8>)
    requires
        frame.wf(),
        frame.width * frame.height <= MAX_PIXELS,
        o.interlaced,
        zlib_level_output(option_scanlines(frame, o), o.compression_level, z),
        option_scanlines(frame, o).len() <= usize::MAX,
    ensures
        spec_decode_png(options_png_file(frame, o, z)) == Ok::<(u32, u32, PixelFormat, Seq<u8>), ErrorKind>(
            (frame.width, frame.height, frame.format, frame.data@),
        ),
{
    let fixed = spec_filter_type(o.prediction);
    let s = options_png_file(frame, o, z);
    assert(z.len() >= 6);
    lemma_interlaced_file_layout(frame, o, z);
    lemma_file7_chunks(frame, phys_payload(o), z, IDAT_CHUNK_SIZE as nat);
    lemma_adam7_file_decodes(s, frame, fixed, z);
}

/// With interlacing, the file is the interlaced header, a pHYs chunk, the
/// IDAT chunks and IEND.
proof fn lemma_interlaced_file_layout(frame: VideoFrame, o: PngEncodeOptions, z: Seq<u8>)
    requires
        o.interlaced,
    ensures
        phys_payload(o).len() == 9,
        options_png_file(frame, o, z) == png_signature() + png_chunk(tag(73, 72, 68, 82), interlaced_payload(frame))
            + png_chunk(tag(112, 72, 89, 115), phys_payload(o)) + idat_chunks(z, IDAT_CHUNK_SIZE as nat) + png_chunk(
            tag(73, 69, 78, 68),
            Seq::<u8>::empty(),
        ),
{
    lemma_be4_reads_back(0);
    assert(be4(frame.width as nat) + be4(frame.height as nat) + seq![8u8, format_color_type(frame.format), 0u8, 0u8, if o.interlaced { 1u8 } else { 0u8 }]
        == interlaced_payload(frame));
}

/// Interlacing changes the file, not the picture: with the options
/// otherwise the same, the Adam7 file and the plain file the encoder writes
/// decode to the same frame.
pub proof fn lemma_interlacing_keeps_picture(frame: VideoFrame, o: PngEncodeOptions, plain: Seq<u8>, adam7: Seq<u8>)
    requires
        frame.wf(),
        frame.width * frame.height <= MAX_PIXELS,
        zlib_level_output(option_scanlines(frame, PngEncodeOptions { interlaced: false, ..o }), o.compression_level, plain),
        zlib_level_output(option_scanlines(frame, PngEncodeOptions { interlaced: true, ..o }), o.compression_level, adam7),
        option_scanlines(frame, PngEncodeOptions { interlaced: true, ..o }).len() <= usize::MAX,
    ensures
        spec_decode_png(options_png_file(frame, PngEncodeOptions { interlaced: false, ..o }, plain)) == spec_decode_png(
            options_png_file(frame, PngEncodeOptions { interlaced: true, ..o }, adam7),
        ),
{
    lemma_options_file_decodes(frame, PngEncodeOptions { interlaced: false, ..o }, plain);
    lemma_interlaced_file_decodes(frame, PngEncodeOptions { interlaced: true, ..o }, adam7);
}

/// Without interlacing, the file is the plain layout with a pHYs chunk
/// after the header.
proof fn lemma_options_file_layout(frame: VideoFrame, o: PngEncodeOptions, z: Seq<u8>)
    requires
        !o.interlaced,
    ensures
        phys_payload(o).len() == 9,
        options_png_file(frame, o, z) == png_signature() + png_chunk(
            tag(73, 72, 68, 82),
            ihdr_payload(frame.width, frame.height, format_color_type(frame.format)),
        ) + png_chunk(tag(112, 72, 89, 115), phys_payload(o)) + idat_chunks(z, IDAT_CHUNK_SIZE as nat) + png_chunk(
            tag(73, 69, 78, 68),
            Seq::<u8>::empty(),
        ),
{
    let ct = format_color_type(frame.format);
    assert(be4(frame.width as nat) + be4(frame.height as nat) + seq![8u8, ct, 0u8, 0u8, if o.interlaced { 1u8 } else { 0u8 }]
        == ihdr_payload(frame.width, frame.height, ct));
}

/// Encodes with the default options: Paeth prediction, level 6, no pHYs
/// density, sample aspect ratio 0/1, no interlacing.
pub fn encode_png(frame: &VideoFrame) -> (r: Result<Vec<u8>>)
    requires
        frame.wf(),
    ensures
        match r {
            Ok(out) => exists|z: Seq<u8>|
                #[trigger] zlib_level_output(option_scanlines(*frame, default_png_options()), 6, z) && out@
                    == options_png_file(*frame, default_png_options(), z),
            Err(e) => e@ == ErrorKind::InvalidArgument || e@ == ErrorKind::Overflow,
        },
        option_scanlines(*frame, default_png_options()).len() <= (usize::MAX - 9) / 2 ==> r is Ok,
        r matches Ok(out) ==> (frame.width * frame.height <= MAX_PIXELS ==> spec_decode_png(out@) == Ok::<
            (u32, u32, PixelFormat, Seq<u8>),
            ErrorKind,
        >((frame.width, frame.height, frame.format, frame.data@))),
{
    encode_png_with_options(frame, PngEncodeOptions::default())
}

/// Encodes an 8-bit frame with explicit options: fixed or per-row
/// prediction, optional Adam7 interlacing, the given zlib level, and a
/// pHYs chunk.
pub fn encode_png_with_options(frame: &VideoFrame, options: PngEncodeOptions) -> (r: Result<Vec<u8>>)
    requires
        frame.wf(),
    ensures
        !options_valid(options) ==> r is Err && r->Err_0@ == ErrorKind::InvalidArgument,
        match r {
            Ok(out) => options_valid(options) && exists|z: Seq<u8>|
                #[trigger] zlib_level_output(option_scanlines(*frame, options), options.compression_level, z) && out@
                    == options_png_file(*frame, options, z),
            Err(e) => e@ == ErrorKind::InvalidArgument || e@ == ErrorKind::Overflow,
        },
        options_valid(options) && option_scanlines(*frame, options).len() <= (usize::MAX - 9) / 2 ==> r is Ok,
        r matches Ok(out) ==> (frame.width * frame.height <= MAX_PIXELS ==> spec_decode_png(out@) == Ok::<
            (u32, u32, PixelFormat, Seq<u8>),
            ErrorKind,
        >((frame.width, frame.height, frame.format, frame.data@))),
{
    let options = match options.validate() {
        Ok(o) => o,
        Err(e) => return Err(e),
    };
    let color_type: u8 = match frame.format {
        PixelFormat::Gray8 => 0,
        PixelFormat::Rgb24 => 2,
        PixelFormat::GrayAlpha8 => 4,
        PixelFormat::Rgba32 => 6,
    };
    let filtered = option_filtered(frame, options);
    let compressed = match compress_with_level(filtered.as_slice(), options.compression_level) {
        Ok(c) => c,
        Err(e) => return Err(e),
    };
    let output = write_options_file(frame, options, color_type, compressed.as_slice());
    assert(zlib_level_output(filtered@, options.compression_level, compressed@));
    proof {
        if frame.width * frame.height <= MAX_PIXELS {
            if options.interlaced {
                assert(filtered@.len() == filtered.len());
                lemma_interlaced_file_decodes(*frame, options, compressed@);
            } else {
                lemma_options_file_decodes(*frame, options, compressed@);
            }
        }
    }
    Ok(output)
}

} // verus!

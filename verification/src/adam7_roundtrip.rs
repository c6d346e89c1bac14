use vstd::prelude::*;

use crate::error::ErrorKind;
use crate::png::format_color_type;
use crate::png_adam7::{
    bits_per_pixel, channels, filter_bpp, image_byte, image_pixel, lemma_index_in_image, lemma_offset_mono, lemma_pass_covers,
    out_format, pass_col, pass_dims, pass_line, pass_of, pass_offset, pass_size, pass_stride, pass_unfiltered, pixel_value,
    sample_at, scale_spec, spec_adam7_decode, Adam7Header,
};
use crate::png_encode::scanlines_spec;
use crate::png_ffmpeg_encode::{
    adam7_from, adam7_pass, extent_spec, lemma_extent_bound, lemma_pass_image_len, lemma_pass_row_len, pass_image, pass_row,
};
use crate::png_roundtrip::{
    chunk_framed, idat_first, idat_rest, lemma_be4_reads_back, lemma_chunk_at, lemma_idat_split, lemma_scanlines_len, lemma_tags,
    lemma_unfilter_scanlines,
};
use crate::png::{be4, idat_chunks, is_lower, is_upper, png_chunk, png_signature, tag, MAX_PIXELS};
use crate::png_adam7::{adam7_start, adam7_step, adam7_walk, chunk_letters, spec_adam7_chunks, spec_parse_header, Adam7Chunks};
use crate::video::{spec_bpp, PixelFormat, VideoFrame};

verus! {

/// Pixel `c` of a pass row is the raster pixel it was taken from.
pub proof fn lemma_pass_row_pixel(data: Seq<u8>, stride: nat, bpp: nat, y: nat, x0: nat, dx: nat, n: nat, c: nat)
    requires
        c < n,
        forall|k: nat| k < n ==> #[trigger] (y * stride + (x0 + k * dx) * bpp + bpp) <= data.len(),
    ensures
        c * bpp + bpp <= pass_row(data, stride, bpp, y, x0, dx, n).len(),
        pass_row(data, stride, bpp, y, x0, dx, n).subrange((c * bpp) as int, (c * bpp + bpp) as int) == data.subrange(
            (y * stride + (x0 + c * dx) * bpp) as int,
            (y * stride + (x0 + c * dx) * bpp + bpp) as int,
        ),
    decreases n,
{
    let m = (n - 1) as nat;
    let head = pass_row(data, stride, bpp, y, x0, dx, m);
    let x = x0 + m * dx;
    let cell = data.subrange((y * stride + x * bpp) as int, (y * stride + x * bpp + bpp) as int);
    lemma_pass_row_len(data, stride, bpp, y, x0, dx, m);
    assert(y * stride + (x0 + m * dx) * bpp + bpp <= data.len());
    assert(y * stride + x * bpp >= 0) by (nonlinear_arith);
    assert(head.len() == m * bpp);
    assert(n * bpp == m * bpp + bpp) by (nonlinear_arith)
        requires m == n - 1;
    assert(pass_row(data, stride, bpp, y, x0, dx, n) == head + cell);
    if c == m {
        assert((head + cell).subrange((c * bpp) as int, (c * bpp + bpp) as int) =~= cell);
    } else {
        assert forall|k: nat| k < m implies #[trigger] (y * stride + (x0 + k * dx) * bpp + bpp) <= data.len() by {
            assert(y * stride + (x0 + k * dx) * bpp + bpp <= data.len());
        }
        lemma_pass_row_pixel(data, stride, bpp, y, x0, dx, m, c);
        assert(c * bpp + bpp <= m * bpp) by (nonlinear_arith)
            requires c < m;
        assert((head + cell).subrange((c * bpp) as int, (c * bpp + bpp) as int) =~= head.subrange(
            (c * bpp) as int,
            (c * bpp + bpp) as int,
        ));
    }
}

/// Row `r` of a pass's sub-image is the pass row taken from raster row
/// `y0 + r * dy`.
pub proof fn lemma_pass_image_row(
    data: Seq<u8>,
    stride: nat,
    bpp: nat,
    x0: nat,
    y0: nat,
    dx: nat,
    dy: nat,
    n: nat,
    rows: nat,
    w: nat,
    h: nat,
    r: nat,
)
    requires
        dx >= 1,
        dy >= 1,
        stride == w * bpp,
        data.len() == stride * h,
        forall|k: nat| k < n ==> #[trigger] (x0 + k * dx) < w,
        forall|j: nat| j < rows ==> #[trigger] (y0 + j * dy) < h,
        r < rows,
    ensures
        r * (n * bpp) + n * bpp <= pass_image(data, stride, bpp, x0, y0, dx, dy, n, rows).len(),
        pass_image(data, stride, bpp, x0, y0, dx, dy, n, rows).subrange((r * (n * bpp)) as int, (r * (n * bpp) + n * bpp) as int)
            == pass_row(data, stride, bpp, (y0 + r * dy) as nat, x0, dx, n),
    decreases rows,
{
    let m = (rows - 1) as nat;
    let head = pass_image(data, stride, bpp, x0, y0, dx, dy, n, m);
    let y = (y0 + m * dy) as nat;
    let last = pass_row(data, stride, bpp, y, x0, dx, n);
    assert forall|j: nat| j < m implies #[trigger] (y0 + j * dy) < h by {
        assert(y0 + j * dy < h);
    }
    lemma_pass_image_len(data, stride, bpp, x0, y0, dx, dy, n, m, w, h);
    lemma_pass_image_len(data, stride, bpp, x0, y0, dx, dy, n, rows, w, h);
    assert(y0 + m * dy < h);
    assert forall|k: nat| k < n implies #[trigger] (y * stride + (x0 + k * dx) * bpp + bpp) <= data.len() by {
        assert(x0 + k * dx < w);
        assert(y * stride + (x0 + k * dx) * bpp + bpp <= stride * h) by (nonlinear_arith)
            requires x0 + k * dx < w, y < h, stride == w * bpp;
    }
    lemma_pass_row_len(data, stride, bpp, y, x0, dx, n);
    assert(pass_image(data, stride, bpp, x0, y0, dx, dy, n, rows) == head + last);
    assert(head.len() == m * (n * bpp));
    assert(r * (n * bpp) >= 0) by (nonlinear_arith);
    if r == m {
        assert((head + last).subrange((r * (n * bpp)) as int, (r * (n * bpp) + n * bpp) as int) =~= last);
    } else {
        lemma_pass_image_row(data, stride, bpp, x0, y0, dx, dy, n, m, w, h, r);
        assert(r * (n * bpp) + n * bpp <= m * (n * bpp)) by (nonlinear_arith)
            requires r < m;
        assert((head + last).subrange((r * (n * bpp)) as int, (r * (n * bpp) + n * bpp) as int) =~= head.subrange(
            (r * (n * bpp)) as int,
            (r * (n * bpp) + n * bpp) as int,
        ));
    }
}

/// The header the encoder writes for an 8-bit frame.
pub open spec fn frame_header(frame: VideoFrame) -> Adam7Header {
    Adam7Header { width: frame.width, height: frame.height, bit_depth: 8, color_type: format_color_type(frame.format) }
}

/// The sub-image of pass `q` of a `w` by `h` raster.
pub open spec fn pass_pixels(data: Seq<u8>, w: nat, h: nat, bpp: nat, q: nat) -> Seq<u8> {
    let (x0, y0, dx, dy) = adam7_pass(q);
    pass_image(data, w * bpp, bpp, x0, y0, dx, dy, extent_spec(w, x0, dx), extent_spec(h, y0, dy))
}

/// Every pass steps at least one pixel each way.
pub proof fn lemma_pass_steps(q: nat)
    requires
        q < 7,
    ensures
        adam7_pass(q).2 >= 1,
        adam7_pass(q).3 >= 1,
{
}

/// At bit depth 8 a pass's scanline holds its pixels' bytes, and filtering
/// works on whole pixels.
pub proof fn lemma_frame_header_geometry(frame: VideoFrame, q: nat)
    requires
        frame.wf(),
    ensures
        channels(frame_header(frame).color_type) == spec_bpp(frame.format),
        bits_per_pixel(frame_header(frame)) == 8 * spec_bpp(frame.format),
        filter_bpp(frame_header(frame)) == spec_bpp(frame.format),
        pass_dims(frame_header(frame), q) == (
            extent_spec(frame.width as nat, adam7_pass(q).0, adam7_pass(q).2),
            extent_spec(frame.height as nat, adam7_pass(q).1, adam7_pass(q).3),
        ),
        pass_stride(frame_header(frame), q) == pass_dims(frame_header(frame), q).0 * spec_bpp(frame.format),
{
    let b = spec_bpp(frame.format);
    let pw = pass_dims(frame_header(frame), q).0;
    assert((pw * (8 * b) + 7) / 8 == pw * b) by (nonlinear_arith)
        requires b >= 1;
}

/// Every pixel the pass decoder reads back from the encoder's passes is
/// the raster pixel at the same place.
#[verifier::spinoff_prover]
#[verifier::rlimit(60)]
pub proof fn lemma_image_pixel_back(frame: VideoFrame, inflated: Seq<u8>, x: nat, y: nat)
    requires
        frame.wf(),
        x < frame.width,
        y < frame.height,
        forall|q: nat| q < 7 ==> #[trigger] pass_unfiltered(frame_header(frame), inflated, q) == Ok::<Seq<u8>, ErrorKind>(
            pass_pixels(frame.data@, frame.width as nat, frame.height as nat, spec_bpp(frame.format), q),
        ),
    ensures
        image_pixel(frame_header(frame), inflated, None, None, x, y) == Ok::<Seq<u8>, ErrorKind>(
            frame.data@.subrange(
                ((y * frame.width + x) * spec_bpp(frame.format)) as int,
                ((y * frame.width + x) * spec_bpp(frame.format) + spec_bpp(frame.format)) as int,
            ),
        ),
{
    let hd = frame_header(frame);
    let w = frame.width as nat;
    let ht = frame.height as nat;
    let b = spec_bpp(frame.format);
    let data = frame.data@;
    let stride = w * b;
    lemma_pass_covers(x, y, w, ht);
    let q = pass_of(x, y);
    let (x0, y0, dx, dy) = adam7_pass(q);
    lemma_pass_steps(q);
    let c = pass_col(x, y);
    let r = pass_line(x, y);
    let pw = extent_spec(w, x0, dx);
    let ph = extent_spec(ht, y0, dy);
    lemma_frame_header_geometry(frame, q);
    let rb = pass_stride(hd, q);
    assert(rb == pw * b);
    let unf = pass_pixels(data, w, ht, b, q);
    assert(pass_unfiltered(hd, inflated, q) == Ok::<Seq<u8>, ErrorKind>(unf));
    assert forall|k: nat| k < pw implies #[trigger] (x0 + k * dx) < w by {
        lemma_extent_bound(w, x0, dx, k);
    }
    assert forall|j: nat| j < ph implies #[trigger] (y0 + j * dy) < ht by {
        lemma_extent_bound(ht, y0, dy, j);
    }
    assert(data.len() == stride * ht);
    lemma_pass_image_row(data, stride, b, x0, y0, dx, dy, pw, ph, w, ht, r);
    let row = unf.subrange((r * rb) as int, (r * rb + rb) as int);
    assert(row == pass_row(data, stride, b, y, x0, dx, pw));
    assert forall|k: nat| k < pw implies #[trigger] (y * stride + (x0 + k * dx) * b + b) <= data.len() by {
        assert(x0 + k * dx < w);
        assert(y * stride + (x0 + k * dx) * b + b <= stride * ht) by (nonlinear_arith)
            requires x0 + k * dx < w, y < ht, stride == w * b;
    }
    lemma_pass_row_pixel(data, stride, b, y, x0, dx, pw, c);
    let px = row.subrange((c * b) as int, (c * b + b) as int);
    assert(y * stride + x * b == (y * w + x) * b) by (nonlinear_arith)
        requires stride == w * b;
    assert(px == data.subrange(((y * w + x) * b) as int, ((y * w + x) * b + b) as int));
    assert forall|k: nat| k < b implies #[trigger] scale_spec(sample_at(row, c, 8, b, k), 8) == px[k as int] by {}
    assert(image_pixel(hd, inflated, None, None, x, y) == pixel_value(hd, row, c, None, None));
    if frame.format == PixelFormat::Gray8 {
        assert(seq![scale_spec(sample_at(row, c, 8, b, 0), 8)] =~= px);
    } else if frame.format == PixelFormat::Rgb24 {
        assert(seq![scale_spec(sample_at(row, c, 8, b, 0), 8), scale_spec(sample_at(row, c, 8, b, 1), 8), scale_spec(sample_at(row, c, 8, b, 2), 8)] =~= px);
    } else if frame.format == PixelFormat::GrayAlpha8 {
        assert(seq![scale_spec(sample_at(row, c, 8, b, 0), 8), scale_spec(sample_at(row, c, 8, b, 1), 8)] =~= px);
    } else {
        assert(seq![
            scale_spec(sample_at(row, c, 8, b, 0), 8),
            scale_spec(sample_at(row, c, 8, b, 1), 8),
            scale_spec(sample_at(row, c, 8, b, 2), 8),
            scale_spec(sample_at(row, c, 8, b, 3), 8),
        ] =~= px);
    }
}

/// The scanlines the encoder writes for pass `q`: nothing for an empty
/// pass.
pub open spec fn pass_segment(data: Seq<u8>, w: nat, h: nat, bpp: nat, fixed: Option<u8>, q: nat) -> Seq<u8> {
    let (x0, y0, dx, dy) = adam7_pass(q);
    let pw = extent_spec(w, x0, dx);
    let ph = extent_spec(h, y0, dy);
    if pw == 0 || ph == 0 {
        Seq::empty()
    } else {
        scanlines_spec(pass_pixels(data, w, h, bpp, q), ph, pw * bpp, bpp, fixed)
    }
}

/// A pass's sub-image holds its pixels' bytes, and its scanlines are as
/// long as the decoder expects them.
proof fn lemma_pass_sizes(frame: VideoFrame, fixed: Option<u8>, q: nat)
    requires
        frame.wf(),
        q < 7,
    ensures
        ({
            let (x0, y0, dx, dy) = adam7_pass(q);
            let pw = extent_spec(frame.width as nat, x0, dx);
            let ph = extent_spec(frame.height as nat, y0, dy);
            let b = spec_bpp(frame.format);
            &&& pass_pixels(frame.data@, frame.width as nat, frame.height as nat, b, q).len() == ph * (pw * b)
            &&& pass_segment(frame.data@, frame.width as nat, frame.height as nat, b, fixed, q).len() == pass_size(
                frame_header(frame),
                q,
            )
        }),
{
    let w = frame.width as nat;
    let ht = frame.height as nat;
    let b = spec_bpp(frame.format);
    let (x0, y0, dx, dy) = adam7_pass(q);
    lemma_pass_steps(q);
    let pw = extent_spec(w, x0, dx);
    let ph = extent_spec(ht, y0, dy);
    assert forall|k: nat| k < pw implies #[trigger] (x0 + k * dx) < w by {
        lemma_extent_bound(w, x0, dx, k);
    }
    assert forall|j: nat| j < ph implies #[trigger] (y0 + j * dy) < ht by {
        lemma_extent_bound(ht, y0, dy, j);
    }
    lemma_pass_image_len(frame.data@, w * b, b, x0, y0, dx, dy, pw, ph, w, ht);
    lemma_frame_header_geometry(frame, q);
    if pw != 0 && ph != 0 {
        lemma_scanlines_len(pass_pixels(frame.data@, w, ht, b, q), ph, pw * b, b, fixed);
        assert(ph * (pw * b + 1) == (pw * b + 1) * ph) by (nonlinear_arith);
    }
}

/// The Adam7 scanlines from pass `i` on: pass `q` sits where the decoder
/// looks for it, and they end where the last pass ends.
#[verifier::spinoff_prover]
#[verifier::rlimit(60)]
proof fn lemma_from_layout(frame: VideoFrame, fixed: Option<u8>, i: nat)
    requires
        frame.wf(),
        i <= 7,
    ensures
        ({
            let f = adam7_from(frame.data@, frame.width as nat, frame.height as nat, spec_bpp(frame.format), fixed, i);
            let hd = frame_header(frame);
            &&& f.len() == pass_offset(hd, 7) - pass_offset(hd, i)
            &&& forall|q: nat| i <= q < 7 ==> #[trigger] f.subrange(
                pass_offset(hd, q) - pass_offset(hd, i),
                pass_offset(hd, q) - pass_offset(hd, i) + pass_size(hd, q),
            ) == pass_segment(frame.data@, frame.width as nat, frame.height as nat, spec_bpp(frame.format), fixed, q)
        }),
    decreases 7 - i,
{
    let w = frame.width as nat;
    let ht = frame.height as nat;
    let b = spec_bpp(frame.format);
    let hd = frame_header(frame);
    if i < 7 {
        lemma_from_layout(frame, fixed, i + 1);
        lemma_pass_sizes(frame, fixed, i);
        lemma_offset_mono(hd, i + 1, 7);
        let f = adam7_from(frame.data@, w, ht, b, fixed, i);
        let seg = pass_segment(frame.data@, w, ht, b, fixed, i);
        let rest = adam7_from(frame.data@, w, ht, b, fixed, i + 1);
        assert(f == seg + rest);
        assert(pass_offset(hd, i + 1) == pass_offset(hd, i) + pass_size(hd, i));
        assert forall|q: nat| i <= q < 7 implies #[trigger] f.subrange(
            pass_offset(hd, q) - pass_offset(hd, i),
            pass_offset(hd, q) - pass_offset(hd, i) + pass_size(hd, q),
        ) == pass_segment(frame.data@, w, ht, b, fixed, q) by {
            if q == i {
                assert(f.subrange(0, pass_size(hd, q) as int) =~= seg);
            } else {
                lemma_offset_mono(hd, i + 1, q);
                lemma_offset_mono(hd, q + 1, 7);
                lemma_pass_sizes(frame, fixed, q);
                assert(pass_offset(hd, q + 1) == pass_offset(hd, q) + pass_size(hd, q));
                let a = pass_offset(hd, q) - pass_offset(hd, i + 1);
                assert(rest.subrange(a, a + pass_size(hd, q)) == pass_segment(frame.data@, w, ht, b, fixed, q));
                assert(f.subrange(a + seg.len(), a + seg.len() + pass_size(hd, q)) =~= rest.subrange(a, a + pass_size(hd, q)));
            }
        }
    }
}

/// Each pass the decoder reconstructs from the encoder's scanlines is the
/// pass's sub-image.
#[verifier::spinoff_prover]
#[verifier::rlimit(40)]
proof fn lemma_passes_back(frame: VideoFrame, fixed: Option<u8>, q: nat)
    requires
        frame.wf(),
        fixed matches Some(x) ==> x <= 4,
        q < 7,
    ensures
        pass_unfiltered(
            frame_header(frame),
            adam7_from(frame.data@, frame.width as nat, frame.height as nat, spec_bpp(frame.format), fixed, 0),
            q,
        ) == Ok::<Seq<u8>, ErrorKind>(pass_pixels(frame.data@, frame.width as nat, frame.height as nat, spec_bpp(frame.format), q)),
{
    let w = frame.width as nat;
    let ht = frame.height as nat;
    let b = spec_bpp(frame.format);
    let hd = frame_header(frame);
    let inflated = adam7_from(frame.data@, w, ht, b, fixed, 0);
    let (x0, y0, dx, dy) = adam7_pass(q);
    let pw = extent_spec(w, x0, dx);
    let ph = extent_spec(ht, y0, dy);
    let img = pass_pixels(frame.data@, w, ht, b, q);
    lemma_pass_sizes(frame, fixed, q);
    lemma_frame_header_geometry(frame, q);
    if pw == 0 || ph == 0 {
        assert(ph * (pw * b) == 0) by (nonlinear_arith)
            requires pw == 0 || ph == 0;
        assert(img =~= Seq::<u8>::empty());
    } else {
        lemma_from_layout(frame, fixed, 0);
        let off = pass_offset(hd, q);
        let seg = pass_segment(frame.data@, w, ht, b, fixed, q);
        assert(pass_offset(hd, 0) == 0);
        assert(inflated.subrange(
            pass_offset(hd, q) - pass_offset(hd, 0),
            pass_offset(hd, q) - pass_offset(hd, 0) + pass_size(hd, q),
        ) == seg);
        assert(inflated.subrange(off as int, (off + pass_size(hd, q)) as int) == seg);
        assert(seg.subrange(0, (ph * (pw * b + 1)) as int) =~= seg) by {
            assert(seg.len() == ph * (pw * b + 1)) by (nonlinear_arith)
                requires seg.len() == (pw * b + 1) * ph;
        }
        lemma_unfilter_scanlines(img, ph, pw * b, b, fixed, seg);
        assert(img.subrange(0, (ph * (pw * b)) as int) =~= img);
    }
}

/// Reconstructing the Adam7 scanlines the encoder writes for an 8-bit frame
/// gives the frame's format and pixels back, whatever filter each pass row
/// got.
#[verifier::spinoff_prover]
#[verifier::rlimit(60)]
pub proof fn lemma_adam7_reconstructs(frame: VideoFrame, fixed: Option<u8>)
    requires
        frame.wf(),
        fixed matches Some(x) ==> x <= 4,
    ensures
        spec_adam7_decode(
            frame_header(frame),
            adam7_from(frame.data@, frame.width as nat, frame.height as nat, spec_bpp(frame.format), fixed, 0),
            None,
            None,
        ) == Ok::<(PixelFormat, Seq<u8>), ErrorKind>((frame.format, frame.data@)),
        adam7_from(frame.data@, frame.width as nat, frame.height as nat, spec_bpp(frame.format), fixed, 0).len()
            == pass_offset(frame_header(frame), 7),
{
    let w = frame.width as nat;
    let ht = frame.height as nat;
    let b = spec_bpp(frame.format);
    let hd = frame_header(frame);
    let data = frame.data@;
    let inflated = adam7_from(data, w, ht, b, fixed, 0);
    lemma_from_layout(frame, fixed, 0);
    assert(inflated.len() == pass_offset(hd, 7));
    assert forall|q: nat| q < 7 implies #[trigger] pass_unfiltered(hd, inflated, q) == Ok::<Seq<u8>, ErrorKind>(
        pass_pixels(data, w, ht, b, q),
    ) by {
        lemma_passes_back(frame, fixed, q);
    }
    assert(!(exists|p: nat| p < 7 && (#[trigger] pass_unfiltered(hd, inflated, p)) is Err));
    assert forall|x: nat, y: nat| x < w && y < ht implies #[trigger] image_pixel(hd, inflated, None, None, x, y) == Ok::<
        Seq<u8>,
        ErrorKind,
    >(data.subrange(((y * w + x) * b) as int, ((y * w + x) * b + b) as int)) by {
        lemma_image_pixel_back(frame, inflated, x, y);
    }
    assert(!(exists|x: nat, y: nat| x < w && y < ht && (#[trigger] image_pixel(hd, inflated, None, None, x, y)) is Err));
    assert(out_format(hd.color_type, false) == frame.format);
    assert(data.len() == w * ht * b) by (nonlinear_arith)
        requires data.len() == frame.linesize * ht, frame.linesize == w * b;
    assert(Seq::new(w * ht * b, |i: int| image_byte(hd, inflated, None, None, b, i)) =~= data) by {
        assert forall|i: int| 0 <= i < w * ht * b implies image_byte(hd, inflated, None, None, b, i) == data[i] by {
            lemma_index_in_image(i, b, w, ht);
            let x = crate::png_adam7::col_of(i, b, w);
            let y = crate::png_adam7::row_of(i, b, w);
            let c = i % (b as int);
            assert(image_pixel(hd, inflated, None, None, x, y) == Ok::<Seq<u8>, ErrorKind>(
                data.subrange(((y * w + x) * b) as int, ((y * w + x) * b + b) as int),
            ));
            assert((y * w + x) * b + b <= data.len()) by (nonlinear_arith)
                requires x < w, y < ht, data.len() == w * ht * b;
        }
    }
}

/// The chunk types the encoders write are made of letters.
proof fn lemma_tag_letters()
    ensures
        chunk_letters(tag(73, 72, 68, 82)),
        chunk_letters(tag(73, 68, 65, 84)),
        chunk_letters(tag(73, 69, 78, 68)),
        chunk_letters(tag(112, 72, 89, 115)),
{
    let t1 = tag(73, 72, 68, 82);
    let t2 = tag(73, 68, 65, 84);
    let t3 = tag(73, 69, 78, 68);
    let t4 = tag(112, 72, 89, 115);
    assert forall|i: int| 0 <= i < 4 implies is_upper(#[trigger] t1[i]) || is_lower(t1[i]) by {}
    assert forall|i: int| 0 <= i < 4 implies is_upper(#[trigger] t2[i]) || is_lower(t2[i]) by {}
    assert forall|i: int| 0 <= i < 4 implies is_upper(#[trigger] t3[i]) || is_lower(t3[i]) by {}
    assert forall|i: int| 0 <= i < 4 implies is_upper(#[trigger] t4[i]) || is_lower(t4[i]) by {}
}

/// The interlaced chunk walk from `pos`, kept folded while a proof steps
/// through a file.
#[verifier::opaque]
pub open spec fn walk7_from(s: Seq<u8>, pos: nat, st: Adam7Chunks) -> core::result::Result<Adam7Chunks, ErrorKind> {
    adam7_walk(s, pos, st, 1)
}

proof fn lemma_walk7_step(s: Seq<u8>, pos: nat, st: Adam7Chunks, next: nat, st2: Adam7Chunks)
    requires
        pos < s.len(),
        !st.saw_iend,
        adam7_step(s, pos, st, 1) == Ok::<(nat, Adam7Chunks), ErrorKind>((next, st2)),
    ensures
        walk7_from(s, pos, st) == walk7_from(s, next, st2),
{
    reveal(walk7_from);
}

#[verifier::spinoff_prover]
proof fn lemma_step7_ihdr(s: Seq<u8>, d: Seq<u8>, h: Adam7Header)
    requires
        chunk_framed(s, 8, tag(73, 72, 68, 82), d),
        spec_parse_header(d, 1) == Ok::<Adam7Header, ErrorKind>(h),
    ensures
        adam7_step(s, 8, adam7_start(), 1) == Ok::<(nat, Adam7Chunks), ErrorKind>(
            ((20 + d.len()) as nat, Adam7Chunks { header: Some(h), ..adam7_start() }),
        ),
{
    lemma_tags();
    lemma_tag_letters();
}

#[verifier::spinoff_prover]
proof fn lemma_step7_phys(s: Seq<u8>, pos: nat, d: Seq<u8>, st: Adam7Chunks)
    requires
        chunk_framed(s, pos, tag(112, 72, 89, 115), d),
    ensures
        adam7_step(s, pos, st, 1) == Ok::<(nat, Adam7Chunks), ErrorKind>(
            ((pos + 12 + d.len()) as nat, Adam7Chunks { idat_ended: st.idat_ended || st.saw_idat, ..st }),
        ),
{
    lemma_tags();
    lemma_tag_letters();
}

#[verifier::spinoff_prover]
proof fn lemma_step7_idat(s: Seq<u8>, pos: nat, d: Seq<u8>, st: Adam7Chunks)
    requires
        chunk_framed(s, pos, tag(73, 68, 65, 84), d),
        st.header matches Some(h) && h.color_type != 3,
        !st.idat_ended,
    ensures
        adam7_step(s, pos, st, 1) == Ok::<(nat, Adam7Chunks), ErrorKind>(
            ((pos + 12 + d.len()) as nat, Adam7Chunks { saw_idat: true, idat: st.idat + d, ..st }),
        ),
{
    lemma_tags();
    lemma_tag_letters();
}

#[verifier::spinoff_prover]
proof fn lemma_step7_iend(s: Seq<u8>, pos: nat, st: Adam7Chunks)
    requires
        chunk_framed(s, pos, tag(73, 69, 78, 68), Seq::<u8>::empty()),
        st.header is Some,
        st.saw_idat,
    ensures
        adam7_step(s, pos, st, 1) == Ok::<(nat, Adam7Chunks), ErrorKind>(((pos + 12) as nat, Adam7Chunks { saw_iend: true, ..st })),
{
    lemma_tags();
    lemma_tag_letters();
}

/// What walking the IDAT chunks that hold `z` makes of the collected state.
pub open spec fn after7_idat(st: Adam7Chunks, z: Seq<u8>) -> Adam7Chunks {
    Adam7Chunks { idat: st.idat + z, saw_idat: st.saw_idat || z.len() > 0, ..st }
}

#[verifier::spinoff_prover]
proof fn lemma_walk7_idat_first(pre: Seq<u8>, z: Seq<u8>, size: nat, post: Seq<u8>, st: Adam7Chunks)
    requires
        0 < size <= u32::MAX,
        z.len() > 0,
        st.header matches Some(h) && h.color_type != 3,
        !st.idat_ended,
        !st.saw_iend,
        post.len() > 0,
    ensures
        walk7_from(pre + idat_chunks(z, size) + post, pre.len(), st) == walk7_from(
            (pre + png_chunk(tag(73, 68, 65, 84), idat_first(z, size))) + idat_chunks(idat_rest(z, size), size) + post,
            (pre + png_chunk(tag(73, 68, 65, 84), idat_first(z, size))).len(),
            after7_idat(st, idat_first(z, size)),
        ),
{
    let first = idat_first(z, size);
    let rest = idat_rest(z, size);
    let c = png_chunk(tag(73, 68, 65, 84), first);
    lemma_idat_split(z, size);
    let s = pre + idat_chunks(z, size) + post;
    assert(s =~= pre + c + (idat_chunks(rest, size) + post));
    assert(s =~= (pre + c) + idat_chunks(rest, size) + post);
    lemma_chunk_at(pre, tag(73, 68, 65, 84), first, idat_chunks(rest, size) + post);
    lemma_step7_idat(s, pre.len(), first, st);
    lemma_walk7_step(s, pre.len(), st, (pre.len() + 12 + first.len()) as nat, after7_idat(st, first));
}

proof fn lemma_walk7_idat(pre: Seq<u8>, z: Seq<u8>, size: nat, post: Seq<u8>, st: Adam7Chunks)
    requires
        0 < size <= u32::MAX,
        st.header matches Some(h) && h.color_type != 3,
        !st.idat_ended,
        !st.saw_iend,
        post.len() > 0,
    ensures
        walk7_from(pre + idat_chunks(z, size) + post, pre.len(), st) == walk7_from(
            pre + idat_chunks(z, size) + post,
            pre.len() + idat_chunks(z, size).len(),
            after7_idat(st, z),
        ),
    decreases z.len(),
{
    if z.len() == 0 {
        assert(st.idat + z =~= st.idat);
        assert(after7_idat(st, z) == st);
    } else {
        let first = idat_first(z, size);
        let rest = idat_rest(z, size);
        let pre2 = pre + png_chunk(tag(73, 68, 65, 84), first);
        lemma_idat_split(z, size);
        lemma_walk7_idat_first(pre, z, size, post, st);
        lemma_walk7_idat(pre2, rest, size, post, after7_idat(st, first));
        assert(pre2 + idat_chunks(rest, size) + post =~= pre + idat_chunks(z, size) + post);
        assert(after7_idat(st, first).idat + rest =~= st.idat + z);
        assert(after7_idat(after7_idat(st, first), rest) == after7_idat(st, z));
    }
}

/// The IHDR payload the encoder writes for an interlaced frame.
pub open spec fn interlaced_payload(frame: VideoFrame) -> Seq<u8> {
    be4(frame.width as nat) + be4(frame.height as nat) + seq![8u8, format_color_type(frame.format), 0u8, 0u8, 1u8]
}

/// It parses back, for the interlaced decoder, to the frame's header.
proof fn lemma_interlaced_payload_parses(frame: VideoFrame)
    requires
        frame.wf(),
        frame.width * frame.height <= MAX_PIXELS,
    ensures
        interlaced_payload(frame).len() == 13,
        spec_parse_header(interlaced_payload(frame), 1) == Ok::<Adam7Header, ErrorKind>(frame_header(frame)),
{
    let d = interlaced_payload(frame);
    let bw = be4(frame.width as nat);
    let bh = be4(frame.height as nat);
    lemma_be4_reads_back(frame.width as nat);
    lemma_be4_reads_back(frame.height as nat);
    assert forall|k: int| 0 <= k < 4 implies d[k] == bw[k] && d[4 + k] == bh[k] by {}
    assert(crate::bytes_util::be32_at(d, 0) == frame.width);
    assert(crate::bytes_util::be32_at(d, 4) == frame.height);
}

#[verifier::spinoff_prover]
proof fn lemma_walk7_ihdr(s: Seq<u8>, p: Seq<u8>, h: Adam7Header)
    requires
        chunk_framed(s, 8, tag(73, 72, 68, 82), p),
        p.len() == 13,
        spec_parse_header(p, 1) == Ok::<Adam7Header, ErrorKind>(h),
    ensures
        walk7_from(s, 8, adam7_start()) == walk7_from(s, 33, Adam7Chunks { header: Some(h), ..adam7_start() }),
{
    lemma_step7_ihdr(s, p, h);
    lemma_walk7_step(s, 8, adam7_start(), 33, Adam7Chunks { header: Some(h), ..adam7_start() });
}

#[verifier::spinoff_prover]
proof fn lemma_walk7_phys(s: Seq<u8>, pre: Seq<u8>, phys: Seq<u8>, post: Seq<u8>, st: Adam7Chunks)
    requires
        s == pre + png_chunk(tag(112, 72, 89, 115), phys) + post,
        phys.len() <= u32::MAX,
        post.len() > 0,
        !st.saw_idat,
        !st.saw_iend,
    ensures
        walk7_from(s, pre.len(), st) == walk7_from(s, pre.len() + 12 + phys.len(), st),
{
    lemma_chunk_at(pre, tag(112, 72, 89, 115), phys, post);
    lemma_step7_phys(s, pre.len(), phys, st);
    assert(Adam7Chunks { idat_ended: st.idat_ended || st.saw_idat, ..st } == st);
    lemma_walk7_step(s, pre.len(), st, (pre.len() + 12 + phys.len()) as nat, st);
}

#[verifier::spinoff_prover]
proof fn lemma_file7_tail(s: Seq<u8>, pre: Seq<u8>, st: Adam7Chunks)
    requires
        s == pre + png_chunk(tag(73, 69, 78, 68), Seq::<u8>::empty()),
        st.header is Some,
        st.saw_idat,
        !st.saw_iend,
    ensures
        walk7_from(s, pre.len(), st) == Ok::<Adam7Chunks, ErrorKind>(Adam7Chunks { saw_iend: true, ..st }),
{
    assert(s =~= pre + png_chunk(tag(73, 69, 78, 68), Seq::<u8>::empty()) + Seq::<u8>::empty());
    lemma_chunk_at(pre, tag(73, 69, 78, 68), Seq::<u8>::empty(), Seq::<u8>::empty());
    lemma_step7_iend(s, pre.len(), st);
    let st3 = Adam7Chunks { saw_iend: true, ..st };
    lemma_walk7_step(s, pre.len(), st, s.len(), st3);
    assert(walk7_from(s, s.len(), st3) == Ok::<Adam7Chunks, ErrorKind>(st3)) by {
        reveal(walk7_from);
    }
}

#[verifier::spinoff_prover]
#[verifier::rlimit(50)]
proof fn lemma_file7_head(s: Seq<u8>, sig: Seq<u8>, p: Seq<u8>, h: Adam7Header, rest: Seq<u8>)
    requires
        s == sig + png_chunk(tag(73, 72, 68, 82), p) + rest,
        sig.len() == 8,
        p.len() == 13,
        spec_parse_header(p, 1) == Ok::<Adam7Header, ErrorKind>(h),
    ensures
        walk7_from(s, 8, adam7_start()) == walk7_from(s, 33, Adam7Chunks { header: Some(h), ..adam7_start() }),
{
    lemma_chunk_at(sig, tag(73, 72, 68, 82), p, rest);
    assert(chunk_framed(s, 8, tag(73, 72, 68, 82), p));
    lemma_walk7_ihdr(s, p, h);
}

/// The signature and the interlace method where the decoder looks for
/// them.
proof fn lemma_file7_prefix(s: Seq<u8>, p: Seq<u8>, rest: Seq<u8>)
    requires
        s == png_signature() + png_chunk(tag(73, 72, 68, 82), p) + rest,
        p.len() == 13,
    ensures
        s.len() > 28,
        s.subrange(0, 8) == png_signature(),
        s[28] == p[12],
{
    lemma_be4_reads_back(13);
    assert(s.subrange(0, 8) =~= png_signature());
}

/// The chunks of an interlaced file the encoder writes with a pHYs chunk:
/// the frame's header and the compressed data `z`.
#[verifier::spinoff_prover]
#[verifier::rlimit(60)]
pub proof fn lemma_file7_chunks(frame: VideoFrame, phys: Seq<u8>, z: Seq<u8>, size: nat)
    requires
        frame.wf(),
        frame.width * frame.height <= MAX_PIXELS,
        phys.len() <= u32::MAX,
        z.len() > 0,
        0 < size <= u32::MAX,
    ensures
        ({
            let s = png_signature() + png_chunk(tag(73, 72, 68, 82), interlaced_payload(frame)) + png_chunk(
                tag(112, 72, 89, 115),
                phys,
            ) + idat_chunks(z, size) + png_chunk(tag(73, 69, 78, 68), Seq::<u8>::empty());
            &&& s.len() > 28 && s[28] == 1
            &&& spec_adam7_chunks(s, 1) matches Ok((h, st)) && h == frame_header(frame) && st.idat == z && st.palette is None
                && st.trns is None
        }),
{
    let h = frame_header(frame);
    let sig = png_signature();
    let p = interlaced_payload(frame);
    let c1 = png_chunk(tag(73, 72, 68, 82), p);
    let cp = png_chunk(tag(112, 72, 89, 115), phys);
    let body = idat_chunks(z, size);
    let c3 = png_chunk(tag(73, 69, 78, 68), Seq::<u8>::empty());
    let s = sig + c1 + cp + body + c3;
    lemma_interlaced_payload_parses(frame);
    assert(s =~= sig + c1 + (cp + body + c3));
    lemma_file7_head(s, sig, p, h, cp + body + c3);
    lemma_file7_prefix(s, p, cp + body + c3);
    let st1 = Adam7Chunks { header: Some(h), ..adam7_start() };
    assert(s =~= (sig + c1) + cp + (body + c3));
    lemma_walk7_phys(s, sig + c1, phys, body + c3, st1);
    assert(s =~= (sig + c1 + cp) + body + c3);
    lemma_walk7_idat(sig + c1 + cp, z, size, c3, st1);
    assert(Seq::<u8>::empty() + z =~= z);
    assert(s =~= (sig + c1 + cp + body) + c3);
    lemma_file7_tail(s, sig + c1 + cp + body, after7_idat(st1, z));
    assert(adam7_walk(s, 8, adam7_start(), 1) == walk7_from(s, 8, adam7_start())) by {
        reveal(walk7_from);
    }
}

/// An interlaced file with the frame's header, whose image data
/// decompresses to the Adam7 scanlines the encoder writes for the frame,
/// decodes to the frame.
#[verifier::spinoff_prover]
#[verifier::rlimit(40)]
pub proof fn lemma_adam7_file_decodes(s: Seq<u8>, frame: VideoFrame, fixed: Option<u8>, z: Seq<u8>)
    requires
        frame.wf(),
        fixed matches Some(x) ==> x <= 4,
        s.len() > 28 && s[28] == 1,
        spec_adam7_chunks(s, 1) matches Ok((h, st)) && h == frame_header(frame) && st.idat == z && st.palette is None
            && st.trns is None,
        adam7_from(frame.data@, frame.width as nat, frame.height as nat, spec_bpp(frame.format), fixed, 0).len() <= usize::MAX,
        crate::zlib::spec_decompress(
            z,
            adam7_from(frame.data@, frame.width as nat, frame.height as nat, spec_bpp(frame.format), fixed, 0).len(),
        ) == Ok::<Seq<u8>, ErrorKind>(adam7_from(frame.data@, frame.width as nat, frame.height as nat, spec_bpp(frame.format), fixed, 0)),
    ensures
        crate::png::spec_decode_png(s) == Ok::<(u32, u32, PixelFormat, Seq<u8>), ErrorKind>(
            (frame.width, frame.height, frame.format, frame.data@),
        ),
{
    lemma_adam7_reconstructs(frame, fixed);
    assert(crate::png::png_route(s) == 1);
    assert(crate::png_adam7::spec_decode_png_with(s, 1) == Ok::<(Adam7Header, PixelFormat, Seq<u8>), ErrorKind>(
        (frame_header(frame), frame.format, frame.data@),
    ));
}

} // verus!

use vstd::prelude::*;

use crate::error::{ErrorKind, MediaError, Result};
use crate::video::{spec_bpp, PixelFormat, VideoFrame};

verus! {

/// Integer luma of an RGB sample: `(77 R + 150 G + 29 B + 128) / 256`.
pub open spec fn luma(r: u8, g: u8, b: u8) -> int {
    (77 * r + 150 * g + 29 * b + 128) / 256
}

/// Replicates each grey sample into the three RGB channels.
fn gray_to_rgb(frame: &VideoFrame) -> (r: Result<VideoFrame>)
    requires
        frame.wf(),
        frame.format == PixelFormat::Gray8,
    ensures
        match r {
            Ok(out) => {
                &&& out.wf()
                &&& out.width == frame.width
                &&& out.height == frame.height
                &&& out.format == PixelFormat::Rgb24
                &&& out.pts is None
                &&& forall|i: int, c: int| 0 <= i < frame.data@.len() && 0 <= c < 3 ==> #[trigger] out.data@[i * 3 + c] == frame.data@[i]
            },
            Err(e) => frame.data@.len() * 3 > usize::MAX && e@ == ErrorKind::Overflow,
        },
{
    let data = frame.data.as_slice();
    let n = data.len();
    if n > usize::MAX / 3 {
        return Err(MediaError::overflow("RGB conversion size overflow"));
    }
    let mut output: Vec<u8> = Vec::with_capacity(n * 3);
    let mut i: usize = 0;
    while i < n
        invariant
            n == data@.len(),
            data@ == frame.data@,
            n <= usize::MAX / 3,
            i <= n,
            output@.len() == i * 3,
            forall|j: int, c: int| 0 <= j < i && 0 <= c < 3 ==> #[trigger] output@[j * 3 + c] == data@[j],
        decreases n - i,
    {
        let value = data[i];
        let ghost before = output@;
        output.push(value);
        output.push(value);
        output.push(value);
        proof {
            assert forall|j: int, c: int| 0 <= j < i + 1 && 0 <= c < 3 implies #[trigger] output@[j * 3 + c] == data@[j] by {
                if j < i {
                    assert(j * 3 + c < i * 3) by (nonlinear_arith)
                        requires j < i, c < 3;
                    assert(output@[j * 3 + c] == before[j * 3 + c]);
                }
            }
        }
        i += 1;
    }
    assert(output@.len() == frame.width * spec_bpp(PixelFormat::Rgb24) * frame.height) by (nonlinear_arith)
        requires output@.len() == n * 3, n == frame.width * 1 * frame.height;
    VideoFrame::from_vec(frame.width, frame.height, PixelFormat::Rgb24, output)
}

/// Reduces RGB to grey with the integer luma weights 77/150/29.
fn rgb_to_gray(frame: &VideoFrame) -> (r: Result<VideoFrame>)
    requires
        frame.wf(),
        frame.format == PixelFormat::Rgb24,
    ensures
        r matches Ok(out) && {
            &&& out.wf()
            &&& out.width == frame.width
            &&& out.height == frame.height
            &&& out.format == PixelFormat::Gray8
            &&& out.pts is None
            &&& forall|i: int| 0 <= i < frame.width * frame.height ==> #[trigger] out.data@[i] == luma(
                frame.data@[i * 3],
                frame.data@[i * 3 + 1],
                frame.data@[i * 3 + 2],
            )
        },
{
    let data = frame.data.as_slice();
    let n = data.len();
    let pixels = n / 3;
    assert(pixels == frame.width * frame.height && pixels * 3 == n) by (nonlinear_arith)
        requires n == frame.width * 3 * frame.height, pixels == n / 3;
    let mut output: Vec<u8> = Vec::with_capacity(pixels);
    let mut i: usize = 0;
    while i < pixels
        invariant
            n == data@.len(),
            data@ == frame.data@,
            pixels * 3 == n,
            i <= pixels,
            output@.len() == i,
            forall|j: int| 0 <= j < i ==> #[trigger] output@[j] == luma(data@[j * 3], data@[j * 3 + 1], data@[j * 3 + 2]),
        decreases pixels - i,
    {
        let red = data[3 * i] as u32;
        let green = data[3 * i + 1] as u32;
        let blue = data[3 * i + 2] as u32;
        let value = (77 * red + 150 * green + 29 * blue + 128) / 256;
        assert(value <= 255);
        output.push(value as u8);
        i += 1;
    }
    assert(output@.len() == frame.width * spec_bpp(PixelFormat::Gray8) * frame.height) by (nonlinear_arith)
        requires output@.len() == pixels, pixels == frame.width * frame.height;
    let out = VideoFrame::from_vec(frame.width, frame.height, PixelFormat::Gray8, output);
    match out {
        Ok(f) => Ok(f),
        Err(e) => {
            assert(false);
            Err(e)
        },
    }
}

/// `out` is `frame` converted to `target`: the same bytes when the formats
/// agree, each grey sample replicated into RGB, or each RGB pixel reduced
/// to its luma.
pub open spec fn converted(frame: VideoFrame, target: PixelFormat, out: VideoFrame) -> bool {
    &&& out.wf()
    &&& out.width == frame.width
    &&& out.height == frame.height
    &&& out.format == target
    &&& if frame.format == target {
        out.data@ == frame.data@ && out.pts == frame.pts
    } else if frame.format == PixelFormat::Gray8 && target == PixelFormat::Rgb24 {
        &&& out.pts is None
        &&& forall|i: int, c: int| 0 <= i < frame.data@.len() && 0 <= c < 3 ==> #[trigger] out.data@[i * 3 + c] == frame.data@[i]
    } else if frame.format == PixelFormat::Rgb24 && target == PixelFormat::Gray8 {
        &&& out.pts is None
        &&& forall|i: int| 0 <= i < frame.width * frame.height ==> #[trigger] out.data@[i] == luma(
            frame.data@[i * 3],
            frame.data@[i * 3 + 1],
            frame.data@[i * 3 + 2],
        )
    } else {
        false
    }
}

/// `out` is `frame` resampled to `width` x `height` by nearest neighbour,
/// or `frame` itself when the size is unchanged.
pub open spec fn scaled(frame: VideoFrame, width: u32, height: u32, out: VideoFrame) -> bool {
    let bpp = spec_bpp(frame.format) as int;
    &&& out.wf()
    &&& out.width == width
    &&& out.height == height
    &&& out.format == frame.format
    &&& if width == frame.width && height == frame.height {
        out.data@ == frame.data@ && out.pts == frame.pts
    } else {
        &&& out.pts is None
        &&& forall|y: int, x: int, c: int|
            0 <= y < height && 0 <= x < width && 0 <= c < bpp ==> #[trigger] out.data@[(y * width + x) * bpp + c]
                == frame.data@[nearest(y, frame.height as int, height as int) * frame.linesize
                + nearest(x, frame.width as int, width as int) * bpp + c]
    }
}

/// Converts between Gray8 and RGB24; any other pair of distinct formats is
/// unsupported. A frame already in `target` is returned as a copy.
pub fn convert_pixel_format(frame: &VideoFrame, target: PixelFormat) -> (r: Result<VideoFrame>)
    requires
        frame.wf(),
    ensures
        frame.format == target ==> (r matches Ok(out) && out.wf() && out.width == frame.width && out.height
            == frame.height && out.format == frame.format && out.data@ == frame.data@ && out.pts
            == frame.pts),
        frame.format == PixelFormat::Gray8 && target == PixelFormat::Rgb24 ==> match r {
            Ok(out) => {
                &&& out.wf()
                &&& out.width == frame.width
                &&& out.height == frame.height
                &&& out.format == PixelFormat::Rgb24
                &&& out.pts is None
                &&& forall|i: int, c: int| 0 <= i < frame.data@.len() && 0 <= c < 3 ==> #[trigger] out.data@[i * 3 + c] == frame.data@[i]
            },
            Err(e) => frame.data@.len() * 3 > usize::MAX && e@ == ErrorKind::Overflow,
        },
        frame.format == PixelFormat::Rgb24 && target == PixelFormat::Gray8 ==> (r matches Ok(out) && {
            &&& out.wf()
            &&& out.width == frame.width
            &&& out.height == frame.height
            &&& out.format == PixelFormat::Gray8
            &&& out.pts is None
            &&& forall|i: int| 0 <= i < frame.width * frame.height ==> #[trigger] out.data@[i] == luma(
                frame.data@[i * 3],
                frame.data@[i * 3 + 1],
                frame.data@[i * 3 + 2],
            )
        }),
        frame.format != target && !(frame.format == PixelFormat::Gray8 && target == PixelFormat::Rgb24)
            && !(frame.format == PixelFormat::Rgb24 && target == PixelFormat::Gray8) ==> r is Err
            && r->Err_0@ == ErrorKind::Unsupported,
        r matches Ok(out) ==> converted(*frame, target, out),
{
    if frame.format == target {
        return Ok(frame.clone());
    }
    match (frame.format, target) {
        (PixelFormat::Gray8, PixelFormat::Rgb24) => gray_to_rgb(frame),
        (PixelFormat::Rgb24, PixelFormat::Gray8) => rgb_to_gray(frame),
        _ => Err(MediaError::unsupported("pixel conversion is not implemented")),
    }
}

/// The source coordinate nearest-neighbour scaling reads for output `i` of `n`.
pub open spec fn nearest(i: int, source: int, n: int) -> int {
    i * source / n
}

proof fn lemma_nearest_below(i: int, source: int, n: int)
    requires
        0 <= i < n,
        source >= 0,
    ensures
        0 <= nearest(i, source, n),
        source > 0 ==> nearest(i, source, n) < source,
{
    let q = i * source / n;
    vstd::arithmetic::div_mod::lemma_fundamental_div_mod(i * source, n);
    vstd::arithmetic::div_mod::lemma_mod_pos_bound(i * source, n);
    assert(0 <= i * source) by (nonlinear_arith)
        requires 0 <= i, 0 <= source;
    assert(0 <= q) by (nonlinear_arith)
        requires i * source == n * q + (i * source) % n, 0 <= (i * source) % n < n, 0 <= i * source, n > 0;
    if source > 0 {
        assert(i * source < n * source) by (nonlinear_arith)
            requires i < n, source > 0;
        assert(q < source) by (nonlinear_arith)
            requires i * source == n * q + (i * source) % n, 0 <= (i * source) % n, i * source < n * source, n > 0;
    }
}

/// Nearest-neighbour resampling to `width` x `height`; output pixel `(x, y)`
/// copies source pixel `(x * w / width, y * h / height)`.
pub fn scale_nearest(frame: &VideoFrame, width: u32, height: u32) -> (r: Result<VideoFrame>)
    requires
        frame.wf(),
    ensures
        width == 0 || height == 0 ==> r is Err && r->Err_0@ == ErrorKind::InvalidArgument,
        width > 0 && height > 0 && width == frame.width && height == frame.height ==> (r matches Ok(
            out,
        ) && out.wf() && out.width == frame.width && out.height == frame.height && out.format == frame.format
            && out.data@ == frame.data@ && out.pts == frame.pts),
        width > 0 && height > 0 && !(width == frame.width && height == frame.height) ==> match r {
            Ok(out) => {
                let bpp = spec_bpp(frame.format) as int;
                &&& out.wf()
                &&& out.width == width
                &&& out.height == height
                &&& out.format == frame.format
                &&& out.pts is None
                &&& forall|y: int, x: int, c: int|
                    0 <= y < height && 0 <= x < width && 0 <= c < bpp ==> #[trigger] out.data@[(y * width + x) * bpp + c]
                        == frame.data@[nearest(y, frame.height as int, height as int) * frame.linesize
                        + nearest(x, frame.width as int, width as int) * bpp + c]
            },
            Err(e) => width * height * spec_bpp(frame.format) > usize::MAX && e@ == ErrorKind::Overflow,
        },
        r matches Ok(out) ==> scaled(*frame, width, height, out),
{
    if width == 0 || height == 0 {
        return Err(MediaError::invalid_argument("scaled dimensions must be non-zero"));
    }
    if frame.width == width && frame.height == height {
        return Ok(frame.clone());
    }
    let bpp = frame.format.bytes_per_pixel();
    let tw = width as usize;
    let th = height as usize;
    let pixels = match tw.checked_mul(th) {
        Some(v) => v,
        None => {
            assert(tw * th * bpp >= tw * th) by (nonlinear_arith)
                requires bpp >= 1;
            return Err(MediaError::overflow("scaled frame size overflow"));
        },
    };
    let output_len = match pixels.checked_mul(bpp) {
        Some(v) => v,
        None => return Err(MediaError::overflow("scaled frame size overflow")),
    };
    let data = frame.data.as_slice();
    let fw = frame.width as u64;
    let fh = frame.height as u64;
    let ls = frame.linesize;
    let mut output: Vec<u8> = Vec::with_capacity(output_len);
    let mut y: usize = 0;
    while y < th
        invariant
            frame.wf(),
            data@ == frame.data@,
            bpp == spec_bpp(frame.format),
            fw == frame.width,
            fh == frame.height,
            ls == frame.linesize,
            tw == width,
            th == height,
            tw > 0,
            th > 0,
            output_len == tw * th * bpp,
            y <= th,
            output@.len() == y * tw * bpp,
            forall|yy: int, x: int, c: int|
                0 <= yy < y && 0 <= x < tw && 0 <= c < bpp ==> #[trigger] output@[(yy * tw + x) * bpp + c]
                    == data@[nearest(yy, fh as int, th as int) * ls + nearest(x, fw as int, tw as int) * bpp + c],
        decreases th - y,
    {
        assert((y as u64) * fh <= 0xFFFF_FFFFu64 * 0xFFFF_FFFFu64) by (nonlinear_arith)
            requires y < th, th <= 0xFFFF_FFFF, fh <= 0xFFFF_FFFF;
        let sy = (y as u64) * fh / (th as u64);
        proof {
            lemma_nearest_below(y as int, fh as int, th as int);
        }
        let source_y = sy as usize;
        assert(source_y * ls + ls <= ls * fh) by (nonlinear_arith)
            requires source_y < fh;
        let row_start = source_y * ls;
        let mut x: usize = 0;
        while x < tw
            invariant
                frame.wf(),
                data@ == frame.data@,
                bpp == spec_bpp(frame.format),
                fw == frame.width,
                fh == frame.height,
                ls == frame.linesize,
                tw == width,
                th == height,
                tw > 0,
                th > 0,
                output_len == tw * th * bpp,
                y < th,
                source_y == nearest(y as int, fh as int, th as int),
                row_start == source_y * ls,
                row_start + ls <= data@.len(),
                x <= tw,
                output@.len() == (y * tw + x) * bpp,
                forall|yy: int, xx: int, c: int|
                    0 <= yy < y && 0 <= xx < tw && 0 <= c < bpp ==> #[trigger] output@[(yy * tw + xx) * bpp + c]
                        == data@[nearest(yy, fh as int, th as int) * ls + nearest(xx, fw as int, tw as int) * bpp + c],
                forall|xx: int, c: int|
                    0 <= xx < x && 0 <= c < bpp ==> #[trigger] output@[(y * tw + xx) * bpp + c]
                        == data@[row_start + nearest(xx, fw as int, tw as int) * bpp + c],
            decreases tw - x,
        {
            assert((x as u64) * fw <= 0xFFFF_FFFFu64 * 0xFFFF_FFFFu64) by (nonlinear_arith)
                requires x < tw, tw <= 0xFFFF_FFFF, fw <= 0xFFFF_FFFF;
            let sx = (x as u64) * fw / (tw as u64);
            proof {
                lemma_nearest_below(x as int, fw as int, tw as int);
            }
            let source_x = sx as usize;
            assert(source_x * bpp + bpp <= ls) by (nonlinear_arith)
                requires source_x < fw, ls == fw * bpp;
            assert((y * tw + x) * bpp + bpp <= tw * th * bpp) by (nonlinear_arith)
                requires x < tw, y < th;
            let src = row_start + source_x * bpp;
            let ghost before = output@;
            let mut c: usize = 0;
            while c < bpp
                invariant
                    c <= bpp,
                    bpp <= 4,
                    src + bpp <= data@.len(),
                    data@.len() <= usize::MAX,
                    output@.len() == before.len() + c,
                    output@.subrange(0, before.len() as int) == before,
                    forall|k: int| 0 <= k < c ==> #[trigger] output@[before.len() + k] == data@[src + k],
                decreases bpp - c,
            {
                output.push(data[src + c]);
                proof {
                    assert(output@.subrange(0, before.len() as int) =~= before);
                }
                c += 1;
            }
            proof {
                assert forall|yy: int, xx: int, cc: int|
                    0 <= yy < y && 0 <= xx < tw && 0 <= cc < bpp implies #[trigger] output@[(yy * tw + xx) * bpp + cc]
                        == data@[nearest(yy, fh as int, th as int) * ls + nearest(xx, fw as int, tw as int) * bpp + cc] by {
                    assert((yy * tw + xx) * bpp + cc < y * tw * bpp) by (nonlinear_arith)
                        requires yy < y, xx < tw, cc < bpp, 0 <= yy, 0 <= xx, 0 <= cc;
                    assert(y * tw * bpp <= before.len()) by (nonlinear_arith)
                        requires before.len() == (y * tw + x) * bpp, x >= 0;
                    assert(output@[(yy * tw + xx) * bpp + cc] == output@.subrange(0, before.len() as int)[(yy * tw + xx) * bpp + cc]);
                }
                assert forall|xx: int, cc: int|
                    0 <= xx < x + 1 && 0 <= cc < bpp implies #[trigger] output@[(y * tw + xx) * bpp + cc]
                        == data@[row_start + nearest(xx, fw as int, tw as int) * bpp + cc] by {
                    if xx < x {
                        assert((y * tw + xx) * bpp + cc < before.len()) by (nonlinear_arith)
                            requires before.len() == (y * tw + x) * bpp, xx < x, cc < bpp;
                        assert(output@[(y * tw + xx) * bpp + cc] == output@.subrange(0, before.len() as int)[(y * tw + xx) * bpp + cc]);
                    } else {
                        assert((y * tw + xx) * bpp + cc == before.len() + cc) by (nonlinear_arith)
                            requires before.len() == (y * tw + x) * bpp, xx == x;
                    }
                }
                assert(output@.len() == (y * tw + (x + 1)) * bpp) by (nonlinear_arith)
                    requires output@.len() == before.len() + bpp, before.len() == (y * tw + x) * bpp;
            }
            x += 1;
        }
        proof {
            assert(output@.len() == (y + 1) * tw * bpp) by (nonlinear_arith)
                requires output@.len() == (y * tw + tw) * bpp;
        }
        y += 1;
    }
    proof {
        assert(output@.len() == width * spec_bpp(frame.format) * height) by (nonlinear_arith)
            requires output@.len() == y * tw * bpp, y == th, tw == width, th == height, bpp == spec_bpp(frame.format);
    }
    let out = VideoFrame::from_vec(width, height, frame.format, output);
    match out {
        Ok(f) => Ok(f),
        Err(e) => {
            assert(false);
            Err(e)
        },
    }
}

/// Whether `convert_pixel_format` converts `from` to `to`: the same format,
/// or grey and RGB either way.
pub open spec fn format_convertible(from: PixelFormat, to: PixelFormat) -> bool {
    ||| from == to
    ||| from == PixelFormat::Gray8 && to == PixelFormat::Rgb24
    ||| from == PixelFormat::Rgb24 && to == PixelFormat::Gray8
}

/// Converts the pixel format, then scales.
pub fn convert_and_scale(frame: &VideoFrame, target_format: PixelFormat, width: u32, height: u32) -> (r: Result<VideoFrame>)
    requires
        frame.wf(),
    ensures
        r is Ok <==> {
            &&& format_convertible(frame.format, target_format)
            &&& width > 0 && height > 0
            &&& !(frame.format == PixelFormat::Gray8 && target_format == PixelFormat::Rgb24 && frame.data@.len() * 3
                > usize::MAX)
            &&& (width == frame.width && height == frame.height) || width * height * spec_bpp(target_format)
                <= usize::MAX
        },
        r matches Ok(out) ==> out.format == target_format && out.width == width && out.height == height
            && out.wf() && exists|mid: VideoFrame| converted(*frame, target_format, mid) && #[trigger] scaled(mid, width, height, out),
        frame.format != target_format && !(frame.format == PixelFormat::Gray8 && target_format
            == PixelFormat::Rgb24) && !(frame.format == PixelFormat::Rgb24 && target_format
            == PixelFormat::Gray8) ==> r is Err && r->Err_0@ == ErrorKind::Unsupported,
        width == 0 || height == 0 ==> r is Err,
{
    let converted = match convert_pixel_format(frame, target_format) {
        Ok(c) => c,
        Err(e) => return Err(e),
    };
    let r = scale_nearest(&converted, width, height);
    proof {
        assert(converted.format == target_format);
        assert(converted.width == frame.width && converted.height == frame.height);
        assert(format_convertible(frame.format, target_format));
        if frame.format == PixelFormat::Gray8 && target_format == PixelFormat::Rgb24 {
            assert(frame.data@.len() * 3 == converted.data@.len()) by (nonlinear_arith)
                requires
                    frame.data@.len() == frame.width * 1 * frame.height,
                    converted.data@.len() == converted.width * 3 * converted.height,
                    converted.width == frame.width,
                    converted.height == frame.height,
            ;
        }
        if r is Ok {
            let out = r->Ok_0;
            assert(out.width * spec_bpp(out.format) * out.height == out.width * out.height * spec_bpp(out.format))
                by (nonlinear_arith);
        }
    }
    r
}

} // verus!

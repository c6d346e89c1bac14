use vstd::prelude::*;

use crate::error::{ErrorKind, MediaError, Result};
use crate::media::Buffer;

verus! {

/// Packed 8-bit-per-channel pixel layouts.
#[derive(Debug, Clone, Copy, PartialEq, Eq, Hash, Structural)]
pub enum PixelFormat {
    Gray8,
    GrayAlpha8,
    Rgb24,
    Rgba32,
}

/// Bytes per pixel of a format.
pub open spec fn spec_bpp(format: PixelFormat) -> nat {
    match format {
        PixelFormat::Gray8 => 1,
        PixelFormat::GrayAlpha8 => 2,
        PixelFormat::Rgb24 => 3,
        PixelFormat::Rgba32 => 4,
    }
}

impl PixelFormat {
    /// The short name used by the command-line tools.
    pub fn name(self) -> (s: &'static str)
        ensures
            self == PixelFormat::Gray8 ==> s@ == "gray"@,
            self == PixelFormat::GrayAlpha8 ==> s@ == "ya8"@,
            self == PixelFormat::Rgb24 ==> s@ == "rgb24"@,
            self == PixelFormat::Rgba32 ==> s@ == "rgba"@,
    {
        match self {
            PixelFormat::Gray8 => "gray",
            PixelFormat::GrayAlpha8 => "ya8",
            PixelFormat::Rgb24 => "rgb24",
            PixelFormat::Rgba32 => "rgba",
        }
    }

    pub fn bytes_per_pixel(self) -> (n: usize)
        ensures
            n == spec_bpp(self),
    {
        match self {
            PixelFormat::Gray8 => 1,
            PixelFormat::GrayAlpha8 => 2,
            PixelFormat::Rgb24 => 3,
            PixelFormat::Rgba32 => 4,
        }
    }

    /// `width * bytes_per_pixel`, or `None` when it does not fit `usize`.
    pub fn packed_row_bytes(self, width: u32) -> (r: Option<usize>)
        ensures
            match r {
                Some(n) => n == width * spec_bpp(self),
                None => width * spec_bpp(self) > usize::MAX,
            },
    {
        (width as usize).checked_mul(self.bytes_per_pixel())
    }
}

/// A packed video frame: rows of `linesize` bytes, top to bottom.
#[derive(Debug, PartialEq, Eq)]
pub struct VideoFrame {
    pub width: u32,
    pub height: u32,
    pub format: PixelFormat,
    pub data: Buffer,
    pub linesize: usize,
    pub pts: Option<i64>,
}

impl Clone for VideoFrame {
    fn clone(&self) -> (r: Self)
        ensures
            r.width == self.width,
            r.height == self.height,
            r.format == self.format,
            r.data@ == self.data@,
            r.linesize == self.linesize,
            r.pts == self.pts,
    {
        VideoFrame {
            width: self.width,
            height: self.height,
            format: self.format,
            data: self.data.clone(),
            linesize: self.linesize,
            pts: self.pts,
        }
    }
}

impl VideoFrame {
    /// The frame's storage matches its geometry exactly.
    pub open spec fn wf(&self) -> bool {
        &&& self.width > 0
        &&& self.height > 0
        &&& self.linesize == self.width * spec_bpp(self.format)
        &&& self.data@.len() == self.linesize * self.height
        &&& self.data@.len() <= usize::MAX
    }

    /// Byte `c` of pixel `(x, y)`.
    pub open spec fn sample(&self, x: int, y: int, c: int) -> u8 {
        self.data@[y * self.linesize + x * spec_bpp(self.format) + c]
    }

    /// Checks `data` against the geometry and builds a frame without a timestamp.
    pub fn packed(width: u32, height: u32, format: PixelFormat, data: Buffer) -> (r: Result<Self>)
        ensures
            match r {
                Ok(f) => {
                    &&& f.wf()
                    &&& f.width == width
                    &&& f.height == height
                    &&& f.format == format
                    &&& f.data@ == data@
                    &&& f.pts is None
                },
                Err(e) => {
                    ||| (width == 0 || height == 0) && e@ == ErrorKind::InvalidArgument
                    ||| width > 0 && height > 0 && width * spec_bpp(format) * height
                        > usize::MAX && e@ == ErrorKind::Overflow
                    ||| width > 0 && height > 0 && width * spec_bpp(format) * height
                        <= usize::MAX && data@.len() != width * spec_bpp(format) * height
                        && e@ == ErrorKind::InvalidData
                },
            },
    {
        if width == 0 || height == 0 {
            return Err(MediaError::invalid_argument("video frame dimensions must be non-zero"));
        }
        let w = width as usize;
        let h = height as usize;
        let linesize = match w.checked_mul(format.bytes_per_pixel()) {
            Some(v) => v,
            None => {
                assert(width * spec_bpp(format) * height >= width * spec_bpp(format)) by (nonlinear_arith)
                    requires height >= 1;
                return Err(MediaError::overflow("video frame linesize overflow"));
            },
        };
        let expected = match linesize.checked_mul(h) {
            Some(v) => v,
            None => return Err(MediaError::overflow("video frame buffer size overflow")),
        };
        if data.len() != expected {
            return Err(MediaError::invalid_data("video frame buffer does not match its dimensions"));
        }
        Ok(VideoFrame { width, height, format, data, linesize, pts: None })
    }

    pub fn from_vec(width: u32, height: u32, format: PixelFormat, data: Vec<u8>) -> (r: Result<Self>)
        ensures
            match r {
                Ok(f) => {
                    &&& f.wf()
                    &&& f.width == width
                    &&& f.height == height
                    &&& f.format == format
                    &&& f.data@ == data@
                    &&& f.pts is None
                },
                Err(e) => {
                    ||| (width == 0 || height == 0) && e@ == ErrorKind::InvalidArgument
                    ||| width > 0 && height > 0 && width * spec_bpp(format) * height
                        > usize::MAX && e@ == ErrorKind::Overflow
                    ||| width > 0 && height > 0 && width * spec_bpp(format) * height
                        <= usize::MAX && data@.len() != width * spec_bpp(format) * height
                        && e@ == ErrorKind::InvalidData
                },
            },
    {
        Self::packed(width, height, format, Buffer::from_vec(data))
    }

    pub fn pixel_count(&self) -> (n: u64)
        ensures
            n == self.width * self.height,
    {
        assert(self.width * self.height <= u32::MAX * u32::MAX) by (nonlinear_arith);
        (self.width as u64) * (self.height as u64)
    }

    /// The bytes of row `y`.
    pub fn row(&self, y: u32) -> (r: Result<&[u8]>)
        requires
            self.wf(),
        ensures
            match r {
                Ok(s) => y < self.height && s@ == self.data@.subrange(
                    y * self.linesize,
                    (y + 1) * self.linesize,
                ),
                Err(e) => y >= self.height && e@ == ErrorKind::InvalidArgument,
            },
    {
        if y >= self.height {
            return Err(MediaError::invalid_argument("video frame row is out of bounds"));
        }
        let total = self.data.len();
        assert((y + 1) * self.linesize <= self.linesize * self.height) by (nonlinear_arith)
            requires y < self.height;
        assert((y + 1) * self.linesize == y * self.linesize + self.linesize) by (nonlinear_arith);
        let start = (y as usize) * self.linesize;
        Ok(vstd::slice::slice_subrange(self.data.as_slice(), start, start + self.linesize))
    }
}

/// Splits index `k` of a `w`-by-`h` raster of `ch`-byte pixels as pixel
/// `(x, y)`, channel `c`.
pub proof fn lemma_pixel_decompose(k: int, w: int, h: int, ch: int) -> (r: (int, int, int))
    requires
        w >= 1,
        h >= 1,
        ch >= 1,
        0 <= k < w * h * ch,
    ensures
        0 <= r.0 < h,
        0 <= r.1 < w,
        0 <= r.2 < ch,
        k == (r.0 * w + r.1) * ch + r.2,
{
    let p = k / ch;
    let c = k % ch;
    vstd::arithmetic::div_mod::lemma_fundamental_div_mod(k, ch);
    vstd::arithmetic::div_mod::lemma_mod_pos_bound(k, ch);
    assert(0 <= p) by (nonlinear_arith)
        requires k == ch * p + c, 0 <= c < ch, 0 <= k, ch >= 1;
    assert(p < w * h) by (nonlinear_arith)
        requires k == ch * p + c, 0 <= c, k < w * h * ch, ch >= 1;
    let y = p / w;
    let x = p % w;
    vstd::arithmetic::div_mod::lemma_fundamental_div_mod(p, w);
    vstd::arithmetic::div_mod::lemma_mod_pos_bound(p, w);
    assert(0 <= y < h) by (nonlinear_arith)
        requires p == w * y + x, 0 <= x < w, 0 <= p < w * h, w >= 1;
    assert(k == (y * w + x) * ch + c) by (nonlinear_arith)
        requires k == ch * p + c, p == w * y + x;
    (y, x, c)
}

} // verus!

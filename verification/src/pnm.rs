use vstd::prelude::*;

use crate::bytes_util::{decimal, push_decimal, push_slice};
use crate::error::{ErrorKind, MediaError, Result};
use crate::video::{spec_bpp, PixelFormat, VideoFrame};

verus! {

pub const MAX_PIXELS: u64 = 268_435_456;

#[derive(Debug, Clone, Copy, PartialEq, Eq, Structural)]
pub enum PnmKind {
    Pbm,
    Pgm,
    Ppm,
}

impl PnmKind {
    pub fn codec_name(self) -> (s: &'static str)
        ensures
            self == PnmKind::Pbm ==> s@ == "pbm"@,
            self == PnmKind::Pgm ==> s@ == "pgm"@,
            self == PnmKind::Ppm ==> s@ == "ppm"@,
    {
        match self {
            PnmKind::Pbm => "pbm",
            PnmKind::Pgm => "pgm",
            PnmKind::Ppm => "ppm",
        }
    }
}

/// A decoded Netpbm image and the family it came from.
#[derive(Debug, Clone, PartialEq, Eq)]
pub struct PnmImage {
    pub kind: PnmKind,
    pub frame: VideoFrame,
}

/// ASCII whitespace as Rust's `u8::is_ascii_whitespace` defines it.
pub open spec fn is_ws(b: u8) -> bool {
    b == 32 || b == 9 || b == 10 || b == 12 || b == 13
}

fn ws(b: u8) -> (r: bool)
    ensures
        r == is_ws(b),
{
    b == 32 || b == 9 || b == 10 || b == 12 || b == 13
}

/// Whether the bytes start like a Netpbm file: `P`, a digit 1..6, then
/// whitespace or `#`.
pub open spec fn spec_probe_pnm(s: Seq<u8>) -> bool {
    &&& s.len() >= 3
    &&& s[0] == 80
    &&& 49 <= s[1] <= 54
    &&& (is_ws(s[2]) || s[2] == 35)
}

pub fn probe_pnm(bytes: &[u8]) -> (score: u8)
    ensures
        score == if spec_probe_pnm(bytes@) { 100u8 } else { 0u8 },
{
    if bytes.len() < 3 || bytes[0] != 80 || bytes[1] < 49 || bytes[1] > 54 {
        return 0;
    }
    if !ws(bytes[2]) && bytes[2] != 35 {
        return 0;
    }
    100
}

/// The family a Netpbm magic digit belongs to.
pub open spec fn kind_of_magic(m: u8) -> PnmKind {
    if m == 49 || m == 52 {
        PnmKind::Pbm
    } else if m == 50 || m == 53 {
        PnmKind::Pgm
    } else {
        PnmKind::Ppm
    }
}

pub open spec fn format_of_kind(k: PnmKind) -> PixelFormat {
    if k == PnmKind::Ppm {
        PixelFormat::Rgb24
    } else {
        PixelFormat::Gray8
    }
}

/// The number token from `p`, and where reading resumes.
pub open spec fn pnm_number(s: Seq<u8>, p: nat) -> core::result::Result<(nat, nat), ErrorKind> {
    match spec_next_token(s, p) {
        Err(k) => Err(k),
        Ok((a, b, next)) => match token_number(s.subrange(a as int, b as int)) {
            Err(k) => Err(k),
            Ok(v) => Ok((v, next)),
        },
    }
}

/// The pixels of a binary PBM raster of `w` by `h`.
pub open spec fn binary_pbm_raster(data: Seq<u8>, w: nat, h: nat) -> core::result::Result<Seq<u8>, ErrorKind> {
    if data.len() != pbm_row_bytes(w) * h {
        Err(ErrorKind::InvalidData)
    } else {
        Ok(Seq::new(w * h, |i: int| binary_pbm_pixel(data, w, i)))
    }
}

/// The pixels of a binary PGM/PPM raster of `n` samples.
pub open spec fn binary_raster(data: Seq<u8>, n: nat, maxval: u16) -> core::result::Result<Seq<u8>, ErrorKind> {
    if data.len() != n * (if maxval < 256 { 1nat } else { 2nat }) {
        Err(ErrorKind::InvalidData)
    } else if exists|i: int| 0 <= i < n && #[trigger] binary_sample(data, i, maxval) > maxval {
        Err(ErrorKind::InvalidData)
    } else {
        Ok(Seq::new(n, |i: int| spec_scale(binary_sample(data, i, maxval), maxval as nat) as u8))
    }
}

/// The raster of a Netpbm file of magic digit `magic` whose header ended
/// at `p` with dimensions `w` by `h`.
pub open spec fn pnm_raster(s: Seq<u8>, magic: u8, w: nat, h: nat, p: nat) -> core::result::Result<Seq<u8>, ErrorKind> {
    if magic == 49 {
        ascii_raster(s, p, w * h, true, 1)
    } else if magic == 52 {
        binary_pbm_raster(s.subrange(p as int, s.len() as int), w, h)
    } else {
        match pnm_number(s, p) {
            Err(k) => Err(k),
            Ok((maxval, q)) => if maxval == 0 || maxval > 65535 {
                Err(ErrorKind::InvalidData)
            } else {
                let n = w * h * (if magic == 50 || magic == 53 { 1nat } else { 3nat });
                if magic == 50 || magic == 51 {
                    ascii_raster(s, q, n, false, maxval)
                } else {
                    binary_raster(s.subrange(q as int, s.len() as int), n, maxval as u16)
                }
            },
        }
    }
}

/// What `decode_pnm` makes of a file: its family, width, height and pixels,
/// or the first failure.
pub open spec fn spec_decode_pnm(s: Seq<u8>) -> core::result::Result<(PnmKind, nat, nat, Seq<u8>), ErrorKind> {
    if !spec_probe_pnm(s) {
        Err(ErrorKind::InvalidData)
    } else {
        match pnm_number(s, 2) {
            Err(k) => Err(k),
            Ok((w, p1)) => if w == 0 {
                Err(ErrorKind::InvalidData)
            } else {
                match pnm_number(s, p1) {
                    Err(k) => Err(k),
                    Ok((h, p2)) => if h == 0 {
                        Err(ErrorKind::InvalidData)
                    } else if w * h > MAX_PIXELS {
                        Err(ErrorKind::Unsupported)
                    } else {
                        match pnm_raster(s, s[1], w, h, p2) {
                            Err(k) => Err(k),
                            Ok(px) => Ok((kind_of_magic(s[1]), w, h, px)),
                        }
                    },
                }
            },
        }
    }
}

/// Decodes any of the six Netpbm encodings (P1..P6) into a gray or RGB frame.
#[verifier::spinoff_prover]
pub fn decode_pnm(bytes: &[u8]) -> (r: Result<PnmImage>)
    ensures
        !spec_probe_pnm(bytes@) ==> r is Err && r->Err_0@ == ErrorKind::InvalidData,
        r matches Ok(img) ==> {
            &&& spec_probe_pnm(bytes@)
            &&& img.kind == kind_of_magic(bytes@[1])
            &&& img.frame.wf()
            &&& img.frame.format == format_of_kind(img.kind)
            &&& img.frame.pts is None
            &&& img.kind == PnmKind::Pbm ==> forall|i: int| 0 <= i < img.frame.data@.len() ==> #[trigger] img.frame.data@[i] == 0 || img.frame.data@[i] == 255
        },
        match spec_decode_pnm(bytes@) {
            Ok((kind, w, h, px)) => r matches Ok(img) && img.kind == kind && img.frame.width == w && img.frame.height == h
                && img.frame.data@ == px,
            Err(k) => r matches Err(e) && e@ == k,
        },
{
    let ghost s = bytes@;
    if probe_pnm(bytes) == 0 {
        return Err(MediaError::invalid_data("input is not a supported Netpbm image"));
    }
    let magic = bytes[1];
    let mut tokens = Tokenizer::new(bytes, 2);
    let t = match tokens.next_token() {
        Ok(t) => t,
        Err(e) => return Err(e),
    };
    let width = match parse_dimension(t) {
        Ok(v) => v,
        Err(e) => return Err(e),
    };
    let t = match tokens.next_token() {
        Ok(t) => t,
        Err(e) => return Err(e),
    };
    let height = match parse_dimension(t) {
        Ok(v) => v,
        Err(e) => return Err(e),
    };
    match validate_dimensions(width, height) {
        Ok(()) => {},
        Err(e) => return Err(e),
    }
    let ghost p2 = tokens.position as nat;
    assert(spec_decode_pnm(s) == match pnm_raster(s, magic, width as nat, height as nat, p2) {
        Err(k) => Err(k),
        Ok(px) => Ok::<(PnmKind, nat, nat, Seq<u8>), ErrorKind>((kind_of_magic(magic), width as nat, height as nat, px)),
    });
    if magic == 49 {
        return decode_ascii_pbm(&mut tokens, width, height);
    }
    if magic == 52 {
        return decode_binary_pbm(tokens.remaining(), width, height);
    }
    let t = match tokens.next_token() {
        Ok(t) => t,
        Err(e) => return Err(e),
    };
    let maxval = match parse_maxval(t) {
        Ok(v) => v,
        Err(e) => return Err(e),
    };
    if magic == 50 {
        decode_ascii_samples(&mut tokens, PnmKind::Pgm, width, height, maxval)
    } else if magic == 51 {
        decode_ascii_samples(&mut tokens, PnmKind::Ppm, width, height, maxval)
    } else if magic == 53 {
        decode_binary_samples(tokens.remaining(), PnmKind::Pgm, width, height, maxval)
    } else {
        decode_binary_samples(tokens.remaining(), PnmKind::Ppm, width, height, maxval)
    }
}

/// Encodes a frame in the binary (raw) form of the requested family.
pub fn encode_pnm(kind: PnmKind, frame: &VideoFrame) -> (r: Result<Vec<u8>>)
    requires
        frame.wf(),
    ensures
        frame.format != format_of_kind(kind) ==> r is Err && r->Err_0@ == ErrorKind::InvalidArgument,
        r matches Ok(out) ==> frame.format == format_of_kind(kind) && (kind != PnmKind::Pbm ==> out@
            == pnm_header(kind, frame.width, frame.height) + frame.data@) && (kind == PnmKind::Pbm
            ==> out@.subrange(0, pbm_header(frame.width, frame.height).len() as int) == pbm_header(
            frame.width,
            frame.height,
        ) && out@.len() == pbm_header(frame.width, frame.height).len() + pbm_row_bytes(
            frame.width as nat,
        ) * frame.height),
        frame.format == format_of_kind(kind) ==> r is Ok,
        kind == PnmKind::Pbm ==> (r matches Ok(out) ==> forall|y: int, g: int| 0 <= y < frame.height && 0 <= g < pbm_row_bytes(frame.width as nat)
            ==> #[trigger] out@[pbm_header(frame.width, frame.height).len() + y * pbm_row_bytes(frame.width as nat) + g]
            == pbm_pack(frame.data@.subrange(y * frame.width, (y + 1) * frame.width), frame.width as nat, g as nat, 8)),
        kind != PnmKind::Pbm ==> (r matches Ok(out) ==> (frame.width * frame.height <= MAX_PIXELS ==> spec_decode_pnm(out@)
            == Ok::<(PnmKind, nat, nat, Seq<u8>), ErrorKind>((kind, frame.width as nat, frame.height as nat, frame.data@)))),
{
    let r = match kind {
        PnmKind::Pbm => encode_pbm(frame),
        PnmKind::Pgm => encode_pgm(frame),
        PnmKind::Ppm => encode_ppm(frame),
    };
    proof {
        if kind != PnmKind::Pbm && r is Ok && frame.width * frame.height <= MAX_PIXELS {
            lemma_pnm_roundtrip(kind, *frame);
        }
    }
    r
}

pub open spec fn pbm_row_bytes(width: nat) -> nat {
    (width + 7) / 8
}

/// Pixel value of a PBM sample: 1 is black, 0 is white.
pub open spec fn pbm_pixel(bit: nat) -> u8 {
    if bit == 1 {
        0
    } else {
        255
    }
}

#[verifier::spinoff_prover]
fn decode_ascii_pbm(tokens: &mut Tokenizer, width: u32, height: u32) -> (r: Result<PnmImage>)
    requires
        old(tokens).wf(),
        width > 0,
        height > 0,
        width * height <= MAX_PIXELS,
    ensures
        r matches Ok(img) ==> {
            &&& img.kind == PnmKind::Pbm
            &&& img.frame.wf()
            &&& img.frame.format == PixelFormat::Gray8
            &&& img.frame.pts is None
            &&& forall|i: int| 0 <= i < img.frame.data@.len() ==> #[trigger] img.frame.data@[i] == 0 || img.frame.data@[i] == 255
        },
        match ascii_raster(old(tokens).bytes@, old(tokens).position as nat, (width * height) as nat, true, 1) {
            Ok(px) => r matches Ok(img) && img.frame.data@ == px && img.frame.width == width && img.frame.height == height,
            Err(k) => r matches Err(e) && e@ == k,
        },
{
    let ghost s = tokens.bytes@;
    let ghost p0 = tokens.position as nat;
    let count = pixel_count_usize(width, height);
    let ghost n = count as nat;
    let mut pixels: Vec<u8> = Vec::with_capacity(count);
    let mut i: usize = 0;
    while i < count
        invariant
            tokens.wf(),
            tokens.bytes@ == s,
            s == old(tokens).bytes@,
            p0 == old(tokens).position,
            i <= count,
            n == count,
            count == width * height,
            pixels@.len() == i,
            forall|j: int| 0 <= j < i ==> #[trigger] pixels@[j] == 0 || pixels@[j] == 255,
            ascii_walk(s, p0, i as nat, true, 1) == Ok::<(Seq<u8>, nat), ErrorKind>((pixels@, tokens.position as nat)),
        decreases count - i,
    {
        let ghost q = tokens.position as nat;
        let token = match tokens.next_token() {
            Ok(t) => t,
            Err(e) => {
                proof {
                    assert(spec_next_token(s, q) == Err::<(nat, nat, nat), ErrorKind>(e@));
                    assert(ascii_walk(s, p0, (i + 1) as nat, true, 1) == Err::<(Seq<u8>, nat), ErrorKind>(e@));
                    lemma_ascii_walk_err(s, p0, (i + 1) as nat, n, true, 1);
                    assert(ascii_raster(s, p0, n, true, 1) == Err::<Seq<u8>, ErrorKind>(e@));
                }
                return Err(e);
            },
        };
        let value = match parse_u32(token) {
            Ok(v) => v,
            Err(e) => {
                proof {
                    lemma_ascii_walk_err(s, p0, (i + 1) as nat, n, true, 1);
                }
                return Err(e);
            },
        };
        if value == 0 {
            pixels.push(255);
        } else if value == 1 {
            pixels.push(0);
        } else {
            proof {
                lemma_ascii_walk_err(s, p0, (i + 1) as nat, n, true, 1);
            }
            return Err(MediaError::invalid_data("PBM samples must be 0 or 1"));
        }
        i += 1;
    }
    match tokens.ensure_ascii_exhausted() {
        Ok(()) => {},
        Err(e) => return Err(e),
    }
    let frame = match VideoFrame::from_vec(width, height, PixelFormat::Gray8, pixels) {
        Ok(f) => f,
        Err(e) => return Err(e),
    };
    Ok(PnmImage { kind: PnmKind::Pbm, frame })
}

#[verifier::spinoff_prover]
fn decode_ascii_samples(
    tokens: &mut Tokenizer,
    kind: PnmKind,
    width: u32,
    height: u32,
    maxval: u16,
) -> (r: Result<PnmImage>)
    requires
        old(tokens).wf(),
        kind != PnmKind::Pbm,
        width > 0,
        height > 0,
        width * height <= MAX_PIXELS,
        maxval >= 1,
    ensures
        r matches Ok(img) ==> {
            &&& img.kind == kind
            &&& img.frame.wf()
            &&& img.frame.format == format_of_kind(kind)
            &&& img.frame.pts is None
        },
        match ascii_raster(
            old(tokens).bytes@,
            old(tokens).position as nat,
            (width * height * (if kind == PnmKind::Pgm { 1nat } else { 3nat })) as nat,
            false,
            maxval as nat,
        ) {
            Ok(px) => r matches Ok(img) && img.frame.data@ == px && img.frame.width == width && img.frame.height == height,
            Err(k) => r matches Err(e) && e@ == k,
        },
{
    let ghost s = tokens.bytes@;
    let ghost p0 = tokens.position as nat;
    let channels: usize = if kind == PnmKind::Pgm {
        1
    } else {
        3
    };
    let count = pixel_count_usize(width, height);
    assert(count * channels <= 3 * MAX_PIXELS) by (nonlinear_arith)
        requires count <= MAX_PIXELS, channels <= 3;
    let samples = count * channels;
    let ghost n = samples as nat;
    assert(n == (width * height * (if kind == PnmKind::Pgm { 1nat } else { 3nat })) as nat);
    let mut pixels: Vec<u8> = Vec::with_capacity(samples);
    let mut i: usize = 0;
    while i < samples
        invariant
            tokens.wf(),
            tokens.bytes@ == s,
            s == old(tokens).bytes@,
            p0 == old(tokens).position,
            i <= samples,
            n == samples,
            n == (width * height * (if kind == PnmKind::Pgm { 1nat } else { 3nat })) as nat,
            pixels@.len() == i,
            maxval >= 1,
            ascii_walk(s, p0, i as nat, false, maxval as nat) == Ok::<(Seq<u8>, nat), ErrorKind>((pixels@, tokens.position as nat)),
        decreases samples - i,
    {
        let token = match tokens.next_token() {
            Ok(t) => t,
            Err(e) => {
                proof {
                    lemma_ascii_walk_err(s, p0, (i + 1) as nat, n, false, maxval as nat);
                }
                return Err(e);
            },
        };
        let value = match parse_u32(token) {
            Ok(v) => v,
            Err(e) => {
                proof {
                    lemma_ascii_walk_err(s, p0, (i + 1) as nat, n, false, maxval as nat);
                }
                return Err(e);
            },
        };
        if value > maxval as u32 {
            proof {
                lemma_ascii_walk_err(s, p0, (i + 1) as nat, n, false, maxval as nat);
            }
            return Err(MediaError::invalid_data("Netpbm sample exceeds maxval"));
        }
        pixels.push(scale_to_u8(value, maxval));
        i += 1;
    }
    match tokens.ensure_ascii_exhausted() {
        Ok(()) => {},
        Err(e) => return Err(e),
    }
    let format = if kind == PnmKind::Pgm {
        PixelFormat::Gray8
    } else {
        PixelFormat::Rgb24
    };
    assert(spec_bpp(format) == channels);
    assert(width * spec_bpp(format) * height == samples) by (nonlinear_arith)
        requires
            count == width * height,
            samples == count * channels,
            spec_bpp(format) == channels,
    ;
    let frame = match VideoFrame::from_vec(width, height, format, pixels) {
        Ok(f) => f,
        Err(e) => return Err(e),
    };
    Ok(PnmImage { kind, frame })
}

/// Bit `x` of a PBM raster row, most significant bit first.
pub open spec fn pbm_bit(row: Seq<u8>, x: int) -> nat {
    if (row[x / 8] >> ((7 - x % 8) as u8)) & 1 == 1 {
        1
    } else {
        0
    }
}

/// Unpacks a binary PBM raster: one row of `ceil(width / 8)` bytes per line,
/// set bits black; unused tail bits are ignored.
/// The pixels of a binary PBM raster: pixel `i` is bit `i % w` of row
/// `i / w`, one row being `ceil(w / 8)` bytes.
pub open spec fn binary_pbm_pixel(data: Seq<u8>, width: nat, i: int) -> u8 {
    let rb = pbm_row_bytes(width) as int;
    let y = i / width as int;
    pbm_pixel(pbm_bit(data.subrange(y * rb, y * rb + rb), i % width as int))
}

#[verifier::spinoff_prover]
fn decode_binary_pbm(data: &[u8], width: u32, height: u32) -> (r: Result<PnmImage>)
    requires
        width > 0,
        height > 0,
        width * height <= MAX_PIXELS,
    ensures
        r is Ok <==> data@.len() == pbm_row_bytes(width as nat) * height,
        r is Err ==> r->Err_0@ == ErrorKind::InvalidData,
        r matches Ok(img) ==> {
            &&& img.kind == PnmKind::Pbm
            &&& img.frame.wf()
            &&& img.frame.width == width
            &&& img.frame.height == height
            &&& img.frame.format == PixelFormat::Gray8
            &&& img.frame.pts is None
            &&& forall|i: int| 0 <= i < img.frame.data@.len() ==> #[trigger] img.frame.data@[i] == 0 || img.frame.data@[i] == 255
            &&& img.frame.data@ == Seq::new((width * height) as nat, |i: int| binary_pbm_pixel(data@, width as nat, i))
        },
{
    let row_bytes = ((width as u64 + 7) / 8) as usize;
    let h = height as usize;
    let w = width as usize;
    assert(row_bytes * h <= (MAX_PIXELS + 7) * 2) by (nonlinear_arith)
        requires
            row_bytes == (w + 7) / 8,
            w * h <= MAX_PIXELS,
            h >= 1,
            w >= 1,
    ;
    let expected = row_bytes * h;
    if data.len() != expected {
        return Err(MediaError::invalid_data("PBM raster size does not match its dimensions"));
    }
    let count = pixel_count_usize(width, height);
    let mut pixels: Vec<u8> = Vec::with_capacity(count);
    let mut y: usize = 0;
    while y < h
        invariant
            row_bytes == (w + 7) / 8,
            data@.len() == row_bytes * h,
            row_bytes * h <= (MAX_PIXELS + 7) * 2,
            w == width,
            h == height,
            w * h <= MAX_PIXELS,
            y <= h,
            pixels@.len() == y * w,
            forall|j: int| 0 <= j < pixels@.len() ==> #[trigger] pixels@[j] == 0 || pixels@[j] == 255,
            forall|j: int| 0 <= j < pixels@.len() ==> #[trigger] pixels@[j] == binary_pbm_pixel(data@, w as nat, j),
        decreases h - y,
    {
        assert((y + 1) * row_bytes <= h * row_bytes) by (nonlinear_arith)
            requires y < h;
        assert(row_bytes * h == h * row_bytes) by (nonlinear_arith);
        assert((y + 1) * row_bytes == y * row_bytes + row_bytes) by (nonlinear_arith);
        assert((y + 1) * w <= w * h) by (nonlinear_arith)
            requires y < h;
        assert((y + 1) * w == y * w + w) by (nonlinear_arith);
        let start = y * row_bytes;
        let row = vstd::slice::slice_subrange(data, start, start + row_bytes);
        let mut x: usize = 0;
        while x < w
            invariant
                row_bytes == (w + 7) / 8,
                row@.len() == row_bytes,
                x <= w,
                (y + 1) * w <= MAX_PIXELS,
                pixels@.len() == y * w + x,
                forall|j: int| 0 <= j < pixels@.len() ==> #[trigger] pixels@[j] == 0 || pixels@[j] == 255,
                forall|j: int| 0 <= j < pixels@.len() ==> #[trigger] pixels@[j] == binary_pbm_pixel(data@, w as nat, j),
                row@ == data@.subrange((y * row_bytes) as int, (y * row_bytes + row_bytes) as int),
                row_bytes == pbm_row_bytes(w as nat),
            decreases w - x,
        {
            let byte = row[x / 8];
            let shift = (7 - (x % 8)) as u8;
            let bit = (byte >> shift) & 1;
            proof {
                let j = (y * w + x) as int;
                assert(j / (w as int) == y && j % (w as int) == x) by (nonlinear_arith)
                    requires j == y * w + x, x < w;
                assert(bit == (row@[(x / 8) as int] >> ((7 - x % 8) as u8)) & 1);
            }
            let ghost prev = pixels@;
            pixels.push(if bit == 1 { 0 } else { 255 });
            assert(pixels@[(y * w + x) as int] == binary_pbm_pixel(data@, w as nat, (y * w + x) as int));
            assert forall|j: int| 0 <= j < pixels@.len() implies #[trigger] pixels@[j] == binary_pbm_pixel(data@, w as nat, j) by {
                if j < prev.len() {
                    assert(pixels@[j] == prev[j]);
                }
            }
            x += 1;
        }
        y += 1;
    }
    assert(y * w == width * height) by (nonlinear_arith)
        requires y == h, w == width, h == height;
    assert(pixels@ =~= Seq::new((width * height) as nat, |i: int| binary_pbm_pixel(data@, width as nat, i)));
    let frame = match VideoFrame::from_vec(width, height, PixelFormat::Gray8, pixels) {
        Ok(f) => f,
        Err(e) => return Err(e),
    };
    Ok(PnmImage { kind: PnmKind::Pbm, frame })
}

/// Netpbm sample rescaling to 8 bits: `round(value * 255 / maxval)`.
pub open spec fn spec_scale(value: nat, maxval: nat) -> nat {
    (value * 255 + maxval / 2) / maxval
}

fn scale_to_u8(value: u32, maxval: u16) -> (r: u8)
    requires
        maxval >= 1,
        value <= maxval,
    ensures
        r == spec_scale(value as nat, maxval as nat),
{
    let m = maxval as u32;
    assert(value * 255 + m / 2 <= 65535 * 255 + 65535) by (nonlinear_arith)
        requires value <= m, m <= 65535;
    let num = value * 255 + m / 2;
    let scaled = num / m;
    assert(scaled <= 255) by (nonlinear_arith)
        requires scaled == num / m, num == value * 255 + m / 2, value <= m, m >= 1;
    scaled as u8
}

/// Big-endian 16-bit value of two bytes.
pub open spec fn be16(hi: u8, lo: u8) -> nat {
    (hi as nat) * 256 + lo as nat
}

/// The raster sample `i` of a binary PGM/PPM body.
pub open spec fn binary_sample(data: Seq<u8>, i: int, maxval: u16) -> nat {
    if maxval >= 256 {
        be16(data[2 * i], data[2 * i + 1])
    } else {
        data[i] as nat
    }
}

#[verifier::loop_isolation(false)]
/// Reads a binary PGM/PPM raster of 1-byte (maxval < 256) or big-endian
/// 2-byte samples, each rescaled to 8 bits.
fn decode_binary_samples(data: &[u8], kind: PnmKind, width: u32, height: u32, maxval: u16) -> (r: Result<PnmImage>)
    requires
        kind != PnmKind::Pbm,
        width > 0,
        height > 0,
        width * height <= MAX_PIXELS,
        maxval >= 1,
    ensures
        r matches Ok(img) ==> {
            &&& img.kind == kind
            &&& img.frame.wf()
            &&& img.frame.width == width
            &&& img.frame.height == height
            &&& img.frame.format == format_of_kind(kind)
            &&& img.frame.pts is None
            &&& data@.len() == img.frame.data@.len() * (if maxval < 256 { 1int } else { 2int })
            &&& forall|i: int| 0 <= i < img.frame.data@.len() ==> #[trigger] binary_sample(data@, i, maxval) <= maxval
            &&& forall|i: int| 0 <= i < img.frame.data@.len() ==> #[trigger] img.frame.data@[i] == spec_scale(binary_sample(data@, i, maxval), maxval as nat)
        },
        r is Err ==> r->Err_0@ == ErrorKind::InvalidData,
        r is Ok <==> {
            let n = width * height * (if kind == PnmKind::Pgm { 1int } else { 3int });
            &&& data@.len() == n * (if maxval < 256 { 1int } else { 2int })
            &&& forall|i: int| 0 <= i < n ==> #[trigger] binary_sample(data@, i, maxval) <= maxval
        },
{
    let channels: usize = if kind == PnmKind::Pgm {
        1
    } else {
        3
    };
    let count = pixel_count_usize(width, height);
    assert(count * channels <= 3 * MAX_PIXELS) by (nonlinear_arith)
        requires count <= MAX_PIXELS, channels <= 3;
    let samples = count * channels;
    let wide = maxval >= 256;
    let bytes_per_sample: usize = if wide {
        2
    } else {
        1
    };
    let expected = samples * bytes_per_sample;
    if data.len() != expected {
        return Err(MediaError::invalid_data("Netpbm raster size does not match its dimensions"));
    }
    let mut pixels: Vec<u8> = Vec::with_capacity(samples);
    let mut i: usize = 0;
    let n = data.len();
    while i < samples
        invariant
            n == data@.len(),
            data@.len() == samples * bytes_per_sample,
            bytes_per_sample == (if wide { 2usize } else { 1usize }),
            wide == (maxval >= 256),
            maxval >= 1,
            i <= samples,
            pixels@.len() == i,
            forall|j: int| 0 <= j < i ==> #[trigger] binary_sample(data@, j, maxval) <= maxval,
            forall|j: int| 0 <= j < i ==> #[trigger] pixels@[j] == spec_scale(binary_sample(data@, j, maxval), maxval as nat),
        decreases samples - i,
    {
        assert(wide ==> 2 * i + 1 < data@.len()) by (nonlinear_arith)
            requires i < samples, wide ==> data@.len() == samples * 2;
        let value: u32 = if wide {
            (data[2 * i] as u32) * 256 + data[2 * i + 1] as u32
        } else {
            data[i] as u32
        };
        assert(value == binary_sample(data@, i as int, maxval));
        if value > maxval as u32 {
            return Err(MediaError::invalid_data("Netpbm sample exceeds maxval"));
        }
        let ghost prev = pixels@;
        pixels.push(scale_to_u8(value, maxval));
        assert forall|j: int| 0 <= j < i + 1 implies #[trigger] pixels@[j] == spec_scale(binary_sample(data@, j, maxval), maxval as nat) by {
            if j < i {
                assert(pixels@[j] == prev[j]);
            }
        }
        i += 1;
    }
    let format = if kind == PnmKind::Pgm {
        PixelFormat::Gray8
    } else {
        PixelFormat::Rgb24
    };
    assert(spec_bpp(format) == channels);
    assert(width * spec_bpp(format) * height == samples) by (nonlinear_arith)
        requires
            count == width * height,
            samples == count * channels,
            spec_bpp(format) == channels,
    ;
    let frame = match VideoFrame::from_vec(width, height, format, pixels) {
        Ok(f) => f,
        Err(e) => return Err(e),
    };
    Ok(PnmImage { kind, frame })
}

/// `P4\n<w> <h>\n`
pub open spec fn pbm_header(width: u32, height: u32) -> Seq<u8> {
    seq![80u8, 52u8, 10u8] + decimal(width as nat) + seq![32u8] + decimal(height as nat) + seq![10u8]
}

/// `P5\n<w> <h>\n255\n` or `P6\n<w> <h>\n255\n`.
pub open spec fn pnm_header(kind: PnmKind, width: u32, height: u32) -> Seq<u8> {
    seq![80u8, if kind == PnmKind::Pgm { 53u8 } else { 54u8 }, 10u8] + decimal(width as nat) + seq![32u8]
        + decimal(height as nat) + seq![10u8, 50u8, 53u8, 53u8, 10u8]
}

/// The PBM byte for columns `8g .. 8g+7` of `row`: bit set where the pixel is
/// dark (below 128), columns at or beyond `width` left clear.
pub open spec fn pbm_pack(row: Seq<u8>, width: nat, g: nat, k: nat) -> nat
    decreases k,
{
    if k == 0 {
        0
    } else {
        let x = g * 8 + (k - 1);
        pbm_pack(row, width, g, (k - 1) as nat) * 2 + if x < width && row[x as int] < 128 { 1nat } else { 0nat }
    }
}

#[verifier::loop_isolation(false)]
fn encode_pbm(frame: &VideoFrame) -> (r: Result<Vec<u8>>)
    requires
        frame.wf(),
    ensures
        frame.format == PixelFormat::Gray8 ==> r is Ok,
        frame.format != PixelFormat::Gray8 ==> r is Err && r->Err_0@ == ErrorKind::InvalidArgument,
        r matches Ok(out) ==> {
            &&& frame.format == PixelFormat::Gray8
            &&& out@.subrange(0, pbm_header(frame.width, frame.height).len() as int) == pbm_header(frame.width, frame.height)
            &&& out@.len() == pbm_header(frame.width, frame.height).len() + pbm_row_bytes(frame.width as nat) * frame.height
            &&& forall|y: int, g: int| 0 <= y < frame.height && 0 <= g < pbm_row_bytes(frame.width as nat)
                ==> #[trigger] out@[pbm_header(frame.width, frame.height).len() + y * pbm_row_bytes(frame.width as nat) + g]
                == pbm_pack(frame.data@.subrange(y * frame.width, (y + 1) * frame.width), frame.width as nat, g as nat, 8)
        },
{
    require_format(frame, PixelFormat::Gray8)?;
    let width = frame.width as usize;
    let row_bytes = ((frame.width as u64 + 7) / 8) as usize;
    let mut output: Vec<u8> = Vec::new();
    output.push(80);
    output.push(52);
    output.push(10);
    push_decimal(&mut output, frame.width);
    output.push(32);
    push_decimal(&mut output, frame.height);
    output.push(10);
    let ghost header = output@;
    assert(header =~= pbm_header(frame.width, frame.height));
    let mut y: u32 = 0;
    while y < frame.height
        invariant
            frame.wf(),
            frame.format == PixelFormat::Gray8,
            width == frame.width,
            row_bytes == (width + 7) / 8,
            y <= frame.height,
            output@.len() == header.len() + y * row_bytes,
            output@.subrange(0, header.len() as int) == header,
            forall|yy: int, g: int| 0 <= yy < y && 0 <= g < row_bytes
                ==> #[trigger] output@[header.len() + yy * row_bytes + g]
                == pbm_pack(frame.data@.subrange(yy * frame.width, (yy + 1) * frame.width), frame.width as nat, g as nat, 8),
        decreases frame.height - y,
    {
        let row = match frame.row(y) {
            Ok(r) => r,
            Err(e) => return Err(e),
        };
        assert(frame.linesize == frame.width);
        assert((y + 1) * frame.linesize <= frame.linesize * frame.height) by (nonlinear_arith)
            requires y < frame.height;
        assert((y + 1) * frame.linesize == y * frame.linesize + frame.linesize) by (nonlinear_arith);
        assert(row@.len() == width);
        proof {
            vstd::arithmetic::power2::lemma2_to64();
        }
        let ghost before = output@;
        let mut group: usize = 0;
        while group < row_bytes
            invariant
                width == frame.width,
                row@.len() == width,
                row@ == frame.data@.subrange(y * frame.width, (y + 1) * frame.width),
                row_bytes == (width + 7) / 8,
                group <= row_bytes,
                output@.len() == before.len() + group,
                output@.subrange(0, before.len() as int) == before,
                forall|g: int| 0 <= g < group ==> #[trigger] output@[before.len() + g] == pbm_pack(row@, width as nat, g as nat, 8),
            decreases row_bytes - group,
        {
            let mut byte: u8 = 0;
            let mut bit: usize = 0;
            while bit < 8
                invariant
                    bit <= 8,
                    byte == pbm_pack(row@, width as nat, group as nat, bit as nat),
                    byte < vstd::arithmetic::power2::pow2(bit as nat),
                    row@.len() == width,
                    row_bytes == (width + 7) / 8,
                    width == frame.width,
                    group < row_bytes,
                decreases 8 - bit,
            {
                proof {
                    vstd::arithmetic::power2::lemma2_to64();
                    vstd::arithmetic::power2::lemma_pow2_unfold((bit + 1) as nat);
                    vstd::arithmetic::power2::lemma_pow2_strictly_increases(bit as nat, 8);
                }
                let x = (group as u64) * 8 + bit as u64;
                let dark: u8 = if x < width as u64 && row[x as usize] < 128 {
                    1
                } else {
                    0
                };
                byte = byte * 2 + dark;
                bit += 1;
            }
            output.push(byte);
            group += 1;
            assert(output@.subrange(0, before.len() as int) =~= before);
        }
        proof {
            assert((y + 1) * row_bytes == y * row_bytes + row_bytes) by (nonlinear_arith);
            assert(output@.subrange(0, header.len() as int) =~= header);
            assert forall|yy: int, g: int| 0 <= yy < y + 1 && 0 <= g < row_bytes
                implies #[trigger] output@[header.len() + yy * row_bytes + g]
                == pbm_pack(frame.data@.subrange(yy * frame.width, (yy + 1) * frame.width), frame.width as nat, g as nat, 8) by {
                if yy < y {
                    assert(header.len() + yy * row_bytes + g < before.len()) by (nonlinear_arith)
                        requires yy < y, g < row_bytes, before.len() == header.len() + y * row_bytes;
                    assert(before[header.len() + yy * row_bytes + g] == output@.subrange(0, before.len() as int)[header.len() + yy * row_bytes + g]);
                } else {
                    assert(output@[before.len() + g] == pbm_pack(row@, width as nat, g as nat, 8));
                }
            }
        }
        y += 1;
    }
    assert(output@.len() == pbm_header(frame.width, frame.height).len() + pbm_row_bytes(frame.width as nat) * frame.height) by (nonlinear_arith)
        requires output@.len() == header.len() + y * row_bytes, y == frame.height, row_bytes == pbm_row_bytes(frame.width as nat), header == pbm_header(frame.width, frame.height);
    Ok(output)
}

fn encode_pgm(frame: &VideoFrame) -> (r: Result<Vec<u8>>)
    requires
        frame.wf(),
    ensures
        frame.format == PixelFormat::Gray8 ==> r is Ok,
        frame.format != PixelFormat::Gray8 ==> r is Err && r->Err_0@ == ErrorKind::InvalidArgument,
        r matches Ok(out) ==> frame.format == PixelFormat::Gray8 && out@ == pnm_header(PnmKind::Pgm, frame.width, frame.height) + frame.data@,
{
    require_format(frame, PixelFormat::Gray8)?;
    encode_raw(frame, 53)
}

fn encode_ppm(frame: &VideoFrame) -> (r: Result<Vec<u8>>)
    requires
        frame.wf(),
    ensures
        frame.format == PixelFormat::Rgb24 ==> r is Ok,
        frame.format != PixelFormat::Rgb24 ==> r is Err && r->Err_0@ == ErrorKind::InvalidArgument,
        r matches Ok(out) ==> frame.format == PixelFormat::Rgb24 && out@ == pnm_header(PnmKind::Ppm, frame.width, frame.height) + frame.data@,
{
    require_format(frame, PixelFormat::Rgb24)?;
    encode_raw(frame, 54)
}

fn encode_raw(frame: &VideoFrame, magic: u8) -> (r: Result<Vec<u8>>)
    requires
        magic == 53 || magic == 54,
    ensures
        r matches Ok(out) && out@ == pnm_header(if magic == 53 { PnmKind::Pgm } else { PnmKind::Ppm }, frame.width, frame.height) + frame.data@,
{
    let mut output: Vec<u8> = Vec::new();
    output.push(80);
    output.push(magic);
    output.push(10);
    push_decimal(&mut output, frame.width);
    output.push(32);
    push_decimal(&mut output, frame.height);
    output.push(10);
    output.push(50);
    output.push(53);
    output.push(53);
    output.push(10);
    push_slice(&mut output, frame.data.as_slice());
    assert(output@ =~= pnm_header(if magic == 53 { PnmKind::Pgm } else { PnmKind::Ppm }, frame.width, frame.height) + frame.data@);
    Ok(output)
}

fn require_format(frame: &VideoFrame, expected: PixelFormat) -> (r: Result<()>)
    ensures
        r is Ok <==> frame.format == expected,
        r is Err ==> r->Err_0@ == ErrorKind::InvalidArgument,
{
    if frame.format != expected {
        return Err(MediaError::invalid_argument("Netpbm encoder received an unsupported pixel format"));
    }
    Ok(())
}

/// Decimal value of a digit string.
pub open spec fn digits_value(s: Seq<u8>) -> nat
    decreases s.len(),
{
    if s.len() == 0 {
        0
    } else {
        digits_value(s.drop_last()) * 10 + (s.last() - 48) as nat
    }
}

pub open spec fn all_digits(s: Seq<u8>) -> bool {
    forall|i: int| 0 <= i < s.len() ==> 48 <= #[trigger] s[i] <= 57
}

/// Parses a non-empty string of ASCII digits as a `u32`.
fn parse_u32(token: &[u8]) -> (r: Result<u32>)
    ensures
        match r {
            Ok(v) => token@.len() > 0 && all_digits(token@) && v == digits_value(token@),
            Err(e) => {
                ||| (token@.len() == 0 || !all_digits(token@)) && e@ == ErrorKind::InvalidData
                ||| token@.len() > 0 && all_digits(token@) && digits_value(token@) > u32::MAX && e@ == ErrorKind::Overflow
            },
        },
{
    if token.len() == 0 {
        return Err(MediaError::invalid_data("invalid Netpbm token"));
    }
    let mut k: usize = 0;
    while k < token.len()
        invariant
            k <= token@.len(),
            forall|j: int| 0 <= j < k ==> 48 <= #[trigger] token@[j] <= 57,
        decreases token@.len() - k,
    {
        if token[k] < 48 || token[k] > 57 {
            return Err(MediaError::invalid_data("invalid Netpbm token"));
        }
        k += 1;
    }
    let mut value: u32 = 0;
    let mut i: usize = 0;
    while i < token.len()
        invariant
            i <= token@.len(),
            all_digits(token@),
            value == digits_value(token@.subrange(0, i as int)),
        decreases token@.len() - i,
    {
        proof {
            assert(token@.subrange(0, i + 1).drop_last() =~= token@.subrange(0, i as int));
        }
        let digit = (token[i] - 48) as u32;
        if value > (u32::MAX - digit) / 10 {
            proof {
                lemma_digits_prefix_mono(token@, i + 1);
            }
            return Err(MediaError::overflow("Netpbm number overflow"));
        }
        value = value * 10 + digit;
        i += 1;
    }
    assert(token@.subrange(0, i as int) =~= token@);
    Ok(value)
}

/// The value of a digit string is at least the value of each of its prefixes.
proof fn lemma_digits_prefix_mono(s: Seq<u8>, k: int)
    requires
        0 <= k <= s.len(),
        all_digits(s),
    ensures
        digits_value(s) >= digits_value(s.subrange(0, k)),
    decreases s.len(),
{
    if k < s.len() {
        assert(s.drop_last().subrange(0, k) =~= s.subrange(0, k));
        assert(all_digits(s.drop_last()));
        lemma_digits_prefix_mono(s.drop_last(), k);
    } else {
        assert(s.subrange(0, k) =~= s);
    }
}

fn parse_dimension(token: &[u8]) -> (r: Result<u32>)
    ensures
        r matches Ok(v) ==> v > 0 && v == digits_value(token@),
        match token_number(token@) {
            Ok(v) => if v == 0 {
                r matches Err(e) && e@ == ErrorKind::InvalidData
            } else {
                r == Ok::<u32, MediaError>(v as u32)
            },
            Err(k) => r matches Err(e) && e@ == k,
        },
{
    let value = match parse_u32(token) {
        Ok(v) => v,
        Err(e) => return Err(e),
    };
    if value == 0 {
        return Err(MediaError::invalid_data("Netpbm dimensions must be non-zero"));
    }
    Ok(value)
}

fn parse_maxval(token: &[u8]) -> (r: Result<u16>)
    ensures
        r matches Ok(v) ==> 1 <= v && v == digits_value(token@),
        match token_number(token@) {
            Ok(v) => if v == 0 || v > 65535 {
                r matches Err(e) && e@ == ErrorKind::InvalidData
            } else {
                r == Ok::<u16, MediaError>(v as u16)
            },
            Err(k) => r matches Err(e) && e@ == k,
        },
{
    let value = match parse_u32(token) {
        Ok(v) => v,
        Err(e) => return Err(e),
    };
    if value == 0 || value > 65535 {
        return Err(MediaError::invalid_data("Netpbm maxval must be in the range 1..=65535"));
    }
    Ok(value as u16)
}

fn validate_dimensions(width: u32, height: u32) -> (r: Result<()>)
    ensures
        r is Ok <==> width * height <= MAX_PIXELS,
        r is Err ==> r->Err_0@ == ErrorKind::Unsupported,
{
    assert(width * height <= u32::MAX * u32::MAX) by (nonlinear_arith);
    let pixels = (width as u64) * (height as u64);
    if pixels > MAX_PIXELS {
        return Err(MediaError::unsupported("Netpbm image exceeds the pixel limit"));
    }
    Ok(())
}

fn pixel_count_usize(width: u32, height: u32) -> (n: usize)
    requires
        width * height <= MAX_PIXELS,
    ensures
        n == width * height,
{
    ((width as u64) * (height as u64)) as usize
}

/// Where header skipping from `p` stops: whitespace is passed over, `#`
/// starts a comment that runs through the next line feed (or the end).
pub open spec fn prefix_walk(s: Seq<u8>, p: nat, in_comment: bool) -> nat
    decreases s.len() - p,
{
    if p >= s.len() {
        p
    } else if in_comment {
        prefix_walk(s, p + 1, s[p as int] != 10)
    } else if is_ws(s[p as int]) {
        prefix_walk(s, p + 1, false)
    } else if s[p as int] == 35 {
        prefix_walk(s, p + 1, true)
    } else {
        p
    }
}

/// The position after the line feed that ends the line from `p`, or the
/// end of the text.
pub open spec fn comment_end(s: Seq<u8>, p: nat) -> nat
    decreases s.len() - p,
{
    if p >= s.len() {
        s.len()
    } else if s[p as int] == 10 {
        p + 1
    } else {
        comment_end(s, p + 1)
    }
}

proof fn lemma_comment_walk(s: Seq<u8>, p: nat)
    requires
        p <= s.len(),
    ensures
        prefix_walk(s, p, true) == prefix_walk(s, comment_end(s, p), false),
    decreases s.len() - p,
{
    if p < s.len() && s[p as int] != 10 {
        lemma_comment_walk(s, p + 1);
    }
}

/// The end of the token that starts at `p`: the first whitespace or `#`.
pub open spec fn token_end(s: Seq<u8>, p: nat) -> nat
    decreases s.len() - p,
{
    if p < s.len() && !is_ws(s[p as int]) && s[p as int] != 35 {
        token_end(s, p + 1)
    } else {
        p
    }
}

/// Where reading resumes after a token ending at `e`: past the comment a
/// `#` starts, or past one delimiter (a CR-LF pair counts as one).
pub open spec fn after_token(s: Seq<u8>, e: nat) -> nat {
    if e >= s.len() {
        e
    } else if s[e as int] == 35 {
        comment_end(s, e)
    } else if s[e as int] == 13 && e + 1 < s.len() && s[e + 1int] == 10 {
        e + 2
    } else {
        e + 1
    }
}

/// The next token from `p`: its start, its end and where reading resumes.
pub open spec fn spec_next_token(s: Seq<u8>, p: nat) -> core::result::Result<(nat, nat, nat), ErrorKind> {
    let q = prefix_walk(s, p, false);
    if q >= s.len() {
        Err(ErrorKind::EndOfFile)
    } else if token_end(s, q) == q {
        Err(ErrorKind::InvalidData)
    } else {
        Ok((q, token_end(s, q), after_token(s, token_end(s, q))))
    }
}

/// The number a token spells: refused unless it is a non-empty digit string
/// whose value fits in `u32`.
pub open spec fn token_number(t: Seq<u8>) -> core::result::Result<nat, ErrorKind> {
    if t.len() == 0 || !all_digits(t) {
        Err(ErrorKind::InvalidData)
    } else if digits_value(t) > u32::MAX {
        Err(ErrorKind::Overflow)
    } else {
        Ok(digits_value(t))
    }
}

/// The pixel an ASCII sample gives: PBM takes 0 (white) or 1 (black),
/// PGM/PPM take values up to `maxval`, rescaled to 8 bits.
pub open spec fn ascii_sample(v: nat, pbm: bool, maxval: nat) -> Option<u8> {
    if pbm {
        if v == 0 {
            Some(255u8)
        } else if v == 1 {
            Some(0u8)
        } else {
            None
        }
    } else if v <= maxval {
        Some(spec_scale(v, maxval) as u8)
    } else {
        None
    }
}

/// The first `n` ASCII samples from `p`, and where reading resumes.
pub open spec fn ascii_walk(s: Seq<u8>, p: nat, n: nat, pbm: bool, maxval: nat) -> core::result::Result<(Seq<u8>, nat), ErrorKind>
    decreases n,
{
    if n == 0 {
        Ok((Seq::empty(), p))
    } else {
        match ascii_walk(s, p, (n - 1) as nat, pbm, maxval) {
            Err(k) => Err(k),
            Ok((px, q)) => match spec_next_token(s, q) {
                Err(k) => Err(k),
                Ok((a, b, next)) => match token_number(s.subrange(a as int, b as int)) {
                    Err(k) => Err(k),
                    Ok(v) => match ascii_sample(v, pbm, maxval) {
                        None => Err(ErrorKind::InvalidData),
                        Some(x) => Ok((px.push(x), next)),
                    },
                },
            },
        }
    }
}

/// An ASCII raster of `n` samples from `p`, with nothing but whitespace and
/// comments after it.
pub open spec fn ascii_raster(s: Seq<u8>, p: nat, n: nat, pbm: bool, maxval: nat) -> core::result::Result<Seq<u8>, ErrorKind> {
    match ascii_walk(s, p, n, pbm, maxval) {
        Err(k) => Err(k),
        Ok((px, q)) => if prefix_walk(s, q, false) == s.len() {
            Ok(px)
        } else {
            Err(ErrorKind::InvalidData)
        },
    }
}

/// A walk that fails on its first `n` samples fails the same way on more.
proof fn lemma_ascii_walk_err(s: Seq<u8>, p: nat, n: nat, m: nat, pbm: bool, maxval: nat)
    requires
        n <= m,
        ascii_walk(s, p, n, pbm, maxval) is Err,
    ensures
        ascii_walk(s, p, m, pbm, maxval) == ascii_walk(s, p, n, pbm, maxval),
    decreases m,
{
    if m > n {
        lemma_ascii_walk_err(s, p, n, (m - 1) as nat, pbm, maxval);
    }
}

/// A cursor over Netpbm header/ASCII-raster text.
struct Tokenizer<'a> {
    bytes: &'a [u8],
    position: usize,
}

impl<'a> Tokenizer<'a> {
    spec fn wf(&self) -> bool {
        self.position <= self.bytes@.len()
    }

    fn new(bytes: &'a [u8], position: usize) -> (t: Self)
        requires
            position <= bytes@.len(),
        ensures
            t.wf(),
            t.bytes == bytes,
            t.position == position,
    {
        Tokenizer { bytes, position }
    }

    /// The next whitespace/comment-delimited token; consumes one delimiter
    /// after it (a CR-LF pair counts as one).
    fn next_token(&mut self) -> (r: Result<&'a [u8]>)
        requires
            old(self).wf(),
        ensures
            final(self).wf(),
            final(self).bytes == old(self).bytes,
            match spec_next_token(old(self).bytes@, old(self).position as nat) {
                Ok((a, b, next)) => r matches Ok(t) && t@ == old(self).bytes@.subrange(a as int, b as int)
                    && final(self).position == next,
                Err(k) => r matches Err(e) && e@ == k,
            },
    {
        let ghost s = self.bytes@;
        self.skip_prefix();
        if self.position >= self.bytes.len() {
            return Err(MediaError::eof("unexpected end of Netpbm header"));
        }
        let start = self.position;
        while self.position < self.bytes.len()
            invariant
                self.wf(),
                self.bytes == old(self).bytes,
                start <= self.position,
                s == self.bytes@,
                token_end(s, self.position as nat) == token_end(s, start as nat),
            ensures
                self.position == token_end(s, start as nat),
            decreases self.bytes@.len() - self.position,
        {
            let byte = self.bytes[self.position];
            if ws(byte) || byte == 35 {
                break;
            }
            self.position = self.position + 1;
        }
        assert(self.position == token_end(s, start as nat));
        if start == self.position {
            return Err(MediaError::invalid_data("empty Netpbm token"));
        }
        let token = vstd::slice::slice_subrange(self.bytes, start, self.position);
        if self.position < self.bytes.len() {
            if self.bytes[self.position] == 35 {
                self.skip_comment();
            } else {
                let delimiter = self.bytes[self.position];
                self.position = self.position + 1;
                if delimiter == 13 && self.position < self.bytes.len() && self.bytes[self.position] == 10 {
                    self.position = self.position + 1;
                }
            }
        }
        Ok(token)
    }

    fn remaining(&self) -> (s: &'a [u8])
        requires
            self.wf(),
        ensures
            s@ == self.bytes@.subrange(self.position as int, self.bytes@.len() as int),
    {
        vstd::slice::slice_subrange(self.bytes, self.position, self.bytes.len())
    }

    fn ensure_ascii_exhausted(&mut self) -> (r: Result<()>)
        requires
            old(self).wf(),
        ensures
            final(self).wf(),
            final(self).bytes == old(self).bytes,
            final(self).position == prefix_walk(old(self).bytes@, old(self).position as nat, false),
            r is Ok <==> prefix_walk(old(self).bytes@, old(self).position as nat, false) == old(self).bytes@.len(),
            r is Err ==> r->Err_0@ == ErrorKind::InvalidData,
    {
        self.skip_prefix();
        if self.position != self.bytes.len() {
            return Err(MediaError::invalid_data("extra tokens found after Netpbm raster"));
        }
        Ok(())
    }

    fn skip_prefix(&mut self)
        requires
            old(self).wf(),
        ensures
            final(self).wf(),
            final(self).bytes == old(self).bytes,
            final(self).position >= old(self).position,
            final(self).position == prefix_walk(old(self).bytes@, old(self).position as nat, false),
    {
        let ghost s = self.bytes@;
        let ghost target = prefix_walk(s, self.position as nat, false);
        loop
            invariant
                self.wf(),
                self.bytes == old(self).bytes,
                s == self.bytes@,
                self.position >= old(self).position,
                prefix_walk(s, self.position as nat, false) == target,
                target == prefix_walk(s, old(self).position as nat, false),
            ensures
                self.position == target,
            decreases self.bytes@.len() - self.position,
        {
            let ghost p0 = self.position;
            while self.position < self.bytes.len() && ws(self.bytes[self.position])
                invariant
                    self.wf(),
                    self.bytes == old(self).bytes,
                    s == self.bytes@,
                    self.position >= p0,
                    p0 >= old(self).position,
                    prefix_walk(s, self.position as nat, false) == target,
                decreases self.bytes@.len() - self.position,
            {
                self.position = self.position + 1;
            }
            if self.position < self.bytes.len() && self.bytes[self.position] == 35 {
                let ghost q = self.position as nat;
                proof {
                    lemma_comment_walk(s, q + 1);
                }
                self.skip_comment();
                continue;
            }
            break;
        }
    }

    fn skip_comment(&mut self)
        requires
            old(self).wf(),
            old(self).position < old(self).bytes@.len(),
        ensures
            final(self).wf(),
            final(self).bytes == old(self).bytes,
            final(self).position > old(self).position,
            final(self).position == comment_end(old(self).bytes@, old(self).position as nat),
    {
        while self.position < self.bytes.len() && self.bytes[self.position] != 10
            invariant
                self.wf(),
                self.bytes == old(self).bytes,
                self.position >= old(self).position,
                comment_end(self.bytes@, self.position as nat) == comment_end(old(self).bytes@, old(self).position as nat),
            decreases self.bytes@.len() - self.position,
        {
            self.position = self.position + 1;
        }
        if self.position < self.bytes.len() {
            self.position = self.position + 1;
        }
    }
}

/// The decimal digits of a number spell it back.
pub proof fn lemma_decimal_digits(v: nat)
    ensures
        decimal(v).len() >= 1,
        all_digits(decimal(v)),
        digits_value(decimal(v)) == v,
    decreases v,
{
    if v < 10 {
        let d = decimal(v);
        assert(d.drop_last() =~= Seq::<u8>::empty());
        assert(digits_value(d) == digits_value(d.drop_last()) * 10 + (d.last() - 48) as nat);
    } else {
        lemma_decimal_digits(v / 10);
        let d = decimal(v);
        assert(d.drop_last() =~= decimal(v / 10));
        assert(d.last() == (48 + v % 10) as u8);
        assert(digits_value(d) == digits_value(d.drop_last()) * 10 + (d.last() - 48) as nat);
        assert forall|i: int| 0 <= i < d.len() implies 48 <= #[trigger] d[i] <= 57 by {
            if i < d.len() - 1 {
                assert(d[i] == decimal(v / 10)[i]);
            }
        }
    }
}

/// Skipping whitespace from `p` stops at a digit.
proof fn lemma_walk_stops_at_digit(s: Seq<u8>, p: nat)
    requires
        p < s.len(),
        48 <= s[p as int] <= 57,
    ensures
        prefix_walk(s, p, false) == p,
{
}

/// A token ends at the first whitespace after a run of digits.
proof fn lemma_token_end_digits(s: Seq<u8>, p: nat, e: nat)
    requires
        p <= e < s.len(),
        forall|i: int| p <= i < e ==> 48 <= #[trigger] s[i] <= 57,
        is_ws(s[e as int]),
    ensures
        token_end(s, p) == e,
    decreases e - p,
{
    if p < e {
        lemma_token_end_digits(s, p + 1, e);
    }
}

/// A number written in decimal at `p` and followed by a space or a line
/// feed reads back, and reading resumes after that byte.
proof fn lemma_number_at(s: Seq<u8>, p: nat, v: nat)
    requires
        v <= u32::MAX,
        p + decimal(v).len() < s.len(),
        s.subrange(p as int, (p + decimal(v).len()) as int) == decimal(v),
        s[(p + decimal(v).len()) as int] == 32 || s[(p + decimal(v).len()) as int] == 10,
    ensures
        pnm_number(s, p) == Ok::<(nat, nat), ErrorKind>((v, p + decimal(v).len() + 1)),
{
    let d = decimal(v);
    let e = p + d.len();
    lemma_decimal_digits(v);
    assert forall|i: int| p <= i < e implies 48 <= #[trigger] s[i] <= 57 by {
        assert(s[i] == s.subrange(p as int, e as int)[i - p]);
    }
    assert(s[p as int] == s.subrange(p as int, e as int)[0]);
    lemma_walk_stops_at_digit(s, p);
    lemma_token_end_digits(s, p, e as nat);
}

/// Scaling an 8-bit sample with maxval 255 gives it back.
proof fn lemma_scale_255(v: nat)
    requires
        v <= 255,
    ensures
        spec_scale(v, 255) == v,
{
    assert((v * 255 + 127) / 255 == v) by (nonlinear_arith)
        requires v <= 255;
}

/// A frame that `encode_pnm` writes as binary PGM or PPM decodes back to
/// the same family, size and pixels.
#[verifier::spinoff_prover]
#[verifier::rlimit(40)]
pub proof fn lemma_pnm_roundtrip(kind: PnmKind, frame: VideoFrame)
    requires
        frame.wf(),
        kind != PnmKind::Pbm,
        frame.format == format_of_kind(kind),
        frame.width * frame.height <= MAX_PIXELS,
    ensures
        spec_decode_pnm(pnm_header(kind, frame.width, frame.height) + frame.data@) == Ok::<
            (PnmKind, nat, nat, Seq<u8>),
            ErrorKind,
        >((kind, frame.width as nat, frame.height as nat, frame.data@)),
{
    let w = frame.width as nat;
    let h = frame.height as nat;
    let m: u8 = if kind == PnmKind::Pgm { 53 } else { 54 };
    let dw = decimal(w);
    let dh = decimal(h);
    let data = frame.data@;
    let s = pnm_header(kind, frame.width, frame.height) + data;
    lemma_decimal_digits(w);
    lemma_decimal_digits(h);
    let p1 = 3 + dw.len() + 1;
    let p2 = p1 + dh.len() + 1;
    let q = p2 + 4;
    assert(s =~= seq![80u8, m, 10u8] + dw + seq![32u8] + dh + seq![10u8, 50u8, 53u8, 53u8, 10u8] + data);
    assert(spec_probe_pnm(s));
    assert(prefix_walk(s, 2, false) == prefix_walk(s, 3, false));
    assert(s.subrange(3, (3 + dw.len()) as int) =~= dw);
    assert(s[(3 + dw.len()) as int] == 32);
    lemma_number_at(s, 3, w);
    assert(pnm_number(s, 2) == pnm_number(s, 3));
    assert(s.subrange(p1 as int, (p1 + dh.len()) as int) =~= dh);
    assert(s[(p1 + dh.len()) as int] == 10);
    lemma_number_at(s, p1, h);
    assert(decimal(255) =~= seq![50u8, 53u8, 53u8]) by {
        reveal_with_fuel(decimal, 3);
    }
    assert(s.subrange(p2 as int, (p2 + 3) as int) =~= decimal(255));
    assert(s[(p2 + 3) as int] == 10);
    lemma_number_at(s, p2, 255);
    let n = w * h * (if m == 53 { 1nat } else { 3nat });
    let body = s.subrange(q as int, s.len() as int);
    assert(body =~= data);
    assert(n == data.len()) by (nonlinear_arith)
        requires
            data.len() == frame.linesize * h,
            frame.linesize == w * spec_bpp(frame.format),
            spec_bpp(frame.format) == (if m == 53 { 1nat } else { 3nat }),
            n == w * h * (if m == 53 { 1nat } else { 3nat }),
    ;
    assert(!(exists|i: int| 0 <= i < n && #[trigger] binary_sample(body, i, 255) > 255));
    assert(Seq::new(n, |i: int| spec_scale(binary_sample(body, i, 255), 255) as u8) =~= data) by {
        assert forall|i: int| 0 <= i < n implies spec_scale(binary_sample(body, i, 255), 255) as u8 == data[i] by {
            lemma_scale_255(data[i] as nat);
        }
    }
    assert(binary_raster(body, n, 255) == Ok::<Seq<u8>, ErrorKind>(data));
    assert(pnm_raster(s, m, w, h, p2) == Ok::<Seq<u8>, ErrorKind>(data));
    assert(kind_of_magic(m) == kind);
}

/// Rescaling a sample to 8 bits rounds to the nearest level: `v` out of
/// `maxval` becomes the 8-bit value within half a step of `v * 255 /
/// maxval` (ties upward), so 0 stays 0 and `maxval` becomes 255.
pub proof fn lemma_scale_nearest(v: nat, maxval: nat)
    requires
        1 <= maxval,
        v <= maxval,
    ensures
        spec_scale(v, maxval) <= 255,
        2 * spec_scale(v, maxval) * maxval <= 2 * v * 255 + maxval,
        2 * v * 255 < 2 * spec_scale(v, maxval) * maxval + maxval + 1,
        v == 0 ==> spec_scale(v, maxval) == 0,
        v == maxval ==> spec_scale(v, maxval) == 255,
{
    let r = spec_scale(v, maxval);
    let n = v * 255 + maxval / 2;
    assert(r * maxval <= n && n < r * maxval + maxval) by (nonlinear_arith)
        requires r == n / maxval, maxval >= 1;
    assert(r <= 255) by (nonlinear_arith)
        requires r * maxval <= v * 255 + maxval / 2, v <= maxval, maxval >= 1;
    assert(2 * r * maxval <= 2 * v * 255 + maxval) by (nonlinear_arith)
        requires r * maxval <= v * 255 + maxval / 2;
    assert(2 * v * 255 < 2 * r * maxval + maxval + 1) by (nonlinear_arith)
        requires v * 255 + maxval / 2 < r * maxval + maxval;
    if v == 0 {
        assert(r == 0) by (nonlinear_arith)
            requires r * maxval <= maxval / 2, maxval >= 1;
    }
    if v == maxval {
        assert(r >= 255) by (nonlinear_arith)
            requires v * 255 + maxval / 2 < r * maxval + maxval, v == maxval, maxval >= 1;
    }
}

proof fn lemma_shift_bit(b: u8)
    ensures
        forall|k: u8| k < 8 ==> #[trigger] ((b >> k) & 1) == (b / vstd::arithmetic::power2::pow2(k as nat) as u8) % 2,
{
    assert forall|k: u8| k < 8 implies #[trigger] ((b >> k) & 1) == (b / vstd::arithmetic::power2::pow2(k as nat) as u8) % 2 by {
        let sh = b >> k;
        assert(sh & 1 == sh % 2) by (bit_vector);
        vstd::bits::lemma_u8_shr_is_div(b, k);
        vstd::arithmetic::power2::lemma_pow2_pos(k as nat);
        vstd::arithmetic::power2::lemma_pow2_strictly_increases(k as nat, 8);
        vstd::arithmetic::power2::lemma2_to64();
        assert(vstd::arithmetic::power2::pow2(k as nat) as u8 == vstd::arithmetic::power2::pow2(k as nat));
    }
}

/// In a binary PBM raster each row takes `ceil(width / 8)` bytes, pixels
/// run from the most significant bit of each byte, and a set bit is black
/// (0) while a clear bit is white (255).
pub proof fn lemma_binary_pbm_pixel(data: Seq<u8>, width: nat, i: int)
    requires
        width >= 1,
        0 <= i,
        (i / width as int + 1) * ((width + 7) / 8) <= data.len(),
    ensures
        ({
            let x = i % width as int;
            let byte = data[(i / width as int) * ((width + 7) / 8) + x / 8];
            let bit = (byte / vstd::arithmetic::power2::pow2((7 - x % 8) as nat) as u8) % 2;
            binary_pbm_pixel(data, width, i) == if bit == 1 { 0u8 } else { 255u8 }
        }),
{
    let rb = ((width + 7) / 8) as int;
    let y = i / width as int;
    let x = i % width as int;
    assert(0 <= x < width && y >= 0);
    assert(x / 8 < rb);
    assert(y * rb + rb <= data.len()) by (nonlinear_arith)
        requires (y + 1) * rb <= data.len();
    assert(y * rb >= 0) by (nonlinear_arith)
        requires y >= 0, rb >= 0;
    let row = data.subrange(y * rb, y * rb + rb);
    assert(row[x / 8] == data[y * rb + x / 8]);
    lemma_shift_bit(row[x / 8]);
    assert(((row[x / 8] >> ((7 - x % 8) as u8)) & 1) == (row[x / 8] / vstd::arithmetic::power2::pow2((7 - x % 8) as nat) as u8) % 2);
}

} // verus!

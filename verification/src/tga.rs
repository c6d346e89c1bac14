use vstd::prelude::*;

use crate::byteio::le_bytes;
use crate::bytes_util::{bytes_eq, le16_at, push_slice, read_le16};
use crate::error::{ErrorKind, MediaError, Result};
use crate::video::{spec_bpp, PixelFormat, VideoFrame};

verus! {

pub const HEADER_SIZE: usize = 18;

pub const TYPE_TRUECOLOR: u8 = 2;

pub const TYPE_GRAYSCALE: u8 = 3;

pub const TYPE_RLE_TRUECOLOR: u8 = 10;

pub const TYPE_RLE_GRAYSCALE: u8 = 11;

/// The image type / pixel depth pairs the decoder handles.
pub open spec fn supported_type_depth(image_type: u8, depth: u8) -> bool {
    ||| (image_type == TYPE_TRUECOLOR || image_type == TYPE_RLE_TRUECOLOR) && (depth == 24 || depth == 32)
    ||| (image_type == TYPE_GRAYSCALE || image_type == TYPE_RLE_GRAYSCALE) && depth == 8
}

pub open spec fn spec_probe_tga(s: Seq<u8>) -> bool {
    s.len() >= 18 && s[1] == 0 && supported_type_depth(s[2], s[16])
}

pub fn probe_tga(bytes: &[u8]) -> (score: u8)
    ensures
        score == if spec_probe_tga(bytes@) { 75u8 } else { 0u8 },
{
    if bytes.len() < HEADER_SIZE || bytes[1] != 0 {
        return 0;
    }
    let image_type = bytes[2];
    let depth = bytes[16];
    let valid = (image_type == TYPE_TRUECOLOR || image_type == TYPE_RLE_TRUECOLOR) && (depth == 24
        || depth == 32) || (image_type == TYPE_GRAYSCALE || image_type == TYPE_RLE_GRAYSCALE) && depth
        == 8;
    if valid {
        75
    } else {
        0
    }
}

/// `n` copies of `pixel`, one after another.
pub open spec fn repeat_seq(pixel: Seq<u8>, n: nat) -> Seq<u8>
    decreases n,
{
    if n == 0 {
        Seq::empty()
    } else {
        repeat_seq(pixel, (n - 1) as nat) + pixel
    }
}

/// `prefix` in front of an optional sequence.
pub open spec fn prepend(prefix: Seq<u8>, rest: Option<Seq<u8>>) -> Option<Seq<u8>> {
    match rest {
        Some(r) => Some(prefix + r),
        None => None,
    }
}

/// The pixel bytes that a TGA run-length stream expands to once `pixels`
/// pixels of `bpp` bytes have been produced, or `None` when the stream is
/// truncated or a packet runs past the declared pixel count. Each packet is a
/// header byte whose low seven bits hold `count - 1`; with the top bit set one
/// pixel follows and is repeated `count` times, otherwise `count` literal
/// pixels follow. Bytes after the last needed packet are ignored.
pub open spec fn rle_expand(input: Seq<u8>, pixels: nat, bpp: nat) -> Option<Seq<u8>>
    decreases pixels,
{
    if pixels == 0 {
        Some(Seq::empty())
    } else if input.len() == 0 {
        None
    } else {
        let header = input[0];
        let count = (header % 128) as nat + 1;
        if count > pixels {
            None
        } else if header >= 128 {
            if input.len() < 1 + bpp {
                None
            } else {
                prepend(
                    repeat_seq(input.subrange(1, 1 + bpp as int), count),
                    rle_expand(input.subrange(1 + bpp as int, input.len() as int), (pixels - count) as nat, bpp),
                )
            }
        } else {
            if input.len() < 1 + count * bpp {
                None
            } else {
                prepend(
                    input.subrange(1, 1 + (count * bpp) as int),
                    rle_expand(
                        input.subrange(1 + (count * bpp) as int, input.len() as int),
                        (pixels - count) as nat,
                        bpp,
                    ),
                )
            }
        }
    }
}

proof fn lemma_repeat_len(pixel: Seq<u8>, n: nat)
    ensures
        repeat_seq(pixel, n).len() == n * pixel.len(),
    decreases n,
{
    if n == 0 {
        assert(repeat_seq(pixel, n).len() == 0);
        assert(n * pixel.len() == 0);
    } else {
        lemma_repeat_len(pixel, (n - 1) as nat);
        assert(repeat_seq(pixel, n).len() == repeat_seq(pixel, (n - 1) as nat).len() + pixel.len());
        assert(n * pixel.len() == (n - 1) * pixel.len() + pixel.len()) by (nonlinear_arith)
            requires n >= 1;
    }
}

/// A successful expansion holds exactly `pixels * bpp` bytes.
pub proof fn lemma_rle_expand_len(input: Seq<u8>, pixels: nat, bpp: nat)
    requires
        rle_expand(input, pixels, bpp) is Some,
    ensures
        rle_expand(input, pixels, bpp)->0.len() == pixels * bpp,
    decreases pixels,
{
    if pixels == 0 {
        assert(pixels * bpp == 0);
    } else {
        let header = input[0];
        let count = (header % 128) as nat + 1;
        if header >= 128 {
            lemma_rle_expand_len(input.subrange(1 + bpp as int, input.len() as int), (pixels - count) as nat, bpp);
            lemma_repeat_len(input.subrange(1, 1 + bpp as int), count);
            assert(count * bpp == count * input.subrange(1, 1 + bpp as int).len());
        } else {
            lemma_rle_expand_len(
                input.subrange(1 + (count * bpp) as int, input.len() as int),
                (pixels - count) as nat,
                bpp,
            );
        }
        assert(pixels * bpp == count * bpp + (pixels - count) * bpp) by (nonlinear_arith)
            requires count <= pixels;
    }
}

fn decode_rle(input: &[u8], pixel_count: usize, bytes_per_pixel: usize) -> (r: Result<Vec<u8>>)
    requires
        1 <= bytes_per_pixel <= 4,
        pixel_count * bytes_per_pixel <= usize::MAX,
    ensures
        match r {
            Ok(out) => rle_expand(input@, pixel_count as nat, bytes_per_pixel as nat) == Some(out@),
            Err(e) => rle_expand(input@, pixel_count as nat, bytes_per_pixel as nat) is None && e@
                == ErrorKind::InvalidData,
        },
{
    let bpp = bytes_per_pixel;
    let ghost total = rle_expand(input@, pixel_count as nat, bpp as nat);
    let mut output: Vec<u8> = Vec::with_capacity(pixel_count * bpp);
    let mut position: usize = 0;
    let mut produced: usize = 0;
    proof {
        assert(input@.subrange(0, input@.len() as int) =~= input@);
        assert(prepend(output@, total) == total) by {
            if total is Some {
                assert(output@ + total->0 =~= total->0);
            }
        }
    }
    while produced < pixel_count
        invariant
            1 <= bpp <= 4,
            bpp == bytes_per_pixel,
            pixel_count * bpp <= usize::MAX,
            position <= input@.len(),
            produced <= pixel_count,
            total == rle_expand(input@, pixel_count as nat, bpp as nat),
            total == prepend(
                output@,
                rle_expand(
                    input@.subrange(position as int, input@.len() as int),
                    (pixel_count - produced) as nat,
                    bpp as nat,
                ),
            ),
        decreases pixel_count - produced,
    {
        let ghost rest = input@.subrange(position as int, input@.len() as int);
        let ghost left = (pixel_count - produced) as nat;
        if position >= input.len() {
            assert(rest.len() == 0);
            assert(rle_expand(rest, left, bpp as nat) is None);
            return Err(MediaError::invalid_data("TGA RLE packet header is truncated"));
        }
        let header = input[position];
        assert(header == rest[0]);
        position += 1;
        let count = (header % 128) as usize + 1;
        if count > pixel_count - produced {
            assert(rle_expand(rest, left, bpp as nat) is None);
            return Err(MediaError::invalid_data("TGA RLE packet exceeds declared pixel count"));
        }
        let ghost old_out = output@;
        if header >= 128 {
            if bpp > input.len() - position {
                assert(rle_expand(rest, left, bpp as nat) is None);
                return Err(MediaError::invalid_data("TGA RLE run pixel is truncated"));
            }
            let end = position + bpp;
            let pixel = vstd::slice::slice_subrange(input, position, end);
            assert(pixel@ =~= rest.subrange(1, 1 + bpp));
            let mut k: usize = 0;
            while k < count
                invariant
                    k <= count,
                    output@ == old_out + repeat_seq(pixel@, k as nat),
                decreases count - k,
            {
                push_slice(&mut output, pixel);
                k += 1;
                assert(output@ =~= old_out + repeat_seq(pixel@, k as nat));
            }
            position = end;
            proof {
                assert(rest.subrange(1 + bpp, rest.len() as int) =~= input@.subrange(
                    position as int,
                    input@.len() as int,
                ));
                let tail = rle_expand(input@.subrange(position as int, input@.len() as int), (left - count) as nat, bpp as nat);
                if tail is Some {
                    assert(old_out + (repeat_seq(pixel@, count as nat) + tail->0) =~= output@ + tail->0);
                }
            }
        } else {
            assert(count * bpp <= pixel_count * bpp) by (nonlinear_arith)
                requires count <= pixel_count;
            let n = count * bpp;
            if n > input.len() - position {
                assert(rle_expand(rest, left, bpp as nat) is None);
                return Err(MediaError::invalid_data("TGA raw RLE packet is truncated"));
            }
            let end = position + n;
            let packet = vstd::slice::slice_subrange(input, position, end);
            assert(packet@ =~= rest.subrange(1, 1 + count * bpp));
            push_slice(&mut output, packet);
            position = end;
            proof {
                assert(rest.subrange(1 + count * bpp, rest.len() as int) =~= input@.subrange(
                    position as int,
                    input@.len() as int,
                ));
                let tail = rle_expand(input@.subrange(position as int, input@.len() as int), (left - count) as nat, bpp as nat);
                if tail is Some {
                    assert(old_out + (packet@ + tail->0) =~= output@ + tail->0);
                }
            }
        }
        produced += count;
    }
    proof {
        assert(output@ + Seq::<u8>::empty() =~= output@);
    }
    Ok(output)
}

/// `out` is a packet stream that expands to `prefix` after `done` pixels, and
/// whatever packets follow it continue the expansion.
pub open spec fn rle_prefix_ok(out: Seq<u8>, prefix: Seq<u8>, done: nat, bpp: nat) -> bool {
    forall|t: Seq<u8>, m: nat| #[trigger] rle_expand(out + t, done + m, bpp) == prepend(prefix, rle_expand(t, m, bpp))
}

proof fn lemma_prefix_empty(bpp: nat)
    ensures
        rle_prefix_ok(Seq::empty(), Seq::empty(), 0, bpp),
{
    assert forall|t: Seq<u8>, m: nat| #[trigger] rle_expand(Seq::<u8>::empty() + t, 0 + m, bpp) == prepend(Seq::empty(), rle_expand(t, m, bpp)) by {
        assert(Seq::<u8>::empty() + t =~= t);
        let x = rle_expand(t, m, bpp);
        if x is Some {
            assert(Seq::<u8>::empty() + x->0 =~= x->0);
        }
    }
}

proof fn lemma_prefix_run(out: Seq<u8>, prefix: Seq<u8>, done: nat, bpp: nat, pixel: Seq<u8>, count: nat)
    requires
        rle_prefix_ok(out, prefix, done, bpp),
        1 <= count <= 128,
        pixel.len() == bpp,
    ensures
        rle_prefix_ok(out + seq![(127 + count) as u8] + pixel, prefix + repeat_seq(pixel, count), done + count, bpp),
{
    let header = (127 + count) as u8;
    let out2 = out + seq![header] + pixel;
    let prefix2 = prefix + repeat_seq(pixel, count);
    assert forall|t: Seq<u8>, m: nat| #[trigger] rle_expand(out2 + t, (done + count) + m, bpp) == prepend(prefix2, rle_expand(t, m, bpp)) by {
        let t2 = seq![header] + pixel + t;
        let m2: nat = count + m;
        assert(out2 + t =~= out + t2);
        assert(rle_expand(out + t2, done + m2, bpp) == prepend(prefix, rle_expand(t2, m2, bpp)));
        assert(t2[0] == header);
        assert(header % 128 == count - 1);
        assert(t2.subrange(1, 1 + bpp as int) =~= pixel);
        assert(t2.subrange(1 + bpp as int, t2.len() as int) =~= t);
        assert(rle_expand(t2, m2, bpp) == prepend(repeat_seq(pixel, count), rle_expand(t, m, bpp)));
        let x = rle_expand(t, m, bpp);
        if x is Some {
            assert(prefix + (repeat_seq(pixel, count) + x->0) =~= prefix2 + x->0);
        }
    }
}

proof fn lemma_prefix_literal(out: Seq<u8>, prefix: Seq<u8>, done: nat, bpp: nat, literal: Seq<u8>, count: nat)
    requires
        rle_prefix_ok(out, prefix, done, bpp),
        1 <= count <= 128,
        literal.len() == count * bpp,
    ensures
        rle_prefix_ok(out + seq![(count - 1) as u8] + literal, prefix + literal, done + count, bpp),
{
    let header = (count - 1) as u8;
    let out2 = out + seq![header] + literal;
    let prefix2 = prefix + literal;
    assert forall|t: Seq<u8>, m: nat| #[trigger] rle_expand(out2 + t, (done + count) + m, bpp) == prepend(prefix2, rle_expand(t, m, bpp)) by {
        let t2 = seq![header] + literal + t;
        let m2: nat = count + m;
        assert(out2 + t =~= out + t2);
        assert(rle_expand(out + t2, done + m2, bpp) == prepend(prefix, rle_expand(t2, m2, bpp)));
        assert(t2[0] == header);
        assert(header % 128 == count - 1);
        assert(t2.subrange(1, 1 + (count * bpp) as int) =~= literal);
        assert(t2.subrange(1 + (count * bpp) as int, t2.len() as int) =~= t);
        assert(rle_expand(t2, m2, bpp) == prepend(literal, rle_expand(t, m, bpp)));
        let x = rle_expand(t, m, bpp);
        if x is Some {
            assert(prefix + (literal + x->0) =~= prefix2 + x->0);
        }
    }
}

/// How many pixels from `start` on repeat the pixel at `start`, at most 128.
#[verifier::rlimit(40)]
/// Pixel `i` of a raster of `bpp`-byte pixels.
pub open spec fn pixel_at(raw: Seq<u8>, bpp: nat, i: nat) -> Seq<u8> {
    raw.subrange((i * bpp) as int, (i * bpp + bpp) as int)
}

/// How many pixels from `start` repeat it, counting on from `count`, at
/// most 128 and no further than `pixels`.
pub open spec fn run_from(raw: Seq<u8>, bpp: nat, start: nat, count: nat, pixels: nat) -> nat
    decreases 128 - count,
{
    if start + count < pixels && count < 128 && pixel_at(raw, bpp, start + count) == pixel_at(raw, bpp, start) {
        run_from(raw, bpp, start, count + 1, pixels)
    } else {
        count
    }
}

/// Where a raw packet from `raw_start` ends, scanning on from `index`: at
/// 128 pixels, at the end, or where a run of two or more begins.
pub open spec fn raw_packet_end(raw: Seq<u8>, bpp: nat, raw_start: nat, index: nat, pixels: nat) -> nat
    decreases pixels - index,
{
    if index < pixels && index - raw_start < 128 && run_from(raw, bpp, index, 1, pixels) < 2 {
        raw_packet_end(raw, bpp, raw_start, index + 1, pixels)
    } else {
        index
    }
}

pub proof fn lemma_run_from_bound(raw: Seq<u8>, bpp: nat, start: nat, count: nat, pixels: nat)
    requires
        start + count <= pixels,
    ensures
        count <= run_from(raw, bpp, start, count, pixels),
        start + run_from(raw, bpp, start, count, pixels) <= pixels,
        run_from(raw, bpp, start, count, pixels) <= 128 || run_from(raw, bpp, start, count, pixels) == count,
    decreases 128 - count,
{
    if start + count < pixels && count < 128 && pixel_at(raw, bpp, start + count) == pixel_at(raw, bpp, start) {
        lemma_run_from_bound(raw, bpp, start, count + 1, pixels);
    }
}

pub proof fn lemma_raw_packet_end_bound(raw: Seq<u8>, bpp: nat, raw_start: nat, index: nat, pixels: nat)
    requires
        index <= pixels,
    ensures
        index <= raw_packet_end(raw, bpp, raw_start, index, pixels) <= pixels,
    decreases pixels - index,
{
    if index < pixels && index - raw_start < 128 && run_from(raw, bpp, index, 1, pixels) < 2 {
        lemma_raw_packet_end_bound(raw, bpp, raw_start, index + 1, pixels);
    }
}

/// The TGA packets for pixels `index..pixels`: a run of two or more equal
/// pixels (at most 128) becomes a run packet, header `127 + run` and the
/// pixel once; other pixels go into raw packets of at most 128, ended
/// before the next run, header `count - 1`.
pub open spec fn rle_packets(raw: Seq<u8>, bpp: nat, index: nat, pixels: nat) -> Seq<u8>
    decreases pixels - index,
{
    if index >= pixels {
        Seq::empty()
    } else {
        let run = run_from(raw, bpp, index, 1, pixels);
        proof {
            lemma_run_from_bound(raw, bpp, index, 1, pixels);
        }
        if run >= 2 {
            seq![(127 + run) as u8] + pixel_at(raw, bpp, index) + rle_packets(raw, bpp, index + run, pixels)
        } else {
            let end = raw_packet_end(raw, bpp, index, index + 1, pixels);
            proof {
                lemma_raw_packet_end_bound(raw, bpp, index, index + 1, pixels);
            }
            if end <= index {
                Seq::empty()
            } else {
                seq![(end - index - 1) as u8] + raw.subrange((index * bpp) as int, (end * bpp) as int) + rle_packets(
                    raw,
                    bpp,
                    end,
                    pixels,
                )
            }
        }
    }
}

#[verifier::rlimit(40)]
fn run_length(raw: &[u8], bytes_per_pixel: usize, start: usize, pixels: usize) -> (n: usize)
    requires
        bytes_per_pixel >= 1,
        pixels * bytes_per_pixel == raw@.len(),
        start < pixels,
    ensures
        1 <= n <= 128,
        start + n <= pixels,
        raw@.subrange(start * bytes_per_pixel, (start + n) * bytes_per_pixel) == repeat_seq(
            raw@.subrange(start * bytes_per_pixel, start * bytes_per_pixel + bytes_per_pixel),
            n as nat,
        ),
        start + n < pixels && n < 128 ==> raw@.subrange(
            (start + n) * bytes_per_pixel,
            (start + n) * bytes_per_pixel + bytes_per_pixel,
        ) != raw@.subrange(start * bytes_per_pixel, start * bytes_per_pixel + bytes_per_pixel),
        n == run_from(raw@, bytes_per_pixel as nat, start as nat, 1, pixels as nat),
{
    let bpp = bytes_per_pixel;
    let len = raw.len();
    assert((start + 1) * bpp <= pixels * bpp) by (nonlinear_arith)
        requires start < pixels;
    assert(start * bpp <= (start + 1) * bpp) by (nonlinear_arith);
    assert((start + 1) * bpp == start * bpp + bpp) by (nonlinear_arith);
    let first_start = start * bpp;
    let first = vstd::slice::slice_subrange(raw, first_start, first_start + bpp);
    let mut count: usize = 1;
    let mut same = true;
    proof {
        assert(repeat_seq(first@, 1) =~= first@) by {
            assert(repeat_seq(first@, 0) =~= Seq::<u8>::empty());
        }
    }
    while same && start + count < pixels && count < 128
        invariant
            bpp == bytes_per_pixel,
            bpp >= 1,
            pixels * bpp == raw@.len(),
            len == raw@.len(),
            start < pixels,
            first_start == start * bpp,
            first@ == raw@.subrange(start * bpp, start * bpp + bpp),
            1 <= count <= 128,
            start + count <= pixels,
            raw@.subrange(start * bpp, (start + count) * bpp) == repeat_seq(first@, count as nat),
            !same ==> start + count < pixels && count < 128 && raw@.subrange(
                (start + count) * bpp,
                (start + count) * bpp + bpp,
            ) != first@,
            same ==> run_from(raw@, bpp as nat, start as nat, count as nat, pixels as nat) == run_from(
                raw@,
                bpp as nat,
                start as nat,
                1,
                pixels as nat,
            ),
            !same ==> count == run_from(raw@, bpp as nat, start as nat, 1, pixels as nat),
        decreases pixels - count + (if same { 1int } else { 0int }),
    {
        assert((start + count + 1) * bpp <= pixels * bpp) by (nonlinear_arith)
            requires start + count < pixels;
        assert((start + count + 1) * bpp == (start + count) * bpp + bpp) by (nonlinear_arith);
        assert(start * bpp <= (start + count) * bpp) by (nonlinear_arith);
        let candidate_start = (start + count) * bpp;
        let candidate = vstd::slice::slice_subrange(raw, candidate_start, candidate_start + bpp);
        proof {
            assert(candidate@ == pixel_at(raw@, bpp as nat, (start + count) as nat));
            assert(first@ == pixel_at(raw@, bpp as nat, start as nat));
        }
        if bytes_eq(candidate, first) {
            proof {
                assert(raw@.subrange(start * bpp, (start + count + 1) * bpp) =~= raw@.subrange(
                    start * bpp,
                    (start + count) * bpp,
                ) + candidate@);
                assert(run_from(raw@, bpp as nat, start as nat, count as nat, pixels as nat) == run_from(
                    raw@,
                    bpp as nat,
                    start as nat,
                    (count + 1) as nat,
                    pixels as nat,
                ));
            }
            count += 1;
        } else {
            proof {
                assert(run_from(raw@, bpp as nat, start as nat, count as nat, pixels as nat) == count);
            }
            same = false;
        }
    }
    count
}

/// Run-length encodes whole pixels of `bytes_per_pixel` bytes into TGA packets.
#[verifier::spinoff_prover]
#[verifier::rlimit(60)]
fn encode_rle(raw: &[u8], bytes_per_pixel: usize) -> (r: Result<Vec<u8>>)
    ensures
        match r {
            Ok(out) => bytes_per_pixel > 0 && raw.len() % bytes_per_pixel == 0 && rle_expand(
                out@,
                (raw.len() / bytes_per_pixel) as nat,
                bytes_per_pixel as nat,
            ) == Some(raw@),
            Err(e) => (bytes_per_pixel == 0 || raw.len() % bytes_per_pixel != 0) && e@
                == ErrorKind::InvalidArgument,
        },
        r matches Ok(out) ==> out@ == rle_packets(raw@, bytes_per_pixel as nat, 0, (raw.len() / bytes_per_pixel) as nat),
{
    if bytes_per_pixel == 0 || raw.len() % bytes_per_pixel != 0 {
        return Err(MediaError::invalid_argument("TGA RLE source is not aligned to complete pixels"));
    }
    let bpp = bytes_per_pixel;
    let pixels = raw.len() / bpp;
    assert(pixels * bpp == raw@.len()) by (nonlinear_arith)
        requires pixels == raw.len() / bpp, raw.len() % bpp == 0, bpp > 0;
    let len = raw.len();
    let mut output: Vec<u8> = Vec::with_capacity(len);
    let mut index: usize = 0;
    proof {
        lemma_prefix_empty(bpp as nat);
        assert(raw@.subrange(0, 0) =~= Seq::<u8>::empty());
        assert(output@ =~= Seq::<u8>::empty());
    }
    while index < pixels
        invariant
            bpp == bytes_per_pixel,
            bpp >= 1,
            pixels * bpp == raw@.len(),
            len == raw@.len(),
            index <= pixels,
            rle_prefix_ok(output@, raw@.subrange(0, index * bpp), index as nat, bpp as nat),
            output@ + rle_packets(raw@, bpp as nat, index as nat, pixels as nat) == rle_packets(raw@, bpp as nat, 0, pixels as nat),
        decreases pixels - index,
    {
        assert(index * bpp <= pixels * bpp) by (nonlinear_arith)
            requires index <= pixels;
        let run = run_length(raw, bpp, index, pixels);
        if run >= 2 {
            assert((index + run) * bpp <= pixels * bpp) by (nonlinear_arith)
                requires index + run <= pixels;
            assert((index + 1) * bpp <= (index + run) * bpp) by (nonlinear_arith)
                requires run >= 1;
            assert((index + 1) * bpp == index * bpp + bpp) by (nonlinear_arith);
            let start = index * bpp;
            let pixel = vstd::slice::slice_subrange(raw, start, start + bpp);
            let ghost old_out = output@;
            output.push((127 + run) as u8);
            push_slice(&mut output, pixel);
            proof {
                lemma_prefix_run(old_out, raw@.subrange(0, index * bpp), index as nat, bpp as nat, pixel@, run as nat);
                assert(output@ =~= old_out + seq![(127 + run) as u8] + pixel@);
                assert(pixel@ == pixel_at(raw@, bpp as nat, index as nat));
                assert(rle_packets(raw@, bpp as nat, index as nat, pixels as nat) == seq![(127 + run) as u8] + pixel@
                    + rle_packets(raw@, bpp as nat, (index + run) as nat, pixels as nat));
                assert(output@ + rle_packets(raw@, bpp as nat, (index + run) as nat, pixels as nat) =~= old_out
                    + rle_packets(raw@, bpp as nat, index as nat, pixels as nat));
                assert(raw@.subrange(0, (index + run) * bpp) =~= raw@.subrange(0, index * bpp) + raw@.subrange(
                    index * bpp,
                    (index + run) * bpp,
                ));
            }
            index += run;
        } else {
            let raw_start = index;
            index += 1;
            let mut more = true;
            while more && index < pixels && index - raw_start < 128
                invariant
                    bpp == bytes_per_pixel,
                    bpp >= 1,
                    pixels * bpp == raw@.len(),
                    raw_start < index <= pixels,
                    index - raw_start <= 128,
                    more ==> raw_packet_end(raw@, bpp as nat, raw_start as nat, index as nat, pixels as nat)
                        == raw_packet_end(raw@, bpp as nat, raw_start as nat, (raw_start + 1) as nat, pixels as nat),
                    !more ==> index == raw_packet_end(raw@, bpp as nat, raw_start as nat, (raw_start + 1) as nat, pixels as nat),
                decreases pixels - index + (if more { 1int } else { 0int }),
            {
                if run_length(raw, bpp, index, pixels) >= 2 {
                    more = false;
                } else {
                    index += 1;
                }
            }
            let count = index - raw_start;
            assert(raw_start * bpp <= index * bpp <= pixels * bpp) by (nonlinear_arith)
                requires raw_start <= index <= pixels;
            assert(index * bpp - raw_start * bpp == count * bpp) by (nonlinear_arith)
                requires count == index - raw_start;
            let byte_start = raw_start * bpp;
            let byte_end = index * bpp;
            let literal = vstd::slice::slice_subrange(raw, byte_start, byte_end);
            let ghost old_out = output@;
            output.push((count - 1) as u8);
            push_slice(&mut output, literal);
            proof {
                lemma_prefix_literal(old_out, raw@.subrange(0, raw_start * bpp), raw_start as nat, bpp as nat, literal@, count as nat);
                assert(output@ =~= old_out + seq![(count - 1) as u8] + literal@);
                assert(index == raw_packet_end(raw@, bpp as nat, raw_start as nat, (raw_start + 1) as nat, pixels as nat));
                assert(rle_packets(raw@, bpp as nat, raw_start as nat, pixels as nat) == seq![(count - 1) as u8] + literal@
                    + rle_packets(raw@, bpp as nat, index as nat, pixels as nat));
                assert(output@ + rle_packets(raw@, bpp as nat, index as nat, pixels as nat) =~= old_out
                    + rle_packets(raw@, bpp as nat, raw_start as nat, pixels as nat));
                assert(raw@.subrange(0, index * bpp) =~= raw@.subrange(0, raw_start * bpp) + literal@);
            }
        }
    }
    proof {
        assert(output@ + rle_packets(raw@, bpp as nat, index as nat, pixels as nat) =~= output@);
        assert(raw@.subrange(0, index * bpp) =~= raw@);
        assert(rle_expand(output@ + Seq::<u8>::empty(), index as nat + 0, bpp as nat) == prepend(raw@, rle_expand(Seq::<u8>::empty(), 0, bpp as nat)));
        assert(output@ + Seq::<u8>::empty() =~= output@);
        assert(raw@ + Seq::<u8>::empty() =~= raw@);
    }
    Ok(output)
}

/// Index in file order of the pixel that lands at `(x, y)` of a top-left frame.
pub open spec fn tga_file_index(w: int, h: int, right: bool, top: bool, x: int, y: int) -> int {
    (if top { y } else { h - 1 - y }) * w + (if right { w - 1 - x } else { x })
}

/// Which stored byte of a file pixel becomes output channel `c`: grey is
/// copied, BGR(A) is swapped to RGB.
pub open spec fn tga_source_channel(channels: int, c: int) -> int {
    if channels == 1 {
        0
    } else {
        2 - c
    }
}

/// Rearranges pixels stored in file order into a top-left RGB24 or Gray8 raster.
fn reorder_pixels(
    source: &[u8],
    w: usize,
    h: usize,
    bpp: usize,
    channels: usize,
    right: bool,
    top: bool,
) -> (out: Vec<u8>)
    requires
        w >= 1,
        h >= 1,
        channels == 1 && bpp == 1 || channels == 3 && (bpp == 3 || bpp == 4),
        source@.len() == w * h * bpp,
        w * h * channels <= usize::MAX,
    ensures
        out@.len() == w * h * channels,
        forall|y: int, x: int, c: int|
            0 <= y < h && 0 <= x < w && 0 <= c < channels ==> #[trigger] out@[(y * w + x) * channels + c]
                == source@[tga_file_index(w as int, h as int, right, top, x, y) * bpp + tga_source_channel(channels as int, c)],
{
    let slen = source.len();
    let mut output: Vec<u8> = Vec::with_capacity(w * h * channels);
    let mut y: usize = 0;
    while y < h
        invariant
            w >= 1,
            h >= 1,
            channels == 1 && bpp == 1 || channels == 3 && (bpp == 3 || bpp == 4),
            source@.len() == w * h * bpp,
            slen == source@.len(),
            w * h * channels <= usize::MAX,
            y <= h,
            output@.len() == y * w * channels,
            forall|yy: int, x: int, c: int|
                0 <= yy < y && 0 <= x < w && 0 <= c < channels ==> #[trigger] output@[(yy * w + x) * channels + c]
                    == source@[tga_file_index(w as int, h as int, right, top, x, yy) * bpp + tga_source_channel(channels as int, c)],
        decreases h - y,
    {
        let file_y = if top {
            y
        } else {
            h - 1 - y
        };
        let mut x: usize = 0;
        while x < w
            invariant
                w >= 1,
                h >= 1,
                channels == 1 && bpp == 1 || channels == 3 && (bpp == 3 || bpp == 4),
                source@.len() == w * h * bpp,
                slen == source@.len(),
                w * h * channels <= usize::MAX,
                y < h,
                file_y == (if top { y as int } else { h - 1 - y }),
                x <= w,
                output@.len() == (y * w + x) * channels,
                forall|yy: int, xx: int, c: int|
                    0 <= yy < y && 0 <= xx < w && 0 <= c < channels ==> #[trigger] output@[(yy * w + xx) * channels + c]
                        == source@[tga_file_index(w as int, h as int, right, top, xx, yy) * bpp + tga_source_channel(channels as int, c)],
                forall|xx: int, c: int|
                    0 <= xx < x && 0 <= c < channels ==> #[trigger] output@[(y * w + xx) * channels + c]
                        == source@[tga_file_index(w as int, h as int, right, top, xx, y as int) * bpp + tga_source_channel(channels as int, c)],
            decreases w - x,
        {
            let file_x = if right {
                w - 1 - x
            } else {
                x
            };
            assert(file_y * w + file_x < w * h) by (nonlinear_arith)
                requires file_y < h, file_x < w;
            assert((file_y * w + file_x) * bpp + bpp <= w * h * bpp) by (nonlinear_arith)
                requires file_y * w + file_x < w * h;
            assert((y * w + x) * channels + channels <= w * h * channels) by (nonlinear_arith)
                requires x < w, y < h;
            let file_index = file_y * w + file_x;
            let src = file_index * bpp;
            assert(file_index == tga_file_index(w as int, h as int, right, top, x as int, y as int));
            let ghost before = output@;
            if channels == 1 {
                output.push(source[src]);
            } else {
                output.push(source[src + 2]);
                output.push(source[src + 1]);
                output.push(source[src]);
            }
            proof {
                assert(output@.len() == before.len() + channels);
                assert forall|yy: int, xx: int, c: int|
                    0 <= yy < y && 0 <= xx < w && 0 <= c < channels implies #[trigger] output@[(yy * w + xx) * channels + c]
                        == source@[tga_file_index(w as int, h as int, right, top, xx, yy) * bpp + tga_source_channel(channels as int, c)] by {
                    assert((yy * w + xx) * channels + c < y * w * channels) by (nonlinear_arith)
                        requires yy < y, xx < w, c < channels, 0 <= yy, 0 <= xx, 0 <= c;
                    assert(y * w * channels <= before.len()) by (nonlinear_arith)
                        requires before.len() == (y * w + x) * channels, x >= 0;
                    assert(output@[(yy * w + xx) * channels + c] == before[(yy * w + xx) * channels + c]);
                }
                assert forall|xx: int, c: int|
                    0 <= xx < x + 1 && 0 <= c < channels implies #[trigger] output@[(y * w + xx) * channels + c]
                        == source@[tga_file_index(w as int, h as int, right, top, xx, y as int) * bpp + tga_source_channel(channels as int, c)] by {
                    if xx < x {
                        assert((y * w + xx) * channels + c < before.len()) by (nonlinear_arith)
                            requires before.len() == (y * w + x) * channels, xx < x, c < channels;
                        assert(output@[(y * w + xx) * channels + c] == before[(y * w + xx) * channels + c]);
                    } else {
                        assert((y * w + xx) * channels + c == before.len() + c) by (nonlinear_arith)
                            requires before.len() == (y * w + x) * channels, xx == x;
                    }
                }
                assert(output@.len() == (y * w + (x + 1)) * channels) by (nonlinear_arith)
                    requires output@.len() == before.len() + channels, before.len() == (y * w + x) * channels;
            }
            x += 1;
        }
        proof {
            assert(output@.len() == (y + 1) * w * channels) by (nonlinear_arith)
                requires output@.len() == (y * w + w) * channels;
        }
        y += 1;
    }
    proof {
        assert(output@.len() == w * h * channels) by (nonlinear_arith)
            requires output@.len() == y * w * channels, y == h;
    }
    output
}

pub open spec fn tga_width(s: Seq<u8>) -> nat {
    le16_at(s, 12)
}

pub open spec fn tga_height(s: Seq<u8>) -> nat {
    le16_at(s, 14)
}

pub open spec fn tga_is_rle(s: Seq<u8>) -> bool {
    s[2] == TYPE_RLE_TRUECOLOR || s[2] == TYPE_RLE_GRAYSCALE
}

/// Channels of the decoded frame: one for grey, three for truecolor.
pub open spec fn tga_channels(s: Seq<u8>) -> nat {
    if s[2] == TYPE_GRAYSCALE || s[2] == TYPE_RLE_GRAYSCALE {
        1
    } else {
        3
    }
}

/// Bytes per stored pixel.
pub open spec fn tga_bpp(s: Seq<u8>) -> nat {
    (s[16] / 8) as nat
}

/// Where the pixel data starts: after the header and the image ID field.
pub open spec fn tga_data_offset(s: Seq<u8>) -> nat {
    18 + s[0] as nat
}

/// Bit 4 of the image descriptor: pixels run right to left.
pub open spec fn tga_right_origin(s: Seq<u8>) -> bool {
    (s[17] / 16) % 2 == 1
}

/// Bit 5 of the image descriptor: rows run top to bottom.
pub open spec fn tga_top_origin(s: Seq<u8>) -> bool {
    (s[17] / 32) % 2 == 1
}

/// A header the decoder accepts, with its image ID field present.
pub open spec fn tga_header_ok(s: Seq<u8>) -> bool {
    &&& s.len() >= 18
    &&& s[1] == 0
    &&& tga_width(s) > 0
    &&& tga_height(s) > 0
    &&& supported_type_depth(s[2], s[16])
    &&& tga_data_offset(s) <= s.len()
}

/// Whether `decode_tga` accepts a file: a supported header, a raster that
/// fits in memory, and pixel data that covers the image.
pub open spec fn tga_decode_ok(s: Seq<u8>) -> bool {
    &&& tga_header_ok(s)
    &&& tga_width(s) * tga_height(s) * tga_bpp(s) <= usize::MAX
    &&& tga_source(s) is Some
}

/// The stored pixels in file order, expanded from RLE packets where needed.
pub open spec fn tga_source(s: Seq<u8>) -> Option<Seq<u8>> {
    let off = tga_data_offset(s) as int;
    let pixels = tga_width(s) * tga_height(s);
    let n = pixels * tga_bpp(s);
    if tga_is_rle(s) {
        rle_expand(s.subrange(off, s.len() as int), pixels, tga_bpp(s))
    } else if off + n <= s.len() {
        Some(s.subrange(off, off + n))
    } else {
        None
    }
}

/// `frame` is what the TGA file `s` holds, turned to top-left order.
pub open spec fn tga_decodes_to(s: Seq<u8>, frame: VideoFrame) -> bool {
    let w = tga_width(s) as int;
    let h = tga_height(s) as int;
    let ch = tga_channels(s) as int;
    &&& tga_header_ok(s)
    &&& tga_source(s) is Some
    &&& frame.wf()
    &&& frame.width == w
    &&& frame.height == h
    &&& frame.format == (if ch == 1 { PixelFormat::Gray8 } else { PixelFormat::Rgb24 })
    &&& frame.pts is None
    &&& forall|y: int, x: int, c: int|
        0 <= y < h && 0 <= x < w && 0 <= c < ch ==> #[trigger] frame.data@[(y * w + x) * ch + c]
            == tga_source(s)->0[tga_file_index(w, h, tga_right_origin(s), tga_top_origin(s), x, y)
            * tga_bpp(s) + tga_source_channel(ch, c)]
}

/// Decodes uncompressed or RLE truecolor (24/32-bit) and grayscale (8-bit)
/// TGA to RGB24 or Gray8, honouring the descriptor's origin bits.
pub fn decode_tga(bytes: &[u8]) -> (r: Result<VideoFrame>)
    ensures
        bytes@.len() < 18 ==> r is Err && r->Err_0@ == ErrorKind::InvalidData,
        bytes@.len() >= 18 && bytes@[1] != 0 ==> r is Err && r->Err_0@ == ErrorKind::Unsupported,
        bytes@.len() >= 18 && bytes@[1] == 0 && (tga_width(bytes@) == 0 || tga_height(bytes@) == 0)
            ==> r is Err && r->Err_0@ == ErrorKind::InvalidData,
        bytes@.len() >= 18 && bytes@[1] == 0 && tga_width(bytes@) > 0 && tga_height(bytes@) > 0
            && !supported_type_depth(bytes@[2], bytes@[16]) ==> r is Err && r->Err_0@
            == ErrorKind::Unsupported,
        bytes@.len() >= 18 && bytes@[1] == 0 && tga_width(bytes@) > 0 && tga_height(bytes@) > 0
            && supported_type_depth(bytes@[2], bytes@[16]) && tga_data_offset(bytes@) > bytes@.len()
            ==> r is Err && r->Err_0@ == ErrorKind::InvalidData,
        tga_header_ok(bytes@) && tga_width(bytes@) * tga_height(bytes@) * tga_bpp(bytes@) > usize::MAX
            ==> r is Err && r->Err_0@ == ErrorKind::Overflow,
        tga_header_ok(bytes@) && tga_width(bytes@) * tga_height(bytes@) * tga_bpp(bytes@) <= usize::MAX
            ==> (r is Ok <==> tga_source(bytes@) is Some),
        tga_header_ok(bytes@) && tga_source(bytes@) is None ==> r is Err && (r->Err_0@
            == ErrorKind::InvalidData || r->Err_0@ == ErrorKind::Overflow),
        r matches Ok(frame) ==> tga_decodes_to(bytes@, frame),
        r is Ok <==> tga_decode_ok(bytes@),
{
    let ghost s = bytes@;
    if bytes.len() < HEADER_SIZE {
        return Err(MediaError::invalid_data("TGA input is shorter than its 18-byte header"));
    }
    if bytes[1] != 0 {
        return Err(MediaError::unsupported("color-mapped TGA images are not implemented yet"));
    }
    let id_length = bytes[0] as usize;
    let image_type = bytes[2];
    let width = read_le16(bytes, 12) as u32;
    let height = read_le16(bytes, 14) as u32;
    if width == 0 || height == 0 {
        return Err(MediaError::invalid_data("TGA dimensions must be non-zero"));
    }
    let depth = bytes[16];
    let (format, bytes_per_pixel, rle): (PixelFormat, usize, bool) = if image_type == TYPE_TRUECOLOR
        && (depth == 24 || depth == 32) {
        (PixelFormat::Rgb24, (depth / 8) as usize, false)
    } else if image_type == TYPE_GRAYSCALE && depth == 8 {
        (PixelFormat::Gray8, 1, false)
    } else if image_type == TYPE_RLE_TRUECOLOR && (depth == 24 || depth == 32) {
        (PixelFormat::Rgb24, (depth / 8) as usize, true)
    } else if image_type == TYPE_RLE_GRAYSCALE && depth == 8 {
        (PixelFormat::Gray8, 1, true)
    } else if image_type == TYPE_TRUECOLOR || image_type == TYPE_RLE_TRUECOLOR {
        return Err(MediaError::unsupported("TGA truecolor depth is not implemented"));
    } else if image_type == TYPE_GRAYSCALE || image_type == TYPE_RLE_GRAYSCALE {
        return Err(MediaError::unsupported("TGA grayscale depth is not implemented"));
    } else {
        return Err(MediaError::unsupported("TGA image type is not implemented"));
    };
    let data_offset = HEADER_SIZE + id_length;
    if data_offset > bytes.len() {
        return Err(MediaError::invalid_data("TGA image ID field is truncated"));
    }
    assert(tga_header_ok(s));
    let w = width as usize;
    let h = height as usize;
    assert(w * h <= 65535 * 65535) by (nonlinear_arith)
        requires w <= 65535, h <= 65535;
    let pixel_count = w * h;
    let source_size = match pixel_count.checked_mul(bytes_per_pixel) {
        Some(v) => v,
        None => return Err(MediaError::overflow("TGA source raster size overflow")),
    };
    let len = bytes.len();
    let source: Vec<u8> = if rle {
        let rest = vstd::slice::slice_subrange(bytes, data_offset, len);
        match decode_rle(rest, pixel_count, bytes_per_pixel) {
            Ok(v) => v,
            Err(e) => return Err(e),
        }
    } else {
        if source_size > len - data_offset {
            return Err(MediaError::invalid_data("TGA raster is truncated"));
        }
        vstd::slice::slice_to_vec(vstd::slice::slice_subrange(bytes, data_offset, data_offset + source_size))
    };
    proof {
        if rle {
            lemma_rle_expand_len(s.subrange(data_offset as int, len as int), pixel_count as nat, bytes_per_pixel as nat);
        }
    }
    assert(source@ == tga_source(s)->0);
    let channels = format.bytes_per_pixel();
    assert(pixel_count * channels <= pixel_count * bytes_per_pixel) by (nonlinear_arith)
        requires channels <= bytes_per_pixel;
    let descriptor = bytes[17];
    let right_origin = (descriptor / 16) % 2 == 1;
    let top_origin = (descriptor / 32) % 2 == 1;
    let output = reorder_pixels(source.as_slice(), w, h, bytes_per_pixel, channels, right_origin, top_origin);
    assert(output@.len() == width * spec_bpp(format) * height) by (nonlinear_arith)
        requires output@.len() == w * h * channels, channels == spec_bpp(format), w == width, h == height;
    let frame = match VideoFrame::from_vec(width, height, format, output) {
        Ok(f) => f,
        Err(e) => return Err(e),
    };
    Ok(frame)
}

/// The stored pixel bytes `encode_tga` writes for `frame`: grey as is,
/// RGB swapped to BGR.
pub open spec fn tga_raw(frame: VideoFrame) -> Seq<u8> {
    let d = frame.data@;
    if frame.format == PixelFormat::Gray8 {
        d
    } else {
        Seq::new(d.len(), |j: int| d[j - j % 3 + (2 - j % 3)])
    }
}

/// The image type byte written for a format and packing.
pub open spec fn tga_type_for(format: PixelFormat, rle: bool) -> u8 {
    if format == PixelFormat::Gray8 {
        if rle { TYPE_RLE_GRAYSCALE } else { TYPE_GRAYSCALE }
    } else {
        if rle { TYPE_RLE_TRUECOLOR } else { TYPE_TRUECOLOR }
    }
}

/// The 18-byte header: no ID, no colour map, origin at (0, 0), top-left order.
pub open spec fn tga_header(image_type: u8, width: nat, height: nat, depth: u8) -> Seq<u8> {
    seq![0u8, 0u8, image_type, 0u8, 0u8, 0u8, 0u8, 0u8, 0u8, 0u8, 0u8, 0u8] + le_bytes(width, 2) + le_bytes(
        height,
        2,
    ) + seq![depth, 0x20u8]
}

/// `out` is the TGA file `encode_tga_with_rle` writes for `frame`.
pub open spec fn tga_encoded(frame: VideoFrame, rle: bool, out: Seq<u8>) -> bool {
    let ch = spec_bpp(frame.format);
    let body = out.subrange(18, out.len() as int);
    &&& out.len() >= 18
    &&& out.subrange(0, 18) == tga_header(
        tga_type_for(frame.format, rle),
        frame.width as nat,
        frame.height as nat,
        (8 * ch) as u8,
    )
    &&& if rle {
        rle_expand(body, (frame.width * frame.height) as nat, ch) == Some(tga_raw(frame))
    } else {
        body == tga_raw(frame)
    }
}

proof fn lemma_le_two(v: nat)
    requires
        v < 65536,
    ensures
        le_bytes(v, 2) == seq![(v % 256) as u8, (v / 256) as u8],
{
    reveal_with_fuel(le_bytes, 3);
    assert((v / 256) % 256 == v / 256);
    assert(le_bytes(v, 2) =~= seq![(v % 256) as u8, (v / 256) as u8]);
}

pub fn encode_tga(frame: &VideoFrame) -> (r: Result<Vec<u8>>)
    requires
        frame.wf(),
    ensures
        frame.format != PixelFormat::Gray8 && frame.format != PixelFormat::Rgb24 ==> r is Err
            && r->Err_0@ == ErrorKind::InvalidArgument,
        (frame.format == PixelFormat::Gray8 || frame.format == PixelFormat::Rgb24) && (frame.width
            > 65535 || frame.height > 65535) ==> r is Err && r->Err_0@ == ErrorKind::Unsupported,
        (frame.format == PixelFormat::Gray8 || frame.format == PixelFormat::Rgb24) && frame.width
            <= 65535 && frame.height <= 65535 ==> r is Ok,
        r matches Ok(out) ==> tga_encoded(*frame, false, out@),
{
    encode_tga_with_rle(frame, false)
}

/// Encodes a Gray8 or RGB24 frame as top-left TGA, run-length packed if `rle`.
pub fn encode_tga_with_rle(frame: &VideoFrame, rle: bool) -> (r: Result<Vec<u8>>)
    requires
        frame.wf(),
    ensures
        frame.format != PixelFormat::Gray8 && frame.format != PixelFormat::Rgb24 ==> r is Err
            && r->Err_0@ == ErrorKind::InvalidArgument,
        (frame.format == PixelFormat::Gray8 || frame.format == PixelFormat::Rgb24) && (frame.width
            > 65535 || frame.height > 65535) ==> r is Err && r->Err_0@ == ErrorKind::Unsupported,
        (frame.format == PixelFormat::Gray8 || frame.format == PixelFormat::Rgb24) && frame.width
            <= 65535 && frame.height <= 65535 ==> r is Ok,
        r matches Ok(out) ==> tga_encoded(*frame, rle, out@),
        rle ==> (r matches Ok(out) ==> out@.subrange(18, out@.len() as int) == rle_packets(
            tga_raw(*frame),
            spec_bpp(frame.format),
            0,
            (frame.width * frame.height) as nat,
        )),
{
    let gray = match frame.format {
        PixelFormat::Gray8 => true,
        PixelFormat::Rgb24 => false,
        _ => return Err(MediaError::invalid_argument("TGA encoder requires gray or rgb24 input")),
    };
    let image_type = if gray {
        if rle { TYPE_RLE_GRAYSCALE } else { TYPE_GRAYSCALE }
    } else {
        if rle { TYPE_RLE_TRUECOLOR } else { TYPE_TRUECOLOR }
    };
    let depth: u8 = if gray { 8 } else { 24 };
    let channels: usize = if gray { 1 } else { 3 };
    if frame.width > 65535 {
        return Err(MediaError::unsupported("TGA width exceeds 65535 pixels"));
    }
    if frame.height > 65535 {
        return Err(MediaError::unsupported("TGA height exceeds 65535 pixels"));
    }
    let data = frame.data.as_slice();
    let n = data.len();
    let mut raw: Vec<u8> = Vec::with_capacity(n);
    if gray {
        push_slice(&mut raw, data);
        assert(raw@ =~= tga_raw(*frame));
    } else {
        assert(n == (frame.width * frame.height) * 3) by (nonlinear_arith)
            requires n == frame.width * 3 * frame.height;
        proof {
            vstd::arithmetic::div_mod::lemma_mod_multiples_basic((frame.width * frame.height) as int, 3);
        }
        let mut i: usize = 0;
        while i < n
            invariant
                n == data@.len(),
                data@ == frame.data@,
                n % 3 == 0,
                i % 3 == 0,
                i <= n,
                raw@.len() == i,
                frame.format == PixelFormat::Rgb24,
                forall|j: int| 0 <= j < i ==> #[trigger] raw@[j] == tga_raw(*frame)[j],
            decreases n - i,
        {
            let ghost before = raw@;
            raw.push(data[i + 2]);
            raw.push(data[i + 1]);
            raw.push(data[i]);
            proof {
                assert forall|j: int| 0 <= j < i + 3 implies #[trigger] raw@[j] == tga_raw(*frame)[j] by {
                    if j >= i {
                        assert(j - j % 3 == i) by (nonlinear_arith)
                            requires i <= j < i + 3, i % 3 == 0;
                        assert(j % 3 == j - i) by (nonlinear_arith)
                            requires i <= j < i + 3, i % 3 == 0;
                    } else {
                        assert(raw@[j] == before[j]);
                    }
                }
            }
            i += 3;
        }
        assert(raw@ =~= tga_raw(*frame));
    }
    let pixels = n / channels;
    assert(pixels == frame.width * frame.height) by (nonlinear_arith)
        requires n == frame.width * channels * frame.height, pixels == n / channels, channels >= 1;
    assert(raw@.len() == n);
    assert(channels == spec_bpp(frame.format));
    let raster = if rle {
        match encode_rle(raw.as_slice(), channels) {
            Ok(v) => v,
            Err(e) => return Err(e),
        }
    } else {
        raw
    };
    let mut output: Vec<u8> = Vec::new();
    output.push(0);
    output.push(0);
    output.push(image_type);
    let mut k: usize = 0;
    while k < 9
        invariant
            k <= 9,
            output@ == seq![0u8, 0u8, image_type] + Seq::new(k as nat, |_i: int| 0u8),
        decreases 9 - k,
    {
        output.push(0);
        k += 1;
        assert(output@ =~= seq![0u8, 0u8, image_type] + Seq::new(k as nat, |_i: int| 0u8));
    }
    let w16 = frame.width as u16;
    let h16 = frame.height as u16;
    output.push((w16 % 256) as u8);
    output.push((w16 / 256) as u8);
    output.push((h16 % 256) as u8);
    output.push((h16 / 256) as u8);
    output.push(depth);
    output.push(0x20);
    let ghost header = output@;
    proof {
        lemma_le_two(frame.width as nat);
        lemma_le_two(frame.height as nat);
        assert(header =~= tga_header(image_type, frame.width as nat, frame.height as nat, depth));
    }
    push_slice(&mut output, raster.as_slice());
    proof {
        assert(output@.subrange(0, 18) =~= header);
        assert(output@.subrange(18, output@.len() as int) =~= raster@);
    }
    Ok(output)
}

/// What `encode_tga_with_rle` writes is a TGA the decoder accepts, and its
/// stored pixels are the frame's, in file order.
pub proof fn lemma_tga_encoded_decodable(frame: VideoFrame, rle: bool, out: Seq<u8>)
    requires
        frame.wf(),
        frame.format == PixelFormat::Gray8 || frame.format == PixelFormat::Rgb24,
        frame.width <= 65535,
        frame.height <= 65535,
        tga_encoded(frame, rle, out),
    ensures
        tga_header_ok(out),
        tga_width(out) == frame.width,
        tga_height(out) == frame.height,
        tga_channels(out) == spec_bpp(frame.format),
        tga_bpp(out) == spec_bpp(frame.format),
        !tga_right_origin(out),
        tga_top_origin(out),
        tga_width(out) * tga_height(out) * tga_bpp(out) == frame.data@.len(),
        tga_source(out) == Some(tga_raw(frame)),
{
    let ch = spec_bpp(frame.format);
    let header = out.subrange(0, 18);
    lemma_le_two(frame.width as nat);
    lemma_le_two(frame.height as nat);
    let t = tga_type_for(frame.format, rle);
    let hd = tga_header(t, frame.width as nat, frame.height as nat, (8 * ch) as u8);
    assert(header == hd);
    assert(out[0] == header[0]);
    assert(out[1] == header[1]);
    assert(out[2] == header[2]);
    assert(out[12] == header[12]);
    assert(out[13] == header[13]);
    assert(out[14] == header[14]);
    assert(out[15] == header[15]);
    assert(out[16] == header[16]);
    assert(out[17] == header[17]);
    assert(hd[12] == (frame.width % 256) as u8);
    assert(hd[13] == (frame.width / 256) as u8);
    assert(hd[14] == (frame.height % 256) as u8);
    assert(hd[15] == (frame.height / 256) as u8);
    assert(hd[16] == (8 * ch) as u8);
    assert(hd[17] == 0x20u8);
    assert(tga_width(out) == frame.width);
    assert(tga_height(out) == frame.height);
    assert(frame.data@.len() == frame.width * frame.height * ch) by (nonlinear_arith)
        requires frame.data@.len() == frame.width * ch * frame.height;
    let body = out.subrange(18, out.len() as int);
    if !rle {
        assert(out.subrange(18, 18 + frame.data@.len() as int) =~= body);
    }
}

/// Decoding what `encode_tga_with_rle` writes gives back the frame: same
/// geometry, same format, same pixels.
pub proof fn lemma_tga_roundtrip(frame: VideoFrame, rle: bool, out: Seq<u8>, decoded: VideoFrame)
    requires
        frame.wf(),
        frame.format == PixelFormat::Gray8 || frame.format == PixelFormat::Rgb24,
        frame.width <= 65535,
        frame.height <= 65535,
        tga_encoded(frame, rle, out),
        tga_decodes_to(out, decoded),
    ensures
        decoded.width == frame.width,
        decoded.height == frame.height,
        decoded.format == frame.format,
        decoded.data@ == frame.data@,
{
    lemma_tga_encoded_decodable(frame, rle, out);
    let w = frame.width as int;
    let h = frame.height as int;
    let ch = spec_bpp(frame.format) as int;
    let raw = tga_raw(frame);
    assert(decoded.data@.len() == frame.data@.len());
    assert forall|k: int| 0 <= k < frame.data@.len() implies decoded.data@[k] == frame.data@[k] by {
        assert(frame.data@.len() == w * h * ch) by (nonlinear_arith)
            requires frame.data@.len() == w * ch * h;
        let (y, x, c) = crate::video::lemma_pixel_decompose(k, w, h, ch);
        assert(tga_file_index(w, h, false, true, x, y) == y * w + x);
        let j = (y * w + x) * ch + tga_source_channel(ch, c);
        assert(decoded.data@[(y * w + x) * ch + c] == raw[j]);
        if ch == 3 {
            assert(j % 3 == 2 - c && j - j % 3 == (y * w + x) * 3) by (nonlinear_arith)
                requires j == (y * w + x) * 3 + (2 - c), 0 <= c < 3, 0 <= y * w + x;
        }
    }
    assert(decoded.data@ =~= frame.data@);
}

/// The pixels of `frame` stored in file order under the origin bits
/// `right` and `top`: stored pixel (fx, fy) is frame pixel (x, y) with
/// x = w - 1 - fx when pixels run right to left, y = fy when rows run top to
/// bottom (h - 1 - fy otherwise); RGB is stored as BGR.
pub open spec fn oriented_raster(frame: VideoFrame, right: bool, top: bool) -> Seq<u8> {
    let w = frame.width as int;
    let h = frame.height as int;
    let ch = spec_bpp(frame.format) as int;
    Seq::new(
        (w * h * ch) as nat,
        |j: int|
            {
                let fi = j / ch;
                let x = if right { w - 1 - fi % w } else { fi % w };
                let y = if top { fi / w } else { h - 1 - fi / w };
                frame.data@[(y * w + x) * ch + tga_source_channel(ch, j % ch)]
            },
    )
}

/// An uncompressed TGA file of `frame` with image descriptor `d`: the
/// encoder's header with byte 17 set to `d`, then the raster in the order
/// `d`'s origin bits give.
pub open spec fn oriented_file(frame: VideoFrame, d: u8) -> Seq<u8> {
    tga_header(tga_type_for(frame.format, false), frame.width as nat, frame.height as nat, (8 * spec_bpp(frame.format)) as u8).update(
        17,
        d,
    ) + oriented_raster(frame, (d / 16) % 2 == 1, (d / 32) % 2 == 1)
}

/// Every origin corner maps back to the same top-left frame: whichever of
/// the four origin combinations a file's descriptor names, with the raster
/// stored in that order, it decodes to the frame.
#[verifier::spinoff_prover]
#[verifier::rlimit(60)]
pub proof fn lemma_every_origin_decodes_to_frame(frame: VideoFrame, d: u8)
    requires
        frame.wf(),
        frame.pts is None,
        frame.format == PixelFormat::Gray8 || frame.format == PixelFormat::Rgb24,
        frame.width <= 65535,
        frame.height <= 65535,
        d == 0x00 || d == 0x10 || d == 0x20 || d == 0x30,
    ensures
        tga_decode_ok(oriented_file(frame, d)),
        tga_decodes_to(oriented_file(frame, d), frame),
{
    let w = frame.width as int;
    let h = frame.height as int;
    let ch = spec_bpp(frame.format) as int;
    let right = (d / 16) % 2 == 1;
    let top = (d / 32) % 2 == 1;
    let s = oriented_file(frame, d);
    let raster = oriented_raster(frame, right, top);
    lemma_le_two(frame.width as nat);
    lemma_le_two(frame.height as nat);
    let hd = tga_header(tga_type_for(frame.format, false), frame.width as nat, frame.height as nat, (8 * ch) as u8);
    assert(hd.len() == 18);
    assert(s[0] == 0 && s[1] == 0 && s[2] == hd[2] && s[16] == hd[16] && s[17] == d);
    assert(s[12] == (frame.width % 256) as u8 && s[13] == (frame.width / 256) as u8);
    assert(s[14] == (frame.height % 256) as u8 && s[15] == (frame.height / 256) as u8);
    assert(tga_width(s) == w);
    assert(tga_height(s) == h);
    assert(frame.data@.len() == w * h * ch) by (nonlinear_arith)
        requires frame.data@.len() == w * ch * h;
    assert(tga_right_origin(s) == right && tga_top_origin(s) == top);
    assert(s.subrange(18, 18 + w * h * ch) =~= raster);
    assert(tga_source(s) == Some(raster));
    assert forall|y: int, x: int, c: int| 0 <= y < h && 0 <= x < w && 0 <= c < ch implies #[trigger] frame.data@[(y * w + x)
        * ch + c] == raster[tga_file_index(w, h, right, top, x, y) * ch + tga_source_channel(ch, c)] by {
        let fx = if right { w - 1 - x } else { x };
        let fy = if top { y } else { h - 1 - y };
        let fi = fy * w + fx;
        let sc = tga_source_channel(ch, c);
        let j = fi * ch + sc;
        assert(0 <= fi < w * h) by (nonlinear_arith)
            requires fi == fy * w + fx, 0 <= fx < w, 0 <= fy < h;
        assert(0 <= j < w * h * ch && j / ch == fi && j % ch == sc) by (nonlinear_arith)
            requires j == fi * ch + sc, 0 <= fi < w * h, 0 <= sc < ch, ch >= 1;
        assert(fi / w == fy && fi % w == fx) by (nonlinear_arith)
            requires fi == fy * w + fx, 0 <= fx < w, w >= 1;
        assert(tga_source_channel(ch, sc) == c);
    }
}

} // verus!

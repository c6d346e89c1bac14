use vstd::prelude::*;

use crate::bytes_util::be32_at;
use crate::checksum::spec_crc32;
use crate::error::ErrorKind;
use crate::png_encode::{image_row, row_filter, scanlines_spec};
use crate::png_filter::{best_filter, filter_spec, lemma_best_filter_bound, lemma_unfilter_inverts_filter, unfilter_spec};
use crate::video::{spec_bpp, PixelFormat, VideoFrame};
use crate::zlib::spec_decompress;
use crate::png::{
    be4, color_bpp, color_format, format_color_type, spec_decode_png, spec_filtered_size, spec_reconstruct, chunk_type_ok, chunks_start, idat_chunks, ihdr_payload, is_lower, is_upper, png_chunk, png_file, png_route, png_signature,
    png_step, png_walk, spec_parse_ihdr, spec_png_chunks, tag, unfilter_rows, unfiltered_scanlines, Ihdr, PngChunks, MAX_PIXELS,
};

verus! {

/// Four bytes written with `be4` read back as the same number.
pub proof fn lemma_be4_reads_back(v: nat)
    requires
        v <= u32::MAX,
    ensures
        be4(v).len() == 4,
        be32_at(be4(v), 0) == v,
{
    let x = v as u32;
    assert(16777216 * ((x / 16777216) % 256) + 65536 * ((x / 65536) % 256) + 256 * ((x / 256) % 256) + x % 256 == x)
        by (bit_vector);
}

/// A chunk written with `png_chunk` in the middle of a file reads back at
/// its position: its length field, its type, its data and its CRC.
pub proof fn lemma_chunk_at(pre: Seq<u8>, t: Seq<u8>, d: Seq<u8>, post: Seq<u8>)
    requires
        t.len() == 4,
        d.len() <= u32::MAX,
    ensures
        ({
            let s = pre + png_chunk(t, d) + post;
            let pos = pre.len() as int;
            &&& s.len() == pos + 12 + d.len() + post.len()
            &&& be32_at(s, pos) == d.len()
            &&& s.subrange(pos + 4, pos + 8) == t
            &&& s.subrange(pos + 8, pos + 8 + d.len()) == d
            &&& be32_at(s, pos + 8 + d.len()) == spec_crc32(t + d)
            &&& s.subrange(pos + 12 + d.len(), s.len() as int) == post
        }),
{
    let s = pre + png_chunk(t, d) + post;
    let pos = pre.len() as int;
    let n = d.len() as int;
    let l = be4(d.len());
    let c = be4(spec_crc32(t + d) as nat);
    lemma_be4_reads_back(d.len());
    lemma_be4_reads_back(spec_crc32(t + d) as nat);
    assert(png_chunk(t, d) == l + t + d + c);
    assert(s =~= pre + l + t + d + c + post);
    assert forall|k: int| 0 <= k < 4 implies s[pos + k] == l[k] && s[pos + 8 + n + k] == c[k] by {}
    assert(s.subrange(pos + 4, pos + 8) =~= t);
    assert(s.subrange(pos + 8, pos + 8 + n) =~= d);
    assert(s.subrange(pos + 12 + n, s.len() as int) =~= post);
}

/// The critical chunk types the encoders write are well formed and tell
/// apart from each other.
pub proof fn lemma_tags()
    ensures
        chunk_type_ok(tag(73, 72, 68, 82)),
        chunk_type_ok(tag(73, 68, 65, 84)),
        chunk_type_ok(tag(73, 69, 78, 68)),
        chunk_type_ok(tag(112, 72, 89, 115)),
        tag(73, 68, 65, 84) != tag(73, 72, 68, 82),
        tag(73, 69, 78, 68) != tag(73, 72, 68, 82),
        tag(73, 69, 78, 68) != tag(73, 68, 65, 84),
        tag(112, 72, 89, 115) != tag(73, 72, 68, 82),
        tag(112, 72, 89, 115) != tag(73, 68, 65, 84),
        tag(112, 72, 89, 115) != tag(73, 69, 78, 68),
        tag(112, 72, 89, 115) != tag(80, 76, 84, 69),
        tag(112, 72, 89, 115) != tag(116, 82, 78, 83),
        tag(73, 68, 65, 84) != tag(80, 76, 84, 69),
        tag(73, 68, 65, 84) != tag(116, 82, 78, 83),
        tag(73, 69, 78, 68) != tag(80, 76, 84, 69),
        tag(73, 69, 78, 68) != tag(116, 82, 78, 83),
        tag(73, 72, 68, 82) != tag(80, 76, 84, 69),
        tag(73, 72, 68, 82) != tag(116, 82, 78, 83),
        !is_upper(tag(112, 72, 89, 115)[0]),
{
    assert(tag(73, 68, 65, 84)[1] != tag(73, 72, 68, 82)[1]);
    assert(tag(73, 69, 78, 68)[1] != tag(73, 72, 68, 82)[1]);
    assert(tag(73, 69, 78, 68)[1] != tag(73, 68, 65, 84)[1]);
    assert(tag(112, 72, 89, 115)[0] != tag(73, 72, 68, 82)[0]);
    assert(tag(112, 72, 89, 115)[0] != tag(73, 68, 65, 84)[0]);
    assert(tag(112, 72, 89, 115)[0] != tag(73, 69, 78, 68)[0]);
    assert(tag(112, 72, 89, 115)[0] != tag(80, 76, 84, 69)[0]);
    assert(tag(112, 72, 89, 115)[0] != tag(116, 82, 78, 83)[0]);
    assert(tag(73, 68, 65, 84)[0] != tag(80, 76, 84, 69)[0]);
    assert(tag(73, 68, 65, 84)[0] != tag(116, 82, 78, 83)[0]);
    assert(tag(73, 69, 78, 68)[0] != tag(80, 76, 84, 69)[0]);
    assert(tag(73, 69, 78, 68)[0] != tag(116, 82, 78, 83)[0]);
    assert(tag(73, 72, 68, 82)[0] != tag(80, 76, 84, 69)[0]);
    assert(tag(73, 72, 68, 82)[0] != tag(116, 82, 78, 83)[0]);
    let t1 = tag(73, 72, 68, 82);
    let t2 = tag(73, 68, 65, 84);
    let t3 = tag(73, 69, 78, 68);
    let t4 = tag(112, 72, 89, 115);
    assert forall|i: int| 0 <= i < 4 implies is_upper(#[trigger] t1[i]) || is_lower(t1[i]) by {}
    assert forall|i: int| 0 <= i < 4 implies is_upper(#[trigger] t2[i]) || is_lower(t2[i]) by {}
    assert forall|i: int| 0 <= i < 4 implies is_upper(#[trigger] t3[i]) || is_lower(t3[i]) by {}
    assert forall|i: int| 0 <= i < 4 implies is_upper(#[trigger] t4[i]) || is_lower(t4[i]) by {}
}

/// The framing of the chunk at `pos`: length `d.len()`, type `t`, data `d`
/// and a matching CRC.
pub open spec fn chunk_framed(s: Seq<u8>, pos: nat, t: Seq<u8>, d: Seq<u8>) -> bool {
    &&& pos + 12 + d.len() <= s.len()
    &&& be32_at(s, pos as int) == d.len()
    &&& s.subrange(pos + 4int, pos + 8int) == t
    &&& s.subrange(pos + 8int, pos + 8 + d.len() as int) == d
    &&& be32_at(s, pos + 8 + d.len() as int) == spec_crc32(t + d)
}

/// An IDAT chunk after the header and before any chunk that ends the image
/// data appends its data.
#[verifier::spinoff_prover]
pub proof fn lemma_step_idat(s: Seq<u8>, pos: nat, d: Seq<u8>, st: PngChunks)
    requires
        chunk_framed(s, pos, tag(73, 68, 65, 84), d),
        st.ihdr is Some,
        !st.idat_ended,
    ensures
        png_step(s, pos, st) == Ok::<(nat, PngChunks), ErrorKind>(
            ((pos + 12 + d.len()) as nat, PngChunks { saw_idat: true, idat: st.idat + d, ..st }),
        ),
{
    lemma_tags();
}

/// The IHDR chunk first in the file records the header.
#[verifier::spinoff_prover]
pub proof fn lemma_step_ihdr(s: Seq<u8>, d: Seq<u8>, h: Ihdr)
    requires
        chunk_framed(s, 8, tag(73, 72, 68, 82), d),
        spec_parse_ihdr(d) == Ok::<Ihdr, ErrorKind>(h),
    ensures
        png_step(s, 8, chunks_start()) == Ok::<(nat, PngChunks), ErrorKind>(
            ((20 + d.len()) as nat, PngChunks { ihdr: Some(h), ..chunks_start() }),
        ),
{
    lemma_tags();
}

/// An empty IEND chunk after some image data ends the file.
#[verifier::spinoff_prover]
pub proof fn lemma_step_iend(s: Seq<u8>, pos: nat, st: PngChunks)
    requires
        chunk_framed(s, pos, tag(73, 69, 78, 68), Seq::<u8>::empty()),
        st.ihdr is Some,
        st.saw_idat,
    ensures
        png_step(s, pos, st) == Ok::<(nat, PngChunks), ErrorKind>(((pos + 12) as nat, PngChunks { saw_iend: true, ..st })),
{
    lemma_tags();
}

/// A pHYs chunk is ancillary: it is skipped, and it ends a run of IDAT
/// chunks.
#[verifier::spinoff_prover]
pub proof fn lemma_step_phys(s: Seq<u8>, pos: nat, d: Seq<u8>, st: PngChunks)
    requires
        chunk_framed(s, pos, tag(112, 72, 89, 115), d),
    ensures
        png_step(s, pos, st) == Ok::<(nat, PngChunks), ErrorKind>(
            ((pos + 12 + d.len()) as nat, PngChunks { idat_ended: st.idat_ended || st.saw_idat, ..st }),
        ),
{
    lemma_tags();
}

/// The chunk walk from `pos`, kept folded while a proof steps through a
/// file.
#[verifier::opaque]
pub open spec fn walk_from(s: Seq<u8>, pos: nat, st: PngChunks) -> core::result::Result<PngChunks, ErrorKind> {
    png_walk(s, pos, st)
}

/// One step of the walk: a chunk that the step accepts, before IEND, hands
/// the walk on to the position after it.
pub proof fn lemma_walk_step(s: Seq<u8>, pos: nat, st: PngChunks, next: nat, st2: PngChunks)
    requires
        pos < s.len(),
        !st.saw_iend,
        png_step(s, pos, st) == Ok::<(nat, PngChunks), ErrorKind>((next, st2)),
    ensures
        walk_from(s, pos, st) == walk_from(s, next, st2),
{
    reveal(walk_from);
}

/// The IDAT chunks holding `z`: the first chunk and the rest.
pub open spec fn idat_first(z: Seq<u8>, size: nat) -> Seq<u8> {
    if z.len() <= size {
        z
    } else {
        z.subrange(0, size as int)
    }
}

pub open spec fn idat_rest(z: Seq<u8>, size: nat) -> Seq<u8> {
    if z.len() <= size {
        Seq::<u8>::empty()
    } else {
        z.subrange(size as int, z.len() as int)
    }
}

/// What walking the IDAT chunks that hold `z` makes of the collected state.
pub open spec fn after_idat(st: PngChunks, z: Seq<u8>) -> PngChunks {
    PngChunks { idat: st.idat + z, saw_idat: st.saw_idat || z.len() > 0, ..st }
}

/// The IDAT chunks of non-empty data: the first chunk, then the rest.
pub proof fn lemma_idat_split(z: Seq<u8>, size: nat)
    requires
        z.len() > 0,
        size > 0,
    ensures
        idat_chunks(z, size) == png_chunk(tag(73, 68, 65, 84), idat_first(z, size)) + idat_chunks(idat_rest(z, size), size),
        idat_rest(z, size).len() < z.len(),
        idat_first(z, size).len() <= size,
        idat_first(z, size) + idat_rest(z, size) == z,
{
    assert(idat_chunks(Seq::<u8>::empty(), size) == Seq::<u8>::empty());
    if z.len() <= size {
        assert(png_chunk(tag(73, 68, 65, 84), z) + Seq::<u8>::empty() =~= png_chunk(tag(73, 68, 65, 84), z));
    }
    assert(idat_first(z, size) + idat_rest(z, size) =~= z);
}

/// The first IDAT chunk of `z`, then the walk over the rest.
#[verifier::spinoff_prover]
proof fn lemma_walk_idat_first(pre: Seq<u8>, z: Seq<u8>, size: nat, post: Seq<u8>, st: PngChunks)
    requires
        0 < size <= u32::MAX,
        z.len() > 0,
        st.ihdr is Some,
        !st.idat_ended,
        !st.saw_iend,
        post.len() > 0,
    ensures
        walk_from(pre + idat_chunks(z, size) + post, pre.len(), st) == walk_from(
            (pre + png_chunk(tag(73, 68, 65, 84), idat_first(z, size))) + idat_chunks(idat_rest(z, size), size) + post,
            (pre + png_chunk(tag(73, 68, 65, 84), idat_first(z, size))).len(),
            after_idat(st, idat_first(z, size)),
        ),
{
    let first = idat_first(z, size);
    let rest = idat_rest(z, size);
    let c = png_chunk(tag(73, 68, 65, 84), first);
    lemma_idat_split(z, size);
    let s = pre + idat_chunks(z, size) + post;
    assert(s =~= pre + c + (idat_chunks(rest, size) + post));
    assert(s =~= (pre + c) + idat_chunks(rest, size) + post);
    lemma_chunk_at(pre, tag(73, 68, 65, 84), first, idat_chunks(rest, size) + post);
    lemma_step_idat(s, pre.len(), first, st);
    lemma_walk_step(s, pre.len(), st, (pre.len() + 12 + first.len()) as nat, after_idat(st, first));
}

/// Walking the IDAT chunks that hold `z` appends `z` to the collected image
/// data and changes nothing else.
pub proof fn lemma_walk_idat(pre: Seq<u8>, z: Seq<u8>, size: nat, post: Seq<u8>, st: PngChunks)
    requires
        0 < size <= u32::MAX,
        st.ihdr is Some,
        !st.idat_ended,
        !st.saw_iend,
        post.len() > 0,
    ensures
        walk_from(pre + idat_chunks(z, size) + post, pre.len(), st) == walk_from(
            pre + idat_chunks(z, size) + post,
            pre.len() + idat_chunks(z, size).len(),
            after_idat(st, z),
        ),
    decreases z.len(),
{
    if z.len() == 0 {
        assert(st.idat + z =~= st.idat);
        assert(after_idat(st, z) == st);
    } else {
        let first = idat_first(z, size);
        let rest = idat_rest(z, size);
        let pre2 = pre + png_chunk(tag(73, 68, 65, 84), first);
        lemma_idat_split(z, size);
        lemma_walk_idat_first(pre, z, size, post, st);
        lemma_walk_idat(pre2, rest, size, post, after_idat(st, first));
        assert(pre2 + idat_chunks(rest, size) + post =~= pre + idat_chunks(z, size) + post);
        assert(after_idat(st, first).idat + rest =~= st.idat + z);
        assert(after_idat(after_idat(st, first), rest) == after_idat(st, z));
    }
}

/// The header the encoders write for an 8-bit image.
pub open spec fn written_ihdr(width: u32, height: u32, color_type: u8, interlace: u8) -> Ihdr {
    Ihdr {
        width,
        height,
        bit_depth: 8,
        color_type,
        compression_method: 0,
        filter_method: 0,
        interlace_method: interlace,
    }
}

/// The IHDR payload of an 8-bit non-interlaced direct-colour image parses
/// back to its fields.
pub proof fn lemma_ihdr_parses(width: u32, height: u32, color_type: u8)
    requires
        width > 0,
        height > 0,
        width * height <= MAX_PIXELS,
        color_type == 0 || color_type == 2 || color_type == 4 || color_type == 6,
    ensures
        ihdr_payload(width, height, color_type).len() == 13,
        spec_parse_ihdr(ihdr_payload(width, height, color_type)) == Ok::<Ihdr, ErrorKind>(
            written_ihdr(width, height, color_type, 0),
        ),
{
    let d = ihdr_payload(width, height, color_type);
    let bw = be4(width as nat);
    let bh = be4(height as nat);
    lemma_be4_reads_back(width as nat);
    lemma_be4_reads_back(height as nat);
    assert forall|k: int| 0 <= k < 4 implies d[k] == bw[k] && d[4 + k] == bh[k] by {}
    assert(be32_at(d, 0) == width);
    assert(be32_at(d, 4) == height);
}

/// The signature and a first IHDR chunk: the walk goes on after the header
/// with it recorded.
#[verifier::spinoff_prover]
#[verifier::rlimit(50)]
proof fn lemma_file_head(s: Seq<u8>, sig: Seq<u8>, p: Seq<u8>, h: Ihdr, rest: Seq<u8>)
    requires
        s == sig + png_chunk(tag(73, 72, 68, 82), p) + rest,
        sig.len() == 8,
        p.len() == 13,
        spec_parse_ihdr(p) == Ok::<Ihdr, ErrorKind>(h),
    ensures
        walk_from(s, 8, chunks_start()) == walk_from(s, 33, PngChunks { ihdr: Some(h), ..chunks_start() }),
{
    lemma_chunk_at(sig, tag(73, 72, 68, 82), p, rest);
    assert(chunk_framed(s, 8, tag(73, 72, 68, 82), p));
    lemma_walk_ihdr(s, p, h);
}

/// The walk over a framed IHDR chunk at the start of the file.
#[verifier::spinoff_prover]
proof fn lemma_walk_ihdr(s: Seq<u8>, p: Seq<u8>, h: Ihdr)
    requires
        chunk_framed(s, 8, tag(73, 72, 68, 82), p),
        p.len() == 13,
        spec_parse_ihdr(p) == Ok::<Ihdr, ErrorKind>(h),
    ensures
        walk_from(s, 8, chunks_start()) == walk_from(s, 33, PngChunks { ihdr: Some(h), ..chunks_start() }),
{
    lemma_step_ihdr(s, p, h);
    lemma_walk_step(s, 8, chunks_start(), 33, PngChunks { ihdr: Some(h), ..chunks_start() });
}

/// The signature, and the bit depth and interlace method of the header
/// where the decoder looks for them.
proof fn lemma_file_prefix(s: Seq<u8>, p: Seq<u8>, rest: Seq<u8>)
    requires
        s == png_signature() + png_chunk(tag(73, 72, 68, 82), p) + rest,
        p.len() == 13,
    ensures
        s.len() > 28,
        s.subrange(0, 8) == png_signature(),
        s[24] == p[8],
        s[28] == p[12],
{
    lemma_be4_reads_back(13);
    assert(s.subrange(0, 8) =~= png_signature());
}

/// An empty IEND chunk closing the file ends the walk.
#[verifier::spinoff_prover]
proof fn lemma_file_tail(s: Seq<u8>, pre: Seq<u8>, st: PngChunks)
    requires
        s == pre + png_chunk(tag(73, 69, 78, 68), Seq::<u8>::empty()),
        st.ihdr is Some,
        st.saw_idat,
        !st.saw_iend,
    ensures
        walk_from(s, pre.len(), st) == Ok::<PngChunks, ErrorKind>(PngChunks { saw_iend: true, ..st }),
{
    assert(s =~= pre + png_chunk(tag(73, 69, 78, 68), Seq::<u8>::empty()) + Seq::<u8>::empty());
    lemma_chunk_at(pre, tag(73, 69, 78, 68), Seq::<u8>::empty(), Seq::<u8>::empty());
    lemma_step_iend(s, pre.len(), st);
    let st3 = PngChunks { saw_iend: true, ..st };
    lemma_walk_step(s, pre.len(), st, s.len(), st3);
    assert(walk_from(s, s.len(), st3) == Ok::<PngChunks, ErrorKind>(st3)) by {
        reveal(walk_from);
    }
}

/// The chunks of a file written by `png_file` for an 8-bit non-interlaced
/// direct-colour image: its header, the compressed data `z` as the image
/// data, no palette and no transparency; the file goes to the 8-bit
/// non-interlaced decoder.
#[verifier::spinoff_prover]
#[verifier::rlimit(60)]
pub proof fn lemma_png_file_chunks(width: u32, height: u32, color_type: u8, z: Seq<u8>, size: nat)
    requires
        width > 0,
        height > 0,
        width * height <= MAX_PIXELS,
        color_type == 0 || color_type == 2 || color_type == 4 || color_type == 6,
        z.len() > 0,
        0 < size <= u32::MAX,
    ensures
        png_route(png_file(width, height, color_type, z, size)) == 0,
        spec_png_chunks(png_file(width, height, color_type, z, size)) == Ok::<(Ihdr, PngChunks), ErrorKind>(
            (
                written_ihdr(width, height, color_type, 0),
                PngChunks {
                    ihdr: Some(written_ihdr(width, height, color_type, 0)),
                    idat: z,
                    saw_idat: true,
                    idat_ended: false,
                    saw_iend: true,
                    palette: None,
                    trns: None,
                },
            ),
        ),
{
    let h = written_ihdr(width, height, color_type, 0);
    let sig = png_signature();
    let p = ihdr_payload(width, height, color_type);
    let c1 = png_chunk(tag(73, 72, 68, 82), p);
    let body = idat_chunks(z, size);
    let c3 = png_chunk(tag(73, 69, 78, 68), Seq::<u8>::empty());
    let s = png_file(width, height, color_type, z, size);
    lemma_ihdr_parses(width, height, color_type);
    assert(s =~= sig + c1 + (body + c3));
    lemma_file_head(s, sig, p, h, body + c3);
    lemma_file_prefix(s, p, body + c3);
    let st1 = PngChunks { ihdr: Some(h), ..chunks_start() };
    assert(s =~= (sig + c1) + body + c3);
    lemma_walk_idat(sig + c1, z, size, c3, st1);
    assert(Seq::<u8>::empty() + z =~= z);
    assert(s =~= (sig + c1 + body) + c3);
    lemma_file_tail(s, sig + c1 + body, after_idat(st1, z));
    assert(png_walk(s, 8, chunks_start()) == walk_from(s, 8, chunks_start())) by {
        reveal(walk_from);
    }
}

/// The filter type a row gets is one of the five PNG filters.
pub proof fn lemma_row_filter_bound(fixed: Option<u8>, raw: Seq<u8>, prev: Seq<u8>, bpp: nat)
    requires
        fixed matches Some(f) ==> f <= 4,
    ensures
        row_filter(fixed, raw, prev, bpp) <= 4,
{
    lemma_best_filter_bound(raw, prev, bpp, 4);
}

/// Filtered scanlines hold a filter byte and `stride` bytes per row.
pub proof fn lemma_scanlines_len(data: Seq<u8>, rows: nat, stride: nat, bpp: nat, fixed: Option<u8>)
    requires
        rows * stride <= data.len(),
    ensures
        scanlines_spec(data, rows, stride, bpp, fixed).len() == rows * (stride + 1),
    decreases rows,
{
    if rows > 0 {
        let r = (rows - 1) as nat;
        assert(r * stride + stride == rows * stride && r * (stride + 1) + stride + 1 == rows * (stride + 1)) by (nonlinear_arith)
            requires r == rows - 1;
        lemma_scanlines_len(data, r, stride, bpp, fixed);
        assert(r * stride >= 0) by (nonlinear_arith)
            requires r >= 0;
        let row = image_row(data, r as int, stride);
        let prev = if r == 0 {
            Seq::new(stride, |_i: int| 0u8)
        } else {
            image_row(data, r - 1, stride)
        };
        let fl = row_filter(fixed, row, prev, bpp);
        assert(row.len() == stride);
        assert(filter_spec(fl, row, prev, bpp).len() == stride);
        assert(scanlines_spec(data, rows, stride, bpp, fixed) == scanlines_spec(data, r, stride, bpp, fixed) + seq![fl]
            + filter_spec(fl, row, prev, bpp));
    } else {
        assert(rows * (stride + 1) == 0) by (nonlinear_arith)
            requires rows == 0;
    }
}

/// The row above row `r` as the encoder sees it: zeros above the first.
pub open spec fn row_above(data: Seq<u8>, r: int, stride: nat) -> Seq<u8> {
    if r == 0 {
        Seq::new(stride, |_i: int| 0u8)
    } else {
        image_row(data, r - 1, stride)
    }
}

/// What the encoder stored for the last of `k` rows, read back out of the
/// scanlines: the rows before it, its filter byte and its filtered bytes.
#[verifier::spinoff_prover]
proof fn lemma_scanlines_last(data: Seq<u8>, k: nat, stride: nat, bpp: nat, fixed: Option<u8>, f: Seq<u8>)
    requires
        k > 0,
        k * stride <= data.len(),
        f.len() >= k * (stride + 1),
        f.subrange(0, (k * (stride + 1)) as int) == scanlines_spec(data, k, stride, bpp, fixed),
    ensures
        ({
            let r = k - 1;
            let start = r * (stride + 1);
            let row = image_row(data, r, stride);
            let fl = row_filter(fixed, row, row_above(data, r, stride), bpp);
            &&& r * stride + stride == k * stride
            &&& 0 <= start
            &&& start + stride + 1 == k * (stride + 1)
            &&& f.subrange(0, start) == scanlines_spec(data, r as nat, stride, bpp, fixed)
            &&& f[start] == fl
            &&& f.subrange(start + 1, start + 1 + stride) == filter_spec(fl, row, row_above(data, r, stride), bpp)
        }),
{
    let r = (k - 1) as nat;
    let start = r * (stride + 1);
    assert(r * stride + stride == k * stride && start + stride + 1 == k * (stride + 1) && r * stride >= 0 && start >= 0)
        by (nonlinear_arith)
        requires r == k - 1, start == r * (stride + 1);
    lemma_scanlines_len(data, r, stride, bpp, fixed);
    let head = scanlines_spec(data, r, stride, bpp, fixed);
    let row = image_row(data, r as int, stride);
    let prev = row_above(data, r as int, stride);
    let fl = row_filter(fixed, row, prev, bpp);
    let whole = scanlines_spec(data, k, stride, bpp, fixed);
    let fk = f.subrange(0, (k * (stride + 1)) as int);
    assert(whole == head + seq![fl] + filter_spec(fl, row, prev, bpp));
    assert(f.subrange(0, start as int) =~= head) by {
        assert forall|i: int| 0 <= i < start implies f.subrange(0, start as int)[i] == head[i] by {
            assert(fk[i] == whole[i]);
        }
    }
    assert(f[start as int] == fl) by {
        assert(fk[start as int] == whole[start as int]);
    }
    let stored = f.subrange(start + 1int, start + 1 + stride as int);
    assert(stored =~= filter_spec(fl, row, prev, bpp)) by {
        assert forall|i: int| 0 <= i < stride implies stored[i] == filter_spec(fl, row, prev, bpp)[i] by {
            assert(fk[start + 1 + i] == whole[start + 1 + i]);
        }
    }
}

/// Reconstructing the last of `k` rows once the rows before it are back.
#[verifier::spinoff_prover]
proof fn lemma_unfilter_last(data: Seq<u8>, k: nat, stride: nat, bpp: nat, fixed: Option<u8>, f: Seq<u8>)
    requires
        bpp >= 1,
        fixed matches Some(x) ==> x <= 4,
        k > 0,
        k * stride <= data.len(),
        ({
            let r = k - 1;
            let start = r * (stride + 1);
            let row = image_row(data, r, stride);
            let fl = row_filter(fixed, row, row_above(data, r, stride), bpp);
            &&& r * stride + stride == k * stride
            &&& 0 <= start
            &&& start + stride + 1 == k * (stride + 1)
            &&& f.len() >= k * (stride + 1)
            &&& f[start] == fl
            &&& f.subrange(start + 1, start + 1 + stride) == filter_spec(fl, row, row_above(data, r, stride), bpp)
        }),
        unfilter_rows(f, (k - 1) as nat, stride, bpp) == Ok::<Seq<u8>, ErrorKind>(data.subrange(0, (k - 1) * stride)),
    ensures
        unfilter_rows(f, k, stride, bpp) == Ok::<Seq<u8>, ErrorKind>(data.subrange(0, (k * stride) as int)),
{
    let r = (k - 1) as nat;
    let start = r * (stride + 1);
    let row = image_row(data, r as int, stride);
    let prev = row_above(data, r as int, stride);
    let fl = row_filter(fixed, row, prev, bpp);
    let done = data.subrange(0, (r * stride) as int);
    assert(r * stride >= 0) by (nonlinear_arith)
        requires r >= 0;
    let uprev = if r == 0 {
        Seq::new(stride, |_i: int| 0u8)
    } else {
        done.subrange((r - 1) * stride, (r * stride) as int)
    };
    if r > 0 {
        assert((r - 1) * stride + stride == r * stride && (r - 1) * stride >= 0) by (nonlinear_arith)
            requires r >= 1;
        assert(uprev =~= prev);
    }
    lemma_row_filter_bound(fixed, row, prev, bpp);
    lemma_unfilter_inverts_filter(fl, row, prev, bpp);
    assert(done + row =~= data.subrange(0, (k * stride) as int));
}

/// Reconstructing rows that the encoder filtered, whatever filter each row
/// got, gives the raster back.
pub proof fn lemma_unfilter_scanlines(data: Seq<u8>, k: nat, stride: nat, bpp: nat, fixed: Option<u8>, f: Seq<u8>)
    requires
        bpp >= 1,
        fixed matches Some(x) ==> x <= 4,
        k * stride <= data.len(),
        f.len() >= k * (stride + 1),
        f.subrange(0, (k * (stride + 1)) as int) == scanlines_spec(data, k, stride, bpp, fixed),
    ensures
        unfilter_rows(f, k, stride, bpp) == Ok::<Seq<u8>, ErrorKind>(data.subrange(0, (k * stride) as int)),
    decreases k,
{
    if k == 0 {
        assert(k * stride == 0) by (nonlinear_arith)
            requires k == 0;
        assert(data.subrange(0, 0) =~= Seq::<u8>::empty());
    } else {
        lemma_scanlines_last(data, k, stride, bpp, fixed, f);
        lemma_unfilter_scanlines(data, (k - 1) as nat, stride, bpp, fixed, f);
        lemma_unfilter_last(data, k, stride, bpp, fixed, f);
    }
}

/// The rows behind filter byte 0 are the scanlines filtered with type 0.
pub proof fn lemma_unfiltered_is_none_filter(data: Seq<u8>, rows: nat, stride: nat, bpp: nat)
    requires
        rows * stride <= data.len(),
    ensures
        unfiltered_scanlines(data, rows, stride) == scanlines_spec(data, rows, stride, bpp, Some(0u8)),
    decreases rows,
{
    if rows > 0 {
        let r = (rows - 1) as nat;
        assert(r * stride + stride == rows * stride && r * stride >= 0) by (nonlinear_arith)
            requires r == rows - 1;
        lemma_unfiltered_is_none_filter(data, r, stride, bpp);
        let row = image_row(data, r as int, stride);
        let prev = if r == 0 {
            Seq::new(stride, |_i: int| 0u8)
        } else {
            image_row(data, r - 1, stride)
        };
        assert(filter_spec(0, row, prev, bpp) =~= row);
        assert(data.subrange((r * stride) as int, (r * stride + stride) as int) == row);
    }
}

/// The chunks an 8-bit non-interlaced direct-colour file ends up with: its
/// header, the image data `z`, no palette, no transparency.
pub open spec fn written_chunks(width: u32, height: u32, color_type: u8, z: Seq<u8>) -> PngChunks {
    PngChunks {
        ihdr: Some(written_ihdr(width, height, color_type, 0)),
        idat: z,
        saw_idat: true,
        idat_ended: false,
        saw_iend: true,
        palette: None,
        trns: None,
    }
}

/// A file with such chunks, going to the 8-bit non-interlaced decoder, whose
/// image data decompresses to scanlines the encoder filtered, decodes to the
/// frame they came from.
#[verifier::spinoff_prover]
#[verifier::rlimit(40)]
pub proof fn lemma_chunks_decode(s: Seq<u8>, frame: VideoFrame, fixed: Option<u8>, z: Seq<u8>)
    requires
        frame.wf(),
        fixed matches Some(x) ==> x <= 4,
        png_route(s) == 0,
        spec_png_chunks(s) == Ok::<(Ihdr, PngChunks), ErrorKind>(
            (
                written_ihdr(frame.width, frame.height, format_color_type(frame.format), 0),
                written_chunks(frame.width, frame.height, format_color_type(frame.format), z),
            ),
        ),
        spec_decompress(z, (frame.height * (frame.linesize + 1)) as nat) == Ok::<Seq<u8>, ErrorKind>(
            scanlines_spec(frame.data@, frame.height as nat, frame.linesize as nat, spec_bpp(frame.format), fixed),
        ),
    ensures
        spec_decode_png(s) == Ok::<(u32, u32, PixelFormat, Seq<u8>), ErrorKind>(
            (frame.width, frame.height, frame.format, frame.data@),
        ),
{
    let ct = format_color_type(frame.format);
    let h = written_ihdr(frame.width, frame.height, ct, 0);
    let bpp = spec_bpp(frame.format);
    let rows = frame.height as nat;
    let stride = frame.linesize as nat;
    let data = frame.data@;
    let filtered = scanlines_spec(data, rows, stride, bpp, fixed);
    assert(rows * stride <= data.len()) by (nonlinear_arith)
        requires data.len() == stride * rows;
    lemma_scanlines_len(data, rows, stride, bpp, fixed);
    assert(color_bpp(ct) == bpp);
    assert(color_format(ct) == frame.format);
    assert(frame.width * color_bpp(ct) == stride);
    assert(spec_filtered_size(h) == rows * (stride + 1)) by (nonlinear_arith)
        requires spec_filtered_size(h) == (stride + 1) * rows;
    assert(filtered.subrange(0, filtered.len() as int) =~= filtered);
    lemma_unfilter_scanlines(data, rows, stride, bpp, fixed, filtered);
    assert(data.subrange(0, (rows * stride) as int) =~= data) by {
        assert(rows * stride == data.len()) by (nonlinear_arith)
            requires data.len() == stride * rows;
    }
    assert(filtered.len() == (stride + 1) * rows) by (nonlinear_arith)
        requires filtered.len() == rows * (stride + 1);
    assert(spec_reconstruct(h, filtered, None, None) == Ok::<(PixelFormat, Seq<u8>), ErrorKind>((frame.format, data)));
}

/// An 8-bit non-interlaced PNG that `png_file` writes around image data
/// that decompresses to scanlines the encoder filtered (with a fixed filter
/// type, or per row the cheapest) decodes to the frame they came from.
pub proof fn lemma_png_file_decodes(frame: VideoFrame, fixed: Option<u8>, z: Seq<u8>, size: nat)
    requires
        frame.wf(),
        frame.width * frame.height <= MAX_PIXELS,
        fixed matches Some(x) ==> x <= 4,
        0 < size <= u32::MAX,
        spec_decompress(z, (frame.height * (frame.linesize + 1)) as nat) == Ok::<Seq<u8>, ErrorKind>(
            scanlines_spec(frame.data@, frame.height as nat, frame.linesize as nat, spec_bpp(frame.format), fixed),
        ),
    ensures
        spec_decode_png(png_file(frame.width, frame.height, format_color_type(frame.format), z, size)) == Ok::<
            (u32, u32, PixelFormat, Seq<u8>),
            ErrorKind,
        >((frame.width, frame.height, frame.format, frame.data@)),
{
    assert(z.len() >= 6);
    lemma_png_file_chunks(frame.width, frame.height, format_color_type(frame.format), z, size);
    lemma_chunks_decode(png_file(frame.width, frame.height, format_color_type(frame.format), z, size), frame, fixed, z);
}

/// The chunks of a file with a pHYs chunk between the header and the image
/// data: the same as without it.
#[verifier::spinoff_prover]
#[verifier::rlimit(60)]
pub proof fn lemma_phys_file_chunks(width: u32, height: u32, color_type: u8, phys: Seq<u8>, z: Seq<u8>, size: nat)
    requires
        width > 0,
        height > 0,
        width * height <= MAX_PIXELS,
        color_type == 0 || color_type == 2 || color_type == 4 || color_type == 6,
        phys.len() <= u32::MAX,
        z.len() > 0,
        0 < size <= u32::MAX,
    ensures
        ({
            let s = png_signature() + png_chunk(tag(73, 72, 68, 82), ihdr_payload(width, height, color_type)) + png_chunk(
                tag(112, 72, 89, 115),
                phys,
            ) + idat_chunks(z, size) + png_chunk(tag(73, 69, 78, 68), Seq::<u8>::empty());
            &&& png_route(s) == 0
            &&& spec_png_chunks(s) == Ok::<(Ihdr, PngChunks), ErrorKind>(
                (written_ihdr(width, height, color_type, 0), written_chunks(width, height, color_type, z)),
            )
        }),
{
    let h = written_ihdr(width, height, color_type, 0);
    let sig = png_signature();
    let p = ihdr_payload(width, height, color_type);
    let c1 = png_chunk(tag(73, 72, 68, 82), p);
    let cp = png_chunk(tag(112, 72, 89, 115), phys);
    let body = idat_chunks(z, size);
    let c3 = png_chunk(tag(73, 69, 78, 68), Seq::<u8>::empty());
    let s = sig + c1 + cp + body + c3;
    lemma_ihdr_parses(width, height, color_type);
    assert(s =~= sig + c1 + (cp + body + c3));
    lemma_file_head(s, sig, p, h, cp + body + c3);
    lemma_file_prefix(s, p, cp + body + c3);
    let st1 = PngChunks { ihdr: Some(h), ..chunks_start() };
    assert(s =~= (sig + c1) + cp + (body + c3));
    lemma_walk_phys(s, sig + c1, phys, body + c3, st1);
    assert(s =~= (sig + c1 + cp) + body + c3);
    lemma_walk_idat(sig + c1 + cp, z, size, c3, st1);
    assert(Seq::<u8>::empty() + z =~= z);
    assert(s =~= (sig + c1 + cp + body) + c3);
    lemma_file_tail(s, sig + c1 + cp + body, after_idat(st1, z));
    assert(png_walk(s, 8, chunks_start()) == walk_from(s, 8, chunks_start())) by {
        reveal(walk_from);
    }
}

/// The walk over a pHYs chunk before any image data.
#[verifier::spinoff_prover]
proof fn lemma_walk_phys(s: Seq<u8>, pre: Seq<u8>, phys: Seq<u8>, post: Seq<u8>, st: PngChunks)
    requires
        s == pre + png_chunk(tag(112, 72, 89, 115), phys) + post,
        phys.len() <= u32::MAX,
        post.len() > 0,
        !st.saw_idat,
        !st.saw_iend,
    ensures
        walk_from(s, pre.len(), st) == walk_from(s, pre.len() + 12 + phys.len(), st),
{
    lemma_chunk_at(pre, tag(112, 72, 89, 115), phys, post);
    lemma_step_phys(s, pre.len(), phys, st);
    assert(PngChunks { idat_ended: st.idat_ended || st.saw_idat, ..st } == st);
    lemma_walk_step(s, pre.len(), st, (pre.len() + 12 + phys.len()) as nat, st);
}

} // verus!

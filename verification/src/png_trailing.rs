use vstd::prelude::*;

use crate::error::ErrorKind;
use crate::png::{lemma_step_advances, png_route, png_step, png_walk, spec_decode_png, spec_png_chunks, PngChunks};
use crate::png_adam7::{adam7_step, adam7_walk, lemma_adam7_step_advances, spec_adam7_chunks, spec_decode_png_with, Adam7Chunks};

verus! {

/// A chunk that reads whole inside `s` reads the same with bytes after `s`.
#[verifier::spinoff_prover]
proof fn lemma_step_prefix(s: Seq<u8>, e: Seq<u8>, pos: nat, st: PngChunks)
    requires
        png_step(s, pos, st) is Ok,
    ensures
        png_step(s + e, pos, st) == png_step(s, pos, st),
{
    let t = s + e;
    let len = crate::bytes_util::be32_at(s, pos as int);
    let data_end = pos + 8 + len;
    assert(pos + 8 <= s.len());
    assert(crate::bytes_util::be32_at(t, pos as int) == len);
    assert(t.subrange(pos + 4int, pos + 8int) =~= s.subrange(pos + 4int, pos + 8int));
    if data_end + 4 <= s.len() {
        assert(t.subrange(pos + 8int, data_end as int) =~= s.subrange(pos + 8int, data_end as int));
        assert(crate::bytes_util::be32_at(t, data_end as int) == crate::bytes_util::be32_at(s, data_end as int));
    }
}

/// The same for the interlaced walker's chunks.
#[verifier::spinoff_prover]
proof fn lemma_step7_prefix(s: Seq<u8>, e: Seq<u8>, pos: nat, st: Adam7Chunks, il: u8)
    requires
        adam7_step(s, pos, st, il) is Ok,
    ensures
        adam7_step(s + e, pos, st, il) == adam7_step(s, pos, st, il),
{
    let t = s + e;
    let len = crate::bytes_util::be32_at(s, pos as int);
    let data_end = pos + 8 + len;
    assert(pos + 8 <= s.len());
    assert(crate::bytes_util::be32_at(t, pos as int) == len);
    assert(t.subrange(pos + 4int, pos + 8int) =~= s.subrange(pos + 4int, pos + 8int));
    if data_end + 4 <= s.len() {
        assert(t.subrange(pos + 8int, data_end as int) =~= s.subrange(pos + 8int, data_end as int));
        assert(crate::bytes_util::be32_at(t, data_end as int) == crate::bytes_util::be32_at(s, data_end as int));
    }
}

/// A walk that ends at IEND at the end of `s` fails once bytes follow.
proof fn lemma_walk_trailing(s: Seq<u8>, e: Seq<u8>, pos: nat, st: PngChunks)
    requires
        pos <= s.len(),
        e.len() > 0,
        png_walk(s, pos, st) matches Ok(f) && f.saw_iend,
    ensures
        png_walk(s + e, pos, st) is Err,
    decreases s.len() - pos,
{
    if pos < s.len() {
        lemma_step_advances(s, pos, st);
        let (next, st2) = png_step(s, pos, st)->Ok_0;
        lemma_step_prefix(s, e, pos, st);
        lemma_walk_trailing(s, e, next, st2);
    }
}

proof fn lemma_walk7_trailing(s: Seq<u8>, e: Seq<u8>, pos: nat, st: Adam7Chunks, il: u8)
    requires
        pos <= s.len(),
        e.len() > 0,
        adam7_walk(s, pos, st, il) matches Ok(f) && f.saw_iend,
    ensures
        adam7_walk(s + e, pos, st, il) is Err,
    decreases s.len() - pos,
{
    if pos < s.len() {
        lemma_adam7_step_advances(s, pos, st, il);
        let (next, st2) = adam7_step(s, pos, st, il)->Ok_0;
        lemma_step7_prefix(s, e, pos, st, il);
        lemma_walk7_trailing(s, e, next, st2, il);
    }
}

/// An accepted file holds at least the signature and a whole IHDR chunk.
proof fn lemma_walk_finds_header(s: Seq<u8>, pos: nat, st: PngChunks)
    requires
        pos >= 8,
        st.ihdr is None,
        png_walk(s, pos, st) matches Ok(f) && f.ihdr is Some,
    ensures
        pos == 8,
        s.len() >= 33,
    decreases s.len() - pos,
{
    if pos < s.len() && !st.saw_iend {
        lemma_step_advances(s, pos, st);
        let (next, st2) = png_step(s, pos, st)->Ok_0;
        if st2.ihdr is None {
            lemma_walk_finds_header(s, next, st2);
        }
    }
}

proof fn lemma_walk7_finds_header(s: Seq<u8>, pos: nat, st: Adam7Chunks, il: u8)
    requires
        pos >= 8,
        st.header is None,
        adam7_walk(s, pos, st, il) matches Ok(f) && f.header is Some,
    ensures
        pos == 8,
        s.len() >= 33,
    decreases s.len() - pos,
{
    if pos < s.len() && !st.saw_iend {
        lemma_adam7_step_advances(s, pos, st, il);
        let (next, st2) = adam7_step(s, pos, st, il)->Ok_0;
        if st2.header is None {
            lemma_walk7_finds_header(s, next, st2, il);
        }
    }
}

/// The 8-bit non-interlaced decoder refuses bytes after IEND.
#[verifier::spinoff_prover]
proof fn lemma_flat_trailing(s: Seq<u8>, e: Seq<u8>)
    requires
        spec_png_chunks(s) is Ok,
        e.len() > 0,
    ensures
        spec_png_chunks(s + e) is Err,
        s.len() > 28,
{
    let t = s + e;
    assert(t.subrange(0, 8) =~= s.subrange(0, 8));
    lemma_walk_trailing(s, e, 8, crate::png::chunks_start());
    lemma_walk_finds_header(s, 8, crate::png::chunks_start());
}

/// The interlaced and other-depth decoder refuses bytes after IEND.
#[verifier::spinoff_prover]
proof fn lemma_adam7_trailing(s: Seq<u8>, e: Seq<u8>, il: u8)
    requires
        spec_adam7_chunks(s, il) is Ok,
        e.len() > 0,
    ensures
        spec_adam7_chunks(s + e, il) is Err,
        s.len() > 28,
{
    let t = s + e;
    assert(t.subrange(0, 8) =~= s.subrange(0, 8));
    lemma_walk7_trailing(s, e, 8, crate::png_adam7::adam7_start(), il);
    lemma_walk7_finds_header(s, 8, crate::png_adam7::adam7_start(), il);
}

/// Nothing may follow IEND: bytes appended to a PNG file that `decode_png`
/// accepts make it refuse the file.
#[verifier::spinoff_prover]
pub proof fn lemma_trailing_bytes_rejected(s: Seq<u8>, e: Seq<u8>)
    requires
        spec_decode_png(s) is Ok,
        e.len() > 0,
    ensures
        spec_decode_png(s + e) is Err,
{
    let t = s + e;
    if png_route(s) != 0 {
        let il: u8 = if png_route(s) == 1 { 1 } else { 0 };
        assert(spec_adam7_chunks(s, il) is Ok);
        lemma_adam7_trailing(s, e, il);
        assert(t[24] == s[24] && t[28] == s[28]);
        assert(png_route(t) == png_route(s));
        assert(spec_decode_png_with(t, il) is Err);
    } else {
        assert(spec_png_chunks(s) is Ok);
        lemma_flat_trailing(s, e);
        assert(t[24] == s[24] && t[28] == s[28]);
        assert(png_route(t) == 0);
    }
}

} // verus!

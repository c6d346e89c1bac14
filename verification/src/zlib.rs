use vstd::prelude::*;

use crate::byteio::{be_bytes, be_value};
use crate::bytes_util::push_slice;
use crate::checksum::{adler32, spec_adler32};
use crate::deflate_encode::{compress_fixed, empty_table, fixed_block_bits, fixed_block_encodes, greedy_parse, lz_expand, packed_lsb, tokens_valid, LzToken};
use crate::deflate_level::{chain_parse, compress_fixed_level, empty_chains, spec_search_limit};
use crate::error::{ErrorKind, MediaError, Result};
use crate::inflate::{
    align_up, block_spec, capacity_error, inflate, inflate_walk, lsb_bit, lsb_bits, read_field, spec_inflate, stored_block, take_bytes,
};

verus! {

pub const MAX_STORED_BLOCK: usize = 65535;

/// Whether the two header bytes form a zlib header this library accepts,
/// and otherwise which error it reports.
pub open spec fn zlib_header_error(cmf: u8, flg: u8) -> Option<ErrorKind> {
    if cmf % 16 != 8 {
        Some(ErrorKind::Unsupported)
    } else if cmf / 16 > 7 {
        Some(ErrorKind::InvalidData)
    } else if (cmf * 256 + flg) % 31 != 0 {
        Some(ErrorKind::InvalidData)
    } else if flg & 0x20 != 0 {
        Some(ErrorKind::Unsupported)
    } else {
        None
    }
}

/// What decompressing a zlib stream gives: the header is checked, the
/// DEFLATE data between it and the trailer is inflated within `limit`
/// bytes, and the trailer must be the output's Adler-32.
pub open spec fn spec_decompress(s: Seq<u8>, limit: nat) -> core::result::Result<Seq<u8>, ErrorKind> {
    if s.len() < 6 {
        Err(ErrorKind::InvalidData)
    } else {
        match zlib_header_error(s[0], s[1]) {
            Some(k) => Err(k),
            None => match spec_inflate(s.subrange(2, s.len() - 4), limit) {
                Err(k) => Err(k),
                Ok(out) => if spec_adler32(out) != be_value(s.subrange(s.len() - 4, s.len() as int)) {
                    Err(ErrorKind::InvalidData)
                } else {
                    Ok(out)
                },
            },
        }
    }
}

/// Decompresses an RFC 1950 zlib stream with an explicit uncompressed-size
/// bound; preset dictionaries are rejected.
#[verifier::spinoff_prover]
pub fn decompress(bytes: &[u8], output_limit: usize) -> (r: Result<Vec<u8>>)
    ensures
        bytes@.len() < 6 ==> r is Err && r->Err_0@ == ErrorKind::InvalidData,
        bytes@.len() >= 6 && zlib_header_error(bytes@[0], bytes@[1]) is Some ==> r is Err
            && r->Err_0@ == zlib_header_error(bytes@[0], bytes@[1])->Some_0,
        match r {
            Ok(out) => {
                &&& bytes@.len() >= 6
                &&& zlib_header_error(bytes@[0], bytes@[1]) is None
                &&& out@.len() <= output_limit
                &&& spec_adler32(out@) == be_value(bytes@.subrange(bytes@.len() - 4, bytes@.len() as int))
                &&& spec_decompress(bytes@, output_limit as nat) == Ok::<Seq<u8>, ErrorKind>(out@)
            },
            Err(e) => spec_decompress(bytes@, output_limit as nat) == Err::<Seq<u8>, ErrorKind>(e@),
        },
{
    if bytes.len() < 6 {
        return Err(MediaError::invalid_data("zlib stream is shorter than header plus Adler-32 trailer"));
    }
    let cmf = bytes[0];
    let flg = bytes[1];
    if cmf & 0x0F != 8 {
        assert(cmf & 0x0F == cmf % 16) by (bit_vector);
        return Err(MediaError::unsupported("zlib compression method is not DEFLATE"));
    }
    assert(cmf & 0x0F == cmf % 16) by (bit_vector);
    if cmf >> 4u8 > 7 {
        assert(cmf >> 4u8 == cmf / 16) by (bit_vector);
        return Err(MediaError::invalid_data("zlib window size exceeds the RFC 1950 maximum"));
    }
    assert(cmf >> 4u8 == cmf / 16) by (bit_vector);
    if ((cmf as u16) * 256 + flg as u16) % 31 != 0 {
        return Err(MediaError::invalid_data("zlib FCHECK validation failed"));
    }
    if flg & 0x20 != 0 {
        return Err(MediaError::unsupported("zlib preset dictionaries are not implemented yet"));
    }
    let payload_end = bytes.len() - 4;
    let payload = vstd::slice::slice_subrange(bytes, 2, payload_end);
    let output = inflate(payload, output_limit)?;
    let expected = (bytes[payload_end] as u32) * 16777216 + (bytes[payload_end + 1] as u32) * 65536
        + (bytes[payload_end + 2] as u32) * 256 + bytes[payload_end + 3] as u32;
    proof {
        let t = bytes@.subrange(bytes@.len() - 4, bytes@.len() as int);
        reveal_with_fuel(be_value, 5);
        assert(t.drop_last().drop_last().drop_last().drop_last() =~= Seq::<u8>::empty());
        assert(t.drop_last().drop_last().drop_last() =~= seq![t[0]]);
        assert(t.drop_last().drop_last() =~= seq![t[0], t[1]]);
        assert(t.drop_last() =~= seq![t[0], t[1], t[2]]);
    }
    let actual = adler32(output.as_slice());
    if actual != expected {
        return Err(MediaError::invalid_data("zlib Adler-32 mismatch"));
    }
    Ok(output)
}

/// The stored-block (BTYPE 00) DEFLATE encoding of `s`: blocks of at most
/// 65535 bytes, the last one marked final; empty input gives one empty block.
pub open spec fn stored_blocks(s: Seq<u8>) -> Seq<u8>
    decreases s.len(),
{
    if s.len() <= 65535 {
        seq![1u8] + crate::byteio::le_bytes(s.len(), 2) + crate::byteio::le_bytes(
            (65535 - s.len()) as nat,
            2,
        ) + s
    } else {
        seq![0u8, 0xFFu8, 0xFFu8, 0u8, 0u8] + s.subrange(0, 65535) + stored_blocks(
            s.subrange(65535, s.len() as int),
        )
    }
}

/// The zlib stream of `s` made of stored blocks: header `78 01`, the blocks,
/// then the big-endian Adler-32 of `s`.
pub open spec fn spec_compress_stored(s: Seq<u8>) -> Seq<u8> {
    seq![0x78u8, 0x01u8] + stored_blocks(s) + be_bytes(spec_adler32(s), 4)
}

fn push_le16(out: &mut Vec<u8>, v: u16)
    ensures
        final(out)@ == old(out)@ + crate::byteio::le_bytes(v as nat, 2),
{
    out.push((v % 256) as u8);
    out.push((v / 256) as u8);
    proof {
        reveal_with_fuel(crate::byteio::le_bytes, 3);
        assert(((v / 256) as nat) / 256 == 0);
        assert(final(out)@ =~= old(out)@ + crate::byteio::le_bytes(v as nat, 2));
    }
}

fn push_be32(out: &mut Vec<u8>, v: u32)
    ensures
        final(out)@ == old(out)@ + be_bytes(v as nat, 4),
{
    let b0 = (v / 16777216) as u8;
    let b1 = ((v / 65536) % 256) as u8;
    let b2 = ((v / 256) % 256) as u8;
    let b3 = (v % 256) as u8;
    out.push(b0);
    out.push(b1);
    out.push(b2);
    out.push(b3);
    proof {
        reveal_with_fuel(be_bytes, 5);
        let x = v as nat;
        assert(x / 256 / 256 == x / 65536) by {
            vstd::arithmetic::div_mod::lemma_div_denominator(x as int, 256, 256);
        }
        assert(x / 256 / 256 / 256 == x / 16777216) by {
            vstd::arithmetic::div_mod::lemma_div_denominator(x as int, 65536, 256);
        }
        assert(x / 16777216 < 256);
        assert(final(out)@ =~= old(out)@ + be_bytes(v as nat, 4));
    }
}

/// Encodes `bytes` as a zlib stream of stored DEFLATE blocks.
pub fn compress_stored(bytes: &[u8]) -> (r: Result<Vec<u8>>)
    ensures
        match r {
            Ok(out) => out@ == spec_compress_stored(bytes@),
            Err(_) => false,
        },
{
    let mut out: Vec<u8> = Vec::new();
    out.push(0x78);
    out.push(0x01);
    let mut start: usize = 0;
    let n = bytes.len();
    let ghost header = out@;
    assert(bytes@.subrange(0, n as int) =~= bytes@);
    loop
        invariant_except_break
            n == bytes@.len(),
            start <= n,
            out@ + stored_blocks(bytes@.subrange(start as int, n as int)) == header + stored_blocks(
                bytes@,
            ),
        invariant
            header == seq![0x78u8, 0x01u8],
        ensures
            out@ == header + stored_blocks(bytes@),
        decreases n - start,
    {
        let remaining = n - start;
        let ghost rest = bytes@.subrange(start as int, n as int);
        if remaining <= MAX_STORED_BLOCK {
            let ghost before = out@;
            out.push(1);
            push_le16(&mut out, remaining as u16);
            push_le16(&mut out, (MAX_STORED_BLOCK - remaining) as u16);
            push_slice(&mut out, vstd::slice::slice_subrange(bytes, start, n));
            assert(out@ =~= before + stored_blocks(rest));
            assert(out@ =~= header + stored_blocks(bytes@));
            break;
        }
        let ghost before = out@;
        out.push(0);
        out.push(0xFF);
        out.push(0xFF);
        out.push(0);
        out.push(0);
        push_slice(&mut out, vstd::slice::slice_subrange(bytes, start, start + MAX_STORED_BLOCK));
        proof {
            assert(rest.subrange(0, 65535) =~= bytes@.subrange(start as int, start + 65535));
            assert(rest.subrange(65535, rest.len() as int) =~= bytes@.subrange(
                start + 65535,
                n as int,
            ));
            assert(out@ + stored_blocks(bytes@.subrange(start + 65535, n as int)) =~= before
                + stored_blocks(rest));
        }
        start = start + MAX_STORED_BLOCK;
    }
    push_be32(&mut out, adler32(bytes));
    Ok(out)
}

/// Encodes an RFC 1950 zlib stream around the fixed-Huffman greedy DEFLATE
/// encoder: header `78 5E`, the DEFLATE data, the big-endian Adler-32.
pub fn compress(bytes: &[u8]) -> (r: Result<Vec<u8>>)
    ensures
        match r {
            Ok(out) => {
                &&& out@.len() >= 6
                &&& out@[0] == 0x78 && out@[1] == 0x5E
                &&& fixed_block_encodes(out@.subrange(2, out@.len() - 4), bytes@)
                &&& out@.subrange(out@.len() - 4, out@.len() as int) == be_bytes(spec_adler32(bytes@), 4)
            },
            Err(e) => e@ == ErrorKind::Overflow,
        },
        bytes@.len() <= (usize::MAX - 9) / 2 ==> r is Ok,
        r matches Ok(out) ==> out@ == seq![0x78u8, 0x5Eu8] + packed_lsb(fixed_block_bits(greedy_parse(bytes@, 0, empty_table())))
            + be_bytes(spec_adler32(bytes@), 4),
        r matches Ok(out) ==> spec_decompress(out@, bytes@.len()) == Ok::<Seq<u8>, ErrorKind>(bytes@),
{
    let deflated = match compress_fixed(bytes) {
        Ok(d) => d,
        Err(e) => return Err(e),
    };
    let capacity = match deflated.len().checked_add(6) {
        Some(c) => c,
        None => return Err(MediaError::overflow("compressed zlib output size overflow")),
    };
    let mut output: Vec<u8> = Vec::with_capacity(capacity);
    output.push(0x78);
    output.push(0x5E);
    push_slice(&mut output, deflated.as_slice());
    let ghost before = output@;
    push_be32(&mut output, adler32(bytes));
    proof {
        crate::byteio::lemma_be_roundtrip_len(spec_adler32(bytes@), 4);
        assert(output@.subrange(output@.len() - 4, output@.len() as int) =~= be_bytes(spec_adler32(bytes@), 4));
        assert(output@.subrange(2, output@.len() - 4) =~= deflated@);
        assert(output@ =~= seq![0x78u8, 0x5Eu8] + deflated@ + be_bytes(spec_adler32(bytes@), 4));
        let ts = choose|ts: Seq<LzToken>| #[trigger] tokens_valid(ts) && lz_expand(ts) == bytes@ && deflated@ == packed_lsb(
            fixed_block_bits(ts),
        );
        assert(bytes@.len() == bytes.len());
        lemma_written_headers_accepted();
        lemma_fixed_zlib_roundtrip(ts, 0x5E, bytes@.len());
    }
    Ok(output)
}

/// The FLEVEL header field advertised for a compression level.
pub open spec fn spec_flevel(level: u8) -> u8 {
    if level <= 2 {
        0
    } else if level <= 5 {
        1
    } else if level == 6 {
        2
    } else {
        3
    }
}

/// The FLG byte written for a level in 1..=9: FLEVEL in the top two bits,
/// FDICT clear, FCHECK making the header a multiple of 31.
pub open spec fn spec_zlib_flg(level: u8) -> nat {
    let base = spec_flevel(level) as nat * 64;
    let rem = (0x78nat * 256 + base) % 31;
    (base + if rem == 0 { 0 } else { 31 - rem }) as nat
}

/// Compresses `bytes` as RFC 1950 zlib at a level in 0..=9: level 0 uses
/// stored blocks, levels 1..=9 the hash-chain fixed-Huffman encoder.
pub fn compress_with_level(bytes: &[u8], level: u8) -> (r: Result<Vec<u8>>)
    ensures
        level > 9 ==> r is Err && r->Err_0@ == ErrorKind::InvalidArgument,
        level == 0 ==> (r matches Ok(out) && out@ == spec_compress_stored(bytes@)),
        1 <= level <= 9 && bytes@.len() <= (usize::MAX - 9) / 2 ==> r is Ok,
        1 <= level <= 9 ==> (r matches Ok(out) ==> out@[1] == spec_zlib_flg(level)),
        match r {
            Ok(out) => {
                &&& level <= 9
                &&& out@.len() >= 6
                &&& out@[0] == 0x78
                &&& (out@[0] * 256 + out@[1]) % 31 == 0
                &&& level > 0 ==> out@[1] / 64 == spec_flevel(level)
                &&& level > 0 ==> fixed_block_encodes(out@.subrange(2, out@.len() - 4), bytes@)
                &&& out@.subrange(out@.len() - 4, out@.len() as int) == be_bytes(spec_adler32(bytes@), 4)
            },
            Err(e) => (level > 9 && e@ == ErrorKind::InvalidArgument) || (1 <= level <= 9 && e@ == ErrorKind::Overflow),
        },
        1 <= level <= 9 ==> (r matches Ok(out) ==> out@ == seq![0x78u8, spec_zlib_flg(level) as u8] + packed_lsb(
            fixed_block_bits(chain_parse(bytes@, 0, empty_chains(bytes@.len()), spec_search_limit(level))),
        ) + be_bytes(spec_adler32(bytes@), 4)),
        r matches Ok(out) ==> spec_decompress(out@, bytes@.len()) == Ok::<Seq<u8>, ErrorKind>(bytes@),
{
    if level > 9 {
        return Err(MediaError::invalid_argument("zlib compression level must be in 0..=9"));
    }
    if level == 0 {
        let out = compress_stored(bytes);
        proof {
            let s = spec_compress_stored(bytes@);
            crate::byteio::lemma_be_roundtrip_len(spec_adler32(bytes@), 4);
            lemma_stored_blocks_nonempty(bytes@);
            assert(s.subrange(s.len() - 4, s.len() as int) =~= be_bytes(spec_adler32(bytes@), 4));
            if out is Ok {
                assert(out->Ok_0@.len() == out->Ok_0.len());
                assert(bytes@.len() == bytes.len());
                lemma_stored_roundtrip(bytes@, bytes@.len());
            }
        }
        return out;
    }
    let deflated = match compress_fixed_level(bytes, level) {
        Ok(d) => d,
        Err(e) => return Err(e),
    };
    let capacity = match deflated.len().checked_add(6) {
        Some(c) => c,
        None => return Err(MediaError::overflow("zlib output size overflow")),
    };
    let mut output: Vec<u8> = Vec::with_capacity(capacity);
    let flevel: u8 = if level <= 2 {
        0
    } else if level <= 5 {
        1
    } else if level == 6 {
        2
    } else {
        3
    };
    let cmf: u8 = 0x78;
    let base_flg: u8 = flevel * 64;
    let remainder = ((cmf as u16) * 256 + base_flg as u16) % 31;
    let fcheck: u16 = if remainder == 0 {
        0
    } else {
        31 - remainder
    };
    let flg = base_flg + fcheck as u8;
    output.push(cmf);
    output.push(flg);
    push_slice(&mut output, deflated.as_slice());
    push_be32(&mut output, adler32(bytes));
    proof {
        crate::byteio::lemma_be_roundtrip_len(spec_adler32(bytes@), 4);
        assert(output@.subrange(output@.len() - 4, output@.len() as int) =~= be_bytes(spec_adler32(bytes@), 4));
        assert(output@.subrange(2, output@.len() - 4) =~= deflated@);
        assert(output@ =~= seq![0x78u8, flg] + deflated@ + be_bytes(spec_adler32(bytes@), 4));
        let ts = choose|ts: Seq<LzToken>| #[trigger] tokens_valid(ts) && lz_expand(ts) == bytes@ && deflated@ == packed_lsb(
            fixed_block_bits(ts),
        );
        assert(bytes@.len() == bytes.len());
        lemma_written_headers_accepted();
        assert(flg == 0x01 || flg == 0x5E || flg == 0x9C || flg == 0xDA);
        lemma_fixed_zlib_roundtrip(ts, flg, bytes@.len());
    }
    Ok(output)
}

proof fn lemma_stored_blocks_nonempty(s: Seq<u8>)
    ensures
        stored_blocks(s).len() >= 5,
    decreases s.len(),
{
    if s.len() > 65535 {
        lemma_stored_blocks_nonempty(s.subrange(65535, s.len() as int));
    } else {
        crate::byteio::lemma_le_roundtrip_len(s.len(), 2);
        crate::byteio::lemma_le_roundtrip_len((65535 - s.len()) as nat, 2);
    }
}

proof fn lemma_low_bits_of_flag(b: u8)
    requires
        b <= 1,
    ensures
        (b >> 0u8) & 1 == b,
        (b >> 1u8) & 1 == 0,
        (b >> 2u8) & 1 == 0,
{
    assert((b >> 0u8) & 1 == b && (b >> 1u8) & 1 == 0 && (b >> 2u8) & 1 == 0) by (bit_vector)
        requires
            b <= 1,
    ;
}

proof fn lemma_le16(n: nat)
    requires
        n <= 65535,
    ensures
        crate::byteio::le_bytes(n, 2).len() == 2,
        (crate::byteio::le_bytes(n, 2)[0] as int + crate::byteio::le_bytes(n, 2)[1] as int * 256) == n,
{
    reveal_with_fuel(crate::byteio::le_bytes, 3);
    let b = crate::byteio::le_bytes(n, 2);
    assert(b[0] == (n % 256) as u8);
    assert(b[1] == ((n / 256) % 256) as u8);
}

proof fn lemma_xor_complement(n: u16)
    ensures
        n ^ ((0xffffu16 - n) as u16) == 0xffff,
{
    assert(n ^ ((0xffffu16 - n) as u16) == 0xffff) by (bit_vector);
}

/// A stored block at byte `q` of `p`: flag byte, LEN, NLEN, LEN bytes.
#[verifier::spinoff_prover]
#[verifier::rlimit(80)]
proof fn lemma_stored_block_at(p: Seq<u8>, q: nat, head: u8, n: nat, out: Seq<u8>, limit: nat)
    requires
        head <= 1,
        n <= 65535,
        q + 5 + n <= p.len() <= usize::MAX,
        p[q as int] == head,
        p.subrange(q + 1int, q + 3int) == crate::byteio::le_bytes(n, 2),
        p.subrange(q + 3int, q + 5int) == crate::byteio::le_bytes((65535 - n) as nat, 2),
        out.len() + n <= limit <= usize::MAX,
    ensures
        read_field(p, 8 * q, 1) == Ok::<(nat, nat), ErrorKind>((head as nat, 8 * q + 1)),
        read_field(p, 8 * q + 1, 2) == Ok::<(nat, nat), ErrorKind>((0nat, 8 * q + 3)),
        block_spec(p, 8 * q + 3, 0, out, limit) == Ok::<(nat, Seq<u8>), ErrorKind>(
            (8 * (q + 5 + n), out + p.subrange(q + 5int, q + 5 + n as int)),
        ),
        inflate_walk(p, 8 * q, out, limit) == if head == 1 {
            Ok::<Seq<u8>, ErrorKind>(out + p.subrange(q + 5int, q + 5 + n as int))
        } else {
            inflate_walk(p, 8 * (q + 5 + n), out + p.subrange(q + 5int, q + 5 + n as int), limit)
        },
{
    let qi: int = q as int;
    reveal_with_fuel(inflate_walk, 1);
    lemma_le16(n);
    lemma_le16((65535 - n) as nat);
    let lb = crate::byteio::le_bytes(n, 2);
    let nb = crate::byteio::le_bytes((65535 - n) as nat, 2);
    lemma_low_bits_of_flag(head);
    vstd::arithmetic::power2::lemma2_to64();
    reveal_with_fuel(lsb_bits, 3);
    assert((8 * qi) / 8 == qi && (8 * qi) % 8 == 0);
    assert((8 * qi + 1) / 8 == qi && (8 * qi + 1) % 8 == 1);
    assert((8 * qi + 2) / 8 == qi && (8 * qi + 2) % 8 == 2);
    assert(lsb_bit(p, 8 * qi) == head);
    assert(lsb_bit(p, 8 * qi + 1) == 0);
    assert(lsb_bit(p, 8 * qi + 2) == 0);
    assert(align_up(8 * q + 3) == 8 * (q + 1));
    assert(take_bytes(p, q + 1, 2) == Ok::<Seq<u8>, ErrorKind>(lb));
    assert(take_bytes(p, q + 3, 2) == Ok::<Seq<u8>, ErrorKind>(nb));
    let len = (lb[0] as int + lb[1] as int * 256) as u16;
    assert(len == n);
    lemma_xor_complement(len);
    assert(capacity_error(out.len(), n, limit) is None);
}

/// From byte `q` of `p`, where the stored blocks of `y` lie, inflating
/// appends `y` to the output.
#[verifier::spinoff_prover]
#[verifier::rlimit(60)]
proof fn lemma_stored_walk(p: Seq<u8>, q: nat, y: Seq<u8>, out: Seq<u8>, limit: nat)
    requires
        q + stored_blocks(y).len() <= p.len() <= usize::MAX,
        p.subrange(q as int, q + stored_blocks(y).len() as int) == stored_blocks(y),
        out.len() + y.len() <= limit <= usize::MAX,
    ensures
        inflate_walk(p, 8 * q, out, limit) == Ok::<Seq<u8>, ErrorKind>(out + y),
    decreases y.len(),
{
    let qi: int = q as int;
    let blocks = stored_blocks(y);
    let last = y.len() <= 65535;
    let n: nat = if last { y.len() } else { 65535 };
    let head: u8 = if last { 1 } else { 0 };
    crate::byteio::lemma_le_roundtrip_len(n, 2);
    crate::byteio::lemma_le_roundtrip_len((65535 - n) as nat, 2);
    let lb = crate::byteio::le_bytes(n, 2);
    let nb = crate::byteio::le_bytes((65535 - n) as nat, 2);
    let chunk = if last { y } else { y.subrange(0, 65535) };
    if !last {
        reveal_with_fuel(crate::byteio::le_bytes, 3);
        assert(lb =~= seq![0xFFu8, 0xFFu8]);
        assert(nb =~= seq![0u8, 0u8]);
    }
    assert(blocks.subrange(0, 5 + n as int) =~= seq![head] + lb + nb + chunk);
    assert forall|i: int| 0 <= i < 5 + n implies p[qi + i] == blocks[i] by {
        assert(p[qi + i] == p.subrange(qi, qi + blocks.len())[i]);
    }
    assert(p.subrange(qi + 1, qi + 3) =~= lb) by {
        assert(p[qi + 1] == blocks[1] && p[qi + 2] == blocks[2]);
    }
    assert(p.subrange(qi + 3, qi + 5) =~= nb) by {
        assert(p[qi + 3] == blocks[3] && p[qi + 4] == blocks[4]);
    }
    assert(p.subrange(qi + 5, qi + 5 + n) =~= chunk) by {
        assert forall|i: int| 0 <= i < n implies p.subrange(qi + 5, qi + 5 + n)[i] == chunk[i] by {
            assert(p[qi + 5 + i] == blocks[5 + i]);
        }
    }
    assert(p[qi] == blocks[0]);
    lemma_stored_block_at(p, q, head, n, out, limit);
    if !last {
        let rest = y.subrange(65535, y.len() as int);
        let rb = stored_blocks(rest);
        let q2 = q + 5 + 65535;
        assert(blocks =~= seq![head] + lb + nb + chunk + rb);
        assert(p.subrange(q2 as int, q2 + rb.len() as int) =~= rb) by {
            assert forall|i: int| 0 <= i < rb.len() implies p.subrange(q2 as int, q2 + rb.len() as int)[i] == rb[i] by {
                assert(p[q2 + i] == p.subrange(qi, qi + blocks.len())[5 + 65535 + i]);
            }
        }
        lemma_stored_walk(p, q2, rest, out + chunk, limit);
        assert(out + chunk + rest =~= out + y);
    }
}

/// Decompressing the stored-block zlib stream of `x` gives `x` back when
/// the output limit admits it and the stream fits in memory.
pub proof fn lemma_stored_roundtrip(x: Seq<u8>, limit: nat)
    requires
        x.len() <= limit <= usize::MAX,
        spec_compress_stored(x).len() <= usize::MAX,
    ensures
        spec_decompress(spec_compress_stored(x), limit) == Ok::<Seq<u8>, ErrorKind>(x),
{
    let z = spec_compress_stored(x);
    let blocks = stored_blocks(x);
    lemma_stored_blocks_nonempty(x);
    crate::checksum::lemma_adler32_bound(x);
    reveal_with_fuel(crate::byteio::pow256, 5);
    crate::byteio::lemma_be_roundtrip(spec_adler32(x), 4);
    assert(z.len() >= 6);
    assert(z[0] == 0x78u8 && z[1] == 0x01u8);
    assert(0x01u8 & 0x20 == 0) by (bit_vector);
    assert(zlib_header_error(0x78u8, 0x01u8) is None);
    let payload = z.subrange(2, z.len() - 4);
    assert(payload =~= blocks);
    assert(payload.subrange(0, blocks.len() as int) =~= blocks);
    lemma_stored_walk(payload, 0, x, Seq::empty(), limit);
    assert(Seq::<u8>::empty() + x =~= x);
    assert(z.subrange(z.len() - 4, z.len() as int) =~= be_bytes(spec_adler32(x), 4));
}

/// A zlib stream holding one final fixed-code block of a valid parse,
/// behind a header the decoder accepts and before the Adler-32 of its
/// expansion, decompresses to that expansion whenever the limit admits it.
pub proof fn lemma_fixed_zlib_roundtrip(ts: Seq<LzToken>, flg: u8, limit: nat)
    requires
        tokens_valid(ts),
        lz_expand(ts).len() <= limit <= usize::MAX,
        zlib_header_error(0x78, flg) is None,
    ensures
        spec_decompress(
            seq![0x78u8, flg] + packed_lsb(fixed_block_bits(ts)) + be_bytes(spec_adler32(lz_expand(ts)), 4),
            limit,
        ) == Ok::<Seq<u8>, ErrorKind>(lz_expand(ts)),
{
    let x = lz_expand(ts);
    let d = packed_lsb(fixed_block_bits(ts));
    let z = seq![0x78u8, flg] + d + be_bytes(spec_adler32(x), 4);
    crate::checksum::lemma_adler32_bound(x);
    reveal_with_fuel(crate::byteio::pow256, 5);
    crate::byteio::lemma_be_roundtrip(spec_adler32(x), 4);
    crate::fixed_roundtrip::lemma_fixed_block_inflates(ts, limit);
    assert(z.subrange(2, z.len() - 4) =~= d);
    assert(z.subrange(z.len() - 4, z.len() as int) =~= be_bytes(spec_adler32(x), 4));
}

/// The header bytes `compress` and `compress_with_level` write are accepted.
proof fn lemma_written_headers_accepted()
    ensures
        zlib_header_error(0x78, 0x01) is None,
        zlib_header_error(0x78, 0x5E) is None,
        zlib_header_error(0x78, 0x9C) is None,
        zlib_header_error(0x78, 0xDA) is None,
{
    assert(0x01u8 & 0x20 == 0) by (bit_vector);
    assert(0x5Eu8 & 0x20 == 0) by (bit_vector);
    assert(0x9Cu8 & 0x20 == 0) by (bit_vector);
    assert(0xDAu8 & 0x20 == 0) by (bit_vector);
}

} // verus!

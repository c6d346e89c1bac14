use vstd::prelude::*;

use crate::error::{ErrorKind, MediaError, Result};
use crate::png_adam7::{lemma_pow2_small_le, lemma_pow2_small_mono, pow2_small};

verus! {

/// The zig-zag order of the 64 DCT coefficients: entry `k` is the
/// row-major index of the `k`-th coefficient in a stream.
pub open spec fn zigzag_table() -> Seq<usize> {
    seq![
        0usize, 1, 8, 16, 9, 2, 3, 10, 17, 24, 32, 25, 18, 11, 4, 5, 12, 19, 26, 33, 40, 48, 41, 34,
        27, 20, 13, 6, 7, 14, 21, 28, 35, 42, 49, 56, 57, 50, 43, 36, 29, 22, 15, 23, 30, 37,
        44, 51, 58, 59, 52, 45, 38, 31, 39, 46, 53, 60, 61, 54, 47, 55, 62, 63,
    ]
}

pub fn zigzag(k: usize) -> (z: usize)
    requires
        k < 64,
    ensures
        z == zigzag_table()[k as int],
        z < 64,
{
    let t: [usize; 64] = [
        0, 1, 8, 16, 9, 2, 3, 10, 17, 24, 32, 25, 18, 11, 4, 5, 12, 19, 26, 33, 40, 48, 41, 34,
        27, 20, 13, 6, 7, 14, 21, 28, 35, 42, 49, 56, 57, 50, 43, 36, 29, 22, 15, 23, 30, 37,
        44, 51, 58, 59, 52, 45, 38, 31, 39, 46, 53, 60, 61, 54, 47, 55, 62, 63,
    ];
    assert(t@ == zigzag_table());
    t[k]
}

/// A reading position in entropy-coded data: the byte, and the bit within
/// it counted from the most significant.
pub type BitPos = (nat, nat);

/// The next bit at `p`, and the position after it.
pub open spec fn spec_read_bit(d: Seq<u8>, p: BitPos) -> core::result::Result<(u8, BitPos), ErrorKind> {
    if p.0 >= d.len() {
        Err(ErrorKind::EndOfFile)
    } else {
        let v = ((d[p.0 as int] as nat / pow2_small((7 - p.1) as nat)) % 2) as u8;
        if p.1 + 1 >= 8 {
            Ok((v, (p.0 + 1, 0nat)))
        } else {
            Ok((v, (p.0, p.1 + 1)))
        }
    }
}

/// The next `n` bits at `p` as a number, most significant first.
pub open spec fn spec_read_bits(d: Seq<u8>, p: BitPos, n: nat) -> core::result::Result<(nat, BitPos), ErrorKind>
    decreases n,
{
    if n == 0 {
        Ok((0, p))
    } else {
        match spec_read_bits(d, p, (n - 1) as nat) {
            Err(k) => Err(k),
            Ok((v, p2)) => match spec_read_bit(d, p2) {
                Err(k) => Err(k),
                Ok((b, p3)) => Ok((2 * v + b as nat, p3)),
            },
        }
    }
}

/// A reading position in one segment of entropy-coded data.
pub struct BitReader {
    pub pos: usize,
    pub bit: u8,
}

impl BitReader {
    pub open spec fn at(&self) -> BitPos {
        (self.pos as nat, self.bit as nat)
    }

    pub open spec fn wf(&self, d: Seq<u8>) -> bool {
        self.bit < 8 && self.pos <= d.len()
    }

    pub fn new() -> (r: Self)
        ensures
            r.at() == (0nat, 0nat),
            r.pos == 0 && r.bit == 0,
    {
        BitReader { pos: 0, bit: 0 }
    }

    pub fn read_bit(&mut self, data: &[u8]) -> (r: Result<u8>)
        requires
            old(self).wf(data@),
        ensures
            final(self).wf(data@),
            match r {
                Ok(v) => spec_read_bit(data@, old(self).at()) == Ok::<(u8, BitPos), ErrorKind>((v, final(self).at())),
                Err(e) => spec_read_bit(data@, old(self).at()) == Err::<(u8, BitPos), ErrorKind>(e@),
            },
    {
        let (v, pos, bit) = next_bit(data, self.pos, self.bit)?;
        self.pos = pos;
        self.bit = bit;
        Ok(v)
    }

    pub fn read_bits(&mut self, data: &[u8], count: u8) -> (r: Result<u32>)
        requires
            old(self).wf(data@),
            count <= 16,
        ensures
            final(self).wf(data@),
            match r {
                Ok(v) => spec_read_bits(data@, old(self).at(), count as nat) == Ok::<(nat, BitPos), ErrorKind>((v as nat, final(self).at()))
                    && v < pow2_small(count as nat),
                Err(e) => spec_read_bits(data@, old(self).at(), count as nat) == Err::<(nat, BitPos), ErrorKind>(e@),
            },
    {
        let (v, pos, bit) = next_bits(data, self.pos, self.bit, count)?;
        self.pos = pos;
        self.bit = bit;
        Ok(v)
    }
}

fn next_bit(data: &[u8], pos: usize, bit: u8) -> (r: Result<(u8, usize, u8)>)
    requires
        bit < 8,
        pos <= data@.len(),
    ensures
        match r {
            Ok((v, p, b)) => spec_read_bit(data@, (pos as nat, bit as nat)) == Ok::<(u8, BitPos), ErrorKind>((v, (p as nat, b as nat)))
                && b < 8 && p <= data@.len(),
            Err(e) => spec_read_bit(data@, (pos as nat, bit as nat)) == Err::<(u8, BitPos), ErrorKind>(e@),
        },
{
    if pos >= data.len() {
        return Err(MediaError::eof("truncated JPEG entropy data"));
    }
    let byte = data[pos];
    let shift: u8 = 7 - bit;
    let divisor: u16 = crate::png_adam7::pow2_of(shift);
    let value = ((byte as u16 / divisor) % 2) as u8;
    if bit + 1 == 8 {
        Ok((value, pos + 1, 0))
    } else {
        Ok((value, pos, bit + 1))
    }
}

fn next_bits(data: &[u8], pos: usize, bit: u8, count: u8) -> (r: Result<(u32, usize, u8)>)
    requires
        bit < 8,
        pos <= data@.len(),
        count <= 16,
    ensures
        match r {
            Ok((v, p, b)) => spec_read_bits(data@, (pos as nat, bit as nat), count as nat) == Ok::<(nat, BitPos), ErrorKind>((v as nat, (p as nat, b as nat)))
                && b < 8 && p <= data@.len() && v < pow2_small(count as nat),
            Err(e) => spec_read_bits(data@, (pos as nat, bit as nat), count as nat) == Err::<(nat, BitPos), ErrorKind>(e@),
        },
{
    let ghost start: BitPos = (pos as nat, bit as nat);
    let mut value: u32 = 0;
    let mut p = pos;
    let mut b = bit;
    let mut i: u8 = 0;
    while i < count
        invariant
            start == (pos as nat, bit as nat),
            b < 8,
            p <= data@.len(),
            i <= count,
            count <= 16,
            value < pow2_small(i as nat),
            spec_read_bits(data@, start, i as nat) == Ok::<(nat, BitPos), ErrorKind>((value as nat, (p as nat, b as nat))),
        decreases count - i,
    {
        let (v, p2, b2) = match next_bit(data, p, b) {
            Ok(t) => t,
            Err(e) => {
                proof {
                    lemma_read_bits_err(data@, start, i as nat, count as nat);
                    assert(spec_read_bits(data@, start, i as nat)->Ok_0.1 == (p as nat, b as nat));
                    assert(spec_read_bits(data@, start, count as nat) == Err::<(nat, BitPos), ErrorKind>(e@));
                }
                return Err(e);
            },
        };
        proof {
            lemma_pow2_small_le(i as nat);
            reveal_with_fuel(pow2_small, 2);
        }
        value = value * 2 + v as u32;
        p = p2;
        b = b2;
        i = i + 1;
    }
    Ok((value, p, b))
}

proof fn lemma_read_bits_err(d: Seq<u8>, p: BitPos, i: nat, n: nat)
    requires
        i < n,
        spec_read_bits(d, p, i) is Ok,
        spec_read_bit(d, spec_read_bits(d, p, i)->Ok_0.1) is Err,
    ensures
        spec_read_bits(d, p, n) == Err::<(nat, BitPos), ErrorKind>(spec_read_bit(d, spec_read_bits(d, p, i)->Ok_0.1)->Err_0),
    decreases n - i,
{
    if i + 1 < n {
        lemma_read_bits_err(d, p, i, (n - 1) as nat);
        lemma_read_bits_err_prop(d, p, i + 1, n);
    }
}

proof fn lemma_read_bits_err_prop(d: Seq<u8>, p: BitPos, k: nat, n: nat)
    requires
        k <= n,
        spec_read_bits(d, p, k) is Err,
    ensures
        spec_read_bits(d, p, n) == spec_read_bits(d, p, k),
    decreases n - k,
{
    if k < n {
        lemma_read_bits_err_prop(d, p, k, (n - 1) as nat);
    }
}

/// `receive_extend`: `count` magnitude bits read as a signed coefficient
/// difference; values below half the range are negative.
pub open spec fn spec_receive_extend(d: Seq<u8>, p: BitPos, count: u8) -> core::result::Result<(int, BitPos), ErrorKind> {
    if count == 0 {
        Ok((0, p))
    } else if count > 16 {
        Err(ErrorKind::InvalidData)
    } else {
        match spec_read_bits(d, p, count as nat) {
            Err(k) => Err(k),
            Ok((v, p2)) => if v < pow2_small((count - 1) as nat) {
                Ok((v - (pow2_small(count as nat) - 1), p2))
            } else {
                Ok((v as int, p2))
            },
        }
    }
}

pub fn receive_extend(reader: &mut BitReader, data: &[u8], count: u8) -> (r: Result<i32>)
    requires
        old(reader).wf(data@),
    ensures
        final(reader).wf(data@),
        match r {
            Ok(v) => spec_receive_extend(data@, old(reader).at(), count) == Ok::<(int, BitPos), ErrorKind>((v as int, final(reader).at())),
            Err(e) => spec_receive_extend(data@, old(reader).at(), count) == Err::<(int, BitPos), ErrorKind>(e@),
        },
{
    if count == 0 {
        return Ok(0);
    }
    if count > 16 {
        return Err(MediaError::invalid_data("JPEG coefficient magnitude is too large"));
    }
    let value = reader.read_bits(data, count)?;
    proof {
        lemma_pow2_small_le(count as nat);
        lemma_pow2_small_le((count - 1) as nat);
        reveal_with_fuel(pow2_small, 2);
    }
    let threshold: u32 = crate::png_adam7::pow2_of_wide(count - 1);
    let range: u32 = crate::png_adam7::pow2_of_wide(count);
    if value < threshold {
        Ok(value as i32 - (range as i32 - 1))
    } else {
        Ok(value as i32)
    }
}

/// A Huffman table as DHT states it: how many codes of each length 1 to 16,
/// and the symbols in code order.
pub struct Huffman {
    pub counts: Vec<u8>,
    pub symbols: Vec<u8>,
}

impl Huffman {
    pub open spec fn wf(&self) -> bool {
        self.counts@.len() == 16
    }

    pub open spec fn tables(&self) -> (Seq<u8>, Seq<u8>) {
        (self.counts@, self.symbols@)
    }
}

/// Canonical Huffman decoding from code length `len` on: `code` holds the
/// bits read so far, `first` the first code of this length and `offset` the
/// number of symbols with shorter codes.
pub open spec fn huff_from(
    d: Seq<u8>,
    p: BitPos,
    t: (Seq<u8>, Seq<u8>),
    len: nat,
    code: nat,
    first: nat,
    offset: nat,
) -> core::result::Result<(u8, BitPos), ErrorKind>
    decreases 17 - len,
{
    if len == 0 || len > 16 {
        Err(ErrorKind::InvalidData)
    } else {
        match spec_read_bit(d, p) {
            Err(k) => Err(k),
            Ok((b, p2)) => {
                let code2: nat = 2 * code + b as nat;
                let count = t.0[len - 1] as nat;
                if first <= code2 && code2 < first + count {
                    let index = offset + (code2 - first);
                    if index < t.1.len() {
                        Ok((t.1[index as int], p2))
                    } else {
                        Err(ErrorKind::InvalidData)
                    }
                } else {
                    huff_from(d, p2, t, len + 1, code2, 2 * (first + count), offset + count)
                }
            },
        }
    }
}

/// The symbol the Huffman code at `p` stands for.
pub open spec fn spec_decode_huff(d: Seq<u8>, p: BitPos, t: (Seq<u8>, Seq<u8>)) -> core::result::Result<(u8, BitPos), ErrorKind> {
    huff_from(d, p, t, 1, 0, 0, 0)
}

pub fn decode_huff(reader: &mut BitReader, data: &[u8], table: &Huffman) -> (r: Result<u8>)
    requires
        old(reader).wf(data@),
        table.wf(),
    ensures
        final(reader).wf(data@),
        match r {
            Ok(s) => spec_decode_huff(data@, old(reader).at(), table.tables()) == Ok::<(u8, BitPos), ErrorKind>((s, final(reader).at())),
            Err(e) => spec_decode_huff(data@, old(reader).at(), table.tables()) == Err::<(u8, BitPos), ErrorKind>(e@),
        },
{
    let ghost d = data@;
    let ghost start = reader.at();
    let mut code: u32 = 0;
    let mut first: u32 = 0;
    let mut offset: usize = 0;
    let mut len: usize = 1;
    while len <= 16
        invariant
            d == data@,
            start == old(reader).at(),
            reader.wf(d),
            table.wf(),
            1 <= len <= 17,
            code < pow2_small((len - 1) as nat),
            first + 512 <= 1024 * pow2_small((len - 1) as nat),
            offset <= 255 * (len - 1),
            spec_decode_huff(d, start, table.tables()) == huff_from(d, reader.at(), table.tables(), len as nat, code as nat, first as nat, offset as nat),
        decreases 17 - len,
    {
        proof {
            lemma_pow2_small_le((len - 1) as nat);
            reveal_with_fuel(pow2_small, 2);
        }
        let b = reader.read_bit(data)?;
        code = code * 2 + b as u32;
        let count = table.counts[len - 1] as u32;
        if first <= code && code < first + count {
            let index = offset + (code - first) as usize;
            if index < table.symbols.len() {
                return Ok(table.symbols[index]);
            }
            return Err(MediaError::invalid_data("JPEG Huffman symbol index out of range"));
        }
        offset = offset + count as usize;
        first = (first + count) * 2;
        len = len + 1;
    }
    Err(MediaError::invalid_data("invalid JPEG Huffman code"))
}

/// The AC coefficients of a sequential block from zig-zag position `k` on.
pub open spec fn seq_ac(d: Seq<u8>, p: BitPos, ac: (Seq<u8>, Seq<u8>), block: Seq<i32>, k: nat) -> core::result::Result<(Seq<i32>, BitPos), ErrorKind>
    decreases 64 - k,
{
    if k >= 64 {
        Ok((block, p))
    } else {
        match spec_decode_huff(d, p, ac) {
            Err(e) => Err(e),
            Ok((rs, p2)) => {
                let run = (rs / 16) as nat;
                let size = rs % 16;
                if size == 0 {
                    if run == 15 {
                        if k + 16 > 64 {
                            Err(ErrorKind::InvalidData)
                        } else {
                            seq_ac(d, p2, ac, block, k + 16)
                        }
                    } else {
                        Ok((block, p2))
                    }
                } else if size > 10 {
                    Err(ErrorKind::InvalidData)
                } else if k + run >= 64 {
                    Err(ErrorKind::InvalidData)
                } else {
                    match spec_receive_extend(d, p2, size) {
                        Err(e) => Err(e),
                        Ok((v, p3)) => seq_ac(d, p3, ac, block.update(zigzag_table()[(k + run) as int] as int, v as i32), k + run + 1),
                    }
                }
            },
        }
    }
}

/// A block result with the predictor that goes with it.
pub open spec fn with_pred(r: core::result::Result<(Seq<i32>, BitPos), ErrorKind>, pred: i32) -> core::result::Result<(Seq<i32>, i32, BitPos), ErrorKind> {
    match r {
        Err(e) => Err(e),
        Ok((b, p)) => Ok((b, pred, p)),
    }
}

/// A sequential (baseline) block: the DC difference added to the
/// predictor, then the run-length coded AC coefficients.
pub open spec fn spec_seq_block(
    d: Seq<u8>,
    p: BitPos,
    pred: i32,
    dc: (Seq<u8>, Seq<u8>),
    ac: (Seq<u8>, Seq<u8>),
    block: Seq<i32>,
) -> core::result::Result<(Seq<i32>, i32, BitPos), ErrorKind> {
    match spec_decode_huff(d, p, dc) {
        Err(e) => Err(e),
        Ok((size, p2)) => if size > 11 {
            Err(ErrorKind::InvalidData)
        } else {
            match spec_receive_extend(d, p2, size) {
                Err(e) => Err(e),
                Ok((diff, p3)) => {
                    let pred2 = pred.wrapping_add(diff as i32);
                    with_pred(seq_ac(d, p3, ac, block.update(0, pred2), 1), pred2)
                },
            }
        },
    }
}

pub proof fn lemma_extend_range(d: Seq<u8>, p: BitPos, count: u8)
    ensures
        spec_receive_extend(d, p, count) matches Ok((v, _)) ==> -65536 < v < 65536,
{
    if 0 < count <= 16 {
        lemma_pow2_small_le(count as nat);
        lemma_pow2_small_mono((count - 1) as nat, count as nat);
        lemma_read_bits_bound(d, p, count as nat);
    }
}

pub proof fn lemma_read_bits_bound(d: Seq<u8>, p: BitPos, n: nat)
    ensures
        spec_read_bits(d, p, n) matches Ok((v, _)) ==> v < pow2_small(n),
    decreases n,
{
    reveal_with_fuel(pow2_small, 2);
    if n > 0 {
        lemma_read_bits_bound(d, p, (n - 1) as nat);
    }
}

fn decode_sequential_block(
    reader: &mut BitReader,
    data: &[u8],
    block: &mut Vec<i32>,
    predictor: &mut i32,
    dc: &Huffman,
    ac: &Huffman,
) -> (r: Result<()>)
    requires
        old(reader).wf(data@),
        old(block)@.len() == 64,
        dc.wf(),
        ac.wf(),
    ensures
        final(reader).wf(data@),
        final(block)@.len() == 64,
        match r {
            Ok(()) => spec_seq_block(data@, old(reader).at(), *old(predictor), dc.tables(), ac.tables(), old(block)@)
                == Ok::<(Seq<i32>, i32, BitPos), ErrorKind>((final(block)@, *final(predictor), final(reader).at())),
            Err(e) => spec_seq_block(data@, old(reader).at(), *old(predictor), dc.tables(), ac.tables(), old(block)@)
                == Err::<(Seq<i32>, i32, BitPos), ErrorKind>(e@),
        },
{
    let ghost d = data@;
    let ghost p0 = reader.at();
    let size = decode_huff(reader, data, dc)?;
    if size > 11 {
        return Err(MediaError::invalid_data("invalid JPEG DC magnitude"));
    }
    let diff = receive_extend(reader, data, size)?;
    *predictor = predictor.wrapping_add(diff);
    block.set(0, *predictor);
    let mut k: usize = 1;
    while k < 64
        invariant_except_break
            spec_seq_block(d, p0, *old(predictor), dc.tables(), ac.tables(), old(block)@)
                == with_pred(seq_ac(d, reader.at(), ac.tables(), block@, k as nat), *predictor),
        invariant
            d == data@,
            p0 == old(reader).at(),
            reader.wf(d),
            ac.wf(),
            dc.wf(),
            block@.len() == 64,
            1 <= k <= 64,
        ensures
            spec_seq_block(d, p0, *old(predictor), dc.tables(), ac.tables(), old(block)@)
                == Ok::<(Seq<i32>, i32, BitPos), ErrorKind>((block@, *predictor, reader.at())),
        decreases 64 - k,
    {
        let ghost pk = reader.at();
        let rs = decode_huff(reader, data, ac)?;
        let run = (rs / 16) as usize;
        let size = rs % 16;
        if size == 0 {
            if run == 15 {
                if k + 16 > 64 {
                    return Err(MediaError::invalid_data("JPEG AC run exceeds block"));
                }
                k = k + 16;
                continue;
            }
            break;
        }
        if size > 10 {
            return Err(MediaError::invalid_data("invalid baseline JPEG AC magnitude"));
        }
        if k + run >= 64 {
            return Err(MediaError::invalid_data("JPEG AC run exceeds block"));
        }
        k = k + run;
        let ghost pe = reader.at();
        let v = receive_extend(reader, data, size)?;
        proof {
            lemma_extend_range(d, pe, size);
        }
        let z = zigzag(k);
        block.set(z, v);
        k = k + 1;
    }
    Ok(())
}

/// The bit a successive-approximation scan at point `al` adds.
pub open spec fn approx_bit(al: u8) -> i32 {
    pow2_small(al as nat) as i32
}

/// One refinement bit for a coefficient that is already non-zero: a set
/// bit moves it one step further from zero, unless that bit is present.
pub open spec fn refine_coef(d: Seq<u8>, p: BitPos, c: i32, bit: i32) -> core::result::Result<(i32, BitPos), ErrorKind> {
    match spec_read_bit(d, p) {
        Err(e) => Err(e),
        Ok((b, p2)) => if b != 0 && (c & bit) == 0 {
            if c > 0 {
                Ok((c.wrapping_add(bit), p2))
            } else {
                Ok((c.wrapping_sub(bit), p2))
            }
        } else {
            Ok((c, p2))
        },
    }
}

/// Refinement bits for the non-zero coefficients from zig-zag `k` to `end`.
pub open spec fn refine_rest(d: Seq<u8>, p: BitPos, block: Seq<i32>, k: nat, end: nat, bit: i32) -> core::result::Result<(Seq<i32>, BitPos), ErrorKind>
    decreases end + 1 - k,
{
    if k > end || k >= 64 {
        Ok((block, p))
    } else {
        let z = zigzag_table()[k as int] as int;
        if block[z] != 0 {
            match refine_coef(d, p, block[z], bit) {
                Err(e) => Err(e),
                Ok((c, p2)) => refine_rest(d, p2, block.update(z, c), k + 1, end, bit),
            }
        } else {
            refine_rest(d, p, block, k + 1, end, bit)
        }
    }
}

/// The walk of an AC refinement symbol: non-zero coefficients on the way
/// get refinement bits; zero ones count down `run`, and the zero that ends
/// the run takes `newv`. After an end-of-band the walk runs to `end`.
pub open spec fn refine_walk(
    d: Seq<u8>,
    p: BitPos,
    block: Seq<i32>,
    k: nat,
    end: nat,
    run: nat,
    eob: bool,
    newv: Option<i32>,
    bit: i32,
) -> core::result::Result<(Seq<i32>, nat, BitPos), ErrorKind>
    decreases end + 1 - k,
{
    if k > end || k >= 64 {
        Ok((block, k, p))
    } else {
        let z = zigzag_table()[k as int] as int;
        if block[z] != 0 {
            match refine_coef(d, p, block[z], bit) {
                Err(e) => Err(e),
                Ok((c, p2)) => refine_walk(d, p2, block.update(z, c), k + 1, end, run, eob, newv, bit),
            }
        } else if !eob && run == 0 {
            Ok(
                (
                    match newv {
                        Some(v) => block.update(z, v),
                        None => block,
                    },
                    k + 1,
                    p,
                ),
            )
        } else if !eob {
            refine_walk(d, p, block, k + 1, end, (run - 1) as nat, eob, newv, bit)
        } else {
            refine_walk(d, p, block, k + 1, end, run, eob, newv, bit)
        }
    }
}

pub proof fn lemma_refine_walk_advances(
    d: Seq<u8>,
    p: BitPos,
    block: Seq<i32>,
    k: nat,
    end: nat,
    run: nat,
    eob: bool,
    newv: Option<i32>,
    bit: i32,
)
    ensures
        refine_walk(d, p, block, k, end, run, eob, newv, bit) matches Ok((_, k2, _)) ==> k2 >= k && (k <= end && k < 64 ==> k2 > k)
            && (k <= end + 1 ==> k2 <= end + 1),
    decreases end + 1 - k,
{
    if k <= end && k < 64 {
        let z = zigzag_table()[k as int] as int;
        if block[z] != 0 {
            match refine_coef(d, p, block[z], bit) {
                Err(e) => {},
                Ok((c, p2)) => lemma_refine_walk_advances(d, p2, block.update(z, c), k + 1, end, run, eob, newv, bit),
            }
        } else if !eob && run == 0 {
        } else if !eob {
            lemma_refine_walk_advances(d, p, block, k + 1, end, (run - 1) as nat, eob, newv, bit);
        } else {
            lemma_refine_walk_advances(d, p, block, k + 1, end, run, eob, newv, bit);
        }
    }
}

/// The length of an end-of-band run: `2^run` plus `run` more bits, less the
/// block that ends it.
pub open spec fn eob_length(d: Seq<u8>, p: BitPos, run: nat) -> core::result::Result<(u32, BitPos), ErrorKind> {
    if run == 0 {
        Ok(((pow2_small(0) - 1) as u32, p))
    } else {
        match spec_read_bits(d, p, run) {
            Err(e) => Err(e),
            Ok((extra, p2)) => Ok(((pow2_small(run) + extra - 1) as u32, p2)),
        }
    }
}

/// The first AC scan of a progressive block from zig-zag `k` to `end`:
/// coefficients scaled up by `al`, or an end-of-band run. Gives the block,
/// the end-of-band run left over and the position.
pub open spec fn prog_ac_first(
    d: Seq<u8>,
    p: BitPos,
    t: (Seq<u8>, Seq<u8>),
    block: Seq<i32>,
    k: nat,
    end: nat,
    al: u8,
) -> core::result::Result<(Seq<i32>, u32, BitPos), ErrorKind>
    decreases end + 17 - k,
{
    if k > end || end >= 64 {
        Ok((block, 0, p))
    } else {
        match spec_decode_huff(d, p, t) {
            Err(e) => Err(e),
            Ok((rs, p2)) => {
                let run = (rs / 16) as nat;
                let size = rs % 16;
                if size == 0 {
                    if run == 15 {
                        prog_ac_first(d, p2, t, block, k + 16, end, al)
                    } else {
                        match eob_length(d, p2, run) {
                            Err(e) => Err(e),
                            Ok((eob, p3)) => Ok((block, eob, p3)),
                        }
                    }
                } else if size > 10 {
                    Err(ErrorKind::InvalidData)
                } else if k + run > end {
                    Err(ErrorKind::InvalidData)
                } else {
                    match spec_receive_extend(d, p2, size) {
                        Err(e) => Err(e),
                        Ok((v, p3)) => prog_ac_first(
                            d,
                            p3,
                            t,
                            block.update(zigzag_table()[(k + run) as int] as int, (v as i32).wrapping_shl(al as u32)),
                            k + run + 1,
                            end,
                            al,
                        ),
                    }
                }
            },
        }
    }
}

/// An AC refinement scan of a progressive block from zig-zag `k` to `end`.
pub open spec fn prog_ac_refine(
    d: Seq<u8>,
    p: BitPos,
    t: (Seq<u8>, Seq<u8>),
    block: Seq<i32>,
    k: nat,
    end: nat,
    bit: i32,
) -> core::result::Result<(Seq<i32>, u32, BitPos), ErrorKind>
    decreases end + 1 - k,
{
    if k > end || end >= 64 {
        Ok((block, 0, p))
    } else {
        match spec_decode_huff(d, p, t) {
            Err(e) => Err(e),
            Ok((rs, p2)) => {
                let run = (rs / 16) as nat;
                let size = rs % 16;
                if size == 0 && run != 15 {
                    match eob_length(d, p2, run) {
                        Err(e) => Err(e),
                        Ok((eob, p3)) => match refine_walk(d, p3, block, k, end, run, true, None, bit) {
                            Err(e) => Err(e),
                            Ok((b2, k2, p4)) => match refine_rest(d, p4, b2, k2, end, bit) {
                                Err(e) => Err(e),
                                Ok((b3, p5)) => Ok((b3, eob, p5)),
                            },
                        },
                    }
                } else if size != 0 && size != 1 {
                    Err(ErrorKind::InvalidData)
                } else {
                    let newv: core::result::Result<(Option<i32>, BitPos), ErrorKind> = if size == 0 {
                        Ok((None, p2))
                    } else {
                        match spec_read_bit(d, p2) {
                            Err(e) => Err(e),
                            Ok((sb, p3)) => Ok((Some(if sb != 0 { bit } else { (0 - bit) as i32 }), p3)),
                        }
                    };
                    match newv {
                        Err(e) => Err(e),
                        Ok((nv, p3)) => match refine_walk(d, p3, block, k, end, run, false, nv, bit) {
                            Err(e) => Err(e),
                            Ok((b2, k2, p4)) => {
                                proof {
                                    lemma_refine_walk_advances(d, p3, block, k, end, run, false, nv, bit);
                                }
                                prog_ac_refine(d, p4, t, b2, k2, end, bit)
                            },
                        },
                    }
                }
            },
        }
    }
}

/// A block of a progressive scan with spectral band `ss..=se` and
/// successive approximation `ah`, `al`; `eob` blocks of an end-of-band run
/// are still pending. Gives the block, the predictor, the run left over
/// and the position.
pub open spec fn spec_prog_block(
    d: Seq<u8>,
    p: BitPos,
    block: Seq<i32>,
    pred: i32,
    dc: Option<(Seq<u8>, Seq<u8>)>,
    ac: Option<(Seq<u8>, Seq<u8>)>,
    ss: u8,
    se: u8,
    ah: u8,
    al: u8,
    eob: u32,
) -> core::result::Result<(Seq<i32>, i32, u32, BitPos), ErrorKind> {
    let bit = approx_bit(al);
    if ss == 0 {
        if ah == 0 {
            match dc {
                None => Err(ErrorKind::InvalidData),
                Some(t) => match spec_decode_huff(d, p, t) {
                    Err(e) => Err(e),
                    Ok((size, p2)) => if size > 11 {
                        Err(ErrorKind::InvalidData)
                    } else {
                        match spec_receive_extend(d, p2, size) {
                            Err(e) => Err(e),
                            Ok((diff, p3)) => {
                                let pred2 = pred.wrapping_add(diff as i32);
                                Ok((block.update(0, pred2.wrapping_shl(al as u32)), pred2, eob, p3))
                            },
                        }
                    },
                },
            }
        } else {
            match spec_read_bit(d, p) {
                Err(e) => Err(e),
                Ok((b, p2)) => if b != 0 {
                    Ok((block.update(0, block[0] | bit), pred, eob, p2))
                } else {
                    Ok((block, pred, eob, p2))
                },
            }
        }
    } else {
        match ac {
            None => Err(ErrorKind::InvalidData),
            Some(t) => if ah == 0 {
                if eob != 0 {
                    Ok((block, pred, (eob - 1) as u32, p))
                } else {
                    match prog_ac_first(d, p, t, block, ss as nat, se as nat, al) {
                        Err(e) => Err(e),
                        Ok((b, e2, p2)) => Ok((b, pred, e2, p2)),
                    }
                }
            } else if eob != 0 {
                match refine_rest(d, p, block, ss as nat, se as nat, bit) {
                    Err(e) => Err(e),
                    Ok((b, p2)) => Ok((b, pred, (eob - 1) as u32, p2)),
                }
            } else {
                match prog_ac_refine(d, p, t, block, ss as nat, se as nat, bit) {
                    Err(e) => Err(e),
                    Ok((b, e2, p2)) => Ok((b, pred, e2, p2)),
                }
            },
        }
    }
}

fn refine_coefficient(reader: &mut BitReader, data: &[u8], c: i32, bit: i32) -> (r: Result<i32>)
    requires
        old(reader).wf(data@),
    ensures
        final(reader).wf(data@),
        match r {
            Ok(v) => refine_coef(data@, old(reader).at(), c, bit) == Ok::<(i32, BitPos), ErrorKind>((v, final(reader).at())),
            Err(e) => refine_coef(data@, old(reader).at(), c, bit) == Err::<(i32, BitPos), ErrorKind>(e@),
        },
{
    let b = reader.read_bit(data)?;
    if b != 0 && (c & bit) == 0 {
        if c > 0 {
            Ok(c.wrapping_add(bit))
        } else {
            Ok(c.wrapping_sub(bit))
        }
    } else {
        Ok(c)
    }
}

fn refine_nonzero_from(reader: &mut BitReader, data: &[u8], block: &mut Vec<i32>, k0: usize, end: usize, bit: i32) -> (r: Result<()>)
    requires
        old(reader).wf(data@),
        old(block)@.len() == 64,
        end < 64,
    ensures
        final(reader).wf(data@),
        final(block)@.len() == 64,
        match r {
            Ok(()) => refine_rest(data@, old(reader).at(), old(block)@, k0 as nat, end as nat, bit)
                == Ok::<(Seq<i32>, BitPos), ErrorKind>((final(block)@, final(reader).at())),
            Err(e) => refine_rest(data@, old(reader).at(), old(block)@, k0 as nat, end as nat, bit)
                == Err::<(Seq<i32>, BitPos), ErrorKind>(e@),
        },
{
    let ghost d = data@;
    let mut k = k0;
    while k <= end
        invariant
            d == data@,
            reader.wf(d),
            block@.len() == 64,
            end < 64,
            refine_rest(d, old(reader).at(), old(block)@, k0 as nat, end as nat, bit) == refine_rest(
                d,
                reader.at(),
                block@,
                k as nat,
                end as nat,
                bit,
            ),
        decreases end + 1 - k,
    {
        let z = zigzag(k);
        let c = block[z];
        if c != 0 {
            let c2 = refine_coefficient(reader, data, c, bit)?;
            block.set(z, c2);
        }
        k = k + 1;
    }
    Ok(())
}

fn refine_walk_exec(
    reader: &mut BitReader,
    data: &[u8],
    block: &mut Vec<i32>,
    k0: usize,
    end: usize,
    run0: usize,
    eob: bool,
    newv: Option<i32>,
    bit: i32,
) -> (r: Result<usize>)
    requires
        old(reader).wf(data@),
        old(block)@.len() == 64,
        end < 64,
        k0 <= 64,
    ensures
        final(reader).wf(data@),
        final(block)@.len() == 64,
        match r {
            Ok(k) => refine_walk(data@, old(reader).at(), old(block)@, k0 as nat, end as nat, run0 as nat, eob, newv, bit)
                == Ok::<(Seq<i32>, nat, BitPos), ErrorKind>((final(block)@, k as nat, final(reader).at())) && k <= 64,
            Err(e) => refine_walk(data@, old(reader).at(), old(block)@, k0 as nat, end as nat, run0 as nat, eob, newv, bit)
                == Err::<(Seq<i32>, nat, BitPos), ErrorKind>(e@),
        },
{
    let ghost d = data@;
    let mut k = k0;
    let mut run = run0;
    while k <= end
        invariant_except_break
            refine_walk(d, old(reader).at(), old(block)@, k0 as nat, end as nat, run0 as nat, eob, newv, bit)
                == refine_walk(d, reader.at(), block@, k as nat, end as nat, run as nat, eob, newv, bit),
        invariant
            d == data@,
            reader.wf(d),
            block@.len() == 64,
            end < 64,
            k <= 64,
        ensures
            refine_walk(d, old(reader).at(), old(block)@, k0 as nat, end as nat, run0 as nat, eob, newv, bit)
                == Ok::<(Seq<i32>, nat, BitPos), ErrorKind>((block@, k as nat, reader.at())),
        decreases end + 1 - k,
    {
        let z = zigzag(k);
        let c = block[z];
        if c != 0 {
            let c2 = refine_coefficient(reader, data, c, bit)?;
            block.set(z, c2);
        } else if !eob && run == 0 {
            match newv {
                Some(v) => {
                    block.set(z, v);
                },
                None => {},
            }
            k = k + 1;
            break;
        } else if !eob {
            run = run - 1;
        }
        k = k + 1;
    }
    Ok(k)
}

fn eob_length_exec(reader: &mut BitReader, data: &[u8], run: u8) -> (r: Result<u32>)
    requires
        old(reader).wf(data@),
        run < 15,
    ensures
        final(reader).wf(data@),
        match r {
            Ok(v) => eob_length(data@, old(reader).at(), run as nat) == Ok::<(u32, BitPos), ErrorKind>((v, final(reader).at())),
            Err(e) => eob_length(data@, old(reader).at(), run as nat) == Err::<(u32, BitPos), ErrorKind>(e@),
        },
{
    proof {
        lemma_pow2_small_le(run as nat);
        lemma_pow2_small_le(15);
        lemma_pow2_small_mono(run as nat, 15);
        reveal_with_fuel(pow2_small, 2);
    }
    let base = crate::png_adam7::pow2_of_wide(run);
    if run == 0 {
        return Ok(base - 1);
    }
    let extra = reader.read_bits(data, run)?;
    Ok(base + extra - 1)
}

fn prog_ac_first_exec(
    reader: &mut BitReader,
    data: &[u8],
    table: &Huffman,
    block: &mut Vec<i32>,
    ss: usize,
    se: usize,
    al: u8,
) -> (r: Result<u32>)
    requires
        old(reader).wf(data@),
        old(block)@.len() == 64,
        table.wf(),
        ss <= se,
        se < 64,
        al <= 13,
    ensures
        final(reader).wf(data@),
        final(block)@.len() == 64,
        match r {
            Ok(eob) => prog_ac_first(data@, old(reader).at(), table.tables(), old(block)@, ss as nat, se as nat, al)
                == Ok::<(Seq<i32>, u32, BitPos), ErrorKind>((final(block)@, eob, final(reader).at())),
            Err(e) => prog_ac_first(data@, old(reader).at(), table.tables(), old(block)@, ss as nat, se as nat, al)
                == Err::<(Seq<i32>, u32, BitPos), ErrorKind>(e@),
        },
{
    let ghost d = data@;
    let mut k = ss;
    let mut eob_out: u32 = 0;
    while k <= se
        invariant_except_break
            eob_out == 0,
            prog_ac_first(d, old(reader).at(), table.tables(), old(block)@, ss as nat, se as nat, al)
                == prog_ac_first(d, reader.at(), table.tables(), block@, k as nat, se as nat, al),
        invariant
            d == data@,
            reader.wf(d),
            block@.len() == 64,
            table.wf(),
            se < 64,
            k <= 80,
            al <= 13,
        ensures
            prog_ac_first(d, old(reader).at(), table.tables(), old(block)@, ss as nat, se as nat, al)
                == Ok::<(Seq<i32>, u32, BitPos), ErrorKind>((block@, eob_out, reader.at())),
        decreases 80 - k,
    {
        let rs = decode_huff(reader, data, table)?;
        let run = (rs / 16) as usize;
        let size = rs % 16;
        if size == 0 {
            if run == 15 {
                k = k + 16;
                continue;
            }
            eob_out = eob_length_exec(reader, data, run as u8)?;
            break;
        }
        if size > 10 {
            return Err(MediaError::invalid_data("invalid progressive JPEG AC magnitude"));
        }
        if k + run > se {
            return Err(MediaError::invalid_data("progressive JPEG AC run exceeds spectral band"));
        }
        k = k + run;
        let v = receive_extend(reader, data, size)?;
        let z = zigzag(k);
        block.set(z, v.wrapping_shl(al as u32));
        k = k + 1;
    }
    Ok(eob_out)
}

fn prog_ac_refine_exec(
    reader: &mut BitReader,
    data: &[u8],
    table: &Huffman,
    block: &mut Vec<i32>,
    ss: usize,
    se: usize,
    bit: i32,
) -> (r: Result<u32>)
    requires
        old(reader).wf(data@),
        old(block)@.len() == 64,
        table.wf(),
        ss <= se,
        se < 64,
        0 < bit <= 8192,
    ensures
        final(reader).wf(data@),
        final(block)@.len() == 64,
        match r {
            Ok(eob) => prog_ac_refine(data@, old(reader).at(), table.tables(), old(block)@, ss as nat, se as nat, bit)
                == Ok::<(Seq<i32>, u32, BitPos), ErrorKind>((final(block)@, eob, final(reader).at())),
            Err(e) => prog_ac_refine(data@, old(reader).at(), table.tables(), old(block)@, ss as nat, se as nat, bit)
                == Err::<(Seq<i32>, u32, BitPos), ErrorKind>(e@),
        },
{
    let ghost d = data@;
    let mut k = ss;
    let mut eob_out: u32 = 0;
    while k <= se
        invariant_except_break
            eob_out == 0,
            prog_ac_refine(d, old(reader).at(), table.tables(), old(block)@, ss as nat, se as nat, bit)
                == prog_ac_refine(d, reader.at(), table.tables(), block@, k as nat, se as nat, bit),
        invariant
            d == data@,
            reader.wf(d),
            block@.len() == 64,
            table.wf(),
            se < 64,
            k <= 64,
            0 < bit <= 8192,
        ensures
            prog_ac_refine(d, old(reader).at(), table.tables(), old(block)@, ss as nat, se as nat, bit)
                == Ok::<(Seq<i32>, u32, BitPos), ErrorKind>((block@, eob_out, reader.at())),
        decreases 65 - k,
    {
        let rs = decode_huff(reader, data, table)?;
        let run = (rs / 16) as usize;
        let size = rs % 16;
        if size == 0 && run != 15 {
            let eob = eob_length_exec(reader, data, run as u8)?;
            let k2 = refine_walk_exec(reader, data, block, k, se, run, true, None, bit)?;
            refine_nonzero_from(reader, data, block, k2, se, bit)?;
            eob_out = eob;
            break;
        }
        if size != 0 && size != 1 {
            return Err(MediaError::invalid_data("progressive AC refinement introduces non-unit coefficient"));
        }
        let nv: Option<i32> = if size == 0 {
            None
        } else {
            let sb = reader.read_bit(data)?;
            Some(if sb != 0 { bit } else { -bit })
        };
        let ghost p3 = reader.at();
        let ghost b3 = block@;
        let k2 = refine_walk_exec(reader, data, block, k, se, run, false, nv, bit)?;
        proof {
            lemma_refine_walk_advances(d, p3, b3, k as nat, se as nat, run as nat, false, nv, bit);
        }
        k = k2;
    }
    Ok(eob_out)
}

/// Decodes one block of a progressive scan into `block`.
fn decode_progressive_block(
    reader: &mut BitReader,
    data: &[u8],
    block: &mut Vec<i32>,
    predictor: &mut i32,
    dc: Option<&Huffman>,
    ac: Option<&Huffman>,
    ss: u8,
    se: u8,
    ah: u8,
    al: u8,
    eob_run: &mut u32,
) -> (r: Result<()>)
    requires
        old(reader).wf(data@),
        old(block)@.len() == 64,
        dc matches Some(t) ==> t.wf(),
        ac matches Some(t) ==> t.wf(),
        ss <= se,
        se < 64,
        al <= 13,
    ensures
        final(reader).wf(data@),
        final(block)@.len() == 64,
        match r {
            Ok(()) => spec_prog_block(data@, old(reader).at(), old(block)@, *old(predictor), opt_tables(dc), opt_tables(ac), ss, se, ah, al, *old(eob_run))
                == Ok::<(Seq<i32>, i32, u32, BitPos), ErrorKind>((final(block)@, *final(predictor), *final(eob_run), final(reader).at())),
            Err(e) => spec_prog_block(data@, old(reader).at(), old(block)@, *old(predictor), opt_tables(dc), opt_tables(ac), ss, se, ah, al, *old(eob_run))
                == Err::<(Seq<i32>, i32, u32, BitPos), ErrorKind>(e@),
        },
{
    proof {
        lemma_pow2_small_le(al as nat);
        lemma_pow2_small_mono(al as nat, 13);
        reveal_with_fuel(pow2_small, 14);
    }
    let bit = crate::png_adam7::pow2_of_wide(al) as i32;
    if ss == 0 {
        if ah == 0 {
            let table = match dc {
                Some(t) => t,
                None => return Err(MediaError::invalid_data("missing progressive JPEG DC table")),
            };
            let size = decode_huff(reader, data, table)?;
            if size > 11 {
                return Err(MediaError::invalid_data("invalid progressive JPEG DC magnitude"));
            }
            let diff = receive_extend(reader, data, size)?;
            *predictor = predictor.wrapping_add(diff);
            block.set(0, predictor.wrapping_shl(al as u32));
        } else {
            let b = reader.read_bit(data)?;
            if b != 0 {
                let c = block[0];
                block.set(0, c | bit);
            }
        }
        return Ok(());
    }
    let table = match ac {
        Some(t) => t,
        None => return Err(MediaError::invalid_data("missing progressive JPEG AC table")),
    };
    if ah == 0 {
        if *eob_run != 0 {
            *eob_run = *eob_run - 1;
            return Ok(());
        }
        let e = prog_ac_first_exec(reader, data, table, block, ss as usize, se as usize, al)?;
        *eob_run = e;
        return Ok(());
    }
    if *eob_run != 0 {
        *eob_run = *eob_run - 1;
        refine_nonzero_from(reader, data, block, ss as usize, se as usize, bit)?;
        return Ok(());
    }
    let e = prog_ac_refine_exec(reader, data, table, block, ss as usize, se as usize, bit)?;
    *eob_run = e;
    Ok(())
}

/// The decoding tables a scan may name, by view.
pub open spec fn opt_tables(t: Option<&Huffman>) -> Option<(Seq<u8>, Seq<u8>)> {
    match t {
        Some(h) => Some(h.tables()),
        None => None,
    }
}

/// The 64 entries of a quantization table from entry `i` on, read in
/// zig-zag order at `pos` with 8-bit or 16-bit precision; a zero entry or
/// running out of data ends it. Gives the table and the position after it.
pub open spec fn dqt_values(d: Seq<u8>, pos: nat, wide: bool, i: nat, table: Seq<u16>) -> core::result::Result<(Seq<u16>, nat), ErrorKind>
    decreases 64 - i,
{
    if i >= 64 {
        Ok((table, pos))
    } else {
        let step: nat = if wide { 2 } else { 1 };
        if pos + step > d.len() {
            Err(ErrorKind::EndOfFile)
        } else {
            let value: nat = if wide { 256 * d[pos as int] as nat + d[pos + 1int] as nat } else { d[pos as int] as nat };
            if value == 0 {
                Err(ErrorKind::InvalidData)
            } else {
                dqt_values(d, pos + step, wide, i + 1, table.update(zigzag_table()[i as int] as int, value as u16))
            }
        }
    }
}

/// The quantization tables a DQT payload defines from `pos` on, over those
/// already defined.
pub open spec fn dqt_walk(d: Seq<u8>, pos: nat, q: Seq<Option<Seq<u16>>>) -> core::result::Result<Seq<Option<Seq<u16>>>, ErrorKind>
    decreases d.len() - pos,
{
    if pos >= d.len() {
        Ok(q)
    } else {
        let spec = d[pos as int];
        let precision = spec / 16;
        let id = spec % 16;
        if precision > 1 || id > 3 {
            Err(ErrorKind::InvalidData)
        } else {
            match dqt_values(d, pos + 1, precision == 1, 0, Seq::new(64, |_i: int| 0u16)) {
                Err(e) => Err(e),
                Ok((table, next)) => {
                    proof {
                        lemma_dqt_values_advance(d, pos + 1, precision == 1, 0, Seq::new(64, |_i: int| 0u16));
                    }
                    dqt_walk(d, next, q.update(id as int, Some(table)))
                },
            }
        }
    }
}

pub proof fn lemma_dqt_values_advance(d: Seq<u8>, pos: nat, wide: bool, i: nat, table: Seq<u16>)
    ensures
        dqt_values(d, pos, wide, i, table) matches Ok((t, next)) ==> next >= pos && (i < 64 ==> next > pos)
            && (pos <= d.len() ==> next <= d.len()),
    decreases 64 - i,
{
    if i < 64 {
        let step: nat = if wide { 2 } else { 1 };
        if pos + step <= d.len() {
            let value: nat = if wide { 256 * d[pos as int] as nat + d[pos + 1int] as nat } else { d[pos as int] as nat };
            if value != 0 {
                lemma_dqt_values_advance(d, pos + step, wide, i + 1, table.update(zigzag_table()[i as int] as int, value as u16));
            }
        }
    }
}

/// Quantization tables by view.
pub open spec fn qtables_view(q: Seq<Option<Vec<u16>>>) -> Seq<Option<Seq<u16>>> {
    Seq::new(q.len(), |i: int| match q[i] {
        Some(v) => Some(v@),
        None => None,
    })
}

/// Every defined quantization table has 64 entries.
pub open spec fn qtables_wf(q: Seq<Option<Vec<u16>>>) -> bool {
    forall|i: int| 0 <= i < q.len() ==> (#[trigger] q[i] matches Some(t) ==> t@.len() == 64)
}

fn parse_dqt(data: &[u8], tables: &mut Vec<Option<Vec<u16>>>) -> (r: Result<()>)
    requires
        old(tables)@.len() == 4,
        qtables_wf(old(tables)@),
    ensures
        final(tables)@.len() == 4,
        qtables_wf(final(tables)@),
        match r {
            Ok(()) => dqt_walk(data@, 0, qtables_view(old(tables)@)) == Ok::<Seq<Option<Seq<u16>>>, ErrorKind>(qtables_view(final(tables)@)),
            Err(e) => dqt_walk(data@, 0, qtables_view(old(tables)@)) == Err::<Seq<Option<Seq<u16>>>, ErrorKind>(e@),
        },
{
    let ghost d = data@;
    let n = data.len();
    let mut pos: usize = 0;
    while pos < n
        invariant
            d == data@,
            n == d.len(),
            pos <= n,
            tables@.len() == 4,
            qtables_wf(tables@),
            dqt_walk(d, 0, qtables_view(old(tables)@)) == dqt_walk(d, pos as nat, qtables_view(tables@)),
        decreases n - pos,
    {
        let spec = data[pos];
        let precision = spec / 16;
        let id = (spec % 16) as usize;
        if precision > 1 || id > 3 {
            return Err(MediaError::invalid_data("invalid JPEG DQT table specifier"));
        }
        let wide = precision == 1;
        let ghost start = (pos + 1) as nat;
        let mut table: Vec<u16> = Vec::new();
        let mut z: usize = 0;
        while z < 64
            invariant
                table@.len() == z,
                z <= 64,
                forall|j: int| 0 <= j < z ==> table@[j] == 0,
            decreases 64 - z,
        {
            table.push(0);
            z = z + 1;
        }
        assert(table@ == Seq::new(64, |_i: int| 0u16));
        let ghost table0 = table@;
        let mut p = pos + 1;
        let mut i: usize = 0;
        while i < 64
            invariant
                d == data@,
                n == d.len(),
                start == pos + 1,
                pos < n,
                start <= p <= n,
                i <= 64,
                table@.len() == 64,
                tables@.len() == 4,
                qtables_wf(tables@),
                spec == d[pos as int],
                precision == spec / 16,
                id == spec % 16,
                precision <= 1,
                id <= 3,
                wide == (precision == 1),
                table0 == Seq::new(64, |_i: int| 0u16),
                dqt_walk(d, 0, qtables_view(old(tables)@)) == dqt_walk(d, pos as nat, qtables_view(tables@)),
                dqt_values(d, start, wide, 0, table0) == dqt_values(d, p as nat, wide, i as nat, table@),
            decreases 64 - i,
        {
            let step: usize = if wide { 2 } else { 1 };
            if step > n - p {
                return Err(MediaError::eof("truncated JPEG DQT"));
            }
            let value: u16 = if wide {
                (data[p] as u16) * 256 + data[p + 1] as u16
            } else {
                data[p] as u16
            };
            if value == 0 {
                return Err(MediaError::invalid_data("JPEG quantizer cannot contain zero"));
            }
            let zz = zigzag(i);
            table.set(zz, value);
            p = p + step;
            i = i + 1;
        }
        proof {
            lemma_dqt_values_advance(d, start, wide, 0, table0);
        }
        let ghost before = tables@;
        tables.set(id, Some(table));
        assert(qtables_view(tables@) =~= qtables_view(before).update(id as int, Some(table@)));
        pos = p;
    }
    Ok(())
}

/// The code-length counts and symbols of the Huffman tables a DHT payload
/// defines from `pos` on, over those already defined (class 0 DC, 1 AC).
pub open spec fn dht_walk(
    d: Seq<u8>,
    pos: nat,
    dc: Seq<Option<(Seq<u8>, Seq<u8>)>>,
    ac: Seq<Option<(Seq<u8>, Seq<u8>)>>,
) -> core::result::Result<(Seq<Option<(Seq<u8>, Seq<u8>)>>, Seq<Option<(Seq<u8>, Seq<u8>)>>), ErrorKind>
    decreases d.len() - pos,
{
    if pos >= d.len() {
        Ok((dc, ac))
    } else {
        let spec = d[pos as int];
        let class = spec / 16;
        let id = spec % 16;
        if class > 1 || id > 3 {
            Err(ErrorKind::InvalidData)
        } else if pos + 17 > d.len() {
            Err(ErrorKind::EndOfFile)
        } else {
            let counts = d.subrange(pos + 1int, pos + 17int);
            let n = crate::jpeg::count_sum(d, pos + 1int, 16);
            if n == 0 || n > 256 {
                Err(ErrorKind::InvalidData)
            } else if pos + 17 + n > d.len() {
                Err(ErrorKind::EndOfFile)
            } else {
                let t = (counts, d.subrange(pos + 17int, pos + 17 + n as int));
                if class == 0 {
                    dht_walk(d, pos + 17 + n, dc.update(id as int, Some(t)), ac)
                } else {
                    dht_walk(d, pos + 17 + n, dc, ac.update(id as int, Some(t)))
                }
            }
        }
    }
}

/// Huffman tables by view.
pub open spec fn htables_view(t: Seq<Option<Huffman>>) -> Seq<Option<(Seq<u8>, Seq<u8>)>> {
    Seq::new(t.len(), |i: int| match t[i] {
        Some(h) => Some(h.tables()),
        None => None,
    })
}

pub open spec fn htables_wf(t: Seq<Option<Huffman>>) -> bool {
    forall|i: int| 0 <= i < t.len() ==> (#[trigger] t[i] matches Some(h) ==> h.wf())
}

fn copy_bytes(data: &[u8], start: usize, end: usize) -> (v: Vec<u8>)
    requires
        start <= end <= data@.len(),
    ensures
        v@ == data@.subrange(start as int, end as int),
{
    let mut v: Vec<u8> = Vec::new();
    let mut i = start;
    while i < end
        invariant
            start <= i <= end <= data@.len(),
            v@ == data@.subrange(start as int, i as int),
        decreases end - i,
    {
        v.push(data[i]);
        i = i + 1;
    }
    v
}

fn parse_dht(data: &[u8], dc: &mut Vec<Option<Huffman>>, ac: &mut Vec<Option<Huffman>>) -> (r: Result<()>)
    requires
        old(dc)@.len() == 4,
        old(ac)@.len() == 4,
        htables_wf(old(dc)@),
        htables_wf(old(ac)@),
    ensures
        final(dc)@.len() == 4,
        final(ac)@.len() == 4,
        htables_wf(final(dc)@),
        htables_wf(final(ac)@),
        match r {
            Ok(()) => dht_walk(data@, 0, htables_view(old(dc)@), htables_view(old(ac)@))
                == Ok::<(Seq<Option<(Seq<u8>, Seq<u8>)>>, Seq<Option<(Seq<u8>, Seq<u8>)>>), ErrorKind>((htables_view(final(dc)@), htables_view(final(ac)@))),
            Err(e) => dht_walk(data@, 0, htables_view(old(dc)@), htables_view(old(ac)@))
                == Err::<(Seq<Option<(Seq<u8>, Seq<u8>)>>, Seq<Option<(Seq<u8>, Seq<u8>)>>), ErrorKind>(e@),
        },
{
    let ghost d = data@;
    let n = data.len();
    let mut pos: usize = 0;
    while pos < n
        invariant
            d == data@,
            n == d.len(),
            pos <= n,
            dc@.len() == 4,
            ac@.len() == 4,
            htables_wf(dc@),
            htables_wf(ac@),
            dht_walk(d, 0, htables_view(old(dc)@), htables_view(old(ac)@)) == dht_walk(d, pos as nat, htables_view(dc@), htables_view(ac@)),
        decreases n - pos,
    {
        let spec = data[pos];
        let class = spec / 16;
        let id = (spec % 16) as usize;
        if class > 1 || id > 3 {
            return Err(MediaError::invalid_data("invalid JPEG DHT table specifier"));
        }
        if n - pos < 17 {
            return Err(MediaError::eof("truncated JPEG DHT counts"));
        }
        let mut symbols_len: usize = 0;
        let mut k: usize = 0;
        while k < 16
            invariant
                pos + 17 <= n,
                n == d.len(),
                d == data@,
                k <= 16,
                symbols_len == crate::jpeg::count_sum(d, pos + 1int, k as nat),
                symbols_len <= 255 * k,
            decreases 16 - k,
        {
            symbols_len = symbols_len + data[pos + 1 + k] as usize;
            k = k + 1;
        }
        if symbols_len == 0 || symbols_len > 256 {
            return Err(MediaError::invalid_data("invalid JPEG Huffman symbol count"));
        }
        if symbols_len > n - pos - 17 {
            return Err(MediaError::eof("truncated JPEG DHT symbols"));
        }
        let counts = copy_bytes(data, pos + 1, pos + 17);
        let symbols = copy_bytes(data, pos + 17, pos + 17 + symbols_len);
        let table = Huffman { counts, symbols };
        let ghost before_dc = dc@;
        let ghost before_ac = ac@;
        if class == 0 {
            dc.set(id, Some(table));
            assert(htables_view(dc@) =~= htables_view(before_dc).update(id as int, Some((data@.subrange(pos + 1, pos + 17), data@.subrange(pos + 17, (pos + 17 + symbols_len) as int)))));
        } else {
            ac.set(id, Some(table));
            assert(htables_view(ac@) =~= htables_view(before_ac).update(id as int, Some((data@.subrange(pos + 1, pos + 17), data@.subrange(pos + 17, (pos + 17 + symbols_len) as int)))));
        }
        pos = pos + 17 + symbols_len;
    }
    Ok(())
}

/// A frame component and where its coefficient blocks are stored.
#[derive(Debug, Clone, Copy, PartialEq, Eq, Structural)]
pub struct Component {
    pub id: u8,
    pub h: u8,
    pub v: u8,
    pub tq: u8,
    pub padded_blocks_x: usize,
    pub padded_blocks_y: usize,
    pub actual_blocks_x: usize,
    pub actual_blocks_y: usize,
    pub base: usize,
}

/// The frame geometry: size, coding, the largest sampling factors and the
/// MCU grid.
#[derive(Debug, Clone, Copy, PartialEq, Eq, Structural)]
pub struct FrameHeader {
    pub width: usize,
    pub height: usize,
    pub progressive: bool,
    pub max_h: u8,
    pub max_v: u8,
    pub mcus_x: usize,
    pub mcus_y: usize,
}

/// Component `j` has valid sampling factors and table selector and an id
/// no earlier component has.
pub open spec fn comp_valid(d: Seq<u8>, j: int) -> bool {
    &&& crate::jpeg::component_ok(d, j)
    &&& forall|i: int| 0 <= i < j ==> #[trigger] d[6 + 3 * i] != d[6 + 3 * j]
}

pub open spec fn comp_h(d: Seq<u8>, j: int) -> u8 {
    d[6 + 3 * j + 1] / 16
}

pub open spec fn comp_v(d: Seq<u8>, j: int) -> u8 {
    d[6 + 3 * j + 1] % 16
}

/// The largest horizontal (`vertical == false`) or vertical sampling factor
/// among the first `j` components.
pub open spec fn max_factor(d: Seq<u8>, j: nat, vertical: bool) -> u8
    decreases j,
{
    if j == 0 {
        0
    } else {
        let prev = max_factor(d, (j - 1) as nat, vertical);
        let f = if vertical { comp_v(d, j - 1) } else { comp_h(d, j - 1) };
        if f > prev { f } else { prev }
    }
}

pub open spec fn ceil_div(a: nat, b: nat) -> nat {
    ((a + b - 1) / b as int) as nat
}

/// Component `j` of a frame header with `count` components, its blocks
/// stored after those of the components before it.
pub open spec fn frame_component(d: Seq<u8>, hdr: FrameHeader, j: nat, base: nat) -> Component {
    let h = comp_h(d, j as int);
    let v = comp_v(d, j as int);
    Component {
        id: d[6 + 3 * j as int],
        h,
        v,
        tq: d[6 + 3 * j as int + 2],
        padded_blocks_x: (hdr.mcus_x * h) as usize,
        padded_blocks_y: (hdr.mcus_y * v) as usize,
        actual_blocks_x: ceil_div((hdr.width * h) as nat, 8 * hdr.max_h as nat) as usize,
        actual_blocks_y: ceil_div((hdr.height * v) as nat, 8 * hdr.max_v as nat) as usize,
        base: base as usize,
    }
}

pub open spec fn comp_blocks(c: Component) -> nat {
    (c.padded_blocks_x * c.padded_blocks_y) as nat
}

/// The blocks component `j` stores: its padded block grid.
pub open spec fn comp_block_count(d: Seq<u8>, hdr: FrameHeader, j: nat) -> nat {
    ((hdr.mcus_x * comp_h(d, j as int)) * (hdr.mcus_y * comp_v(d, j as int))) as nat
}

/// The coefficients the first `j` components store: 64 per block.
pub open spec fn storage_upto(d: Seq<u8>, hdr: FrameHeader, j: nat) -> nat
    decreases j,
{
    if j == 0 {
        0
    } else {
        storage_upto(d, hdr, (j - 1) as nat) + 64 * comp_block_count(d, hdr, (j - 1) as nat)
    }
}

/// The first `j` components, each stored after the ones before it.
pub open spec fn frame_components(d: Seq<u8>, hdr: FrameHeader, j: nat) -> Seq<Component>
    decreases j,
{
    if j == 0 {
        Seq::empty()
    } else {
        frame_components(d, hdr, (j - 1) as nat).push(frame_component(d, hdr, (j - 1) as nat, storage_upto(d, hdr, (j - 1) as nat)))
    }
}

/// What a SOF0/SOF2 payload declares for decoding, or why it is refused:
/// 8-bit samples, one or three components with sampling factors 1 to 4,
/// table selectors up to 3 and distinct ids.
pub open spec fn spec_frame(marker: u8, d: Seq<u8>) -> core::result::Result<(FrameHeader, Seq<Component>), ErrorKind> {
    if d.len() < 6 || d[0] != 8 {
        Err(ErrorKind::Unsupported)
    } else {
        let height = 256 * d[1] as nat + d[2] as nat;
        let width = 256 * d[3] as nat + d[4] as nat;
        let count = d[5] as nat;
        if width == 0 || height == 0 || !(count == 1 || count == 3) {
            Err(ErrorKind::Unsupported)
        } else if d.len() != 6 + 3 * count {
            Err(ErrorKind::InvalidData)
        } else if exists|j: int| 0 <= j < count && !(#[trigger] comp_valid(d, j)) {
            Err(ErrorKind::InvalidData)
        } else {
            let max_h = max_factor(d, count, false);
            let max_v = max_factor(d, count, true);
            let hdr = FrameHeader {
                width: width as usize,
                height: height as usize,
                progressive: marker == 0xc2,
                max_h,
                max_v,
                mcus_x: ceil_div(width, 8 * max_h as nat) as usize,
                mcus_y: ceil_div(height, 8 * max_v as nat) as usize,
            };
            if storage_upto(d, hdr, count) > usize::MAX {
                Err(ErrorKind::Overflow)
            } else {
                Ok((hdr, frame_components(d, hdr, count)))
            }
        }
    }
}

/// Bounds the scan decoder relies on: sampling factors 1 to 4, block
/// grids within those of a 65535 x 65535 frame, each component's blocks
/// inside addressable storage.
pub open spec fn comp_geometry_ok(c: Component) -> bool {
    &&& 1 <= c.h <= 4
    &&& 1 <= c.v <= 4
    &&& c.padded_blocks_x <= 262140
    &&& c.padded_blocks_y <= 262140
    &&& 1 <= c.actual_blocks_x <= 262140
    &&& 1 <= c.actual_blocks_y <= 262140
    &&& c.base + 64 * (c.padded_blocks_x * c.padded_blocks_y) <= usize::MAX
}

pub open spec fn geometry_ok(hdr: FrameHeader, comps: Seq<Component>) -> bool {
    &&& 1 <= hdr.mcus_x <= 65535
    &&& 1 <= hdr.mcus_y <= 65535
    &&& forall|i: int| 0 <= i < comps.len() ==> #[trigger] comp_geometry_ok(comps[i])
}

proof fn lemma_components_shape(d: Seq<u8>, hdr: FrameHeader, j: nat)
    ensures
        frame_components(d, hdr, j).len() == j,
        forall|i: int| 0 <= i < j ==> (#[trigger] frame_components(d, hdr, j)[i]) == frame_components(d, hdr, (i + 1) as nat).last(),
    decreases j,
{
    if j > 0 {
        lemma_components_shape(d, hdr, (j - 1) as nat);
    }
}

proof fn lemma_storage_mono(d: Seq<u8>, hdr: FrameHeader, a: nat, b: nat)
    requires
        a <= b,
    ensures
        storage_upto(d, hdr, a) <= storage_upto(d, hdr, b),
    decreases b - a,
{
    if a < b {
        lemma_storage_mono(d, hdr, a, (b - 1) as nat);
    }
}

fn comp_sampling_ok(data: &[u8], j: usize) -> (ok: bool)
    requires
        j < 4,
        6 + 3 * j + 2 < data@.len(),
    ensures
        ok == crate::jpeg::component_ok(data@, j as int),
{
    let sampling = data[6 + 3 * j + 1];
    let h = sampling / 16;
    let v = sampling % 16;
    !(h == 0 || v == 0 || h > 4 || v > 4 || data[6 + 3 * j + 2] > 3)
}

fn parse_frame(marker: u8, data: &[u8]) -> (r: Result<(FrameHeader, Vec<Component>)>)
    ensures
        match r {
            Ok((hdr, comps)) => spec_frame(marker, data@) == Ok::<(FrameHeader, Seq<Component>), ErrorKind>((hdr, comps@))
                && geometry_ok(hdr, comps@),
            Err(e) => spec_frame(marker, data@) == Err::<(FrameHeader, Seq<Component>), ErrorKind>(e@),
        },
{
    let ghost d = data@;
    if data.len() < 6 || data[0] != 8 {
        return Err(MediaError::unsupported("only 8-bit Huffman JPEG frames are implemented"));
    }
    let height = (data[1] as usize) * 256 + data[2] as usize;
    let width = (data[3] as usize) * 256 + data[4] as usize;
    let count = data[5] as usize;
    if width == 0 || height == 0 || !(count == 1 || count == 3) {
        return Err(MediaError::unsupported("JPEG frame must contain 1 or 3 components"));
    }
    if data.len() != 6 + count * 3 {
        return Err(MediaError::invalid_data("JPEG SOF component table length mismatch"));
    }
    let mut max_h: u8 = 0;
    let mut max_v: u8 = 0;
    let mut j: usize = 0;
    while j < count
        invariant
            d == data@,
            count == d[5],
            count == 1 || count == 3,
            d.len() == 6 + 3 * count,
            d[0] == 8,
            256 * d[1] as nat + d[2] as nat != 0,
            256 * d[3] as nat + d[4] as nat != 0,
            j <= count,
            max_h == max_factor(d, j as nat, false),
            max_v == max_factor(d, j as nat, true),
            max_h <= 4,
            max_v <= 4,
            j > 0 ==> max_h >= 1 && max_v >= 1,
            forall|k: int| 0 <= k < j ==> #[trigger] comp_valid(d, k),
        decreases count - j,
    {
        if !comp_sampling_ok(data, j) {
            assert(!comp_valid(d, j as int));
            return Err(MediaError::invalid_data("invalid JPEG component sampling/table selector"));
        }
        let id = data[6 + 3 * j];
        let mut i: usize = 0;
        while i < j
            invariant
                d == data@,
                d.len() == 6 + 3 * count,
                count == 1 || count == 3,
                count == d[5],
                d[0] == 8,
                256 * d[1] as nat + d[2] as nat != 0,
                256 * d[3] as nat + d[4] as nat != 0,
                j < count,
                i <= j,
                id == d[6 + 3 * j],
                forall|k: int| 0 <= k < i ==> #[trigger] d[6 + 3 * k] != id,
            decreases j - i,
        {
            if data[6 + 3 * i] == id {
                assert(d[6 + 3 * (i as int)] == d[6 + 3 * (j as int)]);
                assert(!comp_valid(d, j as int));
                return Err(MediaError::invalid_data("duplicate JPEG component id"));
            }
            i = i + 1;
        }
        let s = data[6 + 3 * j + 1];
        if s / 16 > max_h {
            max_h = s / 16;
        }
        if s % 16 > max_v {
            max_v = s % 16;
        }
        j = j + 1;
    }
    let mcu_w = 8 * max_h as usize;
    let mcu_h = 8 * max_v as usize;
    let mcus_x = (width + mcu_w - 1) / mcu_w;
    let mcus_y = (height + mcu_h - 1) / mcu_h;
    let hdr = FrameHeader { width, height, progressive: marker == 0xc2, max_h, max_v, mcus_x, mcus_y };
    assert(1 <= mcus_x <= 65535 && 1 <= mcus_y <= 65535) by (nonlinear_arith)
        requires mcus_x as int == (width + mcu_w - 1) as int / mcu_w as int, mcus_y as int == (height + mcu_h - 1) as int / mcu_h as int, width <= 65535, height <= 65535, mcu_w >= 8, mcu_h >= 8, width >= 1, height >= 1;
    let mut comps: Vec<Component> = Vec::new();
    let mut base: u64 = 0;
    let mut j: usize = 0;
    while j < count
        invariant
            d == data@,
            count == d[5],
            count == 1 || count == 3,
            d.len() == 6 + 3 * count,
            j <= count,
            1 <= max_h <= 4,
            1 <= max_v <= 4,
            hdr.max_h == max_h,
            hdr.max_v == max_v,
            hdr.width == width,
            hdr.height == height,
            width <= 65535,
            height <= 65535,
            hdr.mcus_x == mcus_x,
            hdr.mcus_y == mcus_y,
            mcus_x <= 65535,
            mcus_y <= 65535,
            hdr.mcus_x == ceil_div(width as nat, 8 * max_h as nat),
            hdr.mcus_y == ceil_div(height as nat, 8 * max_v as nat),
            comps@ == frame_components(d, hdr, j as nat),
            comps@.len() == j,
            1 <= mcus_x,
            1 <= mcus_y,
            forall|i: int| 0 <= i < j ==> {
                &&& 1 <= (#[trigger] comps@[i]).h <= 4
                &&& 1 <= comps@[i].v <= 4
                &&& comps@[i].padded_blocks_x <= 262140
                &&& comps@[i].padded_blocks_y <= 262140
                &&& 1 <= comps@[i].actual_blocks_x <= 262140
                &&& 1 <= comps@[i].actual_blocks_y <= 262140
                &&& comps@[i].base + 64 * (comps@[i].padded_blocks_x * comps@[i].padded_blocks_y) <= base
            },
            base == storage_upto(d, hdr, j as nat),
            base <= j * 64 * 262140 * 262140,
            d[0] == 8,
            256 * d[1] as nat + d[2] as nat == height,
            256 * d[3] as nat + d[4] as nat == width,
            width != 0 && height != 0,
            max_h == max_factor(d, count as nat, false),
            max_v == max_factor(d, count as nat, true),
            hdr.progressive == (marker == 0xc2),
            forall|k: int| 0 <= k < count ==> #[trigger] comp_valid(d, k),
        decreases count - j,
    {
        let s = data[6 + 3 * j + 1];
        let h = s / 16;
        let v = s % 16;
        assert(comp_valid(d, j as int));
        assert(mcus_x * h <= 262140 && mcus_y * v <= 262140 && width * h <= 262140 && height * v <= 262140)
            by (nonlinear_arith)
            requires mcus_x <= 65535, mcus_y <= 65535, width <= 65535, height <= 65535, h <= 4, v <= 4;
        let pbx = ((mcus_x as u64) * (h as u64)) as usize;
        let pby = ((mcus_y as u64) * (v as u64)) as usize;
        let wh = ((width as u64) * (h as u64)) as usize;
        let hv = ((height as u64) * (v as u64)) as usize;
        assert(wh >= 1 && hv >= 1) by (nonlinear_arith)
            requires wh == width * h, hv == height * v, width >= 1, height >= 1, h >= 1, v >= 1;
        let abx = (wh + 8 * max_h as usize - 1) / (8 * max_h as usize);
        let aby = (hv + 8 * max_v as usize - 1) / (8 * max_v as usize);
        assert(1 <= abx <= wh && 1 <= aby <= hv) by (nonlinear_arith)
            requires abx == (wh + 8 * max_h - 1) / (8 * max_h as int), aby == (hv + 8 * max_v - 1) / (8 * max_v as int),
                wh >= 1, hv >= 1, max_h >= 1, max_v >= 1;
        if base > usize::MAX as u64 {
            proof {
                lemma_storage_mono(d, hdr, j as nat, count as nat);
            }
            return Err(MediaError::overflow("JPEG coefficient storage overflow"));
        }
        let c = Component {
            id: data[6 + 3 * j],
            h,
            v,
            tq: data[6 + 3 * j + 2],
            padded_blocks_x: pbx,
            padded_blocks_y: pby,
            actual_blocks_x: abx,
            actual_blocks_y: aby,
            base: base as usize,
        };
        proof {
            lemma_components_shape(d, hdr, j as nat);
        }
        comps.push(c);
        assert((pbx as u64) * (pby as u64) <= 262140 * 262140) by (nonlinear_arith)
            requires pbx <= 262140, pby <= 262140;
        base = base + 64 * ((pbx as u64) * (pby as u64));
        j = j + 1;
    }
    if base > usize::MAX as u64 {
        return Err(MediaError::overflow("JPEG coefficient storage overflow"));
    }
    assert(forall|i: int| 0 <= i < comps@.len() ==> #[trigger] comp_geometry_ok(comps@[i]));
    Ok((hdr, comps))
}

/// A component of a scan and the Huffman tables it names.
#[derive(Debug, Clone, Copy, PartialEq, Eq, Structural)]
pub struct ScanComponent {
    pub ci: usize,
    pub dc_table: usize,
    pub ac_table: usize,
}

/// The first frame component with id `id`.
pub open spec fn find_comp(comps: Seq<Component>, id: u8) -> Option<nat>
    decreases comps.len(),
{
    if comps.len() == 0 {
        None
    } else {
        match find_comp(comps.drop_last(), id) {
            Some(i) => Some(i),
            None => if comps.last().id == id {
                Some((comps.len() - 1) as nat)
            } else {
                None
            },
        }
    }
}

/// Scan entry `i` names a frame component no earlier entry named, with
/// table selectors up to 3.
pub open spec fn scan_entry_ok(comps: Seq<Component>, d: Seq<u8>, i: int) -> bool {
    &&& find_comp(comps, d[1 + 2 * i]) is Some
    &&& d[2 + 2 * i] / 16 <= 3
    &&& d[2 + 2 * i] % 16 <= 3
    &&& forall|j: int| 0 <= j < i ==> #[trigger] d[1 + 2 * j] != d[1 + 2 * i]
}

pub open spec fn scan_entry(comps: Seq<Component>, d: Seq<u8>, i: int) -> ScanComponent {
    ScanComponent {
        ci: find_comp(comps, d[1 + 2 * i])->0 as usize,
        dc_table: (d[2 + 2 * i] / 16) as usize,
        ac_table: (d[2 + 2 * i] % 16) as usize,
    }
}

/// What an SOS header selects: the scan components, the spectral band
/// `ss..=se` and the successive approximation bits `ah`, `al`; or why it is
/// refused.
pub open spec fn spec_scan_header_full(comps: Seq<Component>, progressive: bool, d: Seq<u8>)
    -> core::result::Result<(Seq<ScanComponent>, u8, u8, u8, u8), ErrorKind> {
    if d.len() == 0 {
        Err(ErrorKind::EndOfFile)
    } else {
        let count = d[0] as nat;
        if count == 0 || count > comps.len() || d.len() != 1 + 2 * count + 3 {
            Err(ErrorKind::InvalidData)
        } else if exists|i: int| 0 <= i < count && !(#[trigger] scan_entry_ok(comps, d, i)) {
            Err(ErrorKind::InvalidData)
        } else {
            let ss = d[1 + 2 * count as int];
            let se = d[2 + 2 * count as int];
            let ah = d[3 + 2 * count as int] / 16;
            let al = d[3 + 2 * count as int] % 16;
            if ss > se || se > 63 || ah > 13 || al > 13 {
                Err(ErrorKind::InvalidData)
            } else if ss != 0 && count != 1 {
                Err(ErrorKind::InvalidData)
            } else if !progressive && (ss != 0 || se != 63 || ah != 0 || al != 0) {
                Err(ErrorKind::Unsupported)
            } else if progressive && ah != 0 && ah != al + 1 {
                Err(ErrorKind::InvalidData)
            } else {
                Ok((Seq::new(count, |i: int| scan_entry(comps, d, i)), ss, se, ah, al))
            }
        }
    }
}

fn find_component(comps: &Vec<Component>, id: u8) -> (r: Option<usize>)
    ensures
        match r {
            Some(i) => find_comp(comps@, id) == Some(i as nat) && i < comps@.len(),
            None => find_comp(comps@, id) is None,
        },
{
    let mut i: usize = 0;
    while i < comps.len()
        invariant
            i <= comps@.len(),
            find_comp(comps@.subrange(0, i as int), id) is None,
        decreases comps@.len() - i,
    {
        proof {
            assert(comps@.subrange(0, i as int + 1).drop_last() =~= comps@.subrange(0, i as int));
        }
        if comps[i].id == id {
            proof {
                lemma_find_comp_prefix(comps@, (i + 1) as nat, id);
            }
            return Some(i);
        }
        i = i + 1;
    }
    assert(comps@.subrange(0, comps@.len() as int) =~= comps@);
    None
}

proof fn lemma_find_comp_prefix(comps: Seq<Component>, n: nat, id: u8)
    requires
        n <= comps.len(),
        find_comp(comps.subrange(0, n as int), id) is Some,
    ensures
        find_comp(comps, id) == find_comp(comps.subrange(0, n as int), id),
    decreases comps.len() - n,
{
    if n < comps.len() {
        assert(comps.subrange(0, n as int + 1).drop_last() =~= comps.subrange(0, n as int));
        lemma_find_comp_prefix(comps, n + 1, id);
    } else {
        assert(comps.subrange(0, n as int) =~= comps);
    }
}

fn parse_scan_header(comps: &Vec<Component>, progressive: bool, data: &[u8]) -> (r: Result<(Vec<ScanComponent>, u8, u8, u8, u8)>)
    ensures
        match r {
            Ok((scan, ss, se, ah, al)) => spec_scan_header_full(comps@, progressive, data@)
                == Ok::<(Seq<ScanComponent>, u8, u8, u8, u8), ErrorKind>((scan@, ss, se, ah, al)),
            Err(e) => spec_scan_header_full(comps@, progressive, data@)
                == Err::<(Seq<ScanComponent>, u8, u8, u8, u8), ErrorKind>(e@),
        },
{
    let ghost d = data@;
    if data.len() == 0 {
        return Err(MediaError::eof("empty JPEG SOS"));
    }
    let count = data[0] as usize;
    if count == 0 || count > comps.len() || data.len() != 1 + count * 2 + 3 {
        return Err(MediaError::invalid_data("invalid JPEG SOS component table"));
    }
    let mut scan: Vec<ScanComponent> = Vec::new();
    let mut i: usize = 0;
    while i < count
        invariant
            d == data@,
            count == d[0],
            count != 0,
            count <= comps@.len(),
            d.len() == 1 + 2 * count + 3,
            i <= count,
            scan@ == Seq::new(i as nat, |k: int| scan_entry(comps@, d, k)),
            forall|k: int| 0 <= k < i ==> #[trigger] scan_entry_ok(comps@, d, k),
        decreases count - i,
    {
        let id = data[1 + i * 2];
        let selectors = data[2 + i * 2];
        let ci = match find_component(comps, id) {
            Some(ci) => ci,
            None => {
                assert(!scan_entry_ok(comps@, d, i as int));
                return Err(MediaError::invalid_data("JPEG SOS references unknown component"));
            },
        };
        let mut j: usize = 0;
        while j < i
            invariant
                d == data@,
                d.len() == 1 + 2 * count + 3,
                count == d[0],
                count != 0,
                count <= comps@.len(),
                i < count,
                j <= i,
                id == d[1 + 2 * i],
                forall|k: int| 0 <= k < j ==> #[trigger] d[1 + 2 * k] != id,
            decreases i - j,
        {
            if data[1 + j * 2] == id {
                assert(d[1 + 2 * (j as int)] == d[1 + 2 * (i as int)]);
                assert(!scan_entry_ok(comps@, d, i as int));
                return Err(MediaError::invalid_data("duplicate JPEG scan component"));
            }
            j = j + 1;
        }
        let dc_table = (selectors / 16) as usize;
        let ac_table = (selectors % 16) as usize;
        if dc_table > 3 || ac_table > 3 {
            assert(!scan_entry_ok(comps@, d, i as int));
            return Err(MediaError::invalid_data("invalid JPEG scan Huffman selector"));
        }
        scan.push(ScanComponent { ci, dc_table, ac_table });
        proof {
            assert(scan_entry_ok(comps@, d, i as int));
            assert(scan@ =~= Seq::new((i + 1) as nat, |k: int| scan_entry(comps@, d, k)));
        }
        i = i + 1;
    }
    let ss = data[1 + count * 2];
    let se = data[2 + count * 2];
    let ah_al = data[3 + count * 2];
    let ah = ah_al / 16;
    let al = ah_al % 16;
    if ss > se || se > 63 || ah > 13 || al > 13 {
        return Err(MediaError::invalid_data("invalid JPEG spectral/refinement parameters"));
    }
    if ss != 0 && count != 1 {
        return Err(MediaError::invalid_data("JPEG AC scans must contain one component"));
    }
    if !progressive && (ss != 0 || se != 63 || ah != 0 || al != 0) {
        return Err(MediaError::unsupported("non-progressive JPEG scan is not sequential"));
    }
    if progressive && ah != 0 && ah != al + 1 {
        return Err(MediaError::invalid_data("invalid JPEG progressive successive approximation"));
    }
    Ok((scan, ss, se, ah, al))
}

/// The entropy-coded data of a scan split at its restart markers: stuffed
/// 0xFF 0x00 pairs stand for 0xFF, RSTn markers end a segment and are
/// recorded. `done` holds the finished segments, `cur` the one being read.
pub open spec fn split_walk(raw: Seq<u8>, pos: nat, done: Seq<Seq<u8>>, cur: Seq<u8>, restarts: Seq<u8>)
    -> core::result::Result<(Seq<Seq<u8>>, Seq<u8>), ErrorKind>
    decreases raw.len() - pos,
{
    if pos >= raw.len() {
        Ok((done.push(cur), restarts))
    } else if raw[pos as int] != 0xff {
        split_walk(raw, pos + 1, done, cur.push(raw[pos as int]), restarts)
    } else {
        let next = crate::jpeg::ff_run_end(raw, pos + 1int);
        if next >= raw.len() {
            Err(ErrorKind::EndOfFile)
        } else {
            proof {
                crate::jpeg::lemma_ff_run_end(raw, pos + 1int);
            }
            let code = raw[next];
            if code == 0 {
                split_walk(raw, (next + 1) as nat, done, cur.push(0xffu8), restarts)
            } else if 0xd0 <= code && code <= 0xd7 {
                split_walk(raw, (next + 1) as nat, done.push(cur), Seq::empty(), restarts.push(code))
            } else {
                Err(ErrorKind::InvalidData)
            }
        }
    }
}

pub open spec fn segs_view(v: Seq<Vec<u8>>) -> Seq<Seq<u8>> {
    Seq::new(v.len(), |i: int| v[i]@)
}

fn split_entropy(raw: &[u8]) -> (r: Result<(Vec<Vec<u8>>, Vec<u8>)>)
    ensures
        match r {
            Ok((segs, restarts)) => split_walk(raw@, 0, Seq::empty(), Seq::empty(), Seq::empty())
                == Ok::<(Seq<Seq<u8>>, Seq<u8>), ErrorKind>((segs_view(segs@), restarts@)),
            Err(e) => split_walk(raw@, 0, Seq::empty(), Seq::empty(), Seq::empty())
                == Err::<(Seq<Seq<u8>>, Seq<u8>), ErrorKind>(e@),
        },
{
    let ghost d = raw@;
    let n = raw.len();
    let mut segments: Vec<Vec<u8>> = Vec::new();
    let mut cur: Vec<u8> = Vec::new();
    let mut restarts: Vec<u8> = Vec::new();
    let mut pos: usize = 0;
    assert(segs_view(segments@) =~= Seq::<Seq<u8>>::empty());
    assert(cur@ =~= Seq::<u8>::empty());
    assert(restarts@ =~= Seq::<u8>::empty());
    while pos < n
        invariant
            d == raw@,
            n == d.len(),
            pos <= n,
            split_walk(d, 0, Seq::empty(), Seq::empty(), Seq::empty()) == split_walk(
                d,
                pos as nat,
                segs_view(segments@),
                cur@,
                restarts@,
            ),
        decreases n - pos,
    {
        if raw[pos] != 0xff {
            cur.push(raw[pos]);
            pos = pos + 1;
            continue;
        }
        proof {
            crate::jpeg::lemma_ff_run_end(d, pos + 1int);
        }
        let mut next = pos + 1;
        while next < n && raw[next] == 0xff
            invariant
                d == raw@,
                n == d.len(),
                pos + 1 <= next <= n,
                crate::jpeg::ff_run_end(d, next as int) == crate::jpeg::ff_run_end(d, pos + 1int),
            decreases n - next,
        {
            next = next + 1;
        }
        if next >= n {
            return Err(MediaError::eof("truncated JPEG entropy marker"));
        }
        let code = raw[next];
        if code == 0 {
            cur.push(0xff);
            pos = next + 1;
        } else if 0xd0 <= code && code <= 0xd7 {
            let finished = cur;
            let ghost before = segments@;
            segments.push(finished);
            assert(segs_view(segments@) =~= segs_view(before).push(finished@));
            cur = Vec::new();
            restarts.push(code);
            pos = next + 1;
        } else {
            return Err(MediaError::invalid_data("unexpected marker in JPEG scan payload"));
        }
    }
    let ghost before = segments@;
    let ghost last = cur@;
    segments.push(cur);
    assert(segs_view(segments@) =~= segs_view(before).push(last));
    Ok((segments, restarts))
}

/// The restart markers a scan of `mcus` MCUs with restart interval
/// `interval` must carry: one between each run of `interval` MCUs, RST0 to
/// RST7 in turn.
pub open spec fn restarts_ok(restarts: Seq<u8>, segments: nat, mcus: nat, interval: nat) -> bool {
    let expected: nat = if interval == 0 || mcus == 0 { 0 } else { ((mcus - 1) / interval as int) as nat };
    &&& restarts.len() == expected
    &&& segments == expected + 1
    &&& forall|i: int| 0 <= i < restarts.len() ==> #[trigger] restarts[i] == 0xd0 + i % 8
}

pub fn validate_restarts(restarts: &Vec<u8>, segments: usize, mcu_count: usize, interval: u16) -> (r: Result<()>)
    ensures
        match r {
            Ok(()) => restarts_ok(restarts@, segments as nat, mcu_count as nat, interval as nat),
            Err(e) => !restarts_ok(restarts@, segments as nat, mcu_count as nat, interval as nat) && e@ == ErrorKind::InvalidData,
        },
{
    let expected: usize = if interval == 0 || mcu_count == 0 {
        0
    } else {
        (mcu_count - 1) / interval as usize
    };
    if restarts.len() != expected || segments != expected + 1 {
        return Err(MediaError::invalid_data("JPEG restart marker count mismatch"));
    }
    let mut i: usize = 0;
    while i < restarts.len()
        invariant
            i <= restarts@.len(),
            forall|k: int| 0 <= k < i ==> #[trigger] restarts@[k] == 0xd0 + k % 8,
        decreases restarts@.len() - i,
    {
        if restarts[i] != 0xd0 + (i % 8) as u8 {
            return Err(MediaError::invalid_data("JPEG restart marker sequence mismatch"));
        }
        i = i + 1;
    }
    Ok(())
}

/// What a scan's header and the restart interval fix for its decoding.
#[derive(Debug, Clone, Copy, PartialEq, Eq, Structural)]
pub struct ScanParams {
    pub progressive: bool,
    pub ss: u8,
    pub se: u8,
    pub ah: u8,
    pub al: u8,
    pub interval: u16,
}

/// The decoding state between blocks: coefficients, DC predictors, the
/// pending end-of-band run, the restart segment and the bit position in it.
pub struct ScanState {
    pub coeffs: Seq<i32>,
    pub preds: Seq<i32>,
    pub eob: u32,
    pub seg: nat,
    pub p: BitPos,
}

pub open spec fn seg_data(segs: Seq<Seq<u8>>, seg: nat) -> Seq<u8> {
    if seg < segs.len() {
        segs[seg as int]
    } else {
        Seq::empty()
    }
}

/// The blocks of component `t` of an interleaved scan in MCU `mcu`, row by
/// row: scan index, component and the block's first coefficient.
pub open spec fn comp_mcu_blocks(hdr: FrameHeader, comps: Seq<Component>, scan: Seq<ScanComponent>, mcu: nat, t: nat) -> Seq<(nat, nat, nat)> {
    let ci = scan[t as int].ci as nat;
    let c = comps[ci as int];
    let h = c.h as nat;
    let v = c.v as nat;
    let mx = mcu % (hdr.mcus_x as nat);
    let my = mcu / (hdr.mcus_x as nat);
    Seq::new(h * v, |b: int| (t, ci, (c.base + 64 * ((my * v + b / (h as int)) * c.padded_blocks_x + (mx * h + b % (h as int)))) as nat))
}

pub open spec fn interleaved_blocks(hdr: FrameHeader, comps: Seq<Component>, scan: Seq<ScanComponent>, mcu: nat, t: nat) -> Seq<(nat, nat, nat)>
    decreases t,
{
    if t == 0 {
        Seq::empty()
    } else {
        interleaved_blocks(hdr, comps, scan, mcu, (t - 1) as nat) + comp_mcu_blocks(hdr, comps, scan, mcu, (t - 1) as nat)
    }
}

/// The blocks MCU `mcu` of a scan covers, in coding order.
pub open spec fn block_list(hdr: FrameHeader, comps: Seq<Component>, scan: Seq<ScanComponent>, prm: ScanParams, mcu: nat)
    -> core::result::Result<Seq<(nat, nat, nat)>, ErrorKind> {
    if scan.len() == 1 {
        let ci = scan[0].ci as nat;
        let c = comps[ci as int];
        let x = mcu % (c.actual_blocks_x as nat);
        let y = mcu / (c.actual_blocks_x as nat);
        if y >= c.actual_blocks_y {
            Err(ErrorKind::InvalidData)
        } else {
            Ok(seq![(0nat, ci, (c.base + 64 * (y * c.padded_blocks_x + x)) as nat)])
        }
    } else if prm.progressive && !(prm.ss == 0 && prm.se == 0) {
        Err(ErrorKind::InvalidData)
    } else {
        Ok(interleaved_blocks(hdr, comps, scan, mcu, scan.len()))
    }
}

/// `coeffs` with the 64 coefficients from `start` replaced by `b`.
pub open spec fn splice(coeffs: Seq<i32>, start: nat, b: Seq<i32>) -> Seq<i32> {
    Seq::new(coeffs.len(), |i: int| if start <= i < start + 64 { b[i - start] } else { coeffs[i] })
}

/// One block of a scan: progressive with the scan's band and
/// approximation, or sequential, which needs both tables.
pub open spec fn block_step(
    data: Seq<u8>,
    p: BitPos,
    block: Seq<i32>,
    pred: i32,
    dc: Option<(Seq<u8>, Seq<u8>)>,
    ac: Option<(Seq<u8>, Seq<u8>)>,
    prm: ScanParams,
    eob: u32,
) -> core::result::Result<(Seq<i32>, i32, u32, BitPos), ErrorKind> {
    if prm.progressive {
        spec_prog_block(data, p, block, pred, dc, ac, prm.ss, prm.se, prm.ah, prm.al, eob)
    } else if dc is None || ac is None {
        Err(ErrorKind::InvalidData)
    } else {
        match spec_seq_block(data, p, pred, dc->0, ac->0, block) {
            Err(k) => Err(k),
            Ok((b, pr, p2)) => Ok((b, pr, eob, p2)),
        }
    }
}

pub open spec fn table_at(t: Seq<Option<(Seq<u8>, Seq<u8>)>>, i: usize) -> Option<(Seq<u8>, Seq<u8>)> {
    if i < t.len() {
        t[i as int]
    } else {
        None
    }
}

/// Decodes the blocks of `list` from entry `i` on.
pub open spec fn decode_block_list(
    segs: Seq<Seq<u8>>,
    dcs: Seq<Option<(Seq<u8>, Seq<u8>)>>,
    acs: Seq<Option<(Seq<u8>, Seq<u8>)>>,
    scan: Seq<ScanComponent>,
    prm: ScanParams,
    list: Seq<(nat, nat, nat)>,
    i: nat,
    st: ScanState,
) -> core::result::Result<ScanState, ErrorKind>
    decreases list.len() - i,
{
    if i >= list.len() {
        Ok(st)
    } else {
        let (t, ci, start) = list[i as int];
        if start + 64 > st.coeffs.len() || ci >= st.preds.len() || t >= scan.len() {
            Err(ErrorKind::InvalidData)
        } else {
            let e = scan[t as int];
            match block_step(
                seg_data(segs, st.seg),
                st.p,
                st.coeffs.subrange(start as int, start as int + 64),
                st.preds[ci as int],
                table_at(dcs, e.dc_table),
                table_at(acs, e.ac_table),
                prm,
                st.eob,
            ) {
                Err(k) => Err(k),
                Ok((b, pr, eob, p)) => decode_block_list(
                    segs,
                    dcs,
                    acs,
                    scan,
                    prm,
                    list,
                    i + 1,
                    ScanState { coeffs: splice(st.coeffs, start, b), preds: st.preds.update(ci as int, pr), eob, seg: st.seg, p },
                ),
            }
        }
    }
}

/// Decodes MCUs `mcu` to `count - 1`: at each restart boundary the next
/// segment starts with predictors and end-of-band run reset.
pub open spec fn decode_mcus(
    hdr: FrameHeader,
    comps: Seq<Component>,
    scan: Seq<ScanComponent>,
    prm: ScanParams,
    segs: Seq<Seq<u8>>,
    dcs: Seq<Option<(Seq<u8>, Seq<u8>)>>,
    acs: Seq<Option<(Seq<u8>, Seq<u8>)>>,
    mcu: nat,
    count: nat,
    st: ScanState,
) -> core::result::Result<ScanState, ErrorKind>
    decreases count - mcu,
{
    if mcu >= count {
        Ok(st)
    } else {
        match mcu_step(hdr, comps, scan, prm, segs, dcs, acs, mcu, st) {
            Err(k) => Err(k),
            Ok(st2) => decode_mcus(hdr, comps, scan, prm, segs, dcs, acs, mcu + 1, count, st2),
        }
    }
}

/// The state MCU `mcu` starts from: at a restart boundary the next segment,
/// with predictors and end-of-band run reset.
pub open spec fn restart_adjust(prm: ScanParams, mcu: nat, st: ScanState) -> ScanState {
    if mcu != 0 && prm.interval != 0 && mcu % (prm.interval as nat) == 0 {
        ScanState { coeffs: st.coeffs, preds: Seq::new(st.preds.len(), |_i: int| 0i32), eob: 0, seg: st.seg + 1, p: (0nat, 0nat) }
    } else {
        st
    }
}

/// Decodes MCU `mcu`.
pub open spec fn mcu_step(
    hdr: FrameHeader,
    comps: Seq<Component>,
    scan: Seq<ScanComponent>,
    prm: ScanParams,
    segs: Seq<Seq<u8>>,
    dcs: Seq<Option<(Seq<u8>, Seq<u8>)>>,
    acs: Seq<Option<(Seq<u8>, Seq<u8>)>>,
    mcu: nat,
    st: ScanState,
) -> core::result::Result<ScanState, ErrorKind> {
    match block_list(hdr, comps, scan, prm, mcu) {
        Err(k) => Err(k),
        Ok(list) => decode_block_list(segs, dcs, acs, scan, prm, list, 0, restart_adjust(prm, mcu, st)),
    }
}

/// The MCUs (or, for a one-component scan, the blocks) a scan codes.
pub open spec fn scan_mcu_count(hdr: FrameHeader, comps: Seq<Component>, scan: Seq<ScanComponent>) -> nat {
    if scan.len() == 1 {
        let c = comps[scan[0].ci as int];
        (c.actual_blocks_x * c.actual_blocks_y) as nat
    } else {
        (hdr.mcus_x * hdr.mcus_y) as nat
    }
}

/// Which DC and AC bands of each component earlier progressive scans
/// coded: a first scan of a band must not repeat, a refinement needs its
/// first scan.
pub open spec fn seen_walk(scan: Seq<ScanComponent>, prm: ScanParams, t: nat, dc_seen: Seq<bool>, ac_seen: Seq<bool>)
    -> core::result::Result<(Seq<bool>, Seq<bool>), ErrorKind>
    decreases scan.len() - t,
{
    if t >= scan.len() || !prm.progressive {
        Ok((dc_seen, ac_seen))
    } else {
        let ci = scan[t as int].ci as int;
        if prm.ss == 0 {
            if prm.ah == 0 {
                if dc_seen[ci] {
                    Err(ErrorKind::InvalidData)
                } else {
                    seen_walk(scan, prm, t + 1, dc_seen.update(ci, true), ac_seen)
                }
            } else if !dc_seen[ci] {
                Err(ErrorKind::InvalidData)
            } else {
                seen_walk(scan, prm, t + 1, dc_seen, ac_seen)
            }
        } else if exists|k: int| prm.ss <= k <= prm.se && (if prm.ah == 0 { #[trigger] ac_seen[ci * 64 + k] } else { !ac_seen[ci * 64 + k] }) {
            Err(ErrorKind::InvalidData)
        } else if prm.ah == 0 {
            seen_walk(
                scan,
                prm,
                t + 1,
                dc_seen,
                Seq::new(ac_seen.len(), |i: int| if ci * 64 + prm.ss <= i <= ci * 64 + prm.se { true } else { ac_seen[i] }),
            )
        } else {
            seen_walk(scan, prm, t + 1, dc_seen, ac_seen)
        }
    }
}

/// What decoding one scan does to the coefficients and the band flags.
pub open spec fn spec_decode_scan(
    hdr: FrameHeader,
    comps: Seq<Component>,
    scan: Seq<ScanComponent>,
    prm: ScanParams,
    segs: Seq<Seq<u8>>,
    restarts: Seq<u8>,
    dcs: Seq<Option<(Seq<u8>, Seq<u8>)>>,
    acs: Seq<Option<(Seq<u8>, Seq<u8>)>>,
    coeffs: Seq<i32>,
    dc_seen: Seq<bool>,
    ac_seen: Seq<bool>,
) -> core::result::Result<(Seq<i32>, Seq<bool>, Seq<bool>), ErrorKind> {
    let count = scan_mcu_count(hdr, comps, scan);
    if count > usize::MAX {
        Err(ErrorKind::Overflow)
    } else if !restarts_ok(restarts, segs.len(), count, prm.interval as nat) {
        Err(ErrorKind::InvalidData)
    } else {
        let st0 = ScanState { coeffs, preds: Seq::new(comps.len(), |_i: int| 0i32), eob: 0, seg: 0, p: (0nat, 0nat) };
        match decode_mcus(hdr, comps, scan, prm, segs, dcs, acs, 0, count, st0) {
            Err(k) => Err(k),
            Ok(st) => match seen_walk(scan, prm, 0, dc_seen, ac_seen) {
                Err(k) => Err(k),
                Ok((d2, a2)) => Ok((st.coeffs, d2, a2)),
            },
        }
    }
}

/// Block lists by value.
pub open spec fn list_view(v: Seq<(usize, usize, u128)>) -> Seq<(nat, nat, nat)> {
    Seq::new(v.len(), |i: int| (v[i].0 as nat, v[i].1 as nat, v[i].2 as nat))
}

pub open spec fn scan_ok(comps: Seq<Component>, scan: Seq<ScanComponent>) -> bool {
    &&& 1 <= scan.len() <= 4
    &&& forall|t: int| 0 <= t < scan.len() ==> (#[trigger] scan[t]).ci < comps.len()
}

fn block_list_exec(
    hdr: FrameHeader,
    comps: &Vec<Component>,
    scan: &Vec<ScanComponent>,
    prm: ScanParams,
    mcu: usize,
) -> (r: Result<Vec<(usize, usize, u128)>>)
    requires
        geometry_ok(hdr, comps@),
        scan_ok(comps@, scan@),
        mcu < scan_mcu_count(hdr, comps@, scan@),
    ensures
        match r {
            Ok(v) => block_list(hdr, comps@, scan@, prm, mcu as nat) == Ok::<Seq<(nat, nat, nat)>, ErrorKind>(list_view(v@)),
            Err(e) => block_list(hdr, comps@, scan@, prm, mcu as nat) == Err::<Seq<(nat, nat, nat)>, ErrorKind>(e@),
        },
{
    if scan.len() == 1 {
        let ci = scan[0].ci;
        let c = comps[ci];
        assert(comp_geometry_ok(comps@[ci as int]));
        let x = mcu % c.actual_blocks_x;
        let y = mcu / c.actual_blocks_x;
        if y >= c.actual_blocks_y {
            return Err(MediaError::invalid_data("JPEG non-interleaved block index out of range"));
        }
        assert((y as u128) * (c.padded_blocks_x as u128) + (x as u128) <= 262140 * 262140 + 262140) by (nonlinear_arith)
            requires y < 262140, c.padded_blocks_x <= 262140, x < 262140;
        let start: u128 = c.base as u128 + 64 * ((y as u128) * (c.padded_blocks_x as u128) + (x as u128));
        let mut v: Vec<(usize, usize, u128)> = Vec::new();
        v.push((0, ci, start));
        assert(list_view(v@) =~= seq![(0nat, ci as nat, (c.base + 64 * (y * c.padded_blocks_x + x)) as nat)]);
        return Ok(v);
    }
    if prm.progressive && !(prm.ss == 0 && prm.se == 0) {
        return Err(MediaError::invalid_data("progressive interleaved scan may contain DC only"));
    }
    let mx = mcu % hdr.mcus_x;
    let my = mcu / hdr.mcus_x;
    assert(my < 65535) by (nonlinear_arith)
        requires my as int == (mcu as int) / (hdr.mcus_x as int), mcu < hdr.mcus_x * hdr.mcus_y, hdr.mcus_x >= 1, hdr.mcus_y <= 65535;
    let mut v: Vec<(usize, usize, u128)> = Vec::new();
    let mut t: usize = 0;
    while t < scan.len()
        invariant
            geometry_ok(hdr, comps@),
            scan_ok(comps@, scan@),
            t <= scan@.len(),
            mx as nat == (mcu as nat) % (hdr.mcus_x as nat),
            my as nat == (mcu as nat) / (hdr.mcus_x as nat),
            mx < hdr.mcus_x,
            my < 65535,
            list_view(v@) == interleaved_blocks(hdr, comps@, scan@, mcu as nat, t as nat),
        decreases scan@.len() - t,
    {
        let ci = scan[t].ci;
        let c = comps[ci];
        assert(comp_geometry_ok(comps@[ci as int]));
        let h = c.h as usize;
        let vv = c.v as usize;
        let ghost before = list_view(v@);
        assert(h * vv <= 16) by (nonlinear_arith) requires h <= 4, vv <= 4;
        let hv = h * vv;
        let mut b: usize = 0;
        while b < hv
            invariant
                1 <= h <= 4,
                1 <= vv <= 4,
                hv == h * vv,
                b <= hv,
                c == comps@[ci as int],
                ci == scan@[t as int].ci,
                t < scan@.len(),
                c.h == h,
                c.v == vv,
                c.padded_blocks_x <= 262140,
                mx as nat == (mcu as nat) % (hdr.mcus_x as nat),
                my as nat == (mcu as nat) / (hdr.mcus_x as nat),
                mx < 65535,
                my < 65535,
                list_view(v@) == before + comp_mcu_blocks(hdr, comps@, scan@, mcu as nat, t as nat).subrange(0, b as int),
            decreases hv - b,
        {
            let by = b / h;
            let bx = b % h;
            assert(by < vv && bx < h) by (nonlinear_arith)
                requires by == b / h, bx == b % h, b < h * vv, h >= 1;
            assert(my as u128 * vv as u128 <= 65535 * 4) by (nonlinear_arith) requires my < 65535, vv <= 4;
            assert(mx as u128 * h as u128 <= 65535 * 4) by (nonlinear_arith) requires mx < 65535, h <= 4;
            assert((my as u128 * vv as u128 + by as u128) * (c.padded_blocks_x as u128) <= (65535 * 4 + 4) * 262140) by (nonlinear_arith)
                requires my as u128 * vv as u128 <= 65535 * 4, by < 4, c.padded_blocks_x <= 262140;
            assert((my as u128 * vv as u128 + by as u128) * (c.padded_blocks_x as u128) + (mx as u128 * h as u128 + bx as u128)
                <= (65535 * 4 + 4) * 262140 + 65535 * 4 + 4) by (nonlinear_arith)
                requires my < 65535, vv <= 4, by < 4, c.padded_blocks_x <= 262140, mx < 65535, h <= 4, bx < 4;
            let start: u128 = c.base as u128 + 64 * ((my as u128 * vv as u128 + by as u128) * (c.padded_blocks_x as u128)
                + (mx as u128 * h as u128 + bx as u128));
            let ghost prev = list_view(v@);
            v.push((t, ci, start));
            assert(list_view(v@) =~= prev.push((t as nat, ci as nat, start as nat)));
            assert(comp_mcu_blocks(hdr, comps@, scan@, mcu as nat, t as nat).subrange(0, b as int + 1) =~= comp_mcu_blocks(
                hdr,
                comps@,
                scan@,
                mcu as nat,
                t as nat,
            ).subrange(0, b as int).push((t as nat, ci as nat, start as nat)));
            b = b + 1;
        }
        assert(comp_mcu_blocks(hdr, comps@, scan@, mcu as nat, t as nat).subrange(0, hv as int) =~= comp_mcu_blocks(
            hdr,
            comps@,
            scan@,
            mcu as nat,
            t as nat,
        ));
        t = t + 1;
    }
    Ok(v)
}

/// Decodes the blocks of `list` in order, in restart segment `seg`.
fn decode_blocks_exec(
    list: &Vec<(usize, usize, u128)>,
    segs: &Vec<Vec<u8>>,
    dcs: &Vec<Option<Huffman>>,
    acs: &Vec<Option<Huffman>>,
    scan: &Vec<ScanComponent>,
    prm: ScanParams,
    coeffs: &mut Vec<i32>,
    preds: &mut Vec<i32>,
    eob: &mut u32,
    seg: usize,
    reader: &mut BitReader,
) -> (r: Result<()>)
    requires
        old(reader).wf(seg_data(segs_view(segs@), seg as nat)),
        htables_wf(dcs@),
        htables_wf(acs@),
        prm.ss <= prm.se,
        prm.se < 64,
        prm.al <= 13,
    ensures
        final(reader).wf(seg_data(segs_view(segs@), seg as nat)),
        final(coeffs)@.len() == old(coeffs)@.len(),
        final(preds)@.len() == old(preds)@.len(),
        match r {
            Ok(()) => decode_block_list(
                segs_view(segs@),
                htables_view(dcs@),
                htables_view(acs@),
                scan@,
                prm,
                list_view(list@),
                0,
                ScanState { coeffs: old(coeffs)@, preds: old(preds)@, eob: *old(eob), seg: seg as nat, p: old(reader).at() },
            ) == Ok::<ScanState, ErrorKind>(
                ScanState { coeffs: final(coeffs)@, preds: final(preds)@, eob: *final(eob), seg: seg as nat, p: final(reader).at() },
            ),
            Err(e) => decode_block_list(
                segs_view(segs@),
                htables_view(dcs@),
                htables_view(acs@),
                scan@,
                prm,
                list_view(list@),
                0,
                ScanState { coeffs: old(coeffs)@, preds: old(preds)@, eob: *old(eob), seg: seg as nat, p: old(reader).at() },
            ) == Err::<ScanState, ErrorKind>(e@),
        },
{
    let ghost segv = segs_view(segs@);
    let ghost dcv = htables_view(dcs@);
    let ghost acv = htables_view(acs@);
    let ghost lv = list_view(list@);
    let empty: Vec<u8> = Vec::new();
    let data: &[u8] = if seg < segs.len() {
        segs[seg].as_slice()
    } else {
        empty.as_slice()
    };
    assert(data@ == seg_data(segv, seg as nat));
    let n = coeffs.len();
    let mut i: usize = 0;
    while i < list.len()
        invariant
            segv == segs_view(segs@),
            dcv == htables_view(dcs@),
            acv == htables_view(acs@),
            lv == list_view(list@),
            data@ == seg_data(segv, seg as nat),
            reader.wf(data@),
            htables_wf(dcs@),
            htables_wf(acs@),
            prm.ss <= prm.se,
            prm.se < 64,
            prm.al <= 13,
            i <= list@.len(),
            n == coeffs@.len(),
            coeffs@.len() == old(coeffs)@.len(),
            preds@.len() == old(preds)@.len(),
            decode_block_list(
                segv,
                dcv,
                acv,
                scan@,
                prm,
                lv,
                0,
                ScanState { coeffs: old(coeffs)@, preds: old(preds)@, eob: *old(eob), seg: seg as nat, p: old(reader).at() },
            ) == decode_block_list(
                segv,
                dcv,
                acv,
                scan@,
                prm,
                lv,
                i as nat,
                ScanState { coeffs: coeffs@, preds: preds@, eob: *eob, seg: seg as nat, p: reader.at() },
            ),
        decreases list@.len() - i,
    {
        let (t, ci, start_wide) = list[i];
        if start_wide > n as u128 || (n as u128) - start_wide < 64 || ci >= preds.len() || t >= scan.len() {
            return Err(MediaError::invalid_data("JPEG block index out of range"));
        }
        let start = start_wide as usize;
        let e = scan[t];
        let dc = table_ref(dcs, e.dc_table);
        let ac = table_ref(acs, e.ac_table);
        let mut block = copy_block(coeffs, start);
        let mut pred = preds[ci];
        let ghost before = coeffs@;
        decode_one_block(reader, data, &mut block, &mut pred, eob, dc, ac, prm)?;
        store_block(coeffs, start, &block);
        preds.set(ci, pred);
        i = i + 1;
    }
    Ok(())
}

fn table_ref(t: &Vec<Option<Huffman>>, i: usize) -> (r: Option<&Huffman>)
    requires
        htables_wf(t@),
    ensures
        opt_tables(r) == table_at(htables_view(t@), i),
        r matches Some(h) ==> h.wf(),
{
    if i < t.len() {
        t[i].as_ref()
    } else {
        None
    }
}

fn copy_block(coeffs: &Vec<i32>, start: usize) -> (b: Vec<i32>)
    requires
        start + 64 <= coeffs@.len(),
    ensures
        b@ == coeffs@.subrange(start as int, start as int + 64),
{
    let n = coeffs.len();
    let mut block: Vec<i32> = Vec::new();
    let mut k: usize = 0;
    while k < 64
        invariant
            n == coeffs@.len(),
            start + 64 <= n,
            k <= 64,
            block@ == coeffs@.subrange(start as int, start + k),
        decreases 64 - k,
    {
        block.push(coeffs[start + k]);
        k = k + 1;
    }
    block
}

fn store_block(coeffs: &mut Vec<i32>, start: usize, block: &Vec<i32>)
    requires
        start + 64 <= old(coeffs)@.len(),
        block@.len() == 64,
    ensures
        final(coeffs)@ == splice(old(coeffs)@, start as nat, block@),
{
    let n = coeffs.len();
    let mut k: usize = 0;
    while k < 64
        invariant
            n == coeffs@.len(),
            start + 64 <= n,
            coeffs@.len() == old(coeffs)@.len(),
            block@.len() == 64,
            k <= 64,
            forall|j: int| 0 <= j < n ==> #[trigger] coeffs@[j] == if start <= j < start + k {
                block@[j - start]
            } else {
                old(coeffs)@[j]
            },
        decreases 64 - k,
    {
        coeffs.set(start + k, block[k]);
        k = k + 1;
    }
    assert(coeffs@ =~= splice(old(coeffs)@, start as nat, block@));
}

fn decode_one_block(
    reader: &mut BitReader,
    data: &[u8],
    block: &mut Vec<i32>,
    pred: &mut i32,
    eob: &mut u32,
    dc: Option<&Huffman>,
    ac: Option<&Huffman>,
    prm: ScanParams,
) -> (r: Result<()>)
    requires
        old(reader).wf(data@),
        old(block)@.len() == 64,
        dc matches Some(t) ==> t.wf(),
        ac matches Some(t) ==> t.wf(),
        prm.ss <= prm.se,
        prm.se < 64,
        prm.al <= 13,
    ensures
        final(reader).wf(data@),
        final(block)@.len() == 64,
        match r {
            Ok(()) => block_step(data@, old(reader).at(), old(block)@, *old(pred), opt_tables(dc), opt_tables(ac), prm, *old(eob))
                == Ok::<(Seq<i32>, i32, u32, BitPos), ErrorKind>((final(block)@, *final(pred), *final(eob), final(reader).at())),
            Err(e) => block_step(data@, old(reader).at(), old(block)@, *old(pred), opt_tables(dc), opt_tables(ac), prm, *old(eob))
                == Err::<(Seq<i32>, i32, u32, BitPos), ErrorKind>(e@),
        },
{
    if prm.progressive {
        decode_progressive_block(reader, data, block, pred, dc, ac, prm.ss, prm.se, prm.ah, prm.al, eob)
    } else {
        let dct = match dc {
            Some(t) => t,
            None => return Err(MediaError::invalid_data("missing JPEG DC table")),
        };
        let act = match ac {
            Some(t) => t,
            None => return Err(MediaError::invalid_data("missing JPEG AC table")),
        };
        decode_sequential_block(reader, data, block, pred, dct, act)
    }
}

fn zeros_i32(n: usize) -> (v: Vec<i32>)
    ensures
        v@ == Seq::new(n as nat, |_i: int| 0i32),
{
    let mut v: Vec<i32> = Vec::new();
    let mut i: usize = 0;
    while i < n
        invariant
            i <= n,
            v@ == Seq::new(i as nat, |_i: int| 0i32),
        decreases n - i,
    {
        v.push(0);
        i = i + 1;
        assert(v@ =~= Seq::new(i as nat, |_i: int| 0i32));
    }
    v
}

fn scan_mcu_count_exec(hdr: FrameHeader, comps: &Vec<Component>, scan: &Vec<ScanComponent>) -> (r: Result<usize>)
    requires
        geometry_ok(hdr, comps@),
        scan_ok(comps@, scan@),
    ensures
        match r {
            Ok(n) => n == scan_mcu_count(hdr, comps@, scan@),
            Err(e) => scan_mcu_count(hdr, comps@, scan@) > usize::MAX && e@ == ErrorKind::Overflow,
        },
{
    let (a, b) = if scan.len() == 1 {
        let c = comps[scan[0].ci];
        assert(comp_geometry_ok(comps@[scan@[0].ci as int]));
        (c.actual_blocks_x as u64, c.actual_blocks_y as u64)
    } else {
        (hdr.mcus_x as u64, hdr.mcus_y as u64)
    };
    assert(a * b <= 262140 * 262140) by (nonlinear_arith)
        requires a <= 262140, b <= 262140;
    let n = a * b;
    if n > usize::MAX as u64 {
        return Err(MediaError::overflow("JPEG scan block count overflow"));
    }
    Ok(n as usize)
}

fn seen_exec(scan: &Vec<ScanComponent>, prm: ScanParams, dc_seen: &mut Vec<bool>, ac_seen: &mut Vec<bool>) -> (r: Result<()>)
    requires
        forall|t: int| 0 <= t < scan@.len() ==> (#[trigger] scan@[t]).ci < old(dc_seen)@.len(),
        old(ac_seen)@.len() == 64 * old(dc_seen)@.len(),
        prm.ss <= prm.se,
        prm.se < 64,
    ensures
        final(dc_seen)@.len() == old(dc_seen)@.len(),
        final(ac_seen)@.len() == old(ac_seen)@.len(),
        match r {
            Ok(()) => seen_walk(scan@, prm, 0, old(dc_seen)@, old(ac_seen)@)
                == Ok::<(Seq<bool>, Seq<bool>), ErrorKind>((final(dc_seen)@, final(ac_seen)@)),
            Err(e) => seen_walk(scan@, prm, 0, old(dc_seen)@, old(ac_seen)@) == Err::<(Seq<bool>, Seq<bool>), ErrorKind>(e@),
        },
{
    if !prm.progressive {
        return Ok(());
    }
    let nd = dc_seen.len();
    let na = ac_seen.len();
    let mut t: usize = 0;
    while t < scan.len()
        invariant
            prm.progressive,
            forall|u: int| 0 <= u < scan@.len() ==> (#[trigger] scan@[u]).ci < nd,
            nd == dc_seen@.len(),
            na == ac_seen@.len(),
            na == 64 * nd,
            nd == old(dc_seen)@.len(),
            na == old(ac_seen)@.len(),
            prm.ss <= prm.se,
            prm.se < 64,
            t <= scan@.len(),
            seen_walk(scan@, prm, 0, old(dc_seen)@, old(ac_seen)@) == seen_walk(scan@, prm, t as nat, dc_seen@, ac_seen@),
        decreases scan@.len() - t,
    {
        let ci = scan[t].ci;
        if prm.ss == 0 {
            if prm.ah == 0 {
                if dc_seen[ci] {
                    return Err(MediaError::invalid_data("duplicate progressive JPEG DC first scan"));
                }
                dc_seen.set(ci, true);
            } else if !dc_seen[ci] {
                return Err(MediaError::invalid_data("progressive JPEG DC refinement precedes first scan"));
            }
        } else {
            assert(ci * 64 + 64 <= na) by (nonlinear_arith) requires ci < nd, na == 64 * nd;
            let mut k = prm.ss as usize;
            while k <= prm.se as usize
                invariant
                    ci * 64 + 64 <= na,
                    na == ac_seen@.len(),
                    nd == dc_seen@.len(),
                    nd == old(dc_seen)@.len(),
                    na == old(ac_seen)@.len(),
                    prm.progressive,
                    prm.ss != 0,
                    t < scan@.len(),
                    ci == scan@[t as int].ci,
                    seen_walk(scan@, prm, 0, old(dc_seen)@, old(ac_seen)@) == seen_walk(scan@, prm, t as nat, dc_seen@, ac_seen@),
                    prm.ss <= k <= prm.se + 1,
                    prm.se < 64,
                    forall|j: int| prm.ss <= j < k ==> !(if prm.ah == 0 { #[trigger] ac_seen@[ci * 64 + j] } else { !ac_seen@[ci * 64 + j] }),
                decreases prm.se + 1 - k,
            {
                let f = ac_seen[ci * 64 + k];
                if prm.ah == 0 && f {
                    return Err(MediaError::invalid_data("overlapping progressive JPEG AC first scans"));
                }
                if prm.ah != 0 && !f {
                    return Err(MediaError::invalid_data("progressive JPEG AC refinement precedes first scan"));
                }
                k = k + 1;
            }
            if prm.ah == 0 {
                let ghost before = ac_seen@;
                let mut k = prm.ss as usize;
                while k <= prm.se as usize
                    invariant
                        ci * 64 + 64 <= na,
                        na == ac_seen@.len(),
                        prm.ss <= k <= prm.se + 1,
                        prm.se < 64,
                        forall|j: int| 0 <= j < na ==> #[trigger] ac_seen@[j] == if ci * 64 + prm.ss <= j < ci * 64 + k {
                            true
                        } else {
                            before[j]
                        },
                    decreases prm.se + 1 - k,
                {
                    ac_seen.set(ci * 64 + k, true);
                    k = k + 1;
                }
                assert(ac_seen@ =~= Seq::new(before.len(), |i: int| if ci * 64 + prm.ss <= i <= ci * 64 + prm.se { true } else { before[i] }));
            }
        }
        t = t + 1;
    }
    Ok(())
}

fn decode_mcu(
    hdr: FrameHeader,
    comps: &Vec<Component>,
    scan: &Vec<ScanComponent>,
    prm: ScanParams,
    segs: &Vec<Vec<u8>>,
    dcs: &Vec<Option<Huffman>>,
    acs: &Vec<Option<Huffman>>,
    mcu: usize,
    coeffs: &mut Vec<i32>,
    preds: &mut Vec<i32>,
    eob: &mut u32,
    seg: &mut usize,
    reader: &mut BitReader,
) -> (r: Result<()>)
    requires
        geometry_ok(hdr, comps@),
        scan_ok(comps@, scan@),
        htables_wf(dcs@),
        htables_wf(acs@),
        prm.ss <= prm.se,
        prm.se < 64,
        prm.al <= 13,
        mcu < scan_mcu_count(hdr, comps@, scan@),
        mcu < usize::MAX,
        *old(seg) <= mcu,
        old(reader).wf(seg_data(segs_view(segs@), *old(seg) as nat)),
    ensures
        *final(seg) <= mcu + 1,
        final(reader).wf(seg_data(segs_view(segs@), *final(seg) as nat)),
        final(coeffs)@.len() == old(coeffs)@.len(),
        final(preds)@.len() == old(preds)@.len(),
        match r {
            Ok(()) => mcu_step(
                hdr,
                comps@,
                scan@,
                prm,
                segs_view(segs@),
                htables_view(dcs@),
                htables_view(acs@),
                mcu as nat,
                ScanState { coeffs: old(coeffs)@, preds: old(preds)@, eob: *old(eob), seg: *old(seg) as nat, p: old(reader).at() },
            ) == Ok::<ScanState, ErrorKind>(
                ScanState { coeffs: final(coeffs)@, preds: final(preds)@, eob: *final(eob), seg: *final(seg) as nat, p: final(reader).at() },
            ),
            Err(e) => mcu_step(
                hdr,
                comps@,
                scan@,
                prm,
                segs_view(segs@),
                htables_view(dcs@),
                htables_view(acs@),
                mcu as nat,
                ScanState { coeffs: old(coeffs)@, preds: old(preds)@, eob: *old(eob), seg: *old(seg) as nat, p: old(reader).at() },
            ) == Err::<ScanState, ErrorKind>(e@),
        },
{
    if mcu != 0 && prm.interval != 0 && mcu % (prm.interval as usize) == 0 {
        *seg = *seg + 1;
        *preds = zeros_i32(preds.len());
        *eob = 0;
        *reader = BitReader::new();
    }
    let list = block_list_exec(hdr, comps, scan, prm, mcu)?;
    decode_blocks_exec(&list, segs, dcs, acs, scan, prm, coeffs, preds, eob, *seg, reader)
}

/// Decodes one scan into the frame's coefficient storage and records the
/// bands it coded.
#[verifier::rlimit(60)]
pub fn decode_scan(
    hdr: FrameHeader,
    comps: &Vec<Component>,
    scan: &Vec<ScanComponent>,
    prm: ScanParams,
    segs: &Vec<Vec<u8>>,
    restarts: &Vec<u8>,
    dcs: &Vec<Option<Huffman>>,
    acs: &Vec<Option<Huffman>>,
    coeffs: &mut Vec<i32>,
    dc_seen: &mut Vec<bool>,
    ac_seen: &mut Vec<bool>,
) -> (r: Result<()>)
    requires
        geometry_ok(hdr, comps@),
        scan_ok(comps@, scan@),
        htables_wf(dcs@),
        htables_wf(acs@),
        prm.ss <= prm.se,
        prm.se < 64,
        prm.al <= 13,
        old(dc_seen)@.len() == comps@.len(),
        old(ac_seen)@.len() == 64 * comps@.len(),
    ensures
        final(coeffs)@.len() == old(coeffs)@.len(),
        final(dc_seen)@.len() == old(dc_seen)@.len(),
        final(ac_seen)@.len() == old(ac_seen)@.len(),
        match r {
            Ok(()) => spec_decode_scan(hdr, comps@, scan@, prm, segs_view(segs@), restarts@, htables_view(dcs@), htables_view(acs@), old(coeffs)@, old(dc_seen)@, old(ac_seen)@)
                == Ok::<(Seq<i32>, Seq<bool>, Seq<bool>), ErrorKind>((final(coeffs)@, final(dc_seen)@, final(ac_seen)@)),
            Err(e) => spec_decode_scan(hdr, comps@, scan@, prm, segs_view(segs@), restarts@, htables_view(dcs@), htables_view(acs@), old(coeffs)@, old(dc_seen)@, old(ac_seen)@)
                == Err::<(Seq<i32>, Seq<bool>, Seq<bool>), ErrorKind>(e@),
        },
{
    let ghost segv = segs_view(segs@);
    let ghost dcv = htables_view(dcs@);
    let ghost acv = htables_view(acs@);
    let count = scan_mcu_count_exec(hdr, comps, scan)?;
    validate_restarts(restarts, segs.len(), count, prm.interval)?;
    let mut preds = zeros_i32(comps.len());
    let mut eob: u32 = 0;
    let mut seg: usize = 0;
    let mut reader = BitReader::new();
    let ghost st0 = ScanState { coeffs: coeffs@, preds: preds@, eob: 0, seg: 0, p: (0nat, 0nat) };
    assert(segs_view(segs@).len() == segs@.len());
    let mut mcu: usize = 0;
    while mcu < count
        invariant
            geometry_ok(hdr, comps@),
            scan_ok(comps@, scan@),
            htables_wf(dcs@),
            htables_wf(acs@),
            segv == segs_view(segs@),
            dcv == htables_view(dcs@),
            acv == htables_view(acs@),
            prm.ss <= prm.se,
            prm.se < 64,
            prm.al <= 13,
            count == scan_mcu_count(hdr, comps@, scan@),
            restarts_ok(restarts@, segv.len(), count as nat, prm.interval as nat),
            st0 == (ScanState { coeffs: old(coeffs)@, preds: Seq::new(comps@.len(), |_i: int| 0i32), eob: 0, seg: 0, p: (0nat, 0nat) }),
            mcu <= count,
            seg <= mcu,
            preds@.len() == comps@.len(),
            coeffs@.len() == old(coeffs)@.len(),
            reader.wf(seg_data(segv, seg as nat)),
            decode_mcus(hdr, comps@, scan@, prm, segv, dcv, acv, 0, count as nat, st0) == decode_mcus(
                hdr,
                comps@,
                scan@,
                prm,
                segv,
                dcv,
                acv,
                mcu as nat,
                count as nat,
                ScanState { coeffs: coeffs@, preds: preds@, eob, seg: seg as nat, p: reader.at() },
            ),
        decreases count - mcu,
    {
        decode_mcu(hdr, comps, scan, prm, segs, dcs, acs, mcu, coeffs, &mut preds, &mut eob, &mut seg, &mut reader)?;
        mcu = mcu + 1;
    }
    seen_exec(scan, prm, dc_seen, ac_seen)
}

/// What the decoder has gathered from the markers so far.
pub struct DecodeState {
    pub frame: Option<(FrameHeader, Seq<Component>)>,
    pub coeffs: Seq<i32>,
    pub dc_seen: Seq<bool>,
    pub ac_seen: Seq<bool>,
    pub q: Seq<Option<Seq<u16>>>,
    pub dcs: Seq<Option<(Seq<u8>, Seq<u8>)>>,
    pub acs: Seq<Option<(Seq<u8>, Seq<u8>)>>,
    pub interval: u16,
    pub saw_scan: bool,
}

pub open spec fn decode_start() -> DecodeState {
    DecodeState {
        frame: None,
        coeffs: Seq::empty(),
        dc_seen: Seq::empty(),
        ac_seen: Seq::empty(),
        q: Seq::new(4, |_i: int| None),
        dcs: Seq::new(4, |_i: int| None),
        acs: Seq::new(4, |_i: int| None),
        interval: 0,
        saw_scan: false,
    }
}

/// Frame codes the decoder refuses: lossless, hierarchical and arithmetic
/// coding.
pub open spec fn refused_sof(code: u8) -> bool {
    code == 0xc1 || code == 0xc3 || (0xc5 <= code && code <= 0xc7) || (0xc9 <= code && code <= 0xcf)
}

/// What a marker segment other than SOS does to the state.
pub open spec fn segment_step(st: DecodeState, code: u8, seg: Seq<u8>) -> core::result::Result<DecodeState, ErrorKind> {
    if code == 0xdb {
        match dqt_walk(seg, 0, st.q) {
            Err(k) => Err(k),
            Ok(q) => Ok(DecodeState { q, ..st }),
        }
    } else if code == 0xc4 {
        match dht_walk(seg, 0, st.dcs, st.acs) {
            Err(k) => Err(k),
            Ok((dcs, acs)) => Ok(DecodeState { dcs, acs, ..st }),
        }
    } else if code == 0xdd {
        if seg.len() != 2 {
            Err(ErrorKind::InvalidData)
        } else {
            Ok(DecodeState { interval: (256 * seg[0] as nat + seg[1] as nat) as u16, ..st })
        }
    } else if code == 0xc0 || code == 0xc2 {
        if st.frame is Some {
            Err(ErrorKind::InvalidData)
        } else {
            match spec_frame(code, seg) {
                Err(k) => Err(k),
                Ok((hdr, comps)) => Ok(
                    DecodeState {
                        frame: Some((hdr, comps)),
                        coeffs: Seq::new(storage_upto(seg, hdr, comps.len()), |_i: int| 0i32),
                        dc_seen: Seq::new(comps.len(), |_i: int| false),
                        ac_seen: Seq::new(64 * comps.len(), |_i: int| false),
                        ..st
                    },
                ),
            }
        }
    } else if refused_sof(code) {
        Err(ErrorKind::Unsupported)
    } else {
        Ok(st)
    }
}

/// An SOS segment and the entropy-coded data after it, from `p2` in `s`:
/// the scan is decoded into the state. Gives the position of the marker
/// after the scan.
pub open spec fn scan_step(st: DecodeState, s: Seq<u8>, p2: nat, seg: Seq<u8>) -> core::result::Result<(DecodeState, nat), ErrorKind> {
    match st.frame {
        None => Err(ErrorKind::InvalidData),
        Some((hdr, comps)) => match spec_scan_header_full(comps, hdr.progressive, seg) {
            Err(k) => Err(k),
            Ok((scan, ss, se, ah, al)) => match crate::jpeg::spec_skip_entropy(s, p2) {
                Err(k) => Err(k),
                Ok(end) => match split_walk(s.subrange(p2 as int, end as int), 0, Seq::empty(), Seq::empty(), Seq::empty()) {
                    Err(k) => Err(k),
                    Ok((segs, restarts)) => {
                        let prm = ScanParams { progressive: hdr.progressive, ss, se, ah, al, interval: st.interval };
                        match spec_decode_scan(hdr, comps, scan, prm, segs, restarts, st.dcs, st.acs, st.coeffs, st.dc_seen, st.ac_seen) {
                            Err(k) => Err(k),
                            Ok((coeffs, dc_seen, ac_seen)) => Ok((DecodeState { coeffs, dc_seen, ac_seen, saw_scan: true, ..st }, end)),
                        }
                    },
                },
            },
        },
    }
}

/// Walks the markers from `pos` until EOI or the end of the input. Gives
/// the state, the position reached and whether EOI ended the walk.
#[verifier::opaque]
pub open spec fn decode_walk(s: Seq<u8>, pos: nat, st: DecodeState) -> core::result::Result<(DecodeState, nat, bool), ErrorKind>
    decreases s.len() - pos,
{
    if pos >= s.len() {
        Ok((st, pos, false))
    } else if s[pos as int] != 0xff {
        Err(ErrorKind::InvalidData)
    } else {
        let m = crate::jpeg::ff_run_end(s, pos as int);
        if m >= s.len() {
            Err(ErrorKind::EndOfFile)
        } else {
            proof {
                crate::jpeg::lemma_ff_run_end(s, pos as int);
            }
            let code = s[m];
            let p = (m + 1) as nat;
            if code == 0xd9 {
                Ok((st, p, true))
            } else if code == 0xd8 || code == 0x01 || (0xd0 <= code && code <= 0xd7) {
                Err(ErrorKind::InvalidData)
            } else {
                match crate::jpeg::spec_segment(s, p) {
                    Err(k) => Err(k),
                    Ok((seg, p2)) => if code == 0xda {
                        match scan_step(st, s, p2, seg) {
                            Err(k) => Err(k),
                            Ok((st2, end)) => {
                                proof {
                                    crate::jpeg::lemma_skip_advances(s, p2);
                                }
                                decode_walk(s, end, st2)
                            },
                        }
                    } else {
                        match segment_step(st, code, seg) {
                            Err(k) => Err(k),
                            Ok(st2) => decode_walk(s, p2, st2),
                        }
                    },
                }
            }
        }
    }
}

/// Coefficient `j` of component `comp` scaled by its quantizer.
pub open spec fn dequantized(comp: Component, q: Seq<Option<Seq<u16>>>, coeffs: Seq<i32>, j: int) -> int {
    coeffs[comp.base + j] * (q[comp.tq as int]->0[j % 64] as int)
}

/// Every component's quantization table is defined, and scaling each
/// coefficient by it stays within `i32`; else the first component without a
/// table or with an overflowing product refuses, in component order.
pub open spec fn dequant_from(comps: Seq<Component>, q: Seq<Option<Seq<u16>>>, coeffs: Seq<i32>, c: nat) -> Option<ErrorKind>
    decreases comps.len() - c,
{
    if c >= comps.len() {
        None
    } else {
        let comp = comps[c as int];
        if comp.tq >= q.len() || q[comp.tq as int] is None {
            Some(ErrorKind::InvalidData)
        } else if exists|j: int| 0 <= j < 64 * comp_blocks(comp)
            && !(i32::MIN <= #[trigger] dequantized(comp, q, coeffs, j) <= i32::MAX) {
            Some(ErrorKind::Overflow)
        } else {
            dequant_from(comps, q, coeffs, c + 1)
        }
    }
}

/// The dequantized coefficients of components `c` on, one after another.
pub open spec fn dequant_concat(comps: Seq<Component>, q: Seq<Option<Seq<u16>>>, coeffs: Seq<i32>, c: nat) -> Seq<i32>
    decreases comps.len() - c,
{
    if c >= comps.len() {
        Seq::empty()
    } else {
        let comp = comps[c as int];
        Seq::new(64 * comp_blocks(comp), |j: int| dequantized(comp, q, coeffs, j) as i32) + dequant_concat(comps, q, coeffs, c + 1)
    }
}

/// The dequantized coefficients of a decoded stream: its frame header, its
/// components and, for each, its blocks of 64 coefficients in row-major
/// order.
pub open spec fn spec_decode_coefficients(s: Seq<u8>) -> core::result::Result<(FrameHeader, Seq<Component>, Seq<i32>), ErrorKind> {
    if s.len() < 4 || s[0] != 0xff || s[1] != 0xd8 {
        Err(ErrorKind::InvalidData)
    } else {
        match decode_walk(s, 2, decode_start()) {
            Err(k) => Err(k),
            Ok((st, pos, eoi)) => if !eoi || pos != s.len() {
                Err(ErrorKind::InvalidData)
            } else if !st.saw_scan {
                Err(ErrorKind::InvalidData)
            } else {
                match st.frame {
                    None => Err(ErrorKind::InvalidData),
                    Some((hdr, comps)) => if hdr.progressive && exists|c: int| 0 <= c < comps.len() && !(#[trigger] st.dc_seen[c]) {
                        Err(ErrorKind::InvalidData)
                    } else {
                        match dequant_from(comps, st.q, st.coeffs, 0) {
                            Some(k) => Err(k),
                            None => Ok((hdr, comps, dequant_concat(comps, st.q, st.coeffs, 0))),
                        }
                    },
                }
            },
        }
    }
}

/// The decoder's state as the marker walk builds it.
pub struct Decoder {
    pub frame: Option<(FrameHeader, Vec<Component>)>,
    pub coeffs: Vec<i32>,
    pub dc_seen: Vec<bool>,
    pub ac_seen: Vec<bool>,
    pub q: Vec<Option<Vec<u16>>>,
    pub dcs: Vec<Option<Huffman>>,
    pub acs: Vec<Option<Huffman>>,
    pub interval: u16,
    pub saw_scan: bool,
}

impl Decoder {
    pub open spec fn state(&self) -> DecodeState {
        DecodeState {
            frame: match self.frame {
                Some((h, c)) => Some((h, c@)),
                None => None,
            },
            coeffs: self.coeffs@,
            dc_seen: self.dc_seen@,
            ac_seen: self.ac_seen@,
            q: qtables_view(self.q@),
            dcs: htables_view(self.dcs@),
            acs: htables_view(self.acs@),
            interval: self.interval,
            saw_scan: self.saw_scan,
        }
    }

    pub open spec fn inv(&self) -> bool {
        &&& self.q@.len() == 4
        &&& qtables_wf(self.q@)
        &&& self.dcs@.len() == 4
        &&& self.acs@.len() == 4
        &&& htables_wf(self.dcs@)
        &&& htables_wf(self.acs@)
        &&& self.frame matches Some((h, c)) ==> {
            &&& geometry_ok(h, c@)
            &&& 1 <= c@.len() <= 3
            &&& self.dc_seen@.len() == c@.len()
            &&& self.ac_seen@.len() == 64 * c@.len()
            &&& forall|i: int| 0 <= i < c@.len() ==> #[trigger] stored_within(c@[i], self.coeffs@.len())
        }
    }
}

/// Component `c`'s coefficient blocks lie within `len` stored coefficients.
pub open spec fn stored_within(c: Component, len: nat) -> bool {
    c.base + 64 * comp_blocks(c) <= len
}

proof fn lemma_components_stored(d: Seq<u8>, hdr: FrameHeader, n: nat)
    requires
        storage_upto(d, hdr, n) <= usize::MAX,
        hdr.mcus_x <= 65535,
        hdr.mcus_y <= 65535,
    ensures
        forall|i: int| 0 <= i < n ==> #[trigger] stored_within(frame_components(d, hdr, n)[i], storage_upto(d, hdr, n)),
{
    lemma_components_shape(d, hdr, n);
    assert forall|i: int| 0 <= i < n implies #[trigger] stored_within(frame_components(d, hdr, n)[i], storage_upto(d, hdr, n)) by {
        lemma_components_shape(d, hdr, (i + 1) as nat);
        lemma_storage_mono(d, hdr, i as nat, n);
        lemma_storage_mono(d, hdr, (i + 1) as nat, n);
        let c = frame_components(d, hdr, n)[i];
        assert(c == frame_component(d, hdr, i as nat, storage_upto(d, hdr, i as nat)));
        let hh = comp_h(d, i);
        let vv = comp_v(d, i);
        assert(hdr.mcus_x * hh <= 65535 * 255 && hdr.mcus_y * vv <= 65535 * 255) by (nonlinear_arith)
            requires hdr.mcus_x <= 65535, hdr.mcus_y <= 65535, hh <= 255, vv <= 255;
        assert(c.padded_blocks_x == hdr.mcus_x * hh);
        assert(c.padded_blocks_y == hdr.mcus_y * vv);
        assert(comp_blocks(c) == comp_block_count(d, hdr, i as nat));
    }
}

proof fn lemma_find_comp_bound(comps: Seq<Component>, id: u8)
    ensures
        find_comp(comps, id) matches Some(i) ==> i < comps.len(),
    decreases comps.len(),
{
    if comps.len() > 0 {
        lemma_find_comp_bound(comps.drop_last(), id);
    }
}

fn none_tables() -> (v: Vec<Option<Huffman>>)
    ensures
        v@.len() == 4,
        htables_wf(v@),
        htables_view(v@) == Seq::new(4, |_i: int| None::<(Seq<u8>, Seq<u8>)>),
{
    let mut v: Vec<Option<Huffman>> = Vec::new();
    v.push(None);
    v.push(None);
    v.push(None);
    v.push(None);
    assert(htables_view(v@) =~= Seq::new(4, |_i: int| None::<(Seq<u8>, Seq<u8>)>));
    v
}

fn new_decoder() -> (d: Decoder)
    ensures
        d.inv(),
        d.state() == decode_start(),
{
    let mut q: Vec<Option<Vec<u16>>> = Vec::new();
    q.push(None);
    q.push(None);
    q.push(None);
    q.push(None);
    assert(qtables_view(q@) =~= Seq::new(4, |_i: int| None::<Seq<u16>>));
    let d = Decoder {
        frame: None,
        coeffs: Vec::new(),
        dc_seen: Vec::new(),
        ac_seen: Vec::new(),
        q,
        dcs: none_tables(),
        acs: none_tables(),
        interval: 0,
        saw_scan: false,
    };
    assert(d.coeffs@ =~= Seq::<i32>::empty());
    assert(d.dc_seen@ =~= Seq::<bool>::empty());
    assert(d.ac_seen@ =~= Seq::<bool>::empty());
    d
}

fn filled<T: Copy>(n: usize, x: T) -> (v: Vec<T>)
    ensures
        v@ == Seq::new(n as nat, |_i: int| x),
{
    let mut v: Vec<T> = Vec::new();
    let mut i: usize = 0;
    while i < n
        invariant
            i <= n,
            v@ == Seq::new(i as nat, |_i: int| x),
        decreases n - i,
    {
        v.push(x);
        i = i + 1;
        assert(v@ =~= Seq::new(i as nat, |_i: int| x));
    }
    v
}

/// Applies a marker segment other than SOS to the decoder.
fn apply_segment(dec: &mut Decoder, code: u8, seg: &[u8]) -> (r: Result<()>)
    requires
        old(dec).inv(),
        code != 0xda,
    ensures
        final(dec).inv(),
        match r {
            Ok(()) => segment_step(old(dec).state(), code, seg@) == Ok::<DecodeState, ErrorKind>(final(dec).state()),
            Err(e) => segment_step(old(dec).state(), code, seg@) == Err::<DecodeState, ErrorKind>(e@),
        },
{
    if code == 0xdb {
        parse_dqt(seg, &mut dec.q)
    } else if code == 0xc4 {
        parse_dht(seg, &mut dec.dcs, &mut dec.acs)
    } else if code == 0xdd {
        if seg.len() != 2 {
            return Err(MediaError::invalid_data("JPEG DRI payload must be 2 bytes"));
        }
        dec.interval = (seg[0] as u16) * 256 + seg[1] as u16;
        Ok(())
    } else if code == 0xc0 || code == 0xc2 {
        if dec.frame.is_some() {
            return Err(MediaError::invalid_data("multiple JPEG frame headers"));
        }
        let (hdr, comps) = parse_frame(code, seg)?;
        let ghost count = seg@[5] as nat;
        proof {
            lemma_components_shape(seg@, hdr, count);
        }
        let n = comps.len();
        assert(n == 1 || n == 3);
        let last = comps[n - 1];
        assert(comp_geometry_ok(comps@[n - 1]));
        proof {
            lemma_storage_mono(seg@, hdr, (n - 1) as nat, n as nat);
            assert(last == frame_component(seg@, hdr, (n - 1) as nat, storage_upto(seg@, hdr, (n - 1) as nat)));
            assert(last.base == storage_upto(seg@, hdr, (n - 1) as nat));
            let hh = comp_h(seg@, n - 1);
            let vv = comp_v(seg@, n - 1);
            assert(hdr.mcus_x * hh <= 65535 * 255 && hdr.mcus_y * vv <= 65535 * 255) by (nonlinear_arith)
                requires hdr.mcus_x <= 65535, hdr.mcus_y <= 65535, hh <= 255, vv <= 255;
            assert(last.padded_blocks_x == hdr.mcus_x * hh);
            assert(last.padded_blocks_y == hdr.mcus_y * vv);
            assert(comp_block_count(seg@, hdr, (n - 1) as nat) == last.padded_blocks_x * last.padded_blocks_y);
        }
        let storage = last.base + 64 * (last.padded_blocks_x * last.padded_blocks_y);
        assert(storage == storage_upto(seg@, hdr, n as nat));
        proof {
            lemma_components_stored(seg@, hdr, n as nat);
        }
        dec.coeffs = filled(storage, 0i32);
        dec.dc_seen = filled(n, false);
        assert(64 * n <= 192);
        dec.ac_seen = filled(64 * n, false);
        dec.frame = Some((hdr, comps));
        Ok(())
    } else if code == 0xc1 || code == 0xc3 || (0xc5 <= code && code <= 0xc7) || (0xc9 <= code && code <= 0xcf) {
        Err(MediaError::unsupported("unsupported JPEG frame marker"))
    } else {
        Ok(())
    }
}


/// Decodes the scan whose SOS payload is `seg` and whose entropy-coded data
/// starts at `p2` in `bytes`; gives the position of the marker after it.
fn apply_scan(dec: &mut Decoder, bytes: &[u8], p2: usize, seg: &[u8]) -> (r: Result<usize>)
    requires
        old(dec).inv(),
    ensures
        final(dec).inv(),
        match r {
            Ok(end) => scan_step(old(dec).state(), bytes@, p2 as nat, seg@) == Ok::<(DecodeState, nat), ErrorKind>(
                (final(dec).state(), end as nat),
            ),
            Err(e) => scan_step(old(dec).state(), bytes@, p2 as nat, seg@) == Err::<(DecodeState, nat), ErrorKind>(e@),
        },
{
    let (hdr, comps) = match &dec.frame {
        None => return Err(MediaError::invalid_data("JPEG SOS before frame header")),
        Some((h, c)) => (*h, c),
    };
    let (scan, ss, se, ah, al) = parse_scan_header(comps, hdr.progressive, seg)?;
    proof {
        let count = seg@[0] as int;
        assert forall|t: int| 0 <= t < scan@.len() implies (#[trigger] scan@[t]).ci < comps@.len() by {
            assert(scan_entry_ok(comps@, seg@, t));
            lemma_find_comp_bound(comps@, seg@[1 + 2 * t]);
        }
    }
    let end = crate::jpeg::skip_entropy_data(bytes, p2)?;
    proof {
        crate::jpeg::lemma_skip_advances(bytes@, p2 as nat);
    }
    let raw = vstd::slice::slice_subrange(bytes, p2, end);
    let (segs, restarts) = split_entropy(raw)?;
    let prm = ScanParams { progressive: hdr.progressive, ss, se, ah, al, interval: dec.interval };
    decode_scan(hdr, comps, &scan, prm, &segs, &restarts, &dec.dcs, &dec.acs, &mut dec.coeffs, &mut dec.dc_seen, &mut dec.ac_seen)?;
    dec.saw_scan = true;
    Ok(end)
}

/// Scales each component's coefficients by its quantization table, in
/// component order.
fn dequantize(comps: &Vec<Component>, q: &Vec<Option<Vec<u16>>>, coeffs: &Vec<i32>) -> (r: Result<Vec<i32>>)
    requires
        qtables_wf(q@),
        forall|i: int| 0 <= i < comps@.len() ==> #[trigger] stored_within(comps@[i], coeffs@.len()),
    ensures
        match r {
            Ok(v) => dequant_from(comps@, qtables_view(q@), coeffs@, 0) is None
                && v@ == dequant_concat(comps@, qtables_view(q@), coeffs@, 0),
            Err(e) => dequant_from(comps@, qtables_view(q@), coeffs@, 0) == Some(e@),
        },
{
    let ghost qv = qtables_view(q@);
    let mut out: Vec<i32> = Vec::new();
    let mut c: usize = 0;
    while c < comps.len()
        invariant
            qv == qtables_view(q@),
            qtables_wf(q@),
            c <= comps@.len(),
            forall|i: int| 0 <= i < comps@.len() ==> #[trigger] stored_within(comps@[i], coeffs@.len()),
            dequant_from(comps@, qv, coeffs@, 0) == dequant_from(comps@, qv, coeffs@, c as nat),
            dequant_concat(comps@, qv, coeffs@, 0) == out@ + dequant_concat(comps@, qv, coeffs@, c as nat),
        decreases comps@.len() - c,
    {
        let comp = comps[c];
        assert(stored_within(comps@[c as int], coeffs@.len()));
        let tq = comp.tq as usize;
        if tq >= q.len() {
            return Err(MediaError::invalid_data("missing JPEG quantization table"));
        }
        let table = match &q[tq] {
            None => return Err(MediaError::invalid_data("missing JPEG quantization table")),
            Some(t) => t,
        };
        assert(q@[tq as int] matches Some(t) ==> t@.len() == 64);
        assert(qv[tq as int] == Some(table@));
        assert(comp.base + 64 * comp_blocks(comp) <= coeffs@.len());
        let ghost px = comp.padded_blocks_x as int;
        let ghost py = comp.padded_blocks_y as int;
        assert(px * py >= 0) by (nonlinear_arith)
            requires px >= 0, py >= 0;
        assert(comp_blocks(comp) == px * py);
        let len = coeffs.len();
        assert(px * py <= usize::MAX);
        let blocks = comp.padded_blocks_x * comp.padded_blocks_y;
        assert(blocks == comp_blocks(comp));
        let total = 64 * blocks;
        let base = comp.base;
        let ghost before = out@;
        let mut j: usize = 0;
        while j < total
            invariant
                qv == qtables_view(q@),
                qv[tq as int] == Some(table@),
                table@.len() == 64,
                tq == comp.tq,
                tq < q@.len(),
                c < comps@.len(),
                dequant_from(comps@, qv, coeffs@, 0) == dequant_from(comps@, qv, coeffs@, c as nat),
                comp == comps@[c as int],
                total == 64 * comp_blocks(comp),
                base == comp.base,
                base + total <= coeffs@.len(),
                len == coeffs@.len(),
                j <= total,
                out@ == before + Seq::new(j as nat, |k: int| dequantized(comp, qv, coeffs@, k) as i32),
                forall|k: int| 0 <= k < j ==> i32::MIN <= #[trigger] dequantized(comp, qv, coeffs@, k) <= i32::MAX,
            decreases total - j,
        {
            let factor = table[j % 64] as i32;
            let value = match coeffs[base + j].checked_mul(factor) {
                None => {
                    assert(!(i32::MIN <= dequantized(comp, qv, coeffs@, j as int) <= i32::MAX));
                    assert(dequant_from(comps@, qv, coeffs@, c as nat) == Some(ErrorKind::Overflow));
                    return Err(MediaError::overflow("JPEG dequantization overflow"));
                },
                Some(v) => v,
            };
            out.push(value);
            j = j + 1;
            assert(out@ =~= before + Seq::new(j as nat, |k: int| dequantized(comp, qv, coeffs@, k) as i32));
        }
        assert(!(exists|k: int| 0 <= k < 64 * comp_blocks(comp)
            && !(i32::MIN <= #[trigger] dequantized(comp, qv, coeffs@, k) <= i32::MAX)));
        assert(dequant_concat(comps@, qv, coeffs@, c as nat) == Seq::new(total as nat, |k: int| dequantized(comp, qv, coeffs@, k) as i32)
            + dequant_concat(comps@, qv, coeffs@, (c + 1) as nat));
        assert(out@ + dequant_concat(comps@, qv, coeffs@, (c + 1) as nat) =~= before + dequant_concat(comps@, qv, coeffs@, c as nat));
        c = c + 1;
    }
    assert(out@ + dequant_concat(comps@, qv, coeffs@, c as nat) =~= out@);
    Ok(out)
}

/// One marker of the walk from `pos`: EOI ends it; a segment or a scan is
/// applied to the decoder.
fn walk_step(dec: &mut Decoder, bytes: &[u8], pos: usize) -> (r: Result<(usize, bool)>)
    requires
        old(dec).inv(),
        pos < bytes@.len(),
    ensures
        final(dec).inv(),
        match r {
            Ok((p, eoi)) => p <= bytes@.len() && if eoi {
                decode_walk(bytes@, pos as nat, old(dec).state()) == Ok::<(DecodeState, nat, bool), ErrorKind>(
                    (final(dec).state(), p as nat, true),
                )
            } else {
                p > pos && decode_walk(bytes@, pos as nat, old(dec).state()) == decode_walk(bytes@, p as nat, final(dec).state())
            },
            Err(e) => decode_walk(bytes@, pos as nat, old(dec).state()) == Err::<(DecodeState, nat, bool), ErrorKind>(e@),
        },
{
    let ghost s = bytes@;
    let n = bytes.len();
    proof {
        reveal_with_fuel(decode_walk, 1);
    }
    if bytes[pos] != 0xff {
        return Err(MediaError::invalid_data("expected JPEG marker prefix"));
    }
    proof {
        crate::jpeg::lemma_ff_run_end(s, pos as int);
    }
    let mut m = pos;
    while m < n && bytes[m] == 0xff
        invariant
            n == s.len(),
            s == bytes@,
            pos <= m <= n,
            crate::jpeg::ff_run_end(s, m as int) == crate::jpeg::ff_run_end(s, pos as int),
        decreases n - m,
    {
        m = m + 1;
    }
    if m >= n {
        return Err(MediaError::eof("truncated JPEG marker"));
    }
    let code = bytes[m];
    let p = m + 1;
    if code == 0xd9 {
        return Ok((p, true));
    }
    if code == 0xd8 || code == 0x01 || (0xd0 <= code && code <= 0xd7) {
        return Err(MediaError::invalid_data("unexpected standalone JPEG marker"));
    }
    let (seg, p2) = crate::jpeg::segment(bytes, p)?;
    if code == 0xda {
        let end = apply_scan(dec, bytes, p2, seg)?;
        proof {
            crate::jpeg::lemma_skip_advances(s, p2 as nat);
        }
        Ok((end, false))
    } else {
        apply_segment(dec, code, seg)?;
        Ok((p2, false))
    }
}

fn all_set(flags: &Vec<bool>) -> (r: bool)
    ensures
        r == forall|i: int| 0 <= i < flags@.len() ==> #[trigger] flags@[i],
{
    let mut c: usize = 0;
    while c < flags.len()
        invariant
            c <= flags@.len(),
            forall|i: int| 0 <= i < c ==> #[trigger] flags@[i],
        decreases flags@.len() - c,
    {
        if !flags[c] {
            return false;
        }
        c = c + 1;
    }
    true
}

/// A decoded JPEG stream before the inverse DCT: the frame geometry, its
/// components and their dequantized coefficients, each component's blocks
/// of 64 in row-major block order after those of the components before it.
#[derive(Debug)]
pub struct JpegCoefficients {
    pub header: FrameHeader,
    pub components: Vec<Component>,
    pub coefficients: Vec<i32>,
}

/// Decodes a baseline or progressive Huffman JPEG stream to its dequantized
/// DCT coefficients: walks the markers, applies tables, frame and restart
/// interval, decodes every scan, then checks for a clean EOI and scales by
/// the quantization tables.
#[verifier::spinoff_prover]
pub fn decode_jpeg(bytes: &[u8]) -> (r: Result<JpegCoefficients>)
    ensures
        match r {
            Ok(j) => spec_decode_coefficients(bytes@) == Ok::<(FrameHeader, Seq<Component>, Seq<i32>), ErrorKind>(
                (j.header, j.components@, j.coefficients@),
            ),
            Err(e) => spec_decode_coefficients(bytes@) == Err::<(FrameHeader, Seq<Component>, Seq<i32>), ErrorKind>(e@),
        },
{
    let ghost s = bytes@;
    if bytes.len() < 4 || bytes[0] != 0xff || bytes[1] != 0xd8 {
        return Err(MediaError::invalid_data("missing JPEG SOI marker"));
    }
    let n = bytes.len();
    let mut dec = new_decoder();
    let mut pos: usize = 2;
    let mut saw_eoi = false;
    while pos < n
        invariant_except_break
            !saw_eoi,
            decode_walk(s, 2, decode_start()) == decode_walk(s, pos as nat, dec.state()),
        invariant
            n == s.len(),
            s == bytes@,
            s.len() >= 4 && s[0] == 0xff && s[1] == 0xd8,
            dec.inv(),
        ensures
            saw_eoi ==> decode_walk(s, 2, decode_start()) == Ok::<(DecodeState, nat, bool), ErrorKind>((dec.state(), pos as nat, true)),
            !saw_eoi ==> pos >= n && decode_walk(s, 2, decode_start()) == decode_walk(s, pos as nat, dec.state()),
        decreases n - pos,
    {
        let (next, eoi) = walk_step(&mut dec, bytes, pos)?;
        pos = next;
        if eoi {
            saw_eoi = true;
            break;
        }
    }
    proof {
        reveal_with_fuel(decode_walk, 1);
    }
    if !saw_eoi || pos != n {
        return Err(MediaError::invalid_data("JPEG stream is missing clean EOI termination"));
    }
    if !dec.saw_scan {
        return Err(MediaError::invalid_data("JPEG stream contains no scans"));
    }
    let Decoder { frame, coeffs, dc_seen, q, .. } = dec;
    let (hdr, comps) = match frame {
        None => return Err(MediaError::invalid_data("JPEG stream contains no frame")),
        Some(f) => f,
    };
    if hdr.progressive && !all_set(&dc_seen) {
        return Err(MediaError::invalid_data("progressive JPEG component has no DC first scan"));
    }
    let coefficients = dequantize(&comps, &q, &coeffs)?;
    Ok(JpegCoefficients { header: hdr, components: comps, coefficients })
}

/// The small power of two used for sample widths is the power of two.
pub proof fn lemma_pow2_small_is_pow2(n: nat)
    ensures
        pow2_small(n) == vstd::arithmetic::power2::pow2(n),
    decreases n,
{
    if n == 0 {
        vstd::arithmetic::power2::lemma2_to64();
    } else {
        lemma_pow2_small_is_pow2((n - 1) as nat);
        vstd::arithmetic::power2::lemma_pow2_unfold(n);
    }
}

/// EXTEND: `n` magnitude bits with value `v` stand for the coefficient
/// difference `v` when `v` lies in the upper half of the `n`-bit range
/// (a positive value of that size category), and for the negative
/// `v - (2^n - 1)` when it lies in the lower half; reading them consumes
/// exactly those `n` bits.
pub proof fn lemma_receive_extend_sign(d: Seq<u8>, p: BitPos, n: u8)
    requires
        1 <= n <= 16,
        spec_read_bits(d, p, n as nat) is Ok,
    ensures
        ({
            let (v, p2) = spec_read_bits(d, p, n as nat)->Ok_0;
            let half = vstd::arithmetic::power2::pow2((n - 1) as nat);
            let full = vstd::arithmetic::power2::pow2(n as nat);
            &&& spec_receive_extend(d, p, n) is Ok
            &&& spec_receive_extend(d, p, n)->Ok_0.1 == p2
            &&& v < half ==> {
                &&& spec_receive_extend(d, p, n)->Ok_0.0 == v - (full - 1)
                &&& spec_receive_extend(d, p, n)->Ok_0.0 < 0
                &&& spec_receive_extend(d, p, n)->Ok_0.0 + full - 1 >= 0
            }
            &&& v >= half ==> spec_receive_extend(d, p, n)->Ok_0.0 == v && spec_receive_extend(d, p, n)->Ok_0.0 > 0
        }),
{
    lemma_pow2_small_is_pow2(n as nat);
    lemma_pow2_small_is_pow2((n - 1) as nat);
    vstd::arithmetic::power2::lemma_pow2_unfold(n as nat);
    vstd::arithmetic::power2::lemma_pow2_pos((n - 1) as nat);
}

/// The anti-diagonal (row plus column) of a row-major index in an 8x8
/// block.
pub open spec fn zz_diag(i: int) -> int {
    i / 8 + i % 8
}

/// One step of the zig-zag walk from index `a` to index `b`: along an
/// anti-diagonal it moves up and to the right on even diagonals and down
/// and to the left on odd ones; from the end of one diagonal it moves to
/// the next, entering an even diagonal at its lowest row and an odd one at
/// its rightmost column.
pub open spec fn zz_step(a: int, b: int) -> bool {
    &&& 0 <= b < 64
    &&& if zz_diag(b) == zz_diag(a) {
        if zz_diag(a) % 2 == 0 {
            b / 8 + 1 == a / 8
        } else {
            b / 8 == a / 8 + 1
        }
    } else {
        &&& zz_diag(b) == zz_diag(a) + 1
        &&& zz_diag(b) % 2 == 0 ==> b / 8 == if zz_diag(b) < 7 { zz_diag(b) } else { 7 }
        &&& zz_diag(b) % 2 == 1 ==> b % 8 == if zz_diag(b) < 7 { zz_diag(b) } else { 7 }
    }
}

/// The coefficient order starts at the DC term and walks the 8x8 block in
/// zig-zag: every step is one step of the walk, so the 64 positions are
/// visited diagonal by diagonal, each once.
pub proof fn lemma_zigzag_walk()
    ensures
        zigzag_table().len() == 64,
        zigzag_table()[0] == 0,
        forall|k: int| 0 <= k < 63 ==> #[trigger] zz_step(zigzag_table()[k] as int, zigzag_table()[k + 1] as int),
{
    assert(zz_step(zigzag_table()[0int] as int, zigzag_table()[1int] as int));
    assert(zz_step(zigzag_table()[1int] as int, zigzag_table()[2int] as int));
    assert(zz_step(zigzag_table()[2int] as int, zigzag_table()[3int] as int));
    assert(zz_step(zigzag_table()[3int] as int, zigzag_table()[4int] as int));
    assert(zz_step(zigzag_table()[4int] as int, zigzag_table()[5int] as int));
    assert(zz_step(zigzag_table()[5int] as int, zigzag_table()[6int] as int));
    assert(zz_step(zigzag_table()[6int] as int, zigzag_table()[7int] as int));
    assert(zz_step(zigzag_table()[7int] as int, zigzag_table()[8int] as int));
    assert(zz_step(zigzag_table()[8int] as int, zigzag_table()[9int] as int));
    assert(zz_step(zigzag_table()[9int] as int, zigzag_table()[10int] as int));
    assert(zz_step(zigzag_table()[10int] as int, zigzag_table()[11int] as int));
    assert(zz_step(zigzag_table()[11int] as int, zigzag_table()[12int] as int));
    assert(zz_step(zigzag_table()[12int] as int, zigzag_table()[13int] as int));
    assert(zz_step(zigzag_table()[13int] as int, zigzag_table()[14int] as int));
    assert(zz_step(zigzag_table()[14int] as int, zigzag_table()[15int] as int));
    assert(zz_step(zigzag_table()[15int] as int, zigzag_table()[16int] as int));
    assert(zz_step(zigzag_table()[16int] as int, zigzag_table()[17int] as int));
    assert(zz_step(zigzag_table()[17int] as int, zigzag_table()[18int] as int));
    assert(zz_step(zigzag_table()[18int] as int, zigzag_table()[19int] as int));
    assert(zz_step(zigzag_table()[19int] as int, zigzag_table()[20int] as int));
    assert(zz_step(zigzag_table()[20int] as int, zigzag_table()[21int] as int));
    assert(zz_step(zigzag_table()[21int] as int, zigzag_table()[22int] as int));
    assert(zz_step(zigzag_table()[22int] as int, zigzag_table()[23int] as int));
    assert(zz_step(zigzag_table()[23int] as int, zigzag_table()[24int] as int));
    assert(zz_step(zigzag_table()[24int] as int, zigzag_table()[25int] as int));
    assert(zz_step(zigzag_table()[25int] as int, zigzag_table()[26int] as int));
    assert(zz_step(zigzag_table()[26int] as int, zigzag_table()[27int] as int));
    assert(zz_step(zigzag_table()[27int] as int, zigzag_table()[28int] as int));
    assert(zz_step(zigzag_table()[28int] as int, zigzag_table()[29int] as int));
    assert(zz_step(zigzag_table()[29int] as int, zigzag_table()[30int] as int));
    assert(zz_step(zigzag_table()[30int] as int, zigzag_table()[31int] as int));
    assert(zz_step(zigzag_table()[31int] as int, zigzag_table()[32int] as int));
    assert(zz_step(zigzag_table()[32int] as int, zigzag_table()[33int] as int));
    assert(zz_step(zigzag_table()[33int] as int, zigzag_table()[34int] as int));
    assert(zz_step(zigzag_table()[34int] as int, zigzag_table()[35int] as int));
    assert(zz_step(zigzag_table()[35int] as int, zigzag_table()[36int] as int));
    assert(zz_step(zigzag_table()[36int] as int, zigzag_table()[37int] as int));
    assert(zz_step(zigzag_table()[37int] as int, zigzag_table()[38int] as int));
    assert(zz_step(zigzag_table()[38int] as int, zigzag_table()[39int] as int));
    assert(zz_step(zigzag_table()[39int] as int, zigzag_table()[40int] as int));
    assert(zz_step(zigzag_table()[40int] as int, zigzag_table()[41int] as int));
    assert(zz_step(zigzag_table()[41int] as int, zigzag_table()[42int] as int));
    assert(zz_step(zigzag_table()[42int] as int, zigzag_table()[43int] as int));
    assert(zz_step(zigzag_table()[43int] as int, zigzag_table()[44int] as int));
    assert(zz_step(zigzag_table()[44int] as int, zigzag_table()[45int] as int));
    assert(zz_step(zigzag_table()[45int] as int, zigzag_table()[46int] as int));
    assert(zz_step(zigzag_table()[46int] as int, zigzag_table()[47int] as int));
    assert(zz_step(zigzag_table()[47int] as int, zigzag_table()[48int] as int));
    assert(zz_step(zigzag_table()[48int] as int, zigzag_table()[49int] as int));
    assert(zz_step(zigzag_table()[49int] as int, zigzag_table()[50int] as int));
    assert(zz_step(zigzag_table()[50int] as int, zigzag_table()[51int] as int));
    assert(zz_step(zigzag_table()[51int] as int, zigzag_table()[52int] as int));
    assert(zz_step(zigzag_table()[52int] as int, zigzag_table()[53int] as int));
    assert(zz_step(zigzag_table()[53int] as int, zigzag_table()[54int] as int));
    assert(zz_step(zigzag_table()[54int] as int, zigzag_table()[55int] as int));
    assert(zz_step(zigzag_table()[55int] as int, zigzag_table()[56int] as int));
    assert(zz_step(zigzag_table()[56int] as int, zigzag_table()[57int] as int));
    assert(zz_step(zigzag_table()[57int] as int, zigzag_table()[58int] as int));
    assert(zz_step(zigzag_table()[58int] as int, zigzag_table()[59int] as int));
    assert(zz_step(zigzag_table()[59int] as int, zigzag_table()[60int] as int));
    assert(zz_step(zigzag_table()[60int] as int, zigzag_table()[61int] as int));
    assert(zz_step(zigzag_table()[61int] as int, zigzag_table()[62int] as int));
    assert(zz_step(zigzag_table()[62int] as int, zigzag_table()[63int] as int));
}

/// Only the first coefficient in zig-zag order is the DC term.
proof fn lemma_zigzag_ac_positions()
    ensures
        forall|k: int| 1 <= k < 64 ==> #[trigger] zigzag_table()[k] != 0 && zigzag_table()[k] < 64,
{
    assert(zigzag_table()[1int] != 0);
    assert(zigzag_table()[2int] != 0);
    assert(zigzag_table()[3int] != 0);
    assert(zigzag_table()[4int] != 0);
    assert(zigzag_table()[5int] != 0);
    assert(zigzag_table()[6int] != 0);
    assert(zigzag_table()[7int] != 0);
    assert(zigzag_table()[8int] != 0);
    assert(zigzag_table()[9int] != 0);
    assert(zigzag_table()[10int] != 0);
    assert(zigzag_table()[11int] != 0);
    assert(zigzag_table()[12int] != 0);
    assert(zigzag_table()[13int] != 0);
    assert(zigzag_table()[14int] != 0);
    assert(zigzag_table()[15int] != 0);
    assert(zigzag_table()[16int] != 0);
    assert(zigzag_table()[17int] != 0);
    assert(zigzag_table()[18int] != 0);
    assert(zigzag_table()[19int] != 0);
    assert(zigzag_table()[20int] != 0);
    assert(zigzag_table()[21int] != 0);
    assert(zigzag_table()[22int] != 0);
    assert(zigzag_table()[23int] != 0);
    assert(zigzag_table()[24int] != 0);
    assert(zigzag_table()[25int] != 0);
    assert(zigzag_table()[26int] != 0);
    assert(zigzag_table()[27int] != 0);
    assert(zigzag_table()[28int] != 0);
    assert(zigzag_table()[29int] != 0);
    assert(zigzag_table()[30int] != 0);
    assert(zigzag_table()[31int] != 0);
    assert(zigzag_table()[32int] != 0);
    assert(zigzag_table()[33int] != 0);
    assert(zigzag_table()[34int] != 0);
    assert(zigzag_table()[35int] != 0);
    assert(zigzag_table()[36int] != 0);
    assert(zigzag_table()[37int] != 0);
    assert(zigzag_table()[38int] != 0);
    assert(zigzag_table()[39int] != 0);
    assert(zigzag_table()[40int] != 0);
    assert(zigzag_table()[41int] != 0);
    assert(zigzag_table()[42int] != 0);
    assert(zigzag_table()[43int] != 0);
    assert(zigzag_table()[44int] != 0);
    assert(zigzag_table()[45int] != 0);
    assert(zigzag_table()[46int] != 0);
    assert(zigzag_table()[47int] != 0);
    assert(zigzag_table()[48int] != 0);
    assert(zigzag_table()[49int] != 0);
    assert(zigzag_table()[50int] != 0);
    assert(zigzag_table()[51int] != 0);
    assert(zigzag_table()[52int] != 0);
    assert(zigzag_table()[53int] != 0);
    assert(zigzag_table()[54int] != 0);
    assert(zigzag_table()[55int] != 0);
    assert(zigzag_table()[56int] != 0);
    assert(zigzag_table()[57int] != 0);
    assert(zigzag_table()[58int] != 0);
    assert(zigzag_table()[59int] != 0);
    assert(zigzag_table()[60int] != 0);
    assert(zigzag_table()[61int] != 0);
    assert(zigzag_table()[62int] != 0);
    assert(zigzag_table()[63int] != 0);
}

/// The AC coefficients of a block leave its DC term and its size alone.
proof fn lemma_seq_ac_keeps_dc(d: Seq<u8>, p: BitPos, ac: (Seq<u8>, Seq<u8>), block: Seq<i32>, k: nat)
    requires
        k >= 1,
        block.len() == 64,
        seq_ac(d, p, ac, block, k) is Ok,
    ensures
        seq_ac(d, p, ac, block, k)->Ok_0.0.len() == 64,
        seq_ac(d, p, ac, block, k)->Ok_0.0[0] == block[0],
    decreases 64 - k,
{
    lemma_zigzag_ac_positions();
    if k < 64 {
        let (rs, p2) = spec_decode_huff(d, p, ac)->Ok_0;
        let run = (rs / 16) as nat;
        let size = rs % 16;
        if size == 0 {
            if run == 15 {
                lemma_seq_ac_keeps_dc(d, p2, ac, block, k + 16);
            }
        } else {
            let (v, p3) = spec_receive_extend(d, p2, size)->Ok_0;
            let z = zigzag_table()[(k + run) as int] as int;
            lemma_seq_ac_keeps_dc(d, p3, ac, block.update(z, v as i32), k + run + 1);
        }
    }
}

/// DC prediction: a baseline block's DC coefficient is the previous DC
/// value of its component plus the decoded difference (in 32-bit
/// wrapping arithmetic), and it becomes the predictor for the next block.
pub proof fn lemma_seq_block_dc(
    d: Seq<u8>,
    p: BitPos,
    pred: i32,
    dc: (Seq<u8>, Seq<u8>),
    ac: (Seq<u8>, Seq<u8>),
    block: Seq<i32>,
)
    requires
        block.len() == 64,
        spec_seq_block(d, p, pred, dc, ac, block) is Ok,
    ensures
        ({
            let (size, p2) = spec_decode_huff(d, p, dc)->Ok_0;
            let diff = spec_receive_extend(d, p2, size)->Ok_0.0;
            let (b, next, _) = spec_seq_block(d, p, pred, dc, ac, block)->Ok_0;
            &&& b.len() == 64
            &&& next == b[0]
            &&& (next as int - pred as int - diff) % 0x1_0000_0000 == 0
        }),
{
    let (size, p2) = spec_decode_huff(d, p, dc)->Ok_0;
    let (diff, p3) = spec_receive_extend(d, p2, size)->Ok_0;
    let pred2 = pred.wrapping_add(diff as i32);
    lemma_extend_range(d, p2, size);
    lemma_seq_ac_keeps_dc(d, p3, ac, block.update(0, pred2), 1);
}

} // verus!

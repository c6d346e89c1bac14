use vstd::prelude::*;

use crate::bytes_util::push_slice;
use crate::error::{ErrorKind, MediaError, Result};

verus! {

pub const MAX_CODE_BITS: usize = 15;

fn code_length_order(i: usize) -> (s: usize)
    requires
        i < 19,
    ensures
        s < 19,
        s == code_length_order_table()[i as int],
{
    let t: [usize; 19] = [16, 17, 18, 0, 8, 7, 9, 6, 10, 5, 11, 4, 12, 3, 13, 2, 14, 1, 15];
    t[i]
}

/// Base match length of length symbol `257 + i`.
pub fn length_base(i: usize) -> (b: usize)
    requires
        i < 29,
    ensures
        3 <= b <= 258,
        b == length_base_table()[i as int],
{
    let t: [usize; 29] = [
        3, 4, 5, 6, 7, 8, 9, 10, 11, 13, 15, 17, 19, 23, 27, 31, 35, 43, 51, 59, 67, 83, 99, 115,
        131, 163, 195, 227, 258,
    ];
    t[i]
}

/// Extra bits of length symbol `257 + i`.
pub fn length_extra(i: usize) -> (e: u8)
    requires
        i < 29,
    ensures
        e <= 5,
        e == length_extra_table()[i as int],
{
    let t: [u8; 29] = [
        0, 0, 0, 0, 0, 0, 0, 0, 1, 1, 1, 1, 2, 2, 2, 2, 3, 3, 3, 3, 4, 4, 4, 4, 5, 5, 5, 5, 0,
    ];
    t[i]
}

/// Base distance of distance symbol `i`.
pub fn distance_base(i: usize) -> (b: usize)
    requires
        i < 30,
    ensures
        1 <= b <= 24577,
        b == distance_base_table()[i as int],
{
    let t: [usize; 30] = [
        1, 2, 3, 4, 5, 7, 9, 13, 17, 25, 33, 49, 65, 97, 129, 193, 257, 385, 513, 769, 1025, 1537,
        2049, 3073, 4097, 6145, 8193, 12289, 16385, 24577,
    ];
    t[i]
}

/// Extra bits of distance symbol `i`.
pub fn distance_extra(i: usize) -> (e: u8)
    requires
        i < 30,
    ensures
        e <= 13,
        e == distance_extra_table()[i as int],
{
    let t: [u8; 30] = [
        0, 0, 0, 0, 1, 1, 2, 2, 3, 3, 4, 4, 5, 5, 6, 6, 7, 7, 8, 8, 9, 9, 10, 10, 11, 11, 12, 12,
        13, 13,
    ];
    t[i]
}

/// Bit `i` of `s`, counting from the least significant bit of byte 0.
pub open spec fn lsb_bit(s: Seq<u8>, i: int) -> nat {
    if (s[i / 8] >> ((i % 8) as u8)) & 1 == 1 {
        1
    } else {
        0
    }
}

/// The `count` bits from bit `pos`, first bit least significant.
pub open spec fn lsb_bits(s: Seq<u8>, pos: int, count: nat) -> nat
    decreases count,
{
    if count == 0 {
        0
    } else {
        lsb_bits(s, pos, (count - 1) as nat) + lsb_bit(s, pos + count - 1) * vstd::arithmetic::power2::pow2((count - 1) as nat)
    }
}

/// An LSB-first bit cursor as used by DEFLATE.
struct DeflateBits<'a> {
    bytes: &'a [u8],
    byte_index: usize,
    bit_index: u8,
}

impl<'a> DeflateBits<'a> {
    spec fn wf(&self) -> bool {
        &&& self.bit_index < 8
        &&& self.byte_index <= self.bytes@.len()
        &&& self.byte_index == self.bytes@.len() ==> self.bit_index == 0
        &&& self.bytes@.len() <= usize::MAX
    }

    /// Bits consumed so far.
    spec fn consumed(&self) -> nat {
        (self.byte_index * 8 + self.bit_index) as nat
    }

    spec fn total(&self) -> nat {
        self.bytes@.len() * 8
    }

    fn new(bytes: &'a [u8]) -> (r: Self)
        ensures
            r.wf(),
            r.bytes@ == bytes@,
            r.consumed() == 0,
    {
        let _n = bytes.len();
        DeflateBits { bytes, byte_index: 0, bit_index: 0 }
    }

    fn read_bits(&mut self, count: u8) -> (r: Result<u32>)
        requires
            old(self).wf(),
        ensures
            final(self).wf(),
            final(self).bytes@ == old(self).bytes@,
            final(self).consumed() >= old(self).consumed(),
            match r {
                Ok(v) => count <= 24 && old(self).consumed() + count <= old(self).total()
                    && final(self).consumed() == old(self).consumed() + count
                    && v as nat == lsb_bits(old(self).bytes@, old(self).consumed() as int, count as nat)
                    && (v as nat) < vstd::arithmetic::power2::pow2(count as nat),
                Err(e) => if count > 24 {
                    e@ == ErrorKind::InvalidArgument
                } else {
                    old(self).consumed() + count > old(self).total() && e@ == ErrorKind::EndOfFile
                },
            },
    {
        if count > 24 {
            return Err(MediaError::invalid_argument("DEFLATE bit reader supports at most 24 bits per read"));
        }
        let mut value: u32 = 0;
        let mut shift: u8 = 0;
        proof {
            vstd::arithmetic::power2::lemma2_to64();
        }
        while shift < count
            invariant
                self.wf(),
                self.bytes@ == old(self).bytes@,
                shift <= count <= 24,
                self.consumed() == old(self).consumed() + shift,
                (value as nat) < vstd::arithmetic::power2::pow2(shift as nat),
                value as nat == lsb_bits(old(self).bytes@, old(self).consumed() as int, shift as nat),
            decreases count - shift,
        {
            if self.byte_index >= self.bytes.len() {
                return Err(MediaError::eof("unexpected end of DEFLATE bitstream"));
            }
            let byte = self.bytes[self.byte_index];
            let bi = self.bit_index;
            let bit = ((byte >> bi) & 1) as u32;
            assert(bit <= 1) by (bit_vector)
                requires
                    bit == ((byte >> bi) & 1) as u32,
            ;
            proof {
                vstd::arithmetic::power2::lemma_pow2_unfold((shift + 1) as nat);
                vstd::arithmetic::power2::lemma2_to64();
                lemma_or_shift(value, bit, shift as u32);
                let i = old(self).consumed() + shift;
                assert(i == self.byte_index * 8 + bi);
                assert(i / 8 == self.byte_index as int && i % 8 == bi as int);
                assert(bit as nat == lsb_bit(self.bytes@, i));
            }
            value = value | (bit << shift);
            self.bit_index = self.bit_index + 1;
            if self.bit_index == 8 {
                self.bit_index = 0;
                self.byte_index = self.byte_index + 1;
            }
            shift += 1;
        }
        Ok(value)
    }

    fn align_to_byte(&mut self)
        requires
            old(self).wf(),
        ensures
            final(self).wf(),
            final(self).bytes@ == old(self).bytes@,
            final(self).consumed() >= old(self).consumed(),
            final(self).bit_index == 0,
            final(self).consumed() == align_up(old(self).consumed()),
    {
        if self.bit_index != 0 {
            self.bit_index = 0;
            self.byte_index = self.byte_index + 1;
        }
    }

    fn take_aligned(&mut self, len: usize) -> (r: Result<&'a [u8]>)
        requires
            old(self).wf(),
        ensures
            final(self).wf(),
            final(self).bytes@ == old(self).bytes@,
            final(self).consumed() >= old(self).consumed(),
            match r {
                Ok(s) => s@.len() == len && final(self).bit_index == 0 && s@ == old(
                    self,
                ).bytes@.subrange(old(self).byte_index as int, old(self).byte_index + len)
                    && old(self).bit_index == 0
                    && take_bytes(old(self).bytes@, old(self).byte_index as nat, len as nat) == Ok::<Seq<u8>, ErrorKind>(s@)
                    && final(self).consumed() == (old(self).byte_index + len) * 8,
                Err(e) => if old(self).bit_index != 0 {
                    e@ == ErrorKind::InvalidData
                } else {
                    take_bytes(old(self).bytes@, old(self).byte_index as nat, len as nat) == Err::<Seq<u8>, ErrorKind>(e@)
                },
            },
    {
        if self.bit_index != 0 {
            return Err(MediaError::invalid_data("unaligned DEFLATE stored-block byte read"));
        }
        let end = match self.byte_index.checked_add(len) {
            Some(e) => e,
            None => return Err(MediaError::overflow("DEFLATE byte range overflow")),
        };
        if end > self.bytes.len() {
            return Err(MediaError::eof("unexpected end of DEFLATE stored block"));
        }
        let s = vstd::slice::slice_subrange(self.bytes, self.byte_index, end);
        self.byte_index = end;
        Ok(s)
    }

    fn read_u16_le_aligned(&mut self) -> (r: Result<u16>)
        requires
            old(self).wf(),
        ensures
            final(self).wf(),
            final(self).bytes@ == old(self).bytes@,
            final(self).consumed() >= old(self).consumed(),
            match r {
                Ok(_) => true,
                Err(e) => e@ == ErrorKind::EndOfFile || e@ == ErrorKind::InvalidData || e@
                    == ErrorKind::Overflow,
            },
    {
        if self.bit_index != 0 {
            return Err(MediaError::invalid_data("unaligned DEFLATE stored-block integer read"));
        }
        let b = self.take_aligned(2)?;
        Ok(b[0] as u16 + (b[1] as u16) * 256)
    }
}

proof fn lemma_or_shift(value: u32, bit: u32, shift: u32)
    requires
        shift < 24,
        bit <= 1,
        (value as nat) < vstd::arithmetic::power2::pow2(shift as nat),
        vstd::arithmetic::power2::pow2((shift + 1) as nat) == 2 * vstd::arithmetic::power2::pow2(shift as nat),
        vstd::arithmetic::power2::pow2(24) == 0x100_0000,
    ensures
        ((value | (bit << shift)) as nat) < vstd::arithmetic::power2::pow2((shift + 1) as nat),
        ((value | (bit << shift)) as nat) == value + bit * vstd::arithmetic::power2::pow2(shift as nat),
{
    vstd::arithmetic::power2::lemma_pow2_strictly_increases(shift as nat, 24);
    let p = vstd::arithmetic::power2::pow2(shift as nat);
    vstd::bits::lemma_u32_pow2_no_overflow(shift as nat);
    assert(p == 1u32 << shift) by {
        vstd::bits::lemma_u32_shl_is_mul(1, shift);
    }
    let pp = p as u32;
    assert((value | (bit << shift)) < 2 * pp) by (bit_vector)
        requires
            value < pp,
            pp == 1u32 << shift,
            bit <= 1,
            shift < 24,
    ;
    assert((value | (bit << shift)) == value + bit * pp) by (bit_vector)
        requires
            value < pp,
            pp == 1u32 << shift,
            bit <= 1,
            shift < 24,
    ;
}

/// How many of the first `n` code lengths equal `l`.
pub open spec fn count_len(lengths: Seq<u8>, n: nat, l: nat) -> nat
    decreases n,
{
    if n == 0 {
        0
    } else {
        count_len(lengths, (n - 1) as nat, l) + if lengths[n - 1] == l { 1nat } else { 0nat }
    }
}

/// The symbols among the first `n` whose code length is `l`, in order.
pub open spec fn symbols_of_len(lengths: Seq<u8>, n: nat, l: nat) -> Seq<u16>
    decreases n,
{
    if n == 0 {
        Seq::empty()
    } else {
        let prev = symbols_of_len(lengths, (n - 1) as nat, l);
        if lengths[n - 1] == l {
            prev.push((n - 1) as u16)
        } else {
            prev
        }
    }
}

/// The symbols with code lengths `1..=l`, sorted by length, then value.
pub open spec fn canonical_symbols(lengths: Seq<u8>, l: nat) -> Seq<u16>
    decreases l,
{
    if l == 0 {
        Seq::empty()
    } else {
        canonical_symbols(lengths, (l - 1) as nat) + symbols_of_len(lengths, lengths.len(), l)
    }
}

/// The largest code length among the first `n`.
pub open spec fn max_len(lengths: Seq<u8>, n: nat) -> nat
    decreases n,
{
    if n == 0 {
        0
    } else {
        let m = max_len(lengths, (n - 1) as nat);
        if lengths[n - 1] as nat > m { lengths[n - 1] as nat } else { m }
    }
}

/// How many codes of each length, lengths 1 to 15 (index 0 unused).
pub open spec fn length_counts(lengths: Seq<u8>) -> Seq<u16> {
    Seq::new((MAX_CODE_BITS + 1) as nat, |l: int| if l == 0 { 0u16 } else { count_len(lengths, lengths.len(), l as nat) as u16 })
}

/// The code space left after lengths `bits..=15`, starting from `left`
/// codes of length `bits - 1`, never runs out (counted up to 65536).
pub open spec fn kraft_ok(counts: Seq<u16>, bits: nat, left: int) -> bool
    decreases 16 - bits,
{
    if bits > 15 {
        true
    } else {
        let l2 = left * 2 - counts[bits as int];
        if l2 < 0 {
            false
        } else {
            kraft_ok(counts, bits + 1, if l2 > 0x10000 { 0x10000 } else { l2 })
        }
    }
}

/// A canonical Huffman code by value.
pub struct HuffTable {
    pub counts: Seq<u16>,
    pub symbols: Seq<u16>,
    pub max_bits: nat,
}

/// The canonical code for per-symbol code lengths (0 for an unused
/// symbol): refused when a length exceeds 15, when no symbol is used, or
/// when the lengths oversubscribe the code space.
pub open spec fn spec_huffman(lengths: Seq<u8>) -> core::result::Result<HuffTable, ErrorKind> {
    if exists|i: int| 0 <= i < lengths.len() && #[trigger] lengths[i] > 15 {
        Err(ErrorKind::InvalidData)
    } else if max_len(lengths, lengths.len()) == 0 {
        Err(ErrorKind::InvalidData)
    } else if !kraft_ok(length_counts(lengths), 1, 1) {
        Err(ErrorKind::InvalidData)
    } else {
        Ok(HuffTable {
            counts: length_counts(lengths),
            symbols: canonical_symbols(lengths, 15),
            max_bits: max_len(lengths, lengths.len()),
        })
    }
}

proof fn lemma_count_len_le(lengths: Seq<u8>, n: nat, l: nat)
    ensures
        count_len(lengths, n, l) <= n,
    decreases n,
{
    if n > 0 {
        lemma_count_len_le(lengths, (n - 1) as nat, l);
    }
}

proof fn lemma_max_len_bound(lengths: Seq<u8>, n: nat)
    requires
        n <= lengths.len(),
        forall|i: int| 0 <= i < n ==> lengths[i] <= 15,
    ensures
        max_len(lengths, n) <= 15,
    decreases n,
{
    if n > 0 {
        lemma_max_len_bound(lengths, (n - 1) as nat);
    }
}

/// Decodes one symbol of code `t` from bit `p` of `s`: the code is read
/// most significant bit first, one length at a time, and the symbol is the
/// one whose canonical code it is. Gives the symbol and the next bit.
pub open spec fn huff_walk(t: HuffTable, s: Seq<u8>, p: nat, len: nat, code: int, first: int, index: int) -> core::result::Result<
    (u16, nat),
    ErrorKind,
>
    decreases t.max_bits + 1 - len,
{
    if len > t.max_bits {
        Err(ErrorKind::InvalidData)
    } else if p + 1 > 8 * s.len() {
        Err(ErrorKind::EndOfFile)
    } else {
        let c = code + lsb_bit(s, p as int);
        let count = t.counts[len as int] as int;
        if c - first < count {
            let at = index + c - first;
            if 0 <= at < t.symbols.len() {
                Ok((t.symbols[at], p + 1))
            } else {
                Err(ErrorKind::InvalidData)
            }
        } else {
            let first2 = (first + count) * 2;
            let code2 = c * 2;
            if first2 >= 0x10000 || code2 >= 0xffff || code2 < first2 {
                Err(ErrorKind::InvalidData)
            } else {
                huff_walk(t, s, p + 1, len + 1, code2, first2, index + count)
            }
        }
    }
}

pub open spec fn huff_decode(t: HuffTable, s: Seq<u8>, p: nat) -> core::result::Result<(u16, nat), ErrorKind> {
    huff_walk(t, s, p, 1, 0, 0, 0)
}

pub proof fn lemma_huff_walk_advances(t: HuffTable, s: Seq<u8>, p: nat, len: nat, code: int, first: int, index: int)
    ensures
        huff_walk(t, s, p, len, code, first, index) matches Ok((_, q)) ==> p < q <= 8 * s.len(),
    decreases t.max_bits + 1 - len,
{
    if len <= t.max_bits && p + 1 <= 8 * s.len() {
        let c = code + lsb_bit(s, p as int);
        let count = t.counts[len as int] as int;
        if !(c - first < count) {
            lemma_huff_walk_advances(t, s, p + 1, len + 1, c * 2, (first + count) * 2, index + count);
        }
    }
}

/// A canonical Huffman code: symbols sorted by code length, then by value.
struct Huffman {
    counts: Vec<u16>,
    symbols: Vec<u16>,
    max_bits: usize,
}

impl Huffman {
    spec fn wf(&self) -> bool {
        &&& self.counts@.len() == MAX_CODE_BITS + 1
        &&& 1 <= self.max_bits <= MAX_CODE_BITS
    }

    spec fn table(&self) -> HuffTable {
        HuffTable { counts: self.counts@, symbols: self.symbols@, max_bits: self.max_bits as nat }
    }

    /// Builds the canonical code for the given per-symbol code lengths
    /// (zero meaning the symbol is unused).
    fn from_lengths(lengths: &[u8]) -> (r: Result<Self>)
        requires
            lengths@.len() <= 320,
        ensures
            match r {
                Ok(h) => h.wf() && spec_huffman(lengths@) == Ok::<HuffTable, ErrorKind>(h.table()),
                Err(e) => spec_huffman(lengths@) == Err::<HuffTable, ErrorKind>(e@),
            },
    {
        let ghost ls = lengths@;
        let n = lengths.len();
        let mut counts: Vec<u16> = Vec::new();
        let mut l: usize = 0;
        while l <= MAX_CODE_BITS
            invariant
                l <= MAX_CODE_BITS + 1,
                counts@.len() == l,
                forall|k: int| 0 <= k < l ==> counts@[k] == 0,
            decreases MAX_CODE_BITS + 1 - l,
        {
            counts.push(0);
            l += 1;
        }
        let mut max_bits: usize = 0;
        let mut i: usize = 0;
        while i < n
            invariant
                ls == lengths@,
                n == ls.len(),
                n <= 320,
                counts@.len() == MAX_CODE_BITS + 1,
                i <= n,
                max_bits == max_len(ls, i as nat),
                max_bits <= MAX_CODE_BITS,
                forall|j: int| 0 <= j < i ==> ls[j] <= 15,
                counts@[0] == 0,
                forall|k: int| 1 <= k <= 15 ==> counts@[k] == count_len(ls, i as nat, k as nat),
            decreases n - i,
        {
            let length = lengths[i] as usize;
            if length > MAX_CODE_BITS {
                return Err(MediaError::invalid_data("DEFLATE Huffman code length exceeds 15 bits"));
            }
            proof {
                lemma_count_len_le(ls, i as nat, length as nat);
            }
            if length != 0 {
                let c = counts[length];
                counts.set(length, c + 1);
                if length > max_bits {
                    max_bits = length;
                }
            }
            i += 1;
        }
        assert(!(exists|j: int| 0 <= j < ls.len() && #[trigger] ls[j] > 15));
        if max_bits == 0 {
            return Err(MediaError::invalid_data("DEFLATE Huffman tree is empty"));
        }
        proof {
            lemma_count_len_le(ls, n as nat, 0);
            assert forall|k: int| 1 <= k <= 15 implies counts@[k] == length_counts(ls)[k] by {
                lemma_count_len_le(ls, n as nat, k as nat);
            }
            assert(counts@ =~= length_counts(ls));
        }
        let mut left: i64 = 1;
        let mut bits: usize = 1;
        while bits <= MAX_CODE_BITS
            invariant
                ls == lengths@,
                n == ls.len(),
                !(exists|j: int| 0 <= j < ls.len() && #[trigger] ls[j] > 15),
                max_bits == max_len(ls, n as nat),
                1 <= max_bits <= MAX_CODE_BITS,
                counts@ == length_counts(ls),
                counts@.len() == MAX_CODE_BITS + 1,
                1 <= bits <= MAX_CODE_BITS + 1,
                0 <= left <= 0x10000,
                kraft_ok(length_counts(ls), 1, 1) == kraft_ok(length_counts(ls), bits as nat, left as int),
            decreases MAX_CODE_BITS + 1 - bits,
        {
            left = left * 2 - counts[bits] as i64;
            if left < 0 {
                return Err(MediaError::invalid_data("DEFLATE Huffman tree is oversubscribed"));
            }
            if left > 0x10000 {
                left = 0x10000;
            }
            bits += 1;
        }
        let mut symbols: Vec<u16> = Vec::new();
        let mut len: usize = 1;
        while len <= MAX_CODE_BITS
            invariant
                ls == lengths@,
                n == ls.len(),
                n <= 320,
                !(exists|j: int| 0 <= j < ls.len() && #[trigger] ls[j] > 15),
                max_bits == max_len(ls, n as nat),
                1 <= max_bits <= MAX_CODE_BITS,
                counts@ == length_counts(ls),
                counts@.len() == MAX_CODE_BITS + 1,
                kraft_ok(length_counts(ls), 1, 1),
                1 <= len <= MAX_CODE_BITS + 1,
                symbols@ == canonical_symbols(ls, (len - 1) as nat),
            decreases MAX_CODE_BITS + 1 - len,
        {
            let mut sym: usize = 0;
            let ghost before = symbols@;
            while sym < n
                invariant
                    ls == lengths@,
                    n == ls.len(),
                    n <= 320,
                    1 <= len <= MAX_CODE_BITS,
                    sym <= n,
                    before == canonical_symbols(ls, (len - 1) as nat),
                    symbols@ == before + symbols_of_len(ls, sym as nat, len as nat),
                decreases n - sym,
            {
                if lengths[sym] as usize == len {
                    symbols.push(sym as u16);
                }
                sym += 1;
                assert(symbols@ =~= before + symbols_of_len(ls, sym as nat, len as nat));
            }
            len += 1;
        }
        Ok(Huffman { counts, symbols, max_bits })
    }

    /// Decodes one symbol, reading its code bits most significant first.
    fn decode(&self, reader: &mut DeflateBits) -> (r: Result<u16>)
        requires
            self.wf(),
            old(reader).wf(),
        ensures
            final(reader).wf(),
            final(reader).bytes@ == old(reader).bytes@,
            final(reader).consumed() >= old(reader).consumed(),
            r is Ok ==> final(reader).consumed() > old(reader).consumed(),
            r is Err ==> (r->Err_0@ == ErrorKind::InvalidData || r->Err_0@ == ErrorKind::EndOfFile),
            match r {
                Ok(sym) => huff_decode(self.table(), old(reader).bytes@, old(reader).consumed()) == Ok::<(u16, nat), ErrorKind>(
                    (sym, final(reader).consumed()),
                ),
                Err(e) => huff_decode(self.table(), old(reader).bytes@, old(reader).consumed()) == Err::<(u16, nat), ErrorKind>(e@),
            },
    {
        let mut code: i64 = 0;
        let mut first: i64 = 0;
        let mut index: i64 = 0;
        let mut len: usize = 1;
        while len <= self.max_bits
            invariant
                self.wf(),
                reader.wf(),
                reader.bytes@ == old(reader).bytes@,
                reader.consumed() == old(reader).consumed() + len - 1,
                1 <= len <= self.max_bits + 1,
                0 <= code < 0x10000 - 1,
                0 <= first < 0x10000,
                0 <= index <= len * 0x10000,
                huff_decode(self.table(), old(reader).bytes@, old(reader).consumed()) == huff_walk(
                    self.table(),
                    old(reader).bytes@,
                    reader.consumed(),
                    len as nat,
                    code as int,
                    first as int,
                    index as int,
                ),
            decreases self.max_bits + 1 - len,
        {
            let ghost p = reader.consumed();
            let bit = reader.read_bits(1)?;
            proof {
                vstd::arithmetic::power2::lemma2_to64();
                let bs = reader.bytes@;
                assert(lsb_bits(bs, p as int, 1) == lsb_bits(bs, p as int, 0) + lsb_bit(bs, p as int) * vstd::arithmetic::power2::pow2(0));
                assert(vstd::arithmetic::power2::pow2(0) == 1);
                assert(lsb_bits(bs, p as int, 0) == 0);
                assert(bit as nat == lsb_bit(bs, p as int));
            }
            // `code` is even here (it was shifted left), so adding the bit appends it.
            code = code + bit as i64;
            let count = self.counts[len] as i64;
            if code - first < count {
                let at = index + code - first;
                if 0 <= at && (at as usize) < self.symbols.len() {
                    return Ok(self.symbols[at as usize]);
                }
                return Err(MediaError::invalid_data("DEFLATE bitstream does not match its Huffman tree"));
            }
            index = index + count;
            first = (first + count) * 2;
            code = code * 2;
            if first >= 0x10000 || code >= 0x10000 - 1 || code < first {
                return Err(MediaError::invalid_data("DEFLATE bitstream does not match its Huffman tree"));
            }
            len += 1;
        }
        Err(MediaError::invalid_data("DEFLATE bitstream does not match its Huffman tree"))
    }
}

pub open spec fn length_base_table() -> Seq<nat> {
    seq![3nat, 4, 5, 6, 7, 8, 9, 10, 11, 13, 15, 17, 19, 23, 27, 31, 35, 43, 51, 59, 67, 83, 99, 115, 131, 163, 195, 227, 258]
}

pub open spec fn length_extra_table() -> Seq<nat> {
    seq![0nat, 0, 0, 0, 0, 0, 0, 0, 1, 1, 1, 1, 2, 2, 2, 2, 3, 3, 3, 3, 4, 4, 4, 4, 5, 5, 5, 5, 0]
}

pub open spec fn distance_base_table() -> Seq<nat> {
    seq![
        1nat, 2, 3, 4, 5, 7, 9, 13, 17, 25, 33, 49, 65, 97, 129, 193, 257, 385, 513, 769, 1025, 1537, 2049, 3073, 4097,
        6145, 8193, 12289, 16385, 24577,
    ]
}

pub open spec fn distance_extra_table() -> Seq<nat> {
    seq![0nat, 0, 0, 0, 1, 1, 2, 2, 3, 3, 4, 4, 5, 5, 6, 6, 7, 7, 8, 8, 9, 9, 10, 10, 11, 11, 12, 12, 13, 13]
}

/// Why appending `additional` bytes to `current` is refused: the size
/// overflows `usize`, or passes the output limit.
pub open spec fn capacity_error(current: nat, additional: nat, limit: nat) -> Option<ErrorKind> {
    if current + additional > usize::MAX {
        Some(ErrorKind::Overflow)
    } else if current + additional > limit {
        Some(ErrorKind::Unsupported)
    } else {
        None
    }
}

/// A `count`-bit field at bit `p`, first bit least significant; refused
/// past the end of the input.
pub open spec fn read_field(s: Seq<u8>, p: nat, count: nat) -> core::result::Result<(nat, nat), ErrorKind> {
    if count > 24 {
        Err(ErrorKind::InvalidArgument)
    } else if p + count > 8 * s.len() {
        Err(ErrorKind::EndOfFile)
    } else {
        Ok((lsb_bits(s, p as int, count), p + count))
    }
}

/// `out` with `k` bytes appended, each copied from `d` bytes back.
pub open spec fn copy_out(out: Seq<u8>, d: nat, k: nat) -> Seq<u8>
    decreases k,
{
    if k == 0 {
        out
    } else {
        let o = copy_out(out, d, (k - 1) as nat);
        o.push(o[o.len() - d])
    }
}

/// The symbols of a compressed block from bit `p`: literals are appended,
/// length/distance pairs copy earlier output, 256 ends the block. Gives
/// the bit after the block and the output.
pub open spec fn block_walk(s: Seq<u8>, p: nat, lit: HuffTable, dist: Option<HuffTable>, out: Seq<u8>, limit: nat)
    -> core::result::Result<(nat, Seq<u8>), ErrorKind>
    decreases 8 * s.len() - p,
{
    match huff_decode(lit, s, p) {
        Err(k) => Err(k),
        Ok((sym, p1)) => {
            proof {
                lemma_huff_walk_advances(lit, s, p, 1, 0, 0, 0);
            }
            if sym <= 255 {
                match capacity_error(out.len(), 1, limit) {
                    Some(k) => Err(k),
                    None => block_walk(s, p1, lit, dist, out.push(sym as u8), limit),
                }
            } else if sym == 256 {
                Ok((p1, out))
            } else if sym <= 285 {
                let li = sym - 257;
                match read_field(s, p1, length_extra_table()[li]) {
                    Err(k) => Err(k),
                    Ok((ev, p2)) => {
                        let length = length_base_table()[li] + ev;
                        match dist {
                            None => Err(ErrorKind::InvalidData),
                            Some(dt) => match huff_decode(dt, s, p2) {
                                Err(k) => Err(k),
                                Ok((ds, p3)) => {
                                    proof {
                                        lemma_huff_walk_advances(dt, s, p2, 1, 0, 0, 0);
                                    }
                                    if ds > 29 {
                                        Err(ErrorKind::InvalidData)
                                    } else {
                                        match read_field(s, p3, distance_extra_table()[ds as int]) {
                                            Err(k) => Err(k),
                                            Ok((dv, p4)) => {
                                                let d = distance_base_table()[ds as int] + dv;
                                                if d == 0 || d > out.len() {
                                                    Err(ErrorKind::InvalidData)
                                                } else {
                                                    match capacity_error(out.len(), length, limit) {
                                                        Some(k) => Err(k),
                                                        None => block_walk(s, p4, lit, dist, copy_out(out, d, length), limit),
                                                    }
                                                }
                                            },
                                        }
                                    }
                                },
                            },
                        }
                    },
                }
            } else {
                Err(ErrorKind::InvalidData)
            }
        },
    }
}

pub proof fn lemma_block_walk_advances(s: Seq<u8>, p: nat, lit: HuffTable, dist: Option<HuffTable>, out: Seq<u8>, limit: nat)
    ensures
        block_walk(s, p, lit, dist, out, limit) matches Ok((q, _)) ==> p < q <= 8 * s.len(),
    decreases 8 * s.len() - p,
{
    lemma_huff_walk_advances(lit, s, p, 1, 0, 0, 0);
    match huff_decode(lit, s, p) {
        Err(_) => {},
        Ok((sym, p1)) => {
            if sym <= 255 {
                if capacity_error(out.len(), 1, limit) is None {
                    lemma_block_walk_advances(s, p1, lit, dist, out.push(sym as u8), limit);
                }
            } else if sym != 256 && sym <= 285 {
                let li = sym - 257;
                if let Ok((ev, p2)) = read_field(s, p1, length_extra_table()[li]) {
                    if let Some(dt) = dist {
                        lemma_huff_walk_advances(dt, s, p2, 1, 0, 0, 0);
                        if let Ok((ds, p3)) = huff_decode(dt, s, p2) {
                            if ds <= 29 {
                                if let Ok((dv, p4)) = read_field(s, p3, distance_extra_table()[ds as int]) {
                                    let d = distance_base_table()[ds as int] + dv;
                                    let length = length_base_table()[li] + ev;
                                    if !(d == 0 || d > out.len()) && capacity_error(out.len(), length, limit) is None {
                                        lemma_block_walk_advances(s, p4, lit, dist, copy_out(out, d, length), limit);
                                    }
                                }
                            }
                        }
                    }
                }
            }
        },
    }
}

/// The bit position rounded up to a byte boundary.
pub open spec fn align_up(p: nat) -> nat {
    if p % 8 == 0 {
        p
    } else {
        (p / 8 + 1) * 8
    }
}

/// `n` bytes at byte `q`.
pub open spec fn take_bytes(s: Seq<u8>, q: nat, n: nat) -> core::result::Result<Seq<u8>, ErrorKind> {
    if q + n > usize::MAX {
        Err(ErrorKind::Overflow)
    } else if q + n > s.len() {
        Err(ErrorKind::EndOfFile)
    } else {
        Ok(s.subrange(q as int, (q + n) as int))
    }
}

/// A stored block from bit `p`: from the next byte boundary, LEN and its
/// complement NLEN, then LEN bytes copied to the output.
pub open spec fn stored_block(s: Seq<u8>, p: nat, out: Seq<u8>, limit: nat) -> core::result::Result<(nat, Seq<u8>), ErrorKind> {
    let q = align_up(p) / 8;
    match take_bytes(s, q, 2) {
        Err(k) => Err(k),
        Ok(lb) => match take_bytes(s, q + 2, 2) {
            Err(k) => Err(k),
            Ok(nb) => {
                let len = (lb[0] as int + lb[1] as int * 256) as u16;
                let nlen = (nb[0] as int + nb[1] as int * 256) as u16;
                if len ^ nlen != 0xffff {
                    Err(ErrorKind::InvalidData)
                } else {
                    match capacity_error(out.len(), len as nat, limit) {
                        Some(k) => Err(k),
                        None => match take_bytes(s, q + 4, len as nat) {
                            Err(k) => Err(k),
                            Ok(data) => Ok((((q + 4 + len) * 8) as nat, out + data)),
                        },
                    }
                }
            },
        },
    }
}

pub open spec fn fixed_literal_lengths() -> Seq<u8> {
    Seq::new(288, |i: int| if i <= 143 { 8u8 } else if i <= 255 { 9u8 } else if i <= 279 { 7u8 } else { 8u8 })
}

pub open spec fn fixed_distance_lengths() -> Seq<u8> {
    Seq::new(32, |_i: int| 5u8)
}

/// The fixed codes of block type 1.
pub open spec fn spec_fixed_tables() -> core::result::Result<(HuffTable, HuffTable), ErrorKind> {
    match spec_huffman(fixed_literal_lengths()) {
        Err(k) => Err(k),
        Ok(l) => match spec_huffman(fixed_distance_lengths()) {
            Err(k) => Err(k),
            Ok(d) => Ok((l, d)),
        },
    }
}

/// The order in which code-length code lengths are stored.
pub open spec fn code_length_order_table() -> Seq<nat> {
    seq![16nat, 17, 18, 0, 8, 7, 9, 6, 10, 5, 11, 4, 12, 3, 13, 2, 14, 1, 15]
}

/// Reads code-length code lengths `i..count`, 3 bits each, into `arr`.
pub open spec fn cl_walk(s: Seq<u8>, p: nat, i: nat, count: nat, arr: Seq<u8>) -> core::result::Result<(Seq<u8>, nat), ErrorKind>
    decreases count - i,
{
    if i >= count {
        Ok((arr, p))
    } else {
        match read_field(s, p, 3) {
            Err(k) => Err(k),
            Ok((v, p2)) => cl_walk(s, p2, i + 1, count, arr.update(code_length_order_table()[i as int] as int, v as u8)),
        }
    }
}

/// Decodes code lengths until `total` are known: 0-15 directly, 16 repeats
/// the previous length 3-6 times, 17 and 18 give 3-10 and 11-138 zeros.
pub open spec fn lengths_walk(s: Seq<u8>, p: nat, t: HuffTable, total: nat, acc: Seq<u8>) -> core::result::Result<(Seq<u8>, nat), ErrorKind>
    decreases 8 * s.len() - p,
{
    if acc.len() >= total {
        Ok((acc, p))
    } else {
        match huff_decode(t, s, p) {
            Err(k) => Err(k),
            Ok((sym, p1)) => {
                proof {
                    lemma_huff_walk_advances(t, s, p, 1, 0, 0, 0);
                }
                if sym <= 15 {
                    lengths_walk(s, p1, t, total, acc.push(sym as u8))
                } else if sym == 16 {
                    if acc.len() == 0 {
                        Err(ErrorKind::InvalidData)
                    } else {
                        match read_field(s, p1, 2) {
                            Err(k) => Err(k),
                            Ok((v, p2)) => if acc.len() + v + 3 > total {
                                Err(ErrorKind::InvalidData)
                            } else {
                                lengths_walk(s, p2, t, total, acc + Seq::new(v + 3, |_i: int| acc.last()))
                            },
                        }
                    }
                } else if sym == 17 || sym == 18 {
                    let bits: nat = if sym == 17 { 3 } else { 7 };
                    let base: nat = if sym == 17 { 3 } else { 11 };
                    match read_field(s, p1, bits) {
                        Err(k) => Err(k),
                        Ok((v, p2)) => if acc.len() + v + base > total {
                            Err(ErrorKind::InvalidData)
                        } else {
                            lengths_walk(s, p2, t, total, acc + Seq::new(v + base, |_i: int| 0u8))
                        },
                    }
                } else {
                    Err(ErrorKind::InvalidData)
                }
            },
        }
    }
}

/// The code tables of a dynamic block from bit `p`: the counts, the
/// code-length code, the literal/length and distance code lengths; a block
/// whose distance lengths are all zero has no distance code.
pub open spec fn dynamic_spec(s: Seq<u8>, p: nat) -> core::result::Result<(HuffTable, Option<HuffTable>, nat), ErrorKind> {
    match read_field(s, p, 5) {
        Err(k) => Err(k),
        Ok((a, p1)) => match read_field(s, p1, 5) {
            Err(k) => Err(k),
            Ok((b, p2)) => match read_field(s, p2, 4) {
                Err(k) => Err(k),
                Ok((c, p3)) => {
                    let lit = a + 257;
                    let dc = b + 1;
                    let clc = c + 4;
                    if lit > 286 || dc > 32 || clc > 19 {
                        Err(ErrorKind::InvalidData)
                    } else {
                        match cl_walk(s, p3, 0, clc, Seq::new(19, |_i: int| 0u8)) {
                            Err(k) => Err(k),
                            Ok((arr, p4)) => match spec_huffman(arr) {
                                Err(k) => Err(k),
                                Ok(clt) => match lengths_walk(s, p4, clt, lit + dc, Seq::empty()) {
                                    Err(k) => Err(k),
                                    Ok((ls, p5)) => if ls[256] == 0 {
                                        Err(ErrorKind::InvalidData)
                                    } else {
                                        match spec_huffman(ls.subrange(0, lit as int)) {
                                            Err(k) => Err(k),
                                            Ok(lt) => {
                                                let dl = ls.subrange(lit as int, (lit + dc) as int);
                                                if forall|j: int| 0 <= j < dl.len() ==> #[trigger] dl[j] == 0 {
                                                    Ok((lt, None, p5))
                                                } else {
                                                    match spec_huffman(dl) {
                                                        Err(k) => Err(k),
                                                        Ok(dt) => Ok((lt, Some(dt), p5)),
                                                    }
                                                }
                                            },
                                        }
                                    },
                                },
                            },
                        }
                    }
                },
            },
        },
    }
}

pub proof fn lemma_cl_walk_advances(s: Seq<u8>, p: nat, i: nat, count: nat, arr: Seq<u8>)
    ensures
        cl_walk(s, p, i, count, arr) matches Ok((_, q)) ==> p <= q,
    decreases count - i,
{
    if i < count {
        if let Ok((v, p2)) = read_field(s, p, 3) {
            lemma_cl_walk_advances(s, p2, i + 1, count, arr.update(code_length_order_table()[i as int] as int, v as u8));
        }
    }
}

pub proof fn lemma_lengths_walk_advances(s: Seq<u8>, p: nat, t: HuffTable, total: nat, acc: Seq<u8>)
    ensures
        lengths_walk(s, p, t, total, acc) matches Ok((_, q)) ==> p <= q,
    decreases 8 * s.len() - p,
{
    if acc.len() < total {
        lemma_huff_walk_advances(t, s, p, 1, 0, 0, 0);
        if let Ok((sym, p1)) = huff_decode(t, s, p) {
            if sym <= 15 {
                lemma_lengths_walk_advances(s, p1, t, total, acc.push(sym as u8));
            } else if sym == 16 {
                if acc.len() != 0 {
                    if let Ok((v, p2)) = read_field(s, p1, 2) {
                        if acc.len() + v + 3 <= total {
                            lemma_lengths_walk_advances(s, p2, t, total, acc + Seq::new(v + 3, |_i: int| acc.last()));
                        }
                    }
                }
            } else if sym == 17 || sym == 18 {
                let bits: nat = if sym == 17 { 3 } else { 7 };
                let base: nat = if sym == 17 { 3 } else { 11 };
                if let Ok((v, p2)) = read_field(s, p1, bits) {
                    if acc.len() + v + base <= total {
                        lemma_lengths_walk_advances(s, p2, t, total, acc + Seq::new(v + base, |_i: int| 0u8));
                    }
                }
            }
        }
    }
}

pub proof fn lemma_dynamic_advances(s: Seq<u8>, p: nat)
    ensures
        dynamic_spec(s, p) matches Ok((_, _, q)) ==> p <= q,
{
    if let Ok((a, p1)) = read_field(s, p, 5) {
        if let Ok((b, p2)) = read_field(s, p1, 5) {
            if let Ok((c, p3)) = read_field(s, p2, 4) {
                lemma_cl_walk_advances(s, p3, 0, c + 4, Seq::new(19, |_i: int| 0u8));
                if let Ok((arr, p4)) = cl_walk(s, p3, 0, c + 4, Seq::new(19, |_i: int| 0u8)) {
                    if let Ok(clt) = spec_huffman(arr) {
                        lemma_lengths_walk_advances(s, p4, clt, a + 257 + b + 1, Seq::empty());
                    }
                }
            }
        }
    }
}

/// The block at bit `p`, by its type: stored, fixed or dynamic codes.
pub open spec fn block_spec(s: Seq<u8>, p: nat, btype: nat, out: Seq<u8>, limit: nat) -> core::result::Result<(nat, Seq<u8>), ErrorKind> {
    if btype == 0 {
        stored_block(s, p, out, limit)
    } else if btype == 1 {
        match spec_fixed_tables() {
            Err(k) => Err(k),
            Ok((l, d)) => block_walk(s, p, l, Some(d), out, limit),
        }
    } else if btype == 2 {
        match dynamic_spec(s, p) {
            Err(k) => Err(k),
            Ok((l, d, p2)) => block_walk(s, p2, l, d, out, limit),
        }
    } else {
        Err(ErrorKind::InvalidData)
    }
}

pub proof fn lemma_block_spec_advances(s: Seq<u8>, p: nat, btype: nat, out: Seq<u8>, limit: nat)
    ensures
        block_spec(s, p, btype, out, limit) matches Ok((q, _)) ==> p <= q <= 8 * s.len(),
{
    if btype == 0 {
        assert(align_up(p) >= p);
    } else if btype == 1 {
        if let Ok((l, d)) = spec_fixed_tables() {
            lemma_block_walk_advances(s, p, l, Some(d), out, limit);
        }
    } else if btype == 2 {
        lemma_dynamic_advances(s, p);
        if let Ok((l, d, p2)) = dynamic_spec(s, p) {
            lemma_block_walk_advances(s, p2, l, d, out, limit);
        }
    }
}

/// The blocks from bit `p` until the one marked final.
#[verifier::opaque]
pub open spec fn inflate_walk(s: Seq<u8>, p: nat, out: Seq<u8>, limit: nat) -> core::result::Result<Seq<u8>, ErrorKind>
    decreases 8 * s.len() - p,
{
    match read_field(s, p, 1) {
        Err(k) => Err(k),
        Ok((fin, p1)) => match read_field(s, p1, 2) {
            Err(k) => Err(k),
            Ok((bt, p2)) => match block_spec(s, p2, bt, out, limit) {
                Err(k) => Err(k),
                Ok((p3, out2)) => if fin != 0 {
                    Ok(out2)
                } else {
                    proof {
                        lemma_block_spec_advances(s, p2, bt, out, limit);
                    }
                    inflate_walk(s, p3, out2, limit)
                },
            },
        },
    }
}

/// What inflating a raw DEFLATE stream gives, with at most `limit` bytes of
/// output.
pub open spec fn spec_inflate(s: Seq<u8>, limit: nat) -> core::result::Result<Seq<u8>, ErrorKind> {
    inflate_walk(s, 0, Seq::empty(), limit)
}

fn ensure_output_capacity(current: usize, additional: usize, limit: usize) -> (r: Result<()>)
    ensures
        r is Ok <==> current + additional <= limit,
        match r {
            Ok(()) => capacity_error(current as nat, additional as nat, limit as nat) is None,
            Err(e) => capacity_error(current as nat, additional as nat, limit as nat) == Some(e@),
        },
{
    let required = match current.checked_add(additional) {
        Some(v) => v,
        None => return Err(MediaError::overflow("DEFLATE output size overflow")),
    };
    if required > limit {
        return Err(MediaError::unsupported("DEFLATE output would exceed the configured limit"));
    }
    Ok(())
}

/// Inflates a raw RFC 1951 DEFLATE stream with an explicit output bound.
#[verifier::spinoff_prover]
pub fn inflate(bytes: &[u8], output_limit: usize) -> (r: Result<Vec<u8>>)
    ensures
        match r {
            Ok(out) => out@.len() <= output_limit && spec_inflate(bytes@, output_limit as nat) == Ok::<Seq<u8>, ErrorKind>(out@),
            Err(e) => spec_inflate(bytes@, output_limit as nat) == Err::<Seq<u8>, ErrorKind>(e@),
        },
{
    let mut reader = DeflateBits::new(bytes);
    let mut output: Vec<u8> = Vec::new();
    loop
        invariant
            reader.wf(),
            reader.bytes@ == bytes@,
            output@.len() <= output_limit,
            spec_inflate(bytes@, output_limit as nat) == inflate_walk(bytes@, reader.consumed(), output@, output_limit as nat),
        decreases reader.total() - reader.consumed(),
    {
        let ghost before = reader.consumed();
        let ghost out0 = output@;
        proof {
            reveal_with_fuel(inflate_walk, 1);
        }
        let final_block = reader.read_bits(1)? != 0;
        let btype = reader.read_bits(2)?;
        let ghost p2 = reader.consumed();
        proof {
            vstd::arithmetic::power2::lemma2_to64();
            reveal_with_fuel(lsb_bits, 2);
        }
        if btype == 0 {
            let step = decode_stored_block(&mut reader, &mut output, output_limit);
            if let Err(e) = step {
                return Err(e);
            }
        } else if btype == 1 {
            let (literal, distance) = fixed_tables()?;
            let step = decode_compressed_block(&mut reader, &literal, Some(&distance), &mut output, output_limit);
            if let Err(e) = step {
                return Err(e);
            }
        } else if btype == 2 {
            let (literal, distance) = dynamic_tables(&mut reader)?;
            let step = match distance {
                Some(d) => decode_compressed_block(&mut reader, &literal, Some(&d), &mut output, output_limit),
                None => decode_compressed_block(&mut reader, &literal, None, &mut output, output_limit),
            };
            if let Err(e) = step {
                return Err(e);
            }
        } else {
            return Err(MediaError::invalid_data("DEFLATE block uses reserved BTYPE value"));
        }
        if final_block {
            return Ok(output);
        }
        assert(reader.consumed() > before);
        assert(reader.consumed() <= reader.total());
    }
}

fn decode_stored_block(reader: &mut DeflateBits, output: &mut Vec<u8>, output_limit: usize) -> (r: Result<()>)
    requires
        old(reader).wf(),
        old(output)@.len() <= output_limit,
    ensures
        final(reader).wf(),
        final(reader).bytes@ == old(reader).bytes@,
        final(reader).consumed() >= old(reader).consumed(),
        final(output)@.len() <= output_limit,
        match r {
            Ok(()) => stored_block(old(reader).bytes@, old(reader).consumed(), old(output)@, output_limit as nat)
                == Ok::<(nat, Seq<u8>), ErrorKind>((final(reader).consumed(), final(output)@)),
            Err(e) => stored_block(old(reader).bytes@, old(reader).consumed(), old(output)@, output_limit as nat)
                == Err::<(nat, Seq<u8>), ErrorKind>(e@),
        },
{
    reader.align_to_byte();
    let ghost q = reader.byte_index as nat;
    assert(q == align_up(old(reader).consumed()) / 8);
    let lb = reader.take_aligned(2)?;
    let len = lb[0] as u16 + (lb[1] as u16) * 256;
    let nb = reader.take_aligned(2)?;
    let nlen = nb[0] as u16 + (nb[1] as u16) * 256;
    if len ^ nlen != u16::MAX {
        return Err(MediaError::invalid_data("DEFLATE stored block LEN/NLEN check failed"));
    }
    ensure_output_capacity(output.len(), len as usize, output_limit)?;
    let data = reader.take_aligned(len as usize)?;
    push_slice(output, data);
    Ok(())
}

fn fixed_tables() -> (r: Result<(Huffman, Huffman)>)
    ensures
        match r {
            Ok((l, d)) => l.wf() && d.wf() && spec_fixed_tables() == Ok::<(HuffTable, HuffTable), ErrorKind>((l.table(), d.table())),
            Err(e) => spec_fixed_tables() == Err::<(HuffTable, HuffTable), ErrorKind>(e@),
        },
{
    let mut literal_lengths: Vec<u8> = Vec::new();
    let mut i: usize = 0;
    while i < 288
        invariant
            i <= 288,
            literal_lengths@.len() == i,
            forall|j: int| 0 <= j < i ==> literal_lengths@[j] == fixed_literal_lengths()[j],
        decreases 288 - i,
    {
        let v: u8 = if i <= 143 {
            8
        } else if i <= 255 {
            9
        } else if i <= 279 {
            7
        } else {
            8
        };
        literal_lengths.push(v);
        i += 1;
    }
    assert(literal_lengths@ =~= fixed_literal_lengths());
    let mut distance_lengths: Vec<u8> = Vec::new();
    let mut j: usize = 0;
    while j < 32
        invariant
            j <= 32,
            distance_lengths@.len() == j,
            forall|k: int| 0 <= k < j ==> distance_lengths@[k] == 5,
        decreases 32 - j,
    {
        distance_lengths.push(5);
        j += 1;
    }
    assert(distance_lengths@ =~= fixed_distance_lengths());
    let l = Huffman::from_lengths(literal_lengths.as_slice())?;
    let d = Huffman::from_lengths(distance_lengths.as_slice())?;
    Ok((l, d))
}

spec fn opt_owned(d: Option<Huffman>) -> Option<HuffTable> {
    match d {
        Some(h) => Some(h.table()),
        None => None,
    }
}

#[verifier::spinoff_prover]
fn dynamic_tables(reader: &mut DeflateBits) -> (r: Result<(Huffman, Option<Huffman>)>)
    requires
        old(reader).wf(),
    ensures
        final(reader).wf(),
        final(reader).bytes@ == old(reader).bytes@,
        final(reader).consumed() >= old(reader).consumed(),
        match r {
            Ok((l, d)) => l.wf() && (d matches Some(dd) ==> dd.wf()) && dynamic_spec(old(reader).bytes@, old(reader).consumed())
                == Ok::<(HuffTable, Option<HuffTable>, nat), ErrorKind>((l.table(), opt_owned(d), final(reader).consumed())),
            Err(e) => dynamic_spec(old(reader).bytes@, old(reader).consumed()) == Err::<(HuffTable, Option<HuffTable>, nat), ErrorKind>(e@),
        },
{
    let ghost s = reader.bytes@;
    proof {
        vstd::arithmetic::power2::lemma2_to64();
    }
    let ghost p0 = reader.consumed();
    let a = reader.read_bits(5)?;
    let ghost p1 = reader.consumed();
    let b = reader.read_bits(5)?;
    let ghost p2 = reader.consumed();
    let c = reader.read_bits(4)?;
    let ghost p3 = reader.consumed();
    let literal_count = a as usize + 257;
    let distance_count = b as usize + 1;
    let code_length_count = c as usize + 4;
    if literal_count > 286 || distance_count > 32 || code_length_count > 19 {
        return Err(MediaError::invalid_data("DEFLATE dynamic table counts exceed RFC 1951 bounds"));
    }
    let mut code_lengths: Vec<u8> = Vec::new();
    let mut k: usize = 0;
    while k < 19
        invariant
            k <= 19,
            code_lengths@.len() == k,
            forall|j: int| 0 <= j < k ==> code_lengths@[j] == 0,
        decreases 19 - k,
    {
        code_lengths.push(0);
        k += 1;
    }
    assert(code_lengths@ =~= Seq::new(19, |_i: int| 0u8));
    let mut i: usize = 0;
    while i < code_length_count
        invariant
            reader.wf(),
            reader.bytes@ == s,
            s == old(reader).bytes@,
            reader.consumed() >= p3,
            p0 == old(reader).consumed(),
            read_field(s, p0, 5) == Ok::<(nat, nat), ErrorKind>((a as nat, p1)),
            read_field(s, p1, 5) == Ok::<(nat, nat), ErrorKind>((b as nat, p2)),
            read_field(s, p2, 4) == Ok::<(nat, nat), ErrorKind>((c as nat, p3)),
            p0 <= p1 <= p2 <= p3,
            literal_count == a + 257,
            distance_count == b + 1,
            code_length_count == c + 4,
            literal_count <= 286,
            distance_count <= 32,
            code_length_count <= 19,
            i <= code_length_count,
            code_lengths@.len() == 19,
            cl_walk(s, p3, 0, code_length_count as nat, Seq::new(19, |_i: int| 0u8)) == cl_walk(
                s,
                reader.consumed(),
                i as nat,
                code_length_count as nat,
                code_lengths@,
            ),
        decreases code_length_count - i,
    {
        let symbol = code_length_order(i);
        let v = reader.read_bits(3)?;
        proof {
            vstd::arithmetic::power2::lemma2_to64();
        }
        code_lengths.set(symbol, v as u8);
        i += 1;
    }
    let code_length_table = Huffman::from_lengths(code_lengths.as_slice())?;
    let total = literal_count + distance_count;
    let lengths = read_dynamic_lengths(reader, &code_length_table, total)?;
    if lengths[256] == 0 {
        return Err(MediaError::invalid_data("DEFLATE literal/length tree has no end-of-block symbol"));
    }
    let literal_lengths = vstd::slice::slice_subrange(lengths.as_slice(), 0, literal_count);
    let literal = Huffman::from_lengths(literal_lengths)?;
    let distance_lengths = vstd::slice::slice_subrange(lengths.as_slice(), literal_count, total);
    let mut all_zero = true;
    let mut j: usize = 0;
    while j < distance_lengths.len()
        invariant
            j <= distance_lengths@.len(),
            all_zero == forall|m: int| 0 <= m < j ==> #[trigger] distance_lengths@[m] == 0,
        decreases distance_lengths@.len() - j,
    {
        if distance_lengths[j] != 0 {
            all_zero = false;
        }
        j += 1;
    }
    if all_zero {
        Ok((literal, None))
    } else {
        let d = Huffman::from_lengths(distance_lengths)?;
        Ok((literal, Some(d)))
    }
}

#[verifier::spinoff_prover]
fn read_dynamic_lengths(reader: &mut DeflateBits, table: &Huffman, total: usize) -> (r: Result<Vec<u8>>)
    requires
        old(reader).wf(),
        table.wf(),
        258 <= total <= 318,
    ensures
        final(reader).wf(),
        final(reader).bytes@ == old(reader).bytes@,
        final(reader).consumed() >= old(reader).consumed(),
        match r {
            Ok(v) => v@.len() == total && lengths_walk(old(reader).bytes@, old(reader).consumed(), table.table(), total as nat, Seq::empty())
                == Ok::<(Seq<u8>, nat), ErrorKind>((v@, final(reader).consumed())),
            Err(e) => lengths_walk(old(reader).bytes@, old(reader).consumed(), table.table(), total as nat, Seq::empty())
                == Err::<(Seq<u8>, nat), ErrorKind>(e@),
        },
{
    let ghost s = reader.bytes@;
    let ghost t = table.table();
    let mut lengths: Vec<u8> = Vec::new();
    while lengths.len() < total
        invariant
            reader.wf(),
            reader.bytes@ == s,
            s == old(reader).bytes@,
            reader.consumed() >= old(reader).consumed(),
            table.wf(),
            t == table.table(),
            258 <= total <= 318,
            lengths@.len() <= total,
            lengths_walk(s, old(reader).consumed(), t, total as nat, Seq::empty()) == lengths_walk(
                s,
                reader.consumed(),
                t,
                total as nat,
                lengths@,
            ),
        decreases reader.total() - reader.consumed(),
    {
        let symbol = table.decode(reader)?;
        proof {
            vstd::arithmetic::power2::lemma2_to64();
        }
        if symbol <= 15 {
            lengths.push(symbol as u8);
        } else if symbol == 16 {
            if lengths.len() == 0 {
                return Err(MediaError::invalid_data("DEFLATE repeat code 16 has no previous code length"));
            }
            let previous = lengths[lengths.len() - 1];
            let repeat = reader.read_bits(2)? as usize + 3;
            extend_repeated(&mut lengths, previous, repeat, total)?;
        } else if symbol == 17 {
            let repeat = reader.read_bits(3)? as usize + 3;
            extend_repeated(&mut lengths, 0, repeat, total)?;
        } else if symbol == 18 {
            let repeat = reader.read_bits(7)? as usize + 11;
            extend_repeated(&mut lengths, 0, repeat, total)?;
        } else {
            return Err(MediaError::invalid_data("DEFLATE code-length tree decoded an invalid symbol"));
        }
        assert(reader.consumed() <= reader.total());
    }
    Ok(lengths)
}

fn extend_repeated(lengths: &mut Vec<u8>, value: u8, repeat: usize, total: usize) -> (r: Result<()>)
    requires
        old(lengths)@.len() <= total,
        repeat <= 200,
        total <= 318,
    ensures
        final(lengths)@.len() <= total,
        match r {
            Ok(()) => old(lengths)@.len() + repeat <= total && final(lengths)@ == old(lengths)@ + Seq::new(repeat as nat, |_i: int| value),
            Err(e) => old(lengths)@.len() + repeat > total && e@ == ErrorKind::InvalidData,
        },
{
    let new_len = lengths.len() + repeat;
    if new_len > total {
        return Err(MediaError::invalid_data("DEFLATE code-length repeat exceeds declared table size"));
    }
    crate::bytes_util::push_repeated(lengths, value, repeat);
    Ok(())
}

spec fn opt_table(d: Option<&Huffman>) -> Option<HuffTable> {
    match d {
        Some(h) => Some(h.table()),
        None => None,
    }
}

#[verifier::spinoff_prover]
fn decode_compressed_block(
    reader: &mut DeflateBits,
    literal: &Huffman,
    distance: Option<&Huffman>,
    output: &mut Vec<u8>,
    output_limit: usize,
) -> (r: Result<()>)
    requires
        old(reader).wf(),
        literal.wf(),
        distance matches Some(d) ==> d.wf(),
        old(output)@.len() <= output_limit,
    ensures
        final(reader).wf(),
        final(reader).bytes@ == old(reader).bytes@,
        final(reader).consumed() >= old(reader).consumed(),
        final(output)@.len() <= output_limit,
        match r {
            Ok(()) => block_walk(old(reader).bytes@, old(reader).consumed(), literal.table(), opt_table(distance), old(output)@, output_limit as nat)
                == Ok::<(nat, Seq<u8>), ErrorKind>((final(reader).consumed(), final(output)@)),
            Err(e) => block_walk(old(reader).bytes@, old(reader).consumed(), literal.table(), opt_table(distance), old(output)@, output_limit as nat)
                == Err::<(nat, Seq<u8>), ErrorKind>(e@),
        },
{
    let ghost s = reader.bytes@;
    let ghost lt = literal.table();
    let ghost dt = opt_table(distance);
    loop
        invariant
            reader.wf(),
            reader.bytes@ == old(reader).bytes@,
            s == reader.bytes@,
            reader.consumed() >= old(reader).consumed(),
            literal.wf(),
            lt == literal.table(),
            dt == opt_table(distance),
            distance matches Some(d) ==> d.wf(),
            output@.len() <= output_limit,
            block_walk(s, old(reader).consumed(), lt, dt, old(output)@, output_limit as nat) == block_walk(
                s,
                reader.consumed(),
                lt,
                dt,
                output@,
                output_limit as nat,
            ),
        decreases reader.total() - reader.consumed(),
    {
        let symbol = literal.decode(reader)?;
        if symbol <= 255 {
            ensure_output_capacity(output.len(), 1, output_limit)?;
            output.push(symbol as u8);
        } else if symbol == 256 {
            return Ok(());
        } else if symbol <= 285 {
            let length_index = (symbol - 257) as usize;
            let le = length_extra(length_index);
            let extra_length = reader.read_bits(le)?;
            proof {
                vstd::arithmetic::power2::lemma2_to64();
                vstd::arithmetic::power2::lemma_pow2_strictly_increases(le as nat, 6);
            }
            let length = length_base(length_index) + extra_length as usize;
            let distance_table = match distance {
                Some(d) => d,
                None => return Err(MediaError::invalid_data("DEFLATE length symbol encountered without a distance tree")),
            };
            let distance_symbol = distance_table.decode(reader)?;
            if distance_symbol > 29 {
                return Err(MediaError::invalid_data("DEFLATE distance tree decoded a reserved symbol"));
            }
            let distance_index = distance_symbol as usize;
            let de = distance_extra(distance_index);
            let extra_distance = reader.read_bits(de)?;
            proof {
                vstd::arithmetic::power2::lemma2_to64();
                vstd::arithmetic::power2::lemma_pow2_strictly_increases(de as nat, 14);
            }
            let dist = distance_base(distance_index) + extra_distance as usize;
            copy_match(output, dist, length, output_limit)?;
        } else {
            return Err(MediaError::invalid_data("DEFLATE literal/length tree decoded a reserved symbol"));
        }
        assert(reader.consumed() <= reader.total());
    }
}

fn copy_match(output: &mut Vec<u8>, distance: usize, length: usize, output_limit: usize) -> (r: Result<()>)
    requires
        old(output)@.len() <= output_limit,
    ensures
        final(output)@.len() <= output_limit,
        final(output)@.subrange(0, old(output)@.len() as int) == old(output)@,
        match r {
            Ok(()) => 0 < distance <= old(output)@.len() && final(output)@.len() == old(output)@.len() + length
                && capacity_error(old(output)@.len(), length as nat, output_limit as nat) is None
                && final(output)@ == copy_out(old(output)@, distance as nat, length as nat),
            Err(e) => if distance == 0 || distance > old(output)@.len() {
                e@ == ErrorKind::InvalidData
            } else {
                capacity_error(old(output)@.len(), length as nat, output_limit as nat) == Some(e@)
            },
        },
{
    if distance == 0 || distance > output.len() {
        return Err(MediaError::invalid_data("DEFLATE match distance exceeds produced output"));
    }
    ensure_output_capacity(output.len(), length, output_limit)?;
    let ghost start = output@.len();
    let mut k: usize = 0;
    while k < length
        invariant
            k <= length,
            output@.len() == start + k,
            start + length <= output_limit,
            0 < distance <= start,
            output@.subrange(0, start as int) == old(output)@,
            output@ == copy_out(old(output)@, distance as nat, k as nat),
        decreases length - k,
    {
        let source = output.len() - distance;
        let byte = output[source];
        output.push(byte);
        k += 1;
        assert(output@.subrange(0, start as int) =~= old(output)@);
    }
    Ok(())
}

} // verus!

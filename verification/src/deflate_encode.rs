use vstd::prelude::*;

use crate::error::{ErrorKind, MediaError, Result};
use crate::inflate::{
    copy_out, lsb_bit, lsb_bits, distance_base, distance_base_table, distance_extra, distance_extra_table, length_base, length_base_table, length_extra,
    length_extra_table, spec_inflate,
};

verus! {

pub const WINDOW: usize = 32_768;

pub const MIN_MATCH: usize = 3;

pub const MAX_MATCH: usize = 258;

pub const HASH_SIZE: usize = 65536;

/// The value of bits taken least significant first.
pub open spec fn lsb_value(b: Seq<bool>) -> nat
    decreases b.len(),
{
    if b.len() == 0 {
        0
    } else {
        lsb_value(b.drop_last()) + if b.last() { vstd::arithmetic::power2::pow2((b.len() - 1) as nat) } else { 0 }
    }
}

/// The complete bytes of a bit stream, eight bits each, first bit least
/// significant.
pub open spec fn full_bytes(b: Seq<bool>) -> Seq<u8> {
    Seq::new(b.len() / 8, |k: int| lsb_value(b.subrange(8 * k, 8 * k + 8)) as u8)
}

/// The bytes of a bit stream, a final partial byte padded with zero bits.
pub open spec fn packed_lsb(b: Seq<bool>) -> Seq<u8> {
    if b.len() % 8 == 0 {
        full_bytes(b)
    } else {
        full_bytes(b).push(lsb_value(b.subrange(b.len() - b.len() % 8, b.len() as int)) as u8)
    }
}

proof fn lemma_lsb_value_bound(b: Seq<bool>)
    ensures
        lsb_value(b) < vstd::arithmetic::power2::pow2(b.len()),
    decreases b.len(),
{
    if b.len() > 0 {
        lemma_lsb_value_bound(b.drop_last());
        vstd::arithmetic::power2::lemma_pow2_unfold(b.len());
    } else {
        vstd::arithmetic::power2::lemma2_to64();
    }
}

/// Bit `k` of the byte that packs `c` (at most eight bits) is `c[k]`.
proof fn lemma_chunk_bit(c: Seq<bool>, k: int)
    requires
        c.len() <= 8,
        0 <= k < c.len(),
    ensures
        ((lsb_value(c) as u8) >> (k as u8)) & 1 == 1 <==> c[k],
    decreases c.len(),
{
    let n = c.len();
    let m = (n - 1) as u8;
    let w = lsb_value(c.drop_last());
    lemma_lsb_value_bound(c.drop_last());
    lemma_lsb_value_bound(c);
    vstd::arithmetic::power2::lemma2_to64();
    vstd::bits::lemma_u8_pow2_no_overflow(m as nat);
    vstd::bits::lemma_u8_shl_is_mul(1, m);
    let wu = w as u8;
    let vu = lsb_value(c) as u8;
    let b = c.last();
    let bit: u8 = 1u8 << m;
    assert(wu < bit);
    assert(b ==> vu == wu + bit);
    assert(!b ==> vu == wu);
    let ku = k as u8;
    if k < n - 1 {
        lemma_chunk_bit(c.drop_last(), k);
        assert((vu >> ku) & 1 == (wu >> ku) & 1) by (bit_vector)
            requires
                m < 8,
                ku < m,
                bit == 1u8 << m,
                wu < bit,
                vu == wu + bit || vu == wu,
        ;
    } else {
        assert(ku == m);
        assert(b ==> (vu >> ku) & 1 == 1) by (bit_vector)
            requires
                m < 8,
                ku == m,
                bit == 1u8 << m,
                wu < bit,
                b ==> vu == wu + bit,
        ;
        assert(!b ==> (vu >> ku) & 1 == 0) by (bit_vector)
            requires
                m < 8,
                ku == m,
                bit == 1u8 << m,
                wu < bit,
                !b ==> vu == wu,
        ;
    }
}

/// What the writer packs, the inflater's bit reader reads back: bit `i` of
/// `packed_lsb(b)`, counted from the least significant bit of byte 0, is
/// `b[i]`.
pub proof fn lemma_packed_bits_read_back(b: Seq<bool>, i: int)
    requires
        0 <= i < b.len(),
    ensures
        (lsb_bit(packed_lsb(b), i) == 1) == b[i],
{
    let q = i / 8;
    let k = i % 8;
    let len = b.len() as int;
    let bytes = packed_lsb(b);
    if q < len / 8 {
        let c = b.subrange(8 * q, 8 * q + 8);
        assert(bytes[q] == lsb_value(c) as u8);
        lemma_chunk_bit(c, k);
        assert(c[k] == b[i]);
    } else {
        let c = b.subrange(len - len % 8, len);
        assert(len % 8 != 0);
        assert(bytes[q] == lsb_value(c) as u8);
        lemma_chunk_bit(c, k);
        assert(c[k] == b[i]);
    }
}

/// A field of `count` bits packed at bit `p` is read back by the
/// inflater's field reader as the value those bits stand for.
pub proof fn lemma_packed_field_reads_back(b: Seq<bool>, p: int, count: nat)
    requires
        0 <= p,
        p + count <= b.len(),
    ensures
        lsb_bits(packed_lsb(b), p, count) == lsb_value(b.subrange(p, p + count)),
    decreases count,
{
    if count > 0 {
        lemma_packed_field_reads_back(b, p, (count - 1) as nat);
        lemma_packed_bits_read_back(b, p + count - 1);
        let sub = b.subrange(p, p + count);
        assert(sub.drop_last() =~= b.subrange(p, p + count - 1));
        assert(sub.last() == b[p + count - 1]);
        let s = packed_lsb(b);
        let x = lsb_bit(s, p + count - 1);
        let pw = vstd::arithmetic::power2::pow2((count - 1) as nat);
        if b[p + count - 1] {
            assert(x == 1);
            assert(x * pw == pw) by (nonlinear_arith)
                requires
                    x == 1,
            ;
        } else {
            assert(x == 0);
            assert(x * pw == 0) by (nonlinear_arith)
                requires
                    x == 0,
            ;
        }
        assert(lsb_bits(s, p, count) == lsb_bits(s, p, (count - 1) as nat) + lsb_bit(s, p + count - 1)
            * vstd::arithmetic::power2::pow2((count - 1) as nat));
        assert(lsb_value(sub) == lsb_value(sub.drop_last()) + if sub.last() {
            vstd::arithmetic::power2::pow2((count - 1) as nat)
        } else {
            0
        });
    } else {
        assert(b.subrange(p, p) =~= Seq::<bool>::empty());
    }
}

/// The `count` low bits of `value`, least significant first.
pub open spec fn lsb_first_bits(value: u32, count: nat) -> Seq<bool> {
    Seq::new(count, |i: int| (value >> (i as u8)) & 1 != 0)
}

/// The `length` low bits of a Huffman code, most significant first.
pub open spec fn msb_first_bits(code: u16, length: nat) -> Seq<bool> {
    Seq::new(length, |i: int| (code >> ((length - 1 - i) as u8)) & 1 != 0)
}

/// The bits `write_bits_lsb` writes for `value` stand for its `count` low
/// bits.
pub proof fn lemma_lsb_first_bits_value(value: u32, count: nat)
    requires
        count <= 32,
    ensures
        lsb_value(lsb_first_bits(value, count)) == value as nat % vstd::arithmetic::power2::pow2(count),
    decreases count,
{
    vstd::arithmetic::power2::lemma2_to64();
    if count > 0 {
        let m = (count - 1) as nat;
        lemma_lsb_first_bits_value(value, m);
        let bits = lsb_first_bits(value, count);
        assert(bits.drop_last() =~= lsb_first_bits(value, m));
        let v = value as u64;
        let mu = m as u64;
        let pm = vstd::arithmetic::power2::pow2(m);
        vstd::arithmetic::power2::lemma_pow2_unfold(count);
        vstd::arithmetic::power2::lemma_pow2_pos(m);
        vstd::bits::lemma_u64_shr_is_div(v, mu);
        assert((v >> mu) & 1 == (v >> mu) % 2) by (bit_vector);
        vstd::arithmetic::div_mod::lemma_breakdown(v as int, pm as int, 2);
        assert(pm * 2 == vstd::arithmetic::power2::pow2(count));
        let mb = m as u8;
        assert(((value >> mb) & 1 != 0) == ((v >> mu) & 1 == 1)) by (bit_vector)
            requires
                v == value as u64,
                mu < 32,
                mu == mb as u64,
        ;
        assert(((v >> mu) & 1 == 1) == bits.last());
        let t = (v >> mu) & 1;
        assert(t == 0 || t == 1) by (bit_vector)
            requires
                t == (v >> mu) & 1,
        ;
        if bits.last() {
            assert(t == 1);
            assert(pm * ((v as int / pm as int) % 2) == pm) by (nonlinear_arith)
                requires
                    (v as int / pm as int) % 2 == 1,
            ;
        } else {
            assert(t == 0);
            assert(pm * ((v as int / pm as int) % 2) == 0) by (nonlinear_arith)
                requires
                    (v as int / pm as int) % 2 == 0,
            ;
        }
    }
}

/// A field that `write_bits_lsb` put after `prefix`, whatever follows it,
/// is read back by the inflater's field reader as the value's `count` low
/// bits.
pub proof fn lemma_written_field_reads_back(prefix: Seq<bool>, value: u32, count: nat, suffix: Seq<bool>)
    requires
        count <= 32,
    ensures
        lsb_bits(packed_lsb(prefix + lsb_first_bits(value, count) + suffix), prefix.len() as int, count) == value as nat
            % vstd::arithmetic::power2::pow2(count),
{
    let all = prefix + lsb_first_bits(value, count) + suffix;
    lemma_packed_field_reads_back(all, prefix.len() as int, count);
    assert(all.subrange(prefix.len() as int, (prefix.len() + count) as int) =~= lsb_first_bits(value, count));
    lemma_lsb_first_bits_value(value, count);
}

/// Bits written LSB-first into bytes, as DEFLATE packs them.
pub struct BitWriter {
    bytes: Vec<u8>,
    current: u8,
    used: u8,
    written: Ghost<Seq<bool>>,
}

impl BitWriter {
    /// The bits written so far.
    pub closed spec fn bits(&self) -> Seq<bool> {
        self.written@
    }

    /// Total number of bits written.
    pub open spec fn bit_len(&self) -> nat {
        self.bits().len()
    }

    pub closed spec fn inner_wf(&self) -> bool {
        &&& self.used < 8
        &&& (self.current as u32) < (1u32 << (self.used as u32))
        &&& self.used == self.written@.len() % 8
        &&& self.bytes@ == full_bytes(self.written@)
        &&& self.current == lsb_value(self.written@.subrange(self.written@.len() - self.used, self.written@.len() as int))
    }

    pub fn new() -> (w: Self)
        ensures
            w.inner_wf(),
            w.bits() == Seq::<bool>::empty(),
    {
        assert((0u8 as u32) < (1u32 << (0u8 as u32))) by (bit_vector);
        let w = BitWriter { bytes: Vec::new(), current: 0, used: 0, written: Ghost(Seq::empty()) };
        assert(w.bytes@ =~= full_bytes(Seq::<bool>::empty()));
        assert(Seq::<bool>::empty().subrange(0, 0) =~= Seq::<bool>::empty());
        w
    }

    pub fn write_bit(&mut self, bit: bool)
        requires
            old(self).inner_wf(),
        ensures
            final(self).inner_wf(),
            final(self).bits() == old(self).bits().push(bit),
    {
        let ghost b0 = self.written@;
        let ghost b1 = b0.push(bit);
        let used = self.used;
        let current = self.current;
        let next: u8 = if bit {
            current | (1u8 << used)
        } else {
            current
        };
        assert((next as u32) < (1u32 << ((used + 1) as u32))) by (bit_vector)
            requires
                used < 8,
                (current as u32) < (1u32 << (used as u32)),
                next == current | (1u8 << used) || next == current,
        ;
        proof {
            let tail = b0.subrange(b0.len() - used, b0.len() as int);
            assert(b1.subrange(b1.len() - (used + 1), b1.len() as int) =~= tail.push(bit));
            assert(tail.push(bit).drop_last() =~= tail);
            vstd::bits::lemma_u8_pow2_no_overflow(used as nat);
            vstd::bits::lemma_u8_shl_is_mul(1, used);
            assert(bit ==> next == current + (1u8 << used)) by (bit_vector)
                requires
                    used < 8,
                    (current as u32) < (1u32 << (used as u32)),
                    bit ==> next == current | (1u8 << used),
            ;
            assert(next as nat == lsb_value(tail.push(bit)));
        }
        self.current = next;
        self.used = used + 1;
        self.written = Ghost(b1);
        if self.used == 8 {
            self.bytes.push(self.current);
            self.current = 0;
            self.used = 0;
            assert((0u8 as u32) < (1u32 << (0u8 as u32))) by (bit_vector);
            proof {
                assert(b1.subrange(b1.len() as int, b1.len() as int) =~= Seq::<bool>::empty());
                assert(b1.subrange(8 * (b1.len() / 8 - 1), 8 * (b1.len() / 8 - 1) + 8) =~= b1.subrange(b1.len() - 8, b1.len() as int));
                assert forall|k: int| 0 <= k < b0.len() / 8 implies #[trigger] b1.subrange(8 * k, 8 * k + 8) =~= b0.subrange(8 * k, 8 * k + 8) by {}
                assert(self.bytes@ =~= full_bytes(b1));
            }
        } else {
            proof {
                assert(b1.len() / 8 == b0.len() / 8);
                assert forall|k: int| 0 <= k < b0.len() / 8 implies #[trigger] b1.subrange(8 * k, 8 * k + 8) =~= b0.subrange(8 * k, 8 * k + 8) by {}
                assert(self.bytes@ =~= full_bytes(b1));
            }
        }
    }

    pub fn write_bits_lsb(&mut self, value: u32, count: u8)
        requires
            old(self).inner_wf(),
            count <= 32,
        ensures
            final(self).inner_wf(),
            final(self).bit_len() == old(self).bit_len() + count,
            final(self).bits() == old(self).bits() + lsb_first_bits(value, count as nat),
    {
        let mut bit: u8 = 0;
        while bit < count
            invariant
                self.inner_wf(),
                bit <= count <= 32,
                self.bit_len() == old(self).bit_len() + bit,
                self.bits() == old(self).bits() + lsb_first_bits(value, bit as nat),
            decreases count - bit,
        {
            self.write_bit((value >> bit) & 1 != 0);
            bit += 1;
            assert(self.bits() =~= old(self).bits() + lsb_first_bits(value, bit as nat));
        }
    }

    pub fn write_huffman(&mut self, code: u16, length: u8)
        requires
            old(self).inner_wf(),
            length <= 16,
        ensures
            final(self).inner_wf(),
            final(self).bit_len() == old(self).bit_len() + length,
            final(self).bits() == old(self).bits() + msb_first_bits(code, length as nat),
    {
        let mut remaining: u8 = length;
        while remaining > 0
            invariant
                self.inner_wf(),
                remaining <= length <= 16,
                self.bit_len() == old(self).bit_len() + (length - remaining),
                self.bits() == old(self).bits() + msb_first_bits(code, length as nat).subrange(0, length - remaining),
            decreases remaining,
        {
            remaining -= 1;
            self.write_bit((code >> remaining) & 1 != 0);
            assert(self.bits() =~= old(self).bits() + msb_first_bits(code, length as nat).subrange(0, length - remaining));
        }
        assert(msb_first_bits(code, length as nat).subrange(0, length as int) =~= msb_first_bits(code, length as nat));
    }

    /// The bytes written, with a final partial byte padded by zero bits.
    pub fn finish(self) -> (v: Vec<u8>)
        requires
            self.inner_wf(),
        ensures
            v@.len() * 8 >= self.bit_len(),
            v@.len() * 8 < self.bit_len() + 8,
            v@ == packed_lsb(self.bits()),
    {
        let mut bytes = self.bytes;
        if self.used != 0 {
            bytes.push(self.current);
        }
        bytes
    }
}

/// Writes literal/length symbol `symbol` with the fixed Huffman code of RFC 1951.
pub fn write_fixed_symbol(writer: &mut BitWriter, symbol: u16)
    requires
        old(writer).inner_wf(),
        symbol <= 287,
    ensures
        final(writer).inner_wf(),
        final(writer).bit_len() == old(writer).bit_len() + fixed_code_len(symbol as nat),
        final(writer).bits() == old(writer).bits() + fixed_symbol_bits(symbol),
{
    if symbol <= 143 {
        writer.write_huffman(0x30 + symbol, 8);
    } else if symbol <= 255 {
        writer.write_huffman(0x190 + (symbol - 144), 9);
    } else if symbol <= 279 {
        writer.write_huffman(symbol - 256, 7);
    } else {
        writer.write_huffman(0xC0 + (symbol - 280), 8);
    }
}

/// The fixed Huffman code of a literal/length symbol, as written.
pub open spec fn fixed_symbol_bits(symbol: u16) -> Seq<bool> {
    if symbol <= 143 {
        msb_first_bits((0x30 + symbol) as u16, 8)
    } else if symbol <= 255 {
        msb_first_bits((0x190 + (symbol - 144)) as u16, 9)
    } else if symbol <= 279 {
        msb_first_bits((symbol - 256) as u16, 7)
    } else {
        msb_first_bits((0xC0 + (symbol - 280)) as u16, 8)
    }
}

/// Whether `value` lies in `[base, base + 2^extra - 1]`.
pub open spec fn in_range(value: nat, base: nat, extra: nat) -> bool {
    base <= value && value < base + vstd::arithmetic::power2::pow2(extra)
}

/// The first entry from `i` on whose range holds `value`.
pub open spec fn first_range(value: nat, bases: Seq<nat>, extras: Seq<nat>, i: nat) -> Option<nat>
    decreases bases.len() - i,
{
    if i >= bases.len() {
        None
    } else if in_range(value, bases[i as int], extras[i as int]) {
        Some(i)
    } else {
        first_range(value, bases, extras, i + 1)
    }
}

/// The bits of a length/distance pair with fixed codes: the length symbol,
/// the length's extra bits, the 5-bit distance code, the distance's extra
/// bits; `None` when either is out of range.
pub open spec fn match_bits(length: nat, distance: nat) -> Option<Seq<bool>> {
    match first_range(length, length_base_table(), length_extra_table(), 0) {
        None => None,
        Some(li) => match first_range(distance, distance_base_table(), distance_extra_table(), 0) {
            None => None,
            Some(di) => Some(
                fixed_symbol_bits((257 + li) as u16) + lsb_first_bits(
                    (length - length_base_table()[li as int]) as u32,
                    length_extra_table()[li as int],
                ) + msb_first_bits(di as u16, 5) + lsb_first_bits(
                    (distance - distance_base_table()[di as int]) as u32,
                    distance_extra_table()[di as int],
                ),
            ),
        },
    }
}

/// Length of the fixed Huffman code of a literal/length symbol.
pub open spec fn fixed_code_len(symbol: nat) -> nat {
    if symbol <= 143 {
        8
    } else if symbol <= 255 {
        9
    } else if symbol <= 279 {
        7
    } else {
        8
    }
}

/// The first length symbol index whose range `[base, base + 2^extra - 1]`
/// holds `length`.
pub fn length_index(length: usize) -> (r: Option<usize>)
    ensures
        r matches Some(i) ==> i < 29,
        r == match first_range(length as nat, length_base_table(), length_extra_table(), 0) {
            Some(i) => Some(i as usize),
            None => None::<usize>,
        },
{
    let mut i: usize = 0;
    while i < 29
        invariant
            i <= 29,
            first_range(length as nat, length_base_table(), length_extra_table(), 0) == first_range(
                length as nat,
                length_base_table(),
                length_extra_table(),
                i as nat,
            ),
        decreases 29 - i,
    {
        let start = length_base(i);
        let extra = length_extra(i);
        let count: usize = 1usize << (extra as usize);
        assert(1 <= count <= 32) by (bit_vector)
            requires
                extra <= 5,
                count == 1usize << (extra as usize),
        ;
        proof {
            vstd::bits::lemma_usize_pow2_no_overflow(extra as nat);
            vstd::bits::lemma_usize_shl_is_mul(1, extra as usize);
        }
        let end = start + (count - 1);
        if length >= start && length <= end {
            return Some(i);
        }
        i += 1;
    }
    None
}

/// The first distance symbol index whose range holds `distance`.
pub fn distance_index(distance: usize) -> (r: Option<usize>)
    ensures
        r matches Some(i) ==> i < 30,
        r == match first_range(distance as nat, distance_base_table(), distance_extra_table(), 0) {
            Some(i) => Some(i as usize),
            None => None::<usize>,
        },
{
    let mut i: usize = 0;
    while i < 30
        invariant
            i <= 30,
            first_range(distance as nat, distance_base_table(), distance_extra_table(), 0) == first_range(
                distance as nat,
                distance_base_table(),
                distance_extra_table(),
                i as nat,
            ),
        decreases 30 - i,
    {
        let start = distance_base(i);
        let extra = distance_extra(i);
        let count: usize = 1usize << (extra as usize);
        assert(1 <= count <= 8192) by (bit_vector)
            requires
                extra <= 13,
                count == 1usize << (extra as usize),
        ;
        proof {
            vstd::bits::lemma_usize_pow2_no_overflow(extra as nat);
            vstd::bits::lemma_usize_shl_is_mul(1, extra as usize);
        }
        let end = start + (count - 1);
        if distance >= start && distance <= end {
            return Some(i);
        }
        i += 1;
    }
    None
}

/// What `first_range` finds lies in range and within the table.
pub proof fn lemma_first_range_found(value: nat, bases: Seq<nat>, extras: Seq<nat>, i: nat)
    requires
        first_range(value, bases, extras, i) is Some,
    ensures
        ({
            let j = first_range(value, bases, extras, i)->0;
            &&& i <= j < bases.len()
            &&& in_range(value, bases[j as int], extras[j as int])
        }),
    decreases bases.len() - i,
{
    if i < bases.len() && !in_range(value, bases[i as int], extras[i as int]) {
        lemma_first_range_found(value, bases, extras, i + 1);
    }
}

/// Over ranges that follow one another without a gap up to entry `top`,
/// every value from `bases[i]` to the end of entry `top` is found.
proof fn lemma_first_range_covers(value: nat, bases: Seq<nat>, extras: Seq<nat>, i: nat, top: nat)
    requires
        i <= top < bases.len(),
        bases.len() == extras.len(),
        bases[i as int] <= value < bases[top as int] + vstd::arithmetic::power2::pow2(extras[top as int]),
        forall|j: int| i <= j < top ==> #[trigger] bases[j] + vstd::arithmetic::power2::pow2(extras[j]) == bases[j + 1],
    ensures
        first_range(value, bases, extras, i) is Some,
    decreases top - i,
{
    if !in_range(value, bases[i as int], extras[i as int]) {
        assert(i < top);
        lemma_first_range_covers(value, bases, extras, i + 1, top);
    }
}

/// Every match length from 3 to 258 and every distance from 1 to 32768 has
/// a symbol.
pub proof fn lemma_match_codes_cover(length: nat, distance: nat)
    requires
        3 <= length <= 258,
        1 <= distance <= 32768,
    ensures
        match_bits(length, distance) is Some,
{
    vstd::arithmetic::power2::lemma2_to64();
    let lb = length_base_table();
    let le = length_extra_table();
    let db = distance_base_table();
    let de = distance_extra_table();
    assert forall|j: int| 0 <= j < 27 implies #[trigger] lb[j] + vstd::arithmetic::power2::pow2(le[j]) == lb[j + 1] by {
        assert(0 <= j < 27);
    }
    assert forall|j: int| 0 <= j < 29 implies #[trigger] db[j] + vstd::arithmetic::power2::pow2(de[j]) == db[j + 1] by {
        assert(0 <= j < 29);
    }
    lemma_first_range_covers(length, lb, le, 0, 27);
    lemma_first_range_covers(distance, db, de, 0, 29);
}

/// The fixed-code bits of a length/distance pair take at most 31 bits.
pub proof fn lemma_match_bits_len(length: nat, distance: nat)
    requires
        match_bits(length, distance) is Some,
    ensures
        match_bits(length, distance)->Some_0.len() <= 31,
{
    lemma_first_range_found(length, length_base_table(), length_extra_table(), 0);
    lemma_first_range_found(distance, distance_base_table(), distance_extra_table(), 0);
    let li = first_range(length, length_base_table(), length_extra_table(), 0)->0;
    let di = first_range(distance, distance_base_table(), distance_extra_table(), 0)->0;
    assert forall|j: int| 0 <= j < 29 implies #[trigger] length_extra_table()[j] <= 5 by {
        assert(0 <= j < 29);
    }
    assert forall|j: int| 0 <= j < 30 implies #[trigger] distance_extra_table()[j] <= 13 by {
        assert(0 <= j < 30);
    }
    assert(fixed_symbol_bits((257 + li) as u16).len() <= 8);
}

/// Writes a length/distance pair with fixed codes; errors when either is
/// outside the RFC 1951 ranges.
pub fn write_length_distance(writer: &mut BitWriter, length: usize, distance: usize) -> (r: Result<()>)
    requires
        old(writer).inner_wf(),
    ensures
        final(writer).inner_wf(),
        final(writer).bit_len() >= old(writer).bit_len(),
        match match_bits(length as nat, distance as nat) {
            Some(b) => r is Ok && final(writer).bits() == old(writer).bits() + b,
            None => r is Err && r->Err_0@ == ErrorKind::InvalidArgument,
        },
{
    let li = match length_index(length) {
        Some(i) => i,
        None => return Err(MediaError::invalid_argument("DEFLATE match length is out of range")),
    };
    let di = match distance_index(distance) {
        Some(i) => i,
        None => return Err(MediaError::invalid_argument("DEFLATE match distance is out of range")),
    };
    proof {
        lemma_first_range_found(length as nat, length_base_table(), length_extra_table(), 0);
        lemma_first_range_found(distance as nat, distance_base_table(), distance_extra_table(), 0);
        vstd::arithmetic::power2::lemma2_to64();
    }
    let ghost b0 = writer.bits();
    write_fixed_symbol(writer, (257 + li) as u16);
    let ghost b1 = writer.bits();
    let lx = length_extra(li);
    let lbase = length_base(li);
    writer.write_bits_lsb((length - lbase) as u32, lx);
    let ghost b2 = writer.bits();
    writer.write_huffman(di as u16, 5);
    let ghost b3 = writer.bits();
    let dx = distance_extra(di);
    let dbase = distance_base(di);
    writer.write_bits_lsb((distance - dbase) as u32, dx);
    proof {
        assert(writer.bits() =~= b0 + fixed_symbol_bits((257 + li) as u16) + lsb_first_bits(
            (length - length_base_table()[li as int]) as u32,
            length_extra_table()[li as int],
        ) + msb_first_bits(di as u16, 5) + lsb_first_bits(
            (distance - distance_base_table()[di as int]) as u32,
            distance_extra_table()[di as int],
        ));
    }
    Ok(())
}

/// The 16-bit multiplicative hash of the three bytes at `p`.
pub open spec fn spec_hash3(s: Seq<u8>, p: int) -> nat {
    let value: u32 = ((s[p] as u32) << 16u32) ^ ((s[p + 1] as u32) << 8u32) ^ (s[p + 2] as u32);
    (value.wrapping_mul(0x1E35_A7BD) >> 16u32) as nat
}

/// A 16-bit multiplicative hash of the three bytes at `position`.
pub fn hash3(bytes: &[u8], position: usize) -> (h: usize)
    requires
        position + 3 <= bytes@.len(),
    ensures
        h < HASH_SIZE,
        h == spec_hash3(bytes@, position as int),
{
    let value: u32 = ((bytes[position] as u32) << 16u32) ^ ((bytes[position + 1] as u32) << 8u32)
        ^ (bytes[position + 2] as u32);
    let mixed = value.wrapping_mul(0x1E35_A7BD) >> 16u32;
    assert(mixed < 65536) by (bit_vector)
        requires
            mixed == value.wrapping_mul(0x1E35_A7BD) >> 16u32,
    ;
    mixed as usize
}

/// How far, from `k` on and up to `max`, the bytes from `a` agree with the
/// bytes from `b`.
pub open spec fn common_run(s: Seq<u8>, a: int, b: int, k: nat, max: nat) -> nat
    decreases max - k,
{
    if k < max && s[a + k] == s[b + k] {
        common_run(s, a, b, k + 1, max)
    } else {
        k
    }
}

/// The greedy match at `position`: the candidate remembered in `last` for
/// the hash of the next three bytes, taken when it lies before `position`
/// within the window and agrees on at least three bytes; gives the distance
/// and the agreeing length, at most 258 and no further than the input.
pub open spec fn spec_find_match(s: Seq<u8>, position: nat, last: Seq<usize>) -> Option<(nat, nat)> {
    let candidate = last[spec_hash3(s, position as int) as int];
    if candidate == usize::MAX || candidate >= position {
        None
    } else {
        let d = (position - candidate) as nat;
        let avail = (s.len() - position) as nat;
        let max = if MAX_MATCH < avail { MAX_MATCH as nat } else { avail };
        let l = common_run(s, candidate as int, position as int, 0, max);
        if d > WINDOW || l < MIN_MATCH {
            None
        } else {
            Some((d, l))
        }
    }
}

/// The greedy match at `position`: the single candidate remembered for the
/// hash of the next three bytes, if it lies within the window and agrees on
/// at least three bytes.
fn find_match(bytes: &[u8], position: usize, last: &Vec<usize>) -> (r: Option<(usize, usize)>)
    requires
        position + MIN_MATCH <= bytes@.len(),
        last@.len() == HASH_SIZE,
    ensures
        match r {
            None => spec_find_match(bytes@, position as nat, last@) is None,
            Some((d, l)) => spec_find_match(bytes@, position as nat, last@) == Some((d as nat, l as nat)),
        },
        r matches Some((d, l)) ==> {
            &&& 1 <= d <= WINDOW
            &&& d <= position
            &&& MIN_MATCH <= l <= MAX_MATCH
            &&& position + l <= bytes@.len()
            &&& forall|k: int| 0 <= k < l ==> bytes@[position - d + k] == #[trigger] bytes@[position + k]
        },
{
    let candidate = last[hash3(bytes, position)];
    if candidate == usize::MAX || candidate >= position {
        return None;
    }
    let distance = position - candidate;
    if distance > WINDOW {
        return None;
    }
    let n = bytes.len();
    let avail = n - position;
    let max = if MAX_MATCH < avail {
        MAX_MATCH
    } else {
        avail
    };
    let mut length: usize = 0;
    while length < max && bytes[candidate + length] == bytes[position + length]
        invariant
            max <= MAX_MATCH,
            n == bytes@.len(),
            position + max <= bytes@.len(),
            candidate < position,
            length <= max,
            forall|k: int| 0 <= k < length ==> bytes@[candidate + k] == #[trigger] bytes@[position + k],
            common_run(bytes@, candidate as int, position as int, length as nat, max as nat) == common_run(
                bytes@,
                candidate as int,
                position as int,
                0,
                max as nat,
            ),
        decreases max - length,
    {
        length += 1;
    }
    if length >= MIN_MATCH {
        Some((distance, length))
    } else {
        None
    }
}

fn insert_position(bytes: &[u8], position: usize, last: &mut Vec<usize>)
    requires
        old(last)@.len() == HASH_SIZE,
    ensures
        final(last)@.len() == HASH_SIZE,
        final(last)@ == if position <= bytes@.len() && bytes@.len() - position >= MIN_MATCH {
            old(last)@.update(spec_hash3(bytes@, position as int) as int, position)
        } else {
            old(last)@
        },
{
    if position <= bytes.len() && bytes.len() - position >= MIN_MATCH {
        let h = hash3(bytes, position);
        last.set(h, position);
    }
}

/// One step of an LZ77 parse: a literal byte, or a copy of `length` bytes
/// from `distance` bytes back.
pub enum LzToken {
    Literal(u8),
    Copy { length: nat, distance: nat },
}

/// The bytes a parse stands for.
pub open spec fn lz_expand(ts: Seq<LzToken>) -> Seq<u8>
    decreases ts.len(),
{
    if ts.len() == 0 {
        Seq::empty()
    } else {
        let prev = lz_expand(ts.drop_last());
        match ts.last() {
            LzToken::Literal(b) => prev.push(b),
            LzToken::Copy { length, distance } => copy_out(prev, distance, length),
        }
    }
}

/// Every copy of the parse has a DEFLATE length and distance and reaches
/// back no further than the bytes before it.
pub open spec fn tokens_valid(ts: Seq<LzToken>) -> bool
    decreases ts.len(),
{
    if ts.len() == 0 {
        true
    } else {
        tokens_valid(ts.drop_last()) && match ts.last() {
            LzToken::Literal(_) => true,
            LzToken::Copy { length, distance } => {
                &&& 3 <= length <= 258
                &&& 1 <= distance <= 32768
                &&& distance <= lz_expand(ts.drop_last()).len()
            },
        }
    }
}

/// The fixed-code bits of a parse.
pub open spec fn tokens_bits(ts: Seq<LzToken>) -> Seq<bool>
    decreases ts.len(),
{
    if ts.len() == 0 {
        Seq::empty()
    } else {
        tokens_bits(ts.drop_last()) + match ts.last() {
            LzToken::Literal(b) => fixed_symbol_bits(b as u16),
            LzToken::Copy { length, distance } => match match_bits(length, distance) {
                Some(b) => b,
                None => Seq::empty(),
            },
        }
    }
}

/// A final block with fixed codes (BFINAL 1, BTYPE 01) holding a parse and
/// the end-of-block symbol.
pub open spec fn fixed_block_bits(ts: Seq<LzToken>) -> Seq<bool> {
    lsb_first_bits(1, 1) + lsb_first_bits(1, 2) + tokens_bits(ts) + fixed_symbol_bits(256)
}

/// `out` is one final fixed-code block whose parse expands to `data`.
pub open spec fn fixed_block_encodes(out: Seq<u8>, data: Seq<u8>) -> bool {
    exists|ts: Seq<LzToken>| #[trigger] tokens_valid(ts) && lz_expand(ts) == data && out == packed_lsb(fixed_block_bits(ts))
}

/// A copy from `distance` back over bytes that agree with the ones that
/// follow extends the prefix of `s`.
pub proof fn lemma_copy_matches(s: Seq<u8>, p: nat, distance: nat, length: nat)
    requires
        1 <= distance <= p,
        p + length <= s.len(),
        forall|k: int| 0 <= k < length ==> s[p - distance + k] == #[trigger] s[p + k],
    ensures
        copy_out(s.subrange(0, p as int), distance, length) == s.subrange(0, (p + length) as int),
    decreases length,
{
    if length > 0 {
        lemma_copy_matches(s, p, distance, (length - 1) as nat);
        let o = s.subrange(0, p + length - 1);
        assert(s[p - distance + (length - 1)] == s[p + (length - 1)]);
        assert(o.push(o[o.len() - distance]) =~= s.subrange(0, (p + length) as int));
    }
}

/// The hash table after remembering position `p`, when three bytes remain
/// there.
pub open spec fn remember(last: Seq<usize>, s: Seq<u8>, p: nat) -> Seq<usize> {
    if p <= s.len() && s.len() - p >= MIN_MATCH {
        last.update(spec_hash3(s, p as int) as int, p as usize)
    } else {
        last
    }
}

/// The hash table after remembering positions `p .. p + k`.
pub open spec fn remember_range(last: Seq<usize>, s: Seq<u8>, p: nat, k: nat) -> Seq<usize>
    decreases k,
{
    if k == 0 {
        last
    } else {
        remember(remember_range(last, s, p, (k - 1) as nat), s, (p + k - 1) as nat)
    }
}

/// The greedy parse from `position` with hash table `last`: the match
/// `spec_find_match` finds where three bytes remain, else a literal; every
/// position passed is remembered.
pub open spec fn greedy_parse(s: Seq<u8>, position: nat, last: Seq<usize>) -> Seq<LzToken>
    decreases s.len() - position,
{
    if position >= s.len() {
        Seq::empty()
    } else {
        let m = if s.len() - position >= MIN_MATCH { spec_find_match(s, position, last) } else { None };
        match m {
            Some((d, l)) => if l == 0 || position + l > s.len() {
                Seq::empty()
            } else {
                seq![LzToken::Copy { length: l, distance: d }] + greedy_parse(s, position + l, remember_range(last, s, position, l))
            },
            None => seq![LzToken::Literal(s[position as int])] + greedy_parse(s, position + 1, remember(last, s, position)),
        }
    }
}

/// The empty hash table.
pub open spec fn empty_table() -> Seq<usize> {
    Seq::new(HASH_SIZE as nat, |_i: int| usize::MAX)
}

/// Encodes one raw RFC 1951 final block using fixed Huffman codes and greedy
/// LZ77 matches (one remembered candidate per 3-byte hash).
#[verifier::spinoff_prover]
#[verifier::rlimit(60)]
pub fn compress_fixed(bytes: &[u8]) -> (r: Result<Vec<u8>>)
    ensures
        r is Ok,
        r matches Ok(out) ==> fixed_block_encodes(out@, bytes@),
        r matches Ok(out) ==> out@.len() <= 2 * bytes@.len() + 3,
        r matches Ok(out) ==> out@ == packed_lsb(fixed_block_bits(greedy_parse(bytes@, 0, empty_table()))),
        r matches Ok(out) ==> spec_inflate(out@, bytes@.len()) == Ok::<Seq<u8>, ErrorKind>(bytes@),
{
    let mut writer = BitWriter::new();
    writer.write_bits_lsb(1, 1);
    writer.write_bits_lsb(1, 2);
    let mut last: Vec<usize> = vec![usize::MAX; HASH_SIZE];
    let mut position: usize = 0;
    let n = bytes.len();
    let ghost mut ts: Seq<LzToken> = Seq::empty();
    assert(last@ =~= empty_table());
    assert(ts + greedy_parse(bytes@, 0, last@) =~= greedy_parse(bytes@, 0, empty_table()));
    assert(bytes@.subrange(0, 0) =~= Seq::<u8>::empty());
    assert(writer.bits() =~= lsb_first_bits(1, 1) + lsb_first_bits(1, 2) + tokens_bits(ts));
    while position < bytes.len()
        invariant
            n == bytes@.len(),
            writer.inner_wf(),
            last@.len() == HASH_SIZE,
            position <= bytes@.len(),
            tokens_valid(ts),
            lz_expand(ts) == bytes@.subrange(0, position as int),
            writer.bits() == lsb_first_bits(1, 1) + lsb_first_bits(1, 2) + tokens_bits(ts),
            writer.bit_len() <= 3 + 11 * position,
            ts + greedy_parse(bytes@, position as nat, last@) == greedy_parse(bytes@, 0, empty_table()),
        decreases bytes@.len() - position,
    {
        let matched = if bytes.len() - position >= MIN_MATCH {
            find_match(bytes, position, &last)
        } else {
            None
        };
        match matched {
            Some((distance, length)) => {
                proof {
                    lemma_match_codes_cover(length as nat, distance as nat);
                    lemma_match_bits_len(length as nat, distance as nat);
                }
                let ghost before = writer.bits();
                match write_length_distance(&mut writer, length, distance) {
                    Ok(()) => {},
                    Err(e) => return Err(e),
                }
                let ghost last0 = last@;
                let ghost ts0 = ts;
                proof {
                    let t = LzToken::Copy { length: length as nat, distance: distance as nat };
                    let ts2 = ts.push(t);
                    assert(ts2.drop_last() =~= ts);
                    lemma_copy_matches(bytes@, position as nat, distance as nat, length as nat);
                    assert(writer.bits() =~= lsb_first_bits(1, 1) + lsb_first_bits(1, 2) + tokens_bits(ts2));
                    ts = ts2;
                }
                let mut consumed: usize = 0;
                while consumed < length
                    invariant
                        last@.len() == HASH_SIZE,
                        consumed <= length,
                        n == bytes@.len(),
                        position + length <= bytes@.len(),
                        last@ == remember_range(last0, bytes@, position as nat, consumed as nat),
                    decreases length - consumed,
                {
                    insert_position(bytes, position + consumed, &mut last);
                    consumed += 1;
                }
                proof {
                    assert(bytes@.len() - position >= MIN_MATCH);
                    assert(spec_find_match(bytes@, position as nat, last0) == Some((distance as nat, length as nat)));
                    assert(last@ == remember_range(last0, bytes@, position as nat, length as nat));
                    assert(greedy_parse(bytes@, position as nat, last0) == seq![
                        LzToken::Copy { length: length as nat, distance: distance as nat },
                    ] + greedy_parse(bytes@, (position + length) as nat, last@));
                    assert(ts0 + greedy_parse(bytes@, position as nat, last0) =~= ts + greedy_parse(
                        bytes@,
                        (position + length) as nat,
                        last@,
                    ));
                }
                position = position + length;
            },
            None => {
                let ghost last0 = last@;
                let ghost ts0 = ts;
                write_fixed_symbol(&mut writer, bytes[position] as u16);
                proof {
                    let ts2 = ts.push(LzToken::Literal(bytes@[position as int]));
                    assert(ts2.drop_last() =~= ts);
                    assert(bytes@.subrange(0, position + 1) =~= bytes@.subrange(0, position as int).push(bytes@[position as int]));
                    assert(writer.bits() =~= lsb_first_bits(1, 1) + lsb_first_bits(1, 2) + tokens_bits(ts2));
                    ts = ts2;
                }
                insert_position(bytes, position, &mut last);
                proof {
                    assert(greedy_parse(bytes@, position as nat, last0) == seq![LzToken::Literal(bytes@[position as int])]
                        + greedy_parse(bytes@, (position + 1) as nat, last@));
                    assert(ts0 + greedy_parse(bytes@, position as nat, last0) =~= ts + greedy_parse(
                        bytes@,
                        (position + 1) as nat,
                        last@,
                    ));
                }
                position += 1;
            },
        }
    }
    write_fixed_symbol(&mut writer, 256);
    let out = writer.finish();
    assert(out@.len() <= 2 * bytes@.len() + 3) by (nonlinear_arith)
        requires
            out@.len() * 8 < writer.bit_len() + 8,
            writer.bit_len() <= 10 + 11 * bytes@.len(),
    ;
    proof {
        assert(bytes@.subrange(0, n as int) =~= bytes@);
        assert(tokens_valid(ts) && lz_expand(ts) == bytes@ && out@ == packed_lsb(fixed_block_bits(ts)));
        assert(ts + greedy_parse(bytes@, position as nat, last@) =~= ts);
        assert(bytes@.len() == bytes.len());
        crate::fixed_roundtrip::lemma_fixed_block_inflates(ts, bytes@.len());
    }
    Ok(out)
}

} // verus!

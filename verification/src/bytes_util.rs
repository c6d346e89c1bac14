use vstd::prelude::*;

use crate::byteio::le_bytes;

verus! {

/// Appends `bytes` to `out`.
pub fn push_slice(out: &mut Vec<u8>, bytes: &[u8])
    ensures
        final(out)@ == old(out)@ + bytes@,
{
    let mut i: usize = 0;
    while i < bytes.len()
        invariant
            i <= bytes@.len(),
            out@ == old(out)@ + bytes@.subrange(0, i as int),
        decreases bytes@.len() - i,
    {
        out.push(bytes[i]);
        i += 1;
        assert(out@ =~= old(out)@ + bytes@.subrange(0, i as int));
    }
    assert(bytes@.subrange(0, i as int) =~= bytes@);
}

/// Appends `count` copies of `value` to `out`.
pub fn push_repeated(out: &mut Vec<u8>, value: u8, count: usize)
    ensures
        final(out)@ == old(out)@ + Seq::new(count as nat, |_i: int| value),
{
    let mut i: usize = 0;
    while i < count
        invariant
            i <= count,
            out@ == old(out)@ + Seq::new(i as nat, |_i: int| value),
        decreases count - i,
    {
        out.push(value);
        i += 1;
        assert(out@ =~= old(out)@ + Seq::new(i as nat, |_i: int| value));
    }
}

/// A vector of `count` zero bytes.
pub fn zeroed(count: usize) -> (v: Vec<u8>)
    ensures
        v@ == Seq::new(count as nat, |_i: int| 0u8),
{
    let mut v: Vec<u8> = Vec::with_capacity(count);
    push_repeated(&mut v, 0, count);
    assert(v@ =~= Seq::new(count as nat, |_i: int| 0u8));
    v
}

/// Whether `bytes` begins with `prefix`.
pub fn starts_with(bytes: &[u8], prefix: &[u8]) -> (b: bool)
    ensures
        b == (prefix@.len() <= bytes@.len() && bytes@.subrange(0, prefix@.len() as int)
            == prefix@),
{
    if prefix.len() > bytes.len() {
        return false;
    }
    let mut i: usize = 0;
    while i < prefix.len()
        invariant
            prefix@.len() <= bytes@.len(),
            i <= prefix@.len(),
            forall|j: int| 0 <= j < i ==> bytes@[j] == prefix@[j],
        decreases prefix@.len() - i,
    {
        if bytes[i] != prefix[i] {
            assert(bytes@.subrange(0, prefix@.len() as int)[i as int] != prefix@[i as int]);
            return false;
        }
        i += 1;
    }
    assert(bytes@.subrange(0, prefix@.len() as int) =~= prefix@);
    true
}

/// Whether two byte slices are equal.
pub fn bytes_eq(a: &[u8], b: &[u8]) -> (r: bool)
    ensures
        r == (a@ == b@),
{
    if a.len() != b.len() {
        assert(a@.len() != b@.len());
        return false;
    }
    let r = starts_with(a, b);
    assert(r ==> a@ =~= b@) by {
        if r {
            assert(a@.subrange(0, b@.len() as int) =~= a@);
        }
    }
    assert(!r ==> a@ != b@) by {
        if a@ == b@ {
            assert(a@.subrange(0, b@.len() as int) =~= b@);
        }
    }
    r
}

/// The decimal digits of `v`, most significant first (`"0"` for zero).
pub open spec fn decimal(v: nat) -> Seq<u8>
    decreases v,
{
    if v < 10 {
        seq![(48 + v) as u8]
    } else {
        decimal(v / 10) + seq![(48 + v % 10) as u8]
    }
}

/// Appends the decimal representation of `v`.
pub fn push_decimal(out: &mut Vec<u8>, v: u32)
    ensures
        final(out)@ == old(out)@ + decimal(v as nat),
    decreases v,
{
    if v < 10 {
        out.push(48 + v as u8);
    } else {
        push_decimal(out, v / 10);
        out.push(48 + (v % 10) as u8);
        assert(final(out)@ =~= old(out)@ + decimal(v as nat));
    }
}

/// Little-endian 16-bit field at `off`.
pub open spec fn le16_at(s: Seq<u8>, off: int) -> nat {
    s[off] as nat + 256 * s[off + 1] as nat
}

/// Little-endian 32-bit field at `off`.
pub open spec fn le32_at(s: Seq<u8>, off: int) -> nat {
    s[off] as nat + 256 * s[off + 1] as nat + 65536 * s[off + 2] as nat + 16777216 * s[off + 3] as nat
}

/// The little-endian `u16` at `offset`.
pub fn read_le16(bytes: &[u8], offset: usize) -> (v: u16)
    requires
        offset + 2 <= bytes@.len(),
    ensures
        v == le16_at(bytes@, offset as int),
{
    bytes[offset] as u16 + (bytes[offset + 1] as u16) * 256
}

/// The little-endian `u32` at `offset`.
pub fn read_le32(bytes: &[u8], offset: usize) -> (v: u32)
    requires
        offset + 4 <= bytes@.len(),
    ensures
        v == le32_at(bytes@, offset as int),
{
    bytes[offset] as u32 + (bytes[offset + 1] as u32) * 256 + (bytes[offset + 2] as u32) * 65536
        + (bytes[offset + 3] as u32) * 16777216
}

/// A field holding `le_bytes(v, 4)` reads back as `v`.
pub proof fn lemma_le32_of(s: Seq<u8>, off: int, v: nat)
    requires
        v < 0x1_0000_0000,
        0 <= off,
        off + 4 <= s.len(),
        s.subrange(off, off + 4) == le_bytes(v, 4),
    ensures
        le32_at(s, off) == v,
{
    reveal_with_fuel(le_bytes, 5);
    assert(s[off] == s.subrange(off, off + 4)[0]);
    assert(s[off + 1] == s.subrange(off, off + 4)[1]);
    assert(s[off + 2] == s.subrange(off, off + 4)[2]);
    assert(s[off + 3] == s.subrange(off, off + 4)[3]);
    let x = v as u32;
    assert((x % 256) + 256 * ((x / 256) % 256) + 65536 * ((x / 65536) % 256) + 16777216 * ((x / 16777216) % 256) == x) by (bit_vector);
}

/// A field holding `le_bytes(v, 2)` reads back as `v`.
pub proof fn lemma_le16_of(s: Seq<u8>, off: int, v: nat)
    requires
        v < 65536,
        0 <= off,
        off + 2 <= s.len(),
        s.subrange(off, off + 2) == le_bytes(v, 2),
    ensures
        le16_at(s, off) == v,
{
    reveal_with_fuel(le_bytes, 3);
    assert(s[off] == s.subrange(off, off + 2)[0]);
    assert(s[off + 1] == s.subrange(off, off + 2)[1]);
    let x = v as u16;
    assert((x % 256) + 256 * ((x / 256) % 256) == x) by (bit_vector);
}

/// Big-endian 32-bit field at `off`.
pub open spec fn be32_at(s: Seq<u8>, off: int) -> nat {
    16777216 * s[off] as nat + 65536 * s[off + 1] as nat + 256 * s[off + 2] as nat + s[off + 3] as nat
}

/// The big-endian `u32` at `offset`.
pub fn read_be32(bytes: &[u8], offset: usize) -> (v: u32)
    requires
        offset + 4 <= bytes@.len(),
    ensures
        v == be32_at(bytes@, offset as int),
{
    (bytes[offset] as u32) * 16777216 + (bytes[offset + 1] as u32) * 65536 + (bytes[offset + 2] as u32) * 256
        + bytes[offset + 3] as u32
}

/// Appends the big-endian bytes of `v`.
pub fn push_be32(out: &mut Vec<u8>, v: u32)
    ensures
        final(out)@ == old(out)@ + seq![(v / 16777216) as u8, ((v / 65536) % 256) as u8, ((v / 256) % 256) as u8, (v % 256) as u8],
{
    out.push((v / 16777216) as u8);
    out.push(((v / 65536) % 256) as u8);
    out.push(((v / 256) % 256) as u8);
    out.push((v % 256) as u8);
    assert(out@ =~= old(out)@ + seq![(v / 16777216) as u8, ((v / 65536) % 256) as u8, ((v / 256) % 256) as u8, (v % 256) as u8]);
}

/// The four big-endian bytes of `v` read back as `v`.
pub proof fn lemma_be32_bytes(v: u32)
    ensures
        16777216 * ((v / 16777216) as u8) as nat + 65536 * (((v / 65536) % 256) as u8) as nat + 256 * (((v / 256) % 256) as u8) as nat
            + ((v % 256) as u8) as nat == v,
{
    assert(16777216 * ((v / 16777216) as u8) as nat + 65536 * (((v / 65536) % 256) as u8) as nat + 256 * (((v / 256) % 256) as u8) as nat
            + ((v % 256) as u8) as nat == v) by (bit_vector);
}

/// Whether the four bytes at `off` are `a b c d`.
pub fn fourcc_at(bytes: &[u8], off: usize, a: u8, b: u8, c: u8, d: u8) -> (r: bool)
    requires
        off + 4 <= bytes@.len(),
    ensures
        r == (bytes@.subrange(off as int, off + 4) == seq![a, b, c, d]),
{
    let r = bytes[off] == a && bytes[off + 1] == b && bytes[off + 2] == c && bytes[off + 3] == d;
    proof {
        if r {
            assert(bytes@.subrange(off as int, off + 4) =~= seq![a, b, c, d]);
        } else {
            if bytes@.subrange(off as int, off + 4) == seq![a, b, c, d] {
                assert(bytes@.subrange(off as int, off + 4)[0] == a);
                assert(bytes@.subrange(off as int, off + 4)[1] == b);
                assert(bytes@.subrange(off as int, off + 4)[2] == c);
                assert(bytes@.subrange(off as int, off + 4)[3] == d);
            }
        }
    }
    r
}

} // verus!

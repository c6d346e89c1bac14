use vstd::prelude::*;

verus! {

pub const ADLER_MODULUS: u32 = 65521;

pub const CRC32_POLYNOMIAL: u32 = 0xEDB8_8320;

/// The running `(a, b)` pair of Adler-32 after the bytes of `s`.
pub open spec fn adler_state(s: Seq<u8>) -> (nat, nat)
    decreases s.len(),
{
    if s.len() == 0 {
        (1, 0)
    } else {
        let prev = adler_state(s.drop_last());
        let a = ((prev.0 + s.last()) % 65521) as nat;
        (a, ((prev.1 + a) % 65521) as nat)
    }
}

/// The Adler-32 checksum of `s` (RFC 1950): `b << 16 | a`.
pub open spec fn spec_adler32(s: Seq<u8>) -> nat {
    adler_state(s).1 * 65536 + adler_state(s).0
}

proof fn lemma_adler_state_bounds(s: Seq<u8>)
    ensures
        adler_state(s).0 < 65521,
        adler_state(s).1 < 65521,
    decreases s.len(),
{
    if s.len() > 0 {
        lemma_adler_state_bounds(s.drop_last());
    }
}

/// An Adler-32 checksum fits in 32 bits.
pub proof fn lemma_adler32_bound(s: Seq<u8>)
    ensures
        spec_adler32(s) < 0x1_0000_0000,
{
    lemma_adler_state_bounds(s);
}

/// Computes the Adler-32 checksum used by the zlib wrapper format.
pub fn adler32(bytes: &[u8]) -> (r: u32)
    ensures
        r == spec_adler32(bytes@),
{
    let mut a: u32 = 1;
    let mut b: u32 = 0;
    let mut i: usize = 0;
    while i < bytes.len()
        invariant
            i <= bytes@.len(),
            (a as nat, b as nat) == adler_state(bytes@.subrange(0, i as int)),
            a < 65521,
            b < 65521,
        decreases bytes@.len() - i,
    {
        proof {
            assert(bytes@.subrange(0, i + 1).drop_last() =~= bytes@.subrange(0, i as int));
        }
        a = (a + bytes[i] as u32) % ADLER_MODULUS;
        b = (b + a) % ADLER_MODULUS;
        i += 1;
    }
    assert(bytes@.subrange(0, i as int) =~= bytes@);
    assert(b * 65536 + a <= u32::MAX) by (nonlinear_arith)
        requires
            a < 65521,
            b < 65521,
    ;
    b * 65536 + a
}

/// One bit step of the reflected CRC-32 register.
pub open spec fn crc_bit_step(c: u32) -> u32 {
    if c & 1 == 1 {
        (c >> 1u32) ^ 0xEDB8_8320u32
    } else {
        c >> 1u32
    }
}

pub open spec fn crc_bit_steps(c: u32, n: nat) -> u32
    decreases n,
{
    if n == 0 {
        c
    } else {
        crc_bit_steps(crc_bit_step(c), (n - 1) as nat)
    }
}

/// The CRC-32 register after the bytes of `s`, starting from all ones.
pub open spec fn crc_register(s: Seq<u8>) -> u32
    decreases s.len(),
{
    if s.len() == 0 {
        0xFFFF_FFFFu32
    } else {
        crc_bit_steps(crc_register(s.drop_last()) ^ (s.last() as u32), 8)
    }
}

/// The reflected IEEE CRC-32 of `s` (as used by PNG and zlib).
pub open spec fn spec_crc32(s: Seq<u8>) -> u32 {
    !crc_register(s)
}

/// Computes the reflected IEEE CRC-32 checksum used by PNG chunks.
pub fn crc32(bytes: &[u8]) -> (r: u32)
    ensures
        r == spec_crc32(bytes@),
{
    let mut crc: u32 = 0xFFFF_FFFF;
    let mut i: usize = 0;
    while i < bytes.len()
        invariant
            i <= bytes@.len(),
            crc == crc_register(bytes@.subrange(0, i as int)),
        decreases bytes@.len() - i,
    {
        proof {
            assert(bytes@.subrange(0, i + 1).drop_last() =~= bytes@.subrange(0, i as int));
        }
        crc = crc ^ (bytes[i] as u32);
        let ghost start = crc;
        let mut k: u32 = 0;
        while k < 8
            invariant
                k <= 8,
                crc_bit_steps(start, 8) == crc_bit_steps(crc, (8 - k) as nat),
            decreases 8 - k,
        {
            let mask: u32 = if crc & 1 != 0 {
                0xFFFF_FFFF
            } else {
                0
            };
            assert((crc >> 1u32) ^ (CRC32_POLYNOMIAL & mask) == crc_bit_step(crc)) by (bit_vector)
                requires
                    mask == (if crc & 1 != 0 { 0xFFFF_FFFFu32 } else { 0u32 }),
                    CRC32_POLYNOMIAL == 0xEDB8_8320u32,
            ;
            crc = (crc >> 1) ^ (CRC32_POLYNOMIAL & mask);
            k += 1;
        }
        i += 1;
    }
    assert(bytes@.subrange(0, i as int) =~= bytes@);
    !crc
}

} // verus!

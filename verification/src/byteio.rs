use vstd::prelude::*;
use vstd::arithmetic::div_mod::*;

use crate::error::{ErrorKind, MediaError, Result};

verus! {

/// Little-endian value of a byte sequence.
pub open spec fn le_value(s: Seq<u8>) -> nat
    decreases s.len(),
{
    if s.len() == 0 {
        0
    } else {
        (s[0] + 256 * le_value(s.drop_first())) as nat
    }
}

/// Big-endian value of a byte sequence.
pub open spec fn be_value(s: Seq<u8>) -> nat
    decreases s.len(),
{
    if s.len() == 0 {
        0
    } else {
        (be_value(s.drop_last()) * 256 + s.last()) as nat
    }
}

/// The `n` low bytes of `v`, least significant first.
pub open spec fn le_bytes(v: nat, n: nat) -> Seq<u8>
    decreases n,
{
    if n == 0 {
        Seq::empty()
    } else {
        seq![(v % 256) as u8] + le_bytes(v / 256, (n - 1) as nat)
    }
}

/// The `n` low bytes of `v`, most significant first.
pub open spec fn be_bytes(v: nat, n: nat) -> Seq<u8>
    decreases n,
{
    if n == 0 {
        Seq::empty()
    } else {
        be_bytes(v / 256, (n - 1) as nat) + seq![(v % 256) as u8]
    }
}

pub open spec fn pow256(n: nat) -> nat
    decreases n,
{
    if n == 0 {
        1
    } else {
        256 * pow256((n - 1) as nat)
    }
}

/// Two's-complement reading of an unsigned value of `bits` bits.
pub open spec fn signed_of(v: int, modulus: int) -> int {
    if v >= modulus / 2 {
        v - modulus
    } else {
        v
    }
}

/// Reading back the little-endian encoding of `v` gives `v`.
pub proof fn lemma_le_roundtrip(v: nat, n: nat)
    requires
        v < pow256(n),
    ensures
        le_bytes(v, n).len() == n,
        le_value(le_bytes(v, n)) == v,
    decreases n,
{
    if n > 0 {
        lemma_fundamental_div_mod(v as int, 256);
        lemma_mod_pos_bound(v as int, 256);
        assert(v / 256 < pow256((n - 1) as nat)) by {
            lemma_div_lt_pow(v, n);
        }
        lemma_le_roundtrip(v / 256, (n - 1) as nat);
        let s = le_bytes(v, n);
        assert(s.drop_first() =~= le_bytes(v / 256, (n - 1) as nat));
    } else {
        lemma_small_mod(v, 1);
    }
}

proof fn lemma_div_lt_pow(v: nat, n: nat)
    requires
        n > 0,
        v < pow256(n),
    ensures
        v / 256 < pow256((n - 1) as nat),
{
    lemma_fundamental_div_mod(v as int, 256);
    lemma_mod_pos_bound(v as int, 256);
}

/// Reading back the big-endian encoding of `v` gives `v`.
pub proof fn lemma_be_roundtrip(v: nat, n: nat)
    requires
        v < pow256(n),
    ensures
        be_bytes(v, n).len() == n,
        be_value(be_bytes(v, n)) == v,
    decreases n,
{
    if n > 0 {
        lemma_fundamental_div_mod(v as int, 256);
        lemma_mod_pos_bound(v as int, 256);
        lemma_div_lt_pow(v, n);
        lemma_be_roundtrip(v / 256, (n - 1) as nat);
        let s = be_bytes(v, n);
        assert(s.drop_last() =~= be_bytes(v / 256, (n - 1) as nat));
    }
}

/// Copies a slice of exactly `N` bytes into an array.
fn array_from_slice<const N: usize>(bytes: &[u8]) -> (a: [u8; N])
    requires
        bytes@.len() == N,
    ensures
        a@ == bytes@,
{
    let mut a = [0u8; N];
    let mut i: usize = 0;
    while i < N
        invariant
            bytes@.len() == N,
            a@.len() == N,
            i <= N,
            forall|j: int| 0 <= j < i ==> a@[j] == bytes@[j],
        decreases N - i,
    {
        a.set(i, bytes[i]);
        i += 1;
    }
    assert(a@ =~= bytes@);
    a
}

/// A cursor over a borrowed byte slice.
#[derive(Debug)]
pub struct ByteReader<'a> {
    bytes: &'a [u8],
    position: usize,
}

impl<'a> ByteReader<'a> {
    #[verifier::type_invariant]
    closed spec fn position_in_bounds(self) -> bool {
        &&& self.position <= self.bytes@.len()
        &&& self.bytes@.len() <= usize::MAX
    }

    /// The whole input.
    pub closed spec fn data(self) -> Seq<u8> {
        self.bytes@
    }

    /// The cursor position.
    pub closed spec fn pos(self) -> nat {
        self.position as nat
    }

    /// The bytes from the cursor to the end.
    pub open spec fn rest(self) -> Seq<u8> {
        self.data().subrange(self.pos() as int, self.data().len() as int)
    }

    pub fn new(bytes: &'a [u8]) -> (r: Self)
        ensures
            r.data() == bytes@,
            r.pos() == 0,
    {
        let _n = bytes.len();
        ByteReader { bytes, position: 0 }
    }

    pub fn position(&self) -> (p: usize)
        ensures
            p == self.pos(),
            p <= self.data().len(),
    {
        proof {
            use_type_invariant(self);
        }
        self.position
    }

    pub fn len(&self) -> (n: usize)
        ensures
            n == self.data().len(),
    {
        self.bytes.len()
    }

    pub fn is_empty(&self) -> (b: bool)
        ensures
            b == (self.data().len() == 0),
    {
        self.bytes.len() == 0
    }

    pub fn remaining(&self) -> (n: usize)
        ensures
            n == self.data().len() - self.pos(),
    {
        proof {
            use_type_invariant(self);
        }
        self.bytes.len() - self.position
    }

    pub fn seek(&mut self, position: usize) -> (r: Result<()>)
        ensures
            final(self).data() == old(self).data(),
            match r {
                Ok(()) => position <= old(self).data().len() && final(self).pos() == position,
                Err(e) => position > old(self).data().len() && e@ == ErrorKind::InvalidArgument
                    && final(self).pos() == old(self).pos(),
            },
    {
        if position > self.bytes.len() {
            return Err(MediaError::invalid_argument("byte reader seek is out of bounds"));
        }
        self.position = position;
        Ok(())
    }

    pub fn skip(&mut self, len: usize) -> (r: Result<()>)
        ensures
            final(self).data() == old(self).data(),
            match r {
                Ok(()) => old(self).pos() + len <= old(self).data().len() && final(self).pos()
                    == old(self).pos() + len,
                Err(e) => final(self).pos() == old(self).pos() && (e@ == ErrorKind::Overflow
                    || e@ == ErrorKind::InvalidArgument) && old(self).pos() + len > old(self).data().len(),
            },
    {
        proof {
            use_type_invariant(&*self);
        }
        let position = match self.position.checked_add(len) {
            Some(p) => p,
            None => return Err(MediaError::overflow("byte reader position overflow")),
        };
        self.seek(position)
    }

    /// The next `len` bytes; the cursor moves past them.
    pub fn take(&mut self, len: usize) -> (r: Result<&'a [u8]>)
        ensures
            final(self).data() == old(self).data(),
            match r {
                Ok(s) => {
                    &&& old(self).pos() + len <= old(self).data().len()
                    &&& s@ == old(self).data().subrange(
                        old(self).pos() as int,
                        old(self).pos() + len,
                    )
                    &&& final(self).pos() == old(self).pos() + len
                },
                Err(e) => {
                    &&& final(self).pos() == old(self).pos()
                    &&& old(self).pos() + len > old(self).data().len()
                    &&& e@ == (if old(self).pos() + len > usize::MAX { ErrorKind::Overflow } else { ErrorKind::EndOfFile })
                },
            },
    {
        proof {
            use_type_invariant(&*self);
        }
        let end = match self.position.checked_add(len) {
            Some(e) => e,
            None => return Err(MediaError::overflow("byte reader position overflow")),
        };
        if end > self.bytes.len() {
            return Err(MediaError::eof("unexpected end of input"));
        }
        let s = vstd::slice::slice_subrange(self.bytes, self.position, end);
        self.position = end;
        Ok(s)
    }

    /// The next `len` bytes without moving the cursor.
    pub fn peek(&self, len: usize) -> (r: Result<&'a [u8]>)
        ensures
            match r {
                Ok(s) => self.pos() + len <= self.data().len() && s@ == self.data().subrange(
                    self.pos() as int,
                    self.pos() + len,
                ),
                Err(e) => self.pos() + len > self.data().len() && (e@ == ErrorKind::EndOfFile
                    || e@ == ErrorKind::Overflow),
            },
    {
        proof {
            use_type_invariant(self);
        }
        let end = match self.position.checked_add(len) {
            Some(e) => e,
            None => return Err(MediaError::overflow("byte reader position overflow")),
        };
        if end > self.bytes.len() {
            return Err(MediaError::eof("unexpected end of input"));
        }
        Ok(vstd::slice::slice_subrange(self.bytes, self.position, end))
    }

    /// The next `n` bytes as an owned vector.
    fn read_n(&mut self, n: usize) -> (r: Result<Vec<u8>>)
        ensures
            final(self).data() == old(self).data(),
            match r {
                Ok(v) => {
                    &&& old(self).pos() + n <= old(self).data().len()
                    &&& v@ == old(self).data().subrange(old(self).pos() as int, old(self).pos() + n)
                    &&& final(self).pos() == old(self).pos() + n
                },
                Err(e) => {
                    &&& final(self).pos() == old(self).pos()
                    &&& old(self).pos() + n > old(self).data().len()
                    &&& (e@ == ErrorKind::EndOfFile || e@ == ErrorKind::Overflow)
                },
            },
    {
        let s = self.take(n)?;
        Ok(vstd::slice::slice_to_vec(s))
    }

    /// The next `N` bytes as an array; the cursor moves past them.
    pub fn read_array<const N: usize>(&mut self) -> (r: Result<[u8; N]>)
        ensures
            final(self).data() == old(self).data(),
            match r {
                Ok(a) => {
                    &&& old(self).pos() + N <= old(self).data().len()
                    &&& a@ == old(self).data().subrange(old(self).pos() as int, old(self).pos() + N)
                    &&& final(self).pos() == old(self).pos() + N
                },
                Err(e) => {
                    &&& final(self).pos() == old(self).pos()
                    &&& old(self).pos() + N > old(self).data().len()
                    &&& (e@ == ErrorKind::EndOfFile || e@ == ErrorKind::Overflow)
                },
            },
    {
        let s = self.take(N)?;
        Ok(array_from_slice(s))
    }

    pub fn read_u8(&mut self) -> (r: Result<u8>)
        ensures
            final(self).data() == old(self).data(),
            match r {
                Ok(v) => old(self).pos() + 1 <= old(self).data().len() && v == old(self).data()[old(self).pos() as int] && final(self).pos() == old(self).pos() + 1,
                Err(e) => final(self).pos() == old(self).pos() && old(self).pos() + 1 > old(self).data().len() && e@ == ErrorKind::EndOfFile,
            },
    {
        proof {
            use_type_invariant(&*self);
        }
        if self.position >= self.bytes.len() {
            return Err(MediaError::eof("unexpected end of input"));
        }
        let v = self.bytes[self.position];
        self.position = self.position + 1;
        Ok(v)
    }
}

impl<'a> Clone for ByteReader<'a> {
    fn clone(&self) -> (r: Self)
        ensures
            r.data() == self.data(),
            r.pos() == self.pos(),
    {
        proof {
            use_type_invariant(self);
        }
        ByteReader { bytes: self.bytes, position: self.position }
    }
}

/// The outcome shared by the fixed-width integer reads: on success the cursor
/// moves `n` bytes and `value` is decoded from them; on failure nothing moves.
pub open spec fn read_fixed_ok(
    old_r: ByteReader,
    new_r: ByteReader,
    n: nat,
    r: Result<int>,
    decode: spec_fn(Seq<u8>) -> int,
) -> bool {
    &&& new_r.data() == old_r.data()
    &&& match r {
        Ok(v) => {
            &&& old_r.pos() + n <= old_r.data().len()
            &&& v == decode(old_r.data().subrange(old_r.pos() as int, (old_r.pos() + n) as int))
            &&& new_r.pos() == old_r.pos() + n
        },
        Err(e) => {
            &&& new_r.pos() == old_r.pos()
            &&& old_r.pos() + n > old_r.data().len()
            &&& (e@ == ErrorKind::EndOfFile || e@ == ErrorKind::Overflow)
        },
    }
}

pub open spec fn lift<T>(r: Result<T>, f: spec_fn(T) -> int) -> Result<int> {
    match r {
        Ok(v) => Ok(f(v)),
        Err(e) => Err(e),
    }
}

pub open spec fn le_of(s: Seq<u8>) -> int {
    le_value(s) as int
}

pub open spec fn be_of(s: Seq<u8>) -> int {
    be_value(s) as int
}

impl<'a> ByteReader<'a> {
    pub fn read_u16_le(&mut self) -> (r: Result<u16>)
        ensures
            read_fixed_ok(*old(self), *final(self), 2, lift(r, |v: u16| v as int), |s| le_of(s)),
    {
        let b = self.read_n(2)?;
        proof {
            reveal_with_fuel(le_value, 3);
        }
        Ok(b[0] as u16 + (b[1] as u16) * 256)
    }

    pub fn read_u16_be(&mut self) -> (r: Result<u16>)
        ensures
            read_fixed_ok(*old(self), *final(self), 2, lift(r, |v: u16| v as int), |s| be_of(s)),
    {
        let b = self.read_n(2)?;
        proof {
            reveal_with_fuel(be_value, 3);
            assert(b@.drop_last().drop_last() =~= Seq::<u8>::empty());
            assert(b@.drop_last() =~= seq![b@[0]]);
        }
        Ok((b[0] as u16) * 256 + b[1] as u16)
    }

    pub fn read_i16_le(&mut self) -> (r: Result<i16>)
        ensures
            read_fixed_ok(
                *old(self),
                *final(self),
                2,
                lift(r, |v: i16| v as int),
                |s| signed_of(le_of(s), 0x10000),
            ),
    {
        let v = self.read_u16_le()?;
        Ok(if v >= 0x8000 {
            (v as i32 - 0x10000) as i16
        } else {
            v as i16
        })
    }

    pub fn read_u24_le(&mut self) -> (r: Result<u32>)
        ensures
            read_fixed_ok(*old(self), *final(self), 3, lift(r, |v: u32| v as int), |s| le_of(s)),
    {
        let b = self.read_n(3)?;
        proof {
            reveal_with_fuel(le_value, 4);
        }
        Ok(b[0] as u32 + (b[1] as u32) * 256 + (b[2] as u32) * 65536)
    }

    pub fn read_u24_be(&mut self) -> (r: Result<u32>)
        ensures
            read_fixed_ok(*old(self), *final(self), 3, lift(r, |v: u32| v as int), |s| be_of(s)),
    {
        let b = self.read_n(3)?;
        proof {
            reveal_with_fuel(be_value, 4);
            assert(b@.drop_last().drop_last().drop_last() =~= Seq::<u8>::empty());
            assert(b@.drop_last().drop_last() =~= seq![b@[0]]);
            assert(b@.drop_last() =~= seq![b@[0], b@[1]]);
        }
        Ok((b[0] as u32) * 65536 + (b[1] as u32) * 256 + b[2] as u32)
    }

    pub fn read_u32_le(&mut self) -> (r: Result<u32>)
        ensures
            read_fixed_ok(*old(self), *final(self), 4, lift(r, |v: u32| v as int), |s| le_of(s)),
    {
        let b = self.read_n(4)?;
        proof {
            reveal_with_fuel(le_value, 5);
        }
        Ok(b[0] as u32 + (b[1] as u32) * 256 + (b[2] as u32) * 65536 + (b[3] as u32) * 16777216)
    }

    pub fn read_u32_be(&mut self) -> (r: Result<u32>)
        ensures
            read_fixed_ok(*old(self), *final(self), 4, lift(r, |v: u32| v as int), |s| be_of(s)),
    {
        let b = self.read_n(4)?;
        proof {
            reveal_with_fuel(be_value, 5);
            assert(b@.drop_last().drop_last().drop_last().drop_last() =~= Seq::<u8>::empty());
            assert(b@.drop_last().drop_last().drop_last() =~= seq![b@[0]]);
            assert(b@.drop_last().drop_last() =~= seq![b@[0], b@[1]]);
            assert(b@.drop_last() =~= seq![b@[0], b@[1], b@[2]]);
        }
        Ok((b[0] as u32) * 16777216 + (b[1] as u32) * 65536 + (b[2] as u32) * 256 + b[3] as u32)
    }

    pub fn read_i32_le(&mut self) -> (r: Result<i32>)
        ensures
            read_fixed_ok(
                *old(self),
                *final(self),
                4,
                lift(r, |v: i32| v as int),
                |s| signed_of(le_of(s), 0x1_0000_0000),
            ),
    {
        let v = self.read_u32_le()?;
        Ok(if v >= 0x8000_0000 {
            (v as i64 - 0x1_0000_0000) as i32
        } else {
            v as i32
        })
    }

    pub fn read_u64_le(&mut self) -> (r: Result<u64>)
        ensures
            read_fixed_ok(*old(self), *final(self), 8, lift(r, |v: u64| v as int), |s| le_of(s)),
    {
        let b = self.read_n(8)?;
        let mut value: u64 = 0;
        let mut i: usize = 8;
        while i > 0
            invariant
                b@.len() == 8,
                i <= 8,
                value == le_value(b@.subrange(i as int, 8)),
                value < pow256((8 - i) as nat),
            decreases i,
        {
            i -= 1;
            proof {
                let s = b@.subrange(i as int, 8);
                assert(s.drop_first() =~= b@.subrange(i + 1, 8));
                reveal_with_fuel(pow256, 9);
            }
            value = b[i] as u64 + value * 256;
        }
        assert(b@.subrange(0, 8) =~= b@);
        Ok(value)
    }

    pub fn read_u64_be(&mut self) -> (r: Result<u64>)
        ensures
            read_fixed_ok(*old(self), *final(self), 8, lift(r, |v: u64| v as int), |s| be_of(s)),
    {
        let b = self.read_n(8)?;
        let mut value: u64 = 0;
        let mut i: usize = 0;
        while i < 8
            invariant
                b@.len() == 8,
                i <= 8,
                value == be_value(b@.subrange(0, i as int)),
                value < pow256(i as nat),
            decreases 8 - i,
        {
            proof {
                let s = b@.subrange(0, i + 1);
                assert(s.drop_last() =~= b@.subrange(0, i as int));
                reveal_with_fuel(pow256, 9);
            }
            value = value * 256 + b[i] as u64;
            i += 1;
        }
        assert(b@.subrange(0, 8) =~= b@);
        Ok(value)
    }
}

/// A growable output byte buffer.
#[derive(Debug, Default, Clone)]
pub struct ByteWriter {
    bytes: Vec<u8>,
}

impl View for ByteWriter {
    type V = Seq<u8>;

    closed spec fn view(&self) -> Seq<u8> {
        self.bytes@
    }
}

impl ByteWriter {
    pub fn new() -> (w: Self)
        ensures
            w@ == Seq::<u8>::empty(),
    {
        ByteWriter { bytes: Vec::new() }
    }

    pub fn with_capacity(capacity: usize) -> (w: Self)
        ensures
            w@ == Seq::<u8>::empty(),
    {
        ByteWriter { bytes: Vec::with_capacity(capacity) }
    }

    pub fn len(&self) -> (n: usize)
        ensures
            n == self@.len(),
    {
        self.bytes.len()
    }

    pub fn is_empty(&self) -> (b: bool)
        ensures
            b == (self@.len() == 0),
    {
        self.bytes.len() == 0
    }

    pub fn write(&mut self, bytes: &[u8])
        ensures
            final(self)@ == old(self)@ + bytes@,
    {
        let mut i: usize = 0;
        while i < bytes.len()
            invariant
                i <= bytes@.len(),
                self.bytes@ == old(self)@ + bytes@.subrange(0, i as int),
            decreases bytes@.len() - i,
        {
            self.bytes.push(bytes[i]);
            i += 1;
            assert(self.bytes@ =~= old(self)@ + bytes@.subrange(0, i as int));
        }
        assert(bytes@.subrange(0, i as int) =~= bytes@);
    }

    pub fn write_u8(&mut self, value: u8)
        ensures
            final(self)@ == old(self)@.push(value),
    {
        self.bytes.push(value);
    }

    fn write_le(&mut self, value: u64, n: usize)
        requires
            n <= 8,
        ensures
            final(self)@ == old(self)@ + le_bytes(value as nat, n as nat),
    {
        let mut v = value;
        let mut i: usize = 0;
        while i < n
            invariant
                i <= n,
                self.bytes@ + le_bytes(v as nat, (n - i) as nat) == old(self)@ + le_bytes(
                    value as nat,
                    n as nat,
                ),
            decreases n - i,
        {
            proof {
                assert(le_bytes(v as nat, (n - i) as nat) =~= seq![(v % 256) as u8] + le_bytes(
                    (v / 256) as nat,
                    (n - i - 1) as nat,
                ));
            }
            self.bytes.push((v % 256) as u8);
            v = v / 256;
            i += 1;
            proof {
                assert(self.bytes@ + le_bytes(v as nat, (n - i) as nat) =~= old(self)@ + le_bytes(
                    value as nat,
                    n as nat,
                ));
            }
        }
        assert(le_bytes(v as nat, 0) =~= Seq::<u8>::empty());
        assert(self.bytes@ =~= old(self)@ + le_bytes(value as nat, n as nat));
    }

    fn write_be(&mut self, value: u64, n: usize)
        requires
            n <= 8,
        ensures
            final(self)@ == old(self)@ + be_bytes(value as nat, n as nat),
    {
        let mut tmp: Vec<u8> = Vec::new();
        let mut v = value;
        let mut i: usize = 0;
        while i < n
            invariant
                i <= n,
                be_bytes(v as nat, (n - i) as nat) + tmp@ == be_bytes(value as nat, n as nat),
                tmp@.len() == i,
            decreases n - i,
        {
            proof {
                assert(be_bytes(v as nat, (n - i) as nat) =~= be_bytes(
                    (v / 256) as nat,
                    (n - i - 1) as nat,
                ) + seq![(v % 256) as u8]);
            }
            tmp.insert(0, (v % 256) as u8);
            v = v / 256;
            i += 1;
            proof {
                assert(be_bytes(v as nat, (n - i) as nat) + tmp@ =~= be_bytes(
                    value as nat,
                    n as nat,
                ));
            }
        }
        assert(be_bytes(v as nat, 0) =~= Seq::<u8>::empty());
        assert(tmp@ =~= be_bytes(value as nat, n as nat));
        self.write(tmp.as_slice());
    }

    pub fn write_u16_le(&mut self, value: u16)
        ensures
            final(self)@ == old(self)@ + le_bytes(value as nat, 2),
    {
        self.write_le(value as u64, 2);
    }

    pub fn write_u16_be(&mut self, value: u16)
        ensures
            final(self)@ == old(self)@ + be_bytes(value as nat, 2),
    {
        self.write_be(value as u64, 2);
    }

    pub fn write_u32_le(&mut self, value: u32)
        ensures
            final(self)@ == old(self)@ + le_bytes(value as nat, 4),
    {
        self.write_le(value as u64, 4);
    }

    pub fn write_u32_be(&mut self, value: u32)
        ensures
            final(self)@ == old(self)@ + be_bytes(value as nat, 4),
    {
        self.write_be(value as u64, 4);
    }

    pub fn write_u64_le(&mut self, value: u64)
        ensures
            final(self)@ == old(self)@ + le_bytes(value as nat, 8),
    {
        self.write_le(value, 8);
    }

    /// Overwrites the four bytes at `position` with `value`, little-endian.
    pub fn patch_u32_le(&mut self, position: usize, value: u32) -> (r: Result<()>)
        ensures
            match r {
                Ok(()) => position + 4 <= old(self)@.len() && final(self)@ == old(self)@.subrange(
                    0,
                    position as int,
                ) + le_bytes(value as nat, 4) + old(self)@.subrange(
                    position + 4,
                    old(self)@.len() as int,
                ),
                Err(e) => final(self)@ == old(self)@ && position + 4 > old(self)@.len() && (e@
                    == ErrorKind::Overflow || e@ == ErrorKind::InvalidArgument),
            },
    {
        let _n = self.bytes.len();
        let end = match position.checked_add(4) {
            Some(e) => e,
            None => return Err(MediaError::overflow("byte writer patch position overflow")),
        };
        if end > self.bytes.len() {
            return Err(MediaError::invalid_argument("byte writer patch is out of bounds"));
        }
        let mut v = value;
        let mut i: usize = 0;
        proof {
            lemma_div_basics(value as int);
        }
        while i < 4
            invariant
                end == position + 4,
                end <= self.bytes@.len(),
                self.bytes@.len() == old(self)@.len(),
                i <= 4,
                v as nat == value as nat / pow256(i as nat),
                forall|j: int| 0 <= j < position || end <= j < old(self)@.len() ==> #[trigger] self.bytes@[j] == old(self)@[j],
                forall|j: int| 0 <= j < i ==> #[trigger] self.bytes@[position + j] == le_bytes(value as nat, 4)[j],
            decreases 4 - i,
        {
            proof {
                lemma_le_bytes_index(value as nat, 4, i as nat);
                reveal_with_fuel(pow256, 5);
            }
            self.bytes.set(position + i, (v % 256) as u8);
            proof {
                lemma_div_div_256(value as nat, pow256(i as nat));
            }
            v = v / 256;
            i += 1;
        }
        assert(self.bytes@ =~= old(self)@.subrange(0, position as int) + le_bytes(value as nat, 4)
            + old(self)@.subrange(position + 4, old(self)@.len() as int)) by {
            lemma_le_roundtrip_len(value as nat, 4);
            assert forall|k: int| position <= k < position + 4 implies self.bytes@[k] == le_bytes(
                value as nat,
                4,
            )[k - position] by {
                let j = k - position;
                assert(self.bytes@[position + j] == le_bytes(value as nat, 4)[j]);
            }
        }
        Ok(())
    }

    pub fn as_slice(&self) -> (s: &[u8])
        ensures
            s@ == self@,
    {
        self.bytes.as_slice()
    }

    pub fn into_inner(self) -> (v: Vec<u8>)
        ensures
            v@ == self@,
    {
        self.bytes
    }
}

pub proof fn lemma_le_roundtrip_len(v: nat, n: nat)
    ensures
        le_bytes(v, n).len() == n,
    decreases n,
{
    if n > 0 {
        lemma_le_roundtrip_len(v / 256, (n - 1) as nat);
    }
}

pub proof fn lemma_be_roundtrip_len(v: nat, n: nat)
    ensures
        be_bytes(v, n).len() == n,
    decreases n,
{
    if n > 0 {
        lemma_be_roundtrip_len(v / 256, (n - 1) as nat);
    }
}

proof fn lemma_div_div_256(v: nat, p: nat)
    requires
        p > 0,
    ensures
        v / p / 256 == v / (p * 256),
        p * 256 == 256 * p,
{
    lemma_div_denominator(v as int, p as int, 256);
}

proof fn lemma_pow256_pos(n: nat)
    ensures
        pow256(n) > 0,
    decreases n,
{
    if n > 0 {
        lemma_pow256_pos((n - 1) as nat);
    }
}

/// Byte `i` of the little-endian encoding is `(v / 256^i) % 256`.
proof fn lemma_le_bytes_index(v: nat, n: nat, i: nat)
    requires
        i < n,
    ensures
        le_bytes(v, n).len() == n,
        le_bytes(v, n)[i as int] == ((v / pow256(i)) % 256) as u8,
    decreases i,
{
    lemma_le_roundtrip_len(v, n);
    lemma_le_roundtrip_len(v / 256, (n - 1) as nat);
    if i == 0 {
        lemma_div_basics(v as int);
    } else {
        lemma_le_bytes_index(v / 256, (n - 1) as nat, (i - 1) as nat);
        lemma_pow256_pos((i - 1) as nat);
        lemma_div_denominator(v as int, 256, pow256((i - 1) as nat) as int);
    }
}

/// An MSB-first bit cursor over a borrowed byte slice.
#[derive(Debug)]
pub struct BitReader<'a> {
    bytes: &'a [u8],
    bit_position: usize,
}

impl<'a> Clone for BitReader<'a> {
    fn clone(&self) -> (r: Self)
        ensures
            r.data() == self.data(),
            r.pos() == self.pos(),
    {
        proof {
            use_type_invariant(self);
        }
        BitReader { bytes: self.bytes, bit_position: self.bit_position }
    }
}

/// Bit `i` of `s`, counting from the most significant bit of byte 0.
pub open spec fn msb_bit(s: Seq<u8>, i: int) -> nat {
    if (s[i / 8] >> ((7 - i % 8) as u8)) & 1 == 1 {
        1
    } else {
        0
    }
}

/// The `count` bits starting at bit `pos`, first bit most significant.
pub open spec fn msb_bits(s: Seq<u8>, pos: int, count: nat) -> nat
    decreases count,
{
    if count == 0 {
        0
    } else {
        msb_bits(s, pos, (count - 1) as nat) * 2 + msb_bit(s, pos + count - 1)
    }
}

impl<'a> BitReader<'a> {
    #[verifier::type_invariant]
    closed spec fn cursor_in_bounds(self) -> bool {
        self.bit_position <= sat_bits(self.bytes@.len())
    }

    pub closed spec fn data(self) -> Seq<u8> {
        self.bytes@
    }

    pub closed spec fn pos(self) -> nat {
        self.bit_position as nat
    }

    pub fn new(bytes: &'a [u8]) -> (r: Self)
        ensures
            r.data() == bytes@,
            r.pos() == 0,
    {
        BitReader { bytes, bit_position: 0 }
    }

    pub fn bit_position(&self) -> (p: usize)
        ensures
            p == self.pos(),
    {
        self.bit_position
    }

    pub fn bits_remaining(&self) -> (n: usize)
        ensures
            n == if self.pos() >= sat_bits(self.data().len()) {
                0
            } else {
                sat_bits(self.data().len()) - self.pos()
            },
    {
        proof {
            use_type_invariant(self);
        }
        let total = total_bits(self.bytes.len());
        if self.bit_position >= total {
            0
        } else {
            total - self.bit_position
        }
    }

    pub fn read_bit(&mut self) -> (r: Result<bool>)
        ensures
            final(self).data() == old(self).data(),
            match r {
                Ok(b) => old(self).pos() < sat_bits(old(self).data().len()) && final(self).pos()
                    == old(self).pos() + 1 && (b == (msb_bit(old(self).data(), old(self).pos() as int) == 1)),
                Err(e) => old(self).pos() >= sat_bits(old(self).data().len()) && final(self).pos()
                    == old(self).pos() && e@ == ErrorKind::EndOfFile,
            },
    {
        proof {
            use_type_invariant(&*self);
        }
        if self.bit_position >= total_bits(self.bytes.len()) {
            return Err(MediaError::eof("unexpected end of bitstream"));
        }
        let byte = self.bytes[self.bit_position / 8];
        let shift = (7 - (self.bit_position % 8)) as u8;
        assert((byte >> shift) & 1 == 1 || (byte >> shift) & 1 == 0) by (bit_vector);
        self.bit_position = self.bit_position + 1;
        Ok(((byte >> shift) & 1) != 0)
    }

    /// Reads `count` bits (at most 64), first bit most significant.
    pub fn read_bits(&mut self, count: u8) -> (r: Result<u64>)
        ensures
            final(self).data() == old(self).data(),
            match r {
                Ok(v) => {
                    &&& count <= 64
                    &&& old(self).pos() + count <= sat_bits(old(self).data().len())
                    &&& final(self).pos() == old(self).pos() + count
                    &&& v == msb_bits(old(self).data(), old(self).pos() as int, count as nat)
                },
                Err(e) => {
                    &&& final(self).pos() == old(self).pos()
                    &&& (count > 64 && e@ == ErrorKind::InvalidArgument || count <= 64 && old(self).pos() + count > sat_bits(old(self).data().len()) && e@
                        == ErrorKind::EndOfFile)
                },
            },
    {
        proof {
            use_type_invariant(&*self);
        }
        if count > 64 {
            return Err(MediaError::invalid_argument("cannot read more than 64 bits"));
        }
        if (count as usize) > self.bits_remaining() {
            return Err(MediaError::eof("unexpected end of bitstream"));
        }
        let ghost start = self.bit_position as int;
        let mut value: u64 = 0;
        let mut k: u8 = 0;
        while k < count
            invariant
                self.bytes@ == old(self).data(),
                start == old(self).pos(),
                k <= count <= 64,
                start + count <= sat_bits(self.bytes@.len()),
                self.bit_position == start + k,
                value == msb_bits(self.bytes@, start, k as nat),
                value < pow2_nat(k as nat),
            decreases count - k,
        {
            let bit = self.read_bit();
            let b: u64 = match bit {
                Ok(true) => 1,
                Ok(false) => 0,
                Err(_) => 0,
            };
            proof {
                assert(bit is Ok);
                lemma_shift_or(value, b, k as nat);
            }
            value = (value << 1u64) | b;
            k += 1;
        }
        Ok(value)
    }

    pub fn skip_bits(&mut self, count: usize) -> (r: Result<()>)
        ensures
            final(self).data() == old(self).data(),
            match r {
                Ok(()) => old(self).pos() + count <= sat_bits(old(self).data().len()) && final(self).pos() == old(self).pos() + count,
                Err(e) => old(self).pos() + count > sat_bits(old(self).data().len()) && final(self).pos() == old(self).pos() && e@ == ErrorKind::EndOfFile,
            },
    {
        proof {
            use_type_invariant(&*self);
        }
        if count > self.bits_remaining() {
            return Err(MediaError::eof("unexpected end of bitstream"));
        }
        self.bit_position = self.bit_position + count;
        Ok(())
    }

    /// Moves the cursor forward to the next byte boundary.
    pub fn align_to_byte(&mut self) -> (r: Result<()>)
        ensures
            final(self).data() == old(self).data(),
            match r {
                Ok(()) => final(self).pos() == if old(self).pos() % 8 == 0 {
                    old(self).pos()
                } else {
                    (old(self).pos() + 8 - old(self).pos() % 8) as nat
                },
                Err(e) => final(self).pos() == old(self).pos() && e@ == ErrorKind::EndOfFile,
            },
    {
        let remainder = self.bit_position % 8;
        if remainder != 0 {
            self.skip_bits(8 - remainder)?;
        }
        Ok(())
    }
}

fn total_bits(len: usize) -> (n: usize)
    ensures
        n == sat_bits(len as nat),
{
    if len > usize::MAX / 8 {
        usize::MAX
    } else {
        len * 8
    }
}

/// `8 * len`, saturated at `usize::MAX`.
pub open spec fn sat_bits(len: nat) -> nat {
    if len * 8 > usize::MAX {
        usize::MAX as nat
    } else {
        len * 8
    }
}

pub open spec fn pow2_nat(n: nat) -> nat
    decreases n,
{
    if n == 0 {
        1
    } else {
        2 * pow2_nat((n - 1) as nat)
    }
}

proof fn lemma_shift_or(value: u64, b: u64, k: nat)
    requires
        k < 64,
        value < pow2_nat(k),
        b <= 1,
    ensures
        (value << 1u64) | b == value * 2 + b,
        value * 2 + b < pow2_nat(k + 1),
{
    lemma_pow2_nat_le(k);
    assert(value < 0x8000_0000_0000_0000u64);
    assert((value << 1u64) | b == value * 2 + b) by (bit_vector)
        requires
            value < 0x8000_0000_0000_0000u64,
            b <= 1,
    ;
}

#[verifier::spinoff_prover]
#[verifier::rlimit(40)]
proof fn lemma_pow2_nat_le(k: nat)
    requires
        k < 64,
    ensures
        pow2_nat(k) <= 0x8000_0000_0000_0000,
{
    lemma_pow2_nat_mono(k, 63);
    reveal_with_fuel(pow2_nat, 64);
}

proof fn lemma_pow2_nat_mono(k: nat, j: nat)
    requires
        k <= j,
    ensures
        pow2_nat(k) <= pow2_nat(j),
    decreases j,
{
    if k < j {
        lemma_pow2_nat_mono(k, (j - 1) as nat);
    }
}

} // verus!

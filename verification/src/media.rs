use std::sync::Arc;

use vstd::prelude::*;
use vstd::string::StringExecFns;

use crate::error::{ErrorKind, MediaError, Result};
use crate::rational::Rational;

verus! {

pub const RUSTMPEG_VERSION: &'static str = "0.1.0";

pub const FFMPEG_COMPAT_VERSION: &'static str = "9.0.1";

/// Shares the storage of a buffer with a second owner.
#[verifier::external_body]
fn share_storage(storage: &Arc<Vec<u8>>) -> (r: Arc<Vec<u8>>)
    ensures
        r@ == storage@,
{
    Arc::clone(storage)
}

/// Reads the bytes of shared storage.
fn storage_bytes(storage: &Arc<Vec<u8>>) -> (r: &[u8])
    ensures
        r@ == storage@,
{
    storage.as_slice()
}

/// An immutable byte window onto shared storage.
#[derive(Debug)]
pub struct Buffer {
    storage: Arc<Vec<u8>>,
    offset: usize,
    len: usize,
}

impl View for Buffer {
    type V = Seq<u8>;

    /// The bytes the buffer exposes.
    closed spec fn view(&self) -> Seq<u8> {
        self.storage@.subrange(self.offset as int, self.offset + self.len)
    }
}

impl Buffer {
    #[verifier::type_invariant]
    closed spec fn window_in_storage(self) -> bool {
        &&& self.offset + self.len <= self.storage@.len()
        &&& self.storage@.len() <= usize::MAX
    }

    pub fn from_vec(bytes: Vec<u8>) -> (b: Self)
        ensures
            b@ == bytes@,
    {
        let len = bytes.len();
        let ghost v = bytes@;
        let b = Buffer { storage: Arc::new(bytes), offset: 0, len };
        assert(b@ =~= v);
        b
    }

    pub fn copy_from_slice(bytes: &[u8]) -> (b: Self)
        ensures
            b@ == bytes@,
    {
        Self::from_vec(vstd::slice::slice_to_vec(bytes))
    }

    /// The sub-window `[offset, offset + len)`, sharing storage.
    pub fn slice(&self, offset: usize, len: usize) -> (r: Result<Self>)
        ensures
            match r {
                Ok(b) => offset + len <= self@.len() && b@ == self@.subrange(
                    offset as int,
                    offset + len,
                ),
                Err(e) => {
                    ||| offset + len > usize::MAX && e@ == ErrorKind::Overflow
                    ||| offset + len <= usize::MAX && offset + len > self@.len() && e@
                        == ErrorKind::InvalidArgument
                },
            },
    {
        proof {
            use_type_invariant(self);
        }
        let end = match offset.checked_add(len) {
            Some(end) => end,
            None => return Err(MediaError::overflow("buffer slice overflow")),
        };
        if end > self.len {
            return Err(MediaError::invalid_argument("buffer slice is out of bounds"));
        }
        let b = Buffer { storage: share_storage(&self.storage), offset: self.offset + offset, len };
        assert(b@ =~= self@.subrange(offset as int, offset + len));
        Ok(b)
    }

    pub fn as_slice(&self) -> (s: &[u8])
        ensures
            s@ == self@,
    {
        proof {
            use_type_invariant(self);
        }
        let all = storage_bytes(&self.storage);
        vstd::slice::slice_subrange(all, self.offset, self.offset + self.len)
    }

    pub fn len(&self) -> (n: usize)
        ensures
            n == self@.len(),
    {
        proof {
            use_type_invariant(self);
        }
        self.len
    }

    pub fn is_empty(&self) -> (b: bool)
        ensures
            b == (self@.len() == 0),
    {
        proof {
            use_type_invariant(self);
        }
        self.len == 0
    }
}

impl Clone for Buffer {
    fn clone(&self) -> (b: Self)
        ensures
            b@ == self@,
    {
        proof {
            use_type_invariant(self);
        }
        Buffer { storage: share_storage(&self.storage), offset: self.offset, len: self.len }
    }
}

/// Two buffers are equal when they expose the same bytes.
impl PartialEq for Buffer {
    fn eq(&self, other: &Self) -> (r: bool) {
        let a = self.as_slice();
        let b = other.as_slice();
        if a.len() != b.len() {
            assert(a@.len() != b@.len());
            return false;
        }
        let mut i: usize = 0;
        while i < a.len()
            invariant
                a@ == self@,
                b@ == other@,
                a@.len() == b@.len(),
                i <= a@.len(),
                forall|j: int| 0 <= j < i ==> a@[j] == b@[j],
            decreases a@.len() - i,
        {
            if a[i] != b[i] {
                assert(a@[i as int] != b@[i as int]);
                return false;
            }
            i += 1;
        }
        assert(a@ =~= b@);
        true
    }
}

impl vstd::std_specs::cmp::PartialEqSpecImpl for Buffer {
    open spec fn obeys_eq_spec() -> bool {
        true
    }

    open spec fn eq_spec(&self, other: &Buffer) -> bool {
        self@ == other@
    }
}

impl Eq for Buffer {
}

/// A set of packet flag bits.
#[derive(Debug, Clone, Copy, PartialEq, Eq, Default)]
pub struct PacketFlags(u32);

pub const PACKET_FLAG_KEY: u32 = 1;

pub const PACKET_FLAG_CORRUPT: u32 = 2;

pub const PACKET_FLAG_DISCARD: u32 = 4;

impl View for PacketFlags {
    type V = u32;

    closed spec fn view(&self) -> u32 {
        self.0
    }
}

impl PacketFlags {
    pub fn empty() -> (f: Self)
        ensures
            f@ == 0,
    {
        PacketFlags(0)
    }

    pub fn bits(self) -> (b: u32)
        ensures
            b == self@,
    {
        self.0
    }

    /// Whether any bit of `flag` is set.
    pub fn contains(self, flag: u32) -> (b: bool)
        ensures
            b == (self@ & flag != 0),
    {
        self.0 & flag != 0
    }

    pub fn set(&mut self, flag: u32, enabled: bool)
        ensures
            enabled ==> final(self)@ == old(self)@ | flag,
            !enabled ==> final(self)@ == old(self)@ & !flag,
    {
        if enabled {
            self.0 = self.0 | flag;
        } else {
            self.0 = self.0 & !flag;
        }
    }
}

/// Setting a flag makes it present; clearing it makes it absent; other bits
/// stay as they were.
pub proof fn lemma_flag_set_clear(bits: u32, flag: u32, other: u32)
    requires
        flag != 0,
        flag & other == 0,
    ensures
        (bits | flag) & flag != 0,
        (bits & !flag) & flag == 0,
        (bits | flag) & other == bits & other,
        (bits & !flag) & other == bits & other,
{
    assert((bits | flag) & flag != 0) by (bit_vector)
        requires
            flag != 0,
    ;
    assert((bits & !flag) & flag == 0) by (bit_vector);
    assert((bits | flag) & other == bits & other) by (bit_vector)
        requires
            flag & other == 0,
    ;
    assert((bits & !flag) & other == bits & other) by (bit_vector)
        requires
            flag & other == 0,
    ;
}

/// One compressed unit of a stream.
#[derive(Clone)]
pub struct Packet {
    pub data: Buffer,
    pub stream_index: usize,
    pub pts: Option<i64>,
    pub dts: Option<i64>,
    pub duration: i64,
    pub time_base: Rational,
    pub flags: PacketFlags,
}

impl Packet {
    pub fn new(data: Buffer, stream_index: usize, time_base: Rational) -> (p: Self)
        ensures
            p.data == data,
            p.stream_index == stream_index,
            p.pts is None,
            p.dts is None,
            p.duration == 0,
            p.time_base == time_base,
            p.flags@ == 0,
    {
        Packet {
            data,
            stream_index,
            pts: None,
            dts: None,
            duration: 0,
            time_base,
            flags: PacketFlags::empty(),
        }
    }
}

/// The version line printed by the command-line programs.
pub fn build_banner(program: &str) -> (s: String)
    ensures
        s@ == program@ + " version rustmpeg-0.1.0 (FFmpeg 9.0.1 compatibility target)"@,
{
    let mut s = program.to_owned();
    s.append(" version rustmpeg-0.1.0 (FFmpeg 9.0.1 compatibility target)");
    s
}

} // verus!

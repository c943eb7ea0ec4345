//! The byte-level model of caller-owned memory.
//!
//! Addresses are indices into one flat byte store.  The caller's buffers
//! live at addresses it chose; auxiliary allocations for lowered strings and
//! lists are appended at the end, aligned by padding, so an allocation never
//! disturbs an existing byte.  Multi-byte integers are stored little-endian.

use vstd::prelude::*;
use vstd::bytes::{
    spec_u16_from_le_bytes, spec_u16_to_le_bytes, spec_u32_from_le_bytes, spec_u32_to_le_bytes,
    spec_u64_from_le_bytes, spec_u64_to_le_bytes, u16_from_le_bytes, u16_to_le_bytes,
    u32_from_le_bytes, u32_to_le_bytes, u64_from_le_bytes, u64_to_le_bytes,
};

use crate::error::{Error, ErrorKind};
use crate::layout::{align_up, is_align, lemma_align_up};

verus! {

/// A flat, growable byte store standing for the host's memory.
pub struct Memory {
    bytes: Vec<u8>,
}

impl View for Memory {
    type V = Seq<u8>;

    closed spec fn view(&self) -> Seq<u8> {
        self.bytes@
    }
}

impl Memory {
    /// An empty memory.
    pub fn new() -> (r: Memory)
        ensures
            r@ == Seq::<u8>::empty(),
    {
        Memory { bytes: Vec::new() }
    }

    /// A zero-filled memory of `n` bytes, standing for a caller-owned
    /// buffer of that size at address 0.
    pub fn zeroed(n: usize) -> (r: Memory)
        ensures
            r@.len() == n,
            forall|i: int| 0 <= i < n ==> r@[i] == 0u8,
    {
        let mut bytes: Vec<u8> = Vec::new();
        while bytes.len() < n
            invariant
                bytes@.len() <= n,
                forall|i: int| 0 <= i < bytes@.len() ==> bytes@[i] == 0u8,
            decreases n - bytes@.len(),
        {
            bytes.push(0);
        }
        Memory { bytes }
    }

    /// Number of bytes in the memory.
    pub fn size(&self) -> (r: usize)
        ensures
            r == self@.len(),
    {
        self.bytes.len()
    }

    /// Reads one byte.
    pub fn read_u8(&self, a: usize) -> (r: u8)
        requires
            a < self@.len(),
        ensures
            r == self@[a as int],
    {
        self.bytes[a]
    }

    /// Writes one byte in place.
    pub fn write_u8(&mut self, a: usize, v: u8)
        requires
            a < old(self)@.len(),
        ensures
            final(self)@ == old(self)@.update(a as int, v),
    {
        self.bytes.set(a, v);
    }

    /// Copies `n` bytes starting at `a` out of the memory.
    pub fn read_bytes(&self, a: usize, n: usize) -> (r: Vec<u8>)
        requires
            a + n <= self@.len(),
        ensures
            r@ == self@.subrange(a as int, a as int + n as int),
    {
        let total = self.bytes.len();
        let mut r: Vec<u8> = Vec::new();
        let mut i: usize = 0;
        while i < n
            invariant
                i <= n,
                a + n <= self@.len(),
                self@.len() <= usize::MAX,
                r@ == self@.subrange(a as int, a as int + i as int),
            decreases n - i,
        {
            r.push(self.bytes[a + i]);
            i = i + 1;
            proof {
                assert(r@ =~= self@.subrange(a as int, a as int + i as int));
            }
        }
        r
    }

    /// Overwrites the bytes at `a .. a + v.len()`; every other byte keeps
    /// its value and the length does not change.
    pub fn write_bytes(&mut self, a: usize, v: &Vec<u8>)
        requires
            a + v@.len() <= old(self)@.len(),
        ensures
            final(self)@.len() == old(self)@.len(),
            forall|i: int|
                0 <= i < old(self)@.len() && !(a <= i < a + v@.len()) ==> final(self)@[i] == old(
                    self,
                )@[i],
            forall|i: int| a <= i < a + v@.len() ==> final(self)@[i] == v@[i - a],
    {
        let total = self.bytes.len();
        let mut i: usize = 0;
        while i < v.len()
            invariant
                i <= v@.len(),
                a + v@.len() <= self@.len(),
                self@.len() <= usize::MAX,
                self@.len() == old(self)@.len(),
                forall|j: int|
                    0 <= j < old(self)@.len() && !(a <= j < a + i) ==> self@[j] == old(self)@[j],
                forall|j: int| a <= j < a + i ==> self@[j] == v@[j - a],
            decreases v@.len() - i,
        {
            self.bytes.set(a + i, v[i]);
            i = i + 1;
        }
    }

    /// Reads a little-endian `u16` at `a`.
    pub fn read_u16(&self, a: usize) -> (r: u16)
        requires
            a + 2 <= self@.len(),
        ensures
            r == spec_u16_from_le_bytes(self@.subrange(a as int, a as int + 2)),
    {
        let b = self.read_bytes(a, 2);
        u16_from_le_bytes(b.as_slice())
    }

    /// Reads a little-endian `u32` at `a`.
    pub fn read_u32(&self, a: usize) -> (r: u32)
        requires
            a + 4 <= self@.len(),
        ensures
            r == spec_u32_from_le_bytes(self@.subrange(a as int, a as int + 4)),
    {
        let b = self.read_bytes(a, 4);
        u32_from_le_bytes(b.as_slice())
    }

    /// Reads a little-endian `u64` at `a`.
    pub fn read_u64(&self, a: usize) -> (r: u64)
        requires
            a + 8 <= self@.len(),
        ensures
            r == spec_u64_from_le_bytes(self@.subrange(a as int, a as int + 8)),
    {
        let b = self.read_bytes(a, 8);
        u64_from_le_bytes(b.as_slice())
    }

    /// Writes a little-endian `u16` at `a`.
    pub fn write_u16(&mut self, a: usize, v: u16)
        requires
            a + 2 <= old(self)@.len(),
        ensures
            final(self)@.len() == old(self)@.len(),
            forall|i: int|
                0 <= i < old(self)@.len() && !(a <= i < a + 2) ==> final(self)@[i] == old(self)@[i],
            final(self)@.subrange(a as int, a as int + 2) == spec_u16_to_le_bytes(v),
    {
        let b = u16_to_le_bytes(v);
        self.write_bytes(a, &b);
        proof {
            assert(self@.subrange(a as int, a as int + 2) =~= spec_u16_to_le_bytes(v));
        }
    }

    /// Writes a little-endian `u32` at `a`.
    pub fn write_u32(&mut self, a: usize, v: u32)
        requires
            a + 4 <= old(self)@.len(),
        ensures
            final(self)@.len() == old(self)@.len(),
            forall|i: int|
                0 <= i < old(self)@.len() && !(a <= i < a + 4) ==> final(self)@[i] == old(self)@[i],
            final(self)@.subrange(a as int, a as int + 4) == spec_u32_to_le_bytes(v),
    {
        let b = u32_to_le_bytes(v);
        self.write_bytes(a, &b);
        proof {
            assert(self@.subrange(a as int, a as int + 4) =~= spec_u32_to_le_bytes(v));
        }
    }

    /// Writes a little-endian `u64` at `a`.
    pub fn write_u64(&mut self, a: usize, v: u64)
        requires
            a + 8 <= old(self)@.len(),
        ensures
            final(self)@.len() == old(self)@.len(),
            forall|i: int|
                0 <= i < old(self)@.len() && !(a <= i < a + 8) ==> final(self)@[i] == old(self)@[i],
            final(self)@.subrange(a as int, a as int + 8) == spec_u64_to_le_bytes(v),
    {
        let b = u64_to_le_bytes(v);
        self.write_bytes(a, &b);
        proof {
            assert(self@.subrange(a as int, a as int + 8) =~= spec_u64_to_le_bytes(v));
        }
    }

    /// Allocates `size` zeroed bytes aligned to `align` at the end of the
    /// memory, padding as needed.  Nothing below the old end moves, so
    /// every earlier address stays valid and unchanged.
    pub fn allocate(&mut self, size: usize, align: usize) -> (r: Result<usize, Error>)
        requires
            is_align(align as int),
        ensures
            r is Ok <==> align_up(old(self)@.len() as int, align as int) + size
                <= usize::MAX as int,
            r matches Ok(addr) ==> {
                &&& addr as int == align_up(old(self)@.len() as int, align as int)
                &&& addr as int % align as int == 0
                &&& old(self)@.len() <= addr
                &&& final(self)@.len() == addr + size
                &&& forall|i: int| 0 <= i < old(self)@.len() ==> final(self)@[i] == old(self)@[i]
                &&& forall|i: int|
                    old(self)@.len() <= i < final(self)@.len() ==> final(self)@[i] == 0u8
            },
            r matches Err(e) ==> e.kind == ErrorKind::AllocFailed && final(self)@ == old(self)@,
    {
        proof {
            lemma_align_up(self@.len() as int, align as int);
        }
        let addr = match crate::layout::align_up_usize(self.bytes.len(), align) {
            Some(v) => v,
            None => {
                return Err(Error::new(ErrorKind::AllocFailed));
            },
        };
        let new_len = match addr.checked_add(size) {
            Some(v) => v,
            None => {
                return Err(Error::new(ErrorKind::AllocFailed));
            },
        };
        while self.bytes.len() < new_len
            invariant
                old(self)@.len() <= self@.len() <= new_len,
                forall|i: int| 0 <= i < old(self)@.len() ==> self@[i] == old(self)@[i],
                forall|i: int| old(self)@.len() <= i < self@.len() ==> self@[i] == 0u8,
            decreases new_len - self@.len(),
        {
            self.bytes.push(0);
        }
        Ok(addr)
    }
}

} // verus!

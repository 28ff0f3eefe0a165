use vstd::prelude::*;
use crate::buffer::{buffer_in, Buffer};

verus! {

/// A bitmap of one byte per entry over a buffer of the shared memory: an entry is set when
/// its byte is not 0.
pub struct Bitmap {
    buf: Buffer,
}

impl Bitmap {
    /// The buffer that holds the entries.
    pub closed spec fn buffer(&self) -> Buffer {
        self.buf
    }

    /// Whether entry `idx` is set in `mem`.
    pub open spec fn entry_set(&self, mem: Seq<u8>, idx: int) -> bool {
        mem[self.buffer()@.ptr + idx] != 0
    }

    /// Whether entry `idx` is set.
    pub fn is_true(&self, mem: &Vec<u8>, idx: u64) -> (r: bool)
        requires
            idx < self.buffer()@.len,
            buffer_in(self.buffer()@, mem.len() as int),
        ensures
            r == self.entry_set(mem@, idx as int),
    {
        self.buf.get_idx(mem, idx as usize) != 0
    }

    /// Sets entry `idx`.
    pub fn set(&mut self, mem: &mut Vec<u8>, idx: u64)
        requires
            idx < old(self).buffer()@.len,
            buffer_in(old(self).buffer()@, old(mem).len() as int),
        ensures
            final(self).buffer() == old(self).buffer(),
            final(mem)@ == old(mem)@.update(old(self).buffer()@.ptr + idx, 1u8),
    {
        self.buf.set_idx(mem, idx as usize, 1);
    }

    /// The bitmap over `buf`.
    pub fn new(buf: Buffer) -> (bm: Bitmap)
        ensures
            bm.buffer() == buf,
    {
        Bitmap { buf }
    }

    /// The number of entries.
    pub fn len(&self) -> (r: u64)
        ensures
            r == self.buffer()@.len,
    {
        self.buf.len()
    }

    /// The first entry that is not set, or `None` when all are set.
    pub fn find_free(&self, mem: &Vec<u8>) -> (r: Option<u64>)
        requires
            buffer_in(self.buffer()@, mem.len() as int),
        ensures
            match r {
                Some(idx) => {
                    &&& idx < self.buffer()@.len
                    &&& !self.entry_set(mem@, idx as int)
                    &&& forall|j: int| 0 <= j < idx ==> self.entry_set(mem@, j)
                },
                None => forall|j: int| 0 <= j < self.buffer()@.len ==> self.entry_set(mem@, j),
            },
    {
        let n = self.len();
        let mut idx: u64 = 0;
        while idx < n
            invariant
                n == self.buffer()@.len,
                idx <= n,
                buffer_in(self.buffer()@, mem.len() as int),
                forall|j: int| 0 <= j < idx ==> self.entry_set(mem@, j),
            decreases n - idx,
        {
            if !self.is_true(mem, idx) {
                return Some(idx);
            }
            idx = idx + 1;
        }
        None
    }
}

} // verus!

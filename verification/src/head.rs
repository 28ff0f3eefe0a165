use vstd::prelude::*;
use crate::bytes::{
    be_u32_at, be_u32_written, be_u64_at, be_u64_written, lemma_be_u32_written, lemma_be_u64_written,
    read_be_u32, read_be_u64, same_outside, write_be_u32, write_be_u64,
};

verus! {

// head: |end|read|--len--|----off----|
//       |1|1|-|-|--4--|----8----|
/// The number of bytes of a head in the shared memory.
pub const HEAD_SIZE: u64 = 16;

/// The life cycle of a head: free, then valid once allocated, then unvalid.
#[derive(Debug, Clone, Copy, PartialEq, Eq, Structural)]
pub enum HeadState {
    Free,
    Valid,
    Unvalid,
}

/// A head: the 16 bytes at address `ptr` of the shared memory that say where a piece of
/// data lies (`off`, `len`), whether it is the last piece (`end`), and whether it was read.
#[derive(Debug, Clone, Copy)]
pub struct Head {
    ptr: usize,
    state: HeadState,
}

/// The `end` flag that the head at `p` of `mem` holds.
pub open spec fn head_end(mem: Seq<u8>, p: int) -> bool {
    mem[p] == 1
}

/// The length that the head at `p` of `mem` holds.
pub open spec fn head_len(mem: Seq<u8>, p: int) -> u32 {
    be_u32_at(mem, p + 4)
}

/// The offset that the head at `p` of `mem` holds.
pub open spec fn head_off(mem: Seq<u8>, p: int) -> u64 {
    be_u64_at(mem, p + 8)
}

/// The three fields that the head at `p` of `mem` holds.
pub open spec fn head_fields(mem: Seq<u8>, p: int) -> (bool, u32, u64) {
    (head_end(mem, p), head_len(mem, p), head_off(mem, p))
}

/// Whether the head at `p` of `mem` is marked as read by the consumer.
pub open spec fn head_readed(mem: Seq<u8>, p: int) -> bool {
    mem[p + 1] == 0
}

/// The bool as the byte that the head stores.
pub open spec fn bool_byte(b: bool) -> u8 {
    if b { 1u8 } else { 0u8 }
}

/// `mem` after `end`, `len` and `off` are written into the head at `p`.
pub open spec fn head_written(mem: Seq<u8>, p: int, end: bool, len: u32, off: u64) -> Seq<u8> {
    be_u64_written(be_u32_written(mem.update(p, bool_byte(end)), p + 4, len), p + 8, off)
}

/// What is written into a head is what is read from it, and no byte outside the head
/// changes.
pub proof fn lemma_head_roundtrip(mem: Seq<u8>, p: int, end: bool, len: u32, off: u64)
    requires
        0 <= p,
        p + HEAD_SIZE <= mem.len(),
    ensures
        head_fields(head_written(mem, p, end, len, off), p) == (end, len, off),
        same_outside(mem, head_written(mem, p, end, len, off), p, HEAD_SIZE as int),
        head_written(mem, p, end, len, off)[p + 1] == mem[p + 1],
{
    let m1 = mem.update(p, bool_byte(end));
    let m2 = be_u32_written(m1, p + 4, len);
    let m3 = be_u64_written(m2, p + 8, off);
    lemma_be_u32_written(m1, p + 4, len);
    lemma_be_u64_written(m2, p + 8, off);
    assert(m3[p] == m2[p]);
    assert(be_u32_at(m3, p + 4) == be_u32_at(m2, p + 4));
}

impl Head {
    /// The address of the head in the shared memory.
    pub closed spec fn addr(&self) -> int {
        self.ptr as int
    }

    /// The state of the head.
    pub closed spec fn spec_state(&self) -> HeadState {
        self.state
    }

    /// The head at the same address, in state `st`.
    pub closed spec fn with_state(&self, st: HeadState) -> Head {
        Head { ptr: self.ptr, state: st }
    }

    /// The address and state of a head are all it is.
    pub proof fn lemma_with_state(&self, st: HeadState)
        ensures
            self.with_state(st).addr() == self.addr(),
            self.with_state(st).spec_state() == st,
            self.with_state(self.spec_state()) == *self,
            forall|st2: HeadState| #[trigger] self.with_state(st).with_state(st2) == self.with_state(st2),
    {
    }

    /// Whether the head is free.
    pub open spec fn is_free_spec(&self) -> bool {
        self.spec_state() == HeadState::Free
    }

    /// Whether the head lies inside a memory of `len` bytes.
    pub open spec fn fits(&self, len: int) -> bool {
        0 <= self.addr() && self.addr() + HEAD_SIZE <= len
    }

    /// The head at address `ptr`, free.
    pub fn from_ptr(ptr: usize) -> (head: Head)
        ensures
            head.addr() == ptr,
            head.spec_state() == HeadState::Free,
    {
        Head { ptr, state: HeadState::Free }
    }

    /// Writes `end`, `len` and `off` into the head.
    pub fn set(&mut self, mem: &mut Vec<u8>, end: bool, len: u32, off: u64)
        requires
            old(self).fits(old(mem).len() as int),
        ensures
            *final(self) == *old(self),
            final(mem)@ == head_written(old(mem)@, old(self).addr(), end, len, off),
            head_fields(final(mem)@, old(self).addr()) == (end, len, off),
            same_outside(old(mem)@, final(mem)@, old(self).addr(), HEAD_SIZE as int),
    {
        let p = self.ptr;
        mem[p] = if end { 1u8 } else { 0u8 };
        write_be_u32(mem, p + 4, len);
        write_be_u64(mem, p + 8, off);
        proof {
            lemma_head_roundtrip(old(mem)@, p as int, end, len, off);
        }
    }

    /// Writes the `end` flag into the head.
    pub fn set_end(&mut self, mem: &mut Vec<u8>, end: bool)
        requires
            old(self).fits(old(mem).len() as int),
        ensures
            *final(self) == *old(self),
            final(mem)@ == old(mem)@.update(old(self).addr(), bool_byte(end)),
    {
        let p = self.ptr;
        mem[p] = if end { 1u8 } else { 0u8 };
    }

    /// The three fields of the head: `end`, `len` and `off`.
    pub fn get(&self, mem: &Vec<u8>) -> (r: (bool, u32, u64))
        requires
            self.fits(mem.len() as int),
        ensures
            r == head_fields(mem@, self.addr()),
    {
        (self.get_end(mem), self.get_len(mem), self.get_off(mem))
    }

    /// The length field of the head.
    pub fn get_len(&self, mem: &Vec<u8>) -> (r: u32)
        requires
            self.fits(mem.len() as int),
        ensures
            r == head_len(mem@, self.addr()),
    {
        read_be_u32(mem, self.ptr + 4)
    }

    /// The offset field of the head.
    pub fn get_off(&self, mem: &Vec<u8>) -> (r: u64)
        requires
            self.fits(mem.len() as int),
        ensures
            r == head_off(mem@, self.addr()),
    {
        read_be_u64(mem, self.ptr + 8)
    }

    /// The `end` flag of the head.
    pub fn get_end(&self, mem: &Vec<u8>) -> (r: bool)
        requires
            self.fits(mem.len() as int),
        ensures
            r == head_end(mem@, self.addr()),
    {
        mem[self.ptr] == 1
    }

    /// Whether the consumer has read the data of the head.
    pub fn is_readed(&self, mem: &Vec<u8>) -> (r: bool)
        requires
            self.fits(mem.len() as int),
        ensures
            r == head_readed(mem@, self.addr()),
    {
        mem[self.ptr + 1] == 0
    }

    /// Marks the data of the head as read.
    pub fn readed(&mut self, mem: &mut Vec<u8>)
        requires
            old(self).fits(old(mem).len() as int),
        ensures
            *final(self) == *old(self),
            final(mem)@ == old(mem)@.update(old(self).addr() + 1, 0u8),
    {
        let p = self.ptr;
        mem[p + 1] = 0u8;
    }

    /// Whether the head is free.
    pub fn is_free(&self) -> (r: bool)
        ensures
            r == (self.spec_state() == HeadState::Free),
    {
        self.state == HeadState::Free
    }

    /// Marks the head free.
    pub fn set_free(&mut self)
        ensures
            *final(self) == old(self).with_state(HeadState::Free),
            final(self).addr() == old(self).addr(),
            final(self).spec_state() == HeadState::Free,
    {
        self.state = HeadState::Free;
    }

    /// Marks the head allocated: it is no longer free and its data is not yet read.
    pub fn allocated(&mut self, mem: &mut Vec<u8>)
        requires
            old(self).fits(old(mem).len() as int),
        ensures
            *final(self) == old(self).with_state(HeadState::Valid),
            final(self).addr() == old(self).addr(),
            final(self).spec_state() == HeadState::Valid,
            final(mem)@ == old(mem)@.update(old(self).addr() + 1, 1u8),
    {
        self.state = HeadState::Valid;
        let p = self.ptr;
        mem[p + 1] = 1u8;
    }

    /// Whether the head is valid: allocated, or its data read.
    pub fn is_valid(&self, mem: &Vec<u8>) -> (r: bool)
        requires
            self.fits(mem.len() as int),
        ensures
            r == (self.spec_state() == HeadState::Valid || mem@[self.addr() + 1] == 0),
    {
        self.state == HeadState::Valid || mem[self.ptr + 1] == 0
    }

    /// Whether the head is unvalid: marked so, or its data not yet read.
    pub fn is_unvalid(&self, mem: &Vec<u8>) -> (r: bool)
        requires
            self.fits(mem.len() as int),
        ensures
            r == (self.spec_state() == HeadState::Unvalid || mem@[self.addr() + 1] == 1),
    {
        self.state == HeadState::Unvalid || mem[self.ptr + 1] == 1
    }

    /// Marks the head valid.
    pub fn set_valid(&mut self)
        ensures
            final(self).addr() == old(self).addr(),
            final(self).spec_state() == HeadState::Valid,
    {
        self.state = HeadState::Valid;
    }

    /// Marks the head unvalid, also in the shared memory.
    pub fn set_unvalid(&mut self, mem: &mut Vec<u8>)
        requires
            old(self).fits(old(mem).len() as int),
        ensures
            final(self).addr() == old(self).addr(),
            final(self).spec_state() == HeadState::Unvalid,
            final(mem)@ == old(mem)@.update(old(self).addr() + 1, 1u8),
    {
        self.state = HeadState::Unvalid;
        let p = self.ptr;
        mem[p + 1] = 1u8;
    }

    /// The number of bytes of a head.
    pub fn size() -> (r: u64)
        ensures
            r == HEAD_SIZE,
    {
        HEAD_SIZE
    }

    /// The address of the head.
    pub fn as_ptr(&self) -> (r: usize)
        ensures
            r == self.addr(),
    {
        self.ptr
    }

    /// A copy of the 16 bytes of the head.
    pub fn as_mut_slice(&self, mem: &Vec<u8>) -> (r: Vec<u8>)
        requires
            self.fits(mem.len() as int),
        ensures
            r@ == mem@.subrange(self.addr(), self.addr() + HEAD_SIZE),
    {
        let mut r: Vec<u8> = Vec::new();
        let mut i: usize = 0;
        while i < 16
            invariant
                self.fits(mem.len() as int),
                i <= 16,
                r@ == mem@.subrange(self.addr(), self.addr() + i),
            decreases 16 - i,
        {
            r.push(mem[self.ptr + i]);
            i = i + 1;
        }
        r
    }
}

} // verus!

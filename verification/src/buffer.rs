use vstd::prelude::*;

verus! {

/// What a buffer describes: `len` bytes at address `ptr` of the shared memory, which are the
/// bytes at global offset `offset` of the cache.
pub struct BufferView {
    pub offset: u64,
    pub ptr: usize,
    pub len: u64,
}

/// A piece of the shared memory: its address, its length, and its offset in the cache.
#[derive(Debug, Clone, Copy, PartialEq, Eq, Structural)]
pub struct Buffer {
    // the offset is global for total cache
    offset: u64,
    // the addr is relative address: ptr = start_ptr + offset
    ptr: usize,
    len: u64,
}

impl View for Buffer {
    type V = BufferView;

    closed spec fn view(&self) -> BufferView {
        BufferView { offset: self.offset, ptr: self.ptr, len: self.len }
    }
}

/// Whether the buffer lies inside a memory of `mem_len` bytes.
pub open spec fn buffer_in(b: BufferView, mem_len: int) -> bool {
    b.ptr + b.len <= mem_len
}

/// `mem` with `data` written from index `at`.
pub open spec fn bytes_written(mem: Seq<u8>, at: int, data: Seq<u8>) -> Seq<u8> {
    Seq::new(
        mem.len(),
        |j: int|
            if at <= j < at + data.len() {
                data[j - at]
            } else {
                mem[j]
            },
    )
}

impl Buffer {
    /// The buffer of `len` bytes at address `ptr`, at global offset `offset`.
    pub fn new(ptr: usize, offset: u64, len: u64) -> (b: Buffer)
        ensures
            b@ == (BufferView { offset, ptr, len }),
    {
        Buffer { offset, ptr, len }
    }

    /// The global offset of the buffer.
    pub fn offset(&self) -> (r: u64)
        ensures
            r == self@.offset,
    {
        self.offset
    }

    /// The length of the buffer.
    pub fn len(&self) -> (r: u64)
        ensures
            r == self@.len,
    {
        self.len
    }

    /// The address of the buffer.
    pub fn as_ptr(&self) -> (r: usize)
        ensures
            r == self@.ptr,
    {
        self.ptr
    }

    /// The address of the buffer.
    pub fn as_mut_ptr(&self) -> (r: usize)
        ensures
            r == self@.ptr,
    {
        self.ptr
    }

    /// A copy of the bytes of the buffer.
    pub fn as_slice(&self, mem: &Vec<u8>) -> (r: Vec<u8>)
        requires
            buffer_in(self@, mem.len() as int),
        ensures
            r@ == mem@.subrange(self@.ptr as int, self@.ptr + self@.len),
    {
        let mut r: Vec<u8> = Vec::new();
        let mut i: u64 = 0;
        while i < self.len
            invariant
                buffer_in(self@, mem.len() as int),
                i <= self.len,
                r@ == mem@.subrange(self@.ptr as int, self@.ptr + i),
            decreases self.len - i,
        {
            r.push(mem[self.ptr + i as usize]);
            i = i + 1;
        }
        r
    }

    /// Writes `data` into the buffer, `off` bytes after its start.
    pub fn copy_from_slice(&mut self, mem: &mut Vec<u8>, data: &[u8], off: usize)
        requires
            data@.len() <= old(self)@.len,
            old(self)@.ptr + off + data@.len() <= old(mem).len(),
        ensures
            *final(self) == *old(self),
            final(mem)@ == bytes_written(old(mem)@, old(self)@.ptr + off, data@),
    {
        let at = self.ptr + off;
        let mut i: usize = 0;
        proof {
            assert(bytes_written(old(mem)@, at as int, data@.subrange(0, 0)) =~= old(mem)@);
        }
        while i < data.len()
            invariant
                at + data@.len() <= mem.len(),
                at == old(self)@.ptr + off,
                i <= data@.len(),
                mem@ == bytes_written(old(mem)@, at as int, data@.subrange(0, i as int)),
            decreases data@.len() - i,
        {
            mem[at + i] = data[i];
            i = i + 1;
            proof {
                assert(mem@ =~= bytes_written(old(mem)@, at as int, data@.subrange(0, i as int)));
            }
        }
        proof {
            assert(data@.subrange(0, data@.len() as int) =~= data@);
        }
    }

    /// The byte `idx` of the buffer.
    pub fn get_idx(&self, mem: &Vec<u8>, idx: usize) -> (r: u8)
        requires
            self@.ptr + idx < mem.len(),
        ensures
            r == mem@[self@.ptr + idx],
    {
        mem[self.ptr + idx]
    }

    /// Writes `byte` as the byte `idx` of the buffer.
    pub fn set_idx(&mut self, mem: &mut Vec<u8>, idx: usize, byte: u8)
        requires
            old(self)@.ptr + idx < old(mem).len(),
        ensures
            *final(self) == *old(self),
            final(mem)@ == old(mem)@.update(old(self)@.ptr + idx, byte),
    {
        let p = self.ptr + idx;
        mem[p] = byte;
    }

    /// The buffer of `len` bytes at global offset `off`, inside the memory this buffer
    /// starts.
    pub fn allocate(&mut self, off: u64, len: u64) -> (r: Buffer)
        requires
            old(self)@.offset <= off,
            old(self)@.ptr + (off - old(self)@.offset) <= usize::MAX,
        ensures
            *final(self) == *old(self),
            r@ == (BufferView {
                offset: off,
                ptr: (old(self)@.ptr + (off - old(self)@.offset)) as usize,
                len,
            }),
    {
        Buffer::new(self.ptr + (off - self.offset) as usize, off, len)
    }
}

} // verus!

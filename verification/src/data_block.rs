use vstd::prelude::*;
use crate::buffer::bytes_written;
use crate::head::{head_written, Head, HEAD_SIZE};

verus! {

/// What a piece of data describes: `len` bytes at address `ptr`, at global offset `off`.
pub struct DataView {
    pub ptr: usize,
    pub len: u64,
    pub off: u64,
}

/// A piece of the data area of the cache.
#[derive(Debug, Clone, Copy, PartialEq, Eq, Structural)]
pub struct Data {
    // the ptr is the point of data start, that is the global ptr + off
    ptr: usize,
    // the size of data is less than 4GB
    len: u64,
    off: u64,
}

impl View for Data {
    type V = DataView;

    closed spec fn view(&self) -> DataView {
        DataView { ptr: self.ptr, len: self.len, off: self.off }
    }
}

/// Whether the piece lies inside a memory of `mem_len` bytes.
pub open spec fn data_in(d: DataView, mem_len: int) -> bool {
    d.ptr + d.len <= mem_len
}

/// The piece that is left of `d` once its first `occupy` bytes are taken.
pub open spec fn remain_of(d: DataView, occupy: u64) -> Option<DataView> {
    if occupy == d.len {
        None
    } else {
        Some(
            DataView {
                ptr: (d.ptr + occupy) as usize,
                len: (d.len - occupy) as u64,
                off: (d.off + occupy) as u64,
            },
        )
    }
}

impl Data {
    /// The piece of `len` bytes at address `ptr` and global offset `off`.
    pub fn new(ptr: usize, off: u64, len: u64) -> (d: Data)
        ensures
            d@ == (DataView { ptr, len, off }),
    {
        Data { ptr, len, off }
    }

    /// The piece of `len` bytes at global offset `off`, placed by the address of this piece.
    pub fn allocate(&mut self, off: u64, len: u64) -> (r: Data)
        requires
            0 <= old(self)@.ptr + off - old(self)@.off <= usize::MAX,
        ensures
            *final(self) == *old(self),
            r@ == (DataView { ptr: (old(self)@.ptr + off - old(self)@.off) as usize, len, off }),
    {
        let ptr = if off >= self.off {
            self.ptr + (off - self.off) as usize
        } else {
            self.ptr - (self.off - off) as usize
        };
        Data { ptr, off, len }
    }

    /// The head that takes the last bytes of the piece.
    pub fn tail_head(&mut self) -> (h: Head)
        requires
            old(self)@.len >= HEAD_SIZE,
            old(self)@.ptr + old(self)@.len <= usize::MAX,
        ensures
            *final(self) == *old(self),
            h.addr() == old(self)@.ptr + old(self)@.len - HEAD_SIZE,
            h.is_free_spec(),
    {
        Head::from_ptr(self.ptr + (self.len - HEAD_SIZE) as usize)
    }

    /// A copy of the bytes of the piece.
    pub fn as_slice(&mut self, mem: &Vec<u8>) -> (r: Vec<u8>)
        requires
            data_in(old(self)@, mem.len() as int),
        ensures
            *final(self) == *old(self),
            r@ == mem@.subrange(old(self)@.ptr as int, old(self)@.ptr + old(self)@.len),
    {
        let mut r: Vec<u8> = Vec::new();
        let mut i: u64 = 0;
        while i < self.len
            invariant
                data_in(self@, mem.len() as int),
                i <= self.len,
                r@ == mem@.subrange(self@.ptr as int, self@.ptr + i),
            decreases self.len - i,
        {
            r.push(mem[self.ptr + i as usize]);
            i = i + 1;
        }
        r
    }

    /// The address of the piece.
    pub fn as_mut_ptr(&mut self) -> (r: usize)
        ensures
            *final(self) == *old(self),
            r == old(self)@.ptr,
    {
        self.ptr
    }

    /// The length of the piece.
    pub fn len(&self) -> (r: u64)
        ensures
            r == self@.len,
    {
        self.len
    }

    /// The global offset of the piece.
    pub fn off(&self) -> (r: u64)
        ensures
            r == self@.off,
    {
        self.off
    }

    /// Copies the 16 bytes of `head` to the start of the piece.
    pub fn copy_head(&mut self, mem: &mut Vec<u8>, head: Head)
        requires
            old(self)@.len > HEAD_SIZE,
            data_in(old(self)@, old(mem).len() as int),
            head.fits(old(mem).len() as int),
        ensures
            *final(self) == *old(self),
            final(mem)@ == bytes_written(
                old(mem)@,
                old(self)@.ptr as int,
                old(mem)@.subrange(head.addr(), head.addr() + HEAD_SIZE),
            ),
    {
        let bytes = head.as_mut_slice(mem);
        let mut i: usize = 0;
        let ghost src = old(mem)@.subrange(head.addr(), head.addr() + HEAD_SIZE);
        proof {
            assert(bytes_written(old(mem)@, self@.ptr as int, src.subrange(0, 0)) =~= old(mem)@);
            assert(bytes@ == src);
            assert(src.len() == 16);
        }
        while i < 16
            invariant
                bytes@ == src,
                src.len() == 16,
                self@ == old(self)@,
                i <= 16,
                data_in(self@, mem.len() as int),
                self@.len > HEAD_SIZE,
                mem@ == bytes_written(old(mem)@, self@.ptr as int, src.subrange(0, i as int)),
            decreases 16 - i,
        {
            mem[self.ptr + i] = bytes[i];
            i = i + 1;
            proof {
                assert(mem@ =~= bytes_written(old(mem)@, self@.ptr as int, src.subrange(0, i as int)));
            }
        }
        proof {
            assert(src.subrange(0, 16) =~= src);
        }
    }

    /// The piece that is left once its first `occupy_size` bytes are taken, or `None` when
    /// nothing is left.
    pub fn remain(&mut self, occupy_size: u64) -> (r: Option<Data>)
        requires
            occupy_size <= old(self)@.len,
            old(self)@.ptr + old(self)@.len <= usize::MAX,
            old(self)@.off + old(self)@.len <= u64::MAX,
        ensures
            *final(self) == *old(self),
            match r {
                Some(d) => remain_of(old(self)@, occupy_size) == Some(d@),
                None => remain_of(old(self)@, occupy_size) is None,
            },
    {
        if occupy_size == self.len {
            return None;
        }
        Some(Data { ptr: self.ptr + occupy_size as usize, len: self.len - occupy_size, off: self.off + occupy_size })
    }
}

/// A block being written: the head that describes it, the piece of data it may take, and
/// whether the head still lies elsewhere and must be copied to the front of the data first.
#[derive(Debug, Clone, Copy)]
pub struct DataBlock {
    pub head: Head,
    pub data: Data,
    // if it's true, we should transfer the data in head to data
    pub transfer: bool,
}

/// The number of bytes a block can take for the user.
pub open spec fn block_size(b: DataBlock) -> int {
    if b.transfer {
        b.data@.len - HEAD_SIZE
    } else {
        b.data@.len as int
    }
}

/// The shared memory after the block takes `size` bytes: the head is copied to the front of
/// the data if it must be, and then records the bytes taken.
pub open spec fn occupied_memory(mem: Seq<u8>, b: DataBlock, size: u64) -> Seq<u8> {
    let copied = if b.transfer {
        bytes_written(mem, b.data@.ptr as int, mem.subrange(b.head.addr(), b.head.addr() + HEAD_SIZE))
    } else {
        mem
    };
    head_written(
        copied,
        b.head.addr(),
        false,
        (if b.transfer { size + HEAD_SIZE } else { size as int }) as u32,
        b.data@.off,
    )
}

impl DataBlock {
    /// The number of bytes the block can take for the user.
    pub fn size(&self) -> (r: u64)
        requires
            self.transfer ==> self.data@.len >= HEAD_SIZE,
        ensures
            r == block_size(*self),
    {
        if self.transfer {
            self.data.len() - HEAD_SIZE
        } else {
            self.data.len()
        }
    }

    /// The address of the first byte the user may write.
    pub fn ptr(&mut self) -> (r: usize)
        requires
            old(self).data@.ptr + HEAD_SIZE <= usize::MAX,
        ensures
            *final(self) == *old(self),
            r == old(self).data@.ptr + (if old(self).transfer { HEAD_SIZE as int } else { 0 }),
    {
        let offset: usize = if self.transfer { HEAD_SIZE as usize } else { 0 };
        self.data.as_mut_ptr() + offset
    }

    /// A copy of the bytes the user may write.
    pub fn as_mut_slice(&mut self, mem: &Vec<u8>) -> (r: Vec<u8>)
        requires
            old(self).transfer ==> old(self).data@.len >= HEAD_SIZE,
            data_in(old(self).data@, mem.len() as int),
        ensures
            *final(self) == *old(self),
            r@ == mem@.subrange(
                old(self).data@.ptr + old(self).data@.len - block_size(*old(self)),
                old(self).data@.ptr + old(self).data@.len,
            ),
    {
        let offset: usize = if self.transfer { HEAD_SIZE as usize } else { 0 };
        let start = self.data.as_mut_ptr() + offset;
        let n = self.size();
        let mut r: Vec<u8> = Vec::new();
        let mut i: u64 = 0;
        while i < n
            invariant
                n == block_size(*self),
                start + n == self.data@.ptr + self.data@.len,
                start + n <= mem.len(),
                i <= n,
                r@ == mem@.subrange(start as int, start + i),
            decreases n - i,
        {
            r.push(mem[start + i as usize]);
            i = i + 1;
        }
        r
    }

    /// Takes `size` bytes of the block for the user: copies the head to the front of the data
    /// if it must, records the bytes taken in the head, and returns the block of what is left
    /// of the data, which shares the head; `None` when the data is used up. Taking nothing
    /// leaves everything as it is.
    pub fn occupy(&mut self, mem: &mut Vec<u8>, size: usize) -> (r: Option<DataBlock>)
        requires
            old(self).head.fits(old(mem).len() as int),
            data_in(old(self).data@, old(mem).len() as int),
            old(self).transfer ==> old(self).data@.len > HEAD_SIZE,
            size + (if old(self).transfer { HEAD_SIZE as int } else { 0 }) <= old(self).data@.len,
            old(self).data@.ptr + old(self).data@.len <= usize::MAX,
            old(self).data@.off + old(self).data@.len <= u64::MAX,
        ensures
            *final(self) == *old(self),
            size == 0 ==> final(mem)@ == old(mem)@ && r == Some(*old(self)),
            size != 0 ==> {
                let taken = (if old(self).transfer { size + HEAD_SIZE } else { size as int }) as u64;
                &&& final(mem)@ == occupied_memory(old(mem)@, *old(self), size as u64)
                &&& match r {
                    Some(b) => remain_of(old(self).data@, taken) == Some(b.data@) && b.head
                        == old(self).head && !b.transfer,
                    None => remain_of(old(self).data@, taken) is None,
                }
            },
    {
        if size == 0 {
            return Some(*self);
        }
        // lazy copy head to the front of the block
        if self.transfer {
            self.data.copy_head(mem, self.head);
        }
        // write head the meta information
        let mut size = size as u64;
        if self.transfer {
            size += HEAD_SIZE;
        }
        self.head.set(mem, false, size as u32, self.data.off());
        // remain some data, share the same head
        if let Some(data) = self.data.remain(size) {
            return Some(DataBlock { head: self.head, data, transfer: false });
        }
        None
    }

    /// Marks the head as the last one of its data.
    pub fn finish(&mut self, mem: &mut Vec<u8>)
        requires
            old(self).head.fits(old(mem).len() as int),
        ensures
            *final(self) == *old(self),
            final(mem)@ == old(mem)@.update(old(self).head.addr(), 1u8),
    {
        self.head.set_end(mem, true);
    }

    /// The piece of data of the block.
    pub fn data(&mut self) -> (r: Data)
        ensures
            *final(self) == *old(self),
            r == old(self).data,
    {
        self.data
    }
}

} // verus!

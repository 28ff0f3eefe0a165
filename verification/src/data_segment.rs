use vstd::prelude::*;
use crate::buffer::{Buffer, BufferView};
use crate::freelist::{inserted, largest_taken, range_is_free_of, FreeList};

verus! {

/// The data area of the cache: a buffer, and a free list of the zones of it that are free.
pub struct DataSegment {
    data: Buffer,
    free_list: FreeList,
}

/// Every zone recorded in `by_start` lies inside `[lo, hi)`.
pub open spec fn zones_inside(by_start: Map<u64, u64>, lo: int, hi: int) -> bool {
    forall|s: u64| #[trigger] by_start.contains_key(s) ==> lo <= s && by_start[s] <= hi
}

impl DataSegment {
    /// The buffer of the whole data area.
    pub closed spec fn data_buffer(&self) -> Buffer {
        self.data
    }

    /// The free list of the data area.
    pub closed spec fn free_list(&self) -> FreeList {
        self.free_list
    }

    /// The data segment is well formed: its free zones lie inside it.
    pub open spec fn wf(&self) -> bool {
        &&& self.free_list().wf()
        &&& self.data_buffer()@.ptr + self.data_buffer()@.len <= usize::MAX
        &&& self.data_buffer()@.offset + self.data_buffer()@.len <= u64::MAX
        &&& zones_inside(
            self.free_list().by_start(),
            self.data_buffer()@.offset as int,
            self.data_buffer()@.offset + self.data_buffer()@.len,
        )
    }

    /// The data area of `len` bytes at address `ptr` and global offset `offset`, all free.
    pub fn new(ptr: usize, offset: u64, len: u64) -> (ds: DataSegment)
        requires
            offset + len <= u64::MAX,
            ptr + len <= usize::MAX,
        ensures
            ds.wf(),
            ds.data_buffer()@ == (BufferView { offset, ptr, len }),
            ds.free_list().min_len() == 0,
            ds.free_list().by_start() == map![offset => (offset + len) as u64],
            ds.free_list().by_end() == map![(offset + len) as u64 => offset],
            ds.free_list().order() == seq![(offset, (offset + len) as u64)],
    {
        DataSegment::with_min_len(ptr, offset, len, 0)
    }

    /// The data area of `len` bytes at address `ptr` and global offset `offset`, all free,
    /// that hands out only zones longer than `min_len`.
    pub fn with_min_len(ptr: usize, offset: u64, len: u64, min_len: u64) -> (ds: DataSegment)
        requires
            offset + len <= u64::MAX,
            ptr + len <= usize::MAX,
        ensures
            ds.wf(),
            ds.data_buffer()@ == (BufferView { offset, ptr, len }),
            ds.free_list().min_len() == min_len,
            ds.free_list().by_start() == map![offset => (offset + len) as u64],
            ds.free_list().by_end() == map![(offset + len) as u64 => offset],
            ds.free_list().order() == seq![(offset, (offset + len) as u64)],
    {
        let mut free_list = FreeList::with_min_len(min_len);
        free_list.insert(offset, len);
        let ds = DataSegment { data: Buffer::new(ptr, offset, len), free_list };
        proof {
            assert(ds.free_list().by_start() =~= map![offset => (offset + len) as u64]);
            assert(ds.free_list().by_end() =~= map![(offset + len) as u64 => offset]);
            assert(ds.free_list().order() =~= seq![(offset, (offset + len) as u64)]);
        }
        ds
    }

    /// Hands out the largest free zone that the free list gives, as a buffer.
    pub fn allocate(&mut self) -> (r: Option<Buffer>)
        requires
            old(self).wf(),
        ensures
            final(self).wf(),
            final(self).data_buffer() == old(self).data_buffer(),
            match r {
                Some(b) => {
                    &&& largest_taken(
                        old(self).free_list(),
                        final(self).free_list(),
                        Some((b@.offset, b@.len)),
                    )
                    &&& b@.ptr == old(self).data_buffer()@.ptr + (b@.offset - old(
                        self,
                    ).data_buffer()@.offset)
                },
                None => largest_taken(old(self).free_list(), final(self).free_list(), None),
            },
    {
        let ret = self.free_list.get();
        if let Some((off, len)) = ret {
            return Some(self.data.allocate(off, len));
        }
        None
    }

    /// Whether `[off, off + len)` lies inside the data area and overlaps no free zone, so
    /// that it can be given back.
    pub fn can_free(&self, off: u64, len: u64) -> (r: bool)
        requires
            self.wf(),
        ensures
            r == (self.data_buffer()@.offset <= off && off + len <= self.data_buffer()@.offset
                + self.data_buffer()@.len && range_is_free_of(
                self.free_list().by_start(),
                off as int,
                off + len,
            )),
    {
        let hi = self.data.offset() + self.data.len();
        if off < self.data.offset() || off > hi {
            return false;
        }
        if len > hi - off {
            return false;
        }
        self.free_list.is_free_of(off, off + len)
    }

    /// Gives the zone `[off, off + len)` back to the free list.
    pub fn free(&mut self, off: u64, len: u64)
        requires
            old(self).wf(),
            old(self).data_buffer()@.offset <= off,
            off + len <= old(self).data_buffer()@.offset + old(self).data_buffer()@.len,
            range_is_free_of(old(self).free_list().by_start(), off as int, off + len),
        ensures
            final(self).wf(),
            final(self).data_buffer() == old(self).data_buffer(),
            inserted(old(self).free_list(), final(self).free_list(), off, len),
    {
        proof {
            old(self).free_list().lemma_wf();
        }
        self.free_list.insert(off, len);
        proof {
            let sh = old(self).free_list().by_start();
            let eh = old(self).free_list().by_end();
            if eh.contains_key(off) {
                assert(sh.contains_key(eh[off]));
            }
        }
    }

    /// The buffer of the whole data area.
    pub fn data(&mut self) -> (r: Buffer)
        ensures
            *final(self) == *old(self),
            r == old(self).data_buffer(),
    {
        self.data
    }
}

} // verus!

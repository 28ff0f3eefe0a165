use vstd::prelude::*;
use crate::buffer::{bytes_written, Buffer};
use crate::data_block::{block_size, data_in, occupied_memory, remain_of, Data, DataBlock, DataView};
use crate::data_segment::DataSegment;
use crate::chain::{lemma_read_more, lemma_walk_extend, lemma_walk_frame, lemma_walk_region_in, lemma_walk_then_read, read_chain, walk, walk_region};
use crate::freelist::{
    inserted, largest_taken, maps_consistent, merged_end, merged_start, range_is_free_of, FreeList,
};
use crate::head::{head_fields, head_written, lemma_head_roundtrip, Head, HeadState, HEAD_SIZE};
use crate::head_segment::{freed_heads, heads_freed, kept_heads, HeadSegment, REF_LEVELS};
use crate::read_chains::{
    entry_addr, lemma_free_keeps_apart, lemma_head_taken_keeps_apart, lemma_read_byte, lemma_reads_frame,
    lemma_unread_apart, lemma_zone_taken, read_bytes, read_entry, reads_apart,
};

verus! {

/// The number of heads of a cache.
pub const HEAD_NUM: u64 = 8;

/// The shared-memory cache: a memory of `capacity` bytes whose first bytes hold the heads
/// and whose rest is the data area. Addresses are indices into the memory, so the memory
/// starts at address 0 and an address equals its global offset.
pub struct Cache {
    name: String,
    capacity: usize,
    head_segment: HeadSegment,
    data_segment: DataSegment,
    mem: Vec<u8>,
}

/// `d` is a piece of the data area of `c` that is longer than a head and that no free zone
/// of `c` overlaps: a piece handed out for data.
pub open spec fn handed_out(c: Cache, d: DataView) -> bool {
    &&& d.ptr == d.off
    &&& d.len > HEAD_SIZE
    &&& c.data_area().data_buffer()@.offset <= d.off
    &&& d.off + d.len <= c.data_area().data_buffer()@.offset + c.data_area().data_buffer()@.len
    &&& range_is_free_of(c.data_area().free_list().by_start(), d.off as int, d.off + d.len)
}

/// No free zone of `c` is longer than a head.
pub open spec fn no_usable_zone(c: Cache) -> bool {
    forall|s: u64| #[trigger]
        c.data_area().free_list().by_start().contains_key(s) ==> c.data_area().free_list().by_start()[s]
            - s <= HEAD_SIZE
}

/// The bytes that the free zones of `fl` cover.
pub open spec fn free_bytes(fl: FreeList) -> Set<int> {
    Set::new(
        |x: int|
            exists|s: u64|
                #[trigger] fl.by_start().contains_key(s) && s <= x && x < fl.by_start()[s],
    )
}

/// The fields `(end, len, off)` of the `k`-th head of the chain whose first head has the
/// fields `f`: a piece `[off, off + len)` that is not marked last and holds a head is followed
/// by the piece that the head in its last bytes names.
pub open spec fn chain_fields(mem: Seq<u8>, f: (bool, u32, u64), k: nat) -> Option<(bool, u32, u64)>
    decreases k,
{
    if k == 0 {
        Some(f)
    } else {
        match chain_fields(mem, f, (k - 1) as nat) {
            Some(g) => if g.0 || (g.1 as int) < HEAD_SIZE {
                None
            } else {
                Some(head_fields(mem, g.2 + g.1 - HEAD_SIZE))
            },
            None => None,
        }
    }
}

/// Byte `x` lies in the `k`-th piece of the chain of the head at `p`.
pub open spec fn in_piece(mem: Seq<u8>, p: int, k: nat, x: int) -> bool {
    match chain_fields(mem, head_fields(mem, p), k) {
        Some(g) => g.2 <= x && x < g.2 + g.1,
        None => false,
    }
}

/// The bytes of the first `n` pieces of the chain of the head at `p`.
pub open spec fn chain_bytes(mem: Seq<u8>, p: int, n: nat) -> Set<int> {
    Set::new(|x: int| exists|k: nat| k < n && #[trigger] in_piece(mem, p, k, x))
}

/// The bytes of the first `n` pieces of the chains of the heads of `hs`.
pub open spec fn chains_bytes(mem: Seq<u8>, hs: Seq<Head>, n: nat) -> Set<int> {
    Set::new(
        |x: int|
            exists|i: int| 0 <= i < hs.len() && #[trigger] chain_bytes(mem, hs[i].addr(), n).contains(x),
    )
}

/// Writing `part` into block `b` and taking `n` bytes of it: only the bytes of the data and
/// of the head change, the head names the piece of `n` bytes (and the head copied to its
/// front), and the piece holds the copied head bytes, if any, then `part`.
proof fn lemma_block_written(mem0: Seq<u8>, b: DataBlock, part: Seq<u8>, n: u64)
    requires
        b.data@.ptr == b.data@.off,
        b.data@.off + b.data@.len <= mem0.len(),
        b.head.fits(mem0.len() as int),
        b.head.addr() + HEAD_SIZE <= b.data@.off || b.data@.off + b.data@.len <= b.head.addr(),
        part.len() == n,
        n + (if b.transfer { HEAD_SIZE as int } else { 0 }) <= b.data@.len,
        b.transfer ==> b.data@.len > HEAD_SIZE,
    ensures
        ({
            let t: int = if b.transfer { HEAD_SIZE as int } else { 0 };
            let mem1 = bytes_written(mem0, b.data@.ptr + t, part);
            let mem2 = occupied_memory(mem1, b, n);
            let q = b.head.addr();
            let d = b.data@;
            &&& mem2.len() == mem0.len()
            &&& forall|x: int|
                0 <= x < mem0.len() && !(d.off <= x < d.off + d.len) && !(q <= x < q + HEAD_SIZE)
                    ==> #[trigger] mem2[x] == mem0[x]
            &&& mem2[q + 1] == mem0[q + 1]
            &&& head_fields(mem2, q) == (false, (n + t) as u32, d.off)
            &&& mem2.subrange(d.off as int, d.off + n + t) == (if b.transfer {
                mem0.subrange(q, q + HEAD_SIZE)
            } else {
                Seq::<u8>::empty()
            }) + part
        }),
{
    let t: int = if b.transfer { HEAD_SIZE as int } else { 0 };
    let mem1 = bytes_written(mem0, b.data@.ptr + t, part);
    let q = b.head.addr();
    let d = b.data@;
    let copied = if b.transfer {
        bytes_written(mem1, d.ptr as int, mem1.subrange(q, q + HEAD_SIZE))
    } else {
        mem1
    };
    let mem2 = occupied_memory(mem1, b, n);
    lemma_head_roundtrip(copied, q, false, (n + t) as u32, d.off);
    assert(mem2 == head_written(copied, q, false, (n + t) as u32, d.off));
    assert(mem1.subrange(q, q + HEAD_SIZE) =~= mem0.subrange(q, q + HEAD_SIZE));
    assert(mem2.subrange(d.off as int, d.off + n + t) =~= (if b.transfer {
        mem0.subrange(q, q + HEAD_SIZE)
    } else {
        Seq::<u8>::empty()
    }) + part);
}

/// Before a block is written: the walk from the head at `h0` through `k` pieces reads the
/// bytes of `bytes` before those pending in the block's head, and arrives at the block's
/// head; the head of a block taken after a full one holds the last bytes of that one; the
/// bytes the walk reads, those of the block's head and those of its data are apart, and
/// none of them is free or in a chain of a read head, but the heads.
#[verifier::opaque]
pub open spec fn step_ready(c: Cache, bytes: Seq<u8>, h0: int, k: nat, pos: int, b: DataBlock) -> bool {
    let mem = c.memory();
    let q = b.head.addr();
    let d = b.data@;
    let dof = c.data_area().data_buffer()@.offset as int;
    let fl = c.data_area().free_list();
    &&& walk(mem, h0, k) == Some(
        (bytes.subrange(0, pos - (if b.transfer { HEAD_SIZE as int } else { 0 })), q),
    )
    &&& b.transfer ==> {
        &&& q + HEAD_SIZE <= d.off || d.off + d.len <= q
        &&& forall|x: int| q <= x < q + HEAD_SIZE ==> !#[trigger] free_bytes(fl).contains(x)
        &&& forall|x: int| q <= x < q + HEAD_SIZE ==> !#[trigger] read_bytes(c).contains(x)
        &&& mem.subrange(q, q + HEAD_SIZE) == bytes.subrange(pos - HEAD_SIZE, pos)
    }
    &&& forall|x: int| d.off <= x < d.off + d.len ==> !#[trigger] read_bytes(c).contains(x)
    &&& forall|x: int|
        #[trigger] walk_region(mem, h0, k).contains(x) ==> (x < dof || (!free_bytes(fl).contains(x)
            && !read_bytes(c).contains(x))) && !(d.off <= x < d.off + d.len) && !(q <= x < q
            + HEAD_SIZE)
}

/// Writing a block and taking bytes of it changes no byte that says whether a head was read.
proof fn lemma_written_keeps_readed(c0: Cache, c1: Cache, b: DataBlock, h0: int, idx: int, dof: int)
    requires
        c0.wf(),
        c1.heads() == c0.heads(),
        c1.memory().len() == c0.memory().len(),
        dof == c0.heads().heads().len() * HEAD_SIZE,
        dof <= b.data@.off,
        b.head.addr() == h0 || dof <= b.head.addr(),
        h0 == idx * HEAD_SIZE,
        0 <= idx,
        c1.memory()[b.head.addr() + 1] == c0.memory()[b.head.addr() + 1],
        forall|x: int|
            0 <= x < c0.memory().len() && !(b.data@.off <= x < b.data@.off + b.data@.len) && !(
            b.head.addr() <= x < b.head.addr() + HEAD_SIZE) ==> #[trigger] c1.memory()[x]
                == c0.memory()[x],
    ensures
        forall|i: int|
            0 <= i < c0.heads().heads().len() ==> c1.memory()[i * HEAD_SIZE + 1] == #[trigger] c0.memory()[i
                * HEAD_SIZE + 1],
{
    assert forall|i: int| 0 <= i < c0.heads().heads().len() implies c1.memory()[i * HEAD_SIZE + 1]
        == #[trigger] c0.memory()[i * HEAD_SIZE + 1] by {
        assert(c0.heads().heads()[i].fits(c0.memory().len() as int));
        assert(c0.heads().heads()[i].addr() == i * HEAD_SIZE);
        assert(i * HEAD_SIZE + HEAD_SIZE <= dof) by (nonlinear_arith)
            requires
                dof == c0.heads().heads().len() * HEAD_SIZE,
                i < c0.heads().heads().len(),
        ;
        if b.head.addr() == h0 && i != idx {
            assert(!(h0 <= i * HEAD_SIZE + 1 < h0 + HEAD_SIZE)) by (nonlinear_arith)
                requires
                    h0 == idx * HEAD_SIZE,
                    i != idx,
            ;
        }
        if b.head.addr() == h0 && i == idx {
            assert(i * HEAD_SIZE + 1 == b.head.addr() + 1);
        }
    }
}

/// Writing a ready block and taking bytes of it keeps the chains of the read heads, apart,
/// and the head of the data not read.
proof fn lemma_step_keeps_apart(
    c0: Cache,
    c1: Cache,
    b: DataBlock,
    part: Seq<u8>,
    n: u64,
    bytes: Seq<u8>,
    h0: int,
    idx: int,
    k: nat,
    pos0: int,
)
    requires
        ({
            let t: int = if b.transfer { HEAD_SIZE as int } else { 0 };
            let q = b.head.addr();
            let d = b.data@;
            let mem0 = c0.memory();
            let dof = c0.data_area().data_buffer()@.offset as int;
            &&& c0.wf()
            &&& c1.wf()
            &&& reads_apart(c0)
            &&& c1.heads() == c0.heads()
            &&& c1.data_area() == c0.data_area()
            &&& c1.spec_capacity() == c0.spec_capacity()
            &&& step_ready(c0, bytes, h0, k, pos0, b)
            &&& c1.memory() == occupied_memory(bytes_written(mem0, d.ptr + t, part), b, n)
            &&& d.ptr == d.off
            &&& b.head.fits(mem0.len() as int)
            &&& d.off + d.len <= mem0.len()
            &&& dof <= d.off
            &&& dof == c0.heads().heads().len() * HEAD_SIZE
            &&& b.transfer ==> d.len > HEAD_SIZE && dof <= q
            &&& !b.transfer ==> q == h0 && q + HEAD_SIZE <= dof
            &&& h0 == idx * HEAD_SIZE
            &&& 0 <= idx < c0.heads().heads().len()
            &&& mem0[h0 + 1] == 1u8
            &&& part.len() == n
            &&& n + t <= d.len
        }),
    ensures
        reads_apart(c1),
        read_bytes(c1).subset_of(read_bytes(c0)),
        c1.memory()[h0 + 1] == 1u8,
{
    reveal(step_ready);
    let q = b.head.addr();
    let d = b.data@;
    let dof = c0.data_area().data_buffer()@.offset as int;
    lemma_block_written(c0.memory(), b, part, n);
    lemma_written_keeps_readed(c0, c1, b, h0, idx, dof);
    assert(c1.memory()[idx * HEAD_SIZE + 1] == c0.memory()[idx * HEAD_SIZE + 1]);
    assert forall|l: int, e: int| #[trigger] read_entry(c1, l, e) implies read_entry(c0, l, e)
        && c1.heads().levels()[l][e] == c0.heads().levels()[l][e] by {
        let j = c0.heads().levels()[l][e] as int;
        assert(c0.heads().heads()[j].addr() == j * HEAD_SIZE);
        assert(c1.memory()[j * HEAD_SIZE + 1] == c0.memory()[j * HEAD_SIZE + 1]);
    }
    assert forall|x: int| #[trigger] read_bytes(c0).contains(x) implies c1.memory()[x] == c0.memory()[x] by {
        lemma_read_byte(c0, x);
    }
    assert forall|l: int, e: int, y: int|
        #![trigger read_entry(c1, l, e), c1.memory()[y]]
        read_entry(c1, l, e) && entry_addr(c1, l, e) <= y < entry_addr(c1, l, e) + HEAD_SIZE implies c1.memory()[y]
            == c0.memory()[y] by {
        let j = c0.heads().levels()[l][e] as int;
        assert(c0.heads().heads()[j].addr() == j * HEAD_SIZE);
        assert(j * HEAD_SIZE + HEAD_SIZE <= dof) by (nonlinear_arith)
            requires
                dof == c0.heads().heads().len() * HEAD_SIZE,
                j < c0.heads().heads().len(),
        ;
        if !b.transfer {
            if j == idx {
                assert(c1.memory()[idx * HEAD_SIZE + 1] == 1u8);
            } else {
                assert(!(q <= y < q + HEAD_SIZE)) by (nonlinear_arith)
                    requires
                        q == idx * HEAD_SIZE,
                        j * HEAD_SIZE <= y < j * HEAD_SIZE + HEAD_SIZE,
                        j != idx,
                ;
            }
        }
    }
    lemma_reads_frame(c0, c1);
}

/// Giving back what is left of the last block, and finishing the block, keep the chains of
/// the read heads apart.
#[verifier::spinoff_prover]
proof fn lemma_end_keeps_apart(
    c0: Cache,
    c1: Cache,
    c2: Cache,
    c3: Cache,
    b: DataBlock,
    bytes: Seq<u8>,
    h0: int,
    idx: int,
    k: nat,
    pos0: int,
)
    requires
        ({
            let q = b.head.addr();
            let d = b.data@;
            let dof = c0.data_area().data_buffer()@.offset as int;
            &&& step_ready(c0, bytes, h0, k, pos0, b)
            &&& c0.wf()
            &&& c1.wf()
            &&& c2.wf()
            &&& c3.wf()
            &&& reads_apart(c1)
            &&& read_bytes(c1).subset_of(read_bytes(c0))
            &&& c1.memory()[h0 + 1] == 1u8
            &&& c1.data_area().data_buffer() == c0.data_area().data_buffer()
            &&& c1.heads().heads().len() == c0.heads().heads().len()
            &&& c2.memory() == c1.memory()
            &&& c2.heads() == c1.heads()
            &&& c2.spec_capacity() == c1.spec_capacity()
            &&& c2.data_area().data_buffer() == c1.data_area().data_buffer()
            &&& forall|x: int| #[trigger]
                free_bytes(c2.data_area().free_list()).contains(x) ==> free_bytes(
                    c1.data_area().free_list(),
                ).contains(x) || (d.off <= x < d.off + d.len)
            &&& c3.memory() == c2.memory().update(q, 1u8)
            &&& 0 <= q && q + HEAD_SIZE <= c2.memory().len()
            &&& c3.heads() == c2.heads()
            &&& c3.data_area() == c2.data_area()
            &&& c3.spec_capacity() == c2.spec_capacity()
            &&& dof == c0.heads().heads().len() * HEAD_SIZE
            &&& b.transfer ==> dof <= q
            &&& !b.transfer ==> q == h0
            &&& h0 == idx * HEAD_SIZE
            &&& 0 <= idx < c0.heads().heads().len()
        }),
    ensures
        reads_apart(c3),
{
    reveal(step_ready);
    let q = b.head.addr();
    let d = b.data@;
    let dof = c0.data_area().data_buffer()@.offset as int;
    let n = c0.heads().heads().len();
    assert forall|x: int|
        #[trigger] free_bytes(c2.data_area().free_list()).contains(x) && read_bytes(c1).contains(x) implies free_bytes(
        c1.data_area().free_list(),
    ).contains(x) by {
        if d.off <= x < d.off + d.len {
            assert(read_bytes(c0).contains(x));
        }
    }
    lemma_reads_frame(c1, c2);
    assert(h0 + HEAD_SIZE <= dof) by (nonlinear_arith)
        requires
            h0 == idx * HEAD_SIZE,
            dof == n * HEAD_SIZE,
            idx < n,
    ;
    assert(dof <= c2.memory().len());
    assert(h0 + 1 != q);
    assert(0 <= h0 + 1 < c2.memory().len());
    assert(c2.memory()[h0 + 1] == 1u8);
    assert(c3.memory()[h0 + 1] == 1u8);
    assert forall|l: int, e: int| #[trigger] read_entry(c3, l, e) implies read_entry(c2, l, e)
        && c3.heads().levels()[l][e] == c2.heads().levels()[l][e] by {
        let j = c2.heads().levels()[l][e] as int;
        assert(c2.heads().heads()[j].addr() == j * HEAD_SIZE);
        assert(j * HEAD_SIZE + HEAD_SIZE <= dof) by (nonlinear_arith)
            requires
                dof == n * HEAD_SIZE,
                j < n,
        ;
        assert(j * HEAD_SIZE + 1 != q) by (nonlinear_arith)
            requires
                0 <= j < n,
                h0 == idx * HEAD_SIZE,
                !b.transfer ==> q == h0,
                b.transfer ==> dof <= q,
                dof == n * HEAD_SIZE,
        ;
    }
    assert forall|x: int| #[trigger] read_bytes(c2).contains(x) implies c3.memory()[x] == c2.memory()[x] by {
        lemma_read_byte(c2, x);
        assert(read_bytes(c0).contains(x));
        if b.transfer {
            if x == q {
                assert(q <= x < q + HEAD_SIZE);
            }
        } else {
            assert(h0 + HEAD_SIZE <= dof) by (nonlinear_arith)
                requires
                    h0 == idx * HEAD_SIZE,
                    dof == n * HEAD_SIZE,
                    idx < n,
            ;
        }
    }
    assert forall|l: int, e: int, y: int|
        #![trigger read_entry(c3, l, e), c3.memory()[y]]
        read_entry(c3, l, e) && entry_addr(c3, l, e) <= y < entry_addr(c3, l, e) + HEAD_SIZE implies c3.memory()[y]
            == c2.memory()[y] by {
        let j = c2.heads().levels()[l][e] as int;
        assert(c2.heads().heads()[j].addr() == j * HEAD_SIZE);
        assert(j * HEAD_SIZE + HEAD_SIZE <= dof) by (nonlinear_arith)
            requires
                dof == n * HEAD_SIZE,
                j < n,
        ;
        if !b.transfer {
            if j == idx {
                assert(c3.memory()[idx * HEAD_SIZE + 1] == 1u8);
            } else {
                assert(!(q <= y < q + 1)) by (nonlinear_arith)
                    requires
                        q == idx * HEAD_SIZE,
                        j * HEAD_SIZE <= y < j * HEAD_SIZE + HEAD_SIZE,
                        j != idx,
                ;
            }
        }
    }
    lemma_reads_frame(c2, c3);
}

/// The last piece, once finished, ends the chain, which then reads `bytes`.
#[verifier::spinoff_prover]
#[verifier::rlimit(40)]
proof fn lemma_last_piece(
    c0: Cache,
    mem2: Seq<u8>,
    mem3: Seq<u8>,
    b: DataBlock,
    part: Seq<u8>,
    n: u64,
    bytes: Seq<u8>,
    h0: int,
    k: nat,
    pos0: int,
)
    requires
        ({
            let t: int = if b.transfer { HEAD_SIZE as int } else { 0 };
            let q = b.head.addr();
            let d = b.data@;
            let mem0 = c0.memory();
            let dof = c0.data_area().data_buffer()@.offset as int;
            &&& step_ready(c0, bytes, h0, k, pos0, b)
            &&& mem2 == occupied_memory(bytes_written(mem0, d.ptr + t, part), b, n)
            &&& mem3 == mem2.update(q, 1u8)
            &&& d.ptr == d.off
            &&& b.head.fits(mem0.len() as int)
            &&& d.off + d.len <= mem0.len()
            &&& dof <= d.off
            &&& b.transfer ==> d.len > HEAD_SIZE
            &&& !b.transfer ==> q + HEAD_SIZE <= dof
            &&& n + t <= d.len
            &&& n + t <= u32::MAX
            &&& !b.transfer ==> pos0 == 0
            &&& b.transfer ==> pos0 >= HEAD_SIZE
            &&& part == bytes.subrange(pos0, pos0 + n)
            &&& pos0 + n == bytes.len()
        }),
    ensures
        read_chain(mem3, h0, (k + 1) as nat) == Some(bytes),
{
    reveal(step_ready);
    let t: int = if b.transfer { HEAD_SIZE as int } else { 0 };
    let q = b.head.addr();
    let d = b.data@;
    let mem0 = c0.memory();
    lemma_block_written(mem0, b, part, n);
    lemma_walk_region_in(mem0, h0, k);
    assert forall|x: int| #[trigger] walk_region(mem0, h0, k).contains(x) implies mem0[x] == mem3[x] by {
        assert(mem2[x] == mem0[x]);
    }
    lemma_walk_frame(mem0, mem3, h0, k);
    assert(head_fields(mem3, q) == (true, (n + t) as u32, d.off)) by {
        assert forall|x: int| q < x < q + HEAD_SIZE implies mem3[x] == mem2[x] by {}
        assert(mem3[q] == 1u8);
    }
    assert(mem3.subrange(d.off as int, d.off + n + t) =~= mem2.subrange(d.off as int, d.off + n + t));
    assert(read_chain(mem3, q, 1) == Some(mem3.subrange(d.off as int, d.off + n + t)));
    lemma_walk_then_read(mem3, h0, k, 1);
    assert(bytes.subrange(0, pos0 - t) + ((if b.transfer {
        bytes.subrange(pos0 - HEAD_SIZE, pos0)
    } else {
        Seq::<u8>::empty()
    }) + part) =~= bytes);
    assert((1 + k) as nat == (k + 1) as nat);
}

/// A full piece extends the walk by one piece, which ends at the head in its last bytes,
/// and these hold the last bytes written.
#[verifier::spinoff_prover]
#[verifier::rlimit(60)]
proof fn lemma_full_piece(
    c0: Cache,
    mem2: Seq<u8>,
    b: DataBlock,
    part: Seq<u8>,
    n: u64,
    bytes: Seq<u8>,
    h0: int,
    k: nat,
    pos0: int,
)
    requires
        ({
            let t: int = if b.transfer { HEAD_SIZE as int } else { 0 };
            let q = b.head.addr();
            let d = b.data@;
            let mem0 = c0.memory();
            let dof = c0.data_area().data_buffer()@.offset as int;
            &&& step_ready(c0, bytes, h0, k, pos0, b)
            &&& mem2 == occupied_memory(bytes_written(mem0, d.ptr + t, part), b, n)
            &&& d.ptr == d.off
            &&& b.head.fits(mem0.len() as int)
            &&& d.off + d.len <= mem0.len()
            &&& dof <= d.off
            &&& d.len > HEAD_SIZE
            &&& !b.transfer ==> q + HEAD_SIZE <= dof
            &&& n + t == d.len
            &&& d.len <= u32::MAX
            &&& !b.transfer ==> pos0 == 0
            &&& b.transfer ==> pos0 >= HEAD_SIZE
            &&& part == bytes.subrange(pos0, pos0 + n)
            &&& pos0 + n <= bytes.len()
        }),
    ensures
        ({
            let q = b.head.addr();
            let d = b.data@;
            let tail = d.off + d.len - HEAD_SIZE;
            &&& walk(mem2, h0, k + 1) == Some((bytes.subrange(0, pos0 + n - HEAD_SIZE), tail))
            &&& walk_region(mem2, h0, k + 1) == walk_region(c0.memory(), h0, k).union(
                Set::new(|x: int| (q <= x < q + HEAD_SIZE) || (d.off <= x < tail)),
            )
            &&& mem2.subrange(tail, tail + HEAD_SIZE) == bytes.subrange(pos0 + n - HEAD_SIZE, pos0 + n)
        }),
{
    reveal(step_ready);
    let t: int = if b.transfer { HEAD_SIZE as int } else { 0 };
    let q = b.head.addr();
    let d = b.data@;
    let mem0 = c0.memory();
    lemma_block_written(mem0, b, part, n);
    let tail = d.off + d.len - HEAD_SIZE;
    lemma_walk_region_in(mem0, h0, k);
    assert forall|x: int| #[trigger] walk_region(mem0, h0, k).contains(x) implies mem0[x] == mem2[x] by {}
    lemma_walk_frame(mem0, mem2, h0, k);
    lemma_walk_extend(mem2, h0, k);
    let pend = if b.transfer {
        mem0.subrange(q, q + HEAD_SIZE)
    } else {
        Seq::<u8>::empty()
    };
    assert(pend + part =~= bytes.subrange(pos0 - t, pos0 + n));
    assert(mem2.subrange(d.off as int, tail) =~= bytes.subrange(pos0 - t, pos0 + n - HEAD_SIZE));
    assert(bytes.subrange(0, pos0 - t) + mem2.subrange(d.off as int, tail) =~= bytes.subrange(
        0,
        pos0 + n - HEAD_SIZE,
    ));
    assert(mem2.subrange(tail, tail + HEAD_SIZE) =~= mem2.subrange(d.off as int, d.off + n + t).subrange(
        d.len - HEAD_SIZE,
        d.len as int,
    ));
    assert(mem2.subrange(tail, tail + HEAD_SIZE) =~= bytes.subrange(pos0 + n - HEAD_SIZE, pos0 + n));
}

/// After a full block, the next block is ready: its data was free or in a chain of a read
/// head, so it is apart from all that was written.
proof fn lemma_next_ready(
    c0: Cache,
    c2: Cache,
    c3: Cache,
    b: DataBlock,
    nb: DataBlock,
    bytes: Seq<u8>,
    h0: int,
    k: nat,
    pos: int,
)
    requires
        ({
            let q = b.head.addr();
            let d = b.data@;
            let tail = d.off + d.len - HEAD_SIZE;
            let dof = c0.data_area().data_buffer()@.offset as int;
            let fb0 = free_bytes(c0.data_area().free_list());
            let rb0 = read_bytes(c0);
            &&& step_ready(c0, bytes, h0, k, pos - d.len + (if b.transfer { HEAD_SIZE as int } else { 0 }), b)
            &&& c3.memory() == c2.memory()
            &&& walk(c2.memory(), h0, k + 1) == Some((bytes.subrange(0, pos - HEAD_SIZE), tail))
            &&& walk_region(c2.memory(), h0, k + 1) == walk_region(c0.memory(), h0, k).union(
                Set::new(|x: int| (q <= x < q + HEAD_SIZE) || (d.off <= x < tail)),
            )
            &&& c2.memory().subrange(tail, tail + HEAD_SIZE) == bytes.subrange(pos - HEAD_SIZE, pos)
            &&& range_is_free_of(c0.data_area().free_list().by_start(), d.off as int, d.off + d.len)
            &&& b.transfer || q + HEAD_SIZE <= dof
            &&& d.len > HEAD_SIZE
            &&& nb.transfer
            &&& nb.head.addr() == tail
            &&& free_bytes(c3.data_area().free_list()).subset_of(fb0.union(rb0))
            &&& read_bytes(c3).subset_of(rb0)
            &&& forall|x: int|
                nb.data@.off <= x < nb.data@.off + nb.data@.len ==> fb0.union(rb0).contains(x)
                    && !#[trigger] read_bytes(c3).contains(x)
            &&& c3.data_area().data_buffer()@.offset == dof
            &&& dof <= nb.data@.off
            &&& nb.data@.len > HEAD_SIZE
            &&& dof <= d.off
        }),
    ensures
        step_ready(c3, bytes, h0, (k + 1) as nat, pos, nb),
{
    reveal(step_ready);
    let q = b.head.addr();
    let d = b.data@;
    let tail = d.off + d.len - HEAD_SIZE;
    let dof = c0.data_area().data_buffer()@.offset as int;
    let fb0 = free_bytes(c0.data_area().free_list());
    let rb0 = read_bytes(c0);
    let fb3 = free_bytes(c3.data_area().free_list());
    let rb3 = read_bytes(c3);
    let nd = nb.data@;
    // a byte that is neither free nor of a read chain stays so, and is not the new data
    assert forall|x: int| !#[trigger] fb0.contains(x) && !rb0.contains(x) implies !fb3.contains(x)
        && !rb3.contains(x) && !(nd.off <= x < nd.off + nd.len) by {
        if nd.off <= x < nd.off + nd.len {
            assert(fb0.union(rb0).contains(x));
        }
        if fb3.contains(x) {
            assert(fb0.union(rb0).contains(x));
        }
    }
    assert forall|x: int| d.off <= x < d.off + d.len implies !#[trigger] fb0.contains(x) && !rb0.contains(x) by {
        if fb0.contains(x) {
            let z = choose|z: u64|
                #[trigger] c0.data_area().free_list().by_start().contains_key(z) && z <= x && x < c0.data_area().free_list().by_start()[z];
        }
        assert(!rb0.contains(x));
    }
    assert(tail + HEAD_SIZE <= nd.off || nd.off + nd.len <= tail) by {
        if !(tail + HEAD_SIZE <= nd.off || nd.off + nd.len <= tail) {
            let x: int = if tail >= nd.off { tail } else { nd.off as int };
            assert(d.off <= x < d.off + d.len);
            assert(!fb0.contains(x) && !rb0.contains(x));
            assert(!(nd.off <= x < nd.off + nd.len));
        }
    }
    assert((k + 1) as nat == k + 1);
    assert(walk_region(c3.memory(), h0, (k + 1) as nat) == walk_region(c2.memory(), h0, k + 1));
    assert forall|x: int| #[trigger] walk_region(c3.memory(), h0, (k + 1) as nat).contains(x) implies (x < dof
        || (!fb3.contains(x) && !rb3.contains(x))) && !(nd.off <= x < nd.off + nd.len) && !(tail <= x
        < tail + HEAD_SIZE) by {
        if walk_region(c0.memory(), h0, k).contains(x) {
            assert(!(d.off <= x < d.off + d.len));
            if x >= dof {
                assert(!fb0.contains(x) && !rb0.contains(x));
                assert(!fb3.contains(x) && !rb3.contains(x) && !(nd.off <= x < nd.off + nd.len));
            }
        } else if q <= x < q + HEAD_SIZE {
            if b.transfer {
                assert(!fb0.contains(x) && !rb0.contains(x));
                assert(!fb3.contains(x) && !rb3.contains(x) && !(nd.off <= x < nd.off + nd.len));
            }
        } else {
            assert(d.off <= x < tail);
            assert(!fb0.contains(x) && !rb0.contains(x));
            assert(!fb3.contains(x) && !rb3.contains(x) && !(nd.off <= x < nd.off + nd.len));
        }
    }
    assert forall|x: int| tail <= x < tail + HEAD_SIZE implies !#[trigger] fb3.contains(x) by {
        assert(d.off <= x < d.off + d.len);
        assert(!fb0.contains(x) && !rb0.contains(x));
    }
    assert forall|x: int| tail <= x < tail + HEAD_SIZE implies !#[trigger] rb3.contains(x) by {
        assert(d.off <= x < d.off + d.len);
        assert(!fb0.contains(x) && !rb0.contains(x));
    }
    assert(c3.memory().subrange(tail, tail + HEAD_SIZE) == bytes.subrange(pos - HEAD_SIZE, pos));
    assert(walk(c3.memory(), h0, (k + 1) as nat) == Some((bytes.subrange(0, pos - HEAD_SIZE), tail)));
}

/// The bytes `from..to` of `bytes`.
fn copy_part(bytes: &[u8], from: usize, to: usize) -> (r: Vec<u8>)
    requires
        from <= to <= bytes@.len(),
    ensures
        r@ == bytes@.subrange(from as int, to as int),
{
    let mut r: Vec<u8> = Vec::new();
    let mut i: usize = from;
    while i < to
        invariant
            from <= i <= to <= bytes@.len(),
            r@ == bytes@.subrange(from as int, i as int),
        decreases to - i,
    {
        r.push(bytes[i]);
        i = i + 1;
        proof {
            assert(r@ =~= bytes@.subrange(from as int, i as int));
        }
    }
    r
}

/// The first `n` pieces of the chains of the heads of `hs` are apart: each is not empty,
/// lies in the data area of `c` and overlaps no free zone of `c`, and no two share a byte.
pub open spec fn chains_apart(c: Cache, hs: Seq<Head>, n: nat) -> bool {
    let mem = c.memory();
    let db = c.data_area().data_buffer()@;
    &&& forall|i: int, k: nat|
        0 <= i < hs.len() && k < n && (#[trigger] chain_fields(
            mem,
            head_fields(mem, hs[i].addr()),
            k,
        )) is Some ==> {
            let g = chain_fields(mem, head_fields(mem, hs[i].addr()), k)->0;
            &&& g.1 > 0
            &&& db.offset <= g.2
            &&& g.2 + g.1 <= db.offset + db.len
            &&& range_is_free_of(c.data_area().free_list().by_start(), g.2 as int, g.2 + g.1)
        }
    &&& forall|i: int, k: nat, j: int, m: nat, x: int|
        0 <= i < hs.len() && 0 <= j < hs.len() && k < n && m < n && (i != j || k != m)
            && #[trigger] in_piece(mem, hs[i].addr(), k, x) ==> !#[trigger] in_piece(
            mem,
            hs[j].addr(),
            m,
            x,
        )
}

/// Every zone of `cur` is a zone of `base`, with the same end, or is not empty.
pub open spec fn zones_kept(base: Map<u64, u64>, cur: Map<u64, u64>) -> bool {
    forall|s: u64| #[trigger]
        cur.contains_key(s) ==> (base.contains_key(s) && base[s] == cur[s]) || s < cur[s]
}

/// A chain ends at a piece marked last or too short to hold a head: it has no piece after.
proof fn lemma_chain_ends(mem: Seq<u8>, f: (bool, u32, u64), k: nat, j: nat)
    requires
        chain_fields(mem, f, k) matches Some(g) && (g.0 || (g.1 as int) < HEAD_SIZE),
        j > k,
    ensures
        chain_fields(mem, f, j) is None,
    decreases j,
{
    if j > k + 1 {
        lemma_chain_ends(mem, f, k, (j - 1) as nat);
    }
}

/// Past the last piece of a chain, taking more pieces adds no byte.
proof fn lemma_chain_bytes_stop(mem: Seq<u8>, p: int, k: nat, n: nat)
    requires
        k <= n,
        forall|j: nat| k <= j < n ==> #[trigger] chain_fields(mem, head_fields(mem, p), j) is None,
    ensures
        chain_bytes(mem, p, n) == chain_bytes(mem, p, k),
{
    assert forall|x: int| chain_bytes(mem, p, n).contains(x) implies chain_bytes(mem, p, k).contains(
        x,
    ) by {
        let j = choose|j: nat| j < n && #[trigger] in_piece(mem, p, j, x);
        if j >= k {
            assert(chain_fields(mem, head_fields(mem, p), j) is None);
        }
    }
    assert(chain_bytes(mem, p, n) =~= chain_bytes(mem, p, k));
}

/// A range that no zone of `base` overlaps, and that holds no byte freed since, overlaps no
/// zone of `cur`.
proof fn lemma_range_free_of_cur(
    base: FreeList,
    cur: FreeList,
    off: int,
    end: int,
)
    requires
        off < end,
        range_is_free_of(base.by_start(), off, end),
        zones_kept(base.by_start(), cur.by_start()),
        forall|x: int| off <= x < end ==> !#[trigger] free_bytes(cur).contains(x),
    ensures
        range_is_free_of(cur.by_start(), off, end),
{
    assert forall|s: u64| #[trigger] cur.by_start().contains_key(s) implies cur.by_start()[s] <= off
        || end <= s by {
        if !(base.by_start().contains_key(s) && base.by_start()[s] == cur.by_start()[s]) {
            if cur.by_start()[s] > off && end > s {
                let x: int = if s >= off { s as int } else { off };
                assert(free_bytes(cur).contains(x));
            }
        }
    }
}

/// What freeing the read data does, from `old` to `new`: when a reference level has heads
/// whose data was read, the heads of the lowest such level are freed as `HeadSegment::free`
/// says, the bytes freed are bytes of their chains, and all of these bytes when the pieces
/// are apart; else the heads, the levels and the free zones stay.
pub open spec fn read_data_freed(old: Cache, new: Cache) -> bool {
    (exists|l: int|
        {
            &&& 0 <= l < REF_LEVELS
            &&& old.heads().level_has_readed(old.memory(), l)
            &&& forall|m: int|
                0 <= m < l ==> !old.heads().level_has_readed(old.memory(), m)
            &&& new.heads().heads() == heads_freed(
                old.memory(),
                old.heads().heads(),
                old.heads().levels()[l],
            )
            &&& new.heads().levels() == old.heads().levels().update(
                l,
                kept_heads(
                    old.memory(),
                    old.heads().heads(),
                    old.heads().levels()[l],
                ),
            )
            &&& free_bytes(new.data_area().free_list()).subset_of(
                free_bytes(old.data_area().free_list()).union(
                    chains_bytes(
                        old.memory(),
                        freed_heads(
                            old.memory(),
                            old.heads().heads(),
                            old.heads().levels()[l],
                        ),
                        old.spec_capacity(),
                    ),
                ),
            )
            &&& chains_apart(
                old,
                freed_heads(
                    old.memory(),
                    old.heads().heads(),
                    old.heads().levels()[l],
                ),
                old.spec_capacity(),
            ) ==> free_bytes(new.data_area().free_list()) == free_bytes(
                old.data_area().free_list(),
            ).union(
                chains_bytes(
                    old.memory(),
                    freed_heads(
                        old.memory(),
                        old.heads().heads(),
                        old.heads().levels()[l],
                    ),
                    old.spec_capacity(),
                ),
            )
        }) || ({
        &&& forall|m: int|
            0 <= m < REF_LEVELS ==> !old.heads().level_has_readed(old.memory(), m)
        &&& new.heads().heads() == old.heads().heads()
        &&& new.heads().levels() == old.heads().levels()
        &&& new.data_area().free_list().by_start() == old.data_area().free_list().by_start()
    })
}

/// Giving back `[off, off + len)`, which overlaps no free zone, merges it with the free zones
/// next to it: every free byte stays free, the range is freed, and nothing else.
pub proof fn lemma_free_bytes_inserted(old: FreeList, new: FreeList, off: u64, len: u64)
    requires
        old.wf(),
        off + len <= u64::MAX,
        range_is_free_of(old.by_start(), off as int, off + len),
        inserted(old, new, off, len),
    ensures
        free_bytes(old).subset_of(free_bytes(new)),
        forall|x: int| #[trigger]
            free_bytes(new).contains(x) ==> free_bytes(old).contains(x) || (off <= x && x < off
                + len),
        forall|x: int| off <= x < off + len ==> #[trigger] free_bytes(new).contains(x),
{
    old.lemma_wf();
    let sh = old.by_start();
    let eh = old.by_end();
    let ns = merged_start(eh, off);
    let ne = merged_end(sh, off, len);
    let e = (off + len) as u64;
    assert(ns <= off) by {
        if eh.contains_key(off) {
            assert(sh.contains_key(eh[off]) && sh[eh[off]] == off);
        }
    }
    assert(ne >= e) by {
        if sh.contains_key(e) {
            assert(sh[e] >= e);
        }
    }
    assert(new.by_start().contains_key(ns) && new.by_start()[ns] == ne);
    assert forall|x: int| free_bytes(old).contains(x) implies free_bytes(new).contains(x) by {
        let s = choose|s: u64| #[trigger] sh.contains_key(s) && s <= x && x < sh[s];
        if s == e {
            assert(ne == sh[e]);
        } else if s == ns {
            if eh.contains_key(off) {
                assert(sh[eh[off]] == off);
            } else {
                assert(sh[off] <= off || e <= off);
            }
        } else {
            assert(new.by_start().contains_key(s) && new.by_start()[s] == sh[s]);
        }
    }
    assert forall|x: int| free_bytes(new).contains(x) implies free_bytes(old).contains(x) || (off
        <= x && x < off + len) by {
        let s = choose|s: u64|
            #[trigger] new.by_start().contains_key(s) && s <= x && x < new.by_start()[s];
        if s == ns {
            if x < off {
                assert(eh.contains_key(off));
                assert(sh.contains_key(ns) && sh[ns] == off);
            } else if x >= off + len {
                assert(sh.contains_key(e));
            }
        } else {
            assert(s != e);
            assert(sh.contains_key(s));
        }
    }
}

impl Cache {
    /// The bytes of the shared memory.
    pub closed spec fn memory(&self) -> Seq<u8> {
        self.mem@
    }

    /// The heads of the cache.
    pub closed spec fn heads(&self) -> HeadSegment {
        self.head_segment
    }

    /// The data area of the cache.
    pub closed spec fn data_area(&self) -> DataSegment {
        self.data_segment
    }

    /// The number of bytes of the shared memory.
    pub closed spec fn spec_capacity(&self) -> nat {
        self.capacity as nat
    }

    /// The cache is well formed: the heads come first, the data area takes the rest of the
    /// memory, and only zones longer than a head are handed out as data.
    pub open spec fn wf(&self) -> bool {
        &&& self.memory().len() == self.spec_capacity()
        &&& self.heads().wf()
        &&& self.heads().fits(self.memory().len() as int)
        &&& self.data_area().wf()
        &&& self.data_area().data_buffer()@.ptr == self.data_area().data_buffer()@.offset
        &&& self.data_area().data_buffer()@.offset + self.data_area().data_buffer()@.len
            == self.spec_capacity()
        &&& self.data_area().data_buffer()@.offset == self.heads().heads().len() * HEAD_SIZE
        &&& self.data_area().free_list().min_len() == HEAD_SIZE
        &&& forall|i: int|
            0 <= i < self.heads().heads().len() ==> #[trigger] self.heads().heads()[i].addr() == i
                * HEAD_SIZE
    }

    /// A cache of `capacity` zero bytes, with `HEAD_NUM` heads and the rest free for data.
    pub fn new(capacity: usize, name: String) -> (c: Cache)
        requires
            capacity >= HEAD_NUM * HEAD_SIZE,
        ensures
            c.wf(),
            c.spec_capacity() == capacity,
            c.memory() == Seq::new(capacity as nat, |i: int| 0u8),
            c.heads().heads().len() == HEAD_NUM,
            forall|i: int|
                0 <= i < HEAD_NUM ==> (#[trigger] c.heads().heads()[i]).is_free_spec()
                    && c.heads().heads()[i].addr() == i * HEAD_SIZE,
            forall|l: int| 0 <= l < REF_LEVELS ==> (#[trigger] c.heads().levels()[l]).len() == 0,
            c.data_area().free_list().by_start() == map![
                (HEAD_NUM * HEAD_SIZE) as u64 => capacity as u64,
            ],
            reads_apart(c),
    {
        let mut mem: Vec<u8> = Vec::new();
        let mut i: usize = 0;
        while i < capacity
            invariant
                i <= capacity,
                mem@ == Seq::new(i as nat, |j: int| 0u8),
            decreases capacity - i,
        {
            mem.push(0u8);
            i = i + 1;
            proof {
                assert(mem@ =~= Seq::new(i as nat, |j: int| 0u8));
            }
        }
        let head_segment = HeadSegment::new(0, HEAD_NUM);
        let head_size = head_segment.size();
        let data_segment = DataSegment::with_min_len(
            head_size as usize,
            head_size,
            capacity as u64 - head_size,
            HEAD_SIZE,
        );
        let c = Cache { name, capacity, head_segment, data_segment, mem };
        proof {
            lemma_unread_apart(c);
        }
        c
    }

    /// The address at which the shared memory starts.
    pub fn start_ptr(&self) -> (r: usize)
        ensures
            r == 0,
    {
        0
    }

    /// The bytes of the shared memory.
    pub fn memory_bytes(&self) -> (r: &Vec<u8>)
        ensures
            r@ == self.memory(),
    {
        &self.mem
    }

    /// Gives back the data of the heads that the lowest reference level has whose data was
    /// read: for each such head, the pieces of its chain, following the head at the end of
    /// each piece until the piece marked last. A piece that lies outside the data area or
    /// overlaps a free zone ends its chain.
    ///
    /// The heads are freed as `HeadSegment::free` says; the free bytes stay free, and the
    /// bytes freed are bytes of the chains of the freed heads, none when no head is freed.
    /// When the pieces of these chains are apart, all their bytes are freed.
    fn free(&mut self)
        requires
            old(self).wf(),
        ensures
            final(self).wf(),
            final(self).memory() == old(self).memory(),
            final(self).data_area().data_buffer() == old(self).data_area().data_buffer(),
            free_bytes(old(self).data_area().free_list()).subset_of(
                free_bytes(final(self).data_area().free_list()),
            ),
            read_data_freed(*old(self), *final(self)),
            (forall|m: int|
                0 <= m < REF_LEVELS ==> !old(self).heads().level_has_readed(old(self).memory(), m))
                ==> final(self).data_area() == old(self).data_area(),
    {
        let ghost mem0 = self.mem@;
        let ghost fl0 = self.data_segment.free_list();
        let ghost hs0 = self.head_segment;
        let ghost c0 = *self;
        if let Some(unvalid_heads) = self.head_segment.free(&self.mem) {
            let ghost n = unvalid_heads@.len();
            let ghost cap = self.capacity as nat;
            let ghost hs1 = self.head_segment;
            let ghost apart = chains_apart(c0, unvalid_heads@, cap);
            proof {
                let l = choose|l: int|
                    {
                        &&& 0 <= l < REF_LEVELS
                        &&& hs0.level_has_readed(mem0, l)
                        &&& forall|m: int| 0 <= m < l ==> !hs0.level_has_readed(mem0, m)
                        &&& unvalid_heads@ == freed_heads(mem0, hs0.heads(), hs0.levels()[l])
                        &&& hs1.heads() == heads_freed(mem0, hs0.heads(), hs0.levels()[l])
                        &&& hs1.levels() == hs0.levels().update(
                            l,
                            kept_heads(mem0, hs0.heads(), hs0.levels()[l]),
                        )
                    };
                assert forall|i: int| 0 <= i < hs1.heads().len() implies #[trigger] hs1.heads()[i].addr()
                    == i * HEAD_SIZE by {
                    hs0.heads()[i].lemma_with_state(HeadState::Free);
                }
                assert(free_bytes(fl0).union(chains_bytes(mem0, unvalid_heads@.subrange(0, 0), cap))
                    =~= free_bytes(fl0));
            }
            let mut h: usize = 0;
            while h < unvalid_heads.len()
                invariant
                    h <= unvalid_heads@.len(),
                    self.wf(),
                    self.memory() == old(self).memory(),
                    self.memory() == mem0,
                    self.spec_capacity() == cap,
                    self.heads() == hs1,
                    self.data_area().data_buffer() == old(self).data_area().data_buffer(),
                    c0 == *old(self),
                    fl0 == c0.data_area().free_list(),
                    cap == c0.spec_capacity(),
                    mem0 == c0.memory(),
                    apart == chains_apart(c0, unvalid_heads@, cap),
                    forall|i: int|
                        0 <= i < unvalid_heads@.len() ==> (#[trigger] unvalid_heads@[i]).fits(
                            self.memory().len() as int,
                        ),
                    free_bytes(fl0).subset_of(free_bytes(self.data_area().free_list())),
                    free_bytes(self.data_area().free_list()).subset_of(
                        free_bytes(fl0).union(
                            chains_bytes(mem0, unvalid_heads@.subrange(0, h as int), cap),
                        ),
                    ),
                    apart ==> free_bytes(self.data_area().free_list()) == free_bytes(fl0).union(
                        chains_bytes(mem0, unvalid_heads@.subrange(0, h as int), cap),
                    ),
                    apart ==> zones_kept(fl0.by_start(), self.data_area().free_list().by_start()),
                decreases unvalid_heads@.len() - h,
            {
                let head = unvalid_heads[h];
                let ghost f0 = head_fields(mem0, head.addr());
                let ghost before = free_bytes(self.data_area().free_list());
                let ghost done = unvalid_heads@.subrange(0, h as int);
                let (mut end, mut len, mut off) = head.get(&self.mem);
                // a chain in the memory has at most one piece for each byte
                let mut fuel: usize = self.capacity;
                let ghost mut k: nat = 0;
                proof {
                    assert(chain_bytes(mem0, head.addr(), 0) =~= Set::<int>::empty());
                    assert(before.union(chain_bytes(mem0, head.addr(), 0)) =~= before);
                }
                loop
                    invariant_except_break
                        chain_fields(mem0, f0, k) == Some((end, len, off)),
                    invariant
                        self.wf(),
                        self.memory() == old(self).memory(),
                        self.memory() == mem0,
                        self.spec_capacity() == cap,
                        self.heads() == hs1,
                        self.data_area().data_buffer() == old(self).data_area().data_buffer(),
                        c0 == *old(self),
                        fl0 == c0.data_area().free_list(),
                        cap == c0.spec_capacity(),
                        mem0 == c0.memory(),
                        apart == chains_apart(c0, unvalid_heads@, cap),
                        0 <= h < unvalid_heads@.len(),
                        head == unvalid_heads@[h as int],
                        done == unvalid_heads@.subrange(0, h as int),
                        f0 == head_fields(mem0, head.addr()),
                        head.fits(mem0.len() as int),
                        k + fuel == cap,
                        free_bytes(fl0).subset_of(free_bytes(self.data_area().free_list())),
                        free_bytes(self.data_area().free_list()).subset_of(
                            before.union(chain_bytes(mem0, head.addr(), k)),
                        ),
                        apart ==> before == free_bytes(fl0).union(chains_bytes(mem0, done, cap)),
                        apart ==> free_bytes(self.data_area().free_list()) == before.union(
                            chain_bytes(mem0, head.addr(), k),
                        ),
                        apart ==> zones_kept(fl0.by_start(), self.data_area().free_list().by_start()),
                    ensures
                        apart ==> free_bytes(self.data_area().free_list()) == before.union(
                            chain_bytes(mem0, head.addr(), cap),
                        ),
                    decreases fuel,
                {
                    proof {
                        if apart && fuel > 0 {
                            self.lemma_piece_can_free(c0, unvalid_heads@, h as int, k, done, before);
                        }
                    }
                    if fuel == 0 || !self.data_segment.can_free(off, len as u64) {
                        proof {
                            if apart {
                                assert(k == cap);
                            }
                        }
                        break;
                    }
                    fuel = fuel - 1;
                    let ghost fl1 = self.data_segment.free_list();
                    let ghost g = (end, len, off);
                    self.data_segment.free(off, len as u64);
                    proof {
                        lemma_free_bytes_inserted(fl1, self.data_segment.free_list(), off, len as u64);
                        assert forall|x: int|
                            free_bytes(self.data_area().free_list()).contains(x) implies before.union(
                            chain_bytes(mem0, head.addr(), k + 1),
                        ).contains(x) by {
                            if !free_bytes(fl1).contains(x) {
                                assert(off <= x && x < off + len);
                                assert(in_piece(mem0, head.addr(), k, x));
                                assert(chain_bytes(mem0, head.addr(), k + 1).contains(x));
                            } else if !before.contains(x) {
                                let j = choose|j: nat| j < k && #[trigger] in_piece(mem0, head.addr(), j, x);
                                assert(chain_bytes(mem0, head.addr(), k + 1).contains(x));
                            }
                        }
                        if apart {
                            assert forall|x: int|
                                before.union(chain_bytes(mem0, head.addr(), k + 1)).contains(x)
                                    implies free_bytes(self.data_area().free_list()).contains(x) by {
                                if !before.union(chain_bytes(mem0, head.addr(), k)).contains(x) {
                                    let j = choose|j: nat|
                                        j < k + 1 && #[trigger] in_piece(mem0, head.addr(), j, x);
                                    assert(j == k);
                                }
                            }
                            assert(free_bytes(self.data_area().free_list()) =~= before.union(
                                chain_bytes(mem0, head.addr(), k + 1),
                            ));
                            self.lemma_zones_kept_insert(fl0, fl1, off, len as u64);
                        }
                        k = k + 1;
                    }
                    if end {
                        proof {
                            if apart {
                                assert forall|j: nat| k <= j < cap implies #[trigger] chain_fields(
                                    mem0,
                                    head_fields(mem0, head.addr()),
                                    j,
                                ) is None by {
                                    lemma_chain_ends(mem0, f0, (k - 1) as nat, j);
                                }
                                lemma_chain_bytes_stop(mem0, head.addr(), k, cap);
                            }
                        }
                        break;
                    }
                    // the next head is the last bytes of the piece
                    if (len as u64) < HEAD_SIZE {
                        proof {
                            if apart {
                                assert forall|j: nat| k <= j < cap implies #[trigger] chain_fields(
                                    mem0,
                                    head_fields(mem0, head.addr()),
                                    j,
                                ) is None by {
                                    lemma_chain_ends(mem0, f0, (k - 1) as nat, j);
                                }
                                lemma_chain_bytes_stop(mem0, head.addr(), k, cap);
                            }
                        }
                        break;
                    }
                    let next = (off + len as u64 - HEAD_SIZE) as usize;
                    let next_head = Head::from_ptr(next);
                    end = next_head.get_end(&self.mem);
                    len = next_head.get_len(&self.mem);
                    off = next_head.get_off(&self.mem);
                    proof {
                        assert(head_fields(mem0, next as int) == (end, len, off));
                        assert(chain_fields(mem0, f0, (k - 1) as nat) == Some(g));
                        assert(chain_fields(mem0, f0, k) == Some((end, len, off)));
                    }
                }
                proof {
                    let hs = unvalid_heads@.subrange(0, h as int);
                    let hs2 = unvalid_heads@.subrange(0, h + 1);
                    assert forall|x: int|
                        free_bytes(self.data_area().free_list()).contains(x) implies free_bytes(
                        fl0,
                    ).union(chains_bytes(mem0, hs2, cap)).contains(x) by {
                        if chain_bytes(mem0, head.addr(), k).contains(x) {
                            let j = choose|j: nat| j < k && #[trigger] in_piece(mem0, head.addr(), j, x);
                            assert(hs2[h as int] == head);
                            assert(chain_bytes(mem0, hs2[h as int].addr(), cap).contains(x));
                        } else if !free_bytes(fl0).contains(x) {
                            assert(chains_bytes(mem0, hs, cap).contains(x));
                            let i = choose|i: int|
                                0 <= i < hs.len() && #[trigger] chain_bytes(mem0, hs[i].addr(), cap).contains(x);
                            assert(hs2[i] == hs[i]);
                        }
                    }
                    if apart {
                        assert forall|x: int|
                            free_bytes(fl0).union(chains_bytes(mem0, hs2, cap)).contains(x)
                                implies free_bytes(self.data_area().free_list()).contains(x) by {
                            if !free_bytes(fl0).contains(x) {
                                let i = choose|i: int|
                                    0 <= i < hs2.len() && #[trigger] chain_bytes(mem0, hs2[i].addr(), cap).contains(x);
                                if i < h {
                                    assert(hs[i] == hs2[i]);
                                    assert(chains_bytes(mem0, hs, cap).contains(x));
                                } else {
                                    assert(hs2[i] == head);
                                }
                            }
                        }
                        assert(free_bytes(self.data_area().free_list()) =~= free_bytes(fl0).union(
                            chains_bytes(mem0, hs2, cap),
                        ));
                    }
                }
                h = h + 1;
            }
            proof {
                assert(unvalid_heads@.subrange(0, unvalid_heads@.len() as int) =~= unvalid_heads@);
                let l = choose|l: int|
                    {
                        &&& 0 <= l < REF_LEVELS
                        &&& hs0.level_has_readed(mem0, l)
                        &&& forall|m: int| 0 <= m < l ==> !hs0.level_has_readed(mem0, m)
                        &&& unvalid_heads@ == freed_heads(mem0, hs0.heads(), hs0.levels()[l])
                        &&& hs1.heads() == heads_freed(mem0, hs0.heads(), hs0.levels()[l])
                        &&& hs1.levels() == hs0.levels().update(
                            l,
                            kept_heads(mem0, hs0.heads(), hs0.levels()[l]),
                        )
                    };
                assert(hs0 == old(self).heads());
            }
        }
    }

    /// Under apart chains, the `k`-th piece of the chain of the `h`-th head, when the chain
    /// has it, can be given back: it lies in the data area and overlaps no free zone.
    proof fn lemma_piece_can_free(
        &self,
        c0: Cache,
        hs: Seq<Head>,
        h: int,
        k: nat,
        done: Seq<Head>,
        before: Set<int>,
    )
        requires
            self.wf(),
            chains_apart(c0, hs, c0.spec_capacity()),
            self.memory() == c0.memory(),
            self.data_area().data_buffer() == c0.data_area().data_buffer(),
            0 <= h < hs.len(),
            k < c0.spec_capacity(),
            done == hs.subrange(0, h),
            before == free_bytes(c0.data_area().free_list()).union(
                chains_bytes(c0.memory(), done, c0.spec_capacity()),
            ),
            free_bytes(self.data_area().free_list()) == before.union(
                chain_bytes(c0.memory(), hs[h].addr(), k),
            ),
            zones_kept(c0.data_area().free_list().by_start(), self.data_area().free_list().by_start()),
        ensures
            chain_fields(c0.memory(), head_fields(c0.memory(), hs[h].addr()), k) matches Some(g)
                ==> g.1 > 0 && self.data_area().data_buffer()@.offset <= g.2 && g.2 + g.1
                <= self.data_area().data_buffer()@.offset + self.data_area().data_buffer()@.len
                && range_is_free_of(
                self.data_area().free_list().by_start(),
                g.2 as int,
                g.2 + g.1,
            ),
    {
        let mem = c0.memory();
        let cap = c0.spec_capacity();
        let fl0 = c0.data_area().free_list();
        let cur = self.data_area().free_list();
        let p = hs[h].addr();
        if let Some(g) = chain_fields(mem, head_fields(mem, p), k) {
            let off = g.2 as int;
            let end = g.2 + g.1;
            assert forall|x: int| off <= x < end implies !#[trigger] free_bytes(cur).contains(x) by {
                assert(in_piece(mem, p, k, x));
                if free_bytes(fl0).contains(x) {
                    let s = choose|s: u64|
                        #[trigger] fl0.by_start().contains_key(s) && s <= x && x < fl0.by_start()[s];
                    assert(range_is_free_of(fl0.by_start(), off, end));
                } else if chains_bytes(mem, done, cap).contains(x) {
                    let i = choose|i: int|
                        0 <= i < done.len() && #[trigger] chain_bytes(mem, done[i].addr(), cap).contains(x);
                    let m = choose|m: nat| m < cap && #[trigger] in_piece(mem, done[i].addr(), m, x);
                    assert(done[i] == hs[i]);
                    assert(!in_piece(mem, hs[i].addr(), m, x));
                } else if chain_bytes(mem, p, k).contains(x) {
                    let m = choose|m: nat| m < k && #[trigger] in_piece(mem, p, m, x);
                    assert(!in_piece(mem, hs[h].addr(), m, x));
                }
            }
            lemma_range_free_of_cur(fl0, cur, off, end);
        }
    }

    /// Giving a piece that is not empty back keeps every zone a zone of `base` with its end,
    /// or not empty.
    proof fn lemma_zones_kept_insert(&self, base: FreeList, old_fl: FreeList, off: u64, len: u64)
        requires
            old_fl.wf(),
            len > 0,
            off + len <= u64::MAX,
            zones_kept(base.by_start(), old_fl.by_start()),
            inserted(old_fl, self.data_area().free_list(), off, len),
        ensures
            zones_kept(base.by_start(), self.data_area().free_list().by_start()),
    {
        old_fl.lemma_wf();
        let sh = old_fl.by_start();
        let eh = old_fl.by_end();
        let ns = merged_start(eh, off);
        let ne = merged_end(sh, off, len);
        assert(ns <= off) by {
            if eh.contains_key(off) {
                assert(sh.contains_key(eh[off]) && sh[eh[off]] == off);
            }
        }
        assert(ne >= off + len) by {
            let e = (off + len) as u64;
            if sh.contains_key(e) {
                assert(sh[e] >= e);
            }
        }
        let new = self.data_area().free_list().by_start();
        assert forall|s: u64| #[trigger] new.contains_key(s) implies (base.by_start().contains_key(
            s,
        ) && base.by_start()[s] == new[s]) || s < new[s] by {
            if s != ns {
                assert(sh.contains_key(s) && sh[s] == new[s]);
            }
        }
    }

    /// Takes the largest free zone of the data area as a piece of data.
    fn take_data(&mut self) -> (r: Option<Data>)
        requires
            old(self).wf(),
        ensures
            final(self).wf(),
            final(self).memory() == old(self).memory(),
            final(self).heads() == old(self).heads(),
            final(self).data_area().data_buffer() == old(self).data_area().data_buffer(),
            match r {
                Some(d) => {
                    &&& handed_out(*final(self), d@)
                    &&& largest_taken(
                        old(self).data_area().free_list(),
                        final(self).data_area().free_list(),
                        Some((d@.off, d@.len)),
                    )
                },
                None => {
                    &&& no_usable_zone(*final(self))
                    &&& largest_taken(
                        old(self).data_area().free_list(),
                        final(self).data_area().free_list(),
                        None,
                    )
                },
            },
    {
        proof {
            self.data_segment.free_list().lemma_wf();
        }
        let data = self.data_segment.allocate();
        if let Some(buf) = data {
            let d = Data::new(buf.as_ptr(), buf.offset(), buf.len());
            proof {
                let old_zones = old(self).data_area().free_list().by_start();
                let s0 = buf@.offset;
                assert(old_zones.contains_key(s0));
                assert forall|t: u64| #[trigger]
                    self.data_area().free_list().by_start().contains_key(t) implies self.data_area().free_list().by_start()[t]
                    <= s0 || s0 + buf@.len <= t by {
                    assert(old_zones.contains_key(t) && t != s0);
                    assert(old_zones[t] <= s0 || old_zones[s0] <= t);
                }
            }
            return Some(d);
        }
        None
    }

    /// A piece of data for a new block: the largest free zone of the data area; when there is
    /// none, the heads whose data was read are freed first, and then the largest free zone.
    /// `None` when still no zone is long enough: the caller waits and asks again.
    pub fn allocate_data(&mut self, ref_cnt: usize) -> (r: Option<Data>)
        requires
            old(self).wf(),
        ensures
            final(self).wf(),
            final(self).memory() == old(self).memory(),
            final(self).data_area().data_buffer() == old(self).data_area().data_buffer(),
            match r {
                Some(d) => handed_out(*final(self), d@),
                None => no_usable_zone(*final(self)) && read_data_freed(*old(self), *final(self)),
            },
            final(self).heads().heads().len() == old(self).heads().heads().len(),
            reads_apart(*old(self)) ==> {
                &&& reads_apart(*final(self))
                &&& read_bytes(*final(self)).subset_of(read_bytes(*old(self)))
                &&& free_bytes(final(self).data_area().free_list()).subset_of(
                    free_bytes(old(self).data_area().free_list()).union(read_bytes(*old(self))),
                )
                &&& (r matches Some(d) ==> forall|x: int|
                    d@.off <= x < d@.off + d@.len ==> free_bytes(
                        old(self).data_area().free_list(),
                    ).union(read_bytes(*old(self))).contains(x) && !#[trigger] read_bytes(
                        *final(self),
                    ).contains(x))
            },
    {
        // the largest free zone first; the read data is freed only when none is usable
        let data = self.take_data();
        if let Some(data) = data {
            proof {
                if reads_apart(*old(self)) {
                    lemma_zone_taken(
                        old(self).data_area().free_list(),
                        self.data_area().free_list(),
                        data@.off,
                        data@.len,
                    );
                    lemma_reads_frame(*old(self), *self);
                    assert forall|x: int| data@.off <= x < data@.off + data@.len implies !#[trigger] read_bytes(
                        *self,
                    ).contains(x) by {
                        if read_bytes(*self).contains(x) {
                            lemma_read_byte(*old(self), x);
                        }
                    }
                }
            }
            return Some(data);
        }
        let ghost s1 = *self;
        self.free();
        let ghost s2 = *self;
        let r = self.take_data();
        proof {
            if reads_apart(*old(self)) {
                assert(free_bytes(s1.data_area().free_list()) == free_bytes(
                    old(self).data_area().free_list(),
                ));
                lemma_reads_frame(*old(self), s1);
                lemma_free_keeps_apart(s1, s2);
                if let Some(d) = r {
                    lemma_zone_taken(
                        s2.data_area().free_list(),
                        self.data_area().free_list(),
                        d@.off,
                        d@.len,
                    );
                    lemma_reads_frame(s2, *self);
                    assert forall|x: int| d@.off <= x < d@.off + d@.len implies free_bytes(
                        old(self).data_area().free_list(),
                    ).union(read_bytes(*old(self))).contains(x) && !#[trigger] read_bytes(
                        *self,
                    ).contains(x) by {
                        assert(free_bytes(s2.data_area().free_list()).contains(x));
                        if read_bytes(*self).contains(x) {
                            lemma_read_byte(s2, x);
                        }
                    }
                } else {
                    lemma_reads_frame(s2, *self);
                }
            }
        }
        proof {
            if r is None {
                assert(free_bytes(s1.data_area().free_list()) == free_bytes(
                    old(self).data_area().free_list(),
                ));
                assert(free_bytes(self.data_area().free_list()) == free_bytes(
                    s2.data_area().free_list(),
                ));
                assert(s1.heads() == old(self).heads());
                assert(s1.spec_capacity() == old(self).spec_capacity());
                assert(forall|hs: Seq<Head>, n: nat|
                    #[trigger] chains_apart(s1, hs, n) == chains_apart(*old(self), hs, n));
            }
        }
        r
    }

    /// Gives the data of a block back to the data area.
    pub fn free_block(&mut self, block: DataBlock)
        requires
            old(self).wf(),
            old(self).data_area().data_buffer()@.offset <= block.data@.off,
            block.data@.off + block.data@.len <= old(self).data_area().data_buffer()@.offset
                + old(self).data_area().data_buffer()@.len,
            range_is_free_of(
                old(self).data_area().free_list().by_start(),
                block.data@.off as int,
                block.data@.off + block.data@.len,
            ),
        ensures
            final(self).wf(),
            final(self).memory() == old(self).memory(),
            final(self).heads() == old(self).heads(),
            final(self).data_area().data_buffer() == old(self).data_area().data_buffer(),
            crate::freelist::inserted(
                old(self).data_area().free_list(),
                final(self).data_area().free_list(),
                block.data@.off,
                block.data@.len,
            ),
    {
        // the head is lazy copied
        let mut block = block;
        let data = block.data();
        self.data_segment.free(data.off(), data.len());
    }

    /// The next block to write. After `block`, a new piece of data whose head is the last
    /// bytes of the data of `block`, to be copied to the front of the new piece; with no
    /// block, a new head at level `ref_cnt` and a piece of data, with the index of the head.
    /// `None` when no piece of data, or no head, is free yet: the caller waits and asks again.
    pub fn next_block(&mut self, block: Option<DataBlock>, ref_cnt: usize) -> (r: Option<(DataBlock, usize)>)
        requires
            old(self).wf(),
            ref_cnt < REF_LEVELS,
            block matches Some(b) ==> b.data@.len >= HEAD_SIZE && data_in(b.data@, old(self).memory().len() as int),
        ensures
            final(self).wf(),
            match r {
                Some((b, idx)) => {
                    &&& handed_out(*final(self), b.data@)
                    &&& b.transfer == block is Some
                    &&& b.head.fits(final(self).memory().len() as int)
                    &&& match block {
                        Some(prev) => {
                            &&& b.head.addr() == prev.data@.ptr + prev.data@.len - HEAD_SIZE
                            &&& idx == 0
                            &&& final(self).memory() == old(self).memory()
                        },
                        None => {
                            &&& idx < final(self).heads().heads().len()
                            &&& b.head == final(self).heads().heads()[idx as int]
                            &&& b.head.spec_state() == HeadState::Valid
                            &&& final(self).heads().levels()[ref_cnt as int].last() == idx
                            &&& final(self).memory() == old(self).memory().update(b.head.addr() + 1, 1u8)
                        },
                    }
                },
                None => {
                    ||| no_usable_zone(*final(self))
                    ||| block is None && forall|j: int|
                        0 <= j < final(self).heads().heads().len() ==> !(
                        #[trigger] final(self).heads().heads()[j]).is_free_spec()
                },
            },
            final(self).heads().heads().len() == old(self).heads().heads().len(),
            final(self).memory().len() == old(self).memory().len(),
            reads_apart(*old(self)) ==> (r matches Some((b, idx)) ==> {
                &&& reads_apart(*final(self))
                &&& read_bytes(*final(self)).subset_of(read_bytes(*old(self)))
                &&& free_bytes(final(self).data_area().free_list()).subset_of(
                    free_bytes(old(self).data_area().free_list()).union(read_bytes(*old(self))),
                )
                &&& forall|x: int|
                    b.data@.off <= x < b.data@.off + b.data@.len ==> free_bytes(
                        old(self).data_area().free_list(),
                    ).union(read_bytes(*old(self))).contains(x) && !#[trigger] read_bytes(
                        *final(self),
                    ).contains(x)
            }),
    {
        // next block
        if let Some(mut block) = block {
            let data = self.allocate_data(ref_cnt);
            if let Some(data) = data {
                // the last space is the new head
                let head = block.data().tail_head();
                return Some((DataBlock { head, data, transfer: true }, 0));
            }
            return None;
        }
        // first block
        let data = self.allocate_data(ref_cnt);
        if let Some(data) = data {
            let ghost heads0 = self.heads().heads();
            let ghost mid = *self;
            let allocated = self.head_segment.allocate(&mut self.mem, ref_cnt);
            if let Some((head, idx)) = allocated {
                proof {
                    heads0[idx as int].lemma_with_state(HeadState::Valid);
                    assert(self.heads().heads()[idx as int] == head);
                    assert(self.heads().heads()[idx as int].fits(self.memory().len() as int));
                    if reads_apart(*old(self)) {
                        assert(heads0[idx as int].addr() == idx * HEAD_SIZE);
                        lemma_head_taken_keeps_apart(mid, *self, idx as int, ref_cnt as int);
                    }
                }
                return Some((DataBlock { head, data, transfer: false }, idx));
            }
            self.data_segment.free(data.off(), data.len());
        }
        None
    }

    /// Writes `bytes` to the front of the bytes that `block` gives the user.
    pub fn write_block(&mut self, block: &DataBlock, bytes: &[u8])
        requires
            old(self).wf(),
            block.transfer ==> block.data@.len >= HEAD_SIZE,
            data_in(block.data@, old(self).memory().len() as int),
            bytes@.len() <= block_size(*block),
        ensures
            final(self).wf(),
            final(self).heads() == old(self).heads(),
            final(self).data_area() == old(self).data_area(),
            final(self).memory() == bytes_written(
                old(self).memory(),
                block.data@.ptr + (if block.transfer { HEAD_SIZE as int } else { 0 }),
                bytes@,
            ),
    {
        let mut d = block.data;
        let start: usize = if block.transfer {
            d.as_mut_ptr() + HEAD_SIZE as usize
        } else {
            d.as_mut_ptr()
        };
        let mut area = Buffer::new(start, 0, block.size());
        area.copy_from_slice(&mut self.mem, bytes, 0);
    }

    /// Takes `size` bytes of `block` for the user, in the cache's memory: see
    /// `DataBlock::occupy`.
    pub fn occupy_block(&mut self, block: &mut DataBlock, size: usize) -> (r: Option<DataBlock>)
        requires
            old(self).wf(),
            old(block).head.fits(old(self).memory().len() as int),
            data_in(old(block).data@, old(self).memory().len() as int),
            old(block).transfer ==> old(block).data@.len > HEAD_SIZE,
            size + (if old(block).transfer { HEAD_SIZE as int } else { 0 }) <= old(block).data@.len,
            old(block).data@.off + old(block).data@.len <= u64::MAX,
        ensures
            final(self).wf(),
            final(self).heads() == old(self).heads(),
            final(self).data_area() == old(self).data_area(),
            *final(block) == *old(block),
            size == 0 ==> final(self).memory() == old(self).memory() && r == Some(*old(block)),
            size != 0 ==> {
                let taken = (if old(block).transfer { size + HEAD_SIZE } else { size as int }) as u64;
                &&& final(self).memory() == occupied_memory(old(self).memory(), *old(block), size as u64)
                &&& match r {
                    Some(b) => remain_of(old(block).data@, taken) == Some(b.data@) && b.head
                        == old(block).head && !b.transfer,
                    None => remain_of(old(block).data@, taken) is None,
                }
            },
    {
        block.occupy(&mut self.mem, size)
    }

    /// Marks the head of `block` as the last one of its data, in the cache's memory.
    pub fn finish_block(&mut self, block: &mut DataBlock)
        requires
            old(self).wf(),
            old(block).head.fits(old(self).memory().len() as int),
        ensures
            final(self).wf(),
            final(self).heads() == old(self).heads(),
            final(self).data_area() == old(self).data_area(),
            *final(block) == *old(block),
            final(self).memory() == old(self).memory().update(old(block).head.addr(), 1u8),
    {
        block.finish(&mut self.mem);
    }

    /// Writes `bytes` as the data of a new head at level `ref_cnt`, block after block: each
    /// block is filled before the next is taken, whose head is the last bytes of the full
    /// block, and the last block is finished and what is left of it given back. Returns the
    /// index of the head, or `None` when no head or no block is free yet. When a later block
    /// is missing, the data written so far is finished and marked read, so that the next
    /// freeing of read data gives its head and blocks back.
    ///
    /// When the chains of the heads whose data was read are apart (see `reads_apart`), so
    /// that freeing them gives back only bytes that no other data uses, reading the chain of
    /// the head gives back exactly `bytes`, and the chains of the read heads stay apart for
    /// the next write. A head holds the length of its piece in 32 bits,
    /// so this also asks that the memory be no longer than `u32::MAX` bytes: a block as long
    /// as a larger data area would not fit its head.
    #[verifier::spinoff_prover]
    #[verifier::rlimit(100)]
    pub fn write_data(&mut self, bytes: &[u8], ref_cnt: usize) -> (r: Option<usize>)
        requires
            old(self).wf(),
            ref_cnt < REF_LEVELS,
            bytes@.len() > 0,
        ensures
            final(self).wf(),
            r matches Some(idx) ==> idx < final(self).heads().heads().len(),
            r is None ==> no_usable_zone(*final(self)) || forall|j: int|
                0 <= j < final(self).heads().heads().len() ==> !(
                #[trigger] final(self).heads().heads()[j]).is_free_spec(),
            reads_apart(*old(self)) && old(self).spec_capacity() <= u32::MAX ==> (r matches Some(
                idx,
            ) ==> read_chain(
                final(self).memory(),
                idx * HEAD_SIZE,
                bytes@.len(),
            ) == Some(bytes@)),
            reads_apart(*old(self)) && old(self).spec_capacity() <= u32::MAX ==> (r is Some
                ==> reads_apart(*final(self))),
    {
        let ghost ap = reads_apart(*old(self)) && old(self).spec_capacity() <= u32::MAX;
        let first = self.next_block(None, ref_cnt);
        proof {
            if first is Some {
                assert(self.memory().len() == old(self).memory().len());
            }
        }
        let (mut block, idx) = match first {
            Some(p) => p,
            None => {
                return None;
            },
        };
        let ghost h0: int = idx * HEAD_SIZE;
        let ghost cap = self.spec_capacity();
        let ghost dof = self.data_area().data_buffer()@.offset as int;
        let mut pos: usize = 0;
        let mut first_head = block.head;
        let ghost mut k: nat = 0;
        proof {
            assert(self.heads().heads()[idx as int].addr() == h0);
            assert(bytes@.subrange(0, 0) =~= Seq::<u8>::empty());
            assert(walk_region(self.memory(), h0, 0) == Set::<int>::empty());
            reveal(step_ready);
            assert(self.memory()[h0 + 1] == 1u8);
            assert(h0 + HEAD_SIZE <= dof) by (nonlinear_arith)
                requires
                    h0 == idx * HEAD_SIZE,
                    idx < self.heads().heads().len(),
                    dof == self.heads().heads().len() * HEAD_SIZE,
            ;
        }
        loop
            invariant
                self.wf(),
                ap == (reads_apart(*old(self)) && old(self).spec_capacity() <= u32::MAX),
                ap ==> reads_apart(*self),
                ap ==> self.memory()[h0 + 1] == 1u8,
                self.memory().len() == cap,
                self.spec_capacity() == cap,
                ap ==> cap <= u32::MAX,
                pos < bytes@.len(),
                k <= pos,
                idx < self.heads().heads().len(),
                h0 == idx * HEAD_SIZE,
                h0 + HEAD_SIZE <= dof,
                dof == self.data_area().data_buffer()@.offset,
                dof == self.heads().heads().len() * HEAD_SIZE,
                block.data@.ptr == block.data@.off,
                block.data@.len > HEAD_SIZE,
                dof <= block.data@.off,
                block.data@.off + block.data@.len <= cap,
                range_is_free_of(
                    self.data_area().free_list().by_start(),
                    block.data@.off as int,
                    block.data@.off + block.data@.len,
                ),
                block.head.fits(cap as int),
                first_head.fits(cap as int),
                !block.transfer ==> k == 0 && pos == 0 && block.head.addr() == h0,
                block.transfer ==> pos >= HEAD_SIZE && dof <= block.head.addr(),
                ap ==> step_ready(
                    *self,
                    bytes@,
                    h0,
                    k,
                    pos as int,
                    block,
                ),
            decreases bytes@.len() - pos,
        {
            let ghost mem0 = self.memory();
            let ghost b0 = block;
            let ghost c0 = *self;
            let ghost pos0 = pos as int;
            let size = block.size();
            let rest = bytes.len() - pos;
            let n: usize = if (rest as u64) < size { rest } else { size as usize };
            let part = copy_part(bytes, pos, pos + n);
            self.write_block(&block, part.as_slice());
            let remain = self.occupy_block(&mut block, n);
            let ghost mem2 = self.memory();
            proof {
                if ap {
                    assert(self.spec_capacity() == c0.spec_capacity());
                    lemma_step_keeps_apart(c0, *self, b0, part@, n as u64, bytes@, h0, idx as int, k, pos0);
                }
            }
            pos = pos + n;
            if pos == bytes.len() {
                let ghost c1 = *self;
                if let Some(rb) = remain {
                    self.free_block(rb);
                    proof {
                        if ap {
                            lemma_free_bytes_inserted(
                                c1.data_area().free_list(),
                                self.data_area().free_list(),
                                rb.data@.off,
                                rb.data@.len,
                            );
                        }
                    }
                }
                let ghost c2 = *self;
                self.finish_block(&mut block);
                proof {
                    if ap {
                        lemma_end_keeps_apart(c0, c1, c2, *self, b0, bytes@, h0, idx as int, k, pos0);
                    }
                }
                proof {
                    if ap {
                        lemma_last_piece(c0, mem2, self.memory(), b0, part@, n as u64, bytes@, h0, k, pos0);
                        assert(read_chain(self.memory(), idx * HEAD_SIZE, (k + 1) as nat) == Some(
                            bytes@,
                        ));
                    }
                    if ap {
                        lemma_read_more(self.memory(), h0, (k + 1) as nat, bytes@.len());
                    }
                }
                return Some(idx);
            }
            let ghost c2 = *self;
            match self.next_block(Some(block), 0) {
                Some((nb, _)) => {
                    proof {
                        if ap {
                            assert(n + (if b0.transfer { HEAD_SIZE as int } else { 0 }) == b0.data@.len);
                            lemma_full_piece(c0, mem2, b0, part@, n as u64, bytes@, h0, k, pos0);
                            assert(self.memory() == c2.memory());
                            assert(nb.head.addr() == b0.data@.off + b0.data@.len - HEAD_SIZE);
                            assert(self.data_area().data_buffer()@.offset == dof);
                            assert(free_bytes(c2.data_area().free_list()) == free_bytes(c0.data_area().free_list()));
                            assert(read_bytes(*self).subset_of(read_bytes(c0)));
                            assert(free_bytes(self.data_area().free_list()).subset_of(
                                free_bytes(c0.data_area().free_list()).union(read_bytes(c0)),
                            ));
                            assert forall|x: int|
                                nb.data@.off <= x < nb.data@.off + nb.data@.len implies free_bytes(
                                    c0.data_area().free_list(),
                                ).union(read_bytes(c0)).contains(x) && !#[trigger] read_bytes(
                                    *self,
                                ).contains(x) by {
                                assert(free_bytes(c2.data_area().free_list()).union(read_bytes(c2)).contains(x));
                            }
                            lemma_next_ready(c0, c2, *self, b0, nb, bytes@, h0, k, pos as int);
                        }
                    }
                    block = nb;
                    proof {
                        k = k + 1;
                    }
                },
                None => {
                    // give the data written so far up: its chain ends here, and once read
                    // the next freeing gives its head and blocks back
                    self.finish_block(&mut block);
                    self.readed(&mut first_head);
                    return None;
                },
            }
        }
    }

    /// Marks the data of `head` as read, in the cache's memory, as its reader does.
    pub fn readed(&mut self, head: &mut Head)
        requires
            old(self).wf(),
            old(head).fits(old(self).memory().len() as int),
        ensures
            final(self).wf(),
            final(self).heads() == old(self).heads(),
            final(self).data_area() == old(self).data_area(),
            *final(head) == *old(head),
            final(self).memory() == old(self).memory().update(old(head).addr() + 1, 0u8),
    {
        head.readed(&mut self.mem);
    }
}

} // verus!

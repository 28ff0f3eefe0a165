use vstd::prelude::*;
use crate::cache::{chain_fields, chains_bytes, free_bytes, in_piece, read_data_freed, Cache};
use crate::chain::lemma_head_fields_same;
use crate::freelist::FreeList;
use crate::head::{head_fields, HeadState, HEAD_SIZE};
use crate::head_segment::{freed_heads, kept_heads, readed_idx, REF_LEVELS};

verus! {

/// Entry `e` of reference level `l` of `c` names a head whose data was read.
pub open spec fn read_entry(c: Cache, l: int, e: int) -> bool {
    &&& 0 <= l < REF_LEVELS
    &&& 0 <= e < c.heads().levels()[l].len()
    &&& readed_idx(c.memory(), c.heads().heads(), c.heads().levels()[l][e])
}

/// The address of the head that entry `e` of reference level `l` of `c` names.
pub open spec fn entry_addr(c: Cache, l: int, e: int) -> int {
    c.heads().heads()[c.heads().levels()[l][e] as int].addr()
}

/// Byte `x` lies in one of the first pieces, as many as the memory has bytes, of the chain
/// of the head that the read entry `e` of level `l` names.
pub open spec fn in_read_chain(c: Cache, l: int, e: int, x: int) -> bool {
    &&& read_entry(c, l, e)
    &&& exists|k: nat| k < c.spec_capacity() && #[trigger] in_piece(c.memory(), entry_addr(c, l, e), k, x)
}

/// The bytes of the chains of the heads whose data was read.
pub open spec fn read_bytes(c: Cache) -> Set<int> {
    Set::new(|x: int| exists|l: int, e: int| #[trigger] in_read_chain(c, l, e, x))
}

/// The chains of the heads whose data was read, which the next freeing gives back, are
/// apart: one entry of the levels names each such head, the pieces of its chain lie in the
/// data area and hold no free byte, and no byte lies in the chains of two such heads.
pub open spec fn reads_apart(c: Cache) -> bool {
    let lv = c.heads().levels();
    &&& forall|l: int, e: int, l2: int, e2: int|
        #[trigger] read_entry(c, l, e) && #[trigger] read_entry(c, l2, e2) && lv[l][e] == lv[l2][e2]
            ==> l == l2 && e == e2
    &&& forall|l: int, e: int, x: int| #[trigger]
        in_read_chain(c, l, e, x) ==> c.data_area().data_buffer()@.offset <= x < c.spec_capacity()
            && !free_bytes(c.data_area().free_list()).contains(x)
    &&& forall|l: int, e: int, l2: int, e2: int, x: int|
        #[trigger] in_read_chain(c, l, e, x) && #[trigger] in_read_chain(c, l2, e2, x) ==> lv[l][e]
            == lv[l2][e2]
}

/// Two memories that agree on a head and on the bytes of the first `n` pieces of its chain
/// give the chain the same first pieces.
pub(crate) proof fn lemma_chain_frame(m1: Seq<u8>, m2: Seq<u8>, p: int, n: nat, k: nat)
    requires
        forall|y: int| p <= y < p + HEAD_SIZE ==> m1[y] == m2[y],
        forall|j: nat, y: int| j < n && #[trigger] in_piece(m1, p, j, y) ==> m1[y] == m2[y],
        k <= n,
    ensures
        chain_fields(m2, head_fields(m2, p), k) == chain_fields(m1, head_fields(m1, p), k),
    decreases k,
{
    lemma_head_fields_same(m1, m2, p);
    if k > 0 {
        let j = (k - 1) as nat;
        lemma_chain_frame(m1, m2, p, n, j);
        if let Some(g) = chain_fields(m1, head_fields(m1, p), j) {
            if !(g.0 || (g.1 as int) < HEAD_SIZE) {
                let q = g.2 + g.1 - HEAD_SIZE;
                assert forall|y: int| q <= y < q + HEAD_SIZE implies m1[y] == m2[y] by {
                    assert(in_piece(m1, p, j, y));
                }
                lemma_head_fields_same(m1, m2, q);
            }
        }
    }
}

/// A cache whose read entries are read entries of `a` with the same heads, whose memory
/// agrees with that of `a` on the chains of the heads whose data was read and on the heads
/// of its own read entries, and whose free bytes in those chains are free in `a`: its chains
/// of read heads are those of `a`, and still apart.
pub(crate) proof fn lemma_reads_frame(a: Cache, b: Cache)
    requires
        a.wf(),
        b.wf(),
        reads_apart(a),
        b.spec_capacity() == a.spec_capacity(),
        b.data_area().data_buffer() == a.data_area().data_buffer(),
        forall|x: int|
            #[trigger] free_bytes(b.data_area().free_list()).contains(x) && read_bytes(a).contains(x)
                ==> free_bytes(a.data_area().free_list()).contains(x),
        b.heads().heads().len() == a.heads().heads().len(),
        forall|l: int, e: int| #[trigger]
            read_entry(b, l, e) ==> read_entry(a, l, e) && b.heads().levels()[l][e]
                == a.heads().levels()[l][e],
        forall|x: int| #[trigger] read_bytes(a).contains(x) ==> b.memory()[x] == a.memory()[x],
        forall|l: int, e: int, y: int|
            #![trigger read_entry(b, l, e), b.memory()[y]]
            read_entry(b, l, e) && entry_addr(b, l, e) <= y < entry_addr(b, l, e) + HEAD_SIZE
                ==> b.memory()[y] == a.memory()[y],
    ensures
        reads_apart(b),
        read_bytes(b).subset_of(read_bytes(a)),
        forall|l: int, e: int, x: int| #[trigger]
            in_read_chain(b, l, e, x) ==> in_read_chain(a, l, e, x),
{
    assert forall|l: int, e: int, x: int| #[trigger] in_read_chain(b, l, e, x) implies in_read_chain(
        a,
        l,
        e,
        x,
    ) by {
        lemma_entry_chain_same(a, b, l, e, x);
    }
    assert forall|l: int, e: int, x: int| #[trigger] in_read_chain(b, l, e, x) implies !free_bytes(
        b.data_area().free_list(),
    ).contains(x) by {
        assert(in_read_chain(a, l, e, x));
        assert(read_bytes(a).contains(x));
    }
    let lv = b.heads().levels();
    assert forall|l: int, e: int, l2: int, e2: int|
        #[trigger] read_entry(b, l, e) && #[trigger] read_entry(b, l2, e2) && lv[l][e] == lv[l2][e2]
            implies l == l2 && e == e2 by {
        assert(read_entry(a, l, e) && read_entry(a, l2, e2));
    }
    assert forall|l: int, e: int, l2: int, e2: int, x: int|
        #[trigger] in_read_chain(b, l, e, x) && #[trigger] in_read_chain(b, l2, e2, x) implies lv[l][e]
            == lv[l2][e2] by {
        assert(in_read_chain(a, l, e, x) && in_read_chain(a, l2, e2, x));
    }
    assert forall|x: int| read_bytes(b).contains(x) implies read_bytes(a).contains(x) by {
        let (l, e) = choose|l: int, e: int| #[trigger] in_read_chain(b, l, e, x);
        assert(in_read_chain(a, l, e, x));
    }
}

/// Under the premises of `lemma_reads_frame`, a byte lies in the chain of a read entry of
/// `b` exactly when it lies in the chain of the same entry of `a`.
proof fn lemma_entry_chain_same(a: Cache, b: Cache, l: int, e: int, x: int)
    requires
        a.wf(),
        b.wf(),
        b.spec_capacity() == a.spec_capacity(),
        b.heads().heads().len() == a.heads().heads().len(),
        forall|l: int, e: int| #[trigger]
            read_entry(b, l, e) ==> read_entry(a, l, e) && b.heads().levels()[l][e]
                == a.heads().levels()[l][e],
        forall|x: int| #[trigger] read_bytes(a).contains(x) ==> b.memory()[x] == a.memory()[x],
        forall|l: int, e: int, y: int|
            #![trigger read_entry(b, l, e), b.memory()[y]]
            read_entry(b, l, e) && entry_addr(b, l, e) <= y < entry_addr(b, l, e) + HEAD_SIZE
                ==> b.memory()[y] == a.memory()[y],
        read_entry(b, l, e),
    ensures
        in_read_chain(b, l, e, x) <==> in_read_chain(a, l, e, x),
{
    let i = b.heads().levels()[l][e] as int;
    assert(read_entry(a, l, e));
    assert(0 <= i < a.heads().heads().len());
    assert(a.heads().heads()[i].addr() == i * HEAD_SIZE);
    assert(b.heads().heads()[i].addr() == i * HEAD_SIZE);
    let p = entry_addr(a, l, e);
    assert(p == entry_addr(b, l, e));
    let cap = a.spec_capacity();
    let m1 = a.memory();
    let m2 = b.memory();
    assert forall|y: int| p <= y < p + HEAD_SIZE implies m1[y] == m2[y] by {
        assert(read_entry(b, l, e));
    }
    assert forall|j: nat, y: int| j < cap && #[trigger] in_piece(m1, p, j, y) implies m1[y] == m2[y] by {
        assert(in_read_chain(a, l, e, y));
        assert(read_bytes(a).contains(y));
    }
    assert forall|k: nat| k < cap implies #[trigger] in_piece(m2, p, k, x) == in_piece(m1, p, k, x) by {
        lemma_chain_frame(m1, m2, p, cap, k);
    }
    if in_read_chain(b, l, e, x) {
        let k = choose|k: nat| k < cap && #[trigger] in_piece(m2, p, k, x);
        assert(in_piece(m1, p, k, x));
    }
    if in_read_chain(a, l, e, x) {
        let k = choose|k: nat| k < cap && #[trigger] in_piece(m1, p, k, x);
        assert(in_piece(m2, p, k, x));
    }
}

/// Freeing the read data of the lowest level that has any keeps the other chains of read
/// heads, still apart, and frees only bytes that were free or of those chains.
pub(crate) proof fn lemma_free_keeps_apart(s1: Cache, s2: Cache)
    requires
        s1.wf(),
        s2.wf(),
        reads_apart(s1),
        read_data_freed(s1, s2),
        s2.memory() == s1.memory(),
        s2.data_area().data_buffer() == s1.data_area().data_buffer(),
    ensures
        reads_apart(s2),
        read_bytes(s2).subset_of(read_bytes(s1)),
        free_bytes(s2.data_area().free_list()).subset_of(
            free_bytes(s1.data_area().free_list()).union(read_bytes(s1)),
        ),
{
    let mem = s1.memory();
    let h1 = s1.heads().heads();
    let lv1 = s1.heads().levels();
    let lv2 = s2.heads().levels();
    let cap = s1.spec_capacity();
    let fb1 = free_bytes(s1.data_area().free_list());
    let fb2 = free_bytes(s2.data_area().free_list());
    if forall|m: int| 0 <= m < REF_LEVELS ==> !s1.heads().level_has_readed(mem, m) {
        assert(fb2 == fb1);
        lemma_reads_frame(s1, s2);
        return;
    }
    let l = choose|l: int|
        {
            &&& 0 <= l < REF_LEVELS
            &&& s1.heads().level_has_readed(mem, l)
            &&& forall|m: int| 0 <= m < l ==> !s1.heads().level_has_readed(mem, m)
            &&& s2.heads().heads() == crate::head_segment::heads_freed(mem, h1, lv1[l])
            &&& lv2 == lv1.update(l, kept_heads(mem, h1, lv1[l]))
            &&& fb2.subset_of(fb1.union(chains_bytes(mem, freed_heads(mem, h1, lv1[l]), cap)))
        };
    let keep = |idx: usize| !readed_idx(mem, h1, idx);
    let pred = |idx: usize| readed_idx(mem, h1, idx);
    assert forall|i: int| 0 <= i < h1.len() implies #[trigger] s2.heads().heads()[i].addr()
        == h1[i].addr() by {
        h1[i].lemma_with_state(HeadState::Free);
    }
    assert forall|l2: int, e2: int| #[trigger] read_entry(s2, l2, e2) implies l2 != l && read_entry(
        s1,
        l2,
        e2,
    ) && lv2[l2][e2] == lv1[l2][e2] by {
        let j = lv2[l2][e2];
        assert(j < s2.heads().heads().len());
        assert(s2.heads().heads()[j as int].addr() == h1[j as int].addr());
        if l2 == l {
            assert(kept_heads(mem, h1, lv1[l]) == lv1[l].filter(keep));
            lv1[l].lemma_filter_pred(keep, e2);
        }
    }
    assert forall|l2: int, e2: int, x: int| #[trigger] in_read_chain(s2, l2, e2, x) implies in_read_chain(
        s1,
        l2,
        e2,
        x,
    ) by {
        assert(read_entry(s2, l2, e2));
        let j = lv2[l2][e2];
        assert(s2.heads().heads()[j as int].addr() == h1[j as int].addr());
        assert(entry_addr(s2, l2, e2) == entry_addr(s1, l2, e2));
        let k = choose|k: nat| k < cap && #[trigger] in_piece(mem, entry_addr(s2, l2, e2), k, x);
        assert(in_piece(mem, entry_addr(s1, l2, e2), k, x));
    }
    let freed = freed_heads(mem, h1, lv1[l]);
    let f = lv1[l].filter(pred);
    assert forall|x: int| #[trigger] chains_bytes(mem, freed, cap).contains(x) implies exists|e: int|
        #[trigger] in_read_chain(s1, l, e, x) by {
        let i = choose|i: int| 0 <= i < freed.len() && #[trigger] crate::cache::chain_bytes(mem, freed[i].addr(), cap).contains(x);
        let k = choose|k: nat| k < cap && #[trigger] in_piece(mem, freed[i].addr(), k, x);
        assert(freed == f.map_values(|idx: usize| h1[idx as int].with_state(HeadState::Free)));
        assert(freed[i] == h1[f[i] as int].with_state(HeadState::Free));
        h1[f[i] as int].lemma_with_state(HeadState::Free);
        lv1[l].lemma_filter_pred(pred, i);
        assert(f.contains(f[i]));
        lv1[l].lemma_filter_contains_rev(pred, f[i]);
        let e = choose|e: int| 0 <= e < lv1[l].len() && lv1[l][e] == f[i];
        assert(read_entry(s1, l, e));
        assert(in_piece(mem, entry_addr(s1, l, e), k, x));
        assert(in_read_chain(s1, l, e, x));
    }
    assert forall|x: int| fb2.contains(x) implies fb1.union(read_bytes(s1)).contains(x) by {
        if !fb1.contains(x) {
            assert(chains_bytes(mem, freed, cap).contains(x));
            let e = choose|e: int| #[trigger] in_read_chain(s1, l, e, x);
            assert(read_bytes(s1).contains(x));
        }
    }
    assert forall|l2: int, e2: int, x: int| #[trigger] in_read_chain(s2, l2, e2, x) implies s2.data_area().data_buffer()@.offset
        <= x < s2.spec_capacity() && !fb2.contains(x) by {
        assert(in_read_chain(s1, l2, e2, x));
        assert(read_entry(s2, l2, e2));
        if fb2.contains(x) && !fb1.contains(x) {
            assert(chains_bytes(mem, freed, cap).contains(x));
            let e = choose|e: int| #[trigger] in_read_chain(s1, l, e, x);
            assert(lv1[l][e] == lv1[l2][e2]);
        }
    }
    assert forall|l2: int, e2: int, l3: int, e3: int|
        #[trigger] read_entry(s2, l2, e2) && #[trigger] read_entry(s2, l3, e3) && lv2[l2][e2] == lv2[l3][e3]
            implies l2 == l3 && e2 == e3 by {
        assert(read_entry(s1, l2, e2) && read_entry(s1, l3, e3));
    }
    assert forall|l2: int, e2: int, l3: int, e3: int, x: int|
        #[trigger] in_read_chain(s2, l2, e2, x) && #[trigger] in_read_chain(s2, l3, e3, x) implies lv2[l2][e2]
            == lv2[l3][e3] by {
        assert(in_read_chain(s1, l2, e2, x) && in_read_chain(s1, l3, e3, x));
        assert(read_entry(s2, l2, e2) && read_entry(s2, l3, e3));
    }
    assert forall|x: int| read_bytes(s2).contains(x) implies read_bytes(s1).contains(x) by {
        let (l2, e2) = choose|l2: int, e2: int| #[trigger] in_read_chain(s2, l2, e2, x);
        assert(in_read_chain(s1, l2, e2, x));
    }
}

/// After a free zone is taken: its bytes were free, and no byte is free that was not.
pub(crate) proof fn lemma_zone_taken(before: FreeList, after: FreeList, off: u64, len: u64)
    requires
        before.by_start().contains_key(off),
        before.by_start()[off] == off + len,
        after.by_start().submap_of(before.by_start()),
    ensures
        free_bytes(after).subset_of(free_bytes(before)),
        forall|x: int| off <= x < off + len ==> #[trigger] free_bytes(before).contains(x),
{
    assert forall|x: int| free_bytes(after).contains(x) implies free_bytes(before).contains(x) by {
        let s = choose|s: u64| #[trigger] after.by_start().contains_key(s) && s <= x && x < after.by_start()[s];
        assert(before.by_start().contains_key(s));
    }
}

/// A byte of a chain of a read head is a byte of the data area and is not free.
pub(crate) proof fn lemma_read_byte(c: Cache, x: int)
    requires
        reads_apart(c),
        read_bytes(c).contains(x),
    ensures
        c.data_area().data_buffer()@.offset <= x < c.spec_capacity(),
        !free_bytes(c.data_area().free_list()).contains(x),
{
    let (l, e) = choose|l: int, e: int| #[trigger] in_read_chain(c, l, e, x);
}

/// Taking a free head `idx` at level `rc`, whose data is then not read, keeps the chains of
/// the other read heads, still apart.
pub(crate) proof fn lemma_head_taken_keeps_apart(a: Cache, b: Cache, idx: int, rc: int)
    requires
        a.wf(),
        b.wf(),
        reads_apart(a),
        0 <= idx < a.heads().heads().len(),
        0 <= rc < REF_LEVELS,
        b.spec_capacity() == a.spec_capacity(),
        b.data_area() == a.data_area(),
        b.heads().heads() == a.heads().heads().update(idx, b.heads().heads()[idx]),
        b.heads().levels() == a.heads().levels().update(
            rc,
            a.heads().levels()[rc].push(idx as usize),
        ),
        b.memory() == a.memory().update(idx * HEAD_SIZE + 1, 1u8),
    ensures
        reads_apart(b),
        read_bytes(b).subset_of(read_bytes(a)),
{
    let n = a.heads().heads().len();
    let dof = a.data_area().data_buffer()@.offset as int;
    assert(b.heads().heads()[idx].addr() == idx * HEAD_SIZE);
    assert(idx * HEAD_SIZE + HEAD_SIZE <= dof) by (nonlinear_arith)
        requires
            dof == n * HEAD_SIZE,
            idx < n,
    ;
    assert forall|l: int, e: int| #[trigger] read_entry(b, l, e) implies read_entry(a, l, e)
        && b.heads().levels()[l][e] == a.heads().levels()[l][e] by {
        let j = b.heads().levels()[l][e] as int;
        assert(b.heads().heads()[j].addr() == j * HEAD_SIZE);
        if j == idx {
            assert(b.memory()[idx * HEAD_SIZE + 1] == 1u8);
        } else {
            assert(a.heads().heads()[j].addr() == j * HEAD_SIZE);
            assert(j * HEAD_SIZE + 1 != idx * HEAD_SIZE + 1);
            if l == rc {
                assert(e < a.heads().levels()[rc].len());
            }
        }
    }
    assert forall|x: int| #[trigger] read_bytes(a).contains(x) implies b.memory()[x] == a.memory()[x] by {
        lemma_read_byte(a, x);
    }
    assert forall|l: int, e: int, y: int|
        #![trigger read_entry(b, l, e), b.memory()[y]]
        read_entry(b, l, e) && entry_addr(b, l, e) <= y < entry_addr(b, l, e) + HEAD_SIZE implies b.memory()[y]
            == a.memory()[y] by {
        let j = b.heads().levels()[l][e] as int;
        assert(b.heads().heads()[j].addr() == j * HEAD_SIZE);
        if j != idx {
            assert(!(j * HEAD_SIZE <= idx * HEAD_SIZE + 1 < j * HEAD_SIZE + HEAD_SIZE)) by (nonlinear_arith)
                requires
                    j != idx,
            ;
        } else {
            assert(b.memory()[idx * HEAD_SIZE + 1] == 1u8);
        }
    }
    lemma_reads_frame(a, b);
}


/// A cache none of whose levels names a head whose data was read has its chains of read
/// heads apart, as there are none.
pub proof fn lemma_unread_apart(c: Cache)
    requires
        forall|m: int| 0 <= m < REF_LEVELS ==> !c.heads().level_has_readed(c.memory(), m),
    ensures
        reads_apart(c),
        read_bytes(c) == Set::<int>::empty(),
{
    assert forall|l: int, e: int| !#[trigger] read_entry(c, l, e) by {
        if read_entry(c, l, e) {
            assert(c.heads().level_has_readed(c.memory(), l));
        }
    }
    assert(read_bytes(c) =~= Set::<int>::empty());
}

} // verus!

use vstd::prelude::*;
use crate::head::{head_readed, Head, HeadState, HEAD_SIZE};

verus! {

/// The number of reference levels of the heads: a head is freed from the lowest level first.
pub const REF_LEVELS: usize = 64;

/// Whether the data of head `idx` of `heads` has been read, in `mem`.
pub open spec fn readed_idx(mem: Seq<u8>, heads: Seq<Head>, idx: usize) -> bool {
    head_readed(mem, heads[idx as int].addr())
}

/// The heads after those of `level` whose data has been read in `mem` are freed.
pub open spec fn heads_freed(mem: Seq<u8>, heads: Seq<Head>, level: Seq<usize>) -> Seq<Head> {
    Seq::new(
        heads.len(),
        |i: int|
            if level.contains(i as usize) && readed_idx(mem, heads, i as usize) {
                heads[i].with_state(HeadState::Free)
            } else {
                heads[i]
            },
    )
}

/// The heads of `level` whose data has been read in `mem`, freed, in the order of the level.
pub open spec fn freed_heads(mem: Seq<u8>, heads: Seq<Head>, level: Seq<usize>) -> Seq<Head> {
    level.filter(|idx: usize| readed_idx(mem, heads, idx)).map_values(
        |idx: usize| heads[idx as int].with_state(HeadState::Free),
    )
}

/// The heads of `level` whose data has not been read in `mem`, in the order of the level.
pub open spec fn kept_heads(mem: Seq<u8>, heads: Seq<Head>, level: Seq<usize>) -> Seq<usize> {
    level.filter(|idx: usize| !readed_idx(mem, heads, idx))
}

/// The heads of the cache, and for each reference level the heads allocated at that level.
pub struct HeadSegment {
    head_segment: Vec<Head>,
    // Record the ref cnt of each data in the sampling tree, 64 level
    ref_table: Vec<Vec<usize>>,
}

impl HeadSegment {
    /// The heads.
    pub closed spec fn heads(&self) -> Seq<Head> {
        self.head_segment@
    }

    /// The heads allocated at each level, in the order they were allocated.
    pub closed spec fn levels(&self) -> Seq<Seq<usize>> {
        self.ref_table@.map_values(|v: Vec<usize>| v@)
    }

    /// The level `l` at which some allocated head has had its data read.
    pub open spec fn level_has_readed(&self, mem: Seq<u8>, l: int) -> bool {
        exists|k: int|
            0 <= k < self.levels()[l].len() && readed_idx(mem, self.heads(), #[trigger] self.levels()[l][k])
    }

    /// The head segment is well formed: it has its levels and they name its heads.
    pub open spec fn wf(&self) -> bool {
        &&& self.levels().len() == REF_LEVELS
        &&& self.heads().len() * HEAD_SIZE <= u64::MAX
        &&& forall|l: int, k: int|
            0 <= l < REF_LEVELS && 0 <= k < self.levels()[l].len() ==> #[trigger] self.levels()[l][k]
                < self.heads().len()
    }

    /// Every head lies inside a memory of `len` bytes.
    pub open spec fn fits(&self, len: int) -> bool {
        forall|i: int| 0 <= i < self.heads().len() ==> (#[trigger] self.heads()[i]).fits(len)
    }

    /// `head_num` free heads, one after the other from address `ptr`.
    pub fn new(ptr: usize, head_num: u64) -> (hs: HeadSegment)
        requires
            ptr + head_num * HEAD_SIZE <= usize::MAX,
        ensures
            hs.wf(),
            hs.heads().len() == head_num,
            forall|i: int|
                0 <= i < head_num ==> (#[trigger] hs.heads()[i]).addr() == ptr + i * HEAD_SIZE
                    && hs.heads()[i].is_free_spec(),
            forall|l: int| 0 <= l < REF_LEVELS ==> (#[trigger] hs.levels()[l]).len() == 0,
            forall|len: int| ptr + head_num * HEAD_SIZE <= len ==> hs.fits(len),
    {
        let mut head_segment: Vec<Head> = Vec::new();
        let mut i: u64 = 0;
        while i < head_num
            invariant
                i <= head_num,
                ptr + head_num * HEAD_SIZE <= usize::MAX,
                head_segment@.len() == i,
                forall|j: int|
                    0 <= j < i ==> (#[trigger] head_segment@[j]).addr() == ptr + j * HEAD_SIZE
                        && head_segment@[j].is_free_spec(),
            decreases head_num - i,
        {
            proof {
                assert(i * HEAD_SIZE + HEAD_SIZE <= head_num * HEAD_SIZE) by (nonlinear_arith)
                    requires
                        i < head_num,
                ;
            }
            head_segment.push(Head::from_ptr(ptr + (i * HEAD_SIZE) as usize));
            i = i + 1;
        }
        let mut ref_table: Vec<Vec<usize>> = Vec::new();
        let mut l: usize = 0;
        while l < REF_LEVELS
            invariant
                l <= REF_LEVELS,
                ref_table@.len() == l,
                forall|m: int| 0 <= m < l ==> (#[trigger] ref_table@[m])@.len() == 0,
            decreases REF_LEVELS - l,
        {
            ref_table.push(Vec::new());
            l = l + 1;
        }
        let hs = HeadSegment { head_segment, ref_table };
        proof {
            assert forall|len: int| ptr + head_num * HEAD_SIZE <= len implies hs.fits(len) by {
                assert forall|j: int| 0 <= j < hs.heads().len() implies (
                #[trigger] hs.heads()[j]).fits(len) by {
                    assert(j * HEAD_SIZE + HEAD_SIZE <= head_num * HEAD_SIZE) by (nonlinear_arith)
                        requires
                            j < head_num,
                    ;
                }
            }
        }
        hs
    }

    /// The number of bytes the heads take.
    pub fn size(&self) -> (r: u64)
        requires
            self.wf(),
        ensures
            r == self.heads().len() * HEAD_SIZE,
    {
        (self.head_segment.len() as u64) * HEAD_SIZE
    }

    /// Allocates the first free head at level `ref_cnt`: it is no longer free and its data
    /// is not read. Returns it and its index, or `None` when no head is free.
    pub fn allocate(&mut self, mem: &mut Vec<u8>, ref_cnt: usize) -> (r: Option<(Head, usize)>)
        requires
            old(self).wf(),
            old(self).fits(old(mem).len() as int),
            ref_cnt < REF_LEVELS,
        ensures
            final(self).wf(),
            final(self).fits(final(mem).len() as int),
            match r {
                Some((h, idx)) => {
                    &&& idx < old(self).heads().len()
                    &&& old(self).heads()[idx as int].is_free_spec()
                    &&& forall|j: int|
                        0 <= j < idx ==> !(#[trigger] old(self).heads()[j]).is_free_spec()
                    &&& h == old(self).heads()[idx as int].with_state(HeadState::Valid)
                    &&& final(self).heads() == old(self).heads().update(idx as int, h)
                    &&& final(self).levels() == old(self).levels().update(
                        ref_cnt as int,
                        old(self).levels()[ref_cnt as int].push(idx),
                    )
                    &&& final(mem)@ == old(mem)@.update(h.addr() + 1, 1u8)
                },
                None => {
                    &&& forall|j: int|
                        0 <= j < old(self).heads().len() ==> !(
                        #[trigger] old(self).heads()[j]).is_free_spec()
                    &&& *final(self) == *old(self)
                    &&& final(mem)@ == old(mem)@
                },
            },
    {
        let n = self.head_segment.len();
        let mut idx: usize = 0;
        proof {
            assert(self.ref_table@.len() == self.levels().len());
        }
        while idx < n
            invariant
                n == self.heads().len(),
                self.ref_table@.len() == REF_LEVELS,
                ref_cnt < REF_LEVELS,
                old(self).wf(),
                old(self).fits(old(mem).len() as int),
                idx <= n,
                *self == *old(self),
                mem@ == old(mem)@,
                forall|j: int| 0 <= j < idx ==> !(#[trigger] self.heads()[j]).is_free_spec(),
            decreases n - idx,
        {
            let mut head = self.head_segment[idx];
            if head.is_free() {
                let mut level = self.ref_table[ref_cnt].clone();
                level.push(idx);
                self.ref_table.set(ref_cnt, level);
                proof {
                    assert(self.heads()[idx as int].fits(mem.len() as int));
                }
                head.allocated(mem);
                self.head_segment.set(idx, head);
                proof {
                    assert(self.levels() =~= old(self).levels().update(
                        ref_cnt as int,
                        old(self).levels()[ref_cnt as int].push(idx),
                    ));
                    assert forall|l: int, k: int|
                        0 <= l < REF_LEVELS && 0 <= k < self.levels()[l].len() implies #[trigger] self.levels()[l][k]
                            < self.heads().len() by {
                        if l == ref_cnt {
                            if k < old(self).levels()[l].len() {
                                assert(old(self).levels()[l][k] < n);
                            }
                        } else {
                            assert(old(self).levels()[l][k] < n);
                        }
                    }
                    assert forall|i: int| 0 <= i < self.heads().len() implies (
                    #[trigger] self.heads()[i]).fits(mem.len() as int) by {
                        assert(old(self).heads()[i].fits(old(mem).len() as int));
                    }
                }
                return Some((head, idx));
            }
            idx = idx + 1;
        }
        None
    }

    /// Frees the heads whose data has been read, from the lowest level that has any: they
    /// leave their level and are returned, free, in the order of the level. Returns `None`
    /// when no allocated head has had its data read.
    pub fn free(&mut self, mem: &Vec<u8>) -> (r: Option<Vec<Head>>)
        requires
            old(self).wf(),
            old(self).fits(mem.len() as int),
        ensures
            final(self).wf(),
            final(self).fits(mem.len() as int),
            r matches Some(v) ==> forall|i: int|
                0 <= i < v@.len() ==> (#[trigger] v@[i]).fits(mem.len() as int),
            match r {
                Some(v) => exists|l: int|
                    {
                        &&& 0 <= l < REF_LEVELS
                        &&& old(self).level_has_readed(mem@, l)
                        &&& forall|m: int| 0 <= m < l ==> !old(self).level_has_readed(mem@, m)
                        &&& v@ == freed_heads(mem@, old(self).heads(), old(self).levels()[l])
                        &&& final(self).heads() == heads_freed(
                            mem@,
                            old(self).heads(),
                            old(self).levels()[l],
                        )
                        &&& final(self).levels() == old(self).levels().update(
                            l,
                            kept_heads(mem@, old(self).heads(), old(self).levels()[l]),
                        )
                    },
                None => {
                    &&& forall|m: int| 0 <= m < REF_LEVELS ==> !old(self).level_has_readed(mem@, m)
                    &&& final(self).heads() == old(self).heads()
                    &&& final(self).levels() == old(self).levels()
                },
            },
    {
        let ghost heads0 = self.heads();
        let ghost levels0 = self.levels();
        let ghost n = heads0.len();
        let ghost pred = |idx: usize| readed_idx(mem@, heads0, idx);
        let ghost keep = |idx: usize| !readed_idx(mem@, heads0, idx);
        let ghost to_free = |idx: usize| heads0[idx as int].with_state(HeadState::Free);
        proof {
            assert(self.ref_table@.len() == self.levels().len());
            assert(self.head_segment.len() == self.head_segment@.len());
        }
        let mut l: usize = 0;
        while l < REF_LEVELS
            invariant
                l <= REF_LEVELS,
                n == heads0.len(),
                n <= usize::MAX,
                self.wf(),
                self.fits(mem.len() as int),
                self.ref_table@.len() == REF_LEVELS,
                self.heads() == heads0,
                self.levels() == levels0,
                heads0 == old(self).heads(),
                levels0 == old(self).levels(),
                old(self).wf(),
                old(self).fits(mem.len() as int),
                pred == (|idx: usize| readed_idx(mem@, heads0, idx)),
                keep == (|idx: usize| !readed_idx(mem@, heads0, idx)),
                to_free == (|idx: usize| heads0[idx as int].with_state(HeadState::Free)),
                forall|m: int| 0 <= m < l ==> !old(self).level_has_readed(mem@, m),
            decreases REF_LEVELS - l,
        {
            if self.ref_table[l].len() == 0 {
                proof {
                    assert(self.levels()[l as int] == self.ref_table@[l as int]@);
                }
                l = l + 1;
                continue;
            }
            let heads_clone = self.ref_table[l].clone();
            let ghost lvl = levels0[l as int];
            proof {
                assert(heads_clone@ == lvl);
            }
            let mut kept: Vec<usize> = Vec::new();
            let mut ret: Vec<Head> = Vec::new();
            let mut k: usize = 0;
            proof {
                assert(lvl.take(0) =~= Seq::<usize>::empty());
                Seq::<usize>::empty().lemma_filter_len(keep);
                Seq::<usize>::empty().lemma_filter_len(pred);
                assert(kept@ =~= lvl.take(0).filter(keep));
                assert(ret@ =~= lvl.take(0).filter(pred).map_values(to_free));
                assert(self.heads() =~= heads_freed(mem@, heads0, lvl.take(0)));
            }
            while k < heads_clone.len()
                invariant
                    l < REF_LEVELS,
                    heads_clone@ == lvl,
                    lvl == levels0[l as int],
                    levels0 == old(self).levels(),
                    heads0 == old(self).heads(),
                    old(self).wf(),
                    old(self).fits(mem.len() as int),
                    self.ref_table@.len() == REF_LEVELS,
                    self.levels() == levels0,
                    self.heads().len() == n,
                    n == heads0.len(),
                    n <= usize::MAX,
                    k <= heads_clone@.len(),
                    pred == (|idx: usize| readed_idx(mem@, heads0, idx)),
                    keep == (|idx: usize| !readed_idx(mem@, heads0, idx)),
                    to_free == (|idx: usize| heads0[idx as int].with_state(HeadState::Free)),
                    self.heads() == heads_freed(mem@, heads0, lvl.take(k as int)),
                    kept@ == lvl.take(k as int).filter(keep),
                    ret@ == lvl.take(k as int).filter(pred).map_values(to_free),
                    forall|i: int| 0 <= i < ret@.len() ==> (#[trigger] ret@[i]).fits(mem.len() as int),
                    ret@.len() == 0 ==> kept@ == lvl.take(k as int) && forall|j: int|
                        0 <= j < k ==> !readed_idx(mem@, heads0, #[trigger] lvl[j]),
                decreases heads_clone@.len() - k,
            {
                let idx = heads_clone[k];
                proof {
                    assert(idx < n);
                    assert(self.heads()[idx as int].addr() == heads0[idx as int].addr()) by {
                        heads0[idx as int].lemma_with_state(HeadState::Free);
                    }
                    assert(heads0[idx as int].fits(mem.len() as int));
                }
                let mut head = self.head_segment[idx];
                let ghost before_heads = self.heads();
                let ghost before_kept = kept@;
                let ghost before_ret = ret@;
                let readed = head.is_readed(mem);
                proof {
                    assert(lvl.take(k + 1) =~= lvl.take(k as int).push(idx));
                    lvl.take(k as int).lemma_filter_push(idx, pred);
                    lvl.take(k as int).lemma_filter_push(idx, keep);
                    assert(readed == pred(idx));
                }
                if readed {
                    head.set_free();
                    self.head_segment.set(idx, head);
                    ret.push(head);
                    proof {
                        heads0[idx as int].lemma_with_state(HeadState::Free);
                        assert(head == to_free(idx));
                        assert(ret@ =~= before_ret.push(to_free(idx)));
                        assert(lvl.take(k + 1).filter(pred) == lvl.take(k as int).filter(pred).push(idx));
                        assert(lvl.take(k + 1).filter(pred).map_values(to_free) =~= lvl.take(k as int).filter(pred).map_values(to_free).push(to_free(idx)));
                    }
                } else {
                    kept.push(idx);
                    proof {
                        assert(kept@ =~= before_kept.push(idx));
                    }
                }
                proof {
                    assert(self.heads() =~= heads_freed(mem@, heads0, lvl.take(k + 1))) by {
                        assert forall|i: int| 0 <= i < n implies #[trigger] self.heads()[i]
                            == heads_freed(mem@, heads0, lvl.take(k + 1))[i] by {
                            let t1 = lvl.take(k as int);
                            let t2 = lvl.take(k + 1);
                            assert(t2 =~= t1.push(idx));
                            if i as usize != idx {
                                assert(t2.contains(i as usize) == t1.contains(i as usize)) by {
                                    if t2.contains(i as usize) {
                                        let j = choose|j: int| 0 <= j < t2.len() && t2[j] == i as usize;
                                        if j < k {
                                            assert(t1[j] == i as usize);
                                        }
                                    }
                                    if t1.contains(i as usize) {
                                        let j = choose|j: int| 0 <= j < t1.len() && t1[j] == i as usize;
                                        assert(t2[j] == i as usize);
                                    }
                                }
                            } else {
                                assert(t2[k as int] == idx);
                                assert(t2.contains(idx));
                            }
                        }
                    }
                    if ret@.len() == 0 {
                        assert(kept@ =~= lvl.take(k + 1));
                    }
                }
                k = k + 1;
            }
            proof {
                assert(lvl.take(k as int) =~= lvl);
                assert(self.ref_table@.len() == REF_LEVELS);
            }
            self.ref_table.set(l, kept);
            proof {
                assert(self.levels() =~= levels0.update(l as int, kept_heads(mem@, heads0, lvl)));
                assert forall|i: int| 0 <= i < self.heads().len() implies (
                #[trigger] self.heads()[i]).fits(mem.len() as int) by {
                    assert(heads0[i].fits(mem.len() as int));
                    heads0[i].lemma_with_state(HeadState::Free);
                }
                assert forall|m: int, j: int|
                    0 <= m < REF_LEVELS && 0 <= j < self.levels()[m].len() implies #[trigger] self.levels()[m][j]
                        < self.heads().len() by {
                    if m == l {
                        let kp = kept_heads(mem@, heads0, lvl);
                        lvl.lemma_filter_contains_rev(keep, kp[j]);
                        assert(lvl.filter(keep).contains(kp[j]));
                        assert(lvl.contains(kp[j]));
                        let t = choose|t: int| 0 <= t < lvl.len() && lvl[t] == kp[j];
                        assert(levels0[l as int][t] < n);
                    } else {
                        assert(levels0[m][j] < n);
                    }
                }
            }
            if ret.len() != 0 {
                proof {
                    assert(lvl.filter(pred).len() > 0);
                    lvl.lemma_filter_contains_rev(pred, lvl.filter(pred)[0]);
                    lvl.lemma_filter_pred(pred, 0);
                    let t = choose|t: int| 0 <= t < lvl.len() && lvl[t] == lvl.filter(pred)[0];
                    assert(readed_idx(mem@, old(self).heads(), old(self).levels()[l as int][t]));
                    assert(old(self).level_has_readed(mem@, l as int));
                }
                return Some(ret);
            }
            proof {
                assert(self.heads() =~= heads0);
                assert(kept@ == lvl);
                assert(self.levels() =~= levels0);
                assert(!old(self).level_has_readed(mem@, l as int));
            }
            l = l + 1;
        }
        None
    }
}

} // verus!

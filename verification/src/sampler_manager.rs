use vstd::prelude::*;
use crate::sampler::{distinct_values, reported, sampled, Sampler};

verus! {

/// Value `v` of dataset `d` is reported to task `t` in `res`.
pub open spec fn reported_in(res: Seq<(u32, u32, Vec<u64>)>, d: u32, v: u32, t: u64) -> bool {
    exists|k: int|
        0 <= k < res.len() && (#[trigger] res[k]).0 == d && res[k].1 == v && res[k].2@.contains(t)
}

/// The samplers of the datasets, one for each dataset that has a task.
pub struct SamplerManager {
    sampler_table: Vec<(u32, Sampler)>,
}

impl SamplerManager {
    /// The datasets that have a sampler, in order.
    pub closed spec fn datasets(&self) -> Seq<u32> {
        self.sampler_table@.map_values(|e: (u32, Sampler)| e.0)
    }

    /// The tasks of dataset `dataset`.
    pub closed spec fn loaders(&self, dataset: u32) -> Set<u64> {
        if exists|k: int|
            0 <= k < self.sampler_table@.len() && (#[trigger] self.sampler_table@[k]).0 == dataset {
            let k = choose|k: int|
                0 <= k < self.sampler_table@.len() && (#[trigger] self.sampler_table@[k]).0
                    == dataset;
            self.sampler_table@[k].1.loaders()
        } else {
            Set::empty()
        }
    }

    /// The indices that task `id` of dataset `dataset` still has to read.
    pub closed spec fn loader_values(&self, dataset: u32, id: u64) -> Set<u32> {
        if exists|k: int|
            0 <= k < self.sampler_table@.len() && (#[trigger] self.sampler_table@[k]).0 == dataset {
            let k = choose|k: int|
                0 <= k < self.sampler_table@.len() && (#[trigger] self.sampler_table@[k]).0
                    == dataset;
            self.sampler_table@[k].1.loader_values(id)
        } else {
            Set::empty()
        }
    }

    /// Each dataset has one sampler, which is well formed and holds a task.
    pub closed spec fn wf(&self) -> bool {
        &&& forall|k: int|
            0 <= k < self.sampler_table@.len() ==> (#[trigger] self.sampler_table@[k]).1.wf()
                && self.sampler_table@[k].1.has_root()
        &&& forall|a: int, b: int|
            #![trigger self.sampler_table@[a], self.sampler_table@[b]]
            0 <= a < b < self.sampler_table@.len() ==> self.sampler_table@[a].0
                != self.sampler_table@[b].0
    }

    /// No sampler yet.
    pub fn new() -> (m: SamplerManager)
        ensures
            m.wf(),
            m.datasets() == Seq::<u32>::empty(),
    {
        let m = SamplerManager { sampler_table: Vec::new() };
        proof {
            assert(m.datasets() =~= Seq::<u32>::empty());
        }
        m
    }

    /// Adds the task `id` of the indices `keys` to the sampler of `dataset`, which is made when
    /// the dataset has none: the task then has exactly these indices to read, and every
    /// other task keeps its own.
    pub fn insert(&mut self, dataset: u32, id: u64, keys: Vec<u32>)
        requires
            old(self).wf(),
            keys@.no_duplicates(),
            !old(self).loaders(dataset).contains(id),
        ensures
            final(self).wf(),
            final(self).loaders(dataset) == old(self).loaders(dataset).insert(id),
            final(self).loader_values(dataset, id) == keys@.to_set(),
            forall|d: u32, t: u64|
                d != dataset || t != id ==> #[trigger] final(self).loader_values(d, t) == old(
                    self,
                ).loader_values(d, t),
            forall|d: u32| d != dataset ==> #[trigger] final(self).loaders(d) == old(self).loaders(d),
    {
        let ghost t0 = self.sampler_table@;
        let mut i: usize = 0;
        while i < self.sampler_table.len()
            invariant
                i <= self.sampler_table.len(),
                self.sampler_table@ == t0,
                t0 == old(self).sampler_table@,
                old(self).wf(),
                keys@.no_duplicates(),
                !old(self).loaders(dataset).contains(id),
                forall|k: int| 0 <= k < i ==> (#[trigger] t0[k]).0 != dataset,
            decreases self.sampler_table.len() - i,
        {
            if self.sampler_table[i].0 == dataset {
                let (d, mut sampler) = self.sampler_table.remove(i);
                proof {
                    assert(t0[i as int].0 == dataset);
                    SamplerManager::lemma_lookup(t0, i as int);
                    assert(old(self).loaders(dataset) == sampler.loaders());
                }
                sampler.insert(id, keys);
                self.sampler_table.insert(i, (d, sampler));
                proof {
                    let t1 = self.sampler_table@;
                    assert(t1 =~= t0.update(i as int, (d, sampler)));
                    SamplerManager::lemma_lookup(t1, i as int);
                    SamplerManager::lemma_lookup(t0, i as int);
                    assert forall|dd: u32, t: u64|
                        dd != dataset || t != id implies #[trigger] self.loader_values(dd, t)
                        == old(self).loader_values(dd, t) by {
                        if dd != dataset {
                            SamplerManager::lemma_same_elsewhere(t0, t1, i as int, dd);
                        }
                    }
                    assert forall|dd: u32| dd != dataset implies #[trigger] self.loaders(dd)
                        == old(self).loaders(dd) by {
                        SamplerManager::lemma_same_elsewhere(t0, t1, i as int, dd);
                    }
                }
                return;
            }
            i = i + 1;
        }
        let mut sampler = Sampler::new();
        sampler.insert(id, keys);
        self.sampler_table.push((dataset, sampler));
        proof {
            let t1 = self.sampler_table@;
            SamplerManager::lemma_lookup(t1, t0.len() as int);
            assert(!(exists|k: int| 0 <= k < t0.len() && (#[trigger] t0[k]).0 == dataset));
            assert(self.loaders(dataset) =~= old(self).loaders(dataset).insert(id));
            assert forall|dd: u32, t: u64|
                dd != dataset || t != id implies #[trigger] self.loader_values(dd, t) == old(
                    self,
                ).loader_values(dd, t) by {
                if dd != dataset {
                    SamplerManager::lemma_push_elsewhere(t0, t1, dd);
                }
            }
            assert forall|dd: u32| dd != dataset implies #[trigger] self.loaders(dd) == old(
                self,
            ).loaders(dd) by {
                SamplerManager::lemma_push_elsewhere(t0, t1, dd);
            }
        }
    }

    /// The entry of a table whose datasets differ is the one found for its dataset.
    proof fn lemma_lookup(t: Seq<(u32, Sampler)>, i: int)
        requires
            0 <= i < t.len(),
            forall|a: int, b: int|
                #![trigger t[a], t[b]]
                0 <= a < b < t.len() ==> t[a].0 != t[b].0,
        ensures
            (choose|k: int| 0 <= k < t.len() && (#[trigger] t[k]).0 == t[i].0) == i,
    {
        let k = choose|k: int| 0 <= k < t.len() && (#[trigger] t[k]).0 == t[i].0;
        if k != i {
            if k < i {
                assert(t[k].0 != t[i].0);
            } else {
                assert(t[i].0 != t[k].0);
            }
        }
    }

    /// Changing the sampler at entry `i` leaves the other datasets as they were.
    proof fn lemma_same_elsewhere(t0: Seq<(u32, Sampler)>, t1: Seq<(u32, Sampler)>, i: int, d: u32)
        requires
            0 <= i < t0.len(),
            t1.len() == t0.len(),
            t1[i].0 == t0[i].0,
            forall|k: int| 0 <= k < t0.len() && k != i ==> t1[k] == t0[k],
            d != t0[i].0,
        ensures
            (exists|k: int| 0 <= k < t1.len() && (#[trigger] t1[k]).0 == d) == (exists|k: int|
                0 <= k < t0.len() && (#[trigger] t0[k]).0 == d),
            (exists|k: int| 0 <= k < t0.len() && (#[trigger] t0[k]).0 == d) ==> {
                let k0 = choose|k: int| 0 <= k < t0.len() && (#[trigger] t0[k]).0 == d;
                let k1 = choose|k: int| 0 <= k < t1.len() && (#[trigger] t1[k]).0 == d;
                t1[k1].0 == d && t0[k0].0 == d && k0 != i && k1 != i
            },
    {
        if exists|k: int| 0 <= k < t0.len() && (#[trigger] t0[k]).0 == d {
            let k0 = choose|k: int| 0 <= k < t0.len() && (#[trigger] t0[k]).0 == d;
            assert(t1[k0].0 == d);
        }
        if exists|k: int| 0 <= k < t1.len() && (#[trigger] t1[k]).0 == d {
            let k1 = choose|k: int| 0 <= k < t1.len() && (#[trigger] t1[k]).0 == d;
            assert(k1 != i);
            assert(t0[k1].0 == d);
        }
    }

    /// Pushing a new dataset leaves the others as they were.
    proof fn lemma_push_elsewhere(t0: Seq<(u32, Sampler)>, t1: Seq<(u32, Sampler)>, d: u32)
        requires
            t1.len() == t0.len() + 1,
            forall|k: int| 0 <= k < t0.len() ==> t1[k] == t0[k],
            t1[t0.len() as int].0 != d,
        ensures
            (exists|k: int| 0 <= k < t1.len() && (#[trigger] t1[k]).0 == d) == (exists|k: int|
                0 <= k < t0.len() && (#[trigger] t0[k]).0 == d),
    {
        if exists|k: int| 0 <= k < t0.len() && (#[trigger] t0[k]).0 == d {
            let k0 = choose|k: int| 0 <= k < t0.len() && (#[trigger] t0[k]).0 == d;
            assert(t1[k0].0 == d);
        }
        if exists|k: int| 0 <= k < t1.len() && (#[trigger] t1[k]).0 == d {
            let k1 = choose|k: int| 0 <= k < t1.len() && (#[trigger] t1[k]).0 == d;
            assert(t0[k1].0 == d);
        }
    }

    /// One sampling round of every dataset: each value read, with its dataset and readers.
    /// Every dataset keeps its tasks; each task with indices left loses exactly one of them,
    /// the other tasks lose none, and the round reports to each task exactly the index it
    /// lost, with the task's dataset; the readers of each value are distinct.
    pub fn sample(&mut self) -> (res: Vec<(u32, u32, Vec<u64>)>)
        requires
            old(self).wf(),
        ensures
            final(self).wf(),
            final(self).datasets() == old(self).datasets(),
            forall|d: u32| #[trigger] final(self).loaders(d) == old(self).loaders(d),
            forall|d: u32, t: u64| #[trigger]
                final(self).loader_values(d, t).subset_of(old(self).loader_values(d, t)),
            forall|d: u32, t: u64|
                #[trigger] old(self).loader_values(d, t).len() > 0 ==> exists|v: u32|
                    old(self).loader_values(d, t).contains(v) && final(self).loader_values(d, t)
                        == old(self).loader_values(d, t).remove(v),
            forall|d: u32, v: u32, t: u64|
                #[trigger] reported_in(res@, d, v, t) <==> (old(self).loader_values(d, t).contains(
                    v,
                ) && !final(self).loader_values(d, t).contains(v)),
            forall|k: int| 0 <= k < res@.len() ==> (#[trigger] res@[k]).2@.no_duplicates(),
    {
        let mut res: Vec<(u32, u32, Vec<u64>)> = Vec::new();
        let ghost t0 = self.sampler_table@;
        let ghost mut rs: Seq<Seq<(u32, Vec<u64>)>> = Seq::empty();
        let mut i: usize = 0;
        while i < self.sampler_table.len()
            invariant
                i <= self.sampler_table.len(),
                t0 == old(self).sampler_table@,
                old(self).wf(),
                self.sampler_table@.len() == t0.len(),
                rs.len() == i,
                forall|k: int| 0 <= k < t0.len() ==> (#[trigger] self.sampler_table@[k]).0 == t0[k].0,
                forall|k: int| i <= k < t0.len() ==> (#[trigger] self.sampler_table@[k]) == t0[k],
                forall|k: int|
                    0 <= k < i ==> (#[trigger] self.sampler_table@[k]).1.wf()
                        && self.sampler_table@[k].1.has_root()
                        && self.sampler_table@[k].1.loaders() == t0[k].1.loaders()
                        && sampled(t0[k].1, self.sampler_table@[k].1, rs[k])
                        && forall|t: u64| #[trigger]
                            self.sampler_table@[k].1.loader_values(t).subset_of(
                                t0[k].1.loader_values(t),
                            ),
                forall|d: u32, v: u32, t: u64|
                    #[trigger] reported_in(res@, d, v, t) <==> exists|k: int|
                        0 <= k < i && t0[k].0 == d && #[trigger] reported(rs[k], v, t),
                forall|k: int| 0 <= k < res@.len() ==> (#[trigger] res@[k]).2@.no_duplicates(),
            decreases self.sampler_table.len() - i,
        {
            let (dataset, mut sampler) = self.sampler_table.remove(i);
            let ghost before = sampler;
            proof {
                assert(before == t0[i as int].1);
            }
            let sampling_table = sampler.sample();
            self.sampler_table.insert(i, (dataset, sampler));
            let ghost res_before = res@;
            let mut j: usize = 0;
            while j < sampling_table.len()
                invariant
                    j <= sampling_table.len(),
                    forall|d: u32, v: u32, t: u64|
                        #[trigger] reported_in(res@, d, v, t) <==> (reported_in(res_before, d, v, t)
                            || (d == dataset && exists|q: int|
                            0 <= q < j && (#[trigger] sampling_table@[q]).0 == v
                                && sampling_table@[q].1@.contains(t))),
                    forall|k: int| 0 <= k < res@.len() ==> (#[trigger] res@[k]).2@.no_duplicates(),
                    distinct_values(sampling_table@),
                decreases sampling_table.len() - j,
            {
                let (data, set) = &sampling_table[j];
                let mut tasks: Vec<u64> = Vec::new();
                let mut k: usize = 0;
                while k < set.len()
                    invariant
                        k <= set.len(),
                        tasks@ == set@.subrange(0, k as int),
                    decreases set.len() - k,
                {
                    tasks.push(set[k]);
                    k = k + 1;
                    proof {
                        assert(tasks@ =~= set@.subrange(0, k as int));
                    }
                }
                proof {
                    assert(tasks@ =~= set@);
                    assert(sampling_table@[j as int].1@.no_duplicates());
                }
                let ghost r0 = res@;
                res.push((dataset, *data, tasks));
                proof {
                    assert forall|k: int| 0 <= k < res@.len() implies (#[trigger] res@[k]).2@.no_duplicates() by {
                        if k < r0.len() {
                            assert(res@[k] == r0[k]);
                        }
                    }
                    assert forall|d: u32, v: u32, t: u64|
                        #[trigger] reported_in(res@, d, v, t) <==> (reported_in(res_before, d, v, t)
                            || (d == dataset && exists|q: int|
                            0 <= q < j + 1 && (#[trigger] sampling_table@[q]).0 == v
                                && sampling_table@[q].1@.contains(t))) by {
                        if reported_in(res@, d, v, t) {
                            let k2 = choose|k2: int|
                                0 <= k2 < res@.len() && (#[trigger] res@[k2]).0 == d && res@[k2].1 == v
                                    && res@[k2].2@.contains(t);
                            if k2 < r0.len() {
                                assert(res@[k2] == r0[k2]);
                                assert(reported_in(r0, d, v, t));
                            }
                        }
                        if reported_in(r0, d, v, t) {
                            let k2 = choose|k2: int|
                                0 <= k2 < r0.len() && (#[trigger] r0[k2]).0 == d && r0[k2].1 == v
                                    && r0[k2].2@.contains(t);
                            assert(res@[k2] == r0[k2]);
                        }
                        if d == dataset && sampling_table@[j as int].0 == v
                            && sampling_table@[j as int].1@.contains(t) {
                            assert(res@[r0.len() as int].2@ == sampling_table@[j as int].1@);
                        }
                    }
                }
                j = j + 1;
            }
            proof {
                let rs0 = rs;
                rs = rs.push(sampling_table@);
                assert forall|d: u32, v: u32, t: u64|
                    #[trigger] reported_in(res@, d, v, t) <==> exists|k: int|
                        0 <= k < i + 1 && t0[k].0 == d && #[trigger] reported(rs[k], v, t) by {
                    assert(rs[i as int] == sampling_table@);
                    if exists|k: int| 0 <= k < i + 1 && t0[k].0 == d && #[trigger] reported(rs[k], v, t) {
                        let k = choose|k: int| 0 <= k < i + 1 && t0[k].0 == d && #[trigger] reported(rs[k], v, t);
                        if k < i {
                            assert(rs0[k] == rs[k]);
                        } else {
                            let q = choose|q: int|
                                0 <= q < sampling_table@.len() && (#[trigger] sampling_table@[q]).0 == v
                                    && sampling_table@[q].1@.contains(t);
                        }
                    }
                    if reported_in(res_before, d, v, t) {
                        let k = choose|k: int| 0 <= k < i && t0[k].0 == d && #[trigger] reported(rs0[k], v, t);
                        assert(rs[k] == rs0[k]);
                    }
                    if d == dataset && exists|q: int|
                        0 <= q < sampling_table@.len() && (#[trigger] sampling_table@[q]).0 == v
                            && sampling_table@[q].1@.contains(t) {
                        assert(reported(rs[i as int], v, t));
                    }
                }
                assert forall|k: int|
                    0 <= k < i + 1 implies (#[trigger] self.sampler_table@[k]).1.wf()
                    && self.sampler_table@[k].1.has_root()
                    && self.sampler_table@[k].1.loaders() == t0[k].1.loaders()
                    && sampled(t0[k].1, self.sampler_table@[k].1, rs[k])
                    && forall|t: u64| #[trigger]
                        self.sampler_table@[k].1.loader_values(t).subset_of(
                            t0[k].1.loader_values(t),
                        ) by {
                    if k < i {
                        assert(rs[k] == rs0[k]);
                    }
                }
            }
            i = i + 1;
        }
        proof {
            let t1 = self.sampler_table@;
            assert(self.datasets() =~= old(self).datasets());
            assert forall|a: int, b: int|
                #![trigger t1[a], t1[b]]
                0 <= a < b < t1.len() implies t1[a].0 != t1[b].0 by {
                assert(t0[a].0 != t0[b].0);
            }
            assert forall|d: u32| #[trigger] self.loaders(d) == old(self).loaders(d) by {
                SamplerManager::lemma_same_index(t0, t1, d);
            }
            assert forall|d: u32, t: u64| #[trigger]
                self.loader_values(d, t).subset_of(old(self).loader_values(d, t)) by {
                SamplerManager::lemma_same_index(t0, t1, d);
            }
            assert forall|d: u32, t: u64|
                #[trigger] old(self).loader_values(d, t).len() > 0 implies exists|v: u32|
                    old(self).loader_values(d, t).contains(v) && self.loader_values(d, t)
                        == old(self).loader_values(d, t).remove(v) by {
                SamplerManager::lemma_same_index(t0, t1, d);
                if exists|k: int| 0 <= k < t0.len() && (#[trigger] t0[k]).0 == d {
                    let k = choose|k: int| 0 <= k < t0.len() && (#[trigger] t0[k]).0 == d;
                    assert(sampled(t0[k].1, t1[k].1, rs[k]));
                    assert(t0[k].1.loader_values(t).len() > 0);
                }
            }
            assert forall|d: u32, v: u32, t: u64|
                #[trigger] reported_in(res@, d, v, t) <==> (old(self).loader_values(d, t).contains(v)
                    && !self.loader_values(d, t).contains(v)) by {
                SamplerManager::lemma_same_index(t0, t1, d);
                if exists|k: int| 0 <= k < t0.len() && (#[trigger] t0[k]).0 == d {
                    let k = choose|k: int| 0 <= k < t0.len() && (#[trigger] t0[k]).0 == d;
                    SamplerManager::lemma_lookup(t0, k);
                    assert(sampled(t0[k].1, t1[k].1, rs[k]));
                    if reported_in(res@, d, v, t) {
                        let k2 = choose|k2: int| 0 <= k2 < t0.len() && t0[k2].0 == d && #[trigger] reported(rs[k2], v, t);
                        SamplerManager::lemma_lookup(t0, k2);
                    }
                    if old(self).loader_values(d, t).contains(v) && !self.loader_values(d, t).contains(v) {
                        assert(reported(rs[k], v, t));
                    }
                } else {
                    if reported_in(res@, d, v, t) {
                        let k2 = choose|k2: int| 0 <= k2 < t0.len() && t0[k2].0 == d && #[trigger] reported(rs[k2], v, t);
                        assert(t0[k2].0 == d);
                    }
                }
            }
        }
        res
    }

    /// Tables with the same datasets at the same entries find a dataset at the same entry.
    proof fn lemma_same_index(t0: Seq<(u32, Sampler)>, t1: Seq<(u32, Sampler)>, d: u32)
        requires
            t1.len() == t0.len(),
            forall|k: int| 0 <= k < t0.len() ==> (#[trigger] t1[k]).0 == t0[k].0,
            forall|a: int, b: int|
                #![trigger t0[a], t0[b]]
                0 <= a < b < t0.len() ==> t0[a].0 != t0[b].0,
        ensures
            (exists|k: int| 0 <= k < t1.len() && (#[trigger] t1[k]).0 == d) == (exists|k: int|
                0 <= k < t0.len() && (#[trigger] t0[k]).0 == d),
            (exists|k: int| 0 <= k < t0.len() && (#[trigger] t0[k]).0 == d) ==> (choose|k: int|
                0 <= k < t1.len() && (#[trigger] t1[k]).0 == d) == (choose|k: int|
                0 <= k < t0.len() && (#[trigger] t0[k]).0 == d),
    {
        if exists|k: int| 0 <= k < t0.len() && (#[trigger] t0[k]).0 == d {
            let k0 = choose|k: int| 0 <= k < t0.len() && (#[trigger] t0[k]).0 == d;
            assert(t1[k0].0 == d);
            let k1 = choose|k: int| 0 <= k < t1.len() && (#[trigger] t1[k]).0 == d;
            assert(t0[k1].0 == d);
            if k0 != k1 {
                if k0 < k1 {
                    assert(t0[k0].0 != t0[k1].0);
                } else {
                    assert(t0[k1].0 != t0[k0].0);
                }
            }
        }
        if exists|k: int| 0 <= k < t1.len() && (#[trigger] t1[k]).0 == d {
            let k1 = choose|k: int| 0 <= k < t1.len() && (#[trigger] t1[k]).0 == d;
            assert(t0[k1].0 == d);
        }
    }
}

} // verus!

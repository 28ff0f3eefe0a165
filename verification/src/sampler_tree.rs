use vstd::prelude::*;
use crate::sampler::{distinct_values, lemma_epoch, reported, sampled, Sampler};

verus! {

/// The sampling tree of the loaders of one dataset: the loaders' indices in a tree whose
/// nodes hold the indices that their loaders share, with the number of indices each loader
/// still has to read. It samples as `Sampler` does, so each loader with indices left reads
/// one of them in each round and is counted down.
pub struct SamplerTree {
    sampler: Sampler,
}

/// One round of sampling the tree from `before` to `after` that reported `res`: each
/// loader with indices left loses exactly one of them and is reported it, the others lose
/// none, and the round reports nothing exactly when no loader has indices left.
pub open spec fn tree_sampled(
    before: SamplerTree,
    after: SamplerTree,
    res: Seq<(u32, Vec<u64>)>,
) -> bool {
    sampled(before.inner(), after.inner(), res)
}

impl SamplerTree {
    /// The sampler that holds the tree and the loaders' sizes.
    pub closed spec fn inner(&self) -> Sampler {
        self.sampler
    }

    /// The tree is well formed.
    pub open spec fn wf(&self) -> bool {
        self.inner().wf()
    }

    /// Whether the tree holds a loader.
    pub open spec fn has_root(&self) -> bool {
        self.inner().has_root()
    }

    /// The loaders of the tree.
    pub open spec fn loaders(&self) -> Set<u64> {
        self.inner().loaders()
    }

    /// The indices that loader `id` still has to read.
    pub open spec fn loader_values(&self, id: u64) -> Set<u32> {
        self.inner().loader_values(id)
    }

    /// The loaders with the number of indices each still has to read.
    pub open spec fn sizes(&self) -> Seq<(u64, usize)> {
        self.inner().table()
    }

    /// An empty tree.
    pub fn new() -> (t: SamplerTree)
        ensures
            t.wf(),
            !t.has_root(),
            t.loaders() == Set::<u64>::empty(),
            forall|id: u64| #[trigger] t.loader_values(id) == Set::<u32>::empty(),
            t.sizes() == Seq::<(u64, usize)>::empty(),
    {
        SamplerTree { sampler: Sampler::new() }
    }

    /// Adds the loader `id` of the indices `indices`: it then has exactly these indices to
    /// read, every other loader keeps its own, and the sizes are taken anew from the tree.
    pub fn insert(&mut self, indices: Vec<u32>, id: u64)
        requires
            old(self).wf(),
            indices@.no_duplicates(),
            !old(self).loaders().contains(id),
        ensures
            final(self).wf(),
            final(self).has_root(),
            final(self).loaders() == old(self).loaders().insert(id),
            final(self).loader_values(id) == indices@.to_set(),
            forall|t: u64|
                t != id ==> #[trigger] final(self).loader_values(t) == old(self).loader_values(t),
            final(self).inner().table_counts(),
    {
        self.sampler.insert(id, indices);
    }

    /// The indices that loader `loader_id` still has to read, each listed once.
    pub fn get_task_values(&self, loader_id: u64) -> (r: Vec<u32>)
        requires
            self.wf(),
        ensures
            r@.to_set() == self.loader_values(loader_id),
            r@.no_duplicates(),
    {
        self.sampler.get_task_values(loader_id)
    }

    /// Whether no loader has an index left to read.
    pub fn is_empty(&self) -> (r: bool)
        ensures
            r == (forall|k: int| 0 <= k < self.sizes().len() ==> (#[trigger] self.sizes()[k]).1 == 0),
    {
        let r = self.sampler.no_task_left();
        proof {
            assert(self.sizes() == self.sampler.table());
        }
        r
    }

    /// One sampling round: each loader with indices left reads exactly one of them, which it
    /// then no longer has, and is counted down by one; the others read none; each value is
    /// reported once, with all its readers; the round reports nothing exactly when no loader
    /// has indices left.
    pub fn sample(&mut self) -> (res: Vec<(u32, Vec<u64>)>)
        requires
            old(self).wf(),
            old(self).has_root(),
        ensures
            final(self).wf(),
            final(self).has_root(),
            final(self).loaders() == old(self).loaders(),
            final(self).sizes().len() == old(self).sizes().len(),
            forall|k: int|
                0 <= k < old(self).sizes().len() ==> (#[trigger] final(self).sizes()[k]) == (
                    old(self).sizes()[k].0,
                    if old(self).sizes()[k].1 != 0 {
                        (old(self).sizes()[k].1 - 1) as usize
                    } else {
                        0usize
                    },
                ),
            tree_sampled(*old(self), *final(self), res@),
            distinct_values(res@),
    {
        self.sampler.sample()
    }
}

/// Over rounds of sampling the tree from `states[0]` through `states[1]`, ... with the
/// results `results`, the values reported to a loader are exactly the indices it had at
/// first and no longer has at the end, each in one round only; once a round reports
/// nothing, every loader has been reported each of its first indices exactly once, and no
/// other value.
pub proof fn lemma_tree_epoch(states: Seq<SamplerTree>, results: Seq<Seq<(u32, Vec<u64>)>>)
    requires
        states.len() == results.len() + 1,
        forall|i: int| 0 <= i < states.len() ==> (#[trigger] states[i]).wf(),
        forall|i: int|
            0 <= i < results.len() ==> tree_sampled(states[i], states[i + 1], #[trigger] results[i]),
    ensures
        forall|t: u64, v: u32|
            (exists|i: int| 0 <= i < results.len() && #[trigger] reported(results[i], v, t)) <==> (
            states[0].loader_values(t).contains(v) && !states.last().loader_values(t).contains(v)),
        forall|t: u64, v: u32, i: int, j: int|
            0 <= i < j < results.len() && #[trigger] reported(results[i], v, t) ==> !(#[trigger] reported(
                results[j],
                v,
                t,
            )),
        results.len() > 0 && results.last().len() == 0 ==> forall|t: u64, v: u32|
            (exists|i: int| 0 <= i < results.len() && #[trigger] reported(results[i], v, t))
                <==> states[0].loader_values(t).contains(v),
{
    let inner = states.map_values(|s: SamplerTree| s.inner());
    assert forall|i: int| 0 <= i < inner.len() implies (#[trigger] inner[i]).wf() by {
        assert(states[i].wf());
    }
    assert forall|i: int| 0 <= i < results.len() implies sampled(
        inner[i],
        inner[i + 1],
        #[trigger] results[i],
    ) by {
        assert(tree_sampled(states[i], states[i + 1], results[i]));
    }
    lemma_epoch(inner, results);
    assert(inner[0] == states[0].inner());
    assert(inner.last() == states.last().inner());
}

} // verus!

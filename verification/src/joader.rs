use vstd::prelude::*;
use crate::dataset::{indices, indices_upto};
use crate::sampler_tree::{tree_sampled, SamplerTree};

verus! {

/// For each index of a dataset, the number of loaders that still have to read it: the
/// reference count a read item is cached with.
pub struct RefTable {
    counts: Vec<usize>,
}

impl RefTable {
    /// The count of each index, by index.
    pub closed spec fn counts(&self) -> Seq<usize> {
        self.counts@
    }

    /// The table of a dataset of `len` items, no loader yet.
    pub fn new(len: u32) -> (t: RefTable)
        ensures
            t.counts() == Seq::new(len as nat, |i: int| 0usize),
    {
        let mut counts: Vec<usize> = Vec::new();
        let mut i: u32 = 0;
        while i < len
            invariant
                i <= len,
                counts@ == Seq::new(i as nat, |j: int| 0usize),
            decreases len - i,
        {
            counts.push(0);
            i = i + 1;
            proof {
                assert(counts@ =~= Seq::new(i as nat, |j: int| 0usize));
            }
        }
        RefTable { counts }
    }

    /// The number of indices of the table.
    pub fn len(&self) -> (r: usize)
        ensures
            r == self.counts().len(),
    {
        self.counts.len()
    }

    /// The count of index `idx`.
    pub fn count(&self, idx: u32) -> (r: usize)
        requires
            idx < self.counts().len(),
        ensures
            r == self.counts()[idx as int],
    {
        self.counts[idx as usize]
    }

    /// A loader is added: it has to read every index, so each count goes up by one.
    pub fn add_loader(&mut self)
        requires
            forall|i: int| 0 <= i < old(self).counts().len() ==> #[trigger] old(self).counts()[i] < usize::MAX,
        ensures
            final(self).counts().len() == old(self).counts().len(),
            forall|i: int|
                0 <= i < old(self).counts().len() ==> #[trigger] final(self).counts()[i] == old(self).counts()[i] + 1,
    {
        let mut i: usize = 0;
        while i < self.counts.len()
            invariant
                i <= self.counts@.len(),
                self.counts@.len() == old(self).counts().len(),
                forall|j: int| 0 <= j < i ==> #[trigger] self.counts@[j] == old(self).counts()[j] + 1,
                forall|j: int| i <= j < self.counts@.len() ==> #[trigger] self.counts@[j] == old(self).counts()[j],
                forall|j: int| 0 <= j < old(self).counts().len() ==> #[trigger] old(self).counts()[j] < usize::MAX,
            decreases self.counts@.len() - i,
        {
            let c = self.counts[i];
            self.counts.set(i, c + 1);
            i = i + 1;
        }
    }

    /// `count` loaders read index `idx`: its count goes down by `count`, and the count left
    /// is returned.
    pub fn get_ref_cnt(&mut self, idx: u32, count: usize) -> (r: usize)
        requires
            idx < old(self).counts().len(),
            old(self).counts()[idx as int] >= count,
        ensures
            r == old(self).counts()[idx as int] - count,
            final(self).counts() == old(self).counts().update(idx as int, r),
    {
        let c = self.counts[idx as usize] - count;
        self.counts.set(idx as usize, c);
        c
    }

    /// A loader is deleted: each index it still had to read, listed once in `values`, has
    /// its count go down by one.
    pub fn del_loader(&mut self, values: &Vec<u32>)
        requires
            old(self).counts().len() <= u32::MAX,
            values@.no_duplicates(),
            forall|k: int|
                0 <= k < values@.len() ==> #[trigger] values@[k] < old(self).counts().len()
                    && old(self).counts()[values@[k] as int] >= 1,
        ensures
            final(self).counts().len() == old(self).counts().len(),
            forall|i: int|
                0 <= i < old(self).counts().len() ==> #[trigger] final(self).counts()[i] == if values@.contains(
                    i as u32,
                ) {
                    old(self).counts()[i] - 1
                } else {
                    old(self).counts()[i] as int
                },
    {
        let mut k: usize = 0;
        while k < values.len()
            invariant
                k <= values@.len(),
                values@.no_duplicates(),
                self.counts@.len() == old(self).counts().len(),
                old(self).counts().len() <= u32::MAX,
                forall|q: int|
                    0 <= q < values@.len() ==> #[trigger] values@[q] < old(self).counts().len()
                        && old(self).counts()[values@[q] as int] >= 1,
                forall|i: int|
                    0 <= i < old(self).counts().len() ==> #[trigger] self.counts@[i] == if values@.subrange(
                        0,
                        k as int,
                    ).contains(i as u32) {
                        old(self).counts()[i] - 1
                    } else {
                        old(self).counts()[i] as int
                    },
            decreases values@.len() - k,
        {
            let v = values[k];
            proof {
                assert(!values@.subrange(0, k as int).contains(v)) by {
                    if values@.subrange(0, k as int).contains(v) {
                        let q = choose|q: int| 0 <= q < k && #[trigger] values@.subrange(0, k as int)[q] == v;
                        assert(values@[q] == values@[k as int]);
                    }
                }
            }
            let c = self.counts[v as usize];
            self.counts.set(v as usize, c - 1);
            proof {
                assert forall|i: int| 0 <= i < old(self).counts().len() implies #[trigger] self.counts@[i]
                    == if values@.subrange(0, k + 1).contains(i as u32) {
                    old(self).counts()[i] - 1
                } else {
                    old(self).counts()[i] as int
                } by {
                    if i == v as int {
                        assert(values@.subrange(0, k + 1)[k as int] == v);
                    } else if values@.subrange(0, k + 1).contains(i as u32) {
                        let q = choose|q: int|
                            0 <= q < k + 1 && #[trigger] values@.subrange(0, k + 1)[q] == i as u32;
                        assert(q != k);
                        assert(values@.subrange(0, k as int)[q] == i as u32);
                    } else if values@.subrange(0, k as int).contains(i as u32) {
                        let q = choose|q: int| 0 <= q < k && #[trigger] values@.subrange(0, k as int)[q] == i as u32;
                        assert(values@.subrange(0, k + 1)[q] == i as u32);
                    }
                }
            }
            k = k + 1;
        }
        proof {
            assert(values@.subrange(0, values@.len() as int) =~= values@);
        }
    }
}

/// What a dataset's loading decides on: its sampling tree of loaders, the reference count
/// of each index, the number of hosts among which the indices are spread, and the number of
/// items.
pub struct JoaderState {
    pub tree: SamplerTree,
    pub refs: RefTable,
    pub key: u32,
    pub len: u32,
}

impl JoaderState {
    /// The state is well formed: its tree is, and it counts one reference per index.
    pub open spec fn wf(&self) -> bool {
        &&& self.tree.wf()
        &&& self.refs.counts().len() == self.len
        &&& self.key > 0
    }

    /// A dataset of `len` items with no loader yet, read by a single host.
    pub fn new(len: u32) -> (j: JoaderState)
        ensures
            j.wf(),
            !j.tree.has_root(),
            j.tree.loaders() == Set::<u64>::empty(),
            j.refs.counts() == Seq::new(len as nat, |i: int| 0usize),
            j.key == 1,
            j.len == len,
    {
        JoaderState { tree: SamplerTree::new(), refs: RefTable::new(len), key: 1, len }
    }

    /// The indices are spread among `key` hosts.
    pub fn set_hash_key(&mut self, key: u32)
        requires
            key > 0,
        ensures
            *final(self) == (JoaderState { key, ..*old(self) }),
    {
        self.key = key;
    }

    /// A loader is added: each index gets one more reference.
    pub fn add_loader(&mut self)
        requires
            old(self).wf(),
            forall|i: int|
                0 <= i < old(self).refs.counts().len() ==> #[trigger] old(self).refs.counts()[i] < usize::MAX,
        ensures
            final(self).wf(),
            final(self).tree == old(self).tree,
            final(self).key == old(self).key,
            final(self).len == old(self).len,
            forall|i: int|
                0 <= i < old(self).refs.counts().len() ==> #[trigger] final(self).refs.counts()[i]
                    == old(self).refs.counts()[i] + 1,
    {
        self.refs.add_loader();
    }

    /// Loader `id` is ready: it joins the sampling tree with every index of the dataset.
    pub fn loader_ready(&mut self, id: u64)
        requires
            old(self).wf(),
            !old(self).tree.loaders().contains(id),
        ensures
            final(self).wf(),
            final(self).refs == old(self).refs,
            final(self).key == old(self).key,
            final(self).len == old(self).len,
            final(self).tree.loaders() == old(self).tree.loaders().insert(id),
            final(self).tree.loader_values(id) == indices(old(self).len).to_set(),
            forall|t: u64|
                t != id ==> #[trigger] final(self).tree.loader_values(t) == old(self).tree.loader_values(t),
    {
        let keys = indices_upto(self.len);
        proof {
            assert forall|a: int, b: int| 0 <= a < b < keys@.len() implies keys@[a] != keys@[b] by {}
        }
        self.tree.insert(keys, id);
    }

    /// One round of the dataset's sampling: each loader with indices left reads one of them,
    /// with the readers of each index read.
    pub fn next_round(&mut self) -> (res: Vec<(u32, Vec<u64>)>)
        requires
            old(self).wf(),
            old(self).tree.has_root(),
        ensures
            final(self).wf(),
            final(self).refs == old(self).refs,
            final(self).key == old(self).key,
            final(self).len == old(self).len,
            tree_sampled(old(self).tree, final(self).tree, res@),
    {
        self.tree.sample()
    }
}

/// What the sampler's round asks of one item: its index, the reference count it is cached
/// with, the host that reads it, whether that is this host, and its readers.
pub struct ItemPlan {
    pub idx: u32,
    pub ref_cnt: usize,
    pub host: u32,
    pub local: bool,
    pub readers: Vec<u64>,
}

/// The decision of a round for one sampled item `idx` with its `readers`: the item's count
/// goes down by the number of readers, and the item is read by the host that `idx` picks
/// among `key` hosts. The caller then offers the index to the readers on another host, and
/// reads the item for the readers left (see `keep_unsent`).
pub fn plan_item(refs: &mut RefTable, idx: u32, readers: Vec<u64>, key: u32) -> (r: ItemPlan)
    requires
        key > 0,
        idx < old(refs).counts().len(),
        old(refs).counts()[idx as int] >= readers@.len(),
    ensures
        r.idx == idx,
        r.ref_cnt == old(refs).counts()[idx as int] - readers@.len(),
        final(refs).counts() == old(refs).counts().update(idx as int, r.ref_cnt),
        r.host == idx % key,
        r.local == (r.host == key - 1),
        r.readers@ == readers@,
{
    let ref_cnt = refs.get_ref_cnt(idx, readers.len());
    let host = hash_host(idx, key);
    let local = is_local_host(host, key);
    ItemPlan { idx, ref_cnt, host, local, readers }
}

/// The readers that still get the item from this host: those of `readers` whose index was
/// not sent to another host, in order.
pub fn keep_unsent(readers: &Vec<u64>, sent: &Vec<u64>) -> (r: Vec<u64>)
    ensures
        r@ == readers@.filter(|t: u64| !sent@.contains(t)),
{
    let mut r: Vec<u64> = Vec::new();
    let mut i: usize = 0;
    while i < readers.len()
        invariant
            i <= readers@.len(),
            r@ == readers@.subrange(0, i as int).filter(|t: u64| !sent@.contains(t)),
        decreases readers@.len() - i,
    {
        let t = readers[i];
        let mut found = false;
        let mut j: usize = 0;
        while j < sent.len()
            invariant
                j <= sent@.len(),
                found == sent@.subrange(0, j as int).contains(t),
            decreases sent@.len() - j,
        {
            proof {
                assert(sent@.subrange(0, j + 1) =~= sent@.subrange(0, j as int).push(sent@[j as int]));
            }
            if sent[j] == t {
                found = true;
            }
            proof {
                let s0 = sent@.subrange(0, j as int);
                let s1 = sent@.subrange(0, j + 1);
                if s1.contains(t) {
                    let q = choose|q: int| 0 <= q < s1.len() && s1[q] == t;
                    if q < s0.len() {
                        assert(s0[q] == t);
                    }
                }
                if s0.contains(t) {
                    let q = choose|q: int| 0 <= q < s0.len() && s0[q] == t;
                    assert(s1[q] == t);
                }
                if sent@[j as int] == t {
                    assert(s1[j as int] == t);
                }
            }
            j = j + 1;
        }
        proof {
            assert(sent@.subrange(0, sent@.len() as int) =~= sent@);
            let s0 = readers@.subrange(0, i as int);
            let s1 = readers@.subrange(0, i + 1);
            assert(s1.drop_last() =~= s0);
            assert(s1.last() == t);
            reveal(Seq::filter);
        }
        if !found {
            r.push(t);
        }
        i = i + 1;
    }
    proof {
        assert(readers@.subrange(0, readers@.len() as int) =~= readers@);
    }
    r
}

/// The host among `key` hosts that reads index `idx`.
pub fn hash_host(idx: u32, key: u32) -> (r: u32)
    requires
        key > 0,
    ensures
        r == idx % key,
        r < key,
{
    idx % key
}

/// Whether `host` is this host: the last of `key` hosts.
pub fn is_local_host(host: u32, key: u32) -> (r: bool)
    requires
        key > 0,
    ensures
        r == (host == key - 1),
{
    host == key - 1
}

} // verus!

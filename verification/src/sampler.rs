use vstd::prelude::*;
use rand::rngs::ThreadRng;
use crate::rng::thread_rng;
use crate::sampler_node::{
    decisions_ok, node_at, ns_sum, ns_weights, sat_add, spine_path, task_ids, Node,
};
use crate::decision::{lemma_first_service, served_once, unserved};

verus! {

/// Value `v` is reported to task `t` in the round's result.
pub open spec fn reported(res: Seq<(u32, Vec<u64>)>, v: u32, t: u64) -> bool {
    exists|k: int| 0 <= k < res.len() && (#[trigger] res[k]).0 == v && res[k].1@.contains(t)
}

/// The values of `res` are pairwise distinct, and so are the readers of each value.
pub open spec fn distinct_values(res: Seq<(u32, Vec<u64>)>) -> bool {
    &&& forall|a: int, b: int| #![trigger res[a], res[b]] 0 <= a < b < res.len() ==> res[a].0 != res[b].0
    &&& forall|k: int| 0 <= k < res.len() ==> (#[trigger] res[k]).1@.no_duplicates()
}

/// One round of sampling from `before` to `after` that reported `res`: each task with
/// indices left loses exactly one of them, the other tasks lose none, the round reports to
/// each task exactly the index it lost, and it reports nothing exactly when no task has
/// indices left.
pub open spec fn sampled(before: Sampler, after: Sampler, res: Seq<(u32, Vec<u64>)>) -> bool {
    &&& forall|t: u64|
        #[trigger] before.loader_values(t).len() > 0 ==> exists|v: u32|
            before.loader_values(t).contains(v) && after.loader_values(t)
                == before.loader_values(t).remove(v)
    &&& forall|t: u64|
        before.loader_values(t).len() == 0 ==> #[trigger] after.loader_values(t)
            == before.loader_values(t)
    &&& forall|t: u64, v: u32|
        #[trigger] reported(res, v, t) <==> (before.loader_values(t).contains(v)
            && !after.loader_values(t).contains(v))
    &&& (res.len() == 0) == (forall|t: u64| #[trigger] before.loader_values(t).len() == 0)
}

/// From `before` to `after` the task `id` was added with the indices `keys`: it has exactly
/// these indices to read, and every other task keeps its own.
pub open spec fn task_inserted(before: Sampler, after: Sampler, id: u64, keys: Seq<u32>) -> bool {
    &&& after.loader_values(id) == keys.to_set()
    &&& forall|t: u64| t != id ==> #[trigger] after.loader_values(t) == before.loader_values(t)
}

/// Over tasks added one after the other, from `states[0]` through `states[1]`, ..., the
/// `i`-th with the id `ids[i]` and the indices `keys[i]`, each task that is not added again
/// later ends with exactly its indices, and a task never added keeps what it had at first.
pub proof fn lemma_inserts_keep(states: Seq<Sampler>, ids: Seq<u64>, keys: Seq<Seq<u32>>)
    requires
        states.len() == ids.len() + 1,
        keys.len() == ids.len(),
        forall|i: int|
            0 <= i < ids.len() ==> task_inserted(states[i], states[i + 1], ids[i], #[trigger] keys[i]),
    ensures
        forall|i: int|
            0 <= i < ids.len() && (forall|j: int| i < j < ids.len() ==> ids[j] != ids[i])
                ==> states.last().loader_values(ids[i]) == (#[trigger] keys[i]).to_set(),
        forall|t: u64|
            (forall|j: int| 0 <= j < ids.len() ==> ids[j] != t) ==> #[trigger] states.last().loader_values(
                t,
            ) == states[0].loader_values(t),
    decreases ids.len(),
{
    if ids.len() > 0 {
        let n = ids.len() - 1;
        let s2 = states.drop_last();
        let i2 = ids.drop_last();
        let k2 = keys.drop_last();
        assert forall|i: int| 0 <= i < i2.len() implies task_inserted(
            s2[i],
            s2[i + 1],
            i2[i],
            #[trigger] k2[i],
        ) by {
            assert(task_inserted(states[i], states[i + 1], ids[i], keys[i]));
        }
        lemma_inserts_keep(s2, i2, k2);
        assert(task_inserted(states[n], states[n + 1], ids[n], keys[n]));
        assert forall|i: int|
            0 <= i < ids.len() && (forall|j: int| i < j < ids.len() ==> ids[j] != ids[i]) implies states.last().loader_values(
            ids[i],
        ) == (#[trigger] keys[i]).to_set() by {
            if i < n {
                assert(ids[n] != ids[i]);
                assert(forall|j: int| i < j < i2.len() ==> i2[j] != i2[i]);
                assert(s2.last().loader_values(i2[i]) == k2[i].to_set());
            }
        }
        assert forall|t: u64|
            (forall|j: int| 0 <= j < ids.len() ==> ids[j] != t) implies #[trigger] states.last().loader_values(
            t,
        ) == states[0].loader_values(t) by {
            assert(ids[n] != t);
            assert(forall|j: int| 0 <= j < i2.len() ==> i2[j] != t);
            assert(s2.last().loader_values(t) == s2[0].loader_values(t));
        }
    }
}

/// Pushing keeps what a sequence holds, and adds the new entry.
proof fn lemma_push_keeps(s: Seq<u64>, x: u64)
    ensures
        forall|y: u64| s.contains(y) ==> s.push(x).contains(y),
        s.push(x).contains(x),
{
    assert forall|y: u64| s.contains(y) implies s.push(x).contains(y) by {
        let i = choose|i: int| 0 <= i < s.len() && s[i] == y;
        assert(s.push(x)[i] == y);
    }
    assert(s.push(x)[s.len() as int] == x);
}

/// Adds the tasks of `tasks` to the readers of value `x`, recording `x` when it is new.
fn merge_result(res: &mut Vec<(u32, Vec<u64>)>, x: u32, tasks: &Vec<u64>)
    requires
        distinct_values(old(res)@),
        tasks@.len() > 0,
        forall|k: int| 0 <= k < old(res)@.len() ==> (#[trigger] old(res)@[k]).1@.len() > 0,
    ensures
        distinct_values(final(res)@),
        forall|k: int| 0 <= k < final(res)@.len() ==> (#[trigger] final(res)@[k]).1@.len() > 0,
        forall|v: u32, t: u64|
            #[trigger] reported(final(res)@, v, t) <==> (reported(old(res)@, v, t) || (v == x
                && tasks@.contains(t))),
{
    let mut i: usize = 0;
    while i < res.len()
        invariant
            i <= res.len(),
            res@ == old(res)@,
            distinct_values(old(res)@),
            tasks@.len() > 0,
            forall|k: int| 0 <= k < old(res)@.len() ==> (#[trigger] old(res)@[k]).1@.len() > 0,
            forall|k: int| 0 <= k < i ==> (#[trigger] res@[k]).0 != x,
        decreases res.len() - i,
    {
        if res[i].0 == x {
            let (v, mut ids) = res.remove(i);
            let ghost old_ids = ids@;
            let mut j: usize = 0;
            while j < tasks.len()
                invariant
                    j <= tasks.len(),
                    forall|t: u64| old_ids.contains(t) ==> ids@.contains(t),
                    forall|t: u64| ids@.contains(t) ==> old_ids.contains(t) || tasks@.contains(t),
                    forall|k: int| 0 <= k < j ==> ids@.contains(#[trigger] tasks@[k]),
                    ids@.no_duplicates(),
                decreases tasks.len() - j,
            {
                let t = tasks[j];
                let mut found = false;
                let mut k: usize = 0;
                while k < ids.len()
                    invariant
                        k <= ids.len(),
                        found ==> ids@.contains(t),
                        !found ==> forall|q: int| 0 <= q < k ==> ids@[q] != t,
                    decreases ids.len() - k,
                {
                    if ids[k] == t {
                        found = true;
                    }
                    k = k + 1;
                }
                if !found {
                    let ghost prev = ids@;
                    ids.push(t);
                    proof {
                        lemma_push_keeps(prev, t);
                        assert forall|a: int, b: int| 0 <= a < b < ids@.len() implies ids@[a] != ids@[b] by {
                            if b == prev.len() {
                                assert(prev[a] != t);
                            } else {
                                assert(prev[a] != prev[b]);
                            }
                        }
                        assert(tasks@[j as int] == t);
                        assert forall|u: u64| ids@.contains(u) implies old_ids.contains(u)
                            || tasks@.contains(u) by {
                            let q = choose|q: int| 0 <= q < ids@.len() && ids@[q] == u;
                            if q < prev.len() {
                                assert(prev[q] == u);
                            }
                        }
                    }
                }
                proof {
                    assert forall|k: int| 0 <= k < j + 1 implies ids@.contains(#[trigger] tasks@[k]) by {
                        if k < j {
                            assert(ids@.contains(tasks@[k]));
                        }
                    }
                }
                j = j + 1;
            }
            res.insert(i, (v, ids));
            proof {
                let o = old(res)@;
                assert(res@ =~= o.update(i as int, (v, ids)));
                assert forall|a: int, b: int|
                    #![trigger res@[a], res@[b]]
                    0 <= a < b < res@.len() implies res@[a].0 != res@[b].0 by {
                    assert(distinct_values(o));
                    assert(res@.len() == o.len());
                    assert(res@[a].0 == o[a].0);
                    assert(res@[b].0 == o[b].0);
                    assert(o[a].0 != o[b].0);
                }
                assert forall|t: u64| tasks@.contains(t) implies reported(res@, x, t) by {
                    let k = choose|k: int| 0 <= k < tasks@.len() && tasks@[k] == t;
                    assert(ids@.contains(tasks@[k]));
                    assert(res@[i as int].0 == x);
                }
                assert forall|v2: u32, t: u64| reported(o, v2, t) implies reported(res@, v2, t) by {
                    let k = choose|k: int| 0 <= k < o.len() && (#[trigger] o[k]).0 == v2 && o[k].1@.contains(t);
                    assert(res@[k].0 == v2);
                    if k == i {
                        assert(res@[k].1@.contains(t));
                    }
                }
                assert forall|v2: u32, t: u64| reported(res@, v2, t) implies reported(o, v2, t) || (
                v2 == x && tasks@.contains(t)) by {
                    let k = choose|k: int|
                        0 <= k < res@.len() && (#[trigger] res@[k]).0 == v2 && res@[k].1@.contains(t);
                    if k != i {
                        assert(res@[k] == o[k]);
                    } else if old_ids.contains(t) {
                        assert(o[k].1@ == old_ids);
                    }
                }
                assert forall|k: int| 0 <= k < res@.len() implies (#[trigger] res@[k]).1@.len() > 0 by {
                    if k == i {
                        assert(ids@.contains(tasks@[0]));
                    } else {
                        assert(res@[k] == o[k]);
                    }
                }
            }
            return;
        }
        i = i + 1;
    }
    let mut ids: Vec<u64> = Vec::new();
    let mut j: usize = 0;
    while j < tasks.len()
        invariant
            j <= tasks.len(),
            forall|t: u64| ids@.contains(t) ==> tasks@.contains(t),
            forall|k: int| 0 <= k < j ==> ids@.contains(#[trigger] tasks@[k]),
            ids@.no_duplicates(),
        decreases tasks.len() - j,
    {
        let t = tasks[j];
        let mut found = false;
        let mut k: usize = 0;
        while k < ids.len()
            invariant
                k <= ids.len(),
                found ==> ids@.contains(t),
                !found ==> forall|q: int| 0 <= q < k ==> ids@[q] != t,
            decreases ids.len() - k,
        {
            if ids[k] == t {
                found = true;
            }
            k = k + 1;
        }
        if !found {
            let ghost prev = ids@;
            ids.push(t);
            proof {
                lemma_push_keeps(prev, t);
                assert forall|u: u64| ids@.contains(u) implies tasks@.contains(u) by {
                    let q = choose|q: int| 0 <= q < ids@.len() && ids@[q] == u;
                    if q < prev.len() {
                        assert(prev[q] == u);
                    } else {
                        assert(tasks@[j as int] == u);
                    }
                }
                assert forall|a: int, b: int| 0 <= a < b < ids@.len() implies ids@[a] != ids@[b] by {
                    if b == prev.len() {
                        assert(prev[a] != t);
                    } else {
                        assert(prev[a] != prev[b]);
                    }
                }
            }
        }
        proof {
            assert forall|k: int| 0 <= k < j + 1 implies ids@.contains(#[trigger] tasks@[k]) by {
                if k < j {
                    assert(ids@.contains(tasks@[k]));
                } else {
                    assert(tasks@[k] == t);
                }
            }
        }
        j = j + 1;
    }
    let ghost o = res@;
    proof {
        assert forall|t: u64| tasks@.contains(t) implies ids@.contains(t) by {
            let k = choose|k: int| 0 <= k < tasks@.len() && tasks@[k] == t;
            assert(ids@.contains(tasks@[k]));
        }
        assert(ids@.contains(tasks@[0]));
    }
    res.push((x, ids));
    proof {
        assert forall|t: u64| tasks@.contains(t) implies reported(res@, x, t) by {
            assert(res@[o.len() as int].0 == x);
        }
        assert forall|v2: u32, t: u64| reported(o, v2, t) implies reported(res@, v2, t) by {
            let k = choose|k: int| 0 <= k < o.len() && (#[trigger] o[k]).0 == v2 && o[k].1@.contains(t);
            assert(res@[k] == o[k]);
        }
        assert forall|v2: u32, t: u64| reported(res@, v2, t) implies reported(o, v2, t) || (v2 == x
            && tasks@.contains(t)) by {
            let k = choose|k: int|
                0 <= k < res@.len() && (#[trigger] res@[k]).0 == v2 && res@[k].1@.contains(t);
            if k < o.len() {
                assert(res@[k] == o[k]);
            }
        }
        assert forall|k: int| 0 <= k < res@.len() implies (#[trigger] res@[k]).1@.len() > 0 by {
            if k < o.len() {
                assert(res@[k] == o[k]);
            }
        }
    }
}

/// The sampler of a dataset's tasks: a sampling tree whose left children are leaves, and the
/// table of the tasks with the number of indices each still has to read.
pub struct Sampler {
    root: Option<Node>,
    // store tasks sorted by its length
    task_table: Vec<(u64, usize)>,
    rng: ThreadRng,
}

impl Sampler {
    /// The tree is well formed, with one task at each leaf and leaves as left children, and
    /// no task has more indices left than a task after it on the spine; the task table lists
    /// the tasks in the order of the spine, each with the number of indices it still has to
    /// read.
    pub closed spec fn wf(&self) -> bool {
        match self.root {
            Some(r) => {
                &&& r.wf()
                &&& r.single_leaves()
                &&& r.left_leaves()
                &&& r.spine_sorted()
                &&& task_ids(self.task_table@) == r.spine()
                &&& forall|k: int|
                    0 <= k < self.task_table@.len() ==> (#[trigger] self.task_table@[k]).1
                        == r.loader_values(self.task_table@[k].0).len()
                &&& forall|t: u64| #[trigger] r.loader_values(t).len() <= usize::MAX
            },
            None => self.task_table@.len() == 0,
        }
    }

    /// Whether the sampler holds a task.
    pub closed spec fn has_root(&self) -> bool {
        self.root is Some
    }

    /// The tasks of the sampler.
    pub closed spec fn loaders(&self) -> Set<u64> {
        match self.root {
            Some(r) => r.loaders(),
            None => Set::empty(),
        }
    }

    /// The indices that task `id` still has to read.
    pub closed spec fn loader_values(&self, id: u64) -> Set<u32> {
        match self.root {
            Some(r) => r.loader_values(id),
            None => Set::empty(),
        }
    }

    /// The indices each task still has to read are finitely many.
    pub proof fn lemma_finite(&self)
        requires
            self.wf(),
        ensures
            forall|t: u64| #[trigger] self.loader_values(t).finite(),
    {
        if let Some(r) = self.root {
            assert forall|t: u64| #[trigger] self.loader_values(t).finite() by {
                r.lemma_loader_values(t);
                vstd::set_lib::lemma_len_subset(r.loader_values(t), r.all_values());
            }
        }
    }

    /// The task table.
    pub closed spec fn table(&self) -> Seq<(u64, usize)> {
        self.task_table@
    }

    /// The task table lists each task once, with the number of indices it still has to read,
    /// at most `usize::MAX`.
    pub open spec fn table_counts(&self) -> bool {
        &&& task_ids(self.table()).no_duplicates()
        &&& task_ids(self.table()).to_set() == self.loaders()
        &&& forall|k: int|
            0 <= k < self.table().len() ==> (#[trigger] self.table()[k]).1 == sat_add(
                0,
                self.loader_values(self.table()[k].0).len() as int,
            )
    }

    /// Whether no task of the table has an index left to read.
    pub(crate) fn no_task_left(&self) -> (r: bool)
        ensures
            r == (forall|k: int| 0 <= k < self.table().len() ==> (#[trigger] self.table()[k]).1 == 0),
    {
        let mut i: usize = 0;
        while i < self.task_table.len()
            invariant
                i <= self.task_table@.len(),
                forall|k: int| 0 <= k < i ==> (#[trigger] self.task_table@[k]).1 == 0,
            decreases self.task_table@.len() - i,
        {
            if self.task_table[i].1 != 0 {
                proof {
                    assert(self.table()[i as int].1 != 0);
                }
                return false;
            }
            i = i + 1;
        }
        true
    }

    /// A sampler without tasks.
    pub fn new() -> (s: Sampler)
        ensures
            s.wf(),
            !s.has_root(),
            s.loaders() == Set::<u64>::empty(),
            forall|id: u64| #[trigger] s.loader_values(id) == Set::<u32>::empty(),
            s.table() == Seq::<(u64, usize)>::empty(),
    {
        Sampler { root: None, task_table: Vec::new(), rng: thread_rng() }
    }

    /// Adds the task `id` of the indices `keys`: it then has exactly these indices to read,
    /// every other task keeps its own, and the task table is built anew.
    pub fn insert(&mut self, id: u64, keys: Vec<u32>)
        requires
            old(self).wf(),
            keys@.no_duplicates(),
            !old(self).loaders().contains(id),
        ensures
            final(self).wf(),
            final(self).has_root(),
            final(self).loaders() == old(self).loaders().insert(id),
            final(self).loader_values(id) == keys@.to_set(),
            forall|t: u64|
                t != id ==> #[trigger] final(self).loader_values(t) == old(self).loader_values(t),
            task_inserted(*old(self), *final(self), id, keys@),
            final(self).table_counts(),
    {
        let ghost keys_set = keys@.to_set();
        let klen = keys.len();
        proof {
            keys@.unique_seq_to_set();
        }
        let ids = vec![id];
        proof {
            assert(ids@.to_set() =~= set![id]);
        }
        let node = Node::new(keys, ids);
        let ghost node0 = node;
        proof {
            assert(node.loader_seq() =~= seq![id]);
        }
        let old_root = self.root.take();
        let root = match old_root {
            Some(root) => {
                let ghost r0 = root;
                proof {
                    root.lemma_loader_values(id);
                    assert(node.loaders() =~= set![id]);
                }
                let n = Node::insert_right(root, node);
                proof {
                    Node::lemma_sorted_after_insert(r0, node0, n);
                }
                n
            },
            None => node,
        };
        proof {
            assert(root.loaders() =~= old(self).loaders().insert(id));
            assert forall|t: u64| t != id implies #[trigger] root.loader_values(t) == old(
                self,
            ).loader_values(t) by {
                assert(!ids@.contains(t));
                if old(self).root is Some {
                    assert(root.loader_values(t) =~= old(self).loader_values(t));
                }
            }
            if old(self).root is Some {
                assert(root.loader_values(id) =~= keys_set);
            }
        }
        proof {
            assert forall|t: u64| #[trigger] root.loader_values(t).len() <= usize::MAX by {
                if t != id {
                    if let Some(r0) = old(self).root {
                        assert(root.loader_values(t) == r0.loader_values(t));
                    } else {
                        root.lemma_loader_values(t);
                        assert(root.loaders() =~= set![id]);
                    }
                }
            }
            if old(self).root is None {
                root.lemma_spine();
            }
        }
        let mut table: Vec<(u64, usize)> = Vec::new();
        root.get_task_set(&mut table, 0);
        proof {
            assert(table@.subrange(0, table@.len() as int) =~= table@);
        }
        self.task_table = table;
        self.root = Some(root);
    }

    /// The indices that task `id` still has to read.
    pub fn get_task_values(&self, id: u64) -> (r: Vec<u32>)
        requires
            self.wf(),
        ensures
            r@.to_set() == self.loader_values(id),
            r@.no_duplicates(),
    {
        if let Some(root) = &self.root {
            return root.get_loader_values(id);
        }
        let r: Vec<u32> = Vec::new();
        proof {
            assert(r@.to_set() =~= Set::<u32>::empty());
        }
        r
    }

    /// One sampling round: the tasks that still have indices decide which nodes they read,
    /// each decided node gives one value, drawn at random, to its tasks, and each task with
    /// indices left counts one down. Each task with indices left reads exactly one of them,
    /// which it then no longer has, the others read none, and each value is reported once,
    /// with all its readers; the round reports nothing exactly when no task has indices
    /// left.
    pub fn sample(&mut self) -> (res: Vec<(u32, Vec<u64>)>)
        requires
            old(self).wf(),
            old(self).has_root(),
        ensures
            final(self).wf(),
            final(self).has_root(),
            final(self).loaders() == old(self).loaders(),
            final(self).table().len() == old(self).table().len(),
            forall|k: int|
                0 <= k < old(self).table().len() ==> (#[trigger] final(self).table()[k]) == (
                    old(self).table()[k].0,
                    if old(self).table()[k].1 != 0 {
                        (old(self).table()[k].1 - 1) as usize
                    } else {
                        0usize
                    },
                ),
            forall|t: u64| #[trigger]
                final(self).loader_values(t).subset_of(old(self).loader_values(t)),
            sampled(*old(self), *final(self), res@),
            distinct_values(res@),
    {
        let ghost table0 = self.task_table@;
        let mut root = self.root.take().unwrap();
        let ghost root0 = root;
        proof {
            root0.lemma_table_sorted(table0);
            root0.lemma_spine();
            root0.lemma_loader_values(0);
        }
        // The tasks that still have indices: the last ones of the table.
        let mut tasks: Vec<(u64, usize)> = Vec::new();
        let ghost mut z: int = 0;
        let mut c: usize = 0;
        while c < self.task_table.len()
            invariant
                self.task_table@ == table0,
                c <= table0.len(),
                0 <= z <= c,
                tasks@ == table0.subrange(z, c as int),
                forall|j: int| 0 <= j < z ==> (#[trigger] table0[j]).1 == 0,
                forall|j: int| z <= j < c ==> (#[trigger] table0[j]).1 != 0,
                forall|a: int, b: int|
                    #![trigger table0[a], table0[b]]
                    0 <= a < b < table0.len() ==> table0[a].1 <= table0[b].1,
            decreases self.task_table.len() - c,
        {
            if self.task_table[c].1 != 0 {
                tasks.push(self.task_table[c]);
            } else {
                proof {
                    if z < c {
                        assert(table0[z].1 <= table0[c as int].1);
                    }
                    z = c + 1;
                }
            }
            c = c + 1;
            proof {
                assert(tasks@ =~= table0.subrange(z, c as int));
            }
        }
        let ghost tasks0 = tasks@;
        let ghost ids = task_ids(tasks0);
        proof {
            assert(ids =~= root0.spine().skip(z)) by {
                assert forall|k: int| 0 <= k < ids.len() implies ids[k] == root0.spine().skip(z)[k] by {
                    assert(task_ids(table0)[z + k] == table0[z + k].0);
                }
            }
            assert(ns_weights(Seq::<(Vec<bool>, usize)>::empty()) =~= Seq::<usize>::empty());
            assert(node_at(root0, Seq::<bool>::empty()) == Some(root0));
            assert forall|k: int| 0 <= k < tasks0.len() implies (#[trigger] tasks0[k]).1 == ns_sum(
                Seq::<(Vec<bool>, usize)>::empty(),
            ) + root0.loader_values(tasks0[k].0).len() by {
                assert(tasks0[k] == table0[z + k]);
            }
            assert forall|k: int| 0 <= k < tasks0.len() implies (#[trigger] tasks0[k]).1 > 0 by {
                assert(tasks0[k] == table0[z + k]);
            }
            assert forall|a: int, b: int|
                #![trigger tasks0[a], tasks0[b]]
                0 <= a < b < tasks0.len() implies tasks0[a].1 <= tasks0[b].1 by {
                assert(tasks0[a] == table0[z + a]);
                assert(tasks0[b] == table0[z + b]);
            }
            assert(spine_path(Seq::<bool>::empty()));
        }
        let mut decisions: Vec<(Vec<bool>, Vec<u64>)> = Vec::new();
        let ghost d_empty = decisions@;
        Node::decide_tasks(&root, Vec::new(), &mut tasks, &mut decisions, Vec::new(), &mut self.rng, Ghost(root));
        let ghost dec = decisions@;
        proof {
            assert forall|t: u64| !ids.contains(t) implies unserved(dec, t) by {
                assert(unserved(d_empty, t));
            }
        }
        // Each decision in turn: its node gives a value to its tasks.
        let mut res: Vec<(u32, Vec<u64>)> = Vec::new();
        let ghost mut got: Map<u64, u32> = Map::empty();
        proof {
            root0.lemma_skeleton_refl();
        }
        let mut k: usize = 0;
        while k < decisions.len()
            invariant
                self.task_table@ == table0,
                decisions@ == dec,
                k <= dec.len(),
                root.wf(),
                root.single_leaves(),
                root.left_leaves(),
                root.same_skeleton(root0),
                root0.wf(),
                decisions_ok(root0, dec),
                forall|t: u64| ids.contains(t) ==> #[trigger] served_once(dec, t),
                forall|t: u64| !ids.contains(t) ==> #[trigger] unserved(dec, t),
                forall|j: int|
                    k <= j < dec.len() ==> node_at(root, (#[trigger] dec[j]).0@) is Some
                        && node_at(root, dec[j].0@)->0.value_seq().len() > 0,
                forall|t: u64| #[trigger]
                    got.dom().contains(t) == exists|j: int|
                        0 <= j < k && (#[trigger] dec[j]).1@.contains(t),
                forall|t: u64|
                    #[trigger] got.dom().contains(t) ==> root0.loader_values(t).contains(got[t])
                        && root.loader_values(t) == root0.loader_values(t).remove(got[t]),
                forall|t: u64|
                    !(#[trigger] got.dom().contains(t)) ==> root.loader_values(t)
                        == root0.loader_values(t),
                forall|t: u64, w: u32|
                    #[trigger] reported(res@, w, t) <==> (got.dom().contains(t) && w == got[t]),
                distinct_values(res@),
                forall|j: int| 0 <= j < res@.len() ==> (#[trigger] res@[j]).1@.len() > 0,
            decreases dec.len() - k,
        {
            let path = &decisions[k].0;
            let ids_k = &decisions[k].1;
            proof {
                assert(path@.subrange(0, path@.len() as int) =~= path@);
                assert(path@ == dec[k as int].0@);
                assert(ids_k@ == dec[k as int].1@);
                assert(node_at(root, dec[k as int].0@) is Some && node_at(
                    root,
                    dec[k as int].0@,
                )->0.value_seq().len() > 0);
            }
            match root.len_at(path, 0) {
                Some(n) => {
                    if n > 0 {
                        let ghost before = root;
                        let ghost res0 = res@;
                        let ghost got0 = got;
                        let ghost p = dec[k as int].0@;
                        let ghost served = dec[k as int].1@;
                        let x = root.choose_at(path, 0, ids_k, &mut self.rng);
                        merge_result(&mut res, x, ids_k);
                        proof {
                            got = got0.union_prefer_right(
                                Map::new(|t: u64| served.contains(t), |t: u64| x),
                            );
                            lemma_round_step(root0, before, root, dec, k as int, x);
                            assert forall|t: u64| dec[k as int].1@.contains(t) implies #[trigger] served_once(
                                dec,
                                t,
                            ) by {
                                if !ids.contains(t) {
                                    assert(unserved(dec, t));
                                }
                            }
                            lemma_round_books(root0, before, root, dec, k as int, x, got0, got, res0, res@);
                        }
                    } else {
                        proof {
                            assert(false);
                        }
                    }
                },
                None => {
                    proof {
                        assert(false);
                    }
                },
            }
            k = k + 1;
        }
        self.root = Some(root);
        let mut c: usize = 0;
        while c < self.task_table.len()
            invariant
                c <= self.task_table@.len(),
                self.task_table@.len() == table0.len(),
                forall|j: int|
                    0 <= j < c ==> (#[trigger] self.task_table@[j]) == (
                        table0[j].0,
                        if table0[j].1 != 0 {
                            (table0[j].1 - 1) as usize
                        } else {
                            0usize
                        },
                    ),
                forall|j: int| c <= j < self.task_table@.len() ==> (#[trigger] self.task_table@[j]) == table0[j],
                self.root == Some(root),
            decreases self.task_table.len() - c,
        {
            let (id, n) = self.task_table[c];
            if n != 0 {
                self.task_table.set(c, (id, n - 1));
            }
            c = c + 1;
        }
        proof {
            lemma_round_end(*old(self), *self, dec, ids, z, got, res@);
        }
        res
    }
}


/// One decision taken: the tree keeps its skeleton, the later decisions' nodes still hold
/// values, and the decision's tasks lose the value taken while no other task loses one.
proof fn lemma_round_step(
    root0: Node,
    before: Node,
    root: Node,
    dec: Seq<(Vec<bool>, Vec<u64>)>,
    k: int,
    x: u32,
)
    requires
        root0.wf(),
        before.wf(),
        before.single_leaves(),
        before.same_skeleton(root0),
        decisions_ok(root0, dec),
        0 <= k < dec.len(),
        forall|j: int|
            k <= j < dec.len() ==> node_at(before, (#[trigger] dec[j]).0@) is Some
                && node_at(before, dec[j].0@)->0.value_seq().len() > 0,
        root.wf(),
        root.single_leaves(),
        root.same_skeleton(before),
        root.grown_except(before, dec[k].0@),
        node_at(before, dec[k].0@)->0.vals().contains(x),
        forall|id: u64| #[trigger]
            root.loader_values(id) == if dec[k].1@.contains(id) && node_at(
                before,
                dec[k].0@,
            )->0.loaders().contains(id) {
                before.loader_values(id).remove(x)
            } else {
                before.loader_values(id)
            },
    ensures
        root.same_skeleton(root0),
        root.left_leaves() == before.left_leaves(),
        forall|j: int|
            k + 1 <= j < dec.len() ==> node_at(root, (#[trigger] dec[j]).0@) is Some
                && node_at(root, dec[j].0@)->0.value_seq().len() > 0,
        forall|t: u64|
            #[trigger] dec[k].1@.contains(t) ==> before.loader_values(t).contains(x)
                && root.loader_values(t) == before.loader_values(t).remove(x),
        forall|t: u64|
            !dec[k].1@.contains(t) ==> #[trigger] root.loader_values(t) == before.loader_values(t),
{
    let p = dec[k].0@;
    root.lemma_skeleton_trans(before, root0);
    root.lemma_skeleton(before, p);
    before.lemma_skeleton(root0, p);
    before.lemma_node_at(p);
    root.lemma_skeleton_sym(before);
    assert forall|j: int| k + 1 <= j < dec.len() implies node_at(root, (#[trigger] dec[j]).0@) is Some
        && node_at(root, dec[j].0@)->0.value_seq().len() > 0 by {
        assert(dec[j].0@ != p) by {
            assert(dec[k].0@ != dec[j].0@);
        }
        root.lemma_grown_at(before, Some(p), dec[j].0@);
    }
    assert forall|t: u64| #[trigger] dec[k].1@.contains(t) implies before.loader_values(t).contains(x)
        && root.loader_values(t) == before.loader_values(t).remove(x) by {
        assert(node_at(root0, p)->0.loaders().contains(t));
        assert(node_at(before, p)->0.loaders().contains(t));
    }
}

/// The end of a round: the sampler is well formed again, and the round is a sampling step.
proof fn lemma_round_end(
    s0: Sampler,
    s1: Sampler,
    dec: Seq<(Vec<bool>, Vec<u64>)>,
    ids: Seq<u64>,
    z: int,
    got: Map<u64, u32>,
    res: Seq<(u32, Vec<u64>)>,
)
    requires
        s0.wf(),
        s0.root is Some,
        s1.root is Some,
        s1.root->0.wf(),
        s1.root->0.single_leaves(),
        s1.root->0.left_leaves(),
        s1.root->0.same_skeleton(s0.root->0),
        0 <= z <= s0.task_table@.len(),
        forall|j: int| 0 <= j < z ==> (#[trigger] s0.task_table@[j]).1 == 0,
        forall|j: int| z <= j < s0.task_table@.len() ==> (#[trigger] s0.task_table@[j]).1 != 0,
        ids == task_ids(s0.task_table@).skip(z),
        forall|t: u64| ids.contains(t) ==> #[trigger] served_once(dec, t),
        forall|t: u64| !ids.contains(t) ==> #[trigger] unserved(dec, t),
        forall|t: u64| #[trigger]
            got.dom().contains(t) == exists|j: int|
                0 <= j < dec.len() && (#[trigger] dec[j]).1@.contains(t),
        forall|t: u64|
            #[trigger] got.dom().contains(t) ==> s0.root->0.loader_values(t).contains(got[t])
                && s1.root->0.loader_values(t) == s0.root->0.loader_values(t).remove(got[t]),
        forall|t: u64|
            !(#[trigger] got.dom().contains(t)) ==> s1.root->0.loader_values(t)
                == s0.root->0.loader_values(t),
        forall|t: u64, w: u32|
            #[trigger] reported(res, w, t) <==> (got.dom().contains(t) && w == got[t]),
        forall|j: int| 0 <= j < res.len() ==> (#[trigger] res[j]).1@.len() > 0,
        s1.task_table@.len() == s0.task_table@.len(),
        forall|j: int|
            0 <= j < s0.task_table@.len() ==> (#[trigger] s1.task_table@[j]) == (
                s0.task_table@[j].0,
                if s0.task_table@[j].1 != 0 {
                    (s0.task_table@[j].1 - 1) as usize
                } else {
                    0usize
                },
            ),
    ensures
        s1.wf(),
        s1.loaders() == s0.loaders(),
        forall|t: u64| #[trigger] s1.loader_values(t).subset_of(s0.loader_values(t)),
        sampled(s0, s1, res),
{
    let root0 = s0.root->0;
    let root = s1.root->0;
    let t0 = s0.task_table@;
    let t1 = s1.task_table@;
    root0.lemma_spine();
    root0.lemma_loader_values(0);
    root.lemma_skeleton(root0, Seq::empty());
    root.lemma_skeleton_spine(root0);
    root0.lemma_table_sorted(t0);
    // A task is served exactly when it has indices left.
    assert forall|t: u64| #[trigger] got.dom().contains(t) == (root0.loader_values(t).len() > 0) by {
        root0.lemma_loader_values(t);
        if ids.contains(t) {
            assert(served_once(dec, t));
            let j = choose|j: int|
                #![trigger dec[j].1@.contains(t)]
                0 <= j < dec.len() && dec[j].1@.contains(t) && forall|j2: int|
                    0 <= j2 < dec.len() && #[trigger] dec[j2].1@.contains(t) ==> j2 == j;
            assert(got.dom().contains(t));
            let q = choose|q: int| 0 <= q < ids.len() && ids[q] == t;
            assert(task_ids(t0)[z + q] == t0[z + q].0);
            assert(t0[z + q].1 != 0);
        } else {
            assert(unserved(dec, t));
            if got.dom().contains(t) {
                let j = choose|j: int| 0 <= j < dec.len() && (#[trigger] dec[j]).1@.contains(t);
                assert(!dec[j].1@.contains(t));
            }
            if root0.loader_values(t).len() > 0 {
                assert(root0.loaders().contains(t)) by {
                    if !root0.loaders().contains(t) {
                        assert(root0.loader_values(t) == Set::<u32>::empty());
                    }
                }
                assert(root0.spine().to_set().contains(t));
                let q = choose|q: int| 0 <= q < root0.spine().len() && root0.spine()[q] == t;
                assert(task_ids(t0)[q] == t0[q].0);
                assert(t0[q].1 == root0.loader_values(t).len());
                assert(q >= z);
                assert(ids[q - z] == t);
            }
        }
    }
    assert forall|t: u64| #[trigger] got.dom().contains(t) implies root.loader_values(t).len()
        == root0.loader_values(t).len() - 1 by {
        root0.lemma_loader_values(t);
        vstd::set_lib::lemma_len_subset(root0.loader_values(t), root0.all_values());
    }
    assert forall|t: u64| #[trigger] root.loader_values(t).subset_of(root0.loader_values(t)) by {
        if got.dom().contains(t) {
        }
    }
    // The table.
    assert(task_ids(t1) =~= task_ids(t0)) by {
        assert forall|j: int| 0 <= j < t1.len() implies task_ids(t1)[j] == task_ids(t0)[j] by {
            assert(t1[j].0 == t0[j].0);
        }
    }
    assert forall|j: int| 0 <= j < t1.len() implies (#[trigger] t1[j]).1 == root.loader_values(
        t1[j].0,
    ).len() by {
        let t = t0[j].0;
        assert(t1[j].0 == t);
        assert(t0[j].1 == root0.loader_values(t).len());
        assert(got.dom().contains(t) == (root0.loader_values(t).len() > 0));
    }
    assert forall|a: int, b: int|
        #![trigger t1[a], t1[b]]
        0 <= a < b < t1.len() implies t1[a].1 <= t1[b].1 by {
        assert(t0[a].1 <= t0[b].1);
    }
    root.lemma_table_sorted(t1);
    assert forall|t: u64| #[trigger] root.loader_values(t).len() <= usize::MAX by {
        root0.lemma_loader_values(t);
        vstd::set_lib::lemma_len_subset(root.loader_values(t), root0.loader_values(t));
        assert(root0.loader_values(t).len() <= usize::MAX);
    }
    assert(s1.wf());
    // The round.
    assert forall|t: u64| #[trigger] s0.loader_values(t).len() > 0 implies exists|v: u32|
        s0.loader_values(t).contains(v) && s1.loader_values(t) == s0.loader_values(t).remove(v) by {
        assert(got.dom().contains(t));
    }
    assert forall|t: u64, v: u32| #[trigger] reported(res, v, t) <==> (s0.loader_values(t).contains(v)
        && !s1.loader_values(t).contains(v)) by {
        if got.dom().contains(t) {
        }
    }
    assert forall|t: u64| s0.loader_values(t).len() == 0 implies #[trigger] s1.loader_values(t)
        == s0.loader_values(t) by {
        assert(!got.dom().contains(t));
    }
    if res.len() == 0 {
        assert forall|t: u64| #[trigger] s0.loader_values(t).len() == 0 by {
            if s0.loader_values(t).len() > 0 {
                assert(got.dom().contains(t));
                assert(reported(res, got[t], t));
            }
        }
    } else {
        let u = res[0].1@[0];
        assert(res[0].1@.contains(u));
        assert(reported(res, res[0].0, u));
        assert(s0.loader_values(u).len() > 0);
    }
}


/// The books of a round after one more decision: the tasks it serves got the value taken,
/// which is all the round reports to them.
proof fn lemma_round_books(
    root0: Node,
    before: Node,
    root: Node,
    dec: Seq<(Vec<bool>, Vec<u64>)>,
    k: int,
    x: u32,
    got0: Map<u64, u32>,
    got: Map<u64, u32>,
    res0: Seq<(u32, Vec<u64>)>,
    res: Seq<(u32, Vec<u64>)>,
)
    requires
        0 <= k < dec.len(),
        forall|t: u64| dec[k].1@.contains(t) ==> #[trigger] served_once(dec, t),
        got == got0.union_prefer_right(Map::new(|t: u64| dec[k].1@.contains(t), |t: u64| x)),
        forall|t: u64| #[trigger]
            got0.dom().contains(t) == exists|j: int| 0 <= j < k && (#[trigger] dec[j]).1@.contains(t),
        forall|t: u64|
            #[trigger] got0.dom().contains(t) ==> root0.loader_values(t).contains(got0[t])
                && before.loader_values(t) == root0.loader_values(t).remove(got0[t]),
        forall|t: u64|
            !(#[trigger] got0.dom().contains(t)) ==> before.loader_values(t) == root0.loader_values(t),
        forall|t: u64, w: u32|
            #[trigger] reported(res0, w, t) <==> (got0.dom().contains(t) && w == got0[t]),
        forall|t: u64|
            #[trigger] dec[k].1@.contains(t) ==> before.loader_values(t).contains(x)
                && root.loader_values(t) == before.loader_values(t).remove(x),
        forall|t: u64|
            !dec[k].1@.contains(t) ==> #[trigger] root.loader_values(t) == before.loader_values(t),
        forall|v: u32, t: u64|
            #[trigger] reported(res, v, t) <==> (reported(res0, v, t) || (v == x
                && dec[k].1@.contains(t))),
    ensures
        forall|t: u64| #[trigger]
            got.dom().contains(t) == exists|j: int|
                0 <= j < k + 1 && (#[trigger] dec[j]).1@.contains(t),
        forall|t: u64|
            #[trigger] got.dom().contains(t) ==> root0.loader_values(t).contains(got[t])
                && root.loader_values(t) == root0.loader_values(t).remove(got[t]),
        forall|t: u64|
            !(#[trigger] got.dom().contains(t)) ==> root.loader_values(t) == root0.loader_values(t),
        forall|t: u64, w: u32|
            #[trigger] reported(res, w, t) <==> (got.dom().contains(t) && w == got[t]),
{
    let served = dec[k].1@;
    assert forall|t: u64| served.contains(t) implies !got0.dom().contains(t) by {
        lemma_first_service(dec, k, t);
        if got0.dom().contains(t) {
            let j = choose|j: int| 0 <= j < k && (#[trigger] dec[j]).1@.contains(t);
            assert(!dec[j].1@.contains(t));
        }
    }
    assert forall|t: u64| #[trigger]
        got.dom().contains(t) == exists|j: int| 0 <= j < k + 1 && (#[trigger] dec[j]).1@.contains(t) by {
        if served.contains(t) {
            assert(dec[k].1@.contains(t));
        }
        if exists|j: int| 0 <= j < k + 1 && (#[trigger] dec[j]).1@.contains(t) {
            let j = choose|j: int| 0 <= j < k + 1 && (#[trigger] dec[j]).1@.contains(t);
            if j < k {
                assert(got0.dom().contains(t));
            }
        }
    }
    assert forall|t: u64|
        #[trigger] got.dom().contains(t) implies root0.loader_values(t).contains(got[t])
            && root.loader_values(t) == root0.loader_values(t).remove(got[t]) by {
        if served.contains(t) {
            assert(!got0.dom().contains(t));
            assert(got[t] == x);
            assert(before.loader_values(t) == root0.loader_values(t));
            assert(root.loader_values(t) == before.loader_values(t).remove(x));
            assert(before.loader_values(t).contains(x));
        } else {
            assert(got[t] == got0[t]);
        }
    }
    assert forall|t: u64, w: u32|
        #[trigger] reported(res, w, t) <==> (got.dom().contains(t) && w == got[t]) by {
        if served.contains(t) {
            assert(!got0.dom().contains(t));
            assert(!reported(res0, w, t));
        }
    }
}

/// Over rounds of sampling from `states[0]` through `states[1]`, ... with the results
/// `results`, the values reported to a task are exactly the indices it had at first and no
/// longer has at the end, each reported in one round only; once a round reports nothing,
/// every task has been reported each of its first indices exactly once.
pub proof fn lemma_epoch(states: Seq<Sampler>, results: Seq<Seq<(u32, Vec<u64>)>>)
    requires
        states.len() == results.len() + 1,
        forall|i: int| 0 <= i < states.len() ==> (#[trigger] states[i]).wf(),
        forall|i: int|
            0 <= i < results.len() ==> sampled(states[i], states[i + 1], #[trigger] results[i]),
    ensures
        forall|t: u64, v: u32|
            (exists|i: int| 0 <= i < results.len() && #[trigger] reported(results[i], v, t)) <==> (
            states[0].loader_values(t).contains(v) && !states.last().loader_values(t).contains(v)),
        forall|t: u64, v: u32, i: int, j: int|
            0 <= i < j < results.len() && #[trigger] reported(results[i], v, t) ==> !(#[trigger] reported(
                results[j],
                v,
                t,
            )),
        results.len() > 0 && results.last().len() == 0 ==> forall|t: u64, v: u32|
            (exists|i: int| 0 <= i < results.len() && #[trigger] reported(results[i], v, t))
                <==> states[0].loader_values(t).contains(v),
    decreases results.len(),
{
    if results.len() > 0 {
        let n = results.len() - 1;
        let s2 = states.drop_last();
        let r2 = results.drop_last();
        assert forall|i: int| 0 <= i < r2.len() implies sampled(s2[i], s2[i + 1], #[trigger] r2[i]) by {
            assert(sampled(states[i], states[i + 1], results[i]));
        }
        assert forall|i: int| 0 <= i < s2.len() implies (#[trigger] s2[i]).wf() by {
            assert(s2[i] == states[i]);
        }
        lemma_epoch(s2, r2);
        lemma_rounds_shrink(states, results);
        assert(sampled(states[n], states[n + 1], results[n]));
        assert forall|t: u64, v: u32|
            (exists|i: int| 0 <= i < results.len() && #[trigger] reported(results[i], v, t)) <==> (
            states[0].loader_values(t).contains(v) && !states.last().loader_values(t).contains(
                v,
            )) by {
            if exists|i: int| 0 <= i < results.len() && #[trigger] reported(results[i], v, t) {
                let i = choose|i: int| 0 <= i < results.len() && #[trigger] reported(results[i], v, t);
                if i < n {
                    assert(r2[i] == results[i]);
                    assert(reported(r2[i], v, t));
                }
            }
            if states[0].loader_values(t).contains(v) && !states.last().loader_values(t).contains(v) {
                if states[n].loader_values(t).contains(v) {
                    assert(reported(results[n], v, t));
                } else {
                    assert(s2.last() == states[n]);
                    let i = choose|i: int| 0 <= i < r2.len() && #[trigger] reported(r2[i], v, t);
                    assert(r2[i] == results[i]);
                    assert(reported(results[i], v, t));
                }
            }
        }
        assert forall|t: u64, v: u32, i: int, j: int|
            0 <= i < j < results.len() && #[trigger] reported(results[i], v, t) implies !(
            #[trigger] reported(results[j], v, t)) by {
            assert(sampled(states[i], states[i + 1], results[i]));
            assert(sampled(states[j], states[j + 1], results[j]));
            assert(states[j].loader_values(t).subset_of(states[i + 1].loader_values(t)));
        }
        if results.last().len() == 0 {
            assert forall|t: u64, v: u32|
                (exists|i: int| 0 <= i < results.len() && #[trigger] reported(results[i], v, t))
                    <==> states[0].loader_values(t).contains(v) by {
                assert(states[n].loader_values(t).len() == 0);
                assert(states.last().loader_values(t) == states[n].loader_values(t));
                if states.last().loader_values(t).contains(v) {
                    states[n].lemma_finite();
                    assert(states[n].loader_values(t).remove(v).len() + 1 == states[n].loader_values(
                        t,
                    ).len());
                }
            }
        }
    }
}

/// Each round only takes indices away: a later state's indices are among an earlier one's.
proof fn lemma_rounds_shrink(states: Seq<Sampler>, results: Seq<Seq<(u32, Vec<u64>)>>)
    requires
        states.len() == results.len() + 1,
        forall|i: int|
            0 <= i < results.len() ==> sampled(states[i], states[i + 1], #[trigger] results[i]),
    ensures
        forall|i: int, j: int, t: u64|
            0 <= i <= j < states.len() ==> (#[trigger] states[j].loader_values(t)).subset_of(
                #[trigger] states[i].loader_values(t),
            ),
    decreases results.len(),
{
    if results.len() > 0 {
        let s2 = states.drop_last();
        let r2 = results.drop_last();
        assert forall|i: int| 0 <= i < r2.len() implies sampled(s2[i], s2[i + 1], #[trigger] r2[i]) by {
            assert(sampled(states[i], states[i + 1], results[i]));
        }
        lemma_rounds_shrink(s2, r2);
        let n = results.len() - 1;
        assert(sampled(states[n], states[n + 1], results[n]));
        assert forall|i: int, j: int, t: u64|
            0 <= i <= j < states.len() implies (#[trigger] states[j].loader_values(t)).subset_of(
            #[trigger] states[i].loader_values(t),
        ) by {
            if j == n + 1 {
                assert(states[n + 1].loader_values(t).subset_of(states[n].loader_values(t))) by {
                    if states[n].loader_values(t).len() > 0 {
                        let v = choose|v: u32|
                            states[n].loader_values(t).contains(v) && states[n + 1].loader_values(t)
                                == states[n].loader_values(t).remove(v);
                    }
                }
                if i < j {
                    assert(s2[i] == states[i]);
                    assert(s2[n] == states[n]);
                    assert(s2[n].loader_values(t).subset_of(s2[i].loader_values(t)));
                }
            } else {
                assert(s2[i] == states[i]);
                assert(s2[j] == states[j]);
                assert(s2[j].loader_values(t).subset_of(s2[i].loader_values(t)));
            }
        }
    }
}
} // verus!

use vstd::prelude::*;
use rand::rngs::ThreadRng;
use crate::sampler_node::{node_at, Node};
use crate::rng::{weight_sum, weighted_index};

verus! {

/// A decision of one sampling round: the node, named by its path from the root, whose
/// value the loaders of `loader_ids` read next.
pub struct Decision {
    node: Vec<bool>,
    loader_ids: Vec<u64>,
}

impl Decision {
    /// The path from the root to the node.
    pub closed spec fn path(&self) -> Seq<bool> {
        self.node@
    }

    /// The loaders the decision serves.
    pub closed spec fn loaders(&self) -> Seq<u64> {
        self.loader_ids@
    }

    /// The decision that the loaders of `loader_ids` read the node at `node`.
    pub fn new(node: Vec<bool>, loader_ids: Vec<u64>) -> (d: Decision)
        ensures
            d.path() == node@,
            d.loaders() == loader_ids@,
    {
        Decision { node, loader_ids }
    }

    /// The path from the root to the node.
    pub fn node_path(&self) -> (r: &Vec<bool>)
        ensures
            r@ == self.path(),
    {
        &self.node
    }

    /// Takes a value, drawn at random, of the decision's node in the tree `root` for its
    /// loaders: those of them that the node holds lose it, and no other loader does.
    pub fn execute(&self, root: &mut Node, rng: &mut ThreadRng) -> (r: u32)
        requires
            old(root).wf(),
            old(root).single_leaves(),
            node_at(*old(root), self.path()) is Some,
            node_at(*old(root), self.path())->0.value_seq().len() > 0,
        ensures
            final(root).wf(),
            final(root).single_leaves(),
            final(root).loaders() == old(root).loaders(),
            final(root).same_skeleton(*old(root)),
            final(root).all_values().subset_of(old(root).all_values()),
            node_at(*old(root), self.path())->0.vals().contains(r),
            forall|id: u64| #[trigger]
                final(root).loader_values(id) == if self.loaders().contains(id) && node_at(
                    *old(root),
                    self.path(),
                )->0.loaders().contains(id) {
                    old(root).loader_values(id).remove(r)
                } else {
                    old(root).loader_values(id)
                },
    {
        proof {
            assert(self.node@.subrange(0, self.node@.len() as int) =~= self.node@);
        }
        root.choose_at(&self.node, 0, &self.loader_ids, rng)
    }

    /// The loaders the decision serves.
    pub fn get_loaders(&self) -> (r: Vec<u64>)
        ensures
            r@ == self.loaders(),
    {
        let mut r: Vec<u64> = Vec::new();
        let mut i: usize = 0;
        while i < self.loader_ids.len()
            invariant
                i <= self.loader_ids.len(),
                r@ == self.loader_ids@.subrange(0, i as int),
            decreases self.loader_ids.len() - i,
        {
            r.push(self.loader_ids[i]);
            i = i + 1;
            proof {
                assert(r@ =~= self.loader_ids@.subrange(0, i as int));
            }
        }
        proof {
            assert(r@ =~= self.loader_ids@);
        }
        r
    }
}

/// Whether the two paths are the same.
pub fn same_path(a: &Vec<bool>, b: &Vec<bool>) -> (r: bool)
    ensures
        r == (a@ == b@),
{
    if a.len() != b.len() {
        return false;
    }
    let mut i: usize = 0;
    while i < a.len()
        invariant
            i <= a.len(),
            a.len() == b.len(),
            forall|k: int| 0 <= k < i ==> a@[k] == b@[k],
        decreases a.len() - i,
    {
        if a[i] != b[i] {
            return false;
        }
        i = i + 1;
    }
    proof {
        assert(a@ =~= b@);
    }
    true
}

/// A copy of the path `p`, one step longer by `step` when `step` is given.
pub fn extend_path(p: &Vec<bool>, step: Option<bool>) -> (r: Vec<bool>)
    ensures
        r@ == match step {
            Some(b) => p@.push(b),
            None => p@,
        },
{
    let mut r: Vec<bool> = Vec::new();
    let mut i: usize = 0;
    while i < p.len()
        invariant
            i <= p.len(),
            r@ == p@.subrange(0, i as int),
        decreases p.len() - i,
    {
        r.push(p[i]);
        i = i + 1;
        proof {
            assert(r@ =~= p@.subrange(0, i as int));
        }
    }
    proof {
        assert(r@ =~= p@);
    }
    if let Some(b) = step {
        r.push(b);
    }
    r
}

/// The decisions `new` are `old` with the decision that the loaders `ids` read the node at
/// `path` added at the end, unless a decision of `old` already names that node.
pub open spec fn decision_added(
    old: Seq<Decision>,
    new: Seq<Decision>,
    path: Seq<bool>,
    ids: Seq<u64>,
) -> bool {
    if exists|j: int| 0 <= j < old.len() && (#[trigger] old[j]).path() == path {
        new == old
    } else {
        &&& new.len() == old.len() + 1
        &&& new.subrange(0, old.len() as int) == old
        &&& new.last().path() == path
        &&& new.last().loaders() == ids
    }
}

/// Adds `d` to the decisions unless one already names its node.
pub fn insert_decision(decisions: &mut Vec<Decision>, d: Decision)
    ensures
        final(decisions)@ == if exists|k: int|
            0 <= k < old(decisions)@.len() && (#[trigger] old(decisions)@[k]).path() == d.path() {
            old(decisions)@
        } else {
            old(decisions)@.push(d)
        },
{
    let mut i: usize = 0;
    while i < decisions.len()
        invariant
            i <= decisions.len(),
            decisions@ == old(decisions)@,
            forall|k: int| 0 <= k < i ==> (#[trigger] decisions@[k]).path() != d.path(),
        decreases decisions.len() - i,
    {
        if same_path(&decisions[i].node, &d.node) {
            return;
        }
        i = i + 1;
    }
    decisions.push(d);
}

/// The sum of `weights` when it fits in a `usize`.
pub fn total_weight(weights: &Vec<usize>) -> (r: Option<usize>)
    ensures
        match r {
            Some(t) => t == weight_sum(weights@),
            None => weight_sum(weights@) > usize::MAX,
        },
{
    let mut acc: usize = 0;
    let mut i: usize = 0;
    while i < weights.len()
        invariant
            i <= weights.len(),
            acc == weight_sum(weights@.subrange(0, i as int)),
        decreases weights.len() - i,
    {
        proof {
            assert(weights@.subrange(0, i + 1).drop_last() =~= weights@.subrange(0, i as int));
        }
        match acc.checked_add(weights[i]) {
            Some(x) => {
                acc = x;
            },
            None => {
                proof {
                    lemma_weight_sum_prefix(weights@, i + 1);
                }
                return None;
            },
        }
        i = i + 1;
    }
    proof {
        assert(weights@.subrange(0, weights@.len() as int) =~= weights@);
    }
    Some(acc)
}

/// The sum of weights only grows along the sequence.
proof fn lemma_weight_sum_prefix(w: Seq<usize>, i: int)
    requires
        0 <= i <= w.len(),
    ensures
        weight_sum(w.subrange(0, i)) <= weight_sum(w),
    decreases w.len(),
{
    if i < w.len() {
        assert(w.drop_last().subrange(0, i) =~= w.subrange(0, i));
        lemma_weight_sum_prefix(w.drop_last(), i);
    } else {
        assert(w.subrange(0, i) =~= w);
    }
}

/// Every decision of `decisions` names a node of `root`.
pub open spec fn paths_in(root: Node, decisions: Seq<(Vec<bool>, Vec<u64>)>) -> bool {
    forall|k: int| 0 <= k < decisions.len() ==> node_at(root, (#[trigger] decisions[k]).0@) is Some
}

/// The decisions `new` are `old` with task `t` joined to entry `i`, the decision for the
/// node at `path`: the one that names that node, or a new one at the end when none does.
pub open spec fn added(
    old: Seq<(Vec<bool>, Vec<u64>)>,
    new: Seq<(Vec<bool>, Vec<u64>)>,
    path: Seq<bool>,
    t: u64,
    i: int,
) -> bool {
    &&& 0 <= i <= old.len()
    &&& new.len() == if i == old.len() {
        old.len() + 1
    } else {
        old.len()
    }
    &&& new[i].0@ == path
    &&& i < old.len() ==> old[i].0@ == path
    &&& i == old.len() ==> forall|k: int| 0 <= k < old.len() ==> (#[trigger] old[k]).0@ != path
    &&& forall|k: int| 0 <= k < old.len() ==> (#[trigger] new[k]).0@ == old[k].0@
    &&& forall|k: int, u: u64|
        0 <= k < new.len() ==> (#[trigger] new[k].1@.contains(u) <==> ((k < old.len()
            && old[k].1@.contains(u)) || (k == i && u == t)))
}

/// No decision serves task `t`.
pub open spec fn unserved(d: Seq<(Vec<bool>, Vec<u64>)>, t: u64) -> bool {
    forall|k: int| 0 <= k < d.len() ==> !(#[trigger] d[k].1@.contains(t))
}

/// Exactly one decision serves task `t`.
pub open spec fn served_once(d: Seq<(Vec<bool>, Vec<u64>)>, t: u64) -> bool {
    exists|k: int|
        #![trigger d[k].1@.contains(t)]
        0 <= k < d.len() && d[k].1@.contains(t) && forall|k2: int|
            0 <= k2 < d.len() && #[trigger] d[k2].1@.contains(t) ==> k2 == k
}

/// Joining task `t` to a decision serves `t` once when no decision served it, and changes
/// for no other task whether it is served.
pub proof fn lemma_added(
    old: Seq<(Vec<bool>, Vec<u64>)>,
    new: Seq<(Vec<bool>, Vec<u64>)>,
    path: Seq<bool>,
    t: u64,
    i: int,
)
    requires
        added(old, new, path, t, i),
    ensures
        unserved(old, t) ==> served_once(new, t),
        forall|u: u64| u != t && #[trigger] unserved(old, u) ==> unserved(new, u),
        forall|u: u64| u != t && #[trigger] served_once(old, u) ==> served_once(new, u),
{
    if unserved(old, t) {
        assert(new[i].1@.contains(t));
        assert forall|k2: int| 0 <= k2 < new.len() && #[trigger] new[k2].1@.contains(t) implies k2
            == i by {
            if k2 < old.len() && old[k2].1@.contains(t) {
                assert(!old[k2].1@.contains(t));
            }
        }
    }
    assert forall|u: u64| u != t && #[trigger] unserved(old, u) implies unserved(new, u) by {
        assert forall|k: int| 0 <= k < new.len() implies !(#[trigger] new[k].1@.contains(u)) by {
            if k < old.len() {
                assert(!old[k].1@.contains(u));
            }
        }
    }
    assert forall|u: u64| u != t && #[trigger] served_once(old, u) implies served_once(new, u) by {
        let k = choose|k: int|
            #![trigger old[k].1@.contains(u)]
            0 <= k < old.len() && old[k].1@.contains(u) && forall|k2: int|
                0 <= k2 < old.len() && #[trigger] old[k2].1@.contains(u) ==> k2 == k;
        assert(new[k].1@.contains(u));
        assert forall|k2: int| 0 <= k2 < new.len() && #[trigger] new[k2].1@.contains(u) implies k2
            == k by {
            assert(k2 < old.len() && old[k2].1@.contains(u));
        }
    }
}

/// A task served once by the decision at entry `k` is served by no other.
pub proof fn lemma_first_service(d: Seq<(Vec<bool>, Vec<u64>)>, k: int, t: u64)
    requires
        served_once(d, t),
        0 <= k < d.len(),
        d[k].1@.contains(t),
    ensures
        forall|j: int| 0 <= j < d.len() && j != k ==> !(#[trigger] d[j].1@.contains(t)),
{
    let k0 = choose|k0: int|
        #![trigger d[k0].1@.contains(t)]
        0 <= k0 < d.len() && d[k0].1@.contains(t) && forall|k2: int|
            0 <= k2 < d.len() && #[trigger] d[k2].1@.contains(t) ==> k2 == k0;
    assert(k == k0);
}

/// Serving the task at entry `i` of `ids`, after those before it and before none after it,
/// keeps every other task as it was.
pub proof fn lemma_serve_next(
    d0: Seq<(Vec<bool>, Vec<u64>)>,
    old: Seq<(Vec<bool>, Vec<u64>)>,
    new: Seq<(Vec<bool>, Vec<u64>)>,
    path: Seq<bool>,
    ids: Seq<u64>,
    i: int,
    j: int,
)
    requires
        added(old, new, path, ids[i], j),
        ids.no_duplicates(),
        0 <= i < ids.len(),
        forall|k: int| 0 <= k < i ==> served_once(old, #[trigger] ids[k]),
        forall|k: int| i <= k < ids.len() ==> unserved(old, #[trigger] ids[k]),
        forall|u: u64| !ids.contains(u) && #[trigger] unserved(d0, u) ==> unserved(old, u),
        forall|u: u64| !ids.contains(u) && #[trigger] served_once(d0, u) ==> served_once(old, u),
    ensures
        forall|k: int| 0 <= k < i + 1 ==> served_once(new, #[trigger] ids[k]),
        forall|k: int| i + 1 <= k < ids.len() ==> unserved(new, #[trigger] ids[k]),
        forall|u: u64| !ids.contains(u) && #[trigger] unserved(d0, u) ==> unserved(new, u),
        forall|u: u64| !ids.contains(u) && #[trigger] served_once(d0, u) ==> served_once(new, u),
{
    let t = ids[i];
    lemma_added(old, new, path, t, j);
    assert forall|k: int| 0 <= k < i + 1 implies served_once(new, #[trigger] ids[k]) by {
        if k < i {
            assert(ids[k] != t);
        }
    }
    assert forall|k: int| i + 1 <= k < ids.len() implies unserved(new, #[trigger] ids[k]) by {
        assert(ids[k] != t);
    }
    assert(ids.contains(t));
}

/// The tasks after entry `st` of `ids` served by a later round of decisions, which keeps
/// the others as they were, leave every task of `ids` served once.
pub proof fn lemma_serve_rest(
    d0: Seq<(Vec<bool>, Vec<u64>)>,
    old: Seq<(Vec<bool>, Vec<u64>)>,
    new: Seq<(Vec<bool>, Vec<u64>)>,
    ids: Seq<u64>,
    st: int,
)
    requires
        ids.no_duplicates(),
        0 <= st <= ids.len(),
        forall|k: int| 0 <= k < st ==> served_once(old, #[trigger] ids[k]),
        forall|u: u64| !ids.contains(u) && #[trigger] unserved(d0, u) ==> unserved(old, u),
        forall|u: u64| !ids.contains(u) && #[trigger] served_once(d0, u) ==> served_once(old, u),
        forall|u: u64| #[trigger] ids.skip(st).contains(u) ==> served_once(new, u),
        forall|u: u64| !ids.skip(st).contains(u) && #[trigger] unserved(old, u) ==> unserved(new, u),
        forall|u: u64|
            !ids.skip(st).contains(u) && #[trigger] served_once(old, u) ==> served_once(new, u),
    ensures
        forall|u: u64| #[trigger] ids.contains(u) ==> served_once(new, u),
        forall|u: u64| !ids.contains(u) && #[trigger] unserved(d0, u) ==> unserved(new, u),
        forall|u: u64| !ids.contains(u) && #[trigger] served_once(d0, u) ==> served_once(new, u),
{
    assert forall|u: u64| #[trigger] ids.contains(u) implies served_once(new, u) by {
        let q = choose|q: int| 0 <= q < ids.len() && ids[q] == u;
        if q >= st {
            assert(ids.skip(st)[q - st] == u);
            assert(ids.skip(st).contains(u));
        } else {
            assert(served_once(old, ids[q]));
            assert(!ids.skip(st).contains(u)) by {
                if ids.skip(st).contains(u) {
                    let q2 = choose|q2: int| 0 <= q2 < ids.skip(st).len() && ids.skip(st)[q2] == u;
                    assert(ids.skip(st)[q2] == ids[st + q2]);
                    assert(ids[st + q2] == ids[q]);
                    assert(false);
                }
            }
            assert(served_once(old, u));
        }
    }
    assert forall|u: u64| !ids.contains(u) implies !ids.skip(st).contains(u) by {
        if ids.skip(st).contains(u) {
            let q2 = choose|q2: int| 0 <= q2 < ids.skip(st).len() && ids.skip(st)[q2] == u;
            assert(ids[st + q2] == u);
        }
    }
}

/// Adds `task` to the loaders of the decision for the node at `path`, or records that
/// decision with `task` alone; gives the entry of that decision.
pub fn add_task_decision(
    decisions: &mut Vec<(Vec<bool>, Vec<u64>)>,
    path: &Vec<bool>,
    task: u64,
    Ghost(root): Ghost<Node>,
) -> (i: usize)
    requires
        paths_in(root, old(decisions)@),
        node_at(root, path@) is Some,
    ensures
        paths_in(root, final(decisions)@),
        added(old(decisions)@, final(decisions)@, path@, task, i as int),
{
    let mut i: usize = 0;
    while i < decisions.len()
        invariant
            i <= decisions.len(),
            decisions@ == old(decisions)@,
            paths_in(root, decisions@),
            forall|k: int| 0 <= k < i ==> (#[trigger] decisions@[k]).0@ != path@,
        decreases decisions.len() - i,
    {
        if same_path(&decisions[i].0, path) {
            let ghost d0 = decisions@;
            let (p, mut ids) = decisions.remove(i);
            let ghost ids0 = ids@;
            let mut found = false;
            let mut j: usize = 0;
            while j < ids.len()
                invariant
                    j <= ids.len(),
                    ids@ == ids0,
                    found == ids0.subrange(0, j as int).contains(task),
                decreases ids.len() - j,
            {
                proof {
                    let s0 = ids0.subrange(0, j as int);
                    let s1 = ids0.subrange(0, j + 1);
                    assert(s1 =~= s0.push(ids0[j as int]));
                    if s0.contains(task) {
                        let q = choose|q: int| 0 <= q < s0.len() && s0[q] == task;
                        assert(s1[q] == task);
                    }
                    if s1.contains(task) {
                        let q = choose|q: int| 0 <= q < s1.len() && s1[q] == task;
                        if q < j {
                            assert(s0[q] == task);
                        }
                    }
                    if ids0[j as int] == task {
                        assert(s1[j as int] == task);
                    }
                }
                if ids[j] == task {
                    found = true;
                }
                j = j + 1;
            }
            proof {
                assert(ids0.subrange(0, ids0.len() as int) =~= ids0);
            }
            if !found {
                ids.push(task);
            }
            let ghost ids1 = ids@;
            decisions.insert(i, (p, ids));
            proof {
                assert(decisions@ =~= d0.update(i as int, (p, ids)));
                assert forall|k: int, u: u64| 0 <= k < decisions@.len() implies (
                #[trigger] decisions@[k].1@.contains(u) <==> ((k < d0.len() && d0[k].1@.contains(u))
                    || (k == i && u == task))) by {
                    if k == i {
                        if !found {
                            assert(ids1 == ids0.push(task));
                            if ids1.contains(u) {
                                let q = choose|q: int| 0 <= q < ids1.len() && ids1[q] == u;
                                if q < ids0.len() {
                                    assert(ids0[q] == u);
                                }
                            }
                            if ids0.contains(u) {
                                let q = choose|q: int| 0 <= q < ids0.len() && ids0[q] == u;
                                assert(ids1[q] == u);
                            }
                            assert(ids1[ids0.len() as int] == task);
                        }
                    }
                }
            }
            return i;
        }
        i = i + 1;
    }
    let ghost d0 = decisions@;
    decisions.push((extend_path(path, None), vec![task]));
    proof {
        assert(decisions@[d0.len() as int].1@ == seq![task]);
        assert forall|k: int, u: u64| 0 <= k < decisions@.len() implies (
        #[trigger] decisions@[k].1@.contains(u) <==> ((k < d0.len() && d0[k].1@.contains(u)) || (k
            == d0.len() && u == task))) by {
            if k == d0.len() {
                if seq![task].contains(u) {
                    let q = choose|q: int| 0 <= q < 1 && seq![task][q] == u;
                }
                if u == task {
                    assert(seq![task][0] == task);
                }
            } else {
                assert(decisions@[k] == d0[k]);
            }
        }
        assert forall|k: int| 0 <= k < d0.len() implies (#[trigger] decisions@[k]).0@ == d0[k].0@ by {
            assert(decisions@[k] == d0[k]);
        }
    }
    i
}

/// Records the decision that `task` alone reads the node at `path`, in place of any
/// decision for that node.
pub fn set_task_decision(
    decisions: &mut Vec<(Vec<bool>, Vec<u64>)>,
    path: &Vec<bool>,
    task: u64,
    Ghost(root): Ghost<Node>,
)
    requires
        paths_in(root, old(decisions)@),
        node_at(root, path@) is Some,
    ensures
        paths_in(root, final(decisions)@),
        (forall|k: int| 0 <= k < old(decisions)@.len() ==> (#[trigger] old(decisions)@[k]).0@ != path@)
            ==> added(old(decisions)@, final(decisions)@, path@, task, old(decisions)@.len() as int),
{
    let mut i: usize = 0;
    while i < decisions.len()
        invariant
            i <= decisions.len(),
            decisions@ == old(decisions)@,
            paths_in(root, decisions@),
            forall|k: int| 0 <= k < i ==> (#[trigger] decisions@[k]).0@ != path@,
        decreases decisions.len() - i,
    {
        if same_path(&decisions[i].0, path) {
            decisions.set(i, (extend_path(path, None), vec![task]));
            return;
        }
        i = i + 1;
    }
    let ghost d0 = decisions@;
    decisions.push((extend_path(path, None), vec![task]));
    proof {
        assert(decisions@[d0.len() as int].1@ == seq![task]);
        assert forall|k: int, u: u64| 0 <= k < decisions@.len() implies (
        #[trigger] decisions@[k].1@.contains(u) <==> ((k < d0.len() && d0[k].1@.contains(u)) || (k
            == d0.len() && u == task))) by {
            if k == d0.len() {
                if seq![task].contains(u) {
                    let q = choose|q: int| 0 <= q < 1 && seq![task][q] == u;
                }
                if u == task {
                    assert(seq![task][0] == task);
                }
            } else {
                assert(decisions@[k] == d0[k]);
            }
        }
        assert forall|k: int| 0 <= k < d0.len() implies (#[trigger] decisions@[k]).0@ == d0[k].0@ by {
            assert(decisions@[k] == d0[k]);
        }
    }
}

} // verus!

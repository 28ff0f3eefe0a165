use vstd::prelude::*;
use std::collections::HashSet;
use rand::rngs::ThreadRng;
use crate::rng::{gen_index, weight_sum, weighted_index};
use crate::decision::{
    add_task_decision, added, decision_added, extend_path, insert_decision, paths_in, served_once,
    set_task_decision, total_weight, unserved, Decision,
};

verus! {

broadcast use vstd::std_specs::hash::group_hash_axioms;

/// A node of the sampling tree. Its values are the indices that all the loaders of its
/// subtree still have to read; the rest of a loader's indices lie below, on the way to the
/// leaf of that loader. The left child holds the smaller loaders, the right the larger.
pub struct Node {
    values: Vec<u32>,
    values_set: HashSet<u32>,
    // The LoaderId set which hold the data in the Node
    loader_set: Vec<u64>,
    left: Option<Box<Node>>,
    right: Option<Box<Node>>,
}

impl Node {
    /// The values of the node.
    pub closed spec fn vals(&self) -> Set<u32> {
        self.values@.to_set()
    }

    /// The values of the node, in their order.
    pub closed spec fn value_seq(&self) -> Seq<u32> {
        self.values@
    }

    /// The loaders of the node.
    pub closed spec fn loaders(&self) -> Set<u64> {
        self.loader_set@.to_set()
    }

    /// The loaders of the node, in their order.
    pub closed spec fn loader_seq(&self) -> Seq<u64> {
        self.loader_set@
    }

    /// Whether the node has no children.
    pub closed spec fn is_leaf(&self) -> bool {
        self.left is None
    }

    /// The left child of an inner node.
    pub closed spec fn left_node(&self) -> Node {
        *self.left->0
    }

    /// The right child of an inner node.
    pub closed spec fn right_node(&self) -> Node {
        *self.right->0
    }

    /// Every value of the subtree.
    pub closed spec fn all_values(&self) -> Set<u32>
        decreases self,
    {
        let l = match self.left {
            Some(l) => l.all_values(),
            None => Set::empty(),
        };
        let r = match self.right {
            Some(r) => r.all_values(),
            None => Set::empty(),
        };
        self.vals().union(l).union(r)
    }

    /// The values that loader `id` still has to read: those of the nodes of the subtree that
    /// hold the loader.
    pub closed spec fn loader_values(&self, id: u64) -> Set<u32>
        decreases self,
    {
        if self.loaders().contains(id) {
            let l = match self.left {
                Some(l) => l.loader_values(id),
                None => Set::empty(),
            };
            let r = match self.right {
                Some(r) => r.loader_values(id),
                None => Set::empty(),
            };
            self.vals().union(l).union(r)
        } else {
            Set::empty()
        }
    }

    /// The height of the subtree.
    pub closed spec fn height(&self) -> nat
        decreases self,
    {
        let l = match self.left {
            Some(l) => l.height(),
            None => 0,
        };
        let r = match self.right {
            Some(r) => r.height(),
            None => 0,
        };
        1 + if l < r {
            r
        } else {
            l
        }
    }

    /// Every leaf of the subtree holds one loader.
    pub closed spec fn single_leaves(&self) -> bool
        decreases self,
    {
        match (self.left, self.right) {
            (Some(l), Some(r)) => l.single_leaves() && r.single_leaves(),
            _ => self.loader_set@.len() == 1,
        }
    }

    /// Every left child is a leaf: the tree is a spine of inner nodes going right.
    pub closed spec fn left_leaves(&self) -> bool
        decreases self,
    {
        match (self.left, self.right) {
            (Some(l), Some(r)) => l.is_leaf() && r.left_leaves(),
            _ => true,
        }
    }

    /// The loaders of a tree whose left children are leaves, in the order of the spine: the
    /// loader of each left leaf going down to the right, then that of the last leaf.
    pub closed spec fn spine(&self) -> Seq<u64>
        decreases self,
    {
        match (self.left, self.right) {
            (Some(l), Some(r)) => l.loader_seq() + r.spine(),
            _ => self.loader_seq(),
        }
    }

    /// Along the spine, no loader has more values left to read than a loader after it.
    pub closed spec fn spine_sorted(&self) -> bool {
        forall|a: int, b: int|
            #![trigger self.spine()[a], self.spine()[b]]
            0 <= a < b < self.spine().len() ==> self.loader_values(self.spine()[a]).len()
                <= self.loader_values(self.spine()[b]).len()
    }

    /// The spine of `n` is that of `me` with the loader of the leaf `other` placed after the
    /// loaders that have fewer values than `other` and before the next one.
    pub closed spec fn spine_insert(me: Node, other: Node, n: Node) -> bool {
        exists|j: int|
            0 <= j <= me.spine().len() && n.spine() == me.spine().take(j).push(
                other.loader_seq()[0],
            ) + me.spine().skip(j) && (forall|a: int|
                0 <= a < j ==> #[trigger] me.loader_values(me.spine()[a]).len()
                    < other.vals().len()) && (j < me.spine().len() ==> other.vals().len()
                <= me.loader_values(me.spine()[j]).len())
    }

    /// Whether the node has a right child.
    pub closed spec fn has_right(&self) -> bool {
        self.right is Some
    }

    /// The right child of an inner node is lower than the node.
    pub proof fn lemma_right_height(&self)
        requires
            self.has_right(),
        ensures
            self.right_node().height() < self.height(),
    {
    }

    /// The spine lists every loader of the subtree once.
    pub proof fn lemma_spine(&self)
        requires
            self.wf(),
            self.single_leaves(),
            self.left_leaves(),
        ensures
            self.spine().no_duplicates(),
            self.spine().to_set() == self.loaders(),
            self.spine().len() > 0,
            !self.is_leaf() ==> self.spine() == seq![self.left_node().loader_seq()[0]]
                + self.right_node().spine(),
            !self.is_leaf() ==> self.left_node().loaders() == set![self.left_node().loader_seq()[0]],
            self.is_leaf() ==> self.spine() == self.loader_seq() && self.spine().len() == 1
                && self.spine_sorted(),
        decreases self,
    {
        if !self.is_leaf() {
            let l = self.left_node();
            let r = self.right_node();
            r.lemma_spine();
            assert(l.single_leaves());
            assert(l.is_leaf());
            assert(l.loader_seq().len() == 1);
            assert(l.loader_seq() =~= seq![l.loader_seq()[0]]);
            assert(l.loaders() =~= set![l.loader_seq()[0]]);
            let a = l.loader_seq()[0];
            let sp = self.spine();
            assert(sp =~= seq![a] + r.spine());
            assert(!r.spine().contains(a)) by {
                if r.spine().contains(a) {
                    assert(r.spine().to_set().contains(a));
                    assert(l.loaders().disjoint(r.loaders()));
                }
            }
            assert forall|i: int, j: int| 0 <= i < j < sp.len() implies sp[i] != sp[j] by {
                if i == 0 {
                    assert(sp[j] == r.spine()[j - 1]);
                } else {
                    assert(sp[i] == r.spine()[i - 1]);
                    assert(sp[j] == r.spine()[j - 1]);
                }
            }
            assert forall|x: u64| sp.to_set().contains(x) == self.loaders().contains(x) by {
                if sp.to_set().contains(x) {
                    let k = choose|k: int| 0 <= k < sp.len() && sp[k] == x;
                    if k > 0 {
                        assert(r.spine()[k - 1] == x);
                        assert(r.spine().to_set().contains(x));
                    }
                }
                if self.loaders().contains(x) {
                    if x == a {
                        assert(sp[0] == x);
                    } else {
                        assert(r.spine().to_set().contains(x));
                        let k = choose|k: int| 0 <= k < r.spine().len() && r.spine()[k] == x;
                        assert(sp[k + 1] == x);
                    }
                }
            }
            assert(sp.to_set() =~= self.loaders());
        } else {
            assert(self.loader_seq().len() == 1);
            assert(self.loader_seq().no_duplicates());
        }
    }

    /// A leaf placed on the spine by its count, as `spine_insert` says, keeps the spine
    /// sorted when the loaders keep their values.
    pub proof fn lemma_sorted_after_insert(me: Node, other: Node, n: Node)
        requires
            me.wf(),
            me.single_leaves(),
            me.left_leaves(),
            me.spine_sorted(),
            other.wf(),
            other.is_leaf(),
            other.loader_seq().len() == 1,
            me.loaders().disjoint(other.loaders()),
            Node::spine_insert(me, other, n),
            forall|id: u64| #[trigger]
                n.loader_values(id) == me.loader_values(id).union(other.loader_values(id)),
        ensures
            n.spine_sorted(),
    {
        let sp = me.spine();
        let o = other.loader_seq()[0];
        me.lemma_spine();
        assert(other.loaders().contains(o));
        let j = choose|j: int|
            0 <= j <= me.spine().len() && n.spine() == me.spine().take(j).push(
                other.loader_seq()[0],
            ) + me.spine().skip(j) && (forall|a: int|
                0 <= a < j ==> #[trigger] me.loader_values(me.spine()[a]).len()
                    < other.vals().len()) && (j < me.spine().len() ==> other.vals().len()
                <= me.loader_values(me.spine()[j]).len());
        let ns = n.spine();
        assert(ns.len() == sp.len() + 1);
        assert forall|a: int| 0 <= a < ns.len() implies #[trigger] ns[a] == if a < j {
            sp[a]
        } else if a == j {
            o
        } else {
            sp[a - 1]
        } by {
            if a < j {
                assert(ns[a] == sp.take(j).push(o)[a]);
            } else if a == j {
                assert(ns[a] == sp.take(j).push(o)[a]);
            } else {
                assert(ns[a] == sp.skip(j)[a - j - 1]);
            }
        }
        me.lemma_loader_values(o);
        assert(n.loader_values(o) =~= other.vals());
        assert forall|t: u64| me.loaders().contains(t) implies n.loader_values(t)
            == me.loader_values(t) by {
            other.lemma_loader_values(t);
            assert(n.loader_values(t) =~= me.loader_values(t));
        }
        assert forall|a: int, b: int|
            #![trigger ns[a], ns[b]]
            0 <= a < b < ns.len() implies n.loader_values(ns[a]).len() <= n.loader_values(
                ns[b],
            ).len() by {
            if a != j {
                let a1 = if a < j { a } else { a - 1 };
                assert(sp.to_set().contains(sp[a1]));
            }
            if b != j {
                let b1 = if b < j { b } else { b - 1 };
                assert(sp.to_set().contains(sp[b1]));
            }
            if a < j && b > j {
                assert(me.loader_values(sp[a]).len() <= me.loader_values(sp[b - 1]).len());
            } else if a == j && b > j {
                if b - 1 > j {
                    assert(me.loader_values(sp[j]).len() <= me.loader_values(sp[b - 1]).len());
                }
            } else if a > j {
                assert(me.loader_values(sp[a - 1]).len() <= me.loader_values(sp[b - 1]).len());
            } else if b < j {
                assert(me.loader_values(sp[a]).len() <= me.loader_values(sp[b]).len());
            }
        }
    }

    /// The first loader of the spine has the values of the root and of the left leaf.
    proof fn lemma_first_count(&self)
        requires
            self.wf(),
            self.single_leaves(),
            self.left_leaves(),
        ensures
            self.loader_values(self.spine()[0]).len() == self.value_seq().len() + if self.is_leaf() {
                0
            } else {
                self.left_node().value_seq().len() as int
            },
    {
        self.lemma_spine();
        let a = self.spine()[0];
        assert(self.spine().to_set().contains(a));
        self.lemma_loader_count(a);
        if !self.is_leaf() {
            let l = self.left_node();
            assert(l.loaders().contains(a));
            l.lemma_loader_count(a);
            assert(l.single_leaves());
        }
    }

    /// Subtrees of the same skeleton have the same spine.
    pub proof fn lemma_skeleton_spine(&self, other: Node)
        requires
            self.same_skeleton(other),
        ensures
            self.spine() == other.spine(),
        decreases self,
    {
        assert(self.loader_seq() == other.loader_seq());
        match (self.left, self.right, other.left, other.right) {
            (Some(l), Some(r), Some(ol), Some(or)) => {
                assert(l.same_skeleton(*ol));
                assert(l.loader_seq() == ol.loader_seq());
                r.lemma_skeleton_spine(*or);
            },
            _ => {},
        }
    }

    /// Each node of the subtree holds at least as many values as the node at the same place
    /// of `old`.
    pub closed spec fn grown_from(&self, old: Node) -> bool
        decreases self,
    {
        &&& self.value_seq().len() >= old.value_seq().len()
        &&& match (self.left, old.left) {
            (Some(l), Some(ol)) => l.grown_from(*ol),
            _ => true,
        }
        &&& match (self.right, old.right) {
            (Some(r), Some(or)) => r.grown_from(*or),
            _ => true,
        }
    }

    /// Each node of the subtree holds at least as many values as the node at the same place
    /// of `old`, but for the node that `path` leads to.
    pub closed spec fn grown_except(&self, old: Node, path: Seq<bool>) -> bool
        decreases path.len(),
    {
        &&& path.len() > 0 ==> self.value_seq().len() >= old.value_seq().len()
        &&& match (self.left, old.left) {
            (Some(l), Some(ol)) => if path.len() > 0 && !path[0] {
                l.grown_except(*ol, path.drop_first())
            } else {
                l.grown_from(*ol)
            },
            _ => true,
        }
        &&& match (self.right, old.right) {
            (Some(r), Some(or)) => if path.len() > 0 && path[0] {
                r.grown_except(*or, path.drop_first())
            } else {
                r.grown_from(*or)
            },
            _ => true,
        }
    }

    /// A subtree has grown from itself.
    pub proof fn lemma_grown_refl(&self)
        ensures
            self.grown_from(*self),
        decreases self,
    {
        match self.left {
            Some(l) => l.lemma_grown_refl(),
            None => {},
        }
        match self.right {
            Some(r) => r.lemma_grown_refl(),
            None => {},
        }
    }

    /// In a subtree grown from `old`, every node holds at least the values' number of its
    /// place in `old`, but for the node `p` leads to when only `grown_except` holds.
    pub proof fn lemma_grown_at(&self, old: Node, p: Option<Seq<bool>>, q: Seq<bool>)
        requires
            old.wf(),
            old.same_skeleton(*self),
            node_at(old, q) is Some,
            match p {
                Some(p) => self.grown_except(old, p) && p != q,
                None => self.grown_from(old),
            },
        ensures
            node_at(*self, q) is Some,
            node_at(*self, q)->0.value_seq().len() >= node_at(old, q)->0.value_seq().len(),
        decreases q.len(),
    {
        old.lemma_skeleton(*self, q);
        if q.len() > 0 {
            let go_right = q[0];
            let c = if go_right {
                self.right_node()
            } else {
                self.left_node()
            };
            let oc = if go_right {
                old.right_node()
            } else {
                old.left_node()
            };
            assert(oc.same_skeleton(c));
            match p {
                Some(pp) => {
                    if pp.len() > 0 && pp[0] == go_right {
                        assert(pp.drop_first() != q.drop_first()) by {
                            if pp.drop_first() == q.drop_first() {
                                assert(pp.len() == q.len());
                                assert forall|k: int| 0 <= k < pp.len() implies pp[k] == q[k] by {
                                    if k > 0 {
                                        assert(pp[k] == pp.drop_first()[k - 1]);
                                        assert(q[k] == q.drop_first()[k - 1]);
                                    }
                                }
                                assert(pp =~= q);
                            }
                        }
                        c.lemma_grown_at(oc, Some(pp.drop_first()), q.drop_first());
                    } else {
                        c.lemma_grown_at(oc, None, q.drop_first());
                    }
                },
                None => {
                    c.lemma_grown_at(oc, None, q.drop_first());
                },
            }
        } else {
            match p {
                Some(pp) => {
                    assert(pp.len() > 0) by {
                        if pp.len() == 0 {
                            assert(pp =~= q);
                        }
                    }
                },
                None => {},
            }
        }
    }

    /// The two subtrees have the same shape and the same loaders at each node; only their
    /// values may differ.
    pub closed spec fn same_skeleton(&self, other: Node) -> bool
        decreases self,
    {
        &&& self.loader_set == other.loader_set
        &&& match (self.left, other.left) {
            (Some(l), Some(ol)) => l.same_skeleton(*ol),
            (None, None) => true,
            _ => false,
        }
        &&& match (self.right, other.right) {
            (Some(r), Some(or)) => r.same_skeleton(*or),
            (None, None) => true,
            _ => false,
        }
    }

    /// The subtree is well formed: no value or loader is listed twice in a node, a node holds
    /// a loader, the value set matches the values, an inner node has both children, whose loaders it unites and
    /// who share none, and no value of a node occurs again below it.
    pub closed spec fn wf(&self) -> bool
        decreases self,
    {
        &&& self.values@.no_duplicates()
        &&& self.values_set@ == self.vals()
        &&& self.loader_set@.no_duplicates()
        &&& self.loader_set@.len() > 0
        &&& (self.left is Some) == (self.right is Some)
        &&& match (self.left, self.right) {
            (Some(l), Some(r)) => {
                &&& l.wf()
                &&& r.wf()
                &&& self.loaders() == l.loaders().union(r.loaders())
                &&& l.loaders().disjoint(r.loaders())
                &&& self.vals().disjoint(l.all_values())
                &&& self.vals().disjoint(r.all_values())
            },
            _ => true,
        }
    }

    /// A loader's values are values of the subtree, and none of a loader the subtree does
    /// not hold; the subtree's values are finitely many.
    pub proof fn lemma_loader_values(&self, id: u64)
        requires
            self.wf(),
        ensures
            self.loader_values(id).subset_of(self.all_values()),
            !self.loaders().contains(id) ==> self.loader_values(id) == Set::<u32>::empty(),
            self.all_values().finite(),
            self.vals().finite(),
        decreases self,
    {
        match (self.left, self.right) {
            (Some(l), Some(r)) => {
                l.lemma_loader_values(id);
                r.lemma_loader_values(id);
            },
            _ => {},
        }
    }

    /// The values of the children's subtrees.
    pub closed spec fn below_values(&self) -> Set<u32> {
        let l = match self.left {
            Some(l) => l.all_values(),
            None => Set::empty(),
        };
        let r = match self.right {
            Some(r) => r.all_values(),
            None => Set::empty(),
        };
        l.union(r)
    }

    /// The values of loader `id` in the children's subtrees.
    pub closed spec fn below_loader_values(&self, id: u64) -> Set<u32> {
        let l = match self.left {
            Some(l) => l.loader_values(id),
            None => Set::empty(),
        };
        let r = match self.right {
            Some(r) => r.loader_values(id),
            None => Set::empty(),
        };
        l.union(r)
    }

    /// A node that differs from a well-formed one only in values that its subtree does not
    /// hold below it is well formed, with those values at its root.
    proof fn lemma_root_values(old: Node, new: Node)
        requires
            old.wf(),
            new.loader_set == old.loader_set,
            new.left == old.left,
            new.right == old.right,
            new.values@.no_duplicates(),
            new.values_set@ == new.vals(),
            new.vals().disjoint(old.below_values()),
        ensures
            new.wf(),
            new.height() == old.height(),
            new.single_leaves() == old.single_leaves(),
            new.left_leaves() == old.left_leaves(),
            new.same_skeleton(old),
            new.below_values() == old.below_values(),
            new.all_values() == new.vals().union(old.below_values()),
            forall|id: u64| #[trigger]
                new.loader_values(id) == if old.loaders().contains(id) {
                    new.vals().union(old.below_loader_values(id))
                } else {
                    Set::<u32>::empty()
                },
    {
        old.lemma_skeleton_refl();
        assert(new.all_values() =~= new.vals().union(old.below_values()));
        assert forall|id: u64| #[trigger]
            new.loader_values(id) == if old.loaders().contains(id) {
                new.vals().union(old.below_loader_values(id))
            } else {
                Set::<u32>::empty()
            } by {
            if old.loaders().contains(id) {
                assert(new.loader_values(id) =~= new.vals().union(old.below_loader_values(id)));
            }
        }
    }

    /// Having the same skeleton goes both ways.
    pub proof fn lemma_skeleton_sym(&self, other: Node)
        requires
            self.same_skeleton(other),
        ensures
            other.same_skeleton(*self),
        decreases self,
    {
        match (self.left, other.left) {
            (Some(l), Some(ol)) => l.lemma_skeleton_sym(*ol),
            _ => {},
        }
        match (self.right, other.right) {
            (Some(r), Some(or)) => r.lemma_skeleton_sym(*or),
            _ => {},
        }
    }

    /// Having the same skeleton carries over.
    pub proof fn lemma_skeleton_trans(&self, b: Node, c: Node)
        requires
            self.same_skeleton(b),
            b.same_skeleton(c),
        ensures
            self.same_skeleton(c),
        decreases self,
    {
        match (self.left, b.left, c.left) {
            (Some(l), Some(bl), Some(cl)) => l.lemma_skeleton_trans(*bl, *cl),
            _ => {},
        }
        match (self.right, b.right, c.right) {
            (Some(r), Some(br), Some(cr)) => r.lemma_skeleton_trans(*br, *cr),
            _ => {},
        }
    }

    /// A task table in the order of the spine whose counts are the loaders' numbers of
    /// values is sorted exactly when the spine is.
    pub proof fn lemma_table_sorted(&self, table: Seq<(u64, usize)>)
        requires
            task_ids(table) == self.spine(),
            forall|k: int|
                0 <= k < table.len() ==> (#[trigger] table[k]).1 == self.loader_values(
                    table[k].0,
                ).len(),
        ensures
            self.spine_sorted() <==> forall|a: int, b: int|
                #![trigger table[a], table[b]]
                0 <= a < b < table.len() ==> table[a].1 <= table[b].1,
    {
        if self.spine_sorted() {
            assert forall|a: int, b: int|
                #![trigger table[a], table[b]]
                0 <= a < b < table.len() implies table[a].1 <= table[b].1 by {
                assert(task_ids(table)[a] == table[a].0);
                assert(task_ids(table)[b] == table[b].0);
                assert(self.loader_values(self.spine()[a]).len() <= self.loader_values(
                    self.spine()[b],
                ).len());
            }
        }
        if forall|a: int, b: int|
            #![trigger table[a], table[b]]
            0 <= a < b < table.len() ==> table[a].1 <= table[b].1 {
            assert forall|a: int, b: int|
                #![trigger self.spine()[a], self.spine()[b]]
                0 <= a < b < self.spine().len() implies self.loader_values(self.spine()[a]).len()
                <= self.loader_values(self.spine()[b]).len() by {
                assert(task_ids(table)[a] == table[a].0);
                assert(task_ids(table)[b] == table[b].0);
                assert(table[a].1 <= table[b].1);
            }
        }
    }

    /// A subtree has its own skeleton.
    pub proof fn lemma_skeleton_refl(&self)
        ensures
            self.same_skeleton(*self),
        decreases self,
    {
        match self.left {
            Some(l) => l.lemma_skeleton_refl(),
            None => {},
        }
        match self.right {
            Some(r) => r.lemma_skeleton_refl(),
            None => {},
        }
    }

    /// Subtrees of the same skeleton have the same loaders, height and single leaves, and a
    /// path leads to a node in one exactly when it does in the other, with the same loaders.
    pub proof fn lemma_skeleton(&self, other: Node, path: Seq<bool>)
        requires
            self.wf(),
            self.same_skeleton(other),
        ensures
            self.loaders() == other.loaders(),
            self.height() == other.height(),
            self.single_leaves() == other.single_leaves(),
            self.left_leaves() == other.left_leaves(),
            self.is_leaf() == other.is_leaf(),
            (node_at(*self, path) is Some) == (node_at(other, path) is Some),
            node_at(*self, path) is Some ==> node_at(*self, path)->0.loaders() == node_at(
                other,
                path,
            )->0.loaders(),
        decreases self, path.len(),
    {
        match (self.left, other.left) {
            (Some(l), Some(ol)) => l.lemma_skeleton(*ol, Seq::empty()),
            _ => {},
        }
        match (self.right, other.right) {
            (Some(r), Some(or)) => r.lemma_skeleton(*or, Seq::empty()),
            _ => {},
        }
        if path.len() > 0 && !self.is_leaf() {
            if path[0] {
                self.right_node().lemma_skeleton(other.right_node(), path.drop_first());
            } else {
                self.left_node().lemma_skeleton(other.left_node(), path.drop_first());
            }
        }
    }

    /// The node a path leads to lies in the subtree: its values and loaders are the
    /// subtree's, and it is well formed.
    pub proof fn lemma_node_at(&self, path: Seq<bool>)
        requires
            self.wf(),
            node_at(*self, path) is Some,
        ensures
            node_at(*self, path)->0.wf(),
            node_at(*self, path)->0.all_values().subset_of(self.all_values()),
            node_at(*self, path)->0.loaders().subset_of(self.loaders()),
            self.single_leaves() ==> node_at(*self, path)->0.single_leaves(),
            self.left_leaves() ==> node_at(*self, path)->0.left_leaves(),
            forall|t: u64|
                #[trigger] node_at(*self, path)->0.loaders().contains(t) ==> node_at(
                    *self,
                    path,
                )->0.vals().subset_of(self.loader_values(t)),
        decreases path.len(),
    {
        if path.len() > 0 {
            let c = if path[0] {
                self.right_node()
            } else {
                self.left_node()
            };
            c.lemma_node_at(path.drop_first());
            let m = node_at(*self, path)->0;
            assert forall|t: u64| #[trigger] m.loaders().contains(t) implies m.vals().subset_of(
                self.loader_values(t),
            ) by {
                assert(m.vals().subset_of(c.loader_values(t)));
                assert(c.loaders().contains(t));
                assert(self.loaders().contains(t));
            }
        }
    }

    /// A leaf of `values` for the loaders `loader_set`.
    pub fn new(values: Vec<u32>, loader_set: Vec<u64>) -> (n: Node)
        requires
            values@.no_duplicates(),
            loader_set@.no_duplicates(),
            loader_set@.len() > 0,
        ensures
            n.wf(),
            n.is_leaf(),
            n.single_leaves() == (loader_set@.len() == 1),
            n.left_leaves(),
            n.value_seq() == values@,
            n.loader_seq() == loader_set@,
            n.loaders() == loader_set@.to_set(),
            n.all_values() == values@.to_set(),
            forall|id: u64| #[trigger]
                n.loader_values(id) == if loader_set@.contains(id) {
                    values@.to_set()
                } else {
                    Set::<u32>::empty()
                },
    {
        let mut values_set: HashSet<u32> = HashSet::new();
        let mut i: usize = 0;
        while i < values.len()
            invariant
                i <= values.len(),
                values_set@ == values@.subrange(0, i as int).to_set(),
            decreases values.len() - i,
        {
            values_set.insert(values[i]);
            i = i + 1;
            proof {
                assert(values@.subrange(0, i as int) =~= values@.subrange(0, i - 1).push(
                    values@[i - 1],
                ));
                values@.subrange(0, i - 1).lemma_push_to_set_commute(values@[i - 1]);
            }
        }
        proof {
            assert(values@.subrange(0, values@.len() as int) =~= values@);
        }
        let n = Node { values, values_set, loader_set, left: None, right: None };
        proof {
            assert(n.all_values() =~= values@.to_set());
            assert forall|id: u64| #[trigger]
                n.loader_values(id) == if loader_set@.contains(id) {
                    values@.to_set()
                } else {
                    Set::<u32>::empty()
                } by {
                if loader_set@.contains(id) {
                    assert(n.loaders().contains(id));
                    assert(n.loader_values(id) =~= values@.to_set());
                }
            }
        }
        n
    }

    /// The loaders of the node.
    pub fn get_loader_set(&self) -> (r: &Vec<u64>)
        ensures
            r@ == self.loader_seq(),
    {
        &self.loader_set
    }

    /// A node holds no more values than a `usize` counts.
    pub proof fn lemma_len_fits(&self)
        ensures
            self.value_seq().len() <= usize::MAX,
    {
        assert(self.values.len() == self.values@.len());
    }

    /// The number of values of the node.
    pub fn len(&self) -> (r: usize)
        ensures
            r == self.value_seq().len(),
    {
        return self.values.len();
    }

    /// The number of values of the node and of its left child.
    fn min_task_length(&self) -> (r: u128)
        ensures
            r == self.value_seq().len() + if self.is_leaf() {
                0
            } else {
                self.left_node().value_seq().len() as int
            },
    {
        let mut l = self.len() as u128;
        if let Some(left) = &self.left {
            l = l + left.len() as u128;
        }
        l
    }

    /// Adds `vals` to the values of the node, which holds none of them.
    fn append_values(&mut self, vals: &Vec<u32>)
        requires
            vals@.no_duplicates(),
            vals@.to_set().disjoint(old(self).vals()),
            old(self).values@.no_duplicates(),
            old(self).values_set@ == old(self).vals(),
        ensures
            final(self).values@.no_duplicates(),
            final(self).values_set@ == final(self).vals(),
            final(self).vals() == old(self).vals().union(vals@.to_set()),
            final(self).value_seq().len() == old(self).value_seq().len() + vals@.len(),
            final(self).loader_set == old(self).loader_set,
            final(self).left == old(self).left,
            final(self).right == old(self).right,
    {
        let mut i: usize = 0;
        while i < vals.len()
            invariant
                i <= vals.len(),
                vals@.no_duplicates(),
                vals@.to_set().disjoint(old(self).vals()),
                self.values@ == old(self).values@ + vals@.subrange(0, i as int),
                self.vals() == old(self).vals().union(vals@.subrange(0, i as int).to_set()),
                self.values@.no_duplicates(),
                self.values_set@ == self.vals(),
                self.loader_set == old(self).loader_set,
                self.left == old(self).left,
                self.right == old(self).right,
            decreases vals.len() - i,
        {
            let v = vals[i];
            proof {
                assert(vals@.to_set().contains(v));
                assert(!old(self).vals().contains(v));
                assert(!vals@.subrange(0, i as int).contains(v)) by {
                    if vals@.subrange(0, i as int).contains(v) {
                        let k = choose|k: int| 0 <= k < i && vals@.subrange(0, i as int)[k] == v;
                        assert(vals@[k] == vals@[i as int]);
                    }
                }
                assert(!self.values@.contains(v)) by {
                    if self.values@.contains(v) {
                        let k = choose|k: int| 0 <= k < self.values@.len() && self.values@[k] == v;
                        if k < old(self).values@.len() {
                            assert(old(self).values@[k] == v);
                        } else {
                            assert(vals@.subrange(0, i as int)[k - old(self).values@.len()] == v);
                        }
                    }
                }
            }
            let ghost prev = self.values@;
            self.values.push(v);
            self.values_set.insert(v);
            i = i + 1;
            proof {
                assert(self.values@ =~= old(self).values@ + vals@.subrange(0, i as int));
                prev.lemma_push_to_set_commute(v);
                assert(vals@.subrange(0, i as int) =~= vals@.subrange(0, i - 1).push(v));
                vals@.subrange(0, i - 1).lemma_push_to_set_commute(v);
                assert(self.vals() =~= old(self).vals().union(vals@.subrange(0, i as int).to_set()));
                assert(self.values_set@ =~= self.vals());
            }
        }
        proof {
            assert(vals@.subrange(0, vals@.len() as int) =~= vals@);
        }
    }

    /// Keeps only the values not in `common`.
    fn drop_values(&mut self, common: &HashSet<u32>)
        requires
            old(self).values@.no_duplicates(),
        ensures
            final(self).values@.no_duplicates(),
            final(self).values_set@ == final(self).vals(),
            final(self).vals() == old(self).vals().difference(common@),
            final(self).loader_set == old(self).loader_set,
            final(self).left == old(self).left,
            final(self).right == old(self).right,
    {
        let mut values: Vec<u32> = Vec::new();
        let mut values_set: HashSet<u32> = HashSet::new();
        let mut i: usize = 0;
        while i < self.values.len()
            invariant
                i <= self.values.len(),
                *self == *old(self),
                self.values@.no_duplicates(),
                values@.no_duplicates(),
                values_set@ == values@.to_set(),
                values@.to_set() == self.values@.subrange(0, i as int).to_set().difference(
                    common@,
                ),
            decreases self.values.len() - i,
        {
            let v = self.values[i];
            let ghost prev = values@;
            proof {
                assert(self.values@.subrange(0, i + 1) =~= self.values@.subrange(0, i as int).push(
                    v,
                ));
                self.values@.subrange(0, i as int).lemma_push_to_set_commute(v);
                assert(!self.values@.subrange(0, i as int).contains(v)) by {
                    if self.values@.subrange(0, i as int).contains(v) {
                        let k = choose|k: int|
                            0 <= k < i && self.values@.subrange(0, i as int)[k] == v;
                        assert(self.values@[k] == self.values@[i as int]);
                    }
                }
            }
            if !common.contains(&v) {
                proof {
                    assert(!values@.contains(v)) by {
                        assert(!values@.to_set().contains(v));
                    }
                }
                values.push(v);
                values_set.insert(v);
                proof {
                    prev.lemma_push_to_set_commute(v);
                }
            }
            i = i + 1;
            proof {
                assert(values@.to_set() =~= self.values@.subrange(0, i as int).to_set().difference(
                    common@,
                ));
            }
        }
        proof {
            assert(self.values@.subrange(0, self.values@.len() as int) =~= self.values@);
        }
        self.values = values;
        self.values_set = values_set;
    }

    /// Moves the values that this node shares with `other` out of both, into a new leaf for
    /// the loaders of both.
    fn intersect_update(&mut self, other: &mut Node) -> (n: Node)
        requires
            old(self).values@.no_duplicates(),
            old(self).loader_set@.no_duplicates(),
            old(self).loader_set@.len() > 0,
            old(other).values@.no_duplicates(),
            old(other).values_set@ == old(other).vals(),
            old(other).loader_set@.no_duplicates(),
        ensures
            n.wf(),
            n.is_leaf(),
            n.vals() == old(self).vals().intersect(old(other).vals()),
            n.loaders() == old(self).loaders().union(old(other).loaders()),
            final(self).values@.no_duplicates(),
            final(self).values_set@ == final(self).vals(),
            final(self).vals() == old(self).vals().difference(n.vals()),
            final(self).loader_set == old(self).loader_set,
            final(self).left == old(self).left,
            final(self).right == old(self).right,
            final(other).values@.no_duplicates(),
            final(other).values_set@ == final(other).vals(),
            final(other).vals() == old(other).vals().difference(n.vals()),
            final(other).loader_set == old(other).loader_set,
            final(other).left == old(other).left,
            final(other).right == old(other).right,
    {
        let mut values: Vec<u32> = Vec::new();
        let mut values_set: HashSet<u32> = HashSet::new();
        let mut i: usize = 0;
        while i < self.values.len()
            invariant
                i <= self.values.len(),
                *self == *old(self),
                *other == *old(other),
                self.values@.no_duplicates(),
                other.values_set@ == other.vals(),
                values@.no_duplicates(),
                values_set@ == values@.to_set(),
                values@.to_set() == self.values@.subrange(0, i as int).to_set().intersect(
                    other.vals(),
                ),
            decreases self.values.len() - i,
        {
            let v = self.values[i];
            let ghost prev = values@;
            proof {
                assert(self.values@.subrange(0, i + 1) =~= self.values@.subrange(0, i as int).push(
                    v,
                ));
                self.values@.subrange(0, i as int).lemma_push_to_set_commute(v);
                assert(!self.values@.subrange(0, i as int).contains(v)) by {
                    if self.values@.subrange(0, i as int).contains(v) {
                        let k = choose|k: int|
                            0 <= k < i && self.values@.subrange(0, i as int)[k] == v;
                        assert(self.values@[k] == self.values@[i as int]);
                    }
                }
            }
            if other.values_set.contains(&v) {
                proof {
                    assert(!values@.contains(v)) by {
                        assert(!values@.to_set().contains(v));
                    }
                }
                values.push(v);
                values_set.insert(v);
                proof {
                    prev.lemma_push_to_set_commute(v);
                }
            }
            i = i + 1;
            proof {
                assert(values@.to_set() =~= self.values@.subrange(0, i as int).to_set().intersect(
                    other.vals(),
                ));
            }
        }
        proof {
            assert(self.values@.subrange(0, self.values@.len() as int) =~= self.values@);
        }
        let loader_set = union_ids(&self.loader_set, &other.loader_set);
        self.drop_values(&values_set);
        other.drop_values(&values_set);
        Node { values, values_set, loader_set, left: None, right: None }
    }

    /// Hands the values of an inner node down to both children, which it gives back.
    fn pushdown(node: Node) -> (r: (Box<Node>, Box<Node>))
        requires
            !node.is_leaf(),
            node.right is Some,
            node.left_node().wf(),
            node.right_node().wf(),
            node.values@.no_duplicates(),
            node.vals().disjoint(node.below_values()),
        ensures
            r.0.wf(),
            r.1.wf(),
            r.0.height() == node.left_node().height(),
            r.1.height() == node.right_node().height(),
            r.0.single_leaves() == node.left_node().single_leaves(),
            r.1.single_leaves() == node.right_node().single_leaves(),
            r.0.is_leaf() == node.left_node().is_leaf(),
            r.1.left_leaves() == node.right_node().left_leaves(),
            r.0.same_skeleton(node.left_node()),
            r.1.same_skeleton(node.right_node()),
            r.0.loaders() == node.left_node().loaders(),
            r.1.loaders() == node.right_node().loaders(),
            r.0.all_values() == node.left_node().all_values().union(node.vals()),
            r.1.all_values() == node.right_node().all_values().union(node.vals()),
            forall|id: u64| #[trigger]
                r.0.loader_values(id) == if node.left_node().loaders().contains(id) {
                    node.left_node().loader_values(id).union(node.vals())
                } else {
                    Set::<u32>::empty()
                },
            forall|id: u64| #[trigger]
                r.1.loader_values(id) == if node.right_node().loaders().contains(id) {
                    node.right_node().loader_values(id).union(node.vals())
                } else {
                    Set::<u32>::empty()
                },
    {
        let ghost ol = node.left_node();
        let ghost or = node.right_node();
        let Node { values, values_set: _, loader_set: _, left, right } = node;
        let mut l = left.unwrap();
        let mut r = right.unwrap();
        proof {
            assert(values@.to_set().disjoint(ol.vals()));
            assert(values@.to_set().disjoint(or.vals()));
        }
        l.append_values(&values);
        r.append_values(&values);
        proof {
            Node::lemma_root_values(ol, *l);
            Node::lemma_root_values(or, *r);
            assert(l.all_values() =~= ol.all_values().union(values@.to_set()));
            assert(r.all_values() =~= or.all_values().union(values@.to_set()));
            assert forall|id: u64| #[trigger]
                l.loader_values(id) == if ol.loaders().contains(id) {
                    ol.loader_values(id).union(values@.to_set())
                } else {
                    Set::<u32>::empty()
                } by {
                if ol.loaders().contains(id) {
                    assert(l.loader_values(id) =~= ol.loader_values(id).union(values@.to_set()));
                }
            }
            assert forall|id: u64| #[trigger]
                r.loader_values(id) == if or.loaders().contains(id) {
                    or.loader_values(id).union(values@.to_set())
                } else {
                    Set::<u32>::empty()
                } by {
                if or.loaders().contains(id) {
                    assert(r.loader_values(id) =~= or.loader_values(id).union(values@.to_set()));
                }
            }
        }
        (l, r)
    }

    /// The pieces of a join after the values of `me0` were handed down fit together: the
    /// new root's values lie in none of the subtrees below it.
    proof fn lemma_join_pushed(
        me0: Node,
        other0: Node,
        root: Node,
        l: Node,
        ins: Node,
        rest: Set<u32>,
        other1: Node,
    )
        requires
            me0.wf(),
            other0.wf(),
            !me0.is_leaf(),
            root.vals() == me0.vals().intersect(other0.vals()),
            rest == me0.vals().difference(root.vals()),
            l.all_values() == me0.left_node().all_values().union(rest),
            ins.all_values().subset_of(
                me0.right_node().all_values().union(rest).union(other1.all_values()),
            ),
            other1.all_values() == other1.vals().union(other0.below_values()),
            other1.vals() == other0.vals().difference(root.vals()),
        ensures
            root.vals().disjoint(l.all_values()),
            root.vals().disjoint(ins.all_values()),
            root.vals().union(l.all_values()).union(ins.all_values()).subset_of(
                me0.all_values().union(other0.all_values()),
            ),
    {
        assert(me0.vals().disjoint(me0.left_node().all_values()));
        assert(me0.vals().disjoint(me0.right_node().all_values()));
        assert(other0.all_values() =~= other0.vals().union(other0.below_values()));
    }

    /// A loader's values after a join whose values of `me0` were handed down.
    proof fn lemma_join_pushed_values(
        me0: Node,
        other0: Node,
        root: Node,
        l: Node,
        ins: Node,
        rest: Set<u32>,
        other1: Node,
        id: u64,
    )
        requires
            me0.wf(),
            other0.wf(),
            !me0.is_leaf(),
            me0.loaders().disjoint(other0.loaders()),
            root.loaders() == me0.loaders().union(other0.loaders()),
            root.vals() == me0.vals().intersect(other0.vals()),
            rest == me0.vals().difference(root.vals()),
            l.loaders() == me0.left_node().loaders(),
            l.loader_values(id) == if me0.left_node().loaders().contains(id) {
                me0.left_node().loader_values(id).union(rest)
            } else {
                Set::<u32>::empty()
            },
            ins.loader_values(id) == (if me0.right_node().loaders().contains(id) {
                me0.right_node().loader_values(id).union(rest)
            } else {
                Set::<u32>::empty()
            }).union(other1.loader_values(id)),
            other1.loader_values(id) == if other0.loaders().contains(id) {
                other1.vals().union(other0.below_loader_values(id))
            } else {
                Set::<u32>::empty()
            },
            other1.vals() == other0.vals().difference(root.vals()),
        ensures
            (if root.loaders().contains(id) {
                root.vals().union(l.loader_values(id)).union(ins.loader_values(id))
            } else {
                Set::<u32>::empty()
            }) == me0.loader_values(id).union(other0.loader_values(id)),
    {
        let l0 = me0.left_node();
        let r0 = me0.right_node();
        l0.lemma_loader_values(id);
        r0.lemma_loader_values(id);
        assert(me0.loaders() == l0.loaders().union(r0.loaders()));
        if me0.loaders().contains(id) {
            assert(me0.loader_values(id) =~= me0.vals().union(l0.loader_values(id)).union(
                r0.loader_values(id),
            ));
            assert(!other0.loaders().contains(id));
            if l0.loaders().contains(id) {
                assert(!r0.loaders().contains(id));
            }
        }
        if other0.loaders().contains(id) {
            assert(other0.loader_values(id) =~= other0.vals().union(
                other0.below_loader_values(id),
            ));
        }
        assert((if root.loaders().contains(id) {
            root.vals().union(l.loader_values(id)).union(ins.loader_values(id))
        } else {
            Set::<u32>::empty()
        }) =~= me0.loader_values(id).union(other0.loader_values(id)));
    }

    /// Joins the tree `me` and the node `other` under a new root that takes the values
    /// both share. The smaller side goes left when `other` has no more values than `me` and
    /// its left child; else the values left at `me` are handed down and `other` joins the
    /// right subtree, and a leaf `me` is joined with `other` on the right when
    /// `larger_right`, on the left otherwise.
    fn insert_into(me: Node, other: Node, larger_right: bool) -> (n: Node)
        requires
            me.wf(),
            other.wf(),
            me.loaders().disjoint(other.loaders()),
        ensures
            n.wf(),
            !n.is_leaf(),
            n.loaders() == me.loaders().union(other.loaders()),
            n.all_values().subset_of(me.all_values().union(other.all_values())),
            forall|id: u64| #[trigger]
                n.loader_values(id) == me.loader_values(id).union(other.loader_values(id)),
            me.single_leaves() && other.single_leaves() ==> n.single_leaves(),
            me.left_leaves() && other.is_leaf() ==> n.left_leaves(),
            larger_right && me.single_leaves() && me.left_leaves() && other.is_leaf()
                && other.loader_seq().len() == 1 ==> Node::spine_insert(me, other, n),
        decreases me.height(),
    {
        let ghost me0 = me;
        let ghost other0 = other;
        let mut me = me;
        let mut other = other;
        let other_len = other.len() as u128;
        let root_len = me.min_task_length();
        let mut new_root = me.intersect_update(&mut other);
        let ghost c = new_root.vals();
        proof {
            Node::lemma_root_values(me0, me);
            Node::lemma_root_values(other0, other);
            me0.lemma_loader_values(0);
            other0.lemma_loader_values(0);
        }
        let ghost fits = larger_right && me0.single_leaves() && me0.left_leaves() && other0.is_leaf()
            && other0.loader_seq().len() == 1;
        proof {
            other0.values@.unique_seq_to_set();
            if fits {
                me0.lemma_first_count();
                me0.lemma_spine();
            }
        }
        if other_len <= root_len || (me.left.is_none() && !larger_right) {
            new_root.left = Some(Box::new(other));
            new_root.right = Some(Box::new(me));
            proof {
                if fits {
                    me.lemma_skeleton_spine(me0);
                    let o = other0.loader_seq()[0];
                    let sp = me0.spine();
                    assert(other.loader_seq() =~= seq![o]);
                    assert(new_root.spine() == other.loader_seq() + me.spine());
                    assert(new_root.spine() =~= sp.take(0).push(o) + sp.skip(0));
                    assert(Node::spine_insert(me0, other0, new_root));
                }
                assert(new_root.loaders() =~= other.loaders().union(me.loaders()));
                assert(new_root.all_values() =~= c.union(other.all_values()).union(
                    me.all_values(),
                ));
                assert forall|id: u64| #[trigger]
                    new_root.loader_values(id) == me0.loader_values(id).union(
                        other0.loader_values(id),
                    ) by {
                    assert(me.loader_values(id) == if me0.loaders().contains(id) {
                        me.vals().union(me0.below_loader_values(id))
                    } else {
                        Set::<u32>::empty()
                    });
                    assert(other.loader_values(id) == if other0.loaders().contains(id) {
                        other.vals().union(other0.below_loader_values(id))
                    } else {
                        Set::<u32>::empty()
                    });
                    if me0.loaders().contains(id) {
                        assert(me0.loader_values(id) =~= me0.vals().union(
                            me0.below_loader_values(id),
                        ));
                    }
                    if other0.loaders().contains(id) {
                        assert(other0.loader_values(id) =~= other0.vals().union(
                            other0.below_loader_values(id),
                        ));
                    }
                    assert(new_root.loader_values(id) =~= me0.loader_values(id).union(
                        other0.loader_values(id),
                    ));
                }
            }
        } else if me.left.is_none() {
            new_root.left = Some(Box::new(me));
            new_root.right = Some(Box::new(other));
            proof {
                if fits {
                    let o = other0.loader_seq()[0];
                    let sp = me0.spine();
                    assert(other.spine() == other.loader_seq());
                    assert(me.loader_seq() == me0.loader_seq());
                    assert(other.loader_seq() =~= seq![o]);
                    assert(new_root.spine() == me.loader_seq() + other.spine());
                    assert(new_root.spine() =~= sp.take(1).push(o) + sp.skip(1));
                    assert(forall|a: int|
                        0 <= a < 1 ==> #[trigger] me0.loader_values(me0.spine()[a]).len()
                            < other0.vals().len());
                    assert(Node::spine_insert(me0, other0, new_root));
                }
                assert(new_root.loaders() =~= me.loaders().union(other.loaders()));
                assert(new_root.all_values() =~= c.union(me.all_values()).union(
                    other.all_values(),
                ));
                assert forall|id: u64| #[trigger]
                    new_root.loader_values(id) == me0.loader_values(id).union(
                        other0.loader_values(id),
                    ) by {
                    assert(me.loader_values(id) == if me0.loaders().contains(id) {
                        me.vals().union(me0.below_loader_values(id))
                    } else {
                        Set::<u32>::empty()
                    });
                    assert(other.loader_values(id) == if other0.loaders().contains(id) {
                        other.vals().union(other0.below_loader_values(id))
                    } else {
                        Set::<u32>::empty()
                    });
                    if me0.loaders().contains(id) {
                        assert(me0.loader_values(id) =~= me0.vals().union(
                            me0.below_loader_values(id),
                        ));
                    }
                    if other0.loaders().contains(id) {
                        assert(other0.loader_values(id) =~= other0.vals().union(
                            other0.below_loader_values(id),
                        ));
                    }
                    assert(new_root.loader_values(id) =~= me0.loader_values(id).union(
                        other0.loader_values(id),
                    ));
                }
            }
        } else {
            let ghost l0 = me0.left_node();
            let ghost r0 = me0.right_node();
            let (l, r) = Node::pushdown(me);
            proof {
                l0.lemma_loader_values(0);
                r0.lemma_loader_values(0);
            }
            let ghost rg = *r;
            let ghost other1 = other;
            let ins = Node::insert_into(*r, other, larger_right);
            let ghost lg = *l;
            let ghost insg = ins;
            proof {
                assert(me0.loaders() == l0.loaders().union(r0.loaders()));
                assert(l0.loaders().disjoint(r0.loaders()));
                Node::lemma_join_pushed(me0, other0, new_root, lg, insg, me.vals(), other);
            }
            new_root.left = Some(l);
            new_root.right = Some(Box::new(ins));
            proof {
                assert(new_root.loaders() =~= lg.loaders().union(insg.loaders()));
                assert(lg.loaders().disjoint(insg.loaders()));
                assert(new_root.wf());
                assert(new_root.all_values() =~= c.union(lg.all_values()).union(
                    insg.all_values(),
                ));
                assert forall|id: u64| #[trigger]
                    new_root.loader_values(id) == me0.loader_values(id).union(
                        other0.loader_values(id),
                    ) by {
                    Node::lemma_join_pushed_values(me0, other0, new_root, lg, insg, me.vals(), other, id);
                }
                if fits {
                    Node::lemma_spine_after_pushdown(me0, other0, me, other1, rg, lg, insg, new_root);
                }
            }
        }
        new_root
    }

    /// The spine after a join whose values were handed down: the leaf lands in the right
    /// subtree at the same place relative to the loaders' counts.
    proof fn lemma_spine_after_pushdown(
        me0: Node,
        other0: Node,
        me1: Node,
        other1: Node,
        r: Node,
        l: Node,
        ins: Node,
        n: Node,
    )
        requires
            me0.wf(),
            other0.wf(),
            me0.single_leaves(),
            me0.left_leaves(),
            !me0.is_leaf(),
            other0.is_leaf(),
            other0.loader_seq().len() == 1,
            other0.value_seq().len() > me0.value_seq().len() + me0.left_node().value_seq().len(),
            me1.vals() == me0.vals().difference(n.vals()),
            me1.right == me0.right,
            n.vals() == me0.vals().intersect(other0.vals()),
            other1.vals() == other0.vals().difference(n.vals()),
            other1.loader_set == other0.loader_set,
            other1.is_leaf(),
            r.same_skeleton(me0.right_node()),
            r.single_leaves(),
            r.left_leaves(),
            forall|id: u64| #[trigger]
                r.loader_values(id) == if me0.right_node().loaders().contains(id) {
                    me0.right_node().loader_values(id).union(me1.vals())
                } else {
                    Set::<u32>::empty()
                },
            l.same_skeleton(me0.left_node()),
            n.left == Some(Box::new(l)),
            n.right == Some(Box::new(ins)),
            Node::spine_insert(r, other1, ins),
        ensures
            Node::spine_insert(me0, other0, n),
    {
        let r0 = me0.right_node();
        let l0 = me0.left_node();
        let o = other0.loader_seq()[0];
        let sp = me0.spine();
        let spr = r0.spine();
        me0.lemma_spine();
        me0.lemma_first_count();
        r0.lemma_spine();
        r.lemma_skeleton_spine(r0);
        assert(other1.loader_seq()[0] == o);
        let j1 = choose|j: int|
            0 <= j <= r.spine().len() && ins.spine() == r.spine().take(j).push(
                other1.loader_seq()[0],
            ) + r.spine().skip(j) && (forall|a: int|
                0 <= a < j ==> #[trigger] r.loader_values(r.spine()[a]).len()
                    < other1.vals().len()) && (j < r.spine().len() ==> other1.vals().len()
                <= r.loader_values(r.spine()[j]).len());
        let j = j1 + 1;
        assert(l.loader_seq() == l0.loader_seq());
        assert(l0.single_leaves());
        assert(l0.is_leaf());
        assert(l.loader_seq() =~= seq![sp[0]]);
        assert(n.spine() == l.loader_seq() + ins.spine());
        assert(sp == seq![sp[0]] + spr);
        assert(n.spine() =~= sp.take(j).push(o) + sp.skip(j));
        other0.values@.unique_seq_to_set();
        me0.values@.unique_seq_to_set();
        me0.lemma_loader_values(0);
        other0.lemma_loader_values(0);
        assert forall|t: u64| r0.loaders().contains(t) implies me0.loader_values(t).len()
            + other1.vals().len() == r.loader_values(t).len() + other0.vals().len() by {
            me0.lemma_loader_count(t);
            r0.lemma_loader_values(t);
            assert(me0.vals().disjoint(r0.loader_values(t)));
            lemma_count_shift(
                me0.vals(),
                other0.vals(),
                r0.loader_values(t),
                n.vals(),
                me1.vals(),
                other1.vals(),
            );
            assert(r.loader_values(t) == r0.loader_values(t).union(me1.vals()));
        }
        assert forall|a: int| 0 <= a < j implies #[trigger] me0.loader_values(sp[a]).len()
            < other0.vals().len() by {
            if a > 0 {
                assert(sp[a] == spr[a - 1]);
                assert(spr.to_set().contains(spr[a - 1]));
                assert(r.loader_values(r.spine()[a - 1]).len() < other1.vals().len());
            }
        }
        if j < sp.len() {
            assert(sp[j] == spr[j1]);
            assert(spr.to_set().contains(spr[j1]));
        }
        assert(Node::spine_insert(me0, other0, n));
    }

    /// Joins the tree `me` and the node `other` under a new root that takes the values
    /// both share; a larger `other` joins the right subtree.
    pub fn insert(me: Node, other: Node) -> (n: Node)
        requires
            me.wf(),
            other.wf(),
            me.loaders().disjoint(other.loaders()),
        ensures
            n.wf(),
            !n.is_leaf(),
            n.loaders() == me.loaders().union(other.loaders()),
            n.all_values().subset_of(me.all_values().union(other.all_values())),
            forall|id: u64| #[trigger]
                n.loader_values(id) == me.loader_values(id).union(other.loader_values(id)),
            me.single_leaves() && other.single_leaves() ==> n.single_leaves(),
            me.left_leaves() && other.is_leaf() ==> n.left_leaves(),
    {
        Node::insert_into(me, other, false)
    }

    /// As `insert`, but a leaf `me` that is joined with a larger `other` stays on the left.
    pub(crate) fn insert_right(me: Node, other: Node) -> (n: Node)
        requires
            me.wf(),
            other.wf(),
            me.loaders().disjoint(other.loaders()),
        ensures
            n.wf(),
            !n.is_leaf(),
            n.loaders() == me.loaders().union(other.loaders()),
            n.all_values().subset_of(me.all_values().union(other.all_values())),
            forall|id: u64| #[trigger]
                n.loader_values(id) == me.loader_values(id).union(other.loader_values(id)),
            me.single_leaves() && other.single_leaves() ==> n.single_leaves(),
            me.left_leaves() && other.is_leaf() ==> n.left_leaves(),
            me.single_leaves() && me.left_leaves() && other.is_leaf() && other.loader_seq().len()
                == 1 ==> Node::spine_insert(me, other, n),
    {
        Node::insert_into(me, other, true)
    }

    /// The values that loader `loader_id` still has to read.
    pub fn get_loader_values(&self, loader_id: u64) -> (r: Vec<u32>)
        requires
            self.wf(),
        ensures
            r@.to_set() == self.loader_values(loader_id),
            r@.no_duplicates(),
        decreases self,
    {
        let mut res: Vec<u32> = Vec::new();
        proof {
            assert(res@.to_set() =~= Set::<u32>::empty());
        }
        if has_id(&self.loader_set, loader_id) {
            append_all(&mut res, &self.values);
            proof {
                assert(res@ =~= self.values@);
            }
            if let Some(left) = &self.left {
                let left_v = left.get_loader_values(loader_id);
                proof {
                    left.lemma_loader_values(loader_id);
                    lemma_no_dup_concat(res@, left_v@);
                }
                append_all(&mut res, &left_v);
            }
            if let Some(right) = &self.right {
                let right_v = right.get_loader_values(loader_id);
                proof {
                    right.lemma_loader_values(loader_id);
                    let left = self.left.unwrap();
                    left.lemma_loader_values(loader_id);
                    assert(res@.to_set() =~= self.vals().union(left.loader_values(loader_id)));
                    assert(res@.to_set().disjoint(right_v@.to_set()));
                    lemma_no_dup_concat(res@, right_v@);
                }
                append_all(&mut res, &right_v);
            }
            proof {
                assert(res@.to_set() =~= self.loader_values(loader_id));
            }
        }
        res
    }

    /// Gives `item` back to the loaders of `comp` in the subtree: at the first node on the
    /// way down whose loaders `comp` all lists, which then leave `comp`.
    fn complent(&mut self, comp: &mut Vec<u64>, item: u32)
        requires
            old(self).wf(),
            old(self).single_leaves(),
            !old(self).all_values().contains(item),
            old(comp)@.no_duplicates(),
        ensures
            final(self).wf(),
            final(self).single_leaves(),
            final(self).loaders() == old(self).loaders(),
            final(self).height() == old(self).height(),
            final(self).same_skeleton(*old(self)),
            final(self).all_values().subset_of(old(self).all_values().insert(item)),
            old(comp)@.to_set().disjoint(old(self).loaders()) ==> final(self).all_values()
                == old(self).all_values(),
            forall|id: u64| #[trigger]
                final(self).loader_values(id) == if old(comp)@.contains(id) && old(
                    self,
                ).loaders().contains(id) {
                    old(self).loader_values(id).insert(item)
                } else {
                    old(self).loader_values(id)
                },
            final(comp)@.no_duplicates(),
            final(comp)@.to_set() == old(comp)@.to_set().difference(old(self).loaders()),
            final(self).grown_from(*old(self)),
            old(comp)@.len() == 0 ==> *final(self) == *old(self),
        decreases old(self).height(),
    {
        let ghost s0 = *self;
        let ghost c0 = comp@;
        proof {
            s0.lemma_loader_values(0);
            s0.lemma_skeleton_refl();
        }
        if comp.len() == 0 {
            proof {
                s0.lemma_grown_refl();
                assert(comp@.to_set() =~= c0.to_set().difference(s0.loaders()));
                assert forall|id: u64| #[trigger]
                    self.loader_values(id) == if c0.contains(id) && s0.loaders().contains(id) {
                        s0.loader_values(id).insert(item)
                    } else {
                        s0.loader_values(id)
                    } by {
                    assert(!c0.contains(id));
                }
            }
            return;
        }
        let all_in = ids_subset(&self.loader_set, comp);
        if all_in {
            let one = vec![item];
            proof {
                assert(one@.to_set() =~= set![item]);
            }
            self.append_values(&one);
            remove_ids(comp, &self.loader_set);
        }
        let ghost s1 = *self;
        let ghost c1 = comp@;
        proof {
            Node::lemma_root_values(s0, s1);
            assert(s0.loaders().contains(s0.loader_set@[0]));
        }
        let left = self.left.take();
        let right = self.right.take();
        match (left, right) {
            (Some(mut l), Some(mut r)) => {
                let ghost l0 = *l;
                let ghost r0 = *r;
                proof {
                    l0.lemma_loader_values(0);
                    r0.lemma_loader_values(0);
                }
                (&mut *l).complent(comp, item);
                let ghost c2 = comp@;
                (&mut *r).complent(comp, item);
                proof {
                    l0.lemma_loader_values(0);
                    r0.lemma_loader_values(0);
                    l.lemma_loader_values(0);
                    r.lemma_loader_values(0);
                }
                self.left = Some(l);
                self.right = Some(r);
                proof {
                    let lf = self.left_node();
                    let rf = self.right_node();
                    assert(s0.loaders() == l0.loaders().union(r0.loaders()));
                    assert(l0.loaders().disjoint(r0.loaders()));
                    assert(!l0.all_values().contains(item));
                    assert(!r0.all_values().contains(item));
                    if all_in {
                        assert(c1.to_set().disjoint(l0.loaders()));
                        assert(c2.to_set() =~= c1.to_set());
                        assert(c2.to_set().disjoint(r0.loaders()));
                    } else {
                        assert(s1.vals() == s0.vals());
                    }
                    assert(comp@.to_set() =~= c0.to_set().difference(s0.loaders()));
                    assert(self.loaders() == lf.loaders().union(rf.loaders()));
                    assert(self.vals().disjoint(lf.all_values()));
                    assert(self.vals().disjoint(rf.all_values()));
                    assert(self.wf());
                    assert(self.all_values().subset_of(s0.all_values().insert(item)));
                    if c0.to_set().disjoint(s0.loaders()) {
                        assert(!all_in);
                        assert(c1.to_set().disjoint(l0.loaders()));
                        assert(c2.to_set().disjoint(r0.loaders()));
                        assert(self.all_values() =~= s0.all_values());
                    }
                    assert forall|id: u64| #[trigger]
                        self.loader_values(id) == if c0.contains(id) && s0.loaders().contains(id) {
                            s0.loader_values(id).insert(item)
                        } else {
                            s0.loader_values(id)
                        } by {
                        l0.lemma_loader_values(id);
                        r0.lemma_loader_values(id);
                        if s0.loaders().contains(id) {
                            assert(self.loader_values(id) == self.vals().union(
                                lf.loader_values(id),
                            ).union(rf.loader_values(id)));
                            assert(s0.loader_values(id) == s0.vals().union(
                                l0.loader_values(id),
                            ).union(r0.loader_values(id)));
                            assert(c1.contains(id) == (c0.contains(id) && !all_in)) by {
                                assert(c1.to_set().contains(id) == c1.contains(id));
                                assert(c0.to_set().contains(id) == c0.contains(id));
                            }
                            if l0.loaders().contains(id) {
                                assert(!r0.loaders().contains(id));
                            } else {
                                assert(r0.loaders().contains(id));
                                assert(c2.contains(id) == c1.contains(id)) by {
                                    assert(c2.to_set().contains(id) == c2.contains(id));
                                    assert(c1.to_set().contains(id) == c1.contains(id));
                                }
                            }
                            assert(self.loader_values(id) =~= if c0.contains(id) {
                                s0.loader_values(id).insert(item)
                            } else {
                                s0.loader_values(id)
                            });
                        }
                    }
                }
            },
            (l, r) => {
                self.left = l;
                self.right = r;
                proof {
                    assert(*self == s1);
                    assert(self.grown_from(s0));
                    assert(s0.loader_set@.len() == 1);
                    if !all_in {
                        assert(!s0.loaders().subset_of(c0.to_set()));
                        assert(s0.loaders() =~= set![s0.loader_set@[0]]);
                        assert(comp@.to_set() =~= c0.to_set().difference(s0.loaders()));
                        assert(self.all_values() =~= s0.all_values());
                    } else {
                        assert(self.all_values() =~= s0.all_values().insert(item));
                    }
                    assert forall|id: u64| #[trigger]
                        self.loader_values(id) == if c0.contains(id) && s0.loaders().contains(id) {
                            s0.loader_values(id).insert(item)
                        } else {
                            s0.loader_values(id)
                        } by {
                        if s0.loaders().contains(id) {
                            assert(self.loader_values(id) =~= if c0.contains(id) {
                                s0.loader_values(id).insert(item)
                            } else {
                                s0.loader_values(id)
                            });
                        }
                    }
                }
            },
        }
    }

    /// Takes a value of the node, drawn at random, for the loaders of `loader_ids`; the other
    /// loaders of the node get it back further down, so that only those of `loader_ids`
    /// lose it. The position of the value in the node is drawn from `rng`, and the value
    /// there is taken as `take_at` says.
    pub fn random_choose(&mut self, loader_ids: &Vec<u64>, rng: &mut ThreadRng) -> (r: u32)
        requires
            old(self).wf(),
            old(self).single_leaves(),
            old(self).value_seq().len() > 0,
        ensures
            final(self).wf(),
            final(self).single_leaves(),
            final(self).loaders() == old(self).loaders(),
            final(self).height() == old(self).height(),
            final(self).same_skeleton(*old(self)),
            old(self).vals().contains(r),
            final(self).all_values().subset_of(old(self).all_values()),
            forall|id: u64| #[trigger]
                final(self).loader_values(id) == if loader_ids@.contains(id) {
                    old(self).loader_values(id).remove(r)
                } else {
                    old(self).loader_values(id)
                },
            final(self).grown_except(*old(self), Seq::empty()),
    {
        let len = self.values.len();
        let choice_idx = gen_index(rng, len);
        self.take_at(loader_ids, choice_idx)
    }

    /// Takes the value at position `k` of the node for the loaders of `loader_ids`; the other
    /// loaders of the node get it back further down, so that only those of `loader_ids` lose
    /// it. When the loaders of `loader_ids` are all the node's, the value leaves the node and
    /// the others keep their order.
    pub fn take_at(&mut self, loader_ids: &Vec<u64>, k: usize) -> (r: u32)
        requires
            old(self).wf(),
            old(self).single_leaves(),
            k < old(self).value_seq().len(),
        ensures
            final(self).wf(),
            final(self).single_leaves(),
            final(self).loaders() == old(self).loaders(),
            final(self).height() == old(self).height(),
            final(self).same_skeleton(*old(self)),
            r == old(self).value_seq()[k as int],
            old(self).vals().contains(r),
            final(self).all_values().subset_of(old(self).all_values()),
            forall|id: u64| #[trigger]
                final(self).loader_values(id) == if loader_ids@.contains(id) {
                    old(self).loader_values(id).remove(r)
                } else {
                    old(self).loader_values(id)
                },
            final(self).grown_except(*old(self), Seq::empty()),
            old(self).loaders().subset_of(loader_ids@.to_set()) ==> final(self).value_seq()
                == old(self).value_seq().remove(k as int),
    {
        let ghost s0 = *self;
        let choice_idx = k;
        let choice_item = self.values.remove(choice_idx);
        self.values_set.remove(&choice_item);
        proof {
            lemma_remove_to_set(s0.values@, choice_idx as int);
            assert(self.values_set@ =~= self.vals());
            Node::lemma_root_values(s0, *self);
            s0.lemma_loader_values(0);
            assert(!self.all_values().contains(choice_item));
        }
        let ghost s1 = *self;
        let mut compensation = difference_ids(&self.loader_set, loader_ids);
        let ghost comp = compensation@;
        proof {
            if s0.loaders().subset_of(loader_ids@.to_set()) && comp.len() > 0 {
                assert(comp.to_set().contains(comp[0]));
                assert(s0.loader_set@ == s1.loader_set@);
            }
        }
        self.complent(&mut compensation, choice_item);
        proof {
            assert(self.grown_except(s0, Seq::empty()));
            assert forall|id: u64| #[trigger]
                self.loader_values(id) == if loader_ids@.contains(id) {
                    s0.loader_values(id).remove(choice_item)
                } else {
                    s0.loader_values(id)
                } by {
                s0.lemma_loader_values(id);
                assert(comp.contains(id) == (s0.loader_set@.contains(id) && !loader_ids@.contains(
                    id,
                ))) by {
                    assert(comp.to_set().contains(id) == comp.contains(id));
                    assert(s0.loaders().contains(id) == s0.loader_set@.contains(id));
                    assert(loader_ids@.to_set().contains(id) == loader_ids@.contains(id));
                }
                if s0.loaders().contains(id) {
                    assert(s0.loader_values(id) == s0.vals().union(s0.below_loader_values(id)));
                    if !s0.is_leaf() {
                        s0.left_node().lemma_loader_values(id);
                        s0.right_node().lemma_loader_values(id);
                    }
                    assert(s0.below_loader_values(id).subset_of(s0.below_values()));
                    assert(s1.loader_values(id) =~= s0.loader_values(id).remove(choice_item));
                } else {
                    assert(s0.loader_values(id) =~= s0.loader_values(id).remove(choice_item));
                }
            }
        }
        choice_item
    }

    /// The number of values of the node that `path`, from its entry `i` on, leads to.
    pub fn len_at(&self, path: &Vec<bool>, i: usize) -> (r: Option<usize>)
        requires
            self.wf(),
            i <= path@.len(),
        ensures
            match node_at(*self, path@.subrange(i as int, path@.len() as int)) {
                Some(m) => r is Some && r->0 == m.value_seq().len(),
                None => r is None,
            },
        decreases path@.len() - i,
    {
        let ghost rest = path@.subrange(i as int, path@.len() as int);
        if i == path.len() {
            return Some(self.values.len());
        }
        proof {
            assert(rest.drop_first() =~= path@.subrange(i + 1, path@.len() as int));
        }
        if path[i] {
            match &self.right {
                Some(r) => r.len_at(path, i + 1),
                None => None,
            }
        } else {
            match &self.left {
                Some(l) => l.len_at(path, i + 1),
                None => None,
            }
        }
    }

    /// Takes a value, drawn at random, of the node that `path`, from its entry `i` on, leads
    /// to, for the loaders of `loader_ids`: see `random_choose`.
    pub fn choose_at(
        &mut self,
        path: &Vec<bool>,
        i: usize,
        loader_ids: &Vec<u64>,
        rng: &mut ThreadRng,
    ) -> (r: u32)
        requires
            old(self).wf(),
            old(self).single_leaves(),
            i <= path@.len(),
            node_at(*old(self), path@.subrange(i as int, path@.len() as int)) is Some,
            node_at(*old(self), path@.subrange(i as int, path@.len() as int))->0.value_seq().len()
                > 0,
        ensures
            final(self).wf(),
            final(self).single_leaves(),
            final(self).loaders() == old(self).loaders(),
            final(self).height() == old(self).height(),
            final(self).same_skeleton(*old(self)),
            final(self).all_values().subset_of(old(self).all_values()),
            node_at(*old(self), path@.subrange(i as int, path@.len() as int))->0.vals().contains(r),
            forall|id: u64| #[trigger]
                final(self).loader_values(id) == if loader_ids@.contains(id) && node_at(
                    *old(self),
                    path@.subrange(i as int, path@.len() as int),
                )->0.loaders().contains(id) {
                    old(self).loader_values(id).remove(r)
                } else {
                    old(self).loader_values(id)
                },
            final(self).grown_except(*old(self), path@.subrange(i as int, path@.len() as int)),
        decreases path@.len() - i,
    {
        let ghost s0 = *self;
        let ghost rest = path@.subrange(i as int, path@.len() as int);
        if i == path.len() {
            proof {
                assert(rest =~= Seq::<bool>::empty());
            }
            return self.random_choose(loader_ids, rng);
        }
        proof {
            assert(rest.drop_first() =~= path@.subrange(i + 1, path@.len() as int));
            s0.lemma_loader_values(0);
        }
        if path[i] {
            let mut r = self.right.take().unwrap();
            let ghost r0 = *r;
            let x = (&mut *r).choose_at(path, i + 1, loader_ids, rng);
            self.right = Some(r);
            proof {
                s0.left_node().lemma_grown_refl();
                assert(rest[0]);
                assert(self.grown_except(s0, rest));
                let m = node_at(r0, rest.drop_first())->0;
                r0.lemma_node_at(rest.drop_first());
                s0.left_node().lemma_skeleton_refl();
                assert(self.wf());
                assert(self.all_values().subset_of(s0.all_values()));
                assert forall|id: u64| #[trigger]
                    self.loader_values(id) == if loader_ids@.contains(id) && m.loaders().contains(
                        id,
                    ) {
                        s0.loader_values(id).remove(x)
                    } else {
                        s0.loader_values(id)
                    } by {
                    s0.left_node().lemma_loader_values(id);
                    r0.lemma_loader_values(id);
                    assert(m.vals().subset_of(m.all_values()));
                    assert(!s0.vals().contains(x));
                    if s0.loaders().contains(id) {
                        assert(self.loader_values(id) == self.vals().union(
                            self.left_node().loader_values(id),
                        ).union(self.right_node().loader_values(id)));
                        assert(s0.loader_values(id) == s0.vals().union(
                            s0.left_node().loader_values(id),
                        ).union(s0.right_node().loader_values(id)));
                        if loader_ids@.contains(id) && m.loaders().contains(id) {
                            assert(r0.loaders().contains(id));
                            assert(!s0.left_node().loaders().contains(id));
                        }
                        assert(self.loader_values(id) =~= if loader_ids@.contains(id)
                            && m.loaders().contains(id) {
                            s0.loader_values(id).remove(x)
                        } else {
                            s0.loader_values(id)
                        });
                    }
                }
            }
            x
        } else {
            let mut l = self.left.take().unwrap();
            let ghost l0 = *l;
            let x = (&mut *l).choose_at(path, i + 1, loader_ids, rng);
            self.left = Some(l);
            proof {
                s0.right_node().lemma_grown_refl();
                assert(!rest[0]);
                assert(self.grown_except(s0, rest));
                let m = node_at(l0, rest.drop_first())->0;
                l0.lemma_node_at(rest.drop_first());
                s0.right_node().lemma_skeleton_refl();
                assert(self.wf());
                assert(self.all_values().subset_of(s0.all_values()));
                assert forall|id: u64| #[trigger]
                    self.loader_values(id) == if loader_ids@.contains(id) && m.loaders().contains(
                        id,
                    ) {
                        s0.loader_values(id).remove(x)
                    } else {
                        s0.loader_values(id)
                    } by {
                    s0.right_node().lemma_loader_values(id);
                    l0.lemma_loader_values(id);
                    assert(m.vals().subset_of(m.all_values()));
                    assert(!s0.vals().contains(x));
                    if s0.loaders().contains(id) {
                        assert(self.loader_values(id) == self.vals().union(
                            self.left_node().loader_values(id),
                        ).union(self.right_node().loader_values(id)));
                        assert(s0.loader_values(id) == s0.vals().union(
                            s0.left_node().loader_values(id),
                        ).union(s0.right_node().loader_values(id)));
                        if loader_ids@.contains(id) && m.loaders().contains(id) {
                            assert(l0.loaders().contains(id));
                            assert(!s0.right_node().loaders().contains(id));
                        }
                        assert(self.loader_values(id) =~= if loader_ids@.contains(id)
                            && m.loaders().contains(id) {
                            s0.loader_values(id).remove(x)
                        } else {
                            s0.loader_values(id)
                        });
                    }
                }
            }
            x
        }
    }

    /// Whether the node holds exactly the loaders of `loaders`.
    fn same_loaders(&self, loaders: &Vec<(u64, usize)>) -> (r: bool)
        ensures
            r == (self.loaders() == task_ids(loaders@).to_set()),
    {
        let mut i: usize = 0;
        while i < loaders.len()
            invariant
                i <= loaders.len(),
                forall|k: int| 0 <= k < i ==> self.loader_set@.contains(#[trigger] loaders@[k].0),
            decreases loaders.len() - i,
        {
            if !has_id(&self.loader_set, loaders[i].0) {
                proof {
                    assert(task_ids(loaders@)[i as int] == loaders@[i as int].0);
                    assert(task_ids(loaders@).to_set().contains(loaders@[i as int].0));
                    assert(!self.loaders().contains(loaders@[i as int].0));
                }
                return false;
            }
            i = i + 1;
        }
        let mut j: usize = 0;
        while j < self.loader_set.len()
            invariant
                j <= self.loader_set.len(),
                forall|k: int| 0 <= k < loaders@.len() ==> self.loader_set@.contains(#[trigger] loaders@[k].0),
                forall|m: int|
                    0 <= m < j ==> task_ids(loaders@).contains(#[trigger] self.loader_set@[m]),
            decreases self.loader_set.len() - j,
        {
            let id = self.loader_set[j];
            let mut found = false;
            let mut k: usize = 0;
            while k < loaders.len()
                invariant
                    k <= loaders.len(),
                    found ==> task_ids(loaders@).contains(id),
                    !found ==> forall|q: int| 0 <= q < k ==> loaders@[q].0 != id,
                decreases loaders.len() - k,
            {
                if loaders[k].0 == id {
                    found = true;
                    proof {
                        assert(task_ids(loaders@)[k as int] == id);
                    }
                }
                k = k + 1;
            }
            if !found {
                proof {
                    assert(self.loaders().contains(id));
                    assert(!task_ids(loaders@).to_set().contains(id));
                }
                return false;
            }
            j = j + 1;
        }
        proof {
            assert forall|x: u64| self.loaders().contains(x) == task_ids(loaders@).to_set().contains(
                x,
            ) by {
                if self.loaders().contains(x) {
                    let m = choose|m: int| 0 <= m < self.loader_set@.len() && self.loader_set@[m] == x;
                    assert(task_ids(loaders@).contains(self.loader_set@[m]));
                }
                if task_ids(loaders@).to_set().contains(x) {
                    let q = choose|q: int| 0 <= q < task_ids(loaders@).len() && task_ids(loaders@)[q] == x;
                    assert(self.loader_set@.contains(loaders@[q].0));
                }
            }
            assert(self.loaders() =~= task_ids(loaders@).to_set());
        }
        true
    }

    /// Decides which nodes the loaders read in this round. From `node`, at `path`, with the
    /// nodes above it whose values the loaders share in `node_set`: where the node does not
    /// hold exactly the loaders, they go on to the right child. Else, in order, each loader
    /// stays with the shared nodes with the chance that they hold its values, and these
    /// loaders read one of the shared nodes, drawn by their number of values; when none
    /// stays, the first goes to the right child; the others go on to the right child with
    /// the shared values counted off.
    ///
    /// What the call does, for each outcome of its draws, is what `decided` says. Besides:
    /// the decisions are only added to, each new one for loaders of `loaders`; the loaders
    /// that are left are the last ones of `loaders`, each counted down or not; and at a node
    /// with children that holds exactly the loaders, at least one loader is decided on.
    #[verifier::spinoff_prover]
    #[verifier::rlimit(100)]
    pub fn decide(
        node: &Node,
        path: Vec<bool>,
        loaders: &mut Vec<(u64, usize)>,
        decisions: &mut Vec<Decision>,
        node_set: Vec<(Vec<bool>, usize)>,
        rng: &mut ThreadRng,
        Ghost(root): Ghost<Node>,
    )
        requires
            root.wf(),
            node_at(root, path@) == Some(*node),
            forall|k: int|
                0 <= k < node_set@.len() ==> node_at(root, (#[trigger] node_set@[k]).0@) is Some,
            forall|k: int|
                0 <= k < old(decisions)@.len() ==> node_at(
                    root,
                    (#[trigger] old(decisions)@[k]).path(),
                ) is Some,
        ensures
            forall|k: int|
                0 <= k < final(decisions)@.len() ==> node_at(
                    root,
                    (#[trigger] final(decisions)@[k]).path(),
                ) is Some,
            final(decisions)@.len() >= old(decisions)@.len(),
            final(decisions)@.subrange(0, old(decisions)@.len() as int) == old(decisions)@,
            forall|k: int, u: u64|
                old(decisions)@.len() <= k < final(decisions)@.len()
                    && #[trigger] final(decisions)@[k].loaders().contains(u)
                    ==> task_ids(old(loaders)@).contains(u),
            shrunk(old(loaders)@, final(loaders)@),
            node.loaders() == task_ids(old(loaders)@).to_set() && old(loaders)@.len() > 0
                && !node.is_leaf() ==> final(loaders)@.len() < old(loaders)@.len(),
            node.loaders() == task_ids(old(loaders)@).to_set() && old(loaders)@.len() > 0
                && old(decisions)@.len() == 0 && 0 < ns_sum(node_set@) + node.value_seq().len()
                <= usize::MAX && old(loaders)@[0].1 <= ns_sum(node_set@) + node.value_seq().len()
                ==> final(decisions)@.len() > 0 && ((final(decisions)@[0].path() == path@
                && node.value_seq().len() > 0) || exists|k: int|
                0 <= k < node_set@.len() && node_set@[k].1 > 0 && final(decisions)@[0].path()
                    == node_set@[k].0@),
            node.is_leaf() && node.loaders() == task_ids(old(loaders)@).to_set() && old(
                loaders,
            )@.len() == 1 && 0 < ns_sum(node_set@) + node.value_seq().len() <= usize::MAX ==> ((
            final(loaders)@.len() == 0 && ((node.value_seq().len() > 0 && decision_added(
                old(decisions)@,
                final(decisions)@,
                path@,
                seq![old(loaders)@[0].0],
            )) || exists|k: int|
                0 <= k < node_set@.len() && node_set@[k].1 > 0 && #[trigger] decision_added(
                    old(decisions)@,
                    final(decisions)@,
                    node_set@[k].0@,
                    seq![old(loaders)@[0].0],
                ))) || (old(loaders)@[0].1 > ns_sum(node_set@) + node.value_seq().len()
                && final(loaders)@ == seq![
                (
                    old(loaders)@[0].0,
                    (old(loaders)@[0].1 - ns_sum(node_set@) - node.value_seq().len()) as usize,
                ),
            ] && final(decisions)@ == old(decisions)@)),
            decided(
                *node,
                path@,
                old(loaders)@,
                old(decisions)@,
                ns_view(node_set@),
                final(loaders)@,
                final(decisions)@,
            ),
        decreases node.height(),
    {
        proof {
            lemma_node_at_wf(root, path@);
            lemma_shrunk_refl(loaders@);
            assert(decisions@.subrange(0, decisions@.len() as int) =~= decisions@);
        }
        let ghost l0 = loaders@;
        let ghost d0 = decisions@;
        let ghost ns0 = node_set@;
        let mut node_set = node_set;
        node_set.push((extend_path(&path, None), node.len()));
        let ghost ns1 = node_set@;
        proof {
            assert(ns_weights(ns1).drop_last() =~= ns_weights(ns0));
            assert(ns_sum(ns1) == ns_sum(ns0) + node.value_seq().len());
            assert(ns_view(ns1) =~= ns_view(ns0).push((path@, node.value_seq().len() as usize)));
            assert(ns_view(ns1).map_values(|e: (Seq<bool>, usize)| e.1) =~= ns_weights(ns1));
        }
        let mut common: u128 = 0;
        let mut c: usize = 0;
        while c < node_set.len()
            invariant
                c <= node_set.len(),
                node_set@ == ns1,
                common == if ns_sum(node_set@.subrange(0, c as int)) <= u128::MAX {
                    ns_sum(node_set@.subrange(0, c as int))
                } else {
                    u128::MAX as int
                },
            decreases node_set.len() - c,
        {
            let l = node_set[c].1 as u128;
            proof {
                let s0 = node_set@.subrange(0, c as int);
                let s1 = node_set@.subrange(0, c + 1);
                assert(ns_weights(s1).drop_last() =~= ns_weights(s0));
                assert(ns_weights(s1).last() == node_set@[c as int].1);
            }
            common = if common <= u128::MAX - l {
                common + l
            } else {
                u128::MAX
            };
            c = c + 1;
        }
        proof {
            assert(node_set@.subrange(0, node_set@.len() as int) =~= node_set@);
        }
        // push down and add self in node set
        if !node.same_loaders(loaders) {
            if let Some(right) = &node.right {
                proof {
                    lemma_node_at_push(root, path@, true);
                    assert forall|k: int| 0 <= k < node_set@.len() implies node_at(
                        root,
                        (#[trigger] node_set@[k]).0@,
                    ) is Some by {
                        if k < node_set@.len() - 1 {
                            assert(node_set@[k] == ns0[k]);
                        }
                    }
                }
                let p = extend_path(&path, Some(true));
                Node::decide(right, p, loaders, decisions, node_set, rng, Ghost(root));
                proof {
                    assert(node.has_right() && node.right_node() == **right);
                    assert(decided(*node, path@, l0, d0, ns_view(ns0), loaders@, decisions@)) by {
                        reveal(decided);
                    }
                }
            } else {
                proof {
                    assert(decided(*node, path@, l0, d0, ns_view(ns0), loaders@, decisions@)) by {
                        reveal(decided);
                    }
                }
            }
            return;
        }
        let ghost l0_at = loaders@;
        let (i, decided_loader) = choose_stayers(loaders, common, rng);
        proof {
            assert(l0_at == l0);
        }
        let ghost l1 = loaders@;
        let ghost i1 = i;
        let ghost mut dl_final: Seq<u64> = Seq::empty();
        let ghost mut dd_first: Decision = arbitrary();
        proof {
            assert(shrunk(l0, l1)) by {
                assert forall|j: int| 0 <= j < l1.len() implies (#[trigger] l1[j]).0 == l0[l0.len()
                    - l1.len() + j].0 && l1[j].1 <= l0[l0.len() - l1.len() + j].1 by {
                    assert(l1[j] == l0[i + j]);
                }
            }
        }
        if decided_loader.len() == 0 {
            // The first task choose diff
            if loaders.len() > 0 && node.right.is_some() {
                proof {
                    lemma_node_at_push(root, path@, true);
                }
                let first = loaders[0].0;
                let d = Decision::new(extend_path(&path, Some(true)), vec![first]);
                let ghost dg = d;
                proof {
                    dd_first = d;
                }
                insert_decision(decisions, d);
                loaders.remove(0);
                proof {
                    assert(l1[0] == l0[i as int]);
                    assert(task_ids(l0)[i as int] == first);
                    assert(decisions@.subrange(0, d0.len() as int) =~= d0);
                    assert forall|k: int, u: u64|
                        d0.len() <= k < decisions@.len() && #[trigger] decisions@[k].loaders().contains(
                            u,
                        ) implies task_ids(l0).contains(u) by {
                        assert(decisions@[k] == dg);
                        assert(dg.loaders() == seq![first]);
                    }
                    assert(shrunk(l0, loaders@)) by {
                        assert forall|j: int| 0 <= j < loaders@.len() implies (
                        #[trigger] loaders@[j]).0 == l0[l0.len() - loaders@.len() + j].0
                            && loaders@[j].1 <= l0[l0.len() - loaders@.len() + j].1 by {
                            assert(loaders@[j] == l1[j + 1]);
                        }
                    }
                }
            }
        } else {
            proof {
                assert forall|k: int| 0 <= k < node_set@.len() implies node_at(
                    root,
                    (#[trigger] node_set@[k]).0@,
                ) is Some by {
                    if k < node_set@.len() - 1 {
                        assert(node_set@[k] == ns0[k]);
                    }
                }
            }
            let ghost dl = decided_loader@;
            proof {
                dl_final = dl;
            }
            Node::choose_intersection(decisions, decided_loader, &node_set, rng, Ghost(root));
            proof {
                if decisions@ != d0 {
                    let k = choose|k: int|
                        0 <= k < node_set@.len() && node_set@[k].1 > 0 && #[trigger] decision_added(
                            d0,
                            decisions@,
                            node_set@[k].0@,
                            dl,
                        );
                    assert(decisions@.last().loaders() == dl);
                    assert(decisions@.len() == d0.len() + 1);
                }
                assert(decisions@.subrange(0, d0.len() as int) =~= d0);
                if d0.len() == 0 && 0 < ns_sum(ns1) <= usize::MAX {
                    let k = choose|k: int|
                        0 <= k < node_set@.len() && node_set@[k].1 > 0 && #[trigger] decision_added(
                            d0,
                            decisions@,
                            node_set@[k].0@,
                            dl,
                        );
                    assert(decisions@[0] == decisions@.last());
                    if k == ns0.len() {
                        assert(node_set@[k].0@ == path@);
                    } else {
                        assert(node_set@[k] == ns0[k]);
                    }
                }
            }
        }
        let ghost l2 = loaders@;
        let ghost d2 = decisions@;
        let ghost sumv = weight_sum(ns_view(ns1).map_values(|e: (Seq<bool>, usize)| e.1));
        assert(decided_here(*node, path@, l0, d0, ns_view(ns1), sumv, i1 as int, d2)) by {
            assert(sumv == ns_sum(ns1));
            if i1 == 0 {
                if l1.len() > 0 && node.has_right() {
                    assert(dd_first.path() == path@.push(true));
                    assert(dd_first.loaders() == seq![l0[0].0]);
                }
            } else if 0 < sumv <= usize::MAX {
                let k = choose|k: int|
                    0 <= k < node_set@.len() && node_set@[k].1 > 0 && #[trigger] decision_added(
                        d0,
                        d2,
                        node_set@[k].0@,
                        dl_final,
                    );
                assert(ns_view(ns1)[k] == (node_set@[k].0@, node_set@[k].1));
                assert(dl_final == ids_once(task_ids(l0.subrange(0, i1 as int))));
                assert(decision_added(
                    d0,
                    d2,
                    ns_view(ns1)[k].0,
                    ids_once(task_ids(l0.subrange(0, i1 as int))),
                ));
            } else {
                assert(d2 == d0);
            }
        }
        proof {
            if node.loaders() == task_ids(l0).to_set() && l0.len() > 0 && d0.len() == 0 && 0
                < ns_sum(ns0) + node.value_seq().len() <= usize::MAX && l0[0].1 <= ns_sum(ns0)
                + node.value_seq().len() {
                assert(decided_loader@.len() > 0);
                assert(d2.len() > 0 && ((d2[0].path() == path@ && node.value_seq().len() > 0)
                    || exists|k: int|
                    0 <= k < ns0.len() && ns0[k].1 > 0 && d2[0].path() == ns0[k].0@));
            }
            if node.loaders() == task_ids(l0).to_set() && l0.len() > 0 && !node.is_leaf() {
                assert(node.right is Some);
                assert(l1.len() == l0.len() - i);
                assert(l2.len() < l0.len());
            }
            if node.is_leaf() && node.loaders() == task_ids(l0).to_set() && l0.len() == 1 && 0
                < ns_sum(ns0) + node.value_seq().len() <= usize::MAX && i1 == 1 {
                assert(l2.len() == 0);
                assert(dl_final =~= seq![l0[0].0]);
                let k = choose|k: int|
                    0 <= k < ns1.len() && ns1[k].1 > 0 && #[trigger] decision_added(
                        d0,
                        d2,
                        ns1[k].0@,
                        dl_final,
                    );
                if k == ns0.len() {
                    assert(ns1[k].0@ == path@);
                    assert(ns1[k].1 == node.value_seq().len());
                } else {
                    assert(ns1[k] == ns0[k]);
                }
            }
        }
        let ghost mut l3_final: Seq<(u64, usize)> = Seq::empty();
        if loaders.len() > 0 {
            let mut c: usize = 0;
            while c < loaders.len()
                invariant
                    c <= loaders.len(),
                    loaders@.len() == l2.len(),
                    decisions@ == d2,
                    forall|j: int|
                        0 <= j < loaders@.len() ==> (#[trigger] loaders@[j]).0 == l2[j].0
                            && loaders@[j].1 <= l2[j].1,
                    forall|j: int|
                        0 <= j < c ==> (#[trigger] loaders@[j]).1 == (if l2[j].1 >= common {
                            l2[j].1 - common
                        } else {
                            0
                        }),
                    forall|j: int| c <= j < loaders@.len() ==> #[trigger] loaders@[j] == l2[j],
                decreases loaders.len() - c,
            {
                let (id, len) = loaders[c];
                let rest: usize = if (len as u128) >= common {
                    (len as u128 - common) as usize
                } else {
                    0
                };
                loaders.set(c, (id, rest));
                c = c + 1;
            }
            let ghost l3 = loaders@;
            proof {
                l3_final = l3;
                assert(shrunk(l2, l3));
                lemma_shrunk_trans(l0, l2, l3);
                if node.is_leaf() && node.loaders() == task_ids(l0).to_set() && l0.len() == 1 && 0
                    < ns_sum(ns0) + node.value_seq().len() <= usize::MAX && i1 == 0 {
                    assert(node.right is None);
                    assert(l2 == l0);
                    assert(d2 == d0);
                    assert(l0[0].1 > common);
                    assert(l3 =~= seq![
                        (l0[0].0, (l0[0].1 - ns_sum(ns0) - node.value_seq().len()) as usize),
                    ]);
                }
            }
            if let Some(right) = &node.right {
                proof {
                    lemma_node_at_push(root, path@, true);
                }
                let p = extend_path(&path, Some(true));
                let ghost no_nodes: Seq<(Vec<bool>, usize)> = Seq::empty();
                Node::decide(right, p, loaders, decisions, Vec::new(), rng, Ghost(root));
                proof {
                    assert(ns_view(Seq::<(Vec<bool>, usize)>::empty()) =~= Seq::<(Seq<bool>, usize)>::empty());
                    lemma_shrunk_trans(l0, l3, loaders@);
                    lemma_shrunk_ids(l0, l3);
                    if d2.len() > 0 {
                        assert(decisions@[0] == decisions@.subrange(0, d2.len() as int)[0]);
                    }
                    assert(decisions@.subrange(0, d0.len() as int) =~= decisions@.subrange(
                        0,
                        d2.len() as int,
                    ).subrange(0, d0.len() as int));
                    assert forall|k: int, u: u64|
                        d0.len() <= k < decisions@.len() && #[trigger] decisions@[k].loaders().contains(
                            u,
                        ) implies task_ids(l0).contains(u) by {
                        if k < d2.len() {
                            assert(decisions@[k] == decisions@.subrange(0, d2.len() as int)[k]);
                        } else {
                            assert(task_ids(l3).contains(u));
                        }
                    }
                }
                proof {
                    assert(node.has_right() && node.right_node() == **right);
                }
            }
        }
        proof {
            assert(decided(*node, path@, l0, d0, ns_view(ns0), loaders@, decisions@)) by {
                reveal(decided);
                assert(node.loaders() == task_ids(l0).to_set());
                assert(sumv == ns_sum(ns1));
                assert(may_stay(l0, common as int, i1 as int));
                assert(l1 == l0.subrange(i1 as int, l0.len() as int));
                if l2.len() > 0 {
                    assert(counted_down(l2, common as int) =~= l3_final);
                }
            }
        }
    }

    /// The loaders of `loader_set` read one of the shared nodes of `node_set`, drawn by
    /// their numbers of values: the decision for a node of the set that holds values is
    /// added, unless a decision already names that node. Nothing is decided when the nodes
    /// hold no value, or more than `usize::MAX` together.
    fn choose_intersection(
        decisions: &mut Vec<Decision>,
        loader_set: Vec<u64>,
        node_set: &Vec<(Vec<bool>, usize)>,
        rng: &mut ThreadRng,
        Ghost(root): Ghost<Node>,
    )
        requires
            forall|k: int|
                0 <= k < node_set@.len() ==> node_at(root, (#[trigger] node_set@[k]).0@) is Some,
            forall|k: int|
                0 <= k < old(decisions)@.len() ==> node_at(
                    root,
                    (#[trigger] old(decisions)@[k]).path(),
                ) is Some,
        ensures
            forall|k: int|
                0 <= k < final(decisions)@.len() ==> node_at(
                    root,
                    (#[trigger] final(decisions)@[k]).path(),
                ) is Some,
            0 < ns_sum(node_set@) <= usize::MAX ==> exists|k: int|
                0 <= k < node_set@.len() && node_set@[k].1 > 0 && #[trigger] decision_added(
                    old(decisions)@,
                    final(decisions)@,
                    node_set@[k].0@,
                    loader_set@,
                ),
            !(0 < ns_sum(node_set@) <= usize::MAX) ==> final(decisions)@ == old(decisions)@,
    {
        let mut weights: Vec<usize> = Vec::new();
        let mut c: usize = 0;
        while c < node_set.len()
            invariant
                c <= node_set.len(),
                weights@ == ns_weights(node_set@.subrange(0, c as int)),
            decreases node_set.len() - c,
        {
            weights.push(node_set[c].1);
            c = c + 1;
            proof {
                assert(weights@ =~= ns_weights(node_set@.subrange(0, c as int)));
            }
        }
        proof {
            assert(node_set@.subrange(0, node_set@.len() as int) =~= node_set@);
        }
        match total_weight(&weights) {
            Some(total) => {
                if total == 0 {
                    return;
                }
                let k = weighted_index(rng, &weights);
                let ghost ids = loader_set@;
                let d = Decision::new(extend_path(&node_set[k].0, None), loader_set);
                let ghost dg = d;
                insert_decision(decisions, d);
                proof {
                    assert(ns_weights(node_set@)[k as int] == node_set@[k as int].1);
                    if !(exists|j: int|
                        0 <= j < old(decisions)@.len() && (#[trigger] old(decisions)@[j]).path()
                            == dg.path()) {
                        assert(decisions@ == old(decisions)@.push(dg));
                        assert(decisions@.subrange(0, old(decisions)@.len() as int) =~= old(
                            decisions,
                        )@);
                    }
                    assert(decision_added(old(decisions)@, decisions@, node_set@[k as int].0@, ids));
                }
            },
            None => {},
        }
    }

    /// The sum of the sizes of `node_set`, at most `u128::MAX`.
    fn common_len(node_set: &Vec<(Vec<bool>, usize)>) -> (r: u128)
        ensures
            r == if ns_sum(node_set@) <= u128::MAX {
                ns_sum(node_set@)
            } else {
                u128::MAX as int
            },
    {
        let mut common: u128 = 0;
        let mut c: usize = 0;
        while c < node_set.len()
            invariant
                c <= node_set.len(),
                common == if ns_sum(node_set@.subrange(0, c as int)) <= u128::MAX {
                    ns_sum(node_set@.subrange(0, c as int))
                } else {
                    u128::MAX as int
                },
                ns_sum(node_set@.subrange(0, c as int)) >= 0,
            decreases node_set.len() - c,
        {
            let l = node_set[c].1 as u128;
            proof {
                let s0 = node_set@.subrange(0, c as int);
                let s1 = node_set@.subrange(0, c + 1);
                assert(ns_weights(s1).drop_last() =~= ns_weights(s0));
                assert(ns_weights(s1).last() == node_set@[c as int].1);
            }
            common = if common <= u128::MAX - l {
                common + l
            } else {
                u128::MAX
            };
            c = c + 1;
        }
        proof {
            assert(node_set@.subrange(0, node_set@.len() as int) =~= node_set@);
        }
        common
    }

    /// Decides which nodes the tasks read in this round, in a tree whose left children are
    /// leaves. From `node`, at `path`, with the nodes above it whose values the tasks share in
    /// `node_set`: where the node does not hold exactly the tasks, they go on to the right
    /// child. Else, in order, each task stays with the shared nodes with the chance that
    /// they hold its values, and reads one of them, drawn by their numbers of values; the
    /// others have the shared values counted off, the first of them reads the left child
    /// when no task stayed, and the rest go on to the right child.
    ///
    /// The tasks are the last ones of the node's spine, each with the number of values it
    /// has left in the shared nodes and below, in increasing order; then each task gets
    /// exactly one decision, for a node that holds it and has values, and no other task
    /// gains or loses one.
    #[verifier::spinoff_prover]
    #[verifier::rlimit(60)]
    pub(crate) fn decide_tasks(
        node: &Node,
        path: Vec<bool>,
        tasks: &mut Vec<(u64, usize)>,
        decisions: &mut Vec<(Vec<bool>, Vec<u64>)>,
        node_set: Vec<(Vec<bool>, usize)>,
        rng: &mut ThreadRng,
        Ghost(root): Ghost<Node>,
    )
        requires
            root.wf(),
            root.single_leaves(),
            root.left_leaves(),
            node_at(root, path@) == Some(*node),
            spine_path(path@),
            forall|k: int|
                0 <= k < node_set@.len() ==> {
                    &&& node_at(root, (#[trigger] node_set@[k]).0@) is Some
                    &&& spine_path(node_set@[k].0@)
                    &&& node_at(root, node_set@[k].0@)->0.value_seq().len() == node_set@[k].1
                    &&& node.loaders().subset_of(node_at(root, node_set@[k].0@)->0.loaders())
                },
            paths_in(root, old(decisions)@),
            decisions_ok(root, old(decisions)@),
            forall|k: int|
                0 <= k < old(decisions)@.len() ==> spine_or_left(
                    (#[trigger] old(decisions)@[k]).0@,
                    path@.len() as int,
                ),
            is_suffix(task_ids(old(tasks)@), node.spine()),
            forall|k: int|
                0 <= k < old(tasks)@.len() ==> (#[trigger] old(tasks)@[k]).1 == ns_sum(node_set@)
                    + node.loader_values(old(tasks)@[k].0).len(),
            forall|k: int| 0 <= k < old(tasks)@.len() ==> (#[trigger] old(tasks)@[k]).1 > 0,
            forall|a: int, b: int|
                #![trigger old(tasks)@[a], old(tasks)@[b]]
                0 <= a < b < old(tasks)@.len() ==> old(tasks)@[a].1 <= old(tasks)@[b].1,
            forall|t: u64| #[trigger]
                task_ids(old(tasks)@).contains(t) ==> unserved(old(decisions)@, t),
        ensures
            paths_in(root, final(decisions)@),
            decisions_ok(root, final(decisions)@),
            forall|t: u64| #[trigger]
                task_ids(old(tasks)@).contains(t) ==> served_once(final(decisions)@, t),
            forall|t: u64|
                !task_ids(old(tasks)@).contains(t) && #[trigger] unserved(old(decisions)@, t)
                    ==> unserved(final(decisions)@, t),
            forall|t: u64|
                !task_ids(old(tasks)@).contains(t) && #[trigger] served_once(old(decisions)@, t)
                    ==> served_once(final(decisions)@, t),
        decreases node.height(),
    {
        let ghost t0 = tasks@;
        let ghost d0 = decisions@;
        let ghost ns0 = node_set@;
        let ghost depth = path@.len() as int;
        proof {
            lemma_node_at_wf(root, path@);
            root.lemma_node_at(path@);
            node.lemma_spine();
            node.lemma_loader_values(0);
        }
        let mut node_set = node_set;
        node_set.push((extend_path(&path, None), node.len()));
        let ghost ns1 = node_set@;
        proof {
            assert(ns_weights(ns1).drop_last() =~= ns_weights(ns0));
            assert(ns_sum(ns1) == ns_sum(ns0) + node.value_seq().len());
            assert forall|k: int|
                0 <= k < ns1.len() implies {
                    &&& node_at(root, (#[trigger] ns1[k]).0@) is Some
                    &&& spine_path(ns1[k].0@)
                    &&& node_at(root, ns1[k].0@)->0.value_seq().len() == ns1[k].1
                    &&& node.loaders().subset_of(node_at(root, ns1[k].0@)->0.loaders())
                } by {
                if k < ns0.len() {
                    assert(ns1[k] == ns0[k]);
                }
            }
        }
        if !node.same_loaders(tasks) {
            proof {
                if t0.len() == node.spine().len() {
                    assert(task_ids(t0) =~= node.spine());
                }
            }
            if let Some(right) = &node.right {
                proof {
                    lemma_node_at_push(root, path@, true);
                    let r = node.right_node();
                    lemma_suffix_rest(task_ids(t0), node.spine());
                    assert(node.spine().drop_first() =~= r.spine());
                    assert forall|k: int| 0 <= k < t0.len() implies (#[trigger] t0[k]).1 == ns_sum(ns1)
                        + r.loader_values(t0[k].0).len() by {
                        assert(task_ids(t0)[k] == t0[k].0);
                        assert(r.spine().contains(t0[k].0)) by {
                            let q = r.spine().len() - task_ids(t0).len() + k;
                            assert(r.spine()[q] == t0[k].0);
                        }
                        r.lemma_spine();
                        assert(r.spine().to_set().contains(t0[k].0));
                        node.lemma_loader_count(t0[k].0);
                    }
                    assert forall|k: int|
                        0 <= k < ns1.len() implies r.loaders().subset_of(
                            node_at(root, (#[trigger] ns1[k]).0@)->0.loaders(),
                        ) by {
                        assert(node.loaders().subset_of(node_at(root, ns1[k].0@)->0.loaders()));
                    }
                    assert(spine_path(path@.push(true)));
                    assert forall|k: int|
                        0 <= k < d0.len() implies spine_or_left(
                            (#[trigger] d0[k]).0@,
                            depth + 1,
                        ) by {
                        assert(spine_or_left(d0[k].0@, depth));
                    }
                }
                let p = extend_path(&path, Some(true));
                Node::decide_tasks(right, p, tasks, decisions, node_set, rng, Ghost(root));
            } else {
                proof {
                    assert(task_ids(t0).len() == 0);
                    assert forall|t: u64| #[trigger] task_ids(t0).contains(t) implies served_once(
                        decisions@,
                        t,
                    ) by {
                        let q = choose|q: int| 0 <= q < task_ids(t0).len() && task_ids(t0)[q] == t;
                    }
                }
            }
            return;
        }
        // The tasks are all the loaders of the node, in the order of its spine.
        proof {
            lemma_suffix_all(task_ids(t0), node.spine());
            assert(t0.len() > 0);
            assert(t0[0].1 == ns_sum(ns0) + node.loader_values(t0[0].0).len());
            assert(node.spine().to_set().contains(t0[0].0)) by {
                assert(task_ids(t0)[0] == t0[0].0);
            }
            node.lemma_loader_count(t0[0].0);
        }
        let common = Node::common_len(&node_set);
        let mut last_common: u128 = common;
        let mut tasks_cloned: Vec<(u64, usize)> = Vec::new();
        let mut c: usize = 0;
        while c < tasks.len()
            invariant
                c <= tasks.len(),
                tasks_cloned@ == tasks@.subrange(0, c as int),
            decreases tasks.len() - c,
        {
            tasks_cloned.push(tasks[c]);
            c = c + 1;
            proof {
                assert(tasks_cloned@ =~= tasks@.subrange(0, c as int));
            }
        }
        proof {
            assert(tasks_cloned@ =~= tasks@);
        }
        let ghost ids = task_ids(t0);
        proof {
            assert forall|k: int| 0 <= k < ids.len() implies unserved(decisions@, #[trigger] ids[k]) by {
                assert(ids.contains(ids[k]));
            }
        }
        let mut first_decision = false;
        let mut i: usize = 0;
        while i < tasks_cloned.len()
            invariant
                i <= tasks_cloned.len(),
                tasks_cloned@ == t0,
                tasks@ == t0.subrange(i as int, t0.len() as int),
                node_set@ == ns1,
                task_ids(t0) == node.spine(),
                node.spine().no_duplicates(),
                node.spine().to_set() == node.loaders(),
                common == ns_sum(ns1),
                ns_sum(ns1) <= t0[0].1,
                first_decision == (i > 0),
                i > 0 ==> common > 0 && last_common == t0[i - 1].1,
                i == 0 ==> last_common == common,
                forall|k: int|
                    0 <= k < ns1.len() ==> {
                        &&& node_at(root, (#[trigger] ns1[k]).0@) is Some
                        &&& spine_path(ns1[k].0@)
                        &&& node_at(root, ns1[k].0@)->0.value_seq().len() == ns1[k].1
                        &&& node.loaders().subset_of(node_at(root, ns1[k].0@)->0.loaders())
                    },
                forall|k: int| 0 <= k < t0.len() ==> (#[trigger] t0[k]).1 > 0,
                forall|a: int, b: int|
                    #![trigger t0[a], t0[b]]
                    0 <= a < b < t0.len() ==> t0[a].1 <= t0[b].1,
                paths_in(root, decisions@),
                decisions_ok(root, decisions@),
                forall|k: int|
                    0 <= k < decisions@.len() ==> spine_or_left(
                        (#[trigger] decisions@[k]).0@,
                        depth,
                    ),
                ids == task_ids(t0),
                forall|k: int| 0 <= k < i ==> served_once(decisions@, #[trigger] ids[k]),
                forall|k: int| i <= k < ids.len() ==> unserved(decisions@, #[trigger] ids[k]),
                forall|u: u64|
                    !ids.contains(u) && #[trigger] unserved(d0, u) ==> unserved(decisions@, u),
                forall|u: u64|
                    !ids.contains(u) && #[trigger] served_once(d0, u) ==> served_once(
                        decisions@,
                        u,
                    ),
            ensures
                i < t0.len() ==> t0[i as int].1 > common,
            decreases tasks_cloned.len() - i,
        {
            let (id, len) = tasks_cloned[i];
            if len > 0 {
                let p = gen_index(rng, len);
                if p as u128 >= last_common {
                    proof {
                        if i > 0 {
                            assert(t0[i - 1].1 >= ns_sum(ns1)) by {
                                assert(t0[0].1 <= t0[i - 1].1) by {
                                    if i - 1 > 0 {
                                        assert(t0[0].1 <= t0[i - 1].1);
                                    }
                                }
                            }
                        }
                    }
                    break;
                }
            }
            //choose current node
            let ghost dd = decisions@;
            proof {
                assert(common > 0);
                assert(ns_sum(ns1) <= t0[i as int].1) by {
                    if i > 0 {
                        assert(t0[0].1 <= t0[i as int].1);
                    }
                }
                assert(t0[i as int].0 == id);
                assert(node.loaders().contains(id)) by {
                    assert(task_ids(t0)[i as int] == id);
                    assert(node.spine().to_set().contains(id));
                }
                assert forall|k: int| 0 <= k < node_set@.len() implies node_at(
                    root,
                    (#[trigger] node_set@[k]).0@,
                ) is Some by {
                    assert(node_at(root, ns1[k].0@) is Some);
                }
            }
            Node::choose_intersection_task(decisions, id, &node_set, rng, Ghost(root));
            proof {
                let (kk, j) = choose|kk: int, j: int|
                    #![trigger added(dd, decisions@, ns1[kk].0@, id, j)]
                    0 <= kk < ns1.len() && ns1[kk].1 > 0 && added(dd, decisions@, ns1[kk].0@, id, j);
                assert(node_at(root, ns1[kk].0@) is Some);
                lemma_added_ok(root, dd, decisions@, ns1[kk].0@, id, j, depth);
                assert(ids[i as int] == id);
                crate::decision::lemma_serve_next(d0, dd, decisions@, ns1[kk].0@, ids, i as int, j);
            }
            last_common = len as u128;
            first_decision = true;
            tasks.remove(0);
            i = i + 1;
            proof {
                assert(tasks@ =~= t0.subrange(i as int, t0.len() as int));
            }
        }
        if tasks.len() > 0 {
            let ghost before = tasks@;
            proof {
                assert(i < t0.len());
                assert forall|k: int| 0 <= k < tasks@.len() implies (#[trigger] tasks@[k]).1 > common by {
                    assert(tasks@[k] == t0[i + k]);
                    if k > 0 {
                        assert(t0[i as int].1 <= t0[i + k].1);
                    }
                }
            }
            count_off(tasks, common);
            let ghost t1 = tasks@;
            let ghost r = node.right_node();
            let ghost depth1 = depth + 1;
            proof {
                assert(!node.is_leaf()) by {
                    if node.is_leaf() {
                        assert(t0.len() == 1);
                        assert(node.loader_values(t0[0].0).len() == node.value_seq().len());
                    }
                }
                assert(node.spine() == seq![node.left_node().loader_seq()[0]] + r.spine());
                r.lemma_spine();
                assert forall|k: int| 0 <= k < t1.len() implies (#[trigger] t1[k]).0 == t0[i + k].0
                    && t1[k].1 == t0[i + k].1 - ns_sum(ns1) by {
                    assert(before[k] == t0[i + k]);
                }
            }
            // choose left child for the first task
            if !first_decision && node.left.is_some() {
                proof {
                    lemma_node_at_push(root, path@, false);
                    let l = node.left_node();
                    let a = t0[0].0;
                    assert(a == node.spine()[0]) by {
                        assert(task_ids(t0)[0] == a);
                    }
                    assert(l.loaders().contains(a));
                    l.lemma_loader_count(a);
                    node.lemma_loader_count(a);
                    assert(l.single_leaves());
                    assert(l.value_seq().len() > 0);
                    assert forall|k: int| 0 <= k < decisions@.len() implies (
                    #[trigger] decisions@[k]).0@ != path@.push(false) by {
                        assert(spine_or_left(decisions@[k].0@, depth));
                        assert(path@.push(false)[depth] == false);
                        if spine_path(decisions@[k].0@) && decisions@[k].0@ == path@.push(false) {
                            assert(decisions@[k].0@[depth]);
                        }
                    }
                    assert(spine_or_left(path@.push(false), depth1)) by {
                        assert(path@.push(false).drop_last() =~= path@);
                    }
                    assert forall|k: int|
                        0 <= k < decisions@.len() implies spine_or_left(
                            (#[trigger] decisions@[k]).0@,
                            depth1,
                        ) by {
                        assert(spine_or_left(decisions@[k].0@, depth));
                    }
                }
                let left = extend_path(&path, Some(false));
                let ghost dd = decisions@;
                set_task_decision(decisions, &left, tasks[0].0, Ghost(root));
                proof {
                    let a = t0[0].0;
                    assert(tasks@[0].0 == a);
                    lemma_added_ok(root, dd, decisions@, left@, a, dd.len() as int, depth1);
                    assert(ids[0] == a);
                    crate::decision::lemma_serve_next(d0, dd, decisions@, left@, ids, 0, dd.len() as int);
                }
                tasks.remove(0);
            }
            // choose right child
            let ghost st = if first_decision { i as int } else { i + 1 };
            proof {
                assert(tasks@ =~= t1.subrange(st - i, t1.len() as int));
                assert forall|k: int| 0 <= k < tasks@.len() implies (#[trigger] tasks@[k]).0 == t0[st + k].0
                    && tasks@[k].1 == t0[st + k].1 - ns_sum(ns1) by {
                    assert(tasks@[k] == t1[st - i + k]);
                }
                assert(task_ids(tasks@) =~= r.spine().skip(st - 1)) by {
                    assert forall|k: int| 0 <= k < tasks@.len() implies task_ids(tasks@)[k] == r.spine().skip(
                        st - 1,
                    )[k] by {
                        assert(task_ids(t0)[st + k] == node.spine()[st + k]);
                        assert(node.spine()[st + k] == r.spine()[st + k - 1]);
                    }
                }
                assert(is_suffix(task_ids(tasks@), r.spine()));
                assert forall|k: int| 0 <= k < tasks@.len() implies (#[trigger] tasks@[k]).1 == ns_sum(
                    Seq::<(Vec<bool>, usize)>::empty(),
                ) + r.loader_values(tasks@[k].0).len() by {
                    let t = tasks@[k].0;
                    assert(ns_weights(Seq::<(Vec<bool>, usize)>::empty()) =~= Seq::<usize>::empty());
                    assert(r.spine().contains(t)) by {
                        assert(r.spine()[st + k - 1] == t) by {
                            assert(task_ids(t0)[st + k] == t);
                        }
                    }
                    assert(r.spine().to_set().contains(t));
                    node.lemma_loader_count(t);
                    assert(t0[st + k].1 == ns_sum(ns0) + node.loader_values(t).len());
                }
                assert forall|k: int| 0 <= k < tasks@.len() implies (#[trigger] tasks@[k]).1 > 0 by {
                    assert(t0[st + k].1 > common);
                }
                assert forall|a: int, b: int|
                    #![trigger tasks@[a], tasks@[b]]
                    0 <= a < b < tasks@.len() implies tasks@[a].1 <= tasks@[b].1 by {
                    assert(t0[st + a].1 <= t0[st + b].1);
                }
                assert(task_ids(tasks@) =~= ids.skip(st));
                assert forall|t: u64| #[trigger] task_ids(tasks@).contains(t) implies unserved(
                    decisions@,
                    t,
                ) by {
                    let q = choose|q: int| 0 <= q < task_ids(tasks@).len() && task_ids(tasks@)[q] == t;
                    assert(ids[st + q] == t);
                }
                assert forall|k: int|
                    0 <= k < decisions@.len() implies spine_or_left(
                        (#[trigger] decisions@[k]).0@,
                        depth1,
                    ) by {
                    assert(spine_or_left(decisions@[k].0@, depth) || spine_or_left(
                        decisions@[k].0@,
                        depth1,
                    ));
                }
            }
            let ghost d2 = decisions@;
            let ghost t2 = tasks@;
            if let Some(right) = &node.right {
                proof {
                    lemma_node_at_push(root, path@, true);
                    assert(spine_path(path@.push(true)));
                    assert(path@.push(true).len() == depth1);
                }
                let p = extend_path(&path, Some(true));
                Node::decide_tasks(right, p, tasks, decisions, Vec::new(), rng, Ghost(root));
            }
            proof {
                crate::decision::lemma_serve_rest(d0, d2, decisions@, ids, st);
            }
        } else {
            proof {
                assert(i == t0.len());
                assert forall|t: u64| #[trigger] ids.contains(t) implies served_once(decisions@, t) by {
                    let q = choose|q: int| 0 <= q < ids.len() && ids[q] == t;
                }
            }
        }
    }

    /// Task `task` reads one of the shared nodes of `node_set`, drawn by their numbers of
    /// values: it joins the decision for a node of the set that holds values. Nothing is
    /// decided when they hold no value, or more than `usize::MAX` together.
    fn choose_intersection_task(
        decisions: &mut Vec<(Vec<bool>, Vec<u64>)>,
        task: u64,
        node_set: &Vec<(Vec<bool>, usize)>,
        rng: &mut ThreadRng,
        Ghost(root): Ghost<Node>,
    )
        requires
            forall|k: int|
                0 <= k < node_set@.len() ==> node_at(root, (#[trigger] node_set@[k]).0@) is Some,
            paths_in(root, old(decisions)@),
        ensures
            paths_in(root, final(decisions)@),
            0 < ns_sum(node_set@) <= usize::MAX ==> exists|k: int, i: int|
                #![trigger added(old(decisions)@, final(decisions)@, node_set@[k].0@, task, i)]
                0 <= k < node_set@.len() && node_set@[k].1 > 0 && added(
                    old(decisions)@,
                    final(decisions)@,
                    node_set@[k].0@,
                    task,
                    i,
                ),
            !(0 < ns_sum(node_set@) <= usize::MAX) ==> final(decisions)@ == old(decisions)@,
    {
        let mut weights: Vec<usize> = Vec::new();
        let mut c: usize = 0;
        while c < node_set.len()
            invariant
                c <= node_set.len(),
                weights@ == ns_weights(node_set@.subrange(0, c as int)),
            decreases node_set.len() - c,
        {
            weights.push(node_set[c].1);
            c = c + 1;
            proof {
                assert(weights@ =~= ns_weights(node_set@.subrange(0, c as int)));
            }
        }
        proof {
            assert(node_set@.subrange(0, node_set@.len() as int) =~= node_set@);
        }
        match total_weight(&weights) {
            Some(total) => {
                if total == 0 {
                    return;
                }
                let k = weighted_index(rng, &weights);
                let ghost d0 = decisions@;
                let i = add_task_decision(decisions, &node_set[k].0, task, Ghost(root));
                proof {
                    assert(ns_weights(node_set@)[k as int] == node_set@[k as int].1);
                    assert(added(d0, decisions@, node_set@[k as int].0@, task, i as int));
                }
            },
            None => {},
        }
    }

    /// The number of values loader `id` still has to read is the node's count plus that of
    /// the child that holds it.
    proof fn lemma_loader_count(&self, id: u64)
        requires
            self.wf(),
            self.loaders().contains(id),
        ensures
            self.loader_values(id).finite(),
            self.is_leaf() ==> self.loader_values(id).len() == self.value_seq().len(),
            !self.is_leaf() && self.left_node().loaders().contains(id)
                ==> self.loader_values(id).len() == self.value_seq().len()
                + self.left_node().loader_values(id).len(),
            !self.is_leaf() && self.right_node().loaders().contains(id)
                ==> self.loader_values(id).len() == self.value_seq().len()
                + self.right_node().loader_values(id).len(),
    {
        self.lemma_loader_values(id);
        self.values@.unique_seq_to_set();
        if !self.is_leaf() {
            let l = self.left_node();
            let r = self.right_node();
            l.lemma_loader_values(id);
            r.lemma_loader_values(id);
            if l.loaders().contains(id) {
                assert(!r.loaders().contains(id));
                assert(self.loader_values(id) =~= self.vals().union(l.loader_values(id)));
                vstd::set_lib::lemma_set_disjoint_lens(self.vals(), l.loader_values(id));
            }
            if r.loaders().contains(id) {
                assert(!l.loaders().contains(id));
                assert(self.loader_values(id) =~= self.vals().union(r.loader_values(id)));
                vstd::set_lib::lemma_set_disjoint_lens(self.vals(), r.loader_values(id));
            }
        } else {
            assert(self.loader_values(id) =~= self.vals());
        }
    }

    /// The loader of a leaf with `prefix` plus the leaf's number of values, at most
    /// `usize::MAX`.
    pub(crate) fn get_task(&self, prefix: usize) -> (r: (u64, usize))
        requires
            self.loader_seq().len() == 1,
        ensures
            r.0 == self.loader_seq()[0],
            r.1 == sat_add(prefix as int, self.value_seq().len() as int),
    {
        let len = self.values.len();
        let n = if prefix <= usize::MAX - len {
            prefix + len
        } else {
            usize::MAX
        };
        (self.loader_set[0], n)
    }

    /// Adds to `task_set` each loader of a tree whose left children are leaves, with
    /// `prefix` plus its number of values still to read, at most `usize::MAX`.
    pub(crate) fn get_task_set(&self, task_set: &mut Vec<(u64, usize)>, prefix: usize)
        requires
            self.wf(),
            self.single_leaves(),
            self.left_leaves(),
        ensures
            final(task_set)@.subrange(0, old(task_set)@.len() as int) == old(task_set)@,
            final(task_set)@.len() >= old(task_set)@.len(),
            task_ids(final(task_set)@.subrange(
                old(task_set)@.len() as int,
                final(task_set)@.len() as int,
            )).no_duplicates(),
            task_ids(final(task_set)@.subrange(
                old(task_set)@.len() as int,
                final(task_set)@.len() as int,
            )) == self.spine(),
            task_ids(
                final(task_set)@.subrange(old(task_set)@.len() as int, final(task_set)@.len() as int),
            ).to_set() == self.loaders(),
            forall|k: int|
                #![trigger final(task_set)@[k]]
                old(task_set)@.len() <= k < final(task_set)@.len() ==> final(task_set)@[k].1
                    == sat_add(prefix as int, self.loader_values(final(task_set)@[k].0).len() as int),
        decreases self,
    {
        let ghost t0 = task_set@;
        if let (Some(left), Some(right)) = (&self.left, &self.right) {
            let len = self.values.len();
            let prefix2 = if prefix <= usize::MAX - len {
                prefix + len
            } else {
                usize::MAX
            };
            proof {
                assert(self.left_node().is_leaf());
                assert(self.left_node().single_leaves());
                assert(left.loader_seq().len() == 1);
            }
            let (task, len2) = left.get_task(prefix2);
            task_set.push((task, len2));
            let ghost t1 = task_set@;
            right.get_task_set(task_set, prefix2);
            proof {
                let l = self.left_node();
                let r = self.right_node();
                let n0 = t0.len() as int;
                let new = task_set@.subrange(n0, task_set@.len() as int);
                let rest = task_set@.subrange(n0 + 1, task_set@.len() as int);
                assert(task_set@.subrange(0, n0 + 1) == t1);
                assert(t1[n0] == (task, len2));
                assert(task_set@[n0] == task_set@.subrange(0, n0 + 1)[n0]);
                assert(task_set@[n0] == (task, len2));
                assert(task_set@.subrange(0, n0) =~= t0) by {
                    assert(t1.subrange(0, n0) =~= t0);
                    assert(task_set@.subrange(0, n0) =~= task_set@.subrange(0, n0 + 1).subrange(0, n0));
                }
                assert(new =~= seq![(task, len2)] + rest);
                assert(l.loaders() =~= set![task]) by {
                    assert(l.loader_seq()[0] == task);
                    assert(l.loader_seq() =~= seq![task]);
                }
                assert(task_ids(new) =~= seq![task] + task_ids(rest));
                assert(l.loader_seq() =~= seq![task]) by {
                    assert(l.loader_seq()[0] == task);
                }
                assert(task_ids(new) =~= self.spine());
                assert(!task_ids(rest).contains(task)) by {
                    if task_ids(rest).contains(task) {
                        assert(task_ids(rest).to_set().contains(task));
                        assert(l.loaders().disjoint(r.loaders()));
                    }
                }
                assert(task_ids(new).no_duplicates()) by {
                    assert forall|a: int, b: int|
                        0 <= a < b < task_ids(new).len() implies task_ids(new)[a] != task_ids(
                            new,
                        )[b] by {
                        if a == 0 {
                            assert(task_ids(new)[b] == task_ids(rest)[b - 1]);
                        } else {
                            assert(task_ids(new)[a] == task_ids(rest)[a - 1]);
                            assert(task_ids(new)[b] == task_ids(rest)[b - 1]);
                        }
                    }
                }
                assert(task_ids(new).to_set() =~= self.loaders()) by {
                    assert(self.loaders() == l.loaders().union(r.loaders()));
                    assert(task_ids(rest).to_set() == r.loaders());
                    assert forall|x: u64| task_ids(new).to_set().contains(x) == self.loaders().contains(
                        x,
                    ) by {
                        if x == task {
                            assert(task_ids(new)[0] == task);
                        }
                        if task_ids(rest).to_set().contains(x) {
                            let j = choose|j: int| 0 <= j < task_ids(rest).len() && task_ids(rest)[j] == x;
                            assert(task_ids(new)[j + 1] == x);
                        }
                        if task_ids(new).to_set().contains(x) {
                            let j = choose|j: int| 0 <= j < task_ids(new).len() && task_ids(new)[j] == x;
                            if j > 0 {
                                assert(task_ids(rest)[j - 1] == x);
                                assert(task_ids(rest).to_set().contains(x));
                            }
                        }
                    }
                }
                assert forall|k: int| n0 <= k < task_set@.len() implies (#[trigger] task_set@[k]).1
                    == sat_add(prefix as int, self.loader_values(task_set@[k].0).len() as int) by {
                    let id = task_set@[k].0;
                    if k == n0 {
                        assert(task_set@[k] == t1[n0]);
                        self.lemma_loader_count(task);
                        l.lemma_loader_count(task);
                    } else {
                        assert(task_ids(rest).contains(id)) by {
                            assert(task_ids(rest)[k - n0 - 1] == id);
                        }
                        assert(r.loaders().contains(id)) by {
                            assert(task_ids(rest).to_set().contains(id));
                        }
                        self.lemma_loader_count(id);
                    }
                }
            }
            return;
        }
        let t = self.get_task(prefix);
        task_set.push(t);
        proof {
            let n0 = t0.len() as int;
            assert(task_set@.subrange(0, n0) =~= t0);
            assert(task_set@.subrange(n0, task_set@.len() as int) =~= seq![t]);
            assert(task_ids(seq![t]) =~= seq![t.0]);
            assert(self.loader_seq() =~= seq![t.0]);
            assert(self.loaders() =~= set![t.0]);
            assert(seq![t.0].to_set() =~= set![t.0]);
            self.lemma_loader_count(t.0);
        }
    }
}

/// `a + b`, at most `usize::MAX`.
pub open spec fn sat_add(a: int, b: int) -> int {
    if a + b > usize::MAX {
        usize::MAX as int
    } else {
        a + b
    }
}

/// Every step of the path goes right: the path leads along the spine.
pub open spec fn spine_path(p: Seq<bool>) -> bool {
    forall|i: int| 0 <= i < p.len() ==> #[trigger] p[i]
}

/// A path along the spine, or one that leaves the spine with its last step, to the left
/// child of a spine node less than `d` steps down.
pub open spec fn spine_or_left(p: Seq<bool>, d: int) -> bool {
    spine_path(p) || (0 < p.len() <= d && !p.last() && spine_path(p.drop_last()))
}

/// The loaders `new` are the last ones of `old`, in order, each with at most its number.
pub open spec fn shrunk(old: Seq<(u64, usize)>, new: Seq<(u64, usize)>) -> bool {
    &&& new.len() <= old.len()
    &&& forall|j: int|
        0 <= j < new.len() ==> (#[trigger] new[j]).0 == old[old.len() - new.len() + j].0
            && new[j].1 <= old[old.len() - new.len() + j].1
}

/// A list of loaders is shrunk from itself.
proof fn lemma_shrunk_refl(a: Seq<(u64, usize)>)
    ensures
        shrunk(a, a),
{
}

/// Shrinking twice is shrinking.
proof fn lemma_shrunk_trans(a: Seq<(u64, usize)>, b: Seq<(u64, usize)>, c: Seq<(u64, usize)>)
    requires
        shrunk(a, b),
        shrunk(b, c),
    ensures
        shrunk(a, c),
{
    assert forall|j: int| 0 <= j < c.len() implies (#[trigger] c[j]).0 == a[a.len() - c.len() + j].0
        && c[j].1 <= a[a.len() - c.len() + j].1 by {
        let jb = b.len() - c.len() + j;
        assert(b[jb].0 == a[a.len() - b.len() + jb].0);
    }
}

/// The loaders of a shrunk list are loaders of the list.
proof fn lemma_shrunk_ids(a: Seq<(u64, usize)>, b: Seq<(u64, usize)>)
    requires
        shrunk(a, b),
    ensures
        forall|u: u64| #[trigger] task_ids(b).contains(u) ==> task_ids(a).contains(u),
{
    assert forall|u: u64| #[trigger] task_ids(b).contains(u) implies task_ids(a).contains(u) by {
        let q = choose|q: int| 0 <= q < task_ids(b).len() && task_ids(b)[q] == u;
        assert(b[q].0 == u);
        assert(task_ids(a)[a.len() - b.len() + q] == u);
    }
}

/// `a` is what `b` ends with.
pub open spec fn is_suffix(a: Seq<u64>, b: Seq<u64>) -> bool {
    a.len() <= b.len() && a == b.skip(b.len() - a.len())
}

/// The decisions name distinct nodes of `root` that hold values, each for some of the
/// node's loaders.
pub open spec fn decisions_ok(root: Node, d: Seq<(Vec<bool>, Vec<u64>)>) -> bool {
    &&& forall|a: int, b: int| #![trigger d[a], d[b]] 0 <= a < b < d.len() ==> d[a].0@ != d[b].0@
    &&& forall|k: int|
        0 <= k < d.len() ==> {
            &&& node_at(root, (#[trigger] d[k]).0@) is Some
            &&& node_at(root, d[k].0@)->0.value_seq().len() > 0
            &&& d[k].1@.len() > 0
            &&& forall|u: u64|
                d[k].1@.contains(u) ==> node_at(root, d[k].0@)->0.loaders().contains(u)
        }
}

/// A task joined to the decision for a node that holds values and the task keeps the
/// decisions in order.
pub proof fn lemma_added_ok(
    root: Node,
    old: Seq<(Vec<bool>, Vec<u64>)>,
    new: Seq<(Vec<bool>, Vec<u64>)>,
    path: Seq<bool>,
    t: u64,
    i: int,
    depth: int,
)
    requires
        decisions_ok(root, old),
        forall|k: int| 0 <= k < old.len() ==> spine_or_left((#[trigger] old[k]).0@, depth),
        added(old, new, path, t, i),
        node_at(root, path) is Some,
        node_at(root, path)->0.value_seq().len() > 0,
        node_at(root, path)->0.loaders().contains(t),
        spine_or_left(path, depth),
    ensures
        decisions_ok(root, new),
        forall|k: int| 0 <= k < new.len() ==> spine_or_left((#[trigger] new[k]).0@, depth),
        paths_in(root, new),
{
    assert forall|a: int, b: int| #![trigger new[a], new[b]] 0 <= a < b < new.len() implies new[a].0@
        != new[b].0@ by {
        if b == old.len() {
            assert(i == old.len());
            assert(old[a].0@ != path);
        } else {
            assert(old[a].0@ != old[b].0@);
        }
    }
    assert forall|k: int| 0 <= k < new.len() implies {
        &&& node_at(root, (#[trigger] new[k]).0@) is Some
        &&& node_at(root, new[k].0@)->0.value_seq().len() > 0
        &&& new[k].1@.len() > 0
        &&& forall|u: u64|
            new[k].1@.contains(u) ==> node_at(root, new[k].0@)->0.loaders().contains(u)
    } by {
        if k == i {
            assert(new[k].1@.contains(t));
        } else {
            assert(k < old.len());
            assert(old[k].1@.len() > 0);
            assert(old[k].1@.contains(old[k].1@[0]));
            assert(new[k].1@.contains(old[k].1@[0]));
        }
        assert forall|u: u64| new[k].1@.contains(u) implies node_at(
            root,
            new[k].0@,
        )->0.loaders().contains(u) by {
            if !(k == i && u == t) {
                assert(old[k].1@.contains(u));
            }
        }
    }
    assert forall|k: int| 0 <= k < new.len() implies spine_or_left((#[trigger] new[k]).0@, depth) by {
        if k < old.len() {
            assert(spine_or_left(old[k].0@, depth));
        }
    }
}

/// A suffix of a sequence without duplicates that holds all of its values is all of it.
proof fn lemma_suffix_all(a: Seq<u64>, b: Seq<u64>)
    requires
        is_suffix(a, b),
        b.no_duplicates(),
        a.to_set() == b.to_set(),
    ensures
        a == b,
{
    if a.len() < b.len() {
        assert(b.to_set().contains(b[0]));
        assert(a.to_set().contains(b[0]));
        let q = choose|q: int| 0 <= q < a.len() && a[q] == b[0];
        assert(a[q] == b[b.len() - a.len() + q]);
    }
    assert(a =~= b);
}

/// A shorter suffix is a suffix of the rest.
proof fn lemma_suffix_rest(a: Seq<u64>, b: Seq<u64>)
    requires
        is_suffix(a, b),
        a.len() < b.len(),
    ensures
        is_suffix(a, b.drop_first()),
{
    assert(b.drop_first().skip(b.drop_first().len() - a.len()) =~= b.skip(b.len() - a.len()));
}

/// The sizes of the nodes of a node set.
pub open spec fn ns_weights(ns: Seq<(Vec<bool>, usize)>) -> Seq<usize> {
    ns.map_values(|e: (Vec<bool>, usize)| e.1)
}

/// The shared nodes of a node set, each as its path and number of values.
pub open spec fn ns_view(ns: Seq<(Vec<bool>, usize)>) -> Seq<(Seq<bool>, usize)> {
    ns.map_values(|e: (Vec<bool>, usize)| (e.0@, e.1))
}

/// The count that loader `j` of `l` is compared with when it decides whether it stays:
/// the values shared for the first, else the size of the loader before it.
pub open spec fn stay_bound(l: Seq<(u64, usize)>, common: int, j: int) -> int {
    if j == 0 {
        common
    } else {
        l[j - 1].1 as int
    }
}

/// The first `i` loaders of `l` may all stay, each having no value left or values shared
/// to draw from, and, unless all stay, the next may leave: it has values left and more
/// than it is compared with.
pub open spec fn may_stay(l: Seq<(u64, usize)>, common: int, i: int) -> bool {
    &&& 0 <= i <= l.len()
    &&& forall|j: int| 0 <= j < i ==> (#[trigger] l[j]).1 == 0 || stay_bound(l, common, j) > 0
    &&& i < l.len() ==> l[i].1 > 0 && stay_bound(l, common, i) < l[i].1
}

/// The ids of `s`, each once, in the order they first come.
#[verifier::opaque]
pub open spec fn ids_once(s: Seq<u64>) -> Seq<u64>
    decreases s.len(),
{
    if s.len() == 0 {
        s
    } else {
        let p = ids_once(s.drop_last());
        if p.contains(s.last()) {
            p
        } else {
            p.push(s.last())
        }
    }
}

/// The loaders of `l`, each counted down by `c`, to 0 at least.
pub open spec fn counted_down(l: Seq<(u64, usize)>, c: int) -> Seq<(u64, usize)> {
    l.map_values(
        |e: (u64, usize)|
            (
                e.0,
                if e.1 >= c {
                    (e.1 - c) as usize
                } else {
                    0usize
                },
            ),
    )
}

/// What one call of `decide` may do, for each outcome of its draws: from the node `node`
/// at `path`, with the shared nodes `ns`, the loaders `l0` and the decisions `d0` become
/// `l1` and `d1`.
#[verifier::opaque]
pub open spec fn decided(
    node: Node,
    path: Seq<bool>,
    l0: Seq<(u64, usize)>,
    d0: Seq<Decision>,
    ns: Seq<(Seq<bool>, usize)>,
    l1: Seq<(u64, usize)>,
    d1: Seq<Decision>,
) -> bool
    decreases node.height(),
{
    let ns1 = ns.push((path, node.value_seq().len() as usize));
    let sum = weight_sum(ns1.map_values(|e: (Seq<bool>, usize)| e.1));
    let common: int = if sum <= u128::MAX {
        sum
    } else {
        u128::MAX as int
    };
    if node.loaders() != task_ids(l0).to_set() {
        if node.has_right() {
            proof {
                node.lemma_right_height();
            }
            decided(node.right_node(), path.push(true), l0, d0, ns1, l1, d1)
        } else {
            l1 == l0 && d1 == d0
        }
    } else {
        exists|i: int, d2: Seq<Decision>|
            may_stay(l0, common, i) && #[trigger] decided_here(node, path, l0, d0, ns1, sum, i, d2)
                && {
                let lr = l0.subrange(i, l0.len() as int);
                let l2 = if i == 0 && lr.len() > 0 && node.has_right() {
                    lr.drop_first()
                } else {
                    lr
                };
                if l2.len() > 0 {
                    let l3 = counted_down(l2, common);
                    if node.has_right() {
                        proof {
                            node.lemma_right_height();
                        }
                        decided(node.right_node(), path.push(true), l3, d2, Seq::empty(), l1, d1)
                    } else {
                        l1 == l3 && d1 == d2
                    }
                } else {
                    l1 == l2 && d1 == d2
                }
            }
    }
}

/// The decisions a node that holds exactly the loaders adds when the first `i` loaders stay:
/// when none stays, the first loader's decision for the right child; else the staying
/// loaders' decision for a shared node with values, drawn, when the shared values fit in a
/// `usize`.
pub open spec fn decided_here(
    node: Node,
    path: Seq<bool>,
    l0: Seq<(u64, usize)>,
    d0: Seq<Decision>,
    ns1: Seq<(Seq<bool>, usize)>,
    sum: int,
    i: int,
    d2: Seq<Decision>,
) -> bool {
    if i == 0 {
        if l0.len() > 0 && node.has_right() {
            exists|dd: Decision|
                #[trigger] dd.path() == path.push(true) && dd.loaders() == seq![l0[0].0] && d2 == (
                if exists|k: int| 0 <= k < d0.len() && (#[trigger] d0[k]).path() == dd.path() {
                    d0
                } else {
                    d0.push(dd)
                })
        } else {
            d2 == d0
        }
    } else if 0 < sum <= usize::MAX {
        exists|k: int|
            0 <= k < ns1.len() && ns1[k].1 > 0 && #[trigger] decision_added(
                d0,
                d2,
                ns1[k].0,
                ids_once(task_ids(l0.subrange(0, i))),
            )
    } else {
        d2 == d0
    }
}

/// The number of values of the nodes of a node set.
pub open spec fn ns_sum(ns: Seq<(Vec<bool>, usize)>) -> int {
    weight_sum(ns_weights(ns))
}

/// The loaders of a task table.
pub open spec fn task_ids(s: Seq<(u64, usize)>) -> Seq<u64> {
    s.map_values(|e: (u64, usize)| e.0)
}

/// The node that `path` leads to from `n`, a `false` step going left and a `true` step
/// going right; `None` when it leaves the tree.
pub open spec fn node_at(n: Node, path: Seq<bool>) -> Option<Node>
    decreases path.len(),
{
    if path.len() == 0 {
        Some(n)
    } else if n.is_leaf() {
        None
    } else {
        node_at(
            if path[0] {
                n.right_node()
            } else {
                n.left_node()
            },
            path.drop_first(),
        )
    }
}

/// The node a path leads to in a well-formed tree is well formed.
pub proof fn lemma_node_at_wf(root: Node, path: Seq<bool>)
    requires
        root.wf(),
        node_at(root, path) is Some,
    ensures
        node_at(root, path)->0.wf(),
    decreases path.len(),
{
    if path.len() > 0 {
        if path[0] {
            lemma_node_at_wf(root.right_node(), path.drop_first());
        } else {
            lemma_node_at_wf(root.left_node(), path.drop_first());
        }
    }
}

/// One more step from the node a path leads to leads to its child.
pub proof fn lemma_node_at_push(root: Node, path: Seq<bool>, step: bool)
    requires
        node_at(root, path) is Some,
        !node_at(root, path)->0.is_leaf(),
    ensures
        node_at(root, path.push(step)) == Some(
            if step {
                node_at(root, path)->0.right_node()
            } else {
                node_at(root, path)->0.left_node()
            },
        ),
    decreases path.len(),
{
    reveal_with_fuel(node_at, 2);
    if path.len() > 0 {
        assert(path.push(step).drop_first() =~= path.drop_first().push(step));
        assert(path.push(step)[0] == path[0]);
        if path[0] {
            lemma_node_at_push(root.right_node(), path.drop_first(), step);
        } else {
            lemma_node_at_push(root.left_node(), path.drop_first(), step);
        }
    } else {
        assert(path.push(step).drop_first() =~= Seq::<bool>::empty());
    }
}

/// Taking the values `c` both share out of two nodes moves each loader's count and the
/// leaf's count down by the same amount.
proof fn lemma_count_shift(
    me0v: Set<u32>,
    other0v: Set<u32>,
    below: Set<u32>,
    c: Set<u32>,
    me1v: Set<u32>,
    other1v: Set<u32>,
)
    requires
        me0v.finite(),
        other0v.finite(),
        below.finite(),
        c == me0v.intersect(other0v),
        me1v == me0v.difference(c),
        other1v == other0v.difference(c),
        me0v.disjoint(below),
    ensures
        me0v.len() + below.len() + other1v.len() == below.union(me1v).len() + other0v.len(),
{
    assert(me0v.intersect(c) =~= c);
    assert(other0v.intersect(c) =~= c);
    vstd::set_lib::lemma_set_difference_len(me0v, c);
    vstd::set_lib::lemma_set_difference_len(other0v, c);
    vstd::set_lib::lemma_set_disjoint_lens(below, me1v);
}

/// Removing entry `i` of a sequence without duplicates takes exactly that value out.
proof fn lemma_remove_to_set(s: Seq<u32>, i: int)
    requires
        s.no_duplicates(),
        0 <= i < s.len(),
    ensures
        s.remove(i).no_duplicates(),
        s.remove(i).to_set() == s.to_set().remove(s[i]),
        s.to_set().contains(s[i]),
{
    let t = s.remove(i);
    assert forall|a: int, b: int| 0 <= a < b < t.len() implies t[a] != t[b] by {
        let pa = if a < i { a } else { a + 1 };
        let pb = if b < i { b } else { b + 1 };
        assert(t[a] == s[pa] && t[b] == s[pb]);
    }
    assert forall|v: u32| t.to_set().contains(v) == s.to_set().remove(s[i]).contains(v) by {
        if t.to_set().contains(v) {
            let k = choose|k: int| 0 <= k < t.len() && t[k] == v;
            let p = if k < i { k } else { k + 1 };
            assert(s[p] == v);
        }
        if s.to_set().remove(s[i]).contains(v) {
            let k = choose|k: int| 0 <= k < s.len() && s[k] == v;
            assert(k != i);
            if k < i {
                assert(t[k] == v);
            } else {
                assert(t[k - 1] == v);
            }
        }
    }
    assert(t.to_set() =~= s.to_set().remove(s[i]));
}

/// Counts the shared values `common` off each task's number.
fn count_off(tasks: &mut Vec<(u64, usize)>, common: u128)
    requires
        forall|k: int| 0 <= k < old(tasks)@.len() ==> (#[trigger] old(tasks)@[k]).1 > common,
    ensures
        final(tasks)@.len() == old(tasks)@.len(),
        forall|k: int|
            0 <= k < old(tasks)@.len() ==> (#[trigger] final(tasks)@[k]) == (old(tasks)@[k].0, (
            old(tasks)@[k].1 - common) as usize),
{
    let mut c: usize = 0;
    while c < tasks.len()
        invariant
            c <= tasks.len(),
            tasks@.len() == old(tasks)@.len(),
            forall|k: int| 0 <= k < old(tasks)@.len() ==> (#[trigger] old(tasks)@[k]).1 > common,
            forall|k: int|
                0 <= k < c ==> (#[trigger] tasks@[k]) == (old(tasks)@[k].0, (old(tasks)@[k].1
                    - common) as usize),
            forall|k: int| c <= k < tasks@.len() ==> (#[trigger] tasks@[k]) == old(tasks)@[k],
        decreases tasks.len() - c,
    {
        let (id, len) = tasks[c];
        let rest: usize = if (len as u128) >= common {
            (len as u128 - common) as usize
        } else {
            0
        };
        tasks.set(c, (id, rest));
        c = c + 1;
    }
}

/// Adds the values of `vals` to `res`.
fn append_all(res: &mut Vec<u32>, vals: &Vec<u32>)
    ensures
        final(res)@ == old(res)@ + vals@,
        final(res)@.to_set() == old(res)@.to_set().union(vals@.to_set()),
{
    let mut i: usize = 0;
    while i < vals.len()
        invariant
            i <= vals.len(),
            res@ == old(res)@ + vals@.subrange(0, i as int),
            res@.to_set() == old(res)@.to_set().union(vals@.subrange(0, i as int).to_set()),
        decreases vals.len() - i,
    {
        let ghost prev = res@;
        res.push(vals[i]);
        proof {
            prev.lemma_push_to_set_commute(vals@[i as int]);
            assert(vals@.subrange(0, i + 1) =~= vals@.subrange(0, i as int).push(vals@[i as int]));
            vals@.subrange(0, i as int).lemma_push_to_set_commute(vals@[i as int]);
        }
        i = i + 1;
        proof {
            assert(res@ =~= old(res)@ + vals@.subrange(0, i as int));
            assert(res@.to_set() =~= old(res)@.to_set().union(vals@.subrange(0, i as int).to_set()));
        }
    }
    proof {
        assert(vals@.subrange(0, vals@.len() as int) =~= vals@);
    }
}

/// Two lists that each name a value once, and share none, together name each value once.
proof fn lemma_no_dup_concat(a: Seq<u32>, b: Seq<u32>)
    requires
        a.no_duplicates(),
        b.no_duplicates(),
        a.to_set().disjoint(b.to_set()),
    ensures
        (a + b).no_duplicates(),
{
    let c = a + b;
    assert forall|i: int, j: int| 0 <= i < c.len() && 0 <= j < c.len() && i != j implies c[i]
        != c[j] by {
        if i < a.len() && j >= a.len() {
            assert(a.to_set().contains(a[i]));
            assert(b.to_set().contains(b[j - a.len()]));
        } else if j < a.len() && i >= a.len() {
            assert(a.to_set().contains(a[j]));
            assert(b.to_set().contains(b[i - a.len()]));
        } else if i >= a.len() {
            assert(c[i] == b[i - a.len()] && c[j] == b[j - a.len()]);
        }
    }
}

/// The loaders that stay with the shared nodes, in order: each stays with the chance that
/// the shared values, or the values of the loader before it, hold its values, until one
/// leaves. They are taken off the front of `loaders`; returns how many stayed and their ids,
/// each once.
fn choose_stayers(loaders: &mut Vec<(u64, usize)>, common: u128, rng: &mut ThreadRng) -> (r: (
    usize,
    Vec<u64>,
))
    ensures
        ({
            let l0 = old(loaders)@;
            let i = r.0 as int;
            let dl = r.1@;
            &&& 0 <= i <= l0.len()
            &&& final(loaders)@ == l0.subrange(i, l0.len() as int)
            &&& may_stay(l0, common as int, i)
            &&& dl == ids_once(task_ids(l0.subrange(0, i)))
            &&& i > 0 ==> dl.len() > 0
            &&& dl.len() <= i
            &&& i <= 1 ==> dl == task_ids(l0).subrange(0, i)
            &&& forall|u: u64| #[trigger] dl.contains(u) ==> task_ids(l0).contains(u)
            &&& l0.len() > 0 && l0[0].1 <= common ==> i > 0
        }),
{
    let ghost l0 = loaders@;
    let mut last_common: u128 = common;
    let mut loaders_cloned: Vec<(u64, usize)> = Vec::new();
    let mut c: usize = 0;
    while c < loaders.len()
        invariant
            c <= loaders.len(),
            loaders@ == l0,
            loaders_cloned@ == loaders@.subrange(0, c as int),
        decreases loaders.len() - c,
    {
        loaders_cloned.push(loaders[c]);
        c = c + 1;
        proof {
            assert(loaders_cloned@ =~= loaders@.subrange(0, c as int));
        }
    }
    proof {
        assert(loaders_cloned@ =~= loaders@);
    }
    let mut decided_loader: Vec<u64> = Vec::new();
    proof {
        reveal(ids_once);
        assert(task_ids(l0.subrange(0, 0)) =~= Seq::<u64>::empty());
    }
    let mut i: usize = 0;
    while i < loaders_cloned.len()
        invariant
            i <= loaders_cloned.len(),
            loaders_cloned@ == l0,
            loaders@ == l0.subrange(i as int, l0.len() as int),
            forall|u: u64| #[trigger] decided_loader@.contains(u) ==> task_ids(l0).contains(u),
            i > 0 ==> decided_loader@.len() > 0,
            i <= 1 ==> decided_loader@ == task_ids(l0).subrange(0, i as int),
            decided_loader@.len() <= i,
            i == 0 ==> last_common == common,
            forall|j: int|
                0 <= j < i ==> (#[trigger] l0[j]).1 == 0 || stay_bound(l0, common as int, j) > 0,
            last_common == stay_bound(l0, common as int, i as int),
            decided_loader@ == ids_once(task_ids(l0.subrange(0, i as int))),
        ensures
            l0.len() > 0 && l0[0].1 <= common ==> i > 0,
            may_stay(l0, common as int, i as int),
        decreases loaders_cloned.len() - i,
    {
        let (id, len) = loaders_cloned[i];
        if len > 0 {
            let p = gen_index(rng, len);
            if p as u128 >= last_common {
                break;
            }
        }
        // choose current node
        let ghost lc_before = last_common;
        last_common = len as u128;
        proof {
            assert(task_ids(l0)[i as int] == id);
            assert(task_ids(l0).contains(id));
            assert(l0[i as int].1 == 0 || lc_before > 0);
            let t0 = task_ids(l0.subrange(0, i as int));
            let t1 = task_ids(l0.subrange(0, i + 1));
            assert(t1.drop_last() =~= t0);
            assert(t1.last() == id);
            reveal(ids_once);
            assert(ids_once(t1) == if ids_once(t0).contains(id) {
                ids_once(t0)
            } else {
                ids_once(t0).push(id)
            });
        }
        if !has_id(&decided_loader, id) {
            let ghost before = decided_loader@;
            decided_loader.push(id);
            proof {
                if i == 0 {
                    assert(decided_loader@ =~= task_ids(l0).subrange(0, 1));
                }
            }
            proof {
                assert forall|u: u64| #[trigger] decided_loader@.contains(u) implies task_ids(
                    l0,
                ).contains(u) by {
                    if u != id {
                        let q = choose|q: int| 0 <= q < decided_loader@.len() && decided_loader@[q] == u;
                        assert(decided_loader@ == before.push(id));
                        assert(q < before.len());
                        assert(before[q] == u);
                        assert(before.contains(u));
                    }
                }
                assert(decided_loader@[decided_loader@.len() - 1] == id);
            }
        }
        loaders.remove(0);
        i = i + 1;
        proof {
            assert(loaders@ =~= l0.subrange(i as int, l0.len() as int));
            assert forall|j: int|
                0 <= j < i implies (#[trigger] l0[j]).1 == 0 || stay_bound(l0, common as int, j)
                    > 0 by {
                if j == i - 1 {
                    assert(stay_bound(l0, common as int, j) == lc_before);
                }
            }
        }
    }
    (i, decided_loader)
}

/// Whether `b` lists every loader of `a`.
fn ids_subset(a: &Vec<u64>, b: &Vec<u64>) -> (r: bool)
    ensures
        r == a@.to_set().subset_of(b@.to_set()),
{
    let mut i: usize = 0;
    while i < a.len()
        invariant
            i <= a.len(),
            forall|k: int| 0 <= k < i ==> b@.contains(#[trigger] a@[k]),
        decreases a.len() - i,
    {
        if !has_id(b, a[i]) {
            proof {
                assert(a@.to_set().contains(a@[i as int]));
            }
            return false;
        }
        i = i + 1;
    }
    proof {
        assert forall|x: u64| a@.to_set().contains(x) implies b@.to_set().contains(x) by {
            let k = choose|k: int| 0 <= k < a@.len() && a@[k] == x;
            assert(b@.contains(a@[k]));
        }
    }
    true
}

/// The loaders of `a` that `b` does not list.
fn difference_ids(a: &Vec<u64>, b: &Vec<u64>) -> (r: Vec<u64>)
    requires
        a@.no_duplicates(),
    ensures
        r@.no_duplicates(),
        r@.to_set() == a@.to_set().difference(b@.to_set()),
{
    let mut r: Vec<u64> = Vec::new();
    let mut i: usize = 0;
    while i < a.len()
        invariant
            i <= a.len(),
            a@.no_duplicates(),
            r@.no_duplicates(),
            r@.to_set() == a@.subrange(0, i as int).to_set().difference(b@.to_set()),
        decreases a.len() - i,
    {
        let id = a[i];
        let ghost prev = r@;
        proof {
            assert(a@.subrange(0, i + 1) =~= a@.subrange(0, i as int).push(id));
            a@.subrange(0, i as int).lemma_push_to_set_commute(id);
            assert(!a@.subrange(0, i as int).contains(id)) by {
                if a@.subrange(0, i as int).contains(id) {
                    let k = choose|k: int| 0 <= k < i && a@.subrange(0, i as int)[k] == id;
                    assert(a@[k] == a@[i as int]);
                }
            }
        }
        if !has_id(b, id) {
            proof {
                assert(!r@.contains(id)) by {
                    assert(!r@.to_set().contains(id));
                }
            }
            r.push(id);
            proof {
                prev.lemma_push_to_set_commute(id);
            }
        }
        i = i + 1;
        proof {
            assert(r@.to_set() =~= a@.subrange(0, i as int).to_set().difference(b@.to_set()));
        }
    }
    proof {
        assert(a@.subrange(0, a@.len() as int) =~= a@);
    }
    r
}

/// Takes the loaders of `ids` out of `comp`.
fn remove_ids(comp: &mut Vec<u64>, ids: &Vec<u64>)
    requires
        old(comp)@.no_duplicates(),
    ensures
        final(comp)@.no_duplicates(),
        final(comp)@.to_set() == old(comp)@.to_set().difference(ids@.to_set()),
{
    let r = difference_ids(comp, ids);
    *comp = r;
}

/// Whether `ids` lists `id`.
fn has_id(ids: &Vec<u64>, id: u64) -> (r: bool)
    ensures
        r == ids@.contains(id),
{
    let mut i: usize = 0;
    while i < ids.len()
        invariant
            i <= ids.len(),
            forall|k: int| 0 <= k < i ==> ids@[k] != id,
        decreases ids.len() - i,
    {
        if ids[i] == id {
            return true;
        }
        i = i + 1;
    }
    false
}

/// The loaders of `a`, then those of `b` that `a` does not list.
fn union_ids(a: &Vec<u64>, b: &Vec<u64>) -> (r: Vec<u64>)
    requires
        a@.no_duplicates(),
        b@.no_duplicates(),
    ensures
        r@.no_duplicates(),
        r@.to_set() == a@.to_set().union(b@.to_set()),
        r@.len() >= a@.len(),
{
    let mut r: Vec<u64> = Vec::new();
    let mut i: usize = 0;
    while i < a.len()
        invariant
            i <= a.len(),
            a@.no_duplicates(),
            r@ == a@.subrange(0, i as int),
        decreases a.len() - i,
    {
        r.push(a[i]);
        i = i + 1;
        proof {
            assert(r@ =~= a@.subrange(0, i as int));
        }
    }
    proof {
        assert(r@ =~= a@);
    }
    let mut j: usize = 0;
    while j < b.len()
        invariant
            j <= b.len(),
            r@.len() >= a@.len(),
            r@.no_duplicates(),
            r@.to_set() == a@.to_set().union(b@.subrange(0, j as int).to_set()),
        decreases b.len() - j,
    {
        let id = b[j];
        let ghost prev = r@;
        if !has_id(&r, id) {
            r.push(id);
            proof {
                prev.lemma_push_to_set_commute(id);
            }
        }
        j = j + 1;
        proof {
            assert(b@.subrange(0, j as int) =~= b@.subrange(0, j - 1).push(id));
            b@.subrange(0, j - 1).lemma_push_to_set_commute(id);
            assert(r@.to_set() =~= a@.to_set().union(b@.subrange(0, j as int).to_set()));
        }
    }
    proof {
        assert(b@.subrange(0, b@.len() as int) =~= b@);
    }
    r
}



/// The values of `s` taken one after the other, each at the position, in what is left, that
/// the next of `draws` names; the taking stops at a position outside what is left.
pub open spec fn taken_in_turn(s: Seq<u32>, draws: Seq<int>) -> Seq<u32>
    decreases draws.len(),
{
    if draws.len() == 0 || !(0 <= draws[0] < s.len()) {
        Seq::empty()
    } else {
        seq![s[draws[0]]] + taken_in_turn(s.remove(draws[0]), draws.drop_first())
    }
}

/// Two different positions of a node hold different values: two draws that name different
/// positions make `take_at` take different values.
pub proof fn lemma_draws_take_apart(n: Node, k1: int, k2: int)
    requires
        n.wf(),
        0 <= k1 < n.value_seq().len(),
        0 <= k2 < n.value_seq().len(),
        k1 != k2,
    ensures
        n.value_seq()[k1] != n.value_seq()[k2],
{
}

/// Every order of the values of a node comes out of taking them one after the other, as
/// `take_at` does for all the node's loaders, at some drawn positions: the draws decide the
/// order, and no value is left out or taken twice.
pub proof fn lemma_every_order_drawn(n: Node, order: Seq<u32>)
    requires
        n.wf(),
        order.no_duplicates(),
        order.len() == n.value_seq().len(),
        order.to_set() == n.vals(),
    ensures
        exists|draws: Seq<int>|
            draws.len() == order.len() && #[trigger] taken_in_turn(n.value_seq(), draws) == order,
{
    let draws = lemma_order_draws(n.value_seq(), order);
    assert(taken_in_turn(n.value_seq(), draws) == order);
}

/// The positions at which taking the values of `s` one after the other gives `t`.
proof fn lemma_order_draws(s: Seq<u32>, t: Seq<u32>) -> (draws: Seq<int>)
    requires
        s.no_duplicates(),
        t.no_duplicates(),
        t.len() == s.len(),
        t.to_set() == s.to_set(),
    ensures
        draws.len() == t.len(),
        taken_in_turn(s, draws) == t,
    decreases s.len(),
{
    if s.len() == 0 {
        assert(t =~= Seq::<u32>::empty());
        Seq::empty()
    } else {
        let v = t[0];
        assert(t.to_set().contains(v));
        assert(s.to_set().contains(v));
        let k = choose|k: int| 0 <= k < s.len() && s[k] == v;
        let s2 = s.remove(k);
        let t2 = t.drop_first();
        lemma_remove_to_set(s, k);
        assert(t2.no_duplicates()) by {
            assert forall|a: int, b: int| 0 <= a < b < t2.len() implies t2[a] != t2[b] by {
                assert(t[a + 1] != t[b + 1]);
            }
        }
        assert(t2.to_set() =~= t.to_set().remove(v)) by {
            assert forall|x: u32| t2.to_set().contains(x) implies t.to_set().remove(v).contains(x) by {
                let i = choose|i: int| 0 <= i < t2.len() && t2[i] == x;
                assert(t[i + 1] == x);
                assert(t[0] != t[i + 1]);
            }
            assert forall|x: u32| t.to_set().remove(v).contains(x) implies t2.to_set().contains(x) by {
                let i = choose|i: int| 0 <= i < t.len() && t[i] == x;
                assert(i != 0);
                assert(t2[i - 1] == x);
            }
        }
        let rest = lemma_order_draws(s2, t2);
        let draws = seq![k] + rest;
        assert(draws.drop_first() =~= rest);
        assert(draws[0] == k);
        assert(taken_in_turn(s, draws) == seq![s[k]] + taken_in_turn(s2, rest));
        assert(seq![v] + t2 =~= t);
        draws
    }
}

} // verus!

use vstd::prelude::*;
use crate::head::{head_fields, HEAD_SIZE};

verus! {

/// What a reader reads from the chain of the head at `p` of `mem`, through at most `n`
/// pieces: each piece not marked last gives its bytes but the head in its last bytes, which
/// names the next piece; the piece marked last gives all its bytes. `None` when the chain
/// leaves the memory, has a piece too short for a head, or is longer than `n` pieces.
pub open spec fn read_chain(mem: Seq<u8>, p: int, n: nat) -> Option<Seq<u8>>
    decreases n,
{
    if n == 0 || p < 0 || p + HEAD_SIZE > mem.len() {
        None
    } else {
        let f = head_fields(mem, p);
        if f.2 + f.1 > mem.len() {
            None
        } else if f.0 {
            Some(mem.subrange(f.2 as int, f.2 + f.1))
        } else if (f.1 as int) < HEAD_SIZE {
            None
        } else {
            match read_chain(mem, f.2 + f.1 - HEAD_SIZE, (n - 1) as nat) {
                Some(rest) => Some(mem.subrange(f.2 as int, f.2 + f.1 - HEAD_SIZE) + rest),
                None => None,
            }
        }
    }
}

/// The first `k` pieces of the chain of the head at `p`, none marked last: the bytes a
/// reader reads from them, and the address of the head that names the next piece.
pub open spec fn walk(mem: Seq<u8>, p: int, k: nat) -> Option<(Seq<u8>, int)>
    decreases k,
{
    if k == 0 {
        Some((Seq::empty(), p))
    } else if p < 0 || p + HEAD_SIZE > mem.len() {
        None
    } else {
        let f = head_fields(mem, p);
        if !f.0 && f.1 >= HEAD_SIZE && f.2 + f.1 <= mem.len() {
            match walk(mem, f.2 + f.1 - HEAD_SIZE, (k - 1) as nat) {
                Some((s, q)) => Some((mem.subrange(f.2 as int, f.2 + f.1 - HEAD_SIZE) + s, q)),
                None => None,
            }
        } else {
            None
        }
    }
}

/// The bytes that the first `k` steps of `walk` read: each head, and its piece but the
/// head in its last bytes.
pub open spec fn walk_region(mem: Seq<u8>, p: int, k: nat) -> Set<int>
    decreases k,
{
    if k == 0 {
        Set::empty()
    } else {
        let f = head_fields(mem, p);
        Set::new(|x: int| (p <= x < p + HEAD_SIZE) || (f.2 <= x < f.2 + f.1 - HEAD_SIZE)).union(
            walk_region(mem, f.2 + f.1 - HEAD_SIZE, (k - 1) as nat),
        )
    }
}

/// Two memories that agree on the 16 bytes of a head hold the same fields there.
pub proof fn lemma_head_fields_same(m1: Seq<u8>, m2: Seq<u8>, p: int)
    requires
        forall|x: int| p <= x < p + HEAD_SIZE ==> m1[x] == m2[x],
    ensures
        head_fields(m1, p) == head_fields(m2, p),
{
    assert(m1[p] == m2[p]);
    assert(m1[p + 4] == m2[p + 4] && m1[p + 5] == m2[p + 5] && m1[p + 6] == m2[p + 6] && m1[p
        + 7] == m2[p + 7]);
    assert(m1[p + 8] == m2[p + 8] && m1[p + 9] == m2[p + 9] && m1[p + 10] == m2[p + 10] && m1[p
        + 11] == m2[p + 11]);
    assert(m1[p + 12] == m2[p + 12] && m1[p + 13] == m2[p + 13] && m1[p + 14] == m2[p + 14] && m1[p
        + 15] == m2[p + 15]);
}

/// The walk through the first `k` pieces, then the rest of the chain, reads the chain.
pub proof fn lemma_walk_then_read(mem: Seq<u8>, p: int, k: nat, n: nat)
    requires
        walk(mem, p, k) is Some,
        read_chain(mem, walk(mem, p, k).unwrap().1, n) is Some,
    ensures
        read_chain(mem, p, n + k) == Some(walk(mem, p, k).unwrap().0 + read_chain(mem, walk(mem, p, k).unwrap().1, n).unwrap()),
    decreases k,
{
    if k == 0 {
        assert(walk(mem, p, k).unwrap().0 + read_chain(mem, p, n)->0 =~= read_chain(mem, p, n).unwrap());
    } else {
        let f = head_fields(mem, p);
        let q = f.2 + f.1 - HEAD_SIZE;
        lemma_walk_then_read(mem, q, (k - 1) as nat, n);
        assert((n + k - 1) as nat == n + (k - 1) as nat);
        let s = walk(mem, q, (k - 1) as nat).unwrap().0;
        let t = read_chain(mem, walk(mem, q, (k - 1) as nat).unwrap().1, n).unwrap();
        assert(mem.subrange(f.2 as int, q) + (s + t) =~= (mem.subrange(f.2 as int, q) + s) + t);
    }
}

/// A walk through `k` pieces followed by one more piece not marked last.
pub proof fn lemma_walk_extend(mem: Seq<u8>, p: int, k: nat)
    requires
        walk(mem, p, k) is Some,
        ({
            let q = walk(mem, p, k).unwrap().1;
            let f = head_fields(mem, q);
            &&& 0 <= q && q + HEAD_SIZE <= mem.len()
            &&& !f.0
            &&& f.1 >= HEAD_SIZE
            &&& f.2 + f.1 <= mem.len()
        }),
    ensures
        ({
            let q = walk(mem, p, k).unwrap().1;
            let f = head_fields(mem, q);
            &&& walk(mem, p, k + 1) == Some(
                (
                    walk(mem, p, k).unwrap().0 + mem.subrange(f.2 as int, f.2 + f.1 - HEAD_SIZE),
                    f.2 + f.1 - HEAD_SIZE,
                ),
            )
            &&& walk_region(mem, p, k + 1) == walk_region(mem, p, k).union(
                Set::new(|x: int| (q <= x < q + HEAD_SIZE) || (f.2 <= x < f.2 + f.1 - HEAD_SIZE)),
            )
        }),
    decreases k,
{
    let q = walk(mem, p, k).unwrap().1;
    let f = head_fields(mem, q);
    if k == 0 {
        assert(q == p);
        assert(walk(mem, f.2 + f.1 - HEAD_SIZE, 0) == Some((Seq::<u8>::empty(), f.2 + f.1 - HEAD_SIZE)));
        assert(mem.subrange(f.2 as int, f.2 + f.1 - HEAD_SIZE) + Seq::<u8>::empty() =~= mem.subrange(
            f.2 as int,
            f.2 + f.1 - HEAD_SIZE,
        ));
        assert(walk_region(mem, f.2 + f.1 - HEAD_SIZE, 0) == Set::<int>::empty());
        assert(walk_region(mem, p, 0) == Set::<int>::empty());
        assert(walk_region(mem, p, 1) =~= walk_region(mem, p, 0).union(
            Set::new(|x: int| (q <= x < q + HEAD_SIZE) || (f.2 <= x < f.2 + f.1 - HEAD_SIZE)),
        ));
    } else {
        let g = head_fields(mem, p);
        let r = g.2 + g.1 - HEAD_SIZE;
        lemma_walk_extend(mem, r, (k - 1) as nat);
        assert((k - 1 + 1) as nat == k);
        let s = walk(mem, r, (k - 1) as nat).unwrap().0;
        assert(mem.subrange(g.2 as int, r) + (s + mem.subrange(f.2 as int, f.2 + f.1 - HEAD_SIZE))
            =~= (mem.subrange(g.2 as int, r) + s) + mem.subrange(f.2 as int, f.2 + f.1 - HEAD_SIZE));
        assert(walk_region(mem, p, k + 1) =~= walk_region(mem, p, k).union(
            Set::new(|x: int| (q <= x < q + HEAD_SIZE) || (f.2 <= x < f.2 + f.1 - HEAD_SIZE)),
        ));
    }
}

/// A memory that agrees with `m1` on the bytes a walk reads walks the same way.
pub proof fn lemma_walk_frame(m1: Seq<u8>, m2: Seq<u8>, p: int, k: nat)
    requires
        walk(m1, p, k) is Some,
        m1.len() == m2.len(),
        forall|x: int| #[trigger] walk_region(m1, p, k).contains(x) ==> m1[x] == m2[x],
    ensures
        walk(m2, p, k) == walk(m1, p, k),
        walk_region(m2, p, k) == walk_region(m1, p, k),
    decreases k,
{
    if k > 0 {
        let f = head_fields(m1, p);
        assert forall|x: int| p <= x < p + HEAD_SIZE implies m1[x] == m2[x] by {
            assert(walk_region(m1, p, k).contains(x));
        }
        lemma_head_fields_same(m1, m2, p);
        let q = f.2 + f.1 - HEAD_SIZE;
        assert forall|x: int| #[trigger] walk_region(m1, q, (k - 1) as nat).contains(x) implies m1[x]
            == m2[x] by {
            assert(walk_region(m1, p, k).contains(x));
        }
        lemma_walk_frame(m1, m2, q, (k - 1) as nat);
        assert forall|x: int| f.2 <= x < q implies m1[x] == m2[x] by {
            assert(walk_region(m1, p, k).contains(x));
        }
        assert(m1.subrange(f.2 as int, q) =~= m2.subrange(f.2 as int, q));
        assert(walk_region(m2, p, k) =~= walk_region(m1, p, k));
    }
}

/// Reading a chain with more pieces allowed reads the same.
pub proof fn lemma_read_more(mem: Seq<u8>, p: int, n: nat, m: nat)
    requires
        read_chain(mem, p, n) is Some,
        n <= m,
    ensures
        read_chain(mem, p, m) == read_chain(mem, p, n),
    decreases n,
{
    let f = head_fields(mem, p);
    if !f.0 {
        lemma_read_more(mem, f.2 + f.1 - HEAD_SIZE, (n - 1) as nat, (m - 1) as nat);
    }
}

/// The bytes a walk reads lie in the memory.
pub proof fn lemma_walk_region_in(mem: Seq<u8>, p: int, k: nat)
    requires
        walk(mem, p, k) is Some,
    ensures
        forall|x: int| #[trigger] walk_region(mem, p, k).contains(x) ==> 0 <= x < mem.len(),
    decreases k,
{
    if k > 0 {
        let f = head_fields(mem, p);
        let q = f.2 + f.1 - HEAD_SIZE;
        lemma_walk_region_in(mem, q, (k - 1) as nat);
        assert forall|x: int| #[trigger] walk_region(mem, p, k).contains(x) implies 0 <= x < mem.len() by {
            if !(p <= x < p + HEAD_SIZE) && !(f.2 <= x < q) {
                assert(walk_region(mem, q, (k - 1) as nat).contains(x));
            }
        }
    }
}

} // verus!

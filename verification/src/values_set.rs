use vstd::prelude::*;
use vstd::relations::injective_on;
use vstd::set_lib::{
    lemma_int_range, lemma_len_subset, lemma_map_size, lemma_set_difference_len,
    lemma_set_disjoint_lens, set_int_range,
};

verus! {

/// A bitmap of 128 bits of the `bitmaps` crate.
#[verifier::external_body]
pub struct Bits128 {
    bm: bitmaps::Bitmap<128>,
}

/// The indices of the `true` bits of a bitmap.
pub uninterp spec fn true_bits(b: Bits128) -> Set<int>;

/// The indices of a bitmap of 128 bits.
pub open spec fn all_bits() -> Set<int> {
    Set::new(|i: int| 0 <= i < 128)
}

/// Every index of `s` is an index of a bitmap of 128 bits.
pub open spec fn in_range(s: Set<int>) -> bool {
    forall|i: int| #[trigger] s.contains(i) ==> 0 <= i < 128
}

/// Calls `bitmaps::Bitmap::<128>::new`: every bit is `false`.
#[verifier::external_body]
fn bits_new() -> (r: Bits128)
    ensures
        true_bits(r) == Set::<int>::empty(),
{
    Bits128 { bm: bitmaps::Bitmap::<128>::new() }
}

/// Calls `bitmaps::Bitmap::<128>::set`: bit `index` becomes `value`. bitmaps' source sets or
/// clears the one bit with a mask `1 << index`, which needs `index < 128`.
#[verifier::external_body]
fn bits_set(b: &mut Bits128, index: usize, value: bool)
    requires
        index < 128,
    ensures
        true_bits(*final(b)) == (if value {
            true_bits(*old(b)).insert(index as int)
        } else {
            true_bits(*old(b)).remove(index as int)
        }),
{
    b.bm.set(index, value);
}

/// Calls `bitmaps::Bitmap::<128>::get`: whether bit `index` is `true`.
#[verifier::external_body]
fn bits_get(b: &Bits128, index: usize) -> (r: bool)
    requires
        index < 128,
    ensures
        r == true_bits(*b).contains(index as int),
{
    b.bm.get(index)
}

/// Calls `bitmaps::Bitmap::<128>::len`: the number of `true` bits.
#[verifier::external_body]
fn bits_len(b: &Bits128) -> (r: usize)
    requires
        in_range(true_bits(*b)),
    ensures
        r == true_bits(*b).len(),
{
    b.bm.len()
}

/// Calls `bitmaps::Bitmap::<128>::is_full`: whether every bit is `true`.
#[verifier::external_body]
fn bits_is_full(b: &Bits128) -> (r: bool)
    requires
        in_range(true_bits(*b)),
    ensures
        r == (true_bits(*b) == all_bits()),
{
    b.bm.is_full()
}

/// Calls `|` on two `bitmaps::Bitmap::<128>`: a bit is `true` when it is in either.
#[verifier::external_body]
fn bits_or(a: Bits128, b: Bits128) -> (r: Bits128)
    ensures
        true_bits(r) == true_bits(a).union(true_bits(b)),
{
    Bits128 { bm: a.bm | b.bm }
}

/// Calls `&` on two `bitmaps::Bitmap::<128>`: a bit is `true` when it is in both.
#[verifier::external_body]
fn bits_and(a: Bits128, b: Bits128) -> (r: Bits128)
    ensures
        true_bits(r) == true_bits(a).intersect(true_bits(b)),
{
    Bits128 { bm: a.bm & b.bm }
}

/// Calls `!` on a `bitmaps::Bitmap::<128>`: every bit is inverted.
#[verifier::external_body]
fn bits_not(a: Bits128) -> (r: Bits128)
    ensures
        true_bits(r) == all_bits().difference(true_bits(a)),
{
    Bits128 { bm: !a.bm }
}

impl Clone for Bits128 {
    fn clone(&self) -> (r: Bits128)
        ensures
            r == *self,
    {
        *self
    }
}

impl Copy for Bits128 {

}

impl PartialEq for Bits128 {
    fn eq(&self, other: &Bits128) -> (r: bool) {
        bits_eq(self, other)
    }
}

impl vstd::std_specs::cmp::PartialEqSpecImpl for Bits128 {
    open spec fn obeys_eq_spec() -> bool {
        true
    }

    open spec fn eq_spec(&self, other: &Bits128) -> bool {
        true_bits(*self) == true_bits(*other)
    }
}

/// Calls `==` on two `bitmaps::Bitmap::<128>`: bitmaps' source compares the stores, so the
/// bitmaps are equal when they have the same `true` bits.
#[verifier::external_body]
fn bits_eq(a: &Bits128, b: &Bits128) -> (r: bool)
    ensures
        r == (true_bits(*a) == true_bits(*b)),
{
    a.bm == b.bm
}

/// The bits of a bitmap of 128 bits are finitely many, and those not in `t` number 128
/// less the bits in `t`.
proof fn lemma_bits_len(t: Set<int>)
    requires
        in_range(t),
    ensures
        all_bits().finite(),
        all_bits().len() == 128,
        t.finite(),
        t.len() <= 128,
        all_bits().difference(t).finite(),
        all_bits().difference(t).len() == 128 - t.len(),
{
    lemma_int_range(0, 128);
    assert(set_int_range(0, 128) =~= all_bits());
    assert(t.subset_of(all_bits()));
    lemma_len_subset(t, all_bits());
    lemma_len_subset(all_bits().difference(t), all_bits());
    lemma_set_difference_len(all_bits(), t);
    assert(all_bits().intersect(t) =~= t);
}

/// 128 values from `off`: a value is present when its bit is `false`.
#[derive(PartialEq, Clone, Copy)]
pub struct BitmapOff {
    bm: Bits128,
    off: usize,
}

impl BitmapOff {
    /// The present values, relative to the offset.
    pub closed spec fn present(&self) -> Set<int> {
        all_bits().difference(true_bits(self.bm))
    }

    /// The first value of the block.
    pub closed spec fn offset(&self) -> usize {
        self.off
    }

    /// The bits of the block are those of a bitmap of 128 bits.
    pub closed spec fn ok(&self) -> bool {
        in_range(true_bits(self.bm))
    }

    /// The present values lie in the block, and determine the bitmap.
    pub proof fn lemma_present(&self)
        requires
            self.ok(),
        ensures
            in_range(self.present()),
            self.present().finite(),
            self.present().len() <= 128,
    {
        lemma_bits_len(true_bits(self.bm));
    }

    /// All 128 values from `off`, present.
    pub fn new(off: usize) -> (b: BitmapOff)
        ensures
            b.ok(),
            b.offset() == off,
            b.present() == all_bits(),
    {
        // A `false` bit marks a present value, so a fresh bitmap holds every value.
        let b = BitmapOff { bm: bits_new(), off };
        proof {
            assert(b.present() =~= all_bits());
        }
        b
    }

    /// Makes value `idx` present.
    pub fn set(&mut self, idx: usize)
        requires
            old(self).ok(),
            old(self).offset() <= idx < old(self).offset() + 128,
        ensures
            final(self).ok(),
            final(self).offset() == old(self).offset(),
            final(self).present() == old(self).present().insert(idx - old(self).offset()),
    {
        bits_set(&mut self.bm, idx - self.off, false);
        proof {
            assert(self.present() =~= old(self).present().insert(idx - old(self).offset()));
        }
    }

    /// Makes value `idx` absent.
    pub fn reset(&mut self, idx: usize)
        requires
            old(self).ok(),
            old(self).offset() <= idx < old(self).offset() + 128,
        ensures
            final(self).ok(),
            final(self).offset() == old(self).offset(),
            final(self).present() == old(self).present().remove(idx - old(self).offset()),
    {
        bits_set(&mut self.bm, idx - self.off, true);
        proof {
            assert(self.present() =~= old(self).present().remove(idx - old(self).offset()));
        }
    }

    /// Whether no value is present.
    pub fn is_empty(&self) -> (r: bool)
        requires
            self.ok(),
        ensures
            r == self.present().is_empty(),
            r == (self.present() == Set::<int>::empty()),
    {
        let r = bits_is_full(&self.bm);
        proof {
            if !r {
                assert(!(true_bits(self.bm) =~= all_bits()));
                let i = choose|i: int| !(true_bits(self.bm).contains(i) == all_bits().contains(i));
                if all_bits().contains(i) {
                    assert(self.present().contains(i));
                }
                assert(!self.present().is_empty());
            } else {
                assert(self.present() =~= Set::<int>::empty());
            }
        }
        r
    }

    /// The number of present values.
    pub fn len(&self) -> (r: usize)
        requires
            self.ok(),
        ensures
            r == self.present().len(),
            r <= 128,
    {
        proof {
            lemma_bits_len(true_bits(self.bm));
        }
        128 - bits_len(&self.bm)
    }

    /// Takes out the smallest present value.
    pub fn pick_first(&mut self) -> (r: u32)
        requires
            old(self).ok(),
            !old(self).present().is_empty(),
            old(self).offset() + 128 <= u32::MAX + 1,
        ensures
            final(self).ok(),
            final(self).offset() == old(self).offset(),
            old(self).present().contains(r - old(self).offset()),
            forall|j: int| old(self).present().contains(j) ==> r - old(self).offset() <= j,
            final(self).present() == old(self).present().remove(r - old(self).offset()),
    {
        let mut i: usize = 0;
        while i < 128
            invariant
                *self == *old(self),
                old(self).ok(),
                !old(self).present().is_empty(),
                old(self).offset() + 128 <= u32::MAX + 1,
                i <= 128,
                forall|j: int| 0 <= j < i ==> true_bits(self.bm).contains(j),
            decreases 128 - i,
        {
            if bits_get(&self.bm, i) == false {
                bits_set(&mut self.bm, i, true);
                proof {
                    assert(self.present() =~= old(self).present().remove(i as int));
                }
                return (i + self.off) as u32;
            }
            i = i + 1;
        }
        proof {
            let j = old(self).present().choose();
            assert(old(self).present().contains(j));
        }
        0
    }
}


/// The values of a block: its present indices shifted by its offset.
pub open spec fn block_vals(b: BitmapOff) -> Set<int> {
    Set::new(|v: int| b.present().contains(v - b.offset()))
}

/// A block as a value set keeps it: its bits are those of a bitmap of 128 bits, it holds a
/// value, its offset is a multiple of 128, and its values are below `u32::MAX`.
pub open spec fn block_ok(b: BitmapOff) -> bool {
    &&& b.ok()
    &&& !b.present().is_empty()
    &&& b.offset() % 128 == 0
    &&& forall|i: int| #[trigger] b.present().contains(i) ==> b.offset() + i < u32::MAX
}

/// The values of a sequence of blocks.
pub open spec fn vals(s: Seq<BitmapOff>) -> Set<int>
    decreases s.len(),
{
    if s.len() == 0 {
        Set::empty()
    } else {
        vals(s.drop_last()).union(block_vals(s.last()))
    }
}

/// Every block is kept as `block_ok` says, and the offsets strictly increase.
pub open spec fn blocks_ok(s: Seq<BitmapOff>) -> bool {
    &&& forall|k: int| 0 <= k < s.len() ==> block_ok(#[trigger] s[k])
    &&& forall|k1: int, k2: int|
        0 <= k1 < k2 < s.len() ==> #[trigger] s[k1].offset() < #[trigger] s[k2].offset()
}

/// A block's values lie in its 128 values from the offset, below `u32::MAX`, and are as
/// many as its present indices.
pub proof fn lemma_block_vals(b: BitmapOff)
    requires
        b.ok(),
    ensures
        block_vals(b).finite(),
        block_vals(b).len() == b.present().len(),
        forall|v: int| #[trigger]
            block_vals(b).contains(v) ==> b.offset() <= v < b.offset() + 128,
        block_ok(b) ==> forall|v: int| #[trigger] block_vals(b).contains(v) ==> v < u32::MAX,
{
    b.lemma_present();
    let f = |i: int| i + b.offset();
    assert(b.present().map(f) =~= block_vals(b)) by {
        assert forall|v: int| block_vals(b).contains(v) implies b.present().map(f).contains(v) by {
            assert(f(v - b.offset()) == v);
        }
    }
    assert(injective_on(f, b.present()));
    lemma_map_size(b.present(), block_vals(b), f);
    if block_ok(b) {
        assert forall|v: int| #[trigger] block_vals(b).contains(v) implies v < u32::MAX by {
            assert(b.present().contains(v - b.offset()));
        }
    }
}

/// A value is in a sequence of blocks exactly when it is in one of them.
pub proof fn lemma_vals_contains(s: Seq<BitmapOff>, v: int)
    ensures
        vals(s).contains(v) <==> exists|k: int|
            0 <= k < s.len() && #[trigger] block_vals(s[k]).contains(v),
    decreases s.len(),
{
    if s.len() > 0 {
        let t = s.drop_last();
        lemma_vals_contains(t, v);
        if vals(s).contains(v) {
            if vals(t).contains(v) {
                let k = choose|k: int| 0 <= k < t.len() && #[trigger] block_vals(t[k]).contains(v);
                assert(s[k] == t[k]);
            } else {
                assert(block_vals(s[s.len() - 1]).contains(v));
            }
        }
        if exists|k: int| 0 <= k < s.len() && #[trigger] block_vals(s[k]).contains(v) {
            let k = choose|k: int| 0 <= k < s.len() && #[trigger] block_vals(s[k]).contains(v);
            if k < s.len() - 1 {
                assert(t[k] == s[k]);
            }
        }
    }
}

/// The values of a sequence of blocks are finitely many.
pub proof fn lemma_vals_finite(s: Seq<BitmapOff>)
    ensures
        vals(s).finite(),
    decreases s.len(),
{
    if s.len() > 0 {
        lemma_vals_finite(s.drop_last());
        lemma_bits_len(Set::empty());
        assert(block_vals(s.last()).subset_of(
            Set::new(|v: int| s.last().offset() <= v < s.last().offset() + 128),
        ));
        lemma_int_range(s.last().offset() as int, s.last().offset() + 128);
        assert(set_int_range(s.last().offset() as int, s.last().offset() + 128) =~= Set::new(
            |v: int| s.last().offset() <= v < s.last().offset() + 128,
        ));
        vstd::set_lib::lemma_len_subset(
            block_vals(s.last()),
            set_int_range(s.last().offset() as int, s.last().offset() + 128),
        );
    }
}

/// When every block starts below `bound`, a multiple of 128, every value is below it; when
/// every block starts at or above `bound`, every value is at or above it.
pub proof fn lemma_vals_bounds(s: Seq<BitmapOff>, bound: int)
    requires
        blocks_ok(s),
        bound % 128 == 0,
    ensures
        (forall|k: int| 0 <= k < s.len() ==> #[trigger] s[k].offset() < bound) ==> forall|
            v: int,
        | #[trigger] vals(s).contains(v) ==> v < bound,
        (forall|k: int| 0 <= k < s.len() ==> #[trigger] s[k].offset() >= bound) ==> forall|
            v: int,
        | #[trigger] vals(s).contains(v) ==> v >= bound,
{
    assert forall|v: int| #[trigger] vals(s).contains(v) implies exists|k: int|
        0 <= k < s.len() && #[trigger] s[k].offset() <= v < s[k].offset() + 128 by {
        lemma_vals_contains(s, v);
        let k = choose|k: int| 0 <= k < s.len() && #[trigger] block_vals(s[k]).contains(v);
        assert(block_ok(s[k]));
        lemma_block_vals(s[k]);
    }
}

/// Pushing a block above all others adds its values, which are new.
pub proof fn lemma_vals_push(s: Seq<BitmapOff>, b: BitmapOff)
    requires
        blocks_ok(s),
        block_ok(b),
        forall|k: int| 0 <= k < s.len() ==> #[trigger] s[k].offset() < b.offset(),
    ensures
        blocks_ok(s.push(b)),
        vals(s.push(b)) == vals(s).union(block_vals(b)),
        vals(s).disjoint(block_vals(b)),
        vals(s.push(b)).len() == vals(s).len() + b.present().len(),
{
    assert(s.push(b).drop_last() =~= s);
    lemma_vals_bounds(s, b.offset() as int);
    lemma_block_vals(b);
    lemma_vals_finite(s);
    lemma_set_disjoint_lens(vals(s), block_vals(b));
}

/// The values of well-kept blocks are below `u32::MAX`, so they number at most `u32::MAX`.
pub proof fn lemma_vals_bound(s: Seq<BitmapOff>)
    requires
        blocks_ok(s),
    ensures
        forall|v: int| #[trigger] vals(s).contains(v) ==> 0 <= v < u32::MAX,
        vals(s).finite(),
        vals(s).len() <= u32::MAX,
{
    assert forall|v: int| #[trigger] vals(s).contains(v) implies 0 <= v < u32::MAX by {
        lemma_vals_contains(s, v);
        let k = choose|k: int| 0 <= k < s.len() && #[trigger] block_vals(s[k]).contains(v);
        assert(block_ok(s[k]));
        lemma_block_vals(s[k]);
    }
    lemma_vals_finite(s);
    lemma_int_range(0, u32::MAX as int);
    assert(vals(s).subset_of(set_int_range(0, u32::MAX as int)));
    lemma_len_subset(vals(s), set_int_range(0, u32::MAX as int));
}

/// The shuffled-out indices still to hand out, held as blocks of 128 values; `size` is the
/// number of values the set was built with, less those reset since.
#[derive(PartialEq)]
pub struct ValueSet {
    set: Vec<BitmapOff>,
    size: usize,
}

/// The blocks of a prefix one longer add the next block's values.
pub proof fn lemma_vals_prefix(s: Seq<BitmapOff>, i: int)
    requires
        0 <= i < s.len(),
    ensures
        vals(s.subrange(0, i + 1)) == vals(s.subrange(0, i)).union(block_vals(s[i])),
{
    assert(s.subrange(0, i + 1).drop_last() =~= s.subrange(0, i));
}

/// The blocks of a prefix, and those of a suffix, of well-kept blocks are well kept; the
/// values of the whole are those of a prefix and of the rest.
pub proof fn lemma_vals_split(s: Seq<BitmapOff>, j: int)
    requires
        blocks_ok(s),
        0 <= j <= s.len(),
    ensures
        blocks_ok(s.subrange(0, j)),
        blocks_ok(s.subrange(j, s.len() as int)),
        vals(s) == vals(s.subrange(0, j)).union(vals(s.subrange(j, s.len() as int))),
        s.subrange(0, s.len() as int) == s,
{
    let p = s.subrange(0, j);
    let q = s.subrange(j, s.len() as int);
    assert(s.subrange(0, s.len() as int) =~= s);
    assert forall|k: int| 0 <= k < q.len() implies block_ok(#[trigger] q[k]) by {
        assert(q[k] == s[k + j]);
    }
    assert forall|k1: int, k2: int|
        0 <= k1 < k2 < q.len() implies #[trigger] q[k1].offset() < #[trigger] q[k2].offset() by {
        assert(q[k1] == s[k1 + j]);
        assert(q[k2] == s[k2 + j]);
    }
    assert forall|v: int| vals(s).contains(v) == vals(p).union(vals(q)).contains(v) by {
        lemma_vals_contains(s, v);
        lemma_vals_contains(p, v);
        lemma_vals_contains(q, v);
        if vals(s).contains(v) {
            let k = choose|k: int| 0 <= k < s.len() && #[trigger] block_vals(s[k]).contains(v);
            if k < j {
                assert(p[k] == s[k]);
            } else {
                assert(q[k - j] == s[k]);
            }
        }
        if vals(p).contains(v) {
            let k = choose|k: int| 0 <= k < p.len() && #[trigger] block_vals(p[k]).contains(v);
            assert(p[k] == s[k]);
        }
        if vals(q).contains(v) {
            let k = choose|k: int| 0 <= k < q.len() && #[trigger] block_vals(q[k]).contains(v);
            assert(q[k] == s[k + j]);
        }
    }
    assert(vals(s) =~= vals(p).union(vals(q)));
}

/// In well-kept blocks, the values before block `i` lie below its offset, and those from
/// it on lie at or above it.
pub proof fn lemma_vals_around(s: Seq<BitmapOff>, i: int)
    requires
        blocks_ok(s),
        0 <= i < s.len(),
    ensures
        forall|v: int| #[trigger] vals(s.subrange(0, i)).contains(v) ==> v < s[i].offset(),
        forall|v: int|
            #[trigger] vals(s.subrange(i, s.len() as int)).contains(v) ==> v >= s[i].offset(),
        forall|v: int| #[trigger] block_vals(s[i]).contains(v) ==> v >= s[i].offset(),
{
    lemma_vals_split(s, i);
    assert(block_ok(s[i]));
    let p = s.subrange(0, i);
    let q = s.subrange(i, s.len() as int);
    assert forall|k: int| 0 <= k < p.len() implies #[trigger] p[k].offset() < s[i].offset() by {
        assert(p[k] == s[k]);
    }
    assert forall|k: int| 0 <= k < q.len() implies #[trigger] q[k].offset() >= s[i].offset() by {
        assert(q[k] == s[k + i]);
    }
    lemma_vals_bounds(p, s[i].offset() as int);
    lemma_vals_bounds(q, s[i].offset() as int);
    lemma_block_vals(s[i]);
}

/// Values of the blocks of `s` before `j` lie below `bound` when those blocks start below
/// it, for `bound` a multiple of 128.
pub proof fn lemma_prefix_below(s: Seq<BitmapOff>, j: int, bound: int)
    requires
        blocks_ok(s),
        0 <= j <= s.len(),
        bound % 128 == 0,
        forall|q: int| 0 <= q < j ==> #[trigger] s[q].offset() < bound,
    ensures
        forall|v: int| #[trigger] vals(s.subrange(0, j)).contains(v) ==> v < bound,
{
    lemma_vals_split(s, j);
    let p = s.subrange(0, j);
    assert forall|k: int| 0 <= k < p.len() implies #[trigger] p[k].offset() < bound by {
        assert(p[k] == s[k]);
    }
    lemma_vals_bounds(p, bound);
}

/// A value of block `k` lies in no other block.
proof fn lemma_vals_only_in(s: Seq<BitmapOff>, k: int, r: int)
    requires
        blocks_ok(s),
        0 <= k < s.len(),
        block_vals(s[k]).contains(r),
    ensures
        forall|q: int| 0 <= q < s.len() && q != k ==> !(#[trigger] block_vals(s[q])).contains(r),
{
    lemma_block_vals(s[k]);
    assert(block_ok(s[k]));
    assert forall|q: int| 0 <= q < s.len() && q != k implies !(#[trigger] block_vals(
        s[q],
    )).contains(r) by {
        assert(block_ok(s[q]));
        lemma_block_vals(s[q]);
    }
}

/// Taking value `r` out of block `k`, which holds it and keeps another value, takes it out
/// of the values.
pub proof fn lemma_vals_take(s: Seq<BitmapOff>, k: int, b: BitmapOff, r: int)
    requires
        blocks_ok(s),
        0 <= k < s.len(),
        b.ok(),
        !b.present().is_empty(),
        b.offset() == s[k].offset(),
        block_vals(s[k]).contains(r),
        block_vals(b) == block_vals(s[k]).remove(r),
    ensures
        blocks_ok(s.update(k, b)),
        vals(s.update(k, b)) == vals(s).remove(r),
{
    lemma_vals_only_in(s, k, r);
    let t = s.update(k, b);
    assert forall|i: int| #[trigger] b.present().contains(i) implies b.offset() + i
        < u32::MAX by {
        assert(block_vals(b).contains(b.offset() + i));
        assert(s[k].present().contains(i));
    }
    assert(block_ok(b));
    assert forall|q: int| 0 <= q < t.len() implies block_ok(#[trigger] t[q]) by {
        assert(q != k ==> t[q] == s[q]);
    }
    assert forall|v: int| vals(t).contains(v) == vals(s).remove(r).contains(v) by {
        lemma_vals_contains(s, v);
        lemma_vals_contains(t, v);
        if vals(t).contains(v) {
            let q = choose|q: int| 0 <= q < t.len() && #[trigger] block_vals(t[q]).contains(v);
            if q != k {
                assert(block_vals(s[q]).contains(v));
            }
        }
        if vals(s).remove(r).contains(v) {
            let q = choose|q: int| 0 <= q < s.len() && #[trigger] block_vals(s[q]).contains(v);
            assert(block_vals(t[q]).contains(v));
        }
    }
    assert(vals(t) =~= vals(s).remove(r));
}

/// Taking the one value `r` of block `k` out takes the block out.
pub proof fn lemma_vals_take_last(s: Seq<BitmapOff>, k: int, r: int)
    requires
        blocks_ok(s),
        0 <= k < s.len(),
        block_vals(s[k]) == set![r],
    ensures
        blocks_ok(s.remove(k)),
        vals(s.remove(k)) == vals(s).remove(r),
{
    lemma_vals_only_in(s, k, r);
    let t = s.remove(k);
    assert forall|q: int| 0 <= q < t.len() implies block_ok(#[trigger] t[q]) by {
        if q < k {
            assert(t[q] == s[q]);
        } else {
            assert(t[q] == s[q + 1]);
        }
    }
    assert forall|q1: int, q2: int|
        0 <= q1 < q2 < t.len() implies #[trigger] t[q1].offset() < #[trigger] t[q2].offset() by {
        let p1 = if q1 < k { q1 } else { q1 + 1 };
        let p2 = if q2 < k { q2 } else { q2 + 1 };
        assert(t[q1] == s[p1]);
        assert(t[q2] == s[p2]);
    }
    assert forall|v: int| vals(t).contains(v) == vals(s).remove(r).contains(v) by {
        lemma_vals_contains(s, v);
        lemma_vals_contains(t, v);
        if vals(t).contains(v) {
            let q = choose|q: int| 0 <= q < t.len() && #[trigger] block_vals(t[q]).contains(v);
            if q < k {
                assert(block_vals(s[q]).contains(v));
            } else {
                assert(block_vals(s[q + 1]).contains(v));
            }
        }
        if vals(s).remove(r).contains(v) {
            let q = choose|q: int| 0 <= q < s.len() && #[trigger] block_vals(s[q]).contains(v);
            assert(q != k);
            if q < k {
                assert(block_vals(t[q]).contains(v));
            } else {
                assert(block_vals(t[q - 1]).contains(v));
            }
        }
    }
    assert(vals(t) =~= vals(s).remove(r));
}

/// Calls `rand::random::<usize>()`: a number drawn from the thread's generator. Nothing is
/// stated of it, for it rests on chance.
#[verifier::external_body]
fn random_usize() -> (r: usize) {
    rand::random::<usize>()
}

impl ValueSet {
    /// The values in the set.
    pub closed spec fn values(&self) -> Set<int> {
        vals(self.set@)
    }

    /// The size recorded in the set.
    pub closed spec fn recorded_size(&self) -> usize {
        self.size
    }

    /// The number of blocks.
    pub closed spec fn block_count(&self) -> nat {
        self.set@.len()
    }

    /// The values of block `k`.
    pub closed spec fn block_values(&self, k: int) -> Set<int> {
        block_vals(self.set@[k])
    }

    /// The blocks are well kept: no block is empty, each covers the 128 values from a multiple
    /// of 128, they come in increasing order and every value is below `u32::MAX`.
    pub closed spec fn wf(&self) -> bool {
        blocks_ok(self.set@)
    }

    /// The values of a well-kept set are finitely many, below `u32::MAX`, and lie in its
    /// blocks, each of which holds a value.
    pub proof fn lemma_wf(&self)
        requires
            self.wf(),
        ensures
            self.values().finite(),
            self.values().len() <= u32::MAX,
            forall|v: int| #[trigger] self.values().contains(v) ==> 0 <= v < u32::MAX,
            forall|v: int|
                #[trigger] self.values().contains(v) <==> exists|k: int|
                    0 <= k < self.block_count() && #[trigger] self.block_values(k).contains(v),
            forall|k: int|
                0 <= k < self.block_count() ==> !(#[trigger] self.block_values(k)).is_empty(),
            self.values().is_empty() <==> self.block_count() == 0,
    {
        lemma_vals_bound(self.set@);
        assert forall|v: int|
            #[trigger] self.values().contains(v) <==> exists|k: int|
                0 <= k < self.block_count() && #[trigger] self.block_values(k).contains(v) by {
            lemma_vals_contains(self.set@, v);
            if self.values().contains(v) {
                let k = choose|k: int|
                    0 <= k < self.set@.len() && #[trigger] block_vals(self.set@[k]).contains(v);
                assert(self.block_values(k).contains(v));
            }
            if exists|k: int|
                0 <= k < self.block_count() && #[trigger] self.block_values(k).contains(v) {
                let k = choose|k: int|
                    0 <= k < self.block_count() && #[trigger] self.block_values(k).contains(v);
                assert(block_vals(self.set@[k]).contains(v));
            }
        }
        assert forall|k: int| 0 <= k < self.block_count() implies !(
        #[trigger] self.block_values(k)).is_empty() by {
            let b = self.set@[k];
            assert(block_ok(b));
            let i = b.present().choose();
            assert(block_vals(b).contains(i + b.offset()));
        }
        if self.block_count() > 0 {
            let v = self.block_values(0).choose();
            assert(self.block_values(0).contains(v));
        }
    }

    /// The set of the values `0..size`.
    pub fn init(size: usize) -> (r: ValueSet)
        requires
            size <= u32::MAX,
        ensures
            r.wf(),
            r.values() == set_int_range(0, size as int),
            r.recorded_size() == size,
    {
        let n = size / 128;
        let mut set: Vec<BitmapOff> = Vec::new();
        let mut i: usize = 0;
        while i < n
            invariant
                n == size / 128,
                size <= u32::MAX,
                i <= n,
                set@.len() == i,
                blocks_ok(set@),
                forall|k: int| 0 <= k < i ==> #[trigger] set@[k].offset() == k * 128,
                vals(set@) == set_int_range(0, i * 128),
            decreases n - i,
        {
            let b = BitmapOff::new(i * 128);
            proof {
                assert(block_ok(b)) by {
                    assert(b.present().contains(0));
                }
                lemma_vals_push(set@, b);
                assert(vals(set@.push(b)) =~= set_int_range(0, (i + 1) * 128));
            }
            set.push(b);
            i = i + 1;
        }
        if size % 128 != 0 {
            let off = n * 128;
            let mut bm = BitmapOff::new(off);
            let mut v: usize = size % 128;
            proof {
                assert(bm.present() =~= all_bits().difference(
                    set_int_range((size % 128) as int, v as int),
                ));
            }
            while v < 128
                invariant
                    off == n * 128,
                    n == size / 128,
                    size <= u32::MAX,
                    size % 128 <= v <= 128,
                    bm.ok(),
                    bm.offset() == off,
                    bm.present() == all_bits().difference(
                        set_int_range((size % 128) as int, v as int),
                    ),
                decreases 128 - v,
            {
                bm.reset(v + off);
                proof {
                    assert(bm.present() =~= all_bits().difference(
                        set_int_range((size % 128) as int, v + 1),
                    ));
                }
                v = v + 1;
            }
            proof {
                assert(bm.present() =~= set_int_range(0, (size % 128) as int));
                assert(bm.present().contains(0));
                assert(block_ok(bm));
                lemma_vals_push(set@, bm);
                assert(vals(set@.push(bm)) =~= set_int_range(0, size as int));
            }
            set.push(bm);
        } else {
            proof {
                assert(set_int_range(0, n * 128) =~= set_int_range(0, size as int));
            }
        }
        ValueSet { set, size }
    }

    /// The values in both sets.
    pub fn intersection(&self, other: &ValueSet) -> (r: ValueSet)
        requires
            self.wf(),
            other.wf(),
        ensures
            r.wf(),
            r.values() == self.values().intersect(other.values()),
            r.recorded_size() == r.values().len(),
    {
        let ghost a = self.set@;
        let ghost b = other.set@;
        let mut set: Vec<BitmapOff> = Vec::new();
        let mut size: usize = 0;
        let mut i: usize = 0;
        let mut j: usize = 0;
        while i < self.set.len() && j < other.set.len()
            invariant
                a == self.set@,
                b == other.set@,
                blocks_ok(a),
                blocks_ok(b),
                i <= a.len(),
                j <= b.len(),
                blocks_ok(set@),
                forall|k: int|
                    0 <= k < set@.len() ==> (i < a.len() ==> #[trigger] set@[k].offset()
                        < a[i as int].offset()) && (j < b.len() ==> set@[k].offset()
                        < b[j as int].offset()),
                i < a.len() ==> forall|q: int| 0 <= q < j ==> #[trigger] b[q].offset() < a[i as int].offset(),
                j < b.len() ==> forall|p: int| 0 <= p < i ==> #[trigger] a[p].offset() < b[j as int].offset(),
                vals(set@) == vals(a.subrange(0, i as int)).intersect(vals(b.subrange(0, j as int))),
                size == vals(set@).len(),
            decreases a.len() + b.len() - i - j,
        {
            let v1 = self.set[i];
            let v2 = other.set[j];
            proof {
                assert(block_ok(a[i as int]));
                assert(block_ok(b[j as int]));
                lemma_vals_prefix(a, i as int);
                lemma_vals_prefix(b, j as int);
                lemma_vals_around(a, i as int);
                lemma_vals_around(b, j as int);
                lemma_prefix_below(b, j as int, a[i as int].offset() as int);
                lemma_prefix_below(a, i as int, b[j as int].offset() as int);
            }
            if v1.off > v2.off {
                j = j + 1;
                proof {
                    assert(vals(set@) =~= vals(a.subrange(0, i as int)).intersect(
                        vals(b.subrange(0, j as int)),
                    ));
                }
            } else if v1.off < v2.off {
                i = i + 1;
                proof {
                    assert(vals(set@) =~= vals(a.subrange(0, i as int)).intersect(
                        vals(b.subrange(0, j as int)),
                    ));
                }
            } else {
                let bmo = BitmapOff { bm: bits_or(v1.bm, v2.bm), off: v1.off };
                proof {
                    assert(bmo.present() =~= v1.present().intersect(v2.present()));
                    assert(block_vals(bmo) =~= block_vals(v1).intersect(block_vals(v2)));
                    assert(vals(a.subrange(0, i + 1)).intersect(vals(b.subrange(0, j + 1)))
                        =~= vals(set@).union(block_vals(bmo)));
                }
                i = i + 1;
                j = j + 1;
                if bmo.is_empty() {
                    proof {
                        assert(block_vals(bmo) =~= Set::<int>::empty());
                    }
                } else {
                    proof {
                        assert(block_ok(bmo));
                        lemma_vals_push(set@, bmo);
                        lemma_vals_bound(set@.push(bmo));
                        lemma_block_vals(bmo);
                    }
                    size = size + bmo.len();
                    set.push(bmo);
                }
                proof {
                    assert(vals(set@) =~= vals(a.subrange(0, i as int)).intersect(
                        vals(b.subrange(0, j as int)),
                    ));
                }
            }
        }
        proof {
            lemma_vals_split(a, i as int);
            lemma_vals_split(b, j as int);
            if i < a.len() {
                lemma_vals_around(a, i as int);
                lemma_prefix_below(b, j as int, a[i as int].offset() as int);
            }
            if j < b.len() {
                lemma_vals_around(b, j as int);
                lemma_prefix_below(a, i as int, b[j as int].offset() as int);
            }
            assert(vals(set@) =~= vals(a).intersect(vals(b)));
        }
        ValueSet { set, size }
    }

    /// The values in this set and not in `other`.
    pub fn difference(&self, other: &ValueSet) -> (r: ValueSet)
        requires
            self.wf(),
            other.wf(),
        ensures
            r.wf(),
            r.values() == self.values().difference(other.values()),
            r.recorded_size() == r.values().len(),
    {
        let ghost a = self.set@;
        let ghost b = other.set@;
        let mut set: Vec<BitmapOff> = Vec::new();
        let mut size: usize = 0;
        let mut i: usize = 0;
        let mut j: usize = 0;
        while i < self.set.len()
            invariant
                a == self.set@,
                b == other.set@,
                blocks_ok(a),
                blocks_ok(b),
                i <= a.len(),
                j <= b.len(),
                blocks_ok(set@),
                forall|k: int|
                    0 <= k < set@.len() ==> (i < a.len() ==> #[trigger] set@[k].offset()
                        < a[i as int].offset()) && (j < b.len() ==> set@[k].offset()
                        < b[j as int].offset()),
                i < a.len() ==> forall|q: int| 0 <= q < j ==> #[trigger] b[q].offset() < a[i as int].offset(),
                j < b.len() ==> forall|p: int| 0 <= p < i ==> #[trigger] a[p].offset() < b[j as int].offset(),
                vals(set@) == vals(a.subrange(0, i as int)).difference(vals(b.subrange(0, j as int))),
                size == vals(set@).len(),
            decreases a.len() + b.len() - i - j,
        {
            let v1 = self.set[i];
            proof {
                assert(block_ok(a[i as int]));
                lemma_vals_prefix(a, i as int);
                lemma_vals_around(a, i as int);
                lemma_prefix_below(b, j as int, a[i as int].offset() as int);
            }
            let mut bmo = v1;
            let mut keep = true;
            if j < other.set.len() {
                let v2 = other.set[j];
                proof {
                    assert(block_ok(b[j as int]));
                    lemma_vals_prefix(b, j as int);
                    lemma_vals_around(b, j as int);
                    lemma_prefix_below(a, i as int, b[j as int].offset() as int);
                }
                if v1.off > v2.off {
                    keep = false;
                    j = j + 1;
                    proof {
                        assert(vals(set@) =~= vals(a.subrange(0, i as int)).difference(
                            vals(b.subrange(0, j as int)),
                        ));
                    }
                } else if v1.off < v2.off {
                    proof {
                        assert(vals(a.subrange(0, i + 1)).difference(vals(b.subrange(0, j as int)))
                            =~= vals(set@).union(block_vals(bmo)));
                    }
                    i = i + 1;
                } else {
                    bmo = BitmapOff { bm: bits_or(v1.bm, bits_not(v2.bm)), off: v1.off };
                    proof {
                        assert(bmo.present() =~= v1.present().difference(v2.present()));
                        assert(block_vals(bmo) =~= block_vals(v1).difference(block_vals(v2)));
                        assert(vals(a.subrange(0, i + 1)).difference(vals(b.subrange(0, j + 1)))
                            =~= vals(set@).union(block_vals(bmo)));
                    }
                    i = i + 1;
                    j = j + 1;
                }
            } else {
                proof {
                    assert(vals(a.subrange(0, i + 1)).difference(vals(b.subrange(0, j as int)))
                        =~= vals(set@).union(block_vals(bmo)));
                }
                i = i + 1;
            }
            if keep {
                if bmo.is_empty() {
                    proof {
                        assert(block_vals(bmo) =~= Set::<int>::empty());
                        assert(vals(set@) =~= vals(set@).union(block_vals(bmo)));
                    }
                } else {
                    proof {
                        assert(block_ok(bmo));
                        lemma_vals_push(set@, bmo);
                        lemma_vals_bound(set@.push(bmo));
                        lemma_block_vals(bmo);
                    }
                    size = size + bmo.len();
                    set.push(bmo);
                }
            }
        }
        proof {
            lemma_vals_split(a, i as int);
            lemma_vals_split(b, j as int);
            if j < b.len() {
                lemma_vals_around(b, j as int);
                lemma_prefix_below(a, i as int, b[j as int].offset() as int);
            }
            assert(vals(set@) =~= vals(a).difference(vals(b)));
        }
        ValueSet { set, size }
    }

    /// The values in either set.
    pub fn union(&self, other: &ValueSet) -> (r: ValueSet)
        requires
            self.wf(),
            other.wf(),
        ensures
            r.wf(),
            r.values() == self.values().union(other.values()),
            r.recorded_size() == r.values().len(),
    {
        let ghost a = self.set@;
        let ghost b = other.set@;
        let mut set: Vec<BitmapOff> = Vec::new();
        let mut size: usize = 0;
        let mut i: usize = 0;
        let mut j: usize = 0;
        while i < self.set.len() || j < other.set.len()
            invariant
                a == self.set@,
                b == other.set@,
                blocks_ok(a),
                blocks_ok(b),
                i <= a.len(),
                j <= b.len(),
                blocks_ok(set@),
                forall|k: int|
                    0 <= k < set@.len() ==> (i < a.len() ==> #[trigger] set@[k].offset()
                        < a[i as int].offset()) && (j < b.len() ==> set@[k].offset()
                        < b[j as int].offset()),
                i < a.len() ==> forall|q: int| 0 <= q < j ==> #[trigger] b[q].offset() < a[i as int].offset(),
                j < b.len() ==> forall|p: int| 0 <= p < i ==> #[trigger] a[p].offset() < b[j as int].offset(),
                vals(set@) == vals(a.subrange(0, i as int)).union(vals(b.subrange(0, j as int))),
                size == vals(set@).len(),
            decreases a.len() + b.len() - i - j,
        {
            let bmo;
            if i < self.set.len() && j < other.set.len() {
                let v1 = self.set[i];
                let v2 = other.set[j];
                proof {
                    assert(block_ok(a[i as int]));
                    assert(block_ok(b[j as int]));
                    lemma_vals_prefix(a, i as int);
                    lemma_vals_prefix(b, j as int);
                }
                if v1.off > v2.off {
                    bmo = v2;
                    proof {
                        assert(vals(a.subrange(0, i as int)).union(vals(b.subrange(0, j + 1)))
                            =~= vals(set@).union(block_vals(bmo)));
                    }
                    j = j + 1;
                } else if v1.off < v2.off {
                    bmo = v1;
                    proof {
                        assert(vals(a.subrange(0, i + 1)).union(vals(b.subrange(0, j as int)))
                            =~= vals(set@).union(block_vals(bmo)));
                    }
                    i = i + 1;
                } else {
                    bmo = BitmapOff { bm: bits_and(v1.bm, v2.bm), off: v1.off };
                    proof {
                        assert(bmo.present() =~= v1.present().union(v2.present()));
                        assert(block_vals(bmo) =~= block_vals(v1).union(block_vals(v2)));
                        assert(vals(a.subrange(0, i + 1)).union(vals(b.subrange(0, j + 1)))
                            =~= vals(set@).union(block_vals(bmo)));
                        lemma_block_vals(v1);
                    }
                    i = i + 1;
                    j = j + 1;
                }
            } else if i < self.set.len() {
                bmo = self.set[i];
                proof {
                    assert(block_ok(a[i as int]));
                    lemma_vals_prefix(a, i as int);
                    assert(vals(a.subrange(0, i + 1)).union(vals(b.subrange(0, j as int)))
                        =~= vals(set@).union(block_vals(bmo)));
                }
                i = i + 1;
            } else {
                bmo = other.set[j];
                proof {
                    assert(block_ok(b[j as int]));
                    lemma_vals_prefix(b, j as int);
                    assert(vals(a.subrange(0, i as int)).union(vals(b.subrange(0, j + 1)))
                        =~= vals(set@).union(block_vals(bmo)));
                }
                j = j + 1;
            }
            if bmo.is_empty() {
                proof {
                    assert(block_vals(bmo) =~= Set::<int>::empty());
                    assert(vals(set@) =~= vals(set@).union(block_vals(bmo)));
                }
            } else {
                proof {
                    assert(block_ok(bmo));
                    lemma_vals_push(set@, bmo);
                    lemma_vals_bound(set@.push(bmo));
                    lemma_block_vals(bmo);
                }
                size = size + bmo.len();
                set.push(bmo);
            }
        }
        proof {
            lemma_vals_split(a, i as int);
            lemma_vals_split(b, j as int);
        }
        ValueSet { set, size }
    }

    /// Takes out the smallest value of block `block`.
    pub fn pick_in_block(&mut self, block: usize) -> (r: u32)
        requires
            old(self).wf(),
            block < old(self).block_count(),
        ensures
            final(self).wf(),
            old(self).block_values(block as int).contains(r as int),
            forall|v: int| #[trigger]
                old(self).block_values(block as int).contains(v) ==> r <= v,
            final(self).values() == old(self).values().remove(r as int),
            final(self).recorded_size() == old(self).recorded_size(),
    {
        let ghost s = self.set@;
        let mut b = self.set[block];
        proof {
            assert(block_ok(b));
            let i = b.present().choose();
            assert(b.present().contains(i));
            assert(b.offset() + 128 <= u32::MAX + 1);
        }
        let res = b.pick_first();
        proof {
            assert(block_vals(b) =~= block_vals(s[block as int]).remove(res as int));
            assert forall|v: int| #[trigger]
                block_vals(s[block as int]).contains(v) implies res <= v by {
                assert(s[block as int].present().contains(v - s[block as int].offset()));
            }
        }
        if b.is_empty() {
            proof {
                assert(block_vals(s[block as int]) =~= set![res as int]) by {
                    assert(block_vals(b) =~= Set::<int>::empty());
                }
                lemma_vals_take_last(s, block as int, res as int);
            }
            self.set.remove(block);
        } else {
            proof {
                lemma_vals_take(s, block as int, b, res as int);
            }
            self.set.set(block, b);
        }
        res
    }

    /// Takes out a value of a block chosen at random, the smallest of that block: the value
    /// that `pick_drawn` takes with a number drawn from the thread's generator.
    pub fn random_pick(&mut self) -> (r: u32)
        requires
            old(self).wf(),
            !old(self).values().is_empty(),
        ensures
            final(self).wf(),
            old(self).values().contains(r as int),
            final(self).values() == old(self).values().remove(r as int),
            final(self).recorded_size() == old(self).recorded_size(),
            exists|d: int| 0 <= d && #[trigger] drawn_pick(*old(self), d, r as int),
    {
        let draw = random_usize();
        let r = self.pick_drawn(draw);
        proof {
            assert(drawn_pick(*old(self), draw as int, r as int));
        }
        r
    }

    /// Takes out the value that the draw `draw` names: the smallest value of block
    /// `draw % block_count`, the blocks counted in increasing order.
    pub fn pick_drawn(&mut self, draw: usize) -> (r: u32)
        requires
            old(self).wf(),
            !old(self).values().is_empty(),
        ensures
            final(self).wf(),
            drawn_pick(*old(self), draw as int, r as int),
            old(self).values().contains(r as int),
            final(self).values() == old(self).values().remove(r as int),
            final(self).recorded_size() == old(self).recorded_size(),
    {
        proof {
            self.lemma_wf();
        }
        let len = self.set.len();
        let choice_idx = draw % len;
        let r = self.pick_in_block(choice_idx);
        proof {
            old(self).lemma_wf();
        }
        r
    }

    /// Takes value `idx` out of the set, and one off the recorded size.
    pub fn reset(&mut self, idx: usize)
        requires
            old(self).wf(),
            old(self).recorded_size() >= 1,
        ensures
            final(self).wf(),
            final(self).values() == old(self).values().remove(idx as int),
            final(self).recorded_size() == old(self).recorded_size() - 1,
    {
        let ghost s = self.set@;
        let mut new_set: Vec<BitmapOff> = Vec::new();
        let mut k: usize = 0;
        while k < self.set.len()
            invariant
                s == self.set@,
                blocks_ok(s),
                k <= s.len(),
                blocks_ok(new_set@),
                forall|q: int|
                    0 <= q < new_set@.len() ==> (k < s.len() ==> #[trigger] new_set@[q].offset()
                        < s[k as int].offset()),
                vals(new_set@) == vals(s.subrange(0, k as int)).remove(idx as int),
            decreases s.len() - k,
        {
            let mut bm = self.set[k];
            proof {
                assert(block_ok(bm));
                lemma_block_vals(bm);
                lemma_vals_prefix(s, k as int);
            }
            if idx >= bm.off && idx - bm.off < 128 {
                bm.reset(idx);
            }
            proof {
                assert(block_vals(bm) =~= block_vals(s[k as int]).remove(idx as int));
                assert(vals(s.subrange(0, k + 1)).remove(idx as int) =~= vals(new_set@).union(
                    block_vals(bm),
                ));
            }
            if bm.is_empty() {
                proof {
                    assert(block_vals(bm) =~= Set::<int>::empty());
                    assert(vals(new_set@) =~= vals(new_set@).union(block_vals(bm)));
                }
            } else {
                proof {
                    assert forall|i: int| #[trigger] bm.present().contains(i) implies bm.offset()
                        + i < u32::MAX by {
                        assert(block_vals(bm).contains(bm.offset() + i));
                        assert(s[k as int].present().contains(i));
                    }
                    assert(block_ok(bm));
                    lemma_vals_push(new_set@, bm);
                }
                new_set.push(bm);
            }
            k = k + 1;
        }
        proof {
            lemma_vals_split(s, k as int);
        }
        self.size = self.size - 1;
        self.set = new_set;
    }
}


/// `r` is what taking out with the draw `d` gives from `s`: the smallest value of block
/// `d % block_count`.
pub open spec fn drawn_pick(s: ValueSet, d: int, r: int) -> bool {
    &&& s.block_count() > 0
    &&& s.block_values(d % (s.block_count() as int)).contains(r)
    &&& forall|v: int| #[trigger] s.block_values(d % (s.block_count() as int)).contains(v) ==> r <= v
}

/// The values of one block lie in one run of 128 values, that of its offset.
proof fn lemma_block_run(s: ValueSet, k: int, v: int)
    requires
        s.wf(),
        0 <= k < s.block_count(),
        s.block_values(k).contains(v),
    ensures
        v / 128 == s.set@[k].offset() / 128,
{
    let b = s.set@[k];
    assert(block_ok(b));
    lemma_block_vals(b);
    let off = b.offset() as int;
    assert(v / 128 == off / 128) by (nonlinear_arith)
        requires
            off % 128 == 0,
            off <= v < off + 128,
            off >= 0,
    ;
}

/// Two draws that name different blocks take values from different runs of 128 values: the
/// draw decides which run of the set the value comes from.
pub proof fn lemma_draws_part_runs(s: ValueSet, d1: int, r1: int, d2: int, r2: int)
    requires
        s.wf(),
        drawn_pick(s, d1, r1),
        drawn_pick(s, d2, r2),
        d1 % (s.block_count() as int) != d2 % (s.block_count() as int),
    ensures
        r1 / 128 != r2 / 128,
{
    let c = s.block_count() as int;
    let k1 = d1 % c;
    let k2 = d2 % c;
    lemma_block_run(s, k1, r1);
    lemma_block_run(s, k2, r2);
    let o1 = s.set@[k1].offset() as int;
    let o2 = s.set@[k2].offset() as int;
    assert(block_ok(s.set@[k1]) && block_ok(s.set@[k2]));
    assert(o1 != o2) by {
        if k1 < k2 {
            assert(s.set@[k1].offset() < s.set@[k2].offset());
        } else {
            assert(s.set@[k2].offset() < s.set@[k1].offset());
        }
    }
    assert(o1 / 128 != o2 / 128) by (nonlinear_arith)
        requires
            o1 % 128 == 0,
            o2 % 128 == 0,
            o1 != o2,
            o1 >= 0,
            o2 >= 0,
    ;
}

/// Every value of the set is reached by some draw: the draw that names its block takes a
/// value of its run of 128 values that is no larger than it.
pub proof fn lemma_every_run_drawn(s: ValueSet, v: int) -> (d: int)
    requires
        s.wf(),
        s.values().contains(v),
    ensures
        0 <= d < s.block_count(),
        forall|r: int| #[trigger] drawn_pick(s, d, r) ==> r / 128 == v / 128 && r <= v,
{
    s.lemma_wf();
    let k = choose|k: int| 0 <= k < s.block_count() && #[trigger] s.block_values(k).contains(v);
    let c = s.block_count() as int;
    assert(k % c == k) by (nonlinear_arith)
        requires
            0 <= k < c,
    ;
    assert forall|r: int| #[trigger] drawn_pick(s, k, r) implies r / 128 == v / 128 && r <= v by {
        lemma_block_run(s, k, r);
        lemma_block_run(s, k, v);
    }
    k
}

} // verus!

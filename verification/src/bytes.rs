use vstd::prelude::*;

verus! {

/// The big-endian value of four bytes.
pub open spec fn be_u32(b0: u8, b1: u8, b2: u8, b3: u8) -> u32 {
    ((b0 as u32) << 24u32) | ((b1 as u32) << 16u32) | ((b2 as u32) << 8u32) | (b3 as u32)
}

/// The big-endian value of the four bytes of `s` that start at `i`.
pub open spec fn be_u32_at(s: Seq<u8>, i: int) -> u32 {
    be_u32(s[i], s[i + 1], s[i + 2], s[i + 3])
}

/// The big-endian value of eight bytes.
pub open spec fn be_u64(
    b0: u8, b1: u8, b2: u8, b3: u8, b4: u8, b5: u8, b6: u8, b7: u8,
) -> u64 {
    ((b0 as u64) << 56u64) | ((b1 as u64) << 48u64) | ((b2 as u64) << 40u64) | ((b3 as u64) << 32u64)
        | ((b4 as u64) << 24u64) | ((b5 as u64) << 16u64) | ((b6 as u64) << 8u64) | (b7 as u64)
}

/// The big-endian value of the eight bytes of `s` that start at `i`.
pub open spec fn be_u64_at(s: Seq<u8>, i: int) -> u64 {
    be_u64(s[i], s[i + 1], s[i + 2], s[i + 3], s[i + 4], s[i + 5], s[i + 6], s[i + 7])
}

/// `t` is `s` with the `n` bytes from `at` replaced, and nothing else changed.
pub open spec fn same_outside(s: Seq<u8>, t: Seq<u8>, at: int, n: int) -> bool {
    &&& t.len() == s.len()
    &&& forall|j: int| 0 <= j < s.len() && !(at <= j < at + n) ==> t[j] == s[j]
}

/// `s` with the big-endian bytes of `x` written at `at`.
pub open spec fn be_u32_written(s: Seq<u8>, at: int, x: u32) -> Seq<u8> {
    s.update(at, (x >> 24u32) as u8).update(at + 1, (x >> 16u32) as u8).update(
        at + 2,
        (x >> 8u32) as u8,
    ).update(at + 3, x as u8)
}

/// `s` with the big-endian bytes of `x` written at `at`.
pub open spec fn be_u64_written(s: Seq<u8>, at: int, x: u64) -> Seq<u8> {
    s.update(at, (x >> 56u64) as u8).update(at + 1, (x >> 48u64) as u8).update(
        at + 2,
        (x >> 40u64) as u8,
    ).update(at + 3, (x >> 32u64) as u8).update(at + 4, (x >> 24u64) as u8).update(
        at + 5,
        (x >> 16u64) as u8,
    ).update(at + 6, (x >> 8u64) as u8).update(at + 7, x as u8)
}

/// Reading back the four bytes written for `x` gives `x`.
pub proof fn lemma_be_u32_written(s: Seq<u8>, at: int, x: u32)
    requires
        0 <= at,
        at + 4 <= s.len(),
    ensures
        be_u32_at(be_u32_written(s, at, x), at) == x,
        same_outside(s, be_u32_written(s, at, x), at, 4),
{
    lemma_be_u32_roundtrip(x);
}

/// Reading back the eight bytes written for `x` gives `x`.
pub proof fn lemma_be_u64_written(s: Seq<u8>, at: int, x: u64)
    requires
        0 <= at,
        at + 8 <= s.len(),
    ensures
        be_u64_at(be_u64_written(s, at, x), at) == x,
        same_outside(s, be_u64_written(s, at, x), at, 8),
{
    lemma_be_u64_roundtrip(x);
}

proof fn lemma_be_u32_roundtrip(x: u32)
    ensures
        be_u32((x >> 24u32) as u8, (x >> 16u32) as u8, (x >> 8u32) as u8, x as u8) == x,
{
    assert(((((x >> 24u32) as u8) as u32) << 24u32) | ((((x >> 16u32) as u8) as u32) << 16u32)
        | ((((x >> 8u32) as u8) as u32) << 8u32) | ((x as u8) as u32) == x) by (bit_vector);
}

proof fn lemma_be_u64_roundtrip(x: u64)
    ensures
        be_u64(
            (x >> 56u64) as u8, (x >> 48u64) as u8, (x >> 40u64) as u8, (x >> 32u64) as u8,
            (x >> 24u64) as u8, (x >> 16u64) as u8, (x >> 8u64) as u8, x as u8,
        ) == x,
{
    assert(((((x >> 56u64) as u8) as u64) << 56u64) | ((((x >> 48u64) as u8) as u64) << 48u64)
        | ((((x >> 40u64) as u8) as u64) << 40u64) | ((((x >> 32u64) as u8) as u64) << 32u64)
        | ((((x >> 24u64) as u8) as u64) << 24u64) | ((((x >> 16u64) as u8) as u64) << 16u64)
        | ((((x >> 8u64) as u8) as u64) << 8u64) | ((x as u8) as u64) == x) by (bit_vector);
}

/// Writes `x` big-endian into the four bytes of `mem` that start at `at`.
pub fn write_be_u32(mem: &mut Vec<u8>, at: usize, x: u32)
    requires
        at + 4 <= old(mem).len(),
    ensures
        final(mem)@ == be_u32_written(old(mem)@, at as int, x),
        same_outside(old(mem)@, final(mem)@, at as int, 4),
        be_u32_at(final(mem)@, at as int) == x,
{
    mem[at] = (x >> 24u32) as u8;
    mem[at + 1] = (x >> 16u32) as u8;
    mem[at + 2] = (x >> 8u32) as u8;
    mem[at + 3] = x as u8;
    proof {
        lemma_be_u32_roundtrip(x);
    }
}

/// Reads the big-endian value of the four bytes of `mem` that start at `at`.
pub fn read_be_u32(mem: &Vec<u8>, at: usize) -> (x: u32)
    requires
        at + 4 <= mem.len(),
    ensures
        x == be_u32_at(mem@, at as int),
{
    ((mem[at] as u32) << 24u32) | ((mem[at + 1] as u32) << 16u32) | ((mem[at + 2] as u32) << 8u32)
        | (mem[at + 3] as u32)
}

/// Writes `x` big-endian into the eight bytes of `mem` that start at `at`.
pub fn write_be_u64(mem: &mut Vec<u8>, at: usize, x: u64)
    requires
        at + 8 <= old(mem).len(),
    ensures
        final(mem)@ == be_u64_written(old(mem)@, at as int, x),
        same_outside(old(mem)@, final(mem)@, at as int, 8),
        be_u64_at(final(mem)@, at as int) == x,
{
    mem[at] = (x >> 56u64) as u8;
    mem[at + 1] = (x >> 48u64) as u8;
    mem[at + 2] = (x >> 40u64) as u8;
    mem[at + 3] = (x >> 32u64) as u8;
    mem[at + 4] = (x >> 24u64) as u8;
    mem[at + 5] = (x >> 16u64) as u8;
    mem[at + 6] = (x >> 8u64) as u8;
    mem[at + 7] = x as u8;
    proof {
        lemma_be_u64_roundtrip(x);
    }
}

/// Reads the big-endian value of the eight bytes of `mem` that start at `at`.
pub fn read_be_u64(mem: &Vec<u8>, at: usize) -> (x: u64)
    requires
        at + 8 <= mem.len(),
    ensures
        x == be_u64_at(mem@, at as int),
{
    ((mem[at] as u64) << 56u64) | ((mem[at + 1] as u64) << 48u64) | ((mem[at + 2] as u64) << 40u64)
        | ((mem[at + 3] as u64) << 32u64) | ((mem[at + 4] as u64) << 24u64)
        | ((mem[at + 5] as u64) << 16u64) | ((mem[at + 6] as u64) << 8u64) | (mem[at + 7] as u64)
}

} // verus!

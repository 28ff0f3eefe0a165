use vstd::prelude::*;
use std::collections::HashMap;
use vstd::std_specs::hash::spec_hash_map_iter;
use vstd::std_specs::iter::IteratorSpec;

verus! {

broadcast use vstd::std_specs::hash::group_hash_axioms;

/// A free zone `[start, end)` of the data area.
#[derive(Debug, Clone, Copy)]
pub struct Zone {
    start: u64,
    end: u64,
}

impl Zone {
    /// The zone as the pair (start, end).
    pub closed spec fn pair(self) -> (u64, u64) {
        (self.start, self.end)
    }

    /// Whether the zone is longer than `min_len`: only such zones are handed out.
    fn is_valid(&self, min_len: u64) -> (r: bool)
        requires
            self.start <= self.end,
        ensures
            r == (self.end - self.start > min_len),
    {
        self.end - self.start > min_len
    }

    fn start(&self) -> (r: u64)
        ensures
            r == self.start,
    {
        self.start
    }

    fn len(&self) -> (r: u64)
        requires
            self.start <= self.end,
        ensures
            r == self.end - self.start,
    {
        self.end - self.start
    }
}

/// The length of a zone given as a pair.
pub open spec fn zone_len(z: (u64, u64)) -> int {
    z.1 - z.0
}

/// Whether the zone `z` is recorded free and longer than `min`, given the map from the
/// start of each recorded zone to its end and the map from the end to the start.
pub open spec fn zone_usable(min: u64, by_start: Map<u64, u64>, by_end: Map<u64, u64>, z: (u64, u64)) -> bool {
    &&& zone_len(z) > min
    &&& by_start.contains_key(z.0)
    &&& by_end.contains_key(z.1)
}

/// The two maps describe the same set of zones, each with its start before its end.
pub open spec fn maps_consistent(by_start: Map<u64, u64>, by_end: Map<u64, u64>) -> bool {
    &&& forall|s: u64| #[trigger]
        by_start.contains_key(s) ==> s <= by_start[s] && by_end.contains_key(by_start[s])
            && by_end[by_start[s]] == s
    &&& forall|e: u64| #[trigger]
        by_end.contains_key(e) ==> by_start.contains_key(by_end[e]) && by_start[by_end[e]] == e
}

/// No two recorded zones overlap.
pub open spec fn zones_disjoint(by_start: Map<u64, u64>) -> bool {
    forall|s1: u64, s2: u64|
        #![trigger by_start[s1], by_start[s2]]
        by_start.contains_key(s1) && by_start.contains_key(s2) && s1 != s2 ==> by_start[s1] <= s2
            || by_start[s2] <= s1
}

/// The range `[off, end)` overlaps no recorded zone.
pub open spec fn range_is_free_of(by_start: Map<u64, u64>, off: int, end: int) -> bool {
    forall|s: u64| #[trigger] by_start.contains_key(s) ==> by_start[s] <= off || end <= s
}

/// The zone `z` lies inside the recorded zone that starts at `w`.
spec fn covered_by(by_start: Map<u64, u64>, z: Zone, w: u64) -> bool {
    &&& by_start.contains_key(w)
    &&& w <= z.start
    &&& z.start <= z.end
    &&& z.end <= by_start[w]
}

/// The start of the zone that freeing `[off, ..)` makes: the start of the free zone that
/// ends at `off`, if there is one.
pub open spec fn merged_start(by_end: Map<u64, u64>, off: u64) -> u64 {
    if by_end.contains_key(off) {
        by_end[off]
    } else {
        off
    }
}

/// The end of the zone that freeing `[off, off + len)` makes: the end of the free zone that
/// starts at `off + len`, if there is one.
pub open spec fn merged_end(by_start: Map<u64, u64>, off: u64, len: u64) -> u64 {
    if by_start.contains_key((off + len) as u64) {
        by_start[(off + len) as u64]
    } else {
        (off + len) as u64
    }
}

/// The cover of a list entry after the zones that start at `a` (if `has_a`) and at `b`
/// (if `has_b`) are merged into the zone that starts at `ns`.
spec fn moved_cover(w: u64, has_a: bool, a: u64, has_b: bool, b: u64, ns: u64) -> u64 {
    if (has_a && w == a) || (has_b && w == b) {
        ns
    } else {
        w
    }
}

/// Merging the freed range with its neighbours keeps the maps consistent and the zones
/// disjoint, and every zone that held a list entry is inside a zone of the new maps.
proof fn lemma_insert_maps(sh: Map<u64, u64>, eh: Map<u64, u64>, off: u64, len: u64)
    requires
        maps_consistent(sh, eh),
        zones_disjoint(sh),
        off + len <= u64::MAX,
        range_is_free_of(sh, off as int, off + len),
    ensures
        ({
            let end = (off + len) as u64;
            let ns = merged_start(eh, off);
            let ne = merged_end(sh, off, len);
            let sh2 = sh.remove(end).insert(ns, ne);
            let eh2 = eh.remove(off).insert(ne, ns);
            &&& maps_consistent(sh2, eh2)
            &&& zones_disjoint(sh2)
            &&& ns <= off && end <= ne
            &&& forall|w: u64| #[trigger]
                sh.contains_key(w) ==> {
                    let w2 = moved_cover(w, eh.contains_key(off), eh[off], sh.contains_key(end), end, ns);
                    &&& sh2.contains_key(w2)
                    &&& w2 <= w
                    &&& sh[w] <= sh2[w2]
                }
        }),
{
    let end = (off + len) as u64;
    let ns = merged_start(eh, off);
    let ne = merged_end(sh, off, len);
    let sh2 = sh.remove(end).insert(ns, ne);
    let eh2 = eh.remove(off).insert(ne, ns);
    let has_a = eh.contains_key(off);
    let has_b = sh.contains_key(end);
    if has_a {
        assert(sh.contains_key(eh[off]) && sh[eh[off]] == off);
    }
    if has_b {
        assert(eh.contains_key(sh[end]) && eh[sh[end]] == end);
    }
    // a zone other than the merged ones keeps its start and end, and lies outside the new zone
    assert forall|w: u64| #[trigger]
        sh.contains_key(w) && !(has_a && w == eh[off]) && !(has_b && w == end) implies w != ns
        && w != end && sh[w] != off && sh[w] != ne && (sh[w] <= ns || ne <= w) by {
        assert(eh.contains_key(sh[w]) && eh[sh[w]] == w);
        if has_a {
            assert(sh[w] <= eh[off] || sh[eh[off]] <= w);
        }
        if has_b {
            assert(sh[w] <= end || sh[end] <= w);
        }
    }
    assert forall|s: u64| #[trigger] sh2.contains_key(s) implies s <= sh2[s] && eh2.contains_key(
        sh2[s],
    ) && eh2[sh2[s]] == s by {
        if s != ns {
            assert(sh.contains_key(s));
            assert(eh.contains_key(sh[s]) && eh[sh[s]] == s);
        }
    }
    assert forall|e: u64| #[trigger] eh2.contains_key(e) implies sh2.contains_key(eh2[e])
        && sh2[eh2[e]] == e by {
        if e != ne {
            assert(eh.contains_key(e));
            assert(sh.contains_key(eh[e]) && sh[eh[e]] == e);
            assert(sh.contains_key(eh[e]));
        }
    }
    assert forall|s1: u64, s2: u64|
        #![trigger sh2[s1], sh2[s2]]
        sh2.contains_key(s1) && sh2.contains_key(s2) && s1 != s2 implies sh2[s1] <= s2 || sh2[s2]
        <= s1 by {
        if s1 != ns && s2 != ns {
            assert(sh.contains_key(s1) && sh.contains_key(s2));
            assert(sh[s1] <= s2 || sh[s2] <= s1);
        } else if s1 == ns {
            assert(sh.contains_key(s2));
        } else {
            assert(sh.contains_key(s1));
        }
    }
}

/// Index `i` holds the first of the largest usable zones of `order`.
pub open spec fn first_max(min: u64, order: Seq<(u64, u64)>, by_start: Map<u64, u64>, by_end: Map<u64, u64>, i: int) -> bool {
    &&& 0 <= i < order.len()
    &&& zone_usable(min, by_start, by_end, order[i])
    &&& forall|j: int|
        0 <= j < order.len() && zone_usable(min, by_start, by_end, #[trigger] order[j]) ==> zone_len(order[j])
            <= zone_len(order[i])
    &&& forall|j: int|
        0 <= j < i && zone_usable(min, by_start, by_end, #[trigger] order[j]) ==> zone_len(order[j])
            < zone_len(order[i])
}

/// A list entry that is usable is the recorded zone that covers it: either it lies inside a
/// recorded zone, or inside `[rs, re)`, a range that no recorded zone overlaps and at which
/// no recorded zone starts.
proof fn lemma_usable_entry(
    min: u64,
    sh: Map<u64, u64>,
    eh: Map<u64, u64>,
    z: Zone,
    w: u64,
    removed: bool,
    rs: u64,
    re: u64,
)
    requires
        maps_consistent(sh, eh),
        zones_disjoint(sh),
        removed ==> range_is_free_of(sh, rs as int, re as int) && !sh.contains_key(rs),
        covered_by(sh, z, w) || (removed && rs <= z.start && z.start <= z.end && z.end <= re),
        zone_usable(min, sh, eh, z.pair()),
    ensures
        sh.contains_key(z.start),
        sh[z.start] == z.end,
{
    assert(sh.contains_key(z.start));
    assert(eh.contains_key(z.end));
    assert(sh.contains_key(eh[z.end]) && sh[eh[z.end]] == z.end);
    if covered_by(sh, z, w) {
        if z.start != w {
            assert(sh[w] <= z.start || sh[z.start] <= w);
        }
        if z.end != sh[w] {
            let x = eh[z.end];
            assert(sh[x] <= w || sh[w] <= x);
        }
    } else {
        assert(sh[z.start] <= rs || re <= z.start);
    }
}

/// `new` is `old` after `[off, off + len)` is freed: merged with the free zone that ends at
/// `off` and the free zone that starts at `off + len`, and appended to the list.
pub open spec fn inserted(old: FreeList, new: FreeList, off: u64, len: u64) -> bool {
    let ns = merged_start(old.by_end(), off);
    let ne = merged_end(old.by_start(), off, len);
    &&& new.min_len() == old.min_len()
    &&& new.by_start() == old.by_start().remove((off + len) as u64).insert(ns, ne)
    &&& new.by_end() == old.by_end().remove(off).insert(ne, ns)
    &&& new.order() == old.order().push((ns, ne))
}

/// `new` is `old` after its largest usable zone is taken out: the first of the largest in
/// the list order. `r` is the start and length of that zone, or `None` when no recorded zone
/// is usable; the list keeps only the zones that are still usable.
pub open spec fn largest_taken(old: FreeList, new: FreeList, r: Option<(u64, u64)>) -> bool {
    &&& new.min_len() == old.min_len()
    &&& match r {
        Some(p) => {
            &&& exists|i: int|
                first_max(old.min_len(), old.order(), old.by_start(), old.by_end(), i)
                    && old.order()[i] == (p.0, (p.0 + p.1) as u64)
            &&& p.1 > old.min_len()
            &&& p.0 + p.1 <= u64::MAX
            &&& old.by_start().contains_key(p.0)
            &&& old.by_start()[p.0] == p.0 + p.1
            &&& forall|s: u64| #[trigger]
                old.by_start().contains_key(s) && old.by_start()[s] - s
                    > old.min_len() ==> old.by_start()[s] - s <= p.1
            &&& new.by_start() == old.by_start().remove(p.0)
            &&& new.by_end() == old.by_end().remove((p.0 + p.1) as u64)
        },
        None => {
            &&& forall|s: u64| #[trigger]
                old.by_start().contains_key(s) ==> old.by_start()[s] - s
                    <= old.min_len()
            &&& new.by_start() == old.by_start()
            &&& new.by_end() == old.by_end()
        },
    }
    &&& new.order() == old.order().filter(
        |z: (u64, u64)| zone_usable(new.min_len(), new.by_start(), new.by_end(), z),
    )
}

/// A free list: free zones found by their start and by their end, so that a freed zone is
/// merged with the free zones right before and right after it, and a list of zones in which
/// the largest zone is searched.
pub struct FreeList {
    // the list store the start and the end
    free_list: Vec<Zone>,
    start_hash: HashMap<u64, u64>,
    end_hash: HashMap<u64, u64>,
    // zones not longer than this are kept for merging but never handed out
    min_len: u64,
    // for each zone of the list, the start of the recorded zone that holds it
    cover: Ghost<Seq<u64>>,
}

impl FreeList {
    /// The recorded free zones: start to end.
    pub closed spec fn by_start(&self) -> Map<u64, u64> {
        self.start_hash@
    }

    /// The recorded free zones: end to start.
    pub closed spec fn by_end(&self) -> Map<u64, u64> {
        self.end_hash@
    }

    /// Zones not longer than this are never handed out.
    pub closed spec fn min_len(&self) -> u64 {
        self.min_len
    }

    /// The zones of the list, in the order in which they are searched.
    pub closed spec fn order(&self) -> Seq<(u64, u64)> {
        self.free_list@.map_values(|z: Zone| z.pair())
    }

    /// Whether `z` is recorded free and larger than a head.
    pub open spec fn usable(&self, z: (u64, u64)) -> bool {
        zone_usable(self.min_len(), self.by_start(), self.by_end(), z)
    }

    /// The free list is well formed.
    pub closed spec fn wf(&self) -> bool {
        &&& maps_consistent(self.start_hash@, self.end_hash@)
        &&& zones_disjoint(self.start_hash@)
        &&& self.cover@.len() == self.free_list@.len()
        &&& forall|i: int|
            0 <= i < self.free_list@.len() ==> #[trigger] covered_by(
                self.start_hash@,
                self.free_list@[i],
                self.cover@[i],
            )
        &&& forall|s: u64| #[trigger]
            self.start_hash@.contains_key(s) && self.start_hash@[s] - s > self.min_len
                ==> self.free_list@.contains(Zone { start: s, end: self.start_hash@[s] })
    }

    /// The properties of a well formed free list that its users rely on.
    pub proof fn lemma_wf(&self)
        requires
            self.wf(),
        ensures
            maps_consistent(self.by_start(), self.by_end()),
            zones_disjoint(self.by_start()),
    {
    }

    /// Records `[off, off + len)` as free, merged with the free zone that ends at `off` and the
    /// free zone that starts at `off + len`, and appends the merged zone to the list.
    #[verifier::rlimit(40)]
    pub fn insert(&mut self, off: u64, len: u64)
        requires
            old(self).wf(),
            off + len <= u64::MAX,
            range_is_free_of(old(self).by_start(), off as int, off + len),
        ensures
            final(self).wf(),
            inserted(*old(self), *final(self), off, len),
    {
        let ghost sh = self.start_hash@;
        let ghost eh = self.end_hash@;
        let ghost old_list = self.free_list@;
        let ghost old_cover = self.cover@;
        proof {
            lemma_insert_maps(sh, eh, off, len);
        }
        let mut start = off;
        let mut end = off + len;
        if let Some(v) = self.end_hash.remove(&start) {
            // |old_start .. old_end|start .. end| => |old_start .. end|
            start = v;
        }
        if let Some(v) = self.start_hash.remove(&end) {
            // |start .. end|old_start .. old_end| => |start .. end|
            end = v;
        }
        self.free_list.push(Zone { start, end });
        self.start_hash.insert(start, end);
        self.end_hash.insert(end, start);
        let ghost has_a = eh.contains_key(off);
        let ghost has_b = sh.contains_key((off + len) as u64);
        let ghost a = eh[off];
        let ghost b = (off + len) as u64;
        self.cover = Ghost(
            Seq::new(
                old_cover.len(),
                |i: int| moved_cover(old_cover[i], has_a, a, has_b, b, start),
            ).push(start),
        );
        proof {
            let sh2 = self.start_hash@;
            assert(sh2 == sh.remove(b).insert(start, end));
            assert(self.end_hash@ == eh.remove(off).insert(end, start));
            assert forall|i: int| 0 <= i < self.free_list@.len() implies #[trigger] covered_by(
                sh2,
                self.free_list@[i],
                self.cover@[i],
            ) by {
                if i < old_list.len() {
                    assert(covered_by(sh, old_list[i], old_cover[i]));
                    assert(sh.contains_key(old_cover[i]));
                }
            }
            assert forall|s: u64| #[trigger]
                sh2.contains_key(s) && sh2[s] - s > self.min_len implies self.free_list@.contains(
                Zone { start: s, end: sh2[s] },
            ) by {
                let last = self.free_list@.len() - 1;
                if s == start {
                    assert(self.free_list@[last] == Zone { start: s, end: sh2[s] });
                } else {
                    assert(sh.contains_key(s) && sh[s] == sh2[s]);
                    assert(old_list.contains(Zone { start: s, end: sh2[s] }));
                    let k = choose|k: int|
                        0 <= k < old_list.len() && old_list[k] == Zone { start: s, end: sh2[s] };
                    assert(self.free_list@[k] == old_list[k]);
                }
            }
            assert(self.order() =~= old(self).order().push((start, end)));
        }
    }

    /// Whether the zone is usable: larger than a head and still recorded free.
    fn is_valid(&self, zone: &Zone) -> (r: bool)
        requires
            zone.start <= zone.end,
        ensures
            r == zone_usable(self.min_len, self.start_hash@, self.end_hash@, zone.pair()),
    {
        zone.is_valid(self.min_len) && self.start_hash.contains_key(&zone.start) && self.end_hash.contains_key(
            &zone.end,
        )
    }

    /// Keeps in the list only the zones that are usable.
    fn clear(&mut self, Ghost(removed): Ghost<bool>, Ghost(rs): Ghost<u64>, Ghost(re): Ghost<u64>)
        requires
            maps_consistent(old(self).start_hash@, old(self).end_hash@),
            zones_disjoint(old(self).start_hash@),
            removed ==> range_is_free_of(old(self).start_hash@, rs as int, re as int)
                && !old(self).start_hash@.contains_key(rs),
            old(self).cover@.len() == old(self).free_list@.len(),
            forall|i: int|
                0 <= i < old(self).free_list@.len() ==> covered_by(
                    old(self).start_hash@,
                    #[trigger] old(self).free_list@[i],
                    old(self).cover@[i],
                ) || (removed && rs <= old(self).free_list@[i].start && old(self).free_list@[i].start
                    <= old(self).free_list@[i].end && old(self).free_list@[i].end <= re),
            forall|s: u64| #[trigger]
                old(self).start_hash@.contains_key(s) && old(self).start_hash@[s] - s > old(self).min_len
                    ==> old(self).free_list@.contains(Zone { start: s, end: old(self).start_hash@[s] }),
        ensures
            final(self).wf(),
            final(self).min_len == old(self).min_len,
            final(self).start_hash@ == old(self).start_hash@,
            final(self).end_hash@ == old(self).end_hash@,
            final(self).order() == old(self).order().filter(
                |z: (u64, u64)| zone_usable(old(self).min_len, old(self).start_hash@, old(self).end_hash@, z),
            ),
    {
        let ghost sh = self.start_hash@;
        let ghost eh = self.end_hash@;
        let ghost pred = |z: (u64, u64)| zone_usable(self.min_len, sh, eh, z);
        let ghost old_order = self.order();
        let mut new_free_list: Vec<Zone> = Vec::new();
        let mut i: usize = 0;
        let n = self.free_list.len();
        while i < n
            invariant
                n == self.free_list@.len(),
                i <= n,
                self.start_hash@ == sh,
                self.end_hash@ == eh,
                pred == (|z: (u64, u64)| zone_usable(self.min_len, sh, eh, z)),
                old_order == self.order(),
                maps_consistent(sh, eh),
                zones_disjoint(sh),
                removed ==> range_is_free_of(sh, rs as int, re as int) && !sh.contains_key(rs),
                self.cover@.len() == n,
                forall|k: int|
                    0 <= k < n ==> covered_by(sh, #[trigger] self.free_list@[k], self.cover@[k]) || (
                    removed && rs <= self.free_list@[k].start && self.free_list@[k].start
                        <= self.free_list@[k].end && self.free_list@[k].end <= re),
                new_free_list@.map_values(|z: Zone| z.pair()) == old_order.take(i as int).filter(
                    pred,
                ),
                forall|k: int|
                    0 <= k < new_free_list@.len() ==> #[trigger] new_free_list@[k].start
                        == new_free_list@[k].start && sh.contains_key(new_free_list@[k].start)
                        && sh[new_free_list@[k].start] == new_free_list@[k].end,
                forall|k: int|
                    0 <= k < i && zone_usable(self.min_len, sh, eh, #[trigger] self.free_list@[k].pair())
                        ==> new_free_list@.contains(self.free_list@[k]),
            decreases n - i,
        {
            let zone = self.free_list[i];
            proof {
                assert(covered_by(sh, self.free_list@[i as int], self.cover@[i as int]) || (removed
                    && rs <= zone.start && zone.start <= zone.end && zone.end <= re));
            }
            let ghost before = new_free_list@;
            let usable = self.is_valid(&zone);
            if usable {
                proof {
                    lemma_usable_entry(self.min_len, sh, eh, zone, self.cover@[i as int], removed, rs, re);
                }
                new_free_list.push(zone);
            }
            proof {
                assert(old_order.take(i + 1) =~= old_order.take(i as int).push(old_order[i as int]));
                old_order.take(i as int).lemma_filter_push(old_order[i as int], pred);
                assert(old_order[i as int] == zone.pair());
                assert(usable == zone_usable(self.min_len, sh, eh, zone.pair()));
                assert(usable == pred(zone.pair()));
                if usable {
                    assert(new_free_list@ =~= before.push(zone));
                    assert(new_free_list@.map_values(|z: Zone| z.pair()) =~= before.map_values(
                        |z: Zone| z.pair(),
                    ).push(zone.pair()));
                    assert(new_free_list@[new_free_list@.len() - 1] == zone);
                }
                assert forall|k: int|
                    0 <= k < i + 1 && zone_usable(self.min_len, sh, eh, #[trigger] self.free_list@[k].pair())
                        implies new_free_list@.contains(self.free_list@[k]) by {
                    if k < i {
                        let m = choose|m: int|
                            0 <= m < before.len() && before[m] == self.free_list@[k];
                        assert(new_free_list@[m] == before[m]);
                    } else {
                        assert(new_free_list@[new_free_list@.len() - 1] == zone);
                    }
                }
            }
            i = i + 1;
        }
        self.free_list = new_free_list;
        self.cover = Ghost(self.free_list@.map_values(|z: Zone| z.start));
        proof {
            assert(old_order.take(n as int) =~= old_order);
            assert forall|s: u64| #[trigger]
                sh.contains_key(s) && sh[s] - s > self.min_len implies self.free_list@.contains(
                Zone { start: s, end: sh[s] },
            ) by {
                assert(old(self).free_list@.contains(Zone { start: s, end: sh[s] }));
                let k = choose|k: int|
                    0 <= k < n && old(self).free_list@[k] == Zone { start: s, end: sh[s] };
                assert(eh.contains_key(sh[s]));
                assert(zone_usable(self.min_len, sh, eh, old(self).free_list@[k].pair()));
            }
            assert forall|k: int| 0 <= k < self.free_list@.len() implies #[trigger] covered_by(
                sh,
                self.free_list@[k],
                self.cover@[k],
            ) by {
                assert(sh.contains_key(self.free_list@[k].start));
                assert(self.free_list@[k].start <= sh[self.free_list@[k].start]);
            }
        }
    }

    /// Takes out the largest usable zone: the first of the largest in the list. Returns its
    /// start and length, and drops from the list every zone that is no longer usable.
    pub fn get(&mut self) -> (r: Option<(u64, u64)>)
        requires
            old(self).wf(),
        ensures
            final(self).wf(),
            largest_taken(*old(self), *final(self), r),
    {
        // the largest zone that is longer than the least length, first in list order
        // find the block larger than head
        let ghost order = self.order();
        let ghost sh = self.start_hash@;
        let ghost eh = self.end_hash@;
        let mut max_zone: Option<usize> = None;
        let n = self.free_list.len();
        let mut i: usize = 0;
        while i < n
            invariant
                n == self.free_list@.len(),
                i <= n,
                self.wf(),
                order == self.order(),
                sh == self.start_hash@,
                eh == self.end_hash@,
                match max_zone {
                    None => forall|j: int|
                        0 <= j < i ==> !zone_usable(self.min_len, sh, eh, #[trigger] order[j]),
                    Some(b) => {
                        &&& b < i
                        &&& zone_usable(self.min_len, sh, eh, order[b as int])
                        &&& forall|j: int|
                            0 <= j < i && zone_usable(self.min_len, sh, eh, #[trigger] order[j]) ==> zone_len(
                                order[j],
                            ) <= zone_len(order[b as int])
                        &&& forall|j: int|
                            0 <= j < b && zone_usable(self.min_len, sh, eh, #[trigger] order[j]) ==> zone_len(
                                order[j],
                            ) < zone_len(order[b as int])
                    },
                },
            decreases n - i,
        {
            let zone = self.free_list[i];
            proof {
                assert(covered_by(sh, self.free_list@[i as int], self.cover@[i as int]));
                assert(order[i as int] == zone.pair());
            }
            if self.is_valid(&zone) {
                match max_zone {
                    Some(b) => {
                        let best = self.free_list[b];
                        proof {
                            assert(covered_by(sh, self.free_list@[b as int], self.cover@[b as int]));
                            assert(order[b as int] == best.pair());
                        }
                        if zone.len() > best.len() {
                            max_zone = Some(i);
                        }
                    },
                    None => {
                        max_zone = Some(i);
                    },
                }
            }
            i = i + 1;
        }
        let mut ret = None;
        let ghost mut removed = false;
        let ghost mut rs: u64 = 0;
        let ghost mut re: u64 = 0;
        match max_zone {
            Some(b) => {
                let zone = self.free_list[b];
                proof {
                    assert(covered_by(sh, self.free_list@[b as int], self.cover@[b as int]));
                    assert(order[b as int] == zone.pair());
                    lemma_usable_entry(self.min_len, sh, eh, zone, self.cover@[b as int], false, 0, 0);
                    assert(first_max(self.min_len, order, sh, eh, b as int));
                    removed = true;
                    rs = zone.start;
                    re = zone.end;
                    assert forall|s: u64| #[trigger]
                        sh.contains_key(s) && sh[s] - s > self.min_len implies sh[s] - s <= zone.end
                        - zone.start by {
                        assert(self.free_list@.contains(Zone { start: s, end: sh[s] }));
                        let k = choose|k: int|
                            0 <= k < n && self.free_list@[k] == Zone { start: s, end: sh[s] };
                        assert(order[k] == (s, sh[s]));
                        assert(eh.contains_key(sh[s]));
                        assert(zone_usable(self.min_len, sh, eh, order[k]));
                    }
                }
                ret = Some((zone.start(), zone.len()));
                self.start_hash.remove(&zone.start);
                self.end_hash.remove(&zone.end);
                proof {
                    assert(eh.contains_key(zone.end) && eh[zone.end] == zone.start);
                    let sh2 = self.start_hash@;
                    let eh2 = self.end_hash@;
                    assert(maps_consistent(sh2, eh2)) by {
                        assert forall|s: u64| #[trigger] sh2.contains_key(s) implies s <= sh2[s]
                            && eh2.contains_key(sh2[s]) && eh2[sh2[s]] == s by {
                            assert(sh.contains_key(s));
                            assert(eh.contains_key(sh[s]));
                        }
                        assert forall|e: u64| #[trigger] eh2.contains_key(e) implies sh2.contains_key(
                            eh2[e],
                        ) && sh2[eh2[e]] == e by {
                            assert(eh.contains_key(e));
                            assert(sh.contains_key(eh[e]));
                        }
                    }
                    assert forall|s: u64| #[trigger] sh2.contains_key(s) implies sh2[s] <= rs || re
                        <= s by {
                        assert(sh[s] <= zone.start || sh[zone.start] <= s);
                    }
                    assert forall|k: int|
                        0 <= k < self.free_list@.len() implies covered_by(
                        sh2,
                        #[trigger] self.free_list@[k],
                        self.cover@[k],
                    ) || (removed && rs <= self.free_list@[k].start && self.free_list@[k].start
                        <= self.free_list@[k].end && self.free_list@[k].end <= re) by {
                        assert(covered_by(sh, self.free_list@[k], self.cover@[k]));
                    }
                }
            },
            None => {
                proof {
                    assert forall|s: u64| #[trigger] sh.contains_key(s) implies sh[s] - s
                        <= self.min_len by {
                        if sh[s] - s > self.min_len {
                            assert(self.free_list@.contains(Zone { start: s, end: sh[s] }));
                            let k = choose|k: int|
                                0 <= k < n && self.free_list@[k] == Zone { start: s, end: sh[s] };
                            assert(order[k] == (s, sh[s]));
                            assert(eh.contains_key(sh[s]));
                        }
                    }
                }
            },
        }
        self.clear(Ghost(removed), Ghost(rs), Ghost(re));
        ret
    }

    /// Whether `[off, end)` overlaps no recorded zone.
    pub fn is_free_of(&self, off: u64, end: u64) -> (r: bool)
        ensures
            r == range_is_free_of(self.by_start(), off as int, end as int),
    {
        let ghost m = self.start_hash@;
        let ghost v = spec_hash_map_iter(&self.start_hash).remaining();
        for (s, e) in it: self.start_hash.iter()
            invariant
                m == self.start_hash@,
                it.seq() == v,
                v == spec_hash_map_iter(&self.start_hash).remaining(),
                forall|k: int| 0 <= k < it.index() ==> *(#[trigger] v[k]).1 <= off || end <= *v[k].0,
        {
            if !(*e <= off || end <= *s) {
                proof {
                    let i = it.index() as int;
                    assert((s, e) == v[i]);
                    assert(self.start_hash@.contains_key(*v[i].0));
                    assert(self.start_hash@[*v[i].0] == *v[i].1);
                }
                return false;
            }
        }
        proof {
            assert forall|k: u64| #[trigger] m.contains_key(k) implies m[k] <= off || end <= k by {
                assert(v.contains((&k, &m[k])));
                let j = choose|j: int| 0 <= j < v.len() && v[j] == (&k, &m[k]);
                assert(*v[j].1 <= off || end <= *v[j].0);
            }
        }
        true
    }

    /// An empty free list that hands out every non-empty zone.
    pub fn new() -> (fl: FreeList)
        ensures
            fl.wf(),
            fl.min_len() == 0,
            fl.by_start() == Map::<u64, u64>::empty(),
            fl.by_end() == Map::<u64, u64>::empty(),
            fl.order() == Seq::<(u64, u64)>::empty(),
    {
        FreeList::with_min_len(0)
    }

    /// An empty free list that hands out only zones longer than `min_len`.
    pub fn with_min_len(min_len: u64) -> (fl: FreeList)
        ensures
            fl.wf(),
            fl.min_len() == min_len,
            fl.by_start() == Map::<u64, u64>::empty(),
            fl.by_end() == Map::<u64, u64>::empty(),
            fl.order() == Seq::<(u64, u64)>::empty(),
    {
        let fl = FreeList {
            free_list: Vec::new(),
            start_hash: HashMap::new(),
            end_hash: HashMap::new(),
            min_len,
            cover: Ghost(Seq::empty()),
        };
        proof {
            assert(fl.order() =~= Seq::<(u64, u64)>::empty());
        }
        fl
    }
}


/// Taking a zone and giving it back, when no free zone ends where it starts or starts where
/// it ends, restores the free zones exactly: freeing gives back the very zone taken.
pub proof fn lemma_take_give_back(fl0: FreeList, fl1: FreeList, fl2: FreeList, off: u64, len: u64)
    requires
        fl0.wf(),
        largest_taken(fl0, fl1, Some((off, len))),
        inserted(fl1, fl2, off, len),
        !fl0.by_end().contains_key(off),
        !fl0.by_start().contains_key((off + len) as u64),
    ensures
        fl2.by_start() == fl0.by_start(),
        fl2.by_end() == fl0.by_end(),
{
    fl0.lemma_wf();
    let e = (off + len) as u64;
    assert(fl0.by_end().contains_key(e) && fl0.by_end()[e] == off);
    assert(merged_start(fl1.by_end(), off) == off);
    assert(merged_end(fl1.by_start(), off, len) == e);
    assert(fl2.by_start() =~= fl0.by_start());
    assert(fl2.by_end() =~= fl0.by_end());
}

} // verus!

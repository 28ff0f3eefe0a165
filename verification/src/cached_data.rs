use vstd::prelude::*;
use std::collections::HashMap;
use vstd::hash_map::StringHashMap;

verus! {

broadcast use vstd::std_specs::hash::group_hash_axioms;

/// Which data is cached under which head, both ways.
pub struct CachedData {
    data2head: StringHashMap<usize>,
    head2data: HashMap<usize, String>,
}

impl CachedData {
    /// From the key of each cached data to its head.
    pub closed spec fn by_data(&self) -> Map<Seq<char>, usize> {
        self.data2head@
    }

    /// From each head to the key of the data cached under it.
    pub closed spec fn by_head(&self) -> Map<usize, Seq<char>> {
        self.head2data@.map_values(|s: String| s@)
    }

    /// Nothing is cached.
    pub fn new() -> (c: CachedData)
        ensures
            c.by_data() == Map::<Seq<char>, usize>::empty(),
            c.by_head() == Map::<usize, Seq<char>>::empty(),
    {
        let c = CachedData { data2head: StringHashMap::new(), head2data: HashMap::new() };
        proof {
            assert(c.by_head() =~= Map::<usize, Seq<char>>::empty());
        }
        c
    }

    /// Records that `data` is cached under `head`.
    pub fn add(&mut self, head: usize, data: &str)
        ensures
            final(self).by_data() == old(self).by_data().insert(data@, head),
            final(self).by_head() == old(self).by_head().insert(head, data@),
    {
        self.data2head.insert(data.to_owned(), head);
        self.head2data.insert(head, data.to_owned());
        proof {
            assert(self.by_head() =~= old(self).by_head().insert(head, data@));
        }
    }

    /// Forgets the data cached under `head`.
    pub fn remove(&mut self, head: usize)
        requires
            old(self).by_head().contains_key(head),
            old(self).by_data().contains_key(old(self).by_head()[head]),
        ensures
            final(self).by_head() == old(self).by_head().remove(head),
            final(self).by_data() == old(self).by_data().remove(old(self).by_head()[head]),
    {
        let data = self.head2data.remove(&head);
        match data {
            Some(data) => {
                self.data2head.remove(data.as_str());
                proof {
                    assert(self.by_head() =~= old(self).by_head().remove(head));
                }
            },
            None => {},
        }
    }

    /// The head under which `data` is cached, if it is.
    pub fn contains(&self, data: &str) -> (r: Option<usize>)
        ensures
            r == (if self.by_data().contains_key(data@) {
                Some(self.by_data()[data@])
            } else {
                None
            }),
    {
        match self.data2head.get(data) {
            Some(h) => Some(*h),
            None => None,
        }
    }
}

/// The positions of `keys` whose data is cached, each with its head, in order.
pub open spec fn hits_of(by_data: Map<Seq<char>, usize>, keys: Seq<Seq<char>>) -> Seq<(usize, usize)>
    decreases keys.len(),
{
    if keys.len() == 0 {
        Seq::empty()
    } else {
        let prev = hits_of(by_data, keys.drop_last());
        if by_data.contains_key(keys.last()) {
            prev.push(((keys.len() - 1) as usize, by_data[keys.last()]))
        } else {
            prev
        }
    }
}

/// The positions of `keys` whose data is not cached, in order.
pub open spec fn misses_of(by_data: Map<Seq<char>, usize>, keys: Seq<Seq<char>>) -> Seq<usize>
    decreases keys.len(),
{
    if keys.len() == 0 {
        Seq::empty()
    } else {
        let prev = misses_of(by_data, keys.drop_last());
        if by_data.contains_key(keys.last()) {
            prev
        } else {
            prev.push((keys.len() - 1) as usize)
        }
    }
}

/// The keys of a batch, as text.
pub open spec fn key_views(keys: Seq<String>) -> Seq<Seq<char>> {
    keys.map_values(|k: String| k@)
}

/// Splits a batch of data keys into the cache hits, each position with the head its data is
/// cached under, and the misses, which have to be read; both in the batch's order.
pub fn split_hits(cached: &CachedData, keys: &Vec<String>) -> (r: (Vec<(usize, usize)>, Vec<usize>))
    ensures
        r.0@ == hits_of(cached.by_data(), key_views(keys@)),
        r.1@ == misses_of(cached.by_data(), key_views(keys@)),
{
    let mut hits: Vec<(usize, usize)> = Vec::new();
    let mut misses: Vec<usize> = Vec::new();
    let mut i: usize = 0;
    while i < keys.len()
        invariant
            i <= keys@.len(),
            hits@ == hits_of(cached.by_data(), key_views(keys@).subrange(0, i as int)),
            misses@ == misses_of(cached.by_data(), key_views(keys@).subrange(0, i as int)),
        decreases keys@.len() - i,
    {
        let ghost ks = key_views(keys@);
        proof {
            assert(ks.subrange(0, i + 1).drop_last() =~= ks.subrange(0, i as int));
            assert(ks.subrange(0, i + 1).last() == keys@[i as int]@);
        }
        match cached.contains(keys[i].as_str()) {
            Some(head) => {
                hits.push((i, head));
            },
            None => {
                misses.push(i);
            },
        }
        i = i + 1;
    }
    proof {
        assert(key_views(keys@).subrange(0, keys@.len() as int) =~= key_views(keys@));
    }
    (hits, misses)
}

} // verus!

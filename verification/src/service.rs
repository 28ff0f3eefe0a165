use vstd::prelude::*;
use vstd::hash_map::StringHashMap;

verus! {

/// The status code of a request that succeeded.
pub const CODE_OK: i32 = 0;

/// The status code of a request that failed.
pub const CODE_ERR: i32 = 1;

/// The status code of a request that names something unknown, as gRPC numbers it.
pub const CODE_NOT_FOUND: i32 = 5;

/// The status of a request: its code and a message.
#[derive(Debug, Clone, PartialEq)]
pub struct Status {
    pub code: i32,
    pub msg: String,
}

/// The status of a result: the error's message, or success.
pub fn to_status<T>(result: &Result<T, String>) -> (s: Status)
    ensures
        match result {
            Err(msg) => s.code == CODE_ERR && s.msg@ == msg@,
            Ok(_) => s.code == CODE_OK && s.msg@ == "Success"@,
        },
{
    match result {
        Err(msg) => Status { code: CODE_ERR, msg: msg.clone() },
        Ok(_) => succ(),
    }
}

/// The status of a result that carries nothing on success: the error's message, or the
/// short success message `"succ"`.
pub fn to_result_status(result: Result<(), String>) -> (s: Status)
    ensures
        match result {
            Err(msg) => s.code == CODE_ERR && s.msg@ == msg@,
            Ok(_) => s.code == CODE_OK && s.msg@ == "succ"@,
        },
{
    match result {
        Err(msg) => Status { code: CODE_ERR, msg },
        Ok(_) => Status { code: CODE_OK, msg: "succ".to_owned() },
    }
}

/// The status of success.
pub fn succ() -> (s: Status)
    ensures
        s.code == CODE_OK,
        s.msg@ == "Success"@,
{
    Status { code: CODE_OK, msg: "Success".to_owned() }
}

/// The loader id that the dataset id `dataset_id` and the count `id` make: the dataset id
/// in the high 32 bits, the count in the low 32 bits.
pub open spec fn loader_id_of(dataset_id: u32, id: u32) -> u64 {
    (dataset_id * 0x1_0000_0000 + id) as u64
}

/// The dataset id held in the high 32 bits of a loader id.
pub open spec fn dataset_of(loader_id: u64) -> u32 {
    (loader_id / 0x1_0000_0000) as u32
}

/// The dataset id can be read back from every loader id made from it.
pub proof fn lemma_dataset_of_loader_id(dataset_id: u32, id: u32)
    ensures
        dataset_of(loader_id_of(dataset_id, id)) == dataset_id,
        loader_id_of(dataset_id, id) == dataset_id * 0x1_0000_0000 + id,
{
    assert(dataset_id * 0x1_0000_0000 + id <= u64::MAX) by (nonlinear_arith)
        requires
            dataset_id <= u32::MAX,
            id <= u32::MAX,
    ;
    assert((dataset_id * 0x1_0000_0000 + id) / 0x1_0000_0000 == dataset_id) by (nonlinear_arith)
        requires
            0 <= id < 0x1_0000_0000,
            0 <= dataset_id,
    ;
}

/// The dataset id held in the high 32 bits of a loader id.
pub fn parse_dataset_id(loader_id: u64) -> (r: u32)
    ensures
        r == dataset_of(loader_id),
{
    proof {
        assert(loader_id >> 32u64 == loader_id / 0x1_0000_0000) by (bit_vector);
        assert(loader_id / 0x1_0000_0000 <= u32::MAX) by (nonlinear_arith)
            requires
                loader_id <= u64::MAX,
        ;
    }
    (loader_id >> 32u64) as u32
}

/// The counters from which the ids of datasets, loaders and hosts are made.
#[derive(Debug, Clone)]
pub struct GlobalID {
    dataset_id: u32,
    loader_id: u32,
    host_id: u32,
}

impl GlobalID {
    /// The last dataset id, loader count and host id handed out.
    pub closed spec fn counters(&self) -> (u32, u32, u32) {
        (self.dataset_id, self.loader_id, self.host_id)
    }

    /// The next dataset id.
    pub fn get_dataset_id(&mut self) -> (r: u32)
        requires
            old(self).counters().0 < u32::MAX,
        ensures
            r == old(self).counters().0 + 1,
            final(self).counters() == (r, old(self).counters().1, old(self).counters().2),
    {
        self.dataset_id = self.dataset_id + 1;
        self.dataset_id
    }

    /// The next loader id of the dataset `dataset_id`.
    pub fn get_loader_id(&mut self, dataset_id: u32) -> (r: u64)
        requires
            old(self).counters().1 < u32::MAX,
        ensures
            r == loader_id_of(dataset_id, (old(self).counters().1 + 1) as u32),
            final(self).counters() == (
                old(self).counters().0,
                (old(self).counters().1 + 1) as u32,
                old(self).counters().2,
            ),
    {
        self.loader_id = self.loader_id + 1;
        let id = self.loader_id;
        proof {
            lemma_dataset_of_loader_id(dataset_id, id);
            assert((dataset_id as u64) << 32u64 == (dataset_id as u64) * 0x1_0000_0000u64) by (bit_vector)
                requires
                    dataset_id <= u32::MAX,
            ;
        }
        ((dataset_id as u64) << 32u64) + id as u64
    }

    /// The next host id.
    pub fn get_host_id(&mut self) -> (r: u32)
        requires
            old(self).counters().2 < u32::MAX,
        ensures
            r == old(self).counters().2 + 1,
            final(self).counters() == (old(self).counters().0, old(self).counters().1, r),
    {
        self.host_id = self.host_id + 1;
        self.host_id
    }

    /// No id handed out yet.
    pub fn new() -> (g: GlobalID)
        ensures
            g.counters() == (0u32, 0u32, 0u32),
    {
        GlobalID { dataset_id: 0, loader_id: 0, host_id: 0 }
    }

    /// The dataset id held in the high 32 bits of a loader id.
    pub fn parse_dataset_id(loader_id: u64) -> (r: u32)
        ensures
            r == dataset_of(loader_id),
    {
        parse_dataset_id(loader_id)
    }
}

/// A table from names to ids.
#[verifier::reject_recursive_types(V)]
pub struct NameTable<V> {
    ids: StringHashMap<V>,
}

impl<V: Copy> NameTable<V> {
    /// The ids, by name.
    pub closed spec fn entries(&self) -> Map<Seq<char>, V> {
        self.ids@
    }

    /// An empty table.
    pub fn new() -> (t: NameTable<V>)
        ensures
            t.entries() == Map::<Seq<char>, V>::empty(),
    {
        NameTable { ids: StringHashMap::new() }
    }

    /// Records `id` under `name`.
    pub fn insert(&mut self, name: &str, id: V)
        ensures
            final(self).entries() == old(self).entries().insert(name@, id),
    {
        self.ids.insert(name.to_owned(), id);
    }

    /// The id recorded under `name`, if any.
    pub fn get(&self, name: &str) -> (r: Option<V>)
        ensures
            r == (if self.entries().contains_key(name@) {
                Some(self.entries()[name@])
            } else {
                None
            }),
    {
        match self.ids.get(name) {
            Some(v) => Some(*v),
            None => None,
        }
    }
}

/// Registers the loader `name` of the dataset `dataset_name`. An unknown dataset is a
/// not-found error that names it, and nothing changes; a loader already registered gets its id back and
/// nothing changes; else the loader gets the next loader id of the dataset, which is
/// recorded under its name. The flag tells whether the loader is new.
pub fn register_loader(
    ids: &mut GlobalID,
    loader_ids: &mut NameTable<u64>,
    datasets: &NameTable<u32>,
    name: &str,
    dataset_name: &str,
) -> (r: Result<(u64, bool), Status>)
    requires
        datasets.entries().contains_key(dataset_name@) && !old(loader_ids).entries().contains_key(
            name@,
        ) ==> old(ids).counters().1 < u32::MAX,
    ensures
        r is Err <==> !datasets.entries().contains_key(dataset_name@),
        match r {
            Err(s) => s.code == CODE_NOT_FOUND && s.msg@ == dataset_name@ && final(ids).counters()
                == old(ids).counters() && final(loader_ids).entries() == old(loader_ids).entries(),
            Ok((id, fresh)) => if old(loader_ids).entries().contains_key(name@) {
                &&& id == old(loader_ids).entries()[name@]
                &&& !fresh
                &&& final(ids).counters() == old(ids).counters()
                &&& final(loader_ids).entries() == old(loader_ids).entries()
            } else {
                &&& id == loader_id_of(
                    datasets.entries()[dataset_name@],
                    (old(ids).counters().1 + 1) as u32,
                )
                &&& fresh
                &&& final(ids).counters() == (
                    old(ids).counters().0,
                    (old(ids).counters().1 + 1) as u32,
                    old(ids).counters().2,
                )
                &&& final(loader_ids).entries() == old(loader_ids).entries().insert(name@, id)
            },
        },
{
    let dataset_id = match datasets.get(dataset_name) {
        Some(d) => d,
        None => {
            return Err(Status { code: CODE_NOT_FOUND, msg: dataset_name.to_owned() });
        },
    };
    match loader_ids.get(name) {
        Some(id) => Ok((id, false)),
        None => {
            let id = ids.get_loader_id(dataset_id);
            loader_ids.insert(name, id);
            Ok((id, true))
        },
    }
}

/// The counters from which dataset ids and loader ids are made, each counting up and
/// wrapping around.
#[derive(Debug, Clone)]
pub struct IdGenerator {
    dataset_id: usize,
    loader_id: usize,
}

impl IdGenerator {
    /// The last dataset id and loader id handed out.
    pub closed spec fn counters(&self) -> (usize, usize) {
        (self.dataset_id, self.loader_id)
    }

    /// The next dataset id.
    pub fn get_dataset_id(&mut self) -> (r: usize)
        ensures
            r == (if old(self).counters().0 == usize::MAX { 0 } else { old(self).counters().0 + 1 }),
            final(self).counters() == (r, old(self).counters().1),
    {
        self.dataset_id = self.dataset_id.wrapping_add(1);
        self.dataset_id
    }

    /// The next loader id.
    pub fn get_loader_id(&mut self) -> (r: usize)
        ensures
            r == (if old(self).counters().1 == usize::MAX { 0 } else { old(self).counters().1 + 1 }),
            final(self).counters() == (old(self).counters().0, r),
    {
        self.loader_id = self.loader_id.wrapping_add(1);
        self.loader_id
    }

    /// No id handed out yet.
    pub fn new() -> (g: IdGenerator)
        ensures
            g.counters() == (0usize, 0usize),
    {
        IdGenerator { dataset_id: 0, loader_id: 0 }
    }

    /// The dataset id held in the high 32 bits of a loader id.
    pub fn parse_dataset_id(loader_id: u64) -> (r: u32)
        ensures
            r == dataset_of(loader_id),
    {
        parse_dataset_id(loader_id)
    }
}

} // verus!

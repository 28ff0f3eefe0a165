use vstd::prelude::*;
use crate::cache::Cache;
use crate::proto::{CreateDatasetRequest, DataItem};

verus! {

/// The indices `0, 1, ..., n - 1` of a dataset of `n` items.
pub open spec fn indices(n: u32) -> Seq<u32> {
    Seq::new(n as nat, |i: int| i as u32)
}

/// The indices `0, 1, ..., len - 1`.
pub fn indices_upto(len: u32) -> (r: Vec<u32>)
    ensures
        r@ == indices(len),
{
    let mut r: Vec<u32> = Vec::new();
    let mut i: u32 = 0;
    while i < len
        invariant
            i <= len,
            r@ == Seq::new(i as nat, |j: int| j as u32),
        decreases len - i,
    {
        r.push(i);
        i = i + 1;
        proof {
            assert(r@ =~= Seq::new(i as nat, |j: int| j as u32));
        }
    }
    r
}

/// A dataset: items found by their index.
pub trait Dataset {
    /// The id of the dataset.
    fn get_id(&self) -> u32;

    /// The indices of the items.
    fn get_indices(&self) -> Vec<u32>;

    /// Reads item `idx` into the cache; returns where the reader finds it.
    fn read(&self, cache: &mut Cache, idx: u32, ref_cnt: usize, loader_cnt: usize) -> u64;

    /// The number of items.
    fn len(&self) -> u64;
}

/// A dataset of files: its items, a root directory, a name and an id.
#[derive(Debug, Clone)]
pub struct FileDataset {
    items: Vec<DataItem>,
    root: String,
    name: String,
    id: u32,
}

impl FileDataset {
    /// The number of items.
    pub closed spec fn item_count(&self) -> nat {
        self.items@.len()
    }

    /// The id of the dataset.
    pub closed spec fn spec_id(&self) -> u32 {
        self.id
    }

    /// The name of the dataset.
    pub closed spec fn spec_name(&self) -> Seq<char> {
        self.name@
    }

    /// The name of the dataset.
    pub fn get_name(&self) -> (r: &String)
        ensures
            r@ == self.spec_name(),
    {
        &self.name
    }
}

/// The dataset of files that a request describes, with id `id`: it keeps the request's
/// name and items.
pub fn from_proto(request: CreateDatasetRequest, id: u32) -> (d: FileDataset)
    ensures
        d.item_count() == request.items@.len(),
        d.spec_name() == request.name@,
        d.spec_id() == id,
{
    let name = request.name;
    let items = request.items;
    FileDataset { items, root: String::new(), name, id }
}

impl Dataset for FileDataset {
    fn get_id(&self) -> (r: u32)
        ensures
            r == self.spec_id(),
    {
        self.id
    }

    fn get_indices(&self) -> (r: Vec<u32>)
        ensures
            r@ == indices(self.item_count() as u32),
    {
        indices_upto(self.items.len() as u32)
    }

    fn read(&self, cache: &mut Cache, idx: u32, ref_cnt: usize, loader_cnt: usize) -> (r: u64)
        ensures
            r == idx,
            *final(cache) == *old(cache),
    {
        idx as u64
    }

    fn len(&self) -> (r: u64)
        ensures
            r == self.item_count(),
    {
        self.items.len() as u64
    }
}

/// A dataset whose items are not read: reading an item gives its index.
#[derive(Debug, Clone)]
pub struct DummyDataset {
    magic: u8,
    items: Vec<DataItem>,
    id: u32,
}

impl DummyDataset {
    /// The number of items.
    pub closed spec fn item_count(&self) -> nat {
        self.items@.len()
    }

    /// The id of the dataset.
    pub closed spec fn spec_id(&self) -> u32 {
        self.id
    }
}

/// A dummy dataset of `len` items, with id 0; item `i` has the single key `i` in decimal.
pub fn new_dummy(len: usize, name: String) -> (d: DummyDataset)
    ensures
        d.item_count() == len,
        d.spec_id() == 0,
{
    let mut items: Vec<DataItem> = Vec::new();
    let mut i: usize = 0;
    while i < len
        invariant
            i <= len,
            items@.len() == i,
        decreases len - i,
    {
        let mut keys: Vec<String> = Vec::new();
        keys.push(i.to_string());
        items.push(DataItem { keys });
        i = i + 1;
    }
    DummyDataset { magic: 7u8, items, id: 0 }
}

/// The dummy dataset that a request describes, with id `id`.
pub fn dummy_from_proto(request: CreateDatasetRequest, id: u32) -> (d: DummyDataset)
    ensures
        d.item_count() == request.items@.len(),
        d.spec_id() == id,
{
    let items = request.items;
    DummyDataset { items, magic: 7u8, id }
}

impl Dataset for DummyDataset {
    fn get_id(&self) -> (r: u32)
        ensures
            r == self.spec_id(),
    {
        self.id
    }

    fn get_indices(&self) -> (r: Vec<u32>)
        ensures
            r@ == indices(self.item_count() as u32),
    {
        indices_upto(self.items.len() as u32)
    }

    fn read(&self, cache: &mut Cache, idx: u32, ref_cnt: usize, loader_cnt: usize) -> (r: u64)
        ensures
            r == idx,
            *final(cache) == *old(cache),
    {
        idx as u64
    }

    fn len(&self) -> (r: u64)
        ensures
            r == self.item_count(),
    {
        self.items.len() as u64
    }
}

} // verus!

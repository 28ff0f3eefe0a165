use vstd::prelude::*;

verus! {

/// Whether a loader request succeeded.
#[derive(Debug, Clone, Copy, PartialEq, Eq, Structural)]
pub enum LoaderStatus {
    Success,
    False,
}

/// Asks for a loader over the given keys of a dataset.
#[derive(Debug, Clone, PartialEq)]
pub struct CreateDataloaderRequest {
    pub dataset_id: u32,
    pub keys: Vec<u32>,
}

impl CreateDataloaderRequest {
    /// The request with every field at its default.
    pub fn new() -> (r: CreateDataloaderRequest)
        ensures
            r.dataset_id == 0,
            r.keys@ == Seq::<u32>::empty(),
    {
        CreateDataloaderRequest { dataset_id: 0, keys: Vec::new() }
    }

    pub fn get_dataset_id(&self) -> (r: u32)
        ensures
            r == self.dataset_id,
    {
        self.dataset_id
    }

    pub fn clear_dataset_id(&mut self)
        ensures
            final(self).dataset_id == 0,
            final(self).keys@ == old(self).keys@,
    {
        self.dataset_id = 0;
    }

    pub fn set_dataset_id(&mut self, v: u32)
        ensures
            final(self).dataset_id == v,
            final(self).keys@ == old(self).keys@,
    {
        self.dataset_id = v;
    }

    pub fn get_keys(&self) -> (r: &[u32])
        ensures
            r@ == self.keys@,
    {
        self.keys.as_slice()
    }

    pub fn clear_keys(&mut self)
        ensures
            final(self).keys@ == Seq::<u32>::empty(),
            final(self).dataset_id == old(self).dataset_id,
    {
        self.keys.clear();
    }

    pub fn set_keys(&mut self, v: Vec<u32>)
        ensures
            final(self).keys@ == v@,
            final(self).dataset_id == old(self).dataset_id,
    {
        self.keys = v;
    }

    /// The keys, to be changed in place.
    pub fn mut_keys(&mut self) -> (r: &mut Vec<u32>)
        ensures
            *r == old(self).keys,
            final(self).keys == *final(r),
            final(self).dataset_id == old(self).dataset_id,
    {
        &mut self.keys
    }

    /// Takes the keys out, leaving none.
    pub fn take_keys(&mut self) -> (r: Vec<u32>)
        ensures
            r@ == old(self).keys@,
            final(self).keys@ == Seq::<u32>::empty(),
            final(self).dataset_id == old(self).dataset_id,
    {
        let mut r: Vec<u32> = Vec::new();
        std::mem::swap(&mut r, &mut self.keys);
        r
    }
}

/// The answer to a request for a loader: the shared memory file and the loader's id.
#[derive(Debug, Clone, PartialEq)]
pub struct CreateDataloaderResponse {
    pub shared_mem_file: String,
    pub loader_id: u64,
}

impl CreateDataloaderResponse {
    /// The response with every field at its default.
    pub fn new() -> (r: CreateDataloaderResponse)
        ensures
            r.shared_mem_file@ == Seq::<char>::empty(),
            r.loader_id == 0,
    {
        CreateDataloaderResponse { shared_mem_file: String::new(), loader_id: 0 }
    }

    pub fn get_shared_mem_file(&self) -> (r: &str)
        ensures
            r@ == self.shared_mem_file@,
    {
        self.shared_mem_file.as_str()
    }

    pub fn clear_shared_mem_file(&mut self)
        ensures
            final(self).shared_mem_file@ == Seq::<char>::empty(),
            final(self).loader_id == old(self).loader_id,
    {
        self.shared_mem_file = String::new();
    }

    pub fn set_shared_mem_file(&mut self, v: String)
        ensures
            final(self).shared_mem_file == v,
            final(self).loader_id == old(self).loader_id,
    {
        self.shared_mem_file = v;
    }

    /// The shared memory file, to be changed in place.
    pub fn mut_shared_mem_file(&mut self) -> (r: &mut String)
        ensures
            *r == old(self).shared_mem_file,
            final(self).shared_mem_file == *final(r),
            final(self).loader_id == old(self).loader_id,
    {
        &mut self.shared_mem_file
    }

    /// Takes the shared memory file out, leaving it empty.
    pub fn take_shared_mem_file(&mut self) -> (r: String)
        ensures
            r == old(self).shared_mem_file,
            final(self).shared_mem_file@ == Seq::<char>::empty(),
            final(self).loader_id == old(self).loader_id,
    {
        let mut r = String::new();
        std::mem::swap(&mut r, &mut self.shared_mem_file);
        r
    }

    pub fn get_loader_id(&self) -> (r: u64)
        ensures
            r == self.loader_id,
    {
        self.loader_id
    }

    pub fn clear_loader_id(&mut self)
        ensures
            final(self).loader_id == 0,
            final(self).shared_mem_file == old(self).shared_mem_file,
    {
        self.loader_id = 0;
    }

    pub fn set_loader_id(&mut self, v: u64)
        ensures
            final(self).loader_id == v,
            final(self).shared_mem_file == old(self).shared_mem_file,
    {
        self.loader_id = v;
    }
}

/// Asks a loader for its next data.
#[derive(Debug, Clone, Copy, PartialEq, Eq, Structural)]
pub struct NextRequest {
    pub loader_id: u64,
}

impl NextRequest {
    pub fn new() -> (r: NextRequest)
        ensures
            r.loader_id == 0,
    {
        NextRequest { loader_id: 0 }
    }

    pub fn get_loader_id(&self) -> (r: u64)
        ensures
            r == self.loader_id,
    {
        self.loader_id
    }

    pub fn clear_loader_id(&mut self)
        ensures
            final(self).loader_id == 0,
    {
        self.loader_id = 0;
    }

    pub fn set_loader_id(&mut self, v: u64)
        ensures
            final(self).loader_id == v,
    {
        self.loader_id = v;
    }
}

/// The address of the next data of a loader.
#[derive(Debug, Clone, Copy, PartialEq, Eq, Structural)]
pub struct NextResponse {
    pub address: u64,
}

impl NextResponse {
    pub fn new() -> (r: NextResponse)
        ensures
            r.address == 0,
    {
        NextResponse { address: 0 }
    }

    pub fn get_address(&self) -> (r: u64)
        ensures
            r == self.address,
    {
        self.address
    }

    pub fn clear_address(&mut self)
        ensures
            final(self).address == 0,
    {
        self.address = 0;
    }

    pub fn set_address(&mut self, v: u64)
        ensures
            final(self).address == v,
    {
        self.address = v;
    }
}

/// Asks to delete a loader.
#[derive(Debug, Clone, Copy, PartialEq, Eq, Structural)]
pub struct DeleteDataloaderRequest {
    pub loader_id: u64,
}

impl DeleteDataloaderRequest {
    pub fn new() -> (r: DeleteDataloaderRequest)
        ensures
            r.loader_id == 0,
    {
        DeleteDataloaderRequest { loader_id: 0 }
    }

    pub fn get_loader_id(&self) -> (r: u64)
        ensures
            r == self.loader_id,
    {
        self.loader_id
    }

    pub fn clear_loader_id(&mut self)
        ensures
            final(self).loader_id == 0,
    {
        self.loader_id = 0;
    }

    pub fn set_loader_id(&mut self, v: u64)
        ensures
            final(self).loader_id == v,
    {
        self.loader_id = v;
    }
}

/// Whether deleting a loader succeeded.
#[derive(Debug, Clone, Copy, PartialEq, Eq, Structural)]
pub struct DeleteDataloaderResponse {
    pub resp: LoaderStatus,
}

impl DeleteDataloaderResponse {
    pub fn new() -> (r: DeleteDataloaderResponse)
        ensures
            r.resp == LoaderStatus::Success,
    {
        DeleteDataloaderResponse { resp: LoaderStatus::Success }
    }

    pub fn get_resp(&self) -> (r: LoaderStatus)
        ensures
            r == self.resp,
    {
        self.resp
    }

    pub fn clear_resp(&mut self)
        ensures
            final(self).resp == LoaderStatus::Success,
    {
        self.resp = LoaderStatus::Success;
    }

    pub fn set_resp(&mut self, v: LoaderStatus)
        ensures
            final(self).resp == v,
    {
        self.resp = v;
    }
}

} // verus!

verus! {

/// The keys under which one item of a dataset is stored.
#[derive(Debug, Clone, PartialEq)]
pub struct DataItem {
    pub keys: Vec<String>,
}

/// The kind of storage of a dataset.
#[derive(Debug, Clone, Copy, PartialEq, Eq, Structural)]
pub enum DatasetType {
    Dummy,
    Filesystem,
    Lmdb,
}

/// Asks for a dataset: its name, where it is stored, its kind and its items.
#[derive(Debug, Clone, PartialEq)]
pub struct CreateDatasetRequest {
    pub name: String,
    pub location: String,
    pub kind: DatasetType,
    pub items: Vec<DataItem>,
    pub weights: Vec<i32>,
}

} // verus!

# joader

A joint data loader for training jobs that read the same dataset: a sampler hands each
loader every index of its dataset once per epoch, in random order, sharing the reads that
several loaders need, and a shared-memory cache holds the read items.

The library in `src/` is verified with Verus.

- Cache: `head`, `buffer`, `bit`, `freelist`, `data_segment`, `data_block`, `head_segment`,
  `chain`, `cache`, `read_chains`, `cached_data`. The shared memory is a byte vector that the
  cache owns; addresses are indices into it. `Cache::write_data` is proved to leave a chain
  that reads back exactly the bytes written, whenever the chains of the heads whose data was
  read, which it may free on the way, are apart (`read_chains::reads_apart`).
- Records: `record` reads a stored record and caches its decoded form.
- Sampling: `sampler_node` (the sampling tree), `decision`, `sampler_tree`, `sampler`,
  `sampler_manager`, and `values_set` (sets of indices as blocks of 128-bit bitmaps).
  `Sampler::sample` is proved to give each task with indices left exactly one of them per
  round, and `sampler::lemma_epoch` that over the rounds each task reads each of its
  indices exactly once.
- Message encoding: `msgpack` (writing) and `unpack` (reading).
- Requests and identifiers: `proto`, `service`, `dataset`.

`app/main.rs` is a small driver that runs sampling rounds over a dummy dataset.

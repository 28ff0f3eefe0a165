//! A shared-memory data cache and a multi-loader sampler for training-data loading.
mod bytes;
pub mod head;
pub mod freelist;
pub mod buffer;
pub mod bit;
pub mod data_segment;
pub mod data_block;
pub mod head_segment;
pub mod chain;
pub mod cache;
pub mod read_chains;
pub mod cached_data;
pub mod proto;
pub mod service;
pub mod msgpack;
pub mod unpack;
pub mod record;
pub mod dataset;
pub mod values_set;
mod rng;
pub mod sampler_node;
pub mod decision;
pub mod sampler_tree;
pub mod sampler;
pub mod sampler_manager;
pub mod joader;

use vstd::prelude::*;

verus! {

/// The part a host plays among the hosts that share a dataset.
#[derive(Debug, Copy, Clone, PartialEq, Eq, Structural)]
pub enum Role {
    Leader,
    Follower,
}

} // verus!

//! A verifiable, chunk-addressable storage map: a flat logical byte address
//! space sharded over an ordered list of fixed-size resources, a bitmap of
//! locally present chunks grouped into pieces, and a Merkle-tree commitment
//! over the pieces supporting incremental construction, proof generation and
//! proof verification.

pub mod bits;
pub mod chunk;
pub mod codec;
pub mod digest;
pub mod errors;
pub mod iter;
pub mod level;
pub mod map;
pub mod merkle_proof;
pub mod resource;
pub mod service;
pub mod shard;
pub mod storage;
pub mod tree;
pub mod view;

//! A binary Merkle hash tree over SHA3-256 digests: deterministic
//! construction from a sequence of data blocks, generation and verification
//! of compact inclusion proofs against the root digest, and append of a
//! new block with a full rebuild.

pub mod hashing;
pub mod merkle_tree;
pub mod model;

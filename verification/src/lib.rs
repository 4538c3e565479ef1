//! Merkle-Mountain-Range: an append-only, position-indexed accumulator with
//! compact membership proofs.
//!
//! A MMR keeps the hashes of its leaves and of the parents above them in one
//! log, in the order in which a depth-first, post-order walk meets the nodes.
//! [`utils`] holds the arithmetic on positions, [`mmr`] the MMR itself over a
//! [`Store`], and [`merkle_proof`] the proofs and their verification.
//! [`geometry`] and [`laws`] state and prove what holds of positions and of
//! the MMR as a whole: above all, that a MMR which grows by appends hands
//! out for each of its leaves a proof that is accepted.

pub mod codec;
pub mod error;
pub mod geometry;
pub mod hash;
pub mod laws;
pub mod merkle_proof;
pub mod mmr;
pub mod store;
pub mod text;
pub mod utils;

pub use codec::Encodable;
pub use error::Error;
pub use hash::{hash_with_index, Hashable};
pub use mmr::MerkleMountainRange;
pub use merkle_proof::MerkleProof;
pub use store::{Store, VecStore};


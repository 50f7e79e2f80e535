//! Merkle commitments over ordered lists of strings: leaf hashing, layered
//! tree construction with odd-tail duplication, root derivation, and
//! inclusion proofs that are generated and checked against the root.

pub mod digest;
pub mod inclusion;
pub mod tree;

pub use digest::hash_leaf;
pub use inclusion::{generate_proof, verify_proof};
pub use tree::{build_tree, compute_root};

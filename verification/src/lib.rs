//! A binary Merkle-tree engine over byte-string leaves.
//!
//! The tree is built bottom-up with SHA-256 over concatenated sibling pairs;
//! an unpaired last node of a level is paired with itself. From a built tree
//! an inclusion proof (sibling digests plus orientation) can be generated for
//! any leaf index, and such a proof can be checked against an expected root.

pub mod hashing;
pub mod laws;
pub mod merkle;

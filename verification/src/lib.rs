//! A content-addressable object store for a version-control engine, together
//! with the tree-diff engine that computes structural changes between two
//! directory snapshots resolved through that store.
//!
//! The store resolves fixed-width hash identifiers to decoded object bytes
//! across an ordered list of backends (loose objects shadow packed ones,
//! earlier backends shadow later ones), amortizing delta-chain reconstruction
//! through an injected decode cache.  The diff engine walks two sorted entry
//! streams, classifies additions, deletions and modifications, and prunes
//! whole subtrees whose identifiers agree on both sides.

pub mod hash;
pub mod object;
pub mod tree;
pub mod cache;
pub mod pack;
pub mod loose;
pub mod compound;
pub mod linked;
pub mod diff;
pub mod validate;
pub mod refstore;
pub mod transport;
pub mod laws;

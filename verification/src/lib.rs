//! A batched, multi-query Merkle commitment and decommitment engine.
//!
//! Columns of field values are committed under a single root in one of two
//! layouts: the *grouped* layout buckets columns by log-size and absorbs each
//! bucket at its own tree layer, while the *lifted* layout folds every column
//! into one leaf layer of the widest size.  Both layouts come with a
//! decommitment builder that emits a minimal witness for a query set and a
//! verifier that replays the identical traversal.  A fold-step decommitment
//! builder for a FRI-style protocol sits on top of the lifted layout.
//!
//! The collision-resistant hash primitive itself is an external collaborator;
//! everything else — tree construction, witness planning, verification and
//! fold-subset classification — is implemented and verified here.

pub mod air_derive;
pub mod cases;
pub mod columns;
pub mod fri;
pub mod grouped;
pub mod hashing;
pub mod lifted;
pub mod planner;
pub mod rng;
pub mod wire;

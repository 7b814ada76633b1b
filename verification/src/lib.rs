//! A fork-aware, content-addressed block-tree store with an atomic import
//! pipeline.
//!
//! The store keeps every imported block in a parent-linked tree, one branch
//! of which — from genesis to the current head — is canonical. All mutation
//! goes through an [`operation::Operation`]: a pre-validated, all-or-nothing
//! batch of block imports, an optional head change, and auxiliary edits.
//! Around the store sit a scoped import action, an executor-driven importer,
//! a block builder, a longest-chain import policy, and a peer-sync state
//! machine.

pub mod traits;
pub mod operation;
pub mod snapshot;
pub mod memory;
pub mod route;
pub mod import;
pub mod chain;
pub mod builder;
pub mod depth;
pub mod sync;
pub mod simple;
pub mod laws;
pub mod state;

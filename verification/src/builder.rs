//! The block builder: cooperates with a runtime builder executor to start a
//! new block on top of a stored parent, extend it with extrinsics, and seal
//! it. The sealed block and its state feed a raw import without being
//! re-executed.

use vstd::prelude::*;
use crate::traits::{Block, Auxiliary, ChainState, SimpleBuilderExecutor};
use crate::memory::MemoryBackend;
use crate::chain::Error;

verus! {

/// An in-progress block, paired with the state it is being built against.
/// The executor owns all three phases; the builder pins what does not depend
/// on it: a builder only ever starts on a stored parent, and a failed phase
/// must be answered by dropping the builder.
pub struct BlockBuilder<'a, E: SimpleBuilderExecutor> {
    executor: &'a E,
    pending_block: E::BuildBlock,
    pending_state: E::Externalities,
}

impl<'a, E: SimpleBuilderExecutor> BlockBuilder<'a, E> where
    E::Block: Block,
    E::Externalities: ChainState,
 {
    /// Start a new block on top of the given parent: read the parent's block
    /// and state from the store, and let the executor initialize the block
    /// from the inherent data.
    pub fn new<A: Auxiliary>(
        backend: &MemoryBackend<E::Block, A, E::Externalities>,
        executor: &'a E,
        parent_hash: &u64,
        inherent: E::Inherent,
    ) -> (r: Result<Self, Error<E::Error>>)
        ensures
            match r {
                Ok(_) => backend@.has_block(*parent_hash),
                Err(e) => match e {
                    Error::Backend(be) => !backend@.has_block(*parent_hash) && be
                        == crate::memory::Error::NotExist,
                    Error::Executor(_) => backend@.has_block(*parent_hash),
                    Error::IsGenesis => false,
                    Error::ParentNotFound => false,
                },
            },
    {
        let parent_block = match backend.block_at(parent_hash) {
            Ok(block) => block,
            Err(e) => {
                return Err(Error::Backend(e));
            },
        };
        let mut pending_state = match backend.state_at(parent_hash) {
            Ok(state) => state,
            Err(e) => {
                return Err(Error::Backend(e));
            },
        };
        let pending_block = match executor.initialize_block(
            &parent_block,
            &mut pending_state,
            inherent,
        ) {
            Ok(block) => block,
            Err(e) => {
                return Err(Error::Executor(e));
            },
        };
        Ok(Self { executor, pending_block, pending_state })
    }

    /// Apply an extrinsic to the in-progress block. On an error the state
    /// may hold the executor's partial writes; the caller discards the
    /// builder.
    pub fn apply_extrinsic(&mut self, extrinsic: E::Extrinsic) -> (r: Result<(), E::Error>) {
        self.executor.apply_extrinsic(&mut self.pending_block, extrinsic, &mut self.pending_state)
    }

    /// Seal the block: its identifier is stable from here on. Returns the
    /// sealed block together with the state it was built to, ready for a raw
    /// import.
    pub fn finalize(self) -> (r: Result<(E::BuildBlock, E::Externalities), E::Error>) {
        let mut pending_block = self.pending_block;
        let mut pending_state = self.pending_state;
        match self.executor.finalize_block(&mut pending_block, &mut pending_state) {
            Ok(()) => Ok((pending_block, pending_state)),
            Err(e) => Err(e),
        }
    }
}

} // verus!

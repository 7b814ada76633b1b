//! The executor-driven importer: it executes blocks against their parent's
//! state snapshot through a runtime-supplied executor, stages the results,
//! and commits them as one atomic operation.

use vstd::prelude::*;
use crate::traits::{Block, Auxiliary, ChainState, BlockExecutor};
use crate::operation::{
    Operation, ImportOperation, ops_has_id, all_have_parents, fresh_ids, admissible,
    head_target_ok, auxiliaries_ok, remove_aux_keys, insert_auxes,
};
use crate::memory::{MemoryBackend, Error as BackendError};

verus! {

/// Errors of the import pipeline.
#[derive(Debug)]
pub enum Error<EE> {
    /// The underlying store failed.
    Backend(BackendError),
    /// The runtime executor rejected the block.
    Executor(EE),
    /// The block is a genesis block and cannot be imported.
    IsGenesis,
    /// The parent of the block is not in the store.
    ParentNotFound,
}

/// An importer that executes blocks through a runtime executor and stages
/// them, together with a head change and auxiliary edits, for one atomic
/// commit. Committing takes the store by exclusive borrow, which serializes
/// imports the way a dedicated import lock would.
pub struct Importer<'a, E: BlockExecutor, A> {
    executor: &'a E,
    pending: Operation<E::Block, E::Externalities, A>,
}

impl<'a, E: BlockExecutor, A: Auxiliary> Importer<'a, E, A> where
    E::Block: Block,
    E::Externalities: ChainState,
 {
    /// The staged operation, at the specification level.
    pub closed spec fn spec_pending(&self) -> Operation<E::Block, E::Externalities, A> {
        self.pending
    }

    /// Create a new importer around the given executor, with nothing staged.
    pub fn new(executor: &'a E) -> (r: Self)
        ensures
            r.spec_pending().import_block@.len() == 0,
            r.spec_pending().set_head is None,
            r.spec_pending().insert_auxiliaries@.len() == 0,
            r.spec_pending().remove_auxiliaries@.len() == 0,
    {
        Self { executor, pending: Operation::default() }
    }

    /// Execute a block against its parent's state. The executor's verdict is
    /// its own; every other outcome is pinned: a parentless block is a
    /// genesis, and a missing parent is a missing store entry.
    pub fn execute_block(
        &self,
        backend: &MemoryBackend<E::Block, A, E::Externalities>,
        block: E::Block,
    ) -> (r: Result<ImportOperation<E::Block, E::Externalities>, Error<E::Error>>)
        ensures
            match r {
                Ok(op) => {
                    &&& block.spec_parent_id() is Some
                    &&& backend@.has_block(block.spec_parent_id()->0)
                    &&& op.block == block
                },
                Err(e) => match e {
                    Error::IsGenesis => block.spec_parent_id() is None,
                    Error::Backend(be) => {
                        &&& block.spec_parent_id() is Some
                        &&& !backend@.has_block(block.spec_parent_id()->0)
                        &&& be == BackendError::NotExist
                    },
                    Error::Executor(_) => block.spec_parent_id() is Some
                        && backend@.has_block(block.spec_parent_id()->0),
                    Error::ParentNotFound => false,
                },
            },
    {
        let parent_id = match block.parent_id() {
            Some(p) => p,
            None => {
                return Err(Error::IsGenesis);
            },
        };
        let mut state = match backend.state_at(&parent_id) {
            Ok(state) => state,
            Err(e) => {
                return Err(Error::Backend(e));
            },
        };
        match self.executor.execute_block(&block, &mut state) {
            Ok(()) => Ok(ImportOperation { block, state }),
            Err(e) => Err(Error::Executor(e)),
        }
    }

    /// Execute a block against its parent's state and stage it for import.
    pub fn import_block(
        &mut self,
        backend: &MemoryBackend<E::Block, A, E::Externalities>,
        block: E::Block,
    ) -> (r: Result<(), Error<E::Error>>)
        ensures
            match r {
                Ok(()) => {
                    &&& block.spec_parent_id() is Some
                    &&& backend@.has_block(block.spec_parent_id()->0)
                    &&& final(self).spec_pending().import_block@.len() == old(
                        self,
                    ).spec_pending().import_block@.len() + 1
                    &&& final(self).spec_pending().import_block@.last().block == block
                    &&& final(self).spec_pending().import_block@.take(
                        old(self).spec_pending().import_block@.len() as int,
                    ) == old(self).spec_pending().import_block@
                },
                Err(e) => {
                    &&& final(self).spec_pending() == old(self).spec_pending()
                    &&& match e {
                        Error::IsGenesis => block.spec_parent_id() is None,
                        Error::Backend(be) => {
                            &&& block.spec_parent_id() is Some
                            &&& !backend@.has_block(block.spec_parent_id()->0)
                            &&& be == BackendError::NotExist
                        },
                        Error::Executor(_) => block.spec_parent_id() is Some
                            && backend@.has_block(block.spec_parent_id()->0),
                        Error::ParentNotFound => false,
                    }
                },
            },
            final(self).spec_pending().set_head == old(self).spec_pending().set_head,
            final(self).spec_pending().insert_auxiliaries@ == old(
                self,
            ).spec_pending().insert_auxiliaries@,
            final(self).spec_pending().remove_auxiliaries@ == old(
                self,
            ).spec_pending().remove_auxiliaries@,
    {
        let operation = match self.execute_block(backend, block) {
            Ok(op) => op,
            Err(e) => {
                return Err(e);
            },
        };
        self.import_raw(operation);
        proof {
            assert(final(self).spec_pending().import_block@.take(
                old(self).spec_pending().import_block@.len() as int,
            ) =~= old(self).spec_pending().import_block@);
        }
        Ok(())
    }

    /// Stage a pre-executed import.
    pub fn import_raw(&mut self, operation: ImportOperation<E::Block, E::Externalities>)
        ensures
            final(self).spec_pending().import_block@ == old(self).spec_pending().import_block@.push(
                operation,
            ),
            final(self).spec_pending().set_head == old(self).spec_pending().set_head,
            final(self).spec_pending().insert_auxiliaries@ == old(
                self,
            ).spec_pending().insert_auxiliaries@,
            final(self).spec_pending().remove_auxiliaries@ == old(
                self,
            ).spec_pending().remove_auxiliaries@,
    {
        self.pending.import_block.push(operation);
    }

    /// Stage a head change to the given identifier.
    pub fn set_head(&mut self, head: u64)
        ensures
            final(self).spec_pending().set_head == Some(head),
            final(self).spec_pending().import_block@ == old(self).spec_pending().import_block@,
            final(self).spec_pending().insert_auxiliaries@ == old(
                self,
            ).spec_pending().insert_auxiliaries@,
            final(self).spec_pending().remove_auxiliaries@ == old(
                self,
            ).spec_pending().remove_auxiliaries@,
    {
        self.pending.set_head = Some(head);
    }

    /// Stage the insertion of an auxiliary record.
    pub fn insert_auxiliary(&mut self, aux: A)
        ensures
            final(self).spec_pending().insert_auxiliaries@ == old(
                self,
            ).spec_pending().insert_auxiliaries@.push(aux),
            final(self).spec_pending().import_block@ == old(self).spec_pending().import_block@,
            final(self).spec_pending().set_head == old(self).spec_pending().set_head,
            final(self).spec_pending().remove_auxiliaries@ == old(
                self,
            ).spec_pending().remove_auxiliaries@,
    {
        self.pending.insert_auxiliaries.push(aux);
    }

    /// Stage the removal of the auxiliary record under the given key.
    pub fn remove_auxiliary(&mut self, aux_key: u64)
        ensures
            final(self).spec_pending().remove_auxiliaries@ == old(
                self,
            ).spec_pending().remove_auxiliaries@.push(aux_key),
            final(self).spec_pending().import_block@ == old(self).spec_pending().import_block@,
            final(self).spec_pending().set_head == old(self).spec_pending().set_head,
            final(self).spec_pending().insert_auxiliaries@ == old(
                self,
            ).spec_pending().insert_auxiliaries@,
    {
        self.pending.remove_auxiliaries.push(aux_key);
    }

    /// Discard everything staged.
    pub fn discard(&mut self)
        ensures
            final(self).spec_pending().import_block@.len() == 0,
            final(self).spec_pending().set_head is None,
            final(self).spec_pending().insert_auxiliaries@.len() == 0,
            final(self).spec_pending().remove_auxiliaries@.len() == 0,
    {
        self.pending = Operation::default();
    }

    /// Commit the staged operation against the store; the staged operation
    /// is consumed either way. The contract over the store is that of
    /// [`Operation::settle`](crate::operation::Operation::settle).
    pub fn commit(
        &mut self,
        backend: &mut MemoryBackend<E::Block, A, E::Externalities>,
    ) -> (r: Result<(), Error<E::Error>>)
        requires
            old(backend)@.wf(),
            old(backend)@.blocks.dom().len() + old(self).spec_pending().import_block@.len()
                <= usize::MAX,
        ensures
            final(self).spec_pending().import_block@.len() == 0,
            final(self).spec_pending().set_head is None,
            final(self).spec_pending().insert_auxiliaries@.len() == 0,
            final(self).spec_pending().remove_auxiliaries@.len() == 0,
            r is Ok <==> (all_have_parents(old(self).spec_pending().import_block@) && fresh_ids(
                old(backend)@,
                old(self).spec_pending().import_block@,
            ) && admissible(old(backend)@, old(self).spec_pending().import_block@)
                && head_target_ok(
                old(backend)@,
                old(self).spec_pending().import_block@,
                old(self).spec_pending().set_head,
            ) && auxiliaries_ok(
                old(backend)@,
                old(self).spec_pending().import_block@,
                old(self).spec_pending().insert_auxiliaries@,
            )),
            r matches Err(e) ==> final(backend)@ == old(backend)@ && (e matches Error::Backend(be)
                && (be == BackendError::IsGenesis || be == BackendError::InvalidOperation) && (be
                == BackendError::IsGenesis <==> !all_have_parents(
                old(self).spec_pending().import_block@,
            ))),
            r is Ok ==> final(backend)@.wf(),
            r is Ok ==> final(backend)@.genesis == old(backend)@.genesis,
            r is Ok ==> final(backend)@.head == (if old(self).spec_pending().set_head is Some {
                old(self).spec_pending().set_head->0
            } else {
                old(backend)@.head
            }),
            r is Ok ==> forall|id: u64| #[trigger]
                final(backend)@.has_block(id) <==> (old(backend)@.has_block(id) || ops_has_id(
                    old(self).spec_pending().import_block@,
                    id,
                )),
            r is Ok ==> forall|i: int|
                0 <= i < old(self).spec_pending().import_block@.len() ==> {
                    let id = (
                    #[trigger] old(self).spec_pending().import_block@[i].block.spec_id());
                    let pq = old(self).spec_pending().import_block@[i].block.spec_parent_id()->0;
                    &&& final(backend)@.blocks[id].block == old(
                        self,
                    ).spec_pending().import_block@[i].block
                    &&& final(backend)@.has_block(pq)
                    &&& final(backend)@.depth_of(id) == final(backend)@.depth_of(pq) + 1
                },
            r is Ok ==> final(backend)@.auxiliaries == insert_auxes(
                remove_aux_keys(
                    old(backend)@.auxiliaries,
                    old(self).spec_pending().remove_auxiliaries@,
                ),
                old(self).spec_pending().insert_auxiliaries@,
            ),
    {
        let mut operation = Operation::default();
        core::mem::swap(&mut operation, &mut self.pending);
        match backend.commit(operation) {
            Ok(()) => Ok(()),
            Err(e) => Err(Error::Backend(e)),
        }
    }
}

} // verus!

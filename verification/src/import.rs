//! The scoped builder of an operation: an import action accumulates block
//! imports, a head change and auxiliary edits, and commits them against the
//! store in one atomic step. Committing takes the store by exclusive
//! borrow, which serializes imports the way a dedicated import lock would.

use vstd::prelude::*;
use crate::traits::{Block, Auxiliary, ChainState};
use crate::operation::{
    Operation, ImportOperation, ops_has_id, all_have_parents, fresh_ids, admissible,
    head_target_ok, auxiliaries_ok, remove_aux_keys, insert_auxes,
};
use crate::memory::{MemoryBackend, Error};

verus! {

/// A scoped accumulator of one operation. Everything staged here stays
/// pending until `commit`; dropping the action discards it all, and no
/// partial state ever reaches the store.
pub struct ImportAction<B, S, A> {
    pending: Operation<B, S, A>,
}

impl<B: Block, S: ChainState, A: Auxiliary> ImportAction<B, S, A> {
    /// The staged operation, at the specification level.
    pub closed spec fn spec_pending(&self) -> Operation<B, S, A> {
        self.pending
    }

    /// Create a new, empty import action.
    pub fn new() -> (r: Self)
        ensures
            r.spec_pending().import_block@.len() == 0,
            r.spec_pending().set_head is None,
            r.spec_pending().insert_auxiliaries@.len() == 0,
            r.spec_pending().remove_auxiliaries@.len() == 0,
    {
        Self { pending: Operation::default() }
    }

    /// Stage a new block with its state.
    pub fn import_block(&mut self, block: B, state: S)
        ensures
            final(self).spec_pending().import_block@ == old(self).spec_pending().import_block@.push(
                ImportOperation { block, state },
            ),
            final(self).spec_pending().set_head == old(self).spec_pending().set_head,
            final(self).spec_pending().insert_auxiliaries@ == old(
                self,
            ).spec_pending().insert_auxiliaries@,
            final(self).spec_pending().remove_auxiliaries@ == old(
                self,
            ).spec_pending().remove_auxiliaries@,
    {
        self.import_raw(ImportOperation { block, state });
    }

    /// Stage a pre-executed import.
    pub fn import_raw(&mut self, raw: ImportOperation<B, S>)
        ensures
            final(self).spec_pending().import_block@ == old(self).spec_pending().import_block@.push(
                raw,
            ),
            final(self).spec_pending().set_head == old(self).spec_pending().set_head,
            final(self).spec_pending().insert_auxiliaries@ == old(
                self,
            ).spec_pending().insert_auxiliaries@,
            final(self).spec_pending().remove_auxiliaries@ == old(
                self,
            ).spec_pending().remove_auxiliaries@,
    {
        self.pending.import_block.push(raw);
    }

    /// Stage a head change to the given identifier.
    pub fn set_head(&mut self, head: u64)
        ensures
            final(self).spec_pending().set_head == Some(head),
            final(self).spec_pending().import_block@ == old(self).spec_pending().import_block@,
            final(self).spec_pending().insert_auxiliaries@ == old(
                self,
            ).spec_pending().insert_auxiliaries@,
            final(self).spec_pending().remove_auxiliaries@ == old(
                self,
            ).spec_pending().remove_auxiliaries@,
    {
        self.pending.set_head = Some(head);
    }

    /// Stage the insertion of an auxiliary record.
    pub fn insert_auxiliary(&mut self, aux: A)
        ensures
            final(self).spec_pending().insert_auxiliaries@ == old(
                self,
            ).spec_pending().insert_auxiliaries@.push(aux),
            final(self).spec_pending().import_block@ == old(self).spec_pending().import_block@,
            final(self).spec_pending().set_head == old(self).spec_pending().set_head,
            final(self).spec_pending().remove_auxiliaries@ == old(
                self,
            ).spec_pending().remove_auxiliaries@,
    {
        self.pending.insert_auxiliaries.push(aux);
    }

    /// Stage the removal of the auxiliary record under the given key.
    pub fn remove_auxiliary(&mut self, aux_key: u64)
        ensures
            final(self).spec_pending().remove_auxiliaries@ == old(
                self,
            ).spec_pending().remove_auxiliaries@.push(aux_key),
            final(self).spec_pending().import_block@ == old(self).spec_pending().import_block@,
            final(self).spec_pending().set_head == old(self).spec_pending().set_head,
            final(self).spec_pending().insert_auxiliaries@ == old(
                self,
            ).spec_pending().insert_auxiliaries@,
    {
        self.pending.remove_auxiliaries.push(aux_key);
    }

    /// Commit the staged operation against the store and consume the action.
    /// The contract is that of
    /// [`Operation::settle`](crate::operation::Operation::settle), applied to
    /// the staged operation.
    pub fn commit(self, backend: &mut MemoryBackend<B, A, S>) -> (r: Result<(), Error>)
        requires
            old(backend)@.wf(),
            old(backend)@.blocks.dom().len() + self.spec_pending().import_block@.len()
                <= usize::MAX,
        ensures
            r is Ok <==> (all_have_parents(self.spec_pending().import_block@) && fresh_ids(
                old(backend)@,
                self.spec_pending().import_block@,
            ) && admissible(old(backend)@, self.spec_pending().import_block@) && head_target_ok(
                old(backend)@,
                self.spec_pending().import_block@,
                self.spec_pending().set_head,
            ) && auxiliaries_ok(
                old(backend)@,
                self.spec_pending().import_block@,
                self.spec_pending().insert_auxiliaries@,
            )),
            r matches Err(e) ==> final(backend)@ == old(backend)@ && (e == Error::IsGenesis || e
                == Error::InvalidOperation) && (e == Error::IsGenesis <==> !all_have_parents(
                self.spec_pending().import_block@,
            )),
            r is Ok ==> final(backend)@.wf(),
            r is Ok ==> final(backend)@.genesis == old(backend)@.genesis,
            r is Ok ==> final(backend)@.head == (if self.spec_pending().set_head is Some {
                self.spec_pending().set_head->0
            } else {
                old(backend)@.head
            }),
            r is Ok ==> forall|id: u64| #[trigger]
                final(backend)@.has_block(id) <==> (old(backend)@.has_block(id) || ops_has_id(
                    self.spec_pending().import_block@,
                    id,
                )),
            r is Ok ==> forall|id: u64|
                old(backend)@.has_block(id) ==> {
                    &&& #[trigger] final(backend)@.blocks[id].block == old(backend)@.blocks[id].block
                    &&& final(backend)@.blocks[id].state == old(backend)@.blocks[id].state
                    &&& final(backend)@.blocks[id].depth == old(backend)@.blocks[id].depth
                },
            r is Ok ==> forall|i: int|
                0 <= i < self.spec_pending().import_block@.len() ==> {
                    let id = (#[trigger] self.spec_pending().import_block@[i].block.spec_id());
                    let pq = self.spec_pending().import_block@[i].block.spec_parent_id()->0;
                    &&& final(backend)@.blocks[id].block == self.spec_pending().import_block@[i].block
                    &&& final(backend)@.blocks[id].state@ == self.spec_pending().import_block@[i].state@
                    &&& final(backend)@.has_block(pq)
                    &&& final(backend)@.depth_of(id) == final(backend)@.depth_of(pq) + 1
                },
            r is Ok ==> final(backend)@.auxiliaries == insert_auxes(
                remove_aux_keys(
                    old(backend)@.auxiliaries,
                    self.spec_pending().remove_auxiliaries@,
                ),
                self.spec_pending().insert_auxiliaries@,
            ),
    {
        backend.commit(self.pending)
    }
}

} // verus!

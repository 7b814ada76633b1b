//! Common trait definitions related to block context.
//!
//! These are the interfaces a runtime supplies to the core: the shape of a
//! block, of a keyed auxiliary record, of an executor, and of the
//! externalities view that an executor reads state through. Identifiers and
//! auxiliary keys are fixed to 64-bit integers so that identifier-keyed
//! tables have verified semantics.

use vstd::prelude::*;
use crate::operation::ImportOperation;

verus! {

/// A block carries an identifier, and references a parent block via the
/// parent identifier. A block with no parent identifier is a genesis block.
pub trait Block: Sized {
    /// The identifier of this block, at the specification level.
    spec fn spec_id(&self) -> u64;

    /// The parent identifier of this block, at the specification level.
    spec fn spec_parent_id(&self) -> Option<u64>;

    /// Get the block identifier.
    fn id(&self) -> (r: u64)
        ensures
            r == self.spec_id(),
    ;

    /// Get the parent block identifier. `None` if this block is genesis.
    fn parent_id(&self) -> (r: Option<u64>)
        ensures
            r == self.spec_parent_id(),
    ;

    /// Produce a copy of this block equal to this one.
    fn duplicate(&self) -> (r: Self)
        ensures
            r == *self,
    ;
}

/// A keyed record that lives beside the block tree. An auxiliary names the
/// blocks it depends on; the store only accepts it while all of them are
/// present.
pub trait Auxiliary: Sized {
    /// The key of this record, at the specification level.
    spec fn spec_key(&self) -> u64;

    /// The identifiers this record is associated with, at the specification
    /// level.
    spec fn spec_associated(&self) -> Seq<u64>;

    /// Return the key of this record.
    fn key(&self) -> (r: u64)
        ensures
            r == self.spec_key(),
    ;

    /// Return block identifiers associated with this record. If the backend
    /// ever dropped one of the blocks listed here, it would be expected to
    /// drop this record as well.
    fn associated(&self) -> (r: Vec<u64>)
        ensures
            r@ == self.spec_associated(),
    ;

    /// Produce a copy of this record equal to this one.
    fn duplicate(&self) -> (r: Self)
        ensures
            r == *self,
    ;
}

/// A state value that can be copied; every block in the store owns the
/// snapshot it was executed against. What a state is, is its view: copies
/// agree on the view, and the store's contracts speak of state views.
pub trait ChainState: View + Sized {
    /// Produce a copy of this state with the same view.
    fn duplicate(&self) -> (r: Self)
        ensures
            r@ == self@,
    ;
}

/// Externalities with no capabilities at all.
pub trait NullExternalities {

}

/// Externalities for reading and writing a key/value storage. The storage is
/// modelled as a map from byte keys to byte values.
pub trait StorageExternalities: Sized {
    /// The storage contents, at the specification level.
    spec fn spec_storage(&self) -> Map<Seq<u8>, Seq<u8>>;

    /// Read a storage value.
    fn read_storage(&self, key: &[u8]) -> (r: Option<Vec<u8>>)
        ensures
            match r {
                Some(value) => self.spec_storage().contains_key(key@) && value@
                    == self.spec_storage()[key@],
                None => !self.spec_storage().contains_key(key@),
            },
    ;

    /// Write a storage value.
    fn write_storage(&mut self, key: Vec<u8>, value: Vec<u8>)
        ensures
            final(self).spec_storage() == old(self).spec_storage().insert(key@, value@),
    ;

    /// Remove a storage value.
    fn remove_storage(&mut self, key: &[u8])
        ensures
            final(self).spec_storage() == old(self).spec_storage().remove(key@),
    ;
}

/// A runtime-supplied executor: applies a block's effects to the state it is
/// handed. The core promises nothing of an executor's verdict; every caller
/// in the core states what it does for either outcome.
pub trait BlockExecutor {
    /// Block type.
    type Block: Block;

    /// Externalities type the executor reads and writes state through.
    type Externalities;

    /// Error type.
    type Error;

    /// Execute the block against the given state.
    fn execute_block(&self, block: &Self::Block, state: &mut Self::Externalities) -> Result<
        (),
        Self::Error,
    >;
}

/// A builder executor: beyond executing complete blocks, it can start a new
/// block on top of a parent, extend it with extrinsics, and seal it.
pub trait SimpleBuilderExecutor: BlockExecutor {
    /// The in-progress block type.
    type BuildBlock;

    /// Inherent data a new block starts from.
    type Inherent;

    /// Extrinsic type.
    type Extrinsic;

    /// Initialize a block from the parent block and given state.
    fn initialize_block(
        &self,
        parent_block: &Self::Block,
        state: &mut Self::Externalities,
        inherent: Self::Inherent,
    ) -> Result<Self::BuildBlock, Self::Error>;

    /// Apply an extrinsic to the in-progress block.
    fn apply_extrinsic(
        &self,
        block: &mut Self::BuildBlock,
        extrinsic: Self::Extrinsic,
        state: &mut Self::Externalities,
    ) -> Result<(), Self::Error>;

    /// Finalize the in-progress block, making its identifier stable.
    fn finalize_block(&self, block: &mut Self::BuildBlock, state: &mut Self::Externalities) -> Result<
        (),
        Self::Error,
    >;
}

/// Committing whole blocks, usually built on top of a backend.
pub trait BlockImporter {
    /// Block type.
    type Block: Block;

    /// Error type.
    type Error;

    /// Commit a block into the backend, and handle consensus and auxiliary
    /// records.
    fn import_block(&mut self, block: Self::Block) -> Result<(), Self::Error>;
}

/// Committing pre-executed blocks, usually built on top of a backend.
pub trait RawImporter {
    /// Block type.
    type Block: Block;

    /// State type.
    type State;

    /// Error type.
    type Error;

    /// Commit a pre-executed block into the backend.
    fn import_raw(&mut self, operation: ImportOperation<Self::Block, Self::State>) -> Result<
        (),
        Self::Error,
    >;
}

} // verus!

use blockchain::traits::{
    Block, Auxiliary, ChainState, BlockExecutor, SimpleBuilderExecutor, StorageExternalities,
};
use blockchain::state::KeyValueMemoryState;
use blockchain::memory::MemoryBackend;
use blockchain::builder::BlockBuilder;
use blockchain::chain::Importer;
use blockchain::operation::ImportOperation;

#[derive(Clone, Copy, PartialEq, Eq, Debug)]
struct DummyBlock {
    id: u64,
    parent: Option<u64>,
}

impl Block for DummyBlock {
    fn spec_id(&self) -> u64 {
        self.id
    }

    fn spec_parent_id(&self) -> Option<u64> {
        self.parent
    }

    fn id(&self) -> u64 {
        self.id
    }

    fn parent_id(&self) -> Option<u64> {
        self.parent
    }

    fn duplicate(&self) -> Self {
        *self
    }
}

#[derive(Clone, Copy, PartialEq, Eq, Debug)]
struct CounterState {
    counter: u64,
}

impl vstd::prelude::View for CounterState {
    type V = u64;

    fn view(&self) -> u64 {
        self.counter
    }
}

impl ChainState for CounterState {
    fn duplicate(&self) -> Self {
        *self
    }
}

#[derive(Clone, Debug)]
struct DummyAux;

impl Auxiliary for DummyAux {
    fn spec_key(&self) -> u64 {
        0
    }

    fn spec_associated(&self) -> vstd::seq::Seq<u64> {
        panic!("specification-level only")
    }

    fn key(&self) -> u64 {
        0
    }

    fn associated(&self) -> Vec<u64> {
        Vec::new()
    }

    fn duplicate(&self) -> Self {
        DummyAux
    }
}

/// A builder executor over a counter state: every extrinsic adds to the
/// counter, and the sealed block's identifier is derived from the parent's.
struct CounterExecutor;

#[derive(Debug)]
struct InProgress {
    parent: u64,
    added: u64,
}

impl BlockExecutor for CounterExecutor {
    type Block = DummyBlock;
    type Externalities = CounterState;
    type Error = ();

    fn execute_block(&self, _block: &DummyBlock, state: &mut CounterState) -> Result<(), ()> {
        state.counter += 1;
        Ok(())
    }
}

impl SimpleBuilderExecutor for CounterExecutor {
    type BuildBlock = InProgress;
    type Inherent = ();
    type Extrinsic = u64;

    fn initialize_block(
        &self,
        parent_block: &DummyBlock,
        _state: &mut CounterState,
        _inherent: (),
    ) -> Result<InProgress, ()> {
        Ok(InProgress { parent: parent_block.id, added: 0 })
    }

    fn apply_extrinsic(
        &self,
        block: &mut InProgress,
        extrinsic: u64,
        state: &mut CounterState,
    ) -> Result<(), ()> {
        block.added += extrinsic;
        state.counter += extrinsic;
        Ok(())
    }

    fn finalize_block(&self, _block: &mut InProgress, _state: &mut CounterState) -> Result<(), ()> {
        Ok(())
    }
}

#[test]
fn storage_write_then_read_round_trip() {
    let mut state = KeyValueMemoryState::new();
    assert_eq!(state.read_storage(b"key"), None);
    state.write_storage(b"key".to_vec(), b"value".to_vec());
    assert_eq!(state.read_storage(b"key"), Some(b"value".to_vec()));
    state.write_storage(b"key".to_vec(), b"other".to_vec());
    assert_eq!(state.read_storage(b"key"), Some(b"other".to_vec()));
    state.write_storage(b"second".to_vec(), b"two".to_vec());
    assert_eq!(state.read_storage(b"second"), Some(b"two".to_vec()));
    assert_eq!(state.read_storage(b"key"), Some(b"other".to_vec()));
}

#[test]
fn storage_remove_deletes_exactly_the_key() {
    let mut state = KeyValueMemoryState::new();
    state.write_storage(b"a".to_vec(), b"1".to_vec());
    state.write_storage(b"b".to_vec(), b"2".to_vec());
    state.remove_storage(b"a");
    assert_eq!(state.read_storage(b"a"), None);
    assert_eq!(state.read_storage(b"b"), Some(b"2".to_vec()));
    // Removing a missing key changes nothing.
    state.remove_storage(b"missing");
    assert_eq!(state.read_storage(b"b"), Some(b"2".to_vec()));
}

#[test]
fn storage_replicate_copies_the_contents() {
    let mut state = KeyValueMemoryState::new();
    state.write_storage(b"a".to_vec(), b"1".to_vec());
    let copy = state.replicate();
    state.remove_storage(b"a");
    assert_eq!(copy.read_storage(b"a"), Some(b"1".to_vec()));
    assert_eq!(state.read_storage(b"a"), None);
}

#[test]
fn block_builder_builds_on_a_stored_parent() {
    let mut backend: MemoryBackend<DummyBlock, DummyAux, CounterState> =
        MemoryBackend::new_with_genesis(
            DummyBlock { id: 1, parent: None },
            CounterState { counter: 0 },
        );
    let executor = CounterExecutor;
    let mut builder = BlockBuilder::new(&backend, &executor, &1, ()).unwrap();
    builder.apply_extrinsic(5).unwrap();
    builder.apply_extrinsic(2).unwrap();
    let (built, state) = builder.finalize().unwrap();
    assert_eq!(built.parent, 1);
    assert_eq!(built.added, 7);
    assert_eq!(state.counter, 7);

    // The sealed block feeds a raw import without being re-executed.
    let sealed = DummyBlock { id: 2, parent: Some(built.parent) };
    let mut importer: Importer<CounterExecutor, DummyAux> = Importer::new(&executor);
    importer.import_raw(ImportOperation { block: sealed, state });
    importer.set_head(2);
    importer.commit(&mut backend).unwrap();
    assert_eq!(backend.head(), 2);
    assert_eq!(backend.state_at(&2).unwrap(), CounterState { counter: 7 });
}

#[test]
fn block_builder_refuses_a_missing_parent() {
    let backend: MemoryBackend<DummyBlock, DummyAux, CounterState> =
        MemoryBackend::new_with_genesis(
            DummyBlock { id: 1, parent: None },
            CounterState { counter: 0 },
        );
    let executor = CounterExecutor;
    let result = BlockBuilder::new(&backend, &executor, &42, ());
    assert!(matches!(
        result,
        Err(blockchain::chain::Error::Backend(blockchain::memory::Error::NotExist))
    ));
}

/// An executor over the library's own key/value state.
struct StorageExecutor;

impl BlockExecutor for StorageExecutor {
    type Block = DummyBlock;
    type Externalities = KeyValueMemoryState;
    type Error = ();

    fn execute_block(&self, block: &DummyBlock, state: &mut KeyValueMemoryState) -> Result<(), ()> {
        state.write_storage(b"last".to_vec(), block.id.to_le_bytes().to_vec());
        Ok(())
    }
}

#[test]
fn key_value_state_inhabits_the_store() {
    let mut genesis_state = KeyValueMemoryState::new();
    genesis_state.write_storage(b"last".to_vec(), 1u64.to_le_bytes().to_vec());
    let mut backend: MemoryBackend<DummyBlock, DummyAux, KeyValueMemoryState> =
        MemoryBackend::new_with_genesis(DummyBlock { id: 1, parent: None }, genesis_state);
    let executor = StorageExecutor;
    let mut importer: Importer<StorageExecutor, DummyAux> = Importer::new(&executor);
    importer
        .import_block(&backend, DummyBlock { id: 2, parent: Some(1) })
        .unwrap();
    importer.set_head(2);
    importer.commit(&mut backend).unwrap();
    assert_eq!(backend.head(), 2);
    // Each block owns the snapshot it was executed to.
    let at_genesis = backend.state_at(&1).unwrap();
    assert_eq!(at_genesis.read_storage(b"last"), Some(1u64.to_le_bytes().to_vec()));
    let at_two = backend.state_at(&2).unwrap();
    assert_eq!(at_two.read_storage(b"last"), Some(2u64.to_le_bytes().to_vec()));
}

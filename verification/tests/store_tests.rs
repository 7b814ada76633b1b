use blockchain::traits::{Block, Auxiliary, ChainState, BlockExecutor};
use blockchain::memory::{MemoryBackend, Error};
use blockchain::operation::{Operation, ImportOperation};
use blockchain::import::ImportAction;
use blockchain::chain::Importer;

#[derive(Clone, Copy, PartialEq, Eq, Debug)]
struct DummyBlock {
    id: u64,
    parent: Option<u64>,
}

impl DummyBlock {
    fn new(id: u64, parent: u64) -> Self {
        DummyBlock { id, parent: Some(parent) }
    }

    fn genesis() -> Self {
        DummyBlock { id: 1, parent: None }
    }
}

impl Block for DummyBlock {
    fn spec_id(&self) -> u64 {
        self.id
    }

    fn spec_parent_id(&self) -> Option<u64> {
        self.parent
    }

    fn id(&self) -> u64 {
        self.id
    }

    fn parent_id(&self) -> Option<u64> {
        self.parent
    }

    fn duplicate(&self) -> Self {
        *self
    }
}

#[derive(Clone, Copy, PartialEq, Eq, Debug)]
struct DummyState(u64);

impl vstd::prelude::View for DummyState {
    type V = u64;

    fn view(&self) -> u64 {
        self.0
    }
}

impl ChainState for DummyState {
    fn duplicate(&self) -> Self {
        *self
    }
}

#[derive(Clone, Debug, PartialEq, Eq)]
struct DummyAux {
    key: u64,
    associated: Vec<u64>,
}

impl Auxiliary for DummyAux {
    fn spec_key(&self) -> u64 {
        self.key
    }

    fn spec_associated(&self) -> vstd::seq::Seq<u64> {
        panic!("specification-level only")
    }

    fn key(&self) -> u64 {
        self.key
    }

    fn associated(&self) -> Vec<u64> {
        self.associated.clone()
    }

    fn duplicate(&self) -> Self {
        self.clone()
    }
}

struct DummyExecutor;

impl BlockExecutor for DummyExecutor {
    type Block = DummyBlock;
    type Externalities = DummyState;
    type Error = ();

    fn execute_block(&self, _block: &DummyBlock, state: &mut DummyState) -> Result<(), ()> {
        state.0 += 1;
        Ok(())
    }
}

fn new_backend() -> MemoryBackend<DummyBlock, DummyAux, DummyState> {
    MemoryBackend::new_with_genesis(DummyBlock::genesis(), DummyState(0))
}

fn import_chain(
    backend: &mut MemoryBackend<DummyBlock, DummyAux, DummyState>,
    blocks: &[(u64, u64)],
    head: Option<u64>,
) -> Result<(), Error> {
    let mut action: ImportAction<DummyBlock, DummyState, DummyAux> = ImportAction::new();
    for (id, parent) in blocks {
        action.import_block(DummyBlock::new(*id, *parent), DummyState(*id));
    }
    if let Some(h) = head {
        action.set_head(h);
    }
    action.commit(backend)
}

#[test]
fn all_traits_for_importer_are_satisfied() {
    let _backend = new_backend();
    let executor = DummyExecutor;
    let _: Importer<DummyExecutor, DummyAux> = Importer::new(&executor);
}

#[test]
fn linear_build() {
    let mut backend = new_backend();
    import_chain(&mut backend, &[(2, 1), (3, 2), (4, 3)], Some(4)).unwrap();
    assert_eq!(backend.head(), 4);
    assert_eq!(backend.depth_at(&4).unwrap(), 3);
    for id in 1..=4u64 {
        assert!(backend.is_canon(&id).unwrap());
    }
    assert_eq!(backend.lookup_canon_depth(0).unwrap(), Some(1));
    assert_eq!(backend.lookup_canon_depth(1).unwrap(), Some(2));
    assert_eq!(backend.lookup_canon_depth(2).unwrap(), Some(3));
    assert_eq!(backend.lookup_canon_depth(3).unwrap(), Some(4));
    assert_eq!(backend.lookup_canon_depth(4).unwrap(), None);
}

#[test]
fn out_of_order_topological_admission() {
    let mut backend = new_backend();
    import_chain(&mut backend, &[(4, 3), (3, 2), (2, 1)], Some(4)).unwrap();
    assert_eq!(backend.head(), 4);
    assert_eq!(backend.depth_at(&4).unwrap(), 3);
    assert_eq!(backend.lookup_canon_depth(0).unwrap(), Some(1));
    assert_eq!(backend.lookup_canon_depth(1).unwrap(), Some(2));
    assert_eq!(backend.lookup_canon_depth(2).unwrap(), Some(3));
    assert_eq!(backend.lookup_canon_depth(3).unwrap(), Some(4));
}

#[test]
fn fork_with_reorg() {
    let mut backend = new_backend();
    import_chain(&mut backend, &[(2, 1), (3, 2), (4, 3)], Some(4)).unwrap();
    // A sibling branch appears; the head stays where it was.
    import_chain(&mut backend, &[(5, 2)], Some(4)).unwrap();
    assert_eq!(backend.head(), 4);
    assert!(!backend.is_canon(&5).unwrap());
    // The branch grows past the head and the chain reorganizes onto it.
    import_chain(&mut backend, &[(6, 5), (7, 6)], Some(7)).unwrap();
    let route = backend.tree_route(&4, &7).unwrap();
    assert_eq!(route.retracted(), vec![4, 3]);
    assert_eq!(route.common_block(), 2);
    assert_eq!(route.enacted(), vec![5, 6, 7]);
    for id in [1u64, 2, 5, 6, 7] {
        assert!(backend.is_canon(&id).unwrap());
    }
    for id in [3u64, 4] {
        assert!(!backend.is_canon(&id).unwrap());
    }
    assert_eq!(backend.lookup_canon_depth(0).unwrap(), Some(1));
    assert_eq!(backend.lookup_canon_depth(1).unwrap(), Some(2));
    assert_eq!(backend.lookup_canon_depth(2).unwrap(), Some(5));
    assert_eq!(backend.lookup_canon_depth(3).unwrap(), Some(6));
    assert_eq!(backend.lookup_canon_depth(4).unwrap(), Some(7));
}

#[test]
fn tree_route_of_a_block_to_itself_is_trivial() {
    let mut backend = new_backend();
    import_chain(&mut backend, &[(2, 1), (3, 2)], Some(3)).unwrap();
    let route = backend.tree_route(&3, &3).unwrap();
    assert_eq!(route.retracted(), Vec::<u64>::new());
    assert_eq!(route.common_block(), 3);
    assert_eq!(route.enacted(), Vec::<u64>::new());
}

#[test]
fn rejected_auxiliary_leaves_store_unchanged() {
    let mut backend = new_backend();
    import_chain(&mut backend, &[(2, 1)], Some(2)).unwrap();
    let mut action: ImportAction<DummyBlock, DummyState, DummyAux> = ImportAction::new();
    action.insert_auxiliary(DummyAux { key: 10, associated: vec![99] });
    assert_eq!(action.commit(&mut backend), Err(Error::InvalidOperation));
    assert_eq!(backend.head(), 2);
    assert!(!backend.contains(&99).unwrap());
    assert_eq!(backend.auxiliary(&10).unwrap(), None);
}

#[test]
fn accepted_auxiliary_is_stored_and_read_back() {
    let mut backend = new_backend();
    import_chain(&mut backend, &[(2, 1)], Some(2)).unwrap();
    let mut action: ImportAction<DummyBlock, DummyState, DummyAux> = ImportAction::new();
    action.insert_auxiliary(DummyAux { key: 10, associated: vec![1, 2] });
    action.commit(&mut backend).unwrap();
    let aux = backend.auxiliary(&10).unwrap().unwrap();
    assert_eq!(aux.key, 10);
    assert_eq!(aux.associated, vec![1, 2]);
}

#[test]
fn insert_then_remove_auxiliary_is_a_no_op_on_queries() {
    let mut backend = new_backend();
    let mut action: ImportAction<DummyBlock, DummyState, DummyAux> = ImportAction::new();
    action.insert_auxiliary(DummyAux { key: 7, associated: vec![1] });
    action.commit(&mut backend).unwrap();
    let mut action: ImportAction<DummyBlock, DummyState, DummyAux> = ImportAction::new();
    action.remove_auxiliary(7);
    action.commit(&mut backend).unwrap();
    assert_eq!(backend.auxiliary(&7).unwrap(), None);
    assert_eq!(backend.head(), 1);
    assert!(backend.is_canon(&1).unwrap());
}

#[test]
fn import_with_missing_parent_fails_invalid_operation() {
    let mut backend = new_backend();
    let result = import_chain(&mut backend, &[(3, 2)], None);
    assert_eq!(result, Err(Error::InvalidOperation));
    assert!(!backend.contains(&3).unwrap());
}

#[test]
fn set_head_to_unknown_identifier_fails_invalid_operation() {
    let mut backend = new_backend();
    let result = import_chain(&mut backend, &[(2, 1)], Some(99));
    assert_eq!(result, Err(Error::InvalidOperation));
    assert!(!backend.contains(&2).unwrap());
    assert_eq!(backend.head(), 1);
}

#[test]
fn importing_a_parentless_block_fails_is_genesis() {
    let mut backend = new_backend();
    let mut action: ImportAction<DummyBlock, DummyState, DummyAux> = ImportAction::new();
    action.import_block(DummyBlock { id: 9, parent: None }, DummyState(9));
    assert_eq!(action.commit(&mut backend), Err(Error::IsGenesis));
    assert!(!backend.contains(&9).unwrap());
}

#[test]
fn duplicate_identifier_fails_invalid_operation() {
    let mut backend = new_backend();
    import_chain(&mut backend, &[(2, 1)], None).unwrap();
    let result = import_chain(&mut backend, &[(2, 1)], None);
    assert_eq!(result, Err(Error::InvalidOperation));
    let result = import_chain(&mut backend, &[(3, 1), (3, 2)], None);
    assert_eq!(result, Err(Error::InvalidOperation));
}

#[test]
fn split_commits_match_one_combined_commit() {
    let mut split = new_backend();
    import_chain(&mut split, &[(2, 1)], None).unwrap();
    import_chain(&mut split, &[(3, 2)], Some(3)).unwrap();
    let mut combined = new_backend();
    import_chain(&mut combined, &[(2, 1), (3, 2)], Some(3)).unwrap();
    assert_eq!(split.head(), combined.head());
    for id in 1..=3u64 {
        assert_eq!(split.depth_at(&id).unwrap(), combined.depth_at(&id).unwrap());
        assert_eq!(split.is_canon(&id).unwrap(), combined.is_canon(&id).unwrap());
        assert_eq!(split.children_at(&id).unwrap(), combined.children_at(&id).unwrap());
    }
    for d in 0..=3usize {
        assert_eq!(split.lookup_canon_depth(d).unwrap(), combined.lookup_canon_depth(d).unwrap());
    }
}

#[test]
fn raw_operation_commit_through_the_backend() {
    let mut backend = new_backend();
    let mut operation: Operation<DummyBlock, DummyState, DummyAux> = Operation::default();
    operation.import_block.push(ImportOperation {
        block: DummyBlock::new(2, 1),
        state: DummyState(2),
    });
    operation.set_head = Some(2);
    backend.commit(operation).unwrap();
    assert_eq!(backend.head(), 2);
    assert_eq!(backend.state_at(&2).unwrap(), DummyState(2));
    assert_eq!(backend.block_at(&2).unwrap(), DummyBlock::new(2, 1));
    assert_eq!(backend.children_at(&1).unwrap(), vec![2]);
    assert_eq!(backend.genesis(), 1);
}

#[test]
fn executor_driven_importer_pipeline() {
    let mut backend = new_backend();
    let executor = DummyExecutor;
    let mut importer: Importer<DummyExecutor, DummyAux> = Importer::new(&executor);
    importer.import_block(&backend, DummyBlock::new(2, 1)).unwrap();
    importer.set_head(2);
    importer.commit(&mut backend).unwrap();
    assert_eq!(backend.head(), 2);
    // The executor incremented the genesis state while producing block 2.
    assert_eq!(backend.state_at(&2).unwrap(), DummyState(1));
    // A parentless block is refused before anything is staged.
    let err = importer.import_block(&backend, DummyBlock { id: 9, parent: None });
    assert!(matches!(err, Err(blockchain::chain::Error::IsGenesis)));
    // A block with an unknown parent is a missing store entry.
    let err = importer.import_block(&backend, DummyBlock::new(10, 42));
    assert!(matches!(
        err,
        Err(blockchain::chain::Error::Backend(Error::NotExist))
    ));
}

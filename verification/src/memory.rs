//! The in-memory reference store: every table of the block tree held in
//! identifier-keyed hash maps, with query and settlement primitives whose
//! contracts are exact over the store's snapshot.

use vstd::prelude::*;
use std::collections::HashMap;
use crate::traits::{Block, Auxiliary, ChainState};
use crate::operation::{BlockData, Operation, ops_has_id, all_have_parents, fresh_ids, admissible, head_target_ok, auxiliaries_ok, remove_aux_keys, insert_auxes};
use crate::snapshot::ChainSnapshot;

verus! {

broadcast use vstd::std_specs::hash::group_hash_axioms;

/// Errors of the in-memory store.
#[derive(Clone, Copy, Debug, PartialEq, Eq, Structural)]
pub enum Error {
    /// The operation is not valid against the current store.
    InvalidOperation,
    /// Trying to import a block that is genesis.
    IsGenesis,
    /// The queried identifier does not exist.
    NotExist,
}

/// Construction of the errors every settlement engine reports.
pub trait OperationError: Sized {
    /// The error for an operation that fails pre-validation.
    fn invalid_operation() -> Self;

    /// The error for importing a block that has no parent.
    fn block_is_genesis() -> Self;
}

impl OperationError for Error {
    fn invalid_operation() -> (r: Self)
        ensures
            r == Error::InvalidOperation,
    {
        Error::InvalidOperation
    }

    fn block_is_genesis() -> (r: Self)
        ensures
            r == Error::IsGenesis,
    {
        Error::IsGenesis
    }
}

/// Copy a list of identifiers.
pub(crate) fn copy_ids(v: &Vec<u64>) -> (r: Vec<u64>)
    ensures
        r@ == v@,
{
    let mut out: Vec<u64> = Vec::new();
    let mut i: usize = 0;
    while i < v.len()
        invariant
            i <= v@.len(),
            out@ == v@.take(i as int),
        decreases v@.len() - i,
    {
        out.push(v[i]);
        i = i + 1;
        proof {
            assert(out@ == v@.take(i as int));
        }
    }
    proof {
        assert(v@.take(v@.len() as int) == v@);
    }
    out
}

/// Database backed by memory.
pub struct MemoryDatabase<B, A, S> {
    blocks_and_states: HashMap<u64, BlockData<B, S>>,
    head: u64,
    genesis: u64,
    canon_depth_mappings: HashMap<usize, u64>,
    auxiliaries: HashMap<u64, A>,
}

impl<B, A, S> View for MemoryDatabase<B, A, S> {
    type V = ChainSnapshot<B, S, A>;

    closed spec fn view(&self) -> ChainSnapshot<B, S, A> {
        ChainSnapshot {
            blocks: self.blocks_and_states@,
            head: self.head,
            genesis: self.genesis,
            canon_depth: self.canon_depth_mappings@,
            auxiliaries: self.auxiliaries@,
        }
    }
}

impl<B: Block, A: Auxiliary, S: ChainState> MemoryDatabase<B, A, S> {
    /// Create a store holding exactly one block, the given genesis, flagged
    /// canonical, at depth zero, with its state.
    pub fn new_with_genesis(block: B, genesis_state: S) -> (r: Self)
        requires
            block.spec_parent_id() is None,
        ensures
            r@.blocks.dom() =~= Set::<u64>::empty().insert(block.spec_id()),
            r@.blocks[block.spec_id()].block == block,
            r@.blocks[block.spec_id()].state == genesis_state,
            r@.blocks[block.spec_id()].depth == 0,
            r@.blocks[block.spec_id()].children@ =~= Seq::<u64>::empty(),
            r@.blocks[block.spec_id()].is_canon,
            r@.head == block.spec_id(),
            r@.genesis == block.spec_id(),
            r@.canon_depth =~= Map::<usize, u64>::empty().insert(0, block.spec_id()),
            r@.auxiliaries =~= Map::<u64, A>::empty(),
            r@.wf(),
    {
        let genesis_id = block.id();
        let mut blocks_and_states: HashMap<u64, BlockData<B, S>> = HashMap::new();
        let children: Vec<u64> = Vec::new();
        blocks_and_states.insert(
            genesis_id,
            BlockData { block, state: genesis_state, depth: 0, children, is_canon: true },
        );
        let mut canon_depth_mappings: HashMap<usize, u64> = HashMap::new();
        canon_depth_mappings.insert(0, genesis_id);
        let auxiliaries: HashMap<u64, A> = HashMap::new();
        let r = Self {
            blocks_and_states,
            head: genesis_id,
            genesis: genesis_id,
            canon_depth_mappings,
            auxiliaries,
        };
        proof {
            let v = r@;
            assert(v.blocks.dom() =~= Set::<u64>::empty().insert(genesis_id));
            assert(v.blocks.dom().len() == 1) by {
                assert(Set::<u64>::empty().insert(genesis_id).len() == 1);
            }
            assert(v.tree_wf());
            assert forall|p: u64, id: u64| v.has_block(p) && v.has_block(id) implies (
            #[trigger] v.blocks[p].children@.contains(id) <==> v.parent_of(id) == Some(p)) by {
                assert(v.blocks[p].children@.len() == 0);
            }
            assert(v.children_wf());
            assert(v.canon_wf());
            assert(v.aux_wf());
        }
        r
    }

    /// The number of stored blocks.
    pub fn block_count(&self) -> (r: usize)
        ensures
            r == self@.blocks.dom().len(),
    {
        self.blocks_and_states.len()
    }

    /// The head of the chain.
    pub fn head(&self) -> (r: u64)
        ensures
            r == self@.head,
    {
        self.head
    }

    /// The genesis identifier of the chain.
    pub fn genesis(&self) -> (r: u64)
        ensures
            r == self@.genesis,
    {
        self.genesis
    }

    /// Whether an identifier is contained in the store.
    pub fn contains(&self, id: &u64) -> (r: Result<bool, Error>)
        ensures
            r == Ok::<bool, Error>(self@.has_block(*id)),
    {
        Ok(self.blocks_and_states.contains_key(id))
    }

    /// Whether a stored block is on the canonical chain.
    pub fn is_canon(&self, id: &u64) -> (r: Result<bool, Error>)
        ensures
            match r {
                Ok(c) => self@.has_block(*id) && c == self@.blocks[*id].is_canon,
                Err(e) => !self@.has_block(*id) && e == Error::NotExist,
            },
    {
        match self.blocks_and_states.get(id) {
            Some(data) => Ok(data.is_canon),
            None => Err(Error::NotExist),
        }
    }

    /// Look up the canonical block at the given depth.
    pub fn lookup_canon_depth(&self, depth: usize) -> (r: Result<Option<u64>, Error>)
        ensures
            match r {
                Ok(found) => match found {
                    Some(id) => self@.canon_depth.contains_key(depth) && id == self@.canon_depth[depth],
                    None => !self@.canon_depth.contains_key(depth),
                },
                Err(_) => false,
            },
    {
        match self.canon_depth_mappings.get(&depth) {
            Some(id) => Ok(Some(*id)),
            None => Ok(None),
        }
    }

    /// Get the auxiliary record under the given key.
    pub fn auxiliary(&self, key: &u64) -> (r: Result<Option<A>, Error>)
        ensures
            match r {
                Ok(found) => match found {
                    Some(aux) => self@.auxiliaries.contains_key(*key) && aux == self@.auxiliaries[*key],
                    None => !self@.auxiliaries.contains_key(*key),
                },
                Err(_) => false,
            },
    {
        match self.auxiliaries.get(key) {
            Some(aux) => Ok(Some(aux.duplicate())),
            None => Ok(None),
        }
    }

    /// The children of a stored block.
    pub fn children_at(&self, id: &u64) -> (r: Result<Vec<u64>, Error>)
        ensures
            match r {
                Ok(children) => self@.has_block(*id) && children@ == self@.blocks[*id].children@,
                Err(e) => !self@.has_block(*id) && e == Error::NotExist,
            },
    {
        match self.blocks_and_states.get(id) {
            Some(data) => Ok(copy_ids(&data.children)),
            None => Err(Error::NotExist),
        }
    }

    /// The depth of a stored block.
    pub fn depth_at(&self, id: &u64) -> (r: Result<usize, Error>)
        ensures
            match r {
                Ok(depth) => self@.has_block(*id) && depth == self@.depth_of(*id),
                Err(e) => !self@.has_block(*id) && e == Error::NotExist,
            },
    {
        match self.blocks_and_states.get(id) {
            Some(data) => Ok(data.depth),
            None => Err(Error::NotExist),
        }
    }

    /// The stored block under the given identifier.
    pub fn block_at(&self, id: &u64) -> (r: Result<B, Error>)
        ensures
            match r {
                Ok(block) => self@.has_block(*id) && block == self@.blocks[*id].block,
                Err(e) => !self@.has_block(*id) && e == Error::NotExist,
            },
    {
        match self.blocks_and_states.get(id) {
            Some(data) => Ok(data.block.duplicate()),
            None => Err(Error::NotExist),
        }
    }

    /// The state snapshot of a stored block.
    pub fn state_at(&self, id: &u64) -> (r: Result<S, Error>)
        ensures
            match r {
                Ok(state) => self@.has_block(*id) && state@ == self@.blocks[*id].state@,
                Err(e) => !self@.has_block(*id) && e == Error::NotExist,
            },
    {
        match self.blocks_and_states.get(id) {
            Some(data) => Ok(data.state.duplicate()),
            None => Err(Error::NotExist),
        }
    }

    /// Insert a new block into the store. An unchecked primitive: the
    /// settlement engine establishes every precondition before calling.
    pub fn insert_block(
        &mut self,
        id: u64,
        block: B,
        state: S,
        depth: usize,
        children: Vec<u64>,
        is_canon: bool,
    )
        ensures
            final(self)@.blocks == old(self)@.blocks.insert(
                id,
                BlockData { block, state, depth, children, is_canon },
            ),
            final(self)@.head == old(self)@.head,
            final(self)@.genesis == old(self)@.genesis,
            final(self)@.canon_depth == old(self)@.canon_depth,
            final(self)@.auxiliaries == old(self)@.auxiliaries,
    {
        self.blocks_and_states.insert(
            id,
            BlockData { block, state, depth, children, is_canon },
        );
    }

    /// Append a child to a stored block's children list.
    pub fn push_child(&mut self, id: u64, child: u64)
        requires
            old(self)@.has_block(id),
        ensures
            final(self)@.blocks.dom() == old(self)@.blocks.dom(),
            final(self)@.blocks[id].children@ == old(self)@.blocks[id].children@.push(child),
            final(self)@.blocks[id].block == old(self)@.blocks[id].block,
            final(self)@.blocks[id].state == old(self)@.blocks[id].state,
            final(self)@.blocks[id].depth == old(self)@.blocks[id].depth,
            final(self)@.blocks[id].is_canon == old(self)@.blocks[id].is_canon,
            forall|k: u64|
                k != id ==> final(self)@.blocks.contains_key(k) == old(
                    self,
                )@.blocks.contains_key(k) && (old(self)@.blocks.contains_key(k)
                    ==> #[trigger] final(self)@.blocks[k] == old(self)@.blocks[k]),
            final(self)@.head == old(self)@.head,
            final(self)@.genesis == old(self)@.genesis,
            final(self)@.canon_depth == old(self)@.canon_depth,
            final(self)@.auxiliaries == old(self)@.auxiliaries,
    {
        match self.blocks_and_states.remove(&id) {
            Some(mut data) => {
                data.children.push(child);
                self.blocks_and_states.insert(id, data);
                proof {
                    assert(final(self)@.blocks.dom() =~= old(self)@.blocks.dom());
                }
            },
            None => {
                proof {
                    assert(false);
                }
            },
        }
    }

    /// Set the canonical flag of a stored block.
    pub fn set_canon(&mut self, id: u64, is_canon: bool)
        requires
            old(self)@.has_block(id),
        ensures
            final(self)@.blocks.dom() == old(self)@.blocks.dom(),
            final(self)@.blocks[id].children@ == old(self)@.blocks[id].children@,
            final(self)@.blocks[id].block == old(self)@.blocks[id].block,
            final(self)@.blocks[id].state == old(self)@.blocks[id].state,
            final(self)@.blocks[id].depth == old(self)@.blocks[id].depth,
            final(self)@.blocks[id].is_canon == is_canon,
            forall|k: u64|
                k != id ==> final(self)@.blocks.contains_key(k) == old(
                    self,
                )@.blocks.contains_key(k) && (old(self)@.blocks.contains_key(k)
                    ==> #[trigger] final(self)@.blocks[k] == old(self)@.blocks[k]),
            final(self)@.head == old(self)@.head,
            final(self)@.genesis == old(self)@.genesis,
            final(self)@.canon_depth == old(self)@.canon_depth,
            final(self)@.auxiliaries == old(self)@.auxiliaries,
    {
        match self.blocks_and_states.remove(&id) {
            Some(mut data) => {
                data.is_canon = is_canon;
                self.blocks_and_states.insert(id, data);
                proof {
                    assert(final(self)@.blocks.dom() =~= old(self)@.blocks.dom());
                }
            },
            None => {
                proof {
                    assert(false);
                }
            },
        }
    }

    /// Insert a canonical-depth index entry.
    pub fn insert_canon_depth_mapping(&mut self, depth: usize, id: u64)
        ensures
            final(self)@.canon_depth == old(self)@.canon_depth.insert(depth, id),
            final(self)@.blocks == old(self)@.blocks,
            final(self)@.head == old(self)@.head,
            final(self)@.genesis == old(self)@.genesis,
            final(self)@.auxiliaries == old(self)@.auxiliaries,
    {
        self.canon_depth_mappings.insert(depth, id);
    }

    /// Remove a canonical-depth index entry.
    pub fn remove_canon_depth_mapping(&mut self, depth: &usize)
        ensures
            final(self)@.canon_depth == old(self)@.canon_depth.remove(*depth),
            final(self)@.blocks == old(self)@.blocks,
            final(self)@.head == old(self)@.head,
            final(self)@.genesis == old(self)@.genesis,
            final(self)@.auxiliaries == old(self)@.auxiliaries,
    {
        self.canon_depth_mappings.remove(depth);
    }

    /// Insert an auxiliary record under the given key.
    pub fn insert_auxiliary(&mut self, key: u64, value: A)
        ensures
            final(self)@.auxiliaries == old(self)@.auxiliaries.insert(key, value),
            final(self)@.blocks == old(self)@.blocks,
            final(self)@.head == old(self)@.head,
            final(self)@.genesis == old(self)@.genesis,
            final(self)@.canon_depth == old(self)@.canon_depth,
    {
        self.auxiliaries.insert(key, value);
    }

    /// Remove the auxiliary record under the given key.
    pub fn remove_auxiliary(&mut self, key: &u64)
        ensures
            final(self)@.auxiliaries == old(self)@.auxiliaries.remove(*key),
            final(self)@.blocks == old(self)@.blocks,
            final(self)@.head == old(self)@.head,
            final(self)@.genesis == old(self)@.genesis,
            final(self)@.canon_depth == old(self)@.canon_depth,
    {
        self.auxiliaries.remove(key);
    }

    /// Set the head of the chain.
    pub fn set_head(&mut self, head: u64)
        ensures
            final(self)@.head == head,
            final(self)@.blocks == old(self)@.blocks,
            final(self)@.genesis == old(self)@.genesis,
            final(self)@.canon_depth == old(self)@.canon_depth,
            final(self)@.auxiliaries == old(self)@.auxiliaries,
    {
        self.head = head;
    }
}

/// Memory backend: the in-memory database behind the committable interface.
pub struct MemoryBackend<B, A, S>(MemoryDatabase<B, A, S>);

impl<B, A, S> View for MemoryBackend<B, A, S> {
    type V = ChainSnapshot<B, S, A>;

    closed spec fn view(&self) -> ChainSnapshot<B, S, A> {
        self.0@
    }
}

impl<B: Block, A: Auxiliary, S: ChainState> MemoryBackend<B, A, S> {
    /// Create a new memory backend holding only the given genesis block.
    pub fn new_with_genesis(block: B, genesis_state: S) -> (r: Self)
        requires
            block.spec_parent_id() is None,
        ensures
            r@.blocks.dom() =~= Set::<u64>::empty().insert(block.spec_id()),
            r@.blocks[block.spec_id()].block == block,
            r@.blocks[block.spec_id()].state == genesis_state,
            r@.blocks[block.spec_id()].depth == 0,
            r@.blocks[block.spec_id()].children@ =~= Seq::<u64>::empty(),
            r@.blocks[block.spec_id()].is_canon,
            r@.head == block.spec_id(),
            r@.genesis == block.spec_id(),
            r@.canon_depth =~= Map::<usize, u64>::empty().insert(0, block.spec_id()),
            r@.auxiliaries =~= Map::<u64, A>::empty(),
            r@.wf(),
    {
        Self(MemoryDatabase::new_with_genesis(block, genesis_state))
    }

    /// The genesis identifier of the chain.
    pub fn genesis(&self) -> (r: u64)
        ensures
            r == self@.genesis,
    {
        self.0.genesis()
    }

    /// The number of stored blocks.
    pub fn block_count(&self) -> (r: usize)
        ensures
            r == self@.blocks.dom().len(),
    {
        self.0.block_count()
    }

    /// The head of the chain.
    pub fn head(&self) -> (r: u64)
        ensures
            r == self@.head,
    {
        self.0.head()
    }

    /// Whether an identifier is contained in the store.
    pub fn contains(&self, hash: &u64) -> (r: Result<bool, Error>)
        ensures
            r == Ok::<bool, Error>(self@.has_block(*hash)),
    {
        self.0.contains(hash)
    }

    /// Whether a stored block is on the canonical chain.
    pub fn is_canon(&self, hash: &u64) -> (r: Result<bool, Error>)
        ensures
            match r {
                Ok(c) => self@.has_block(*hash) && c == self@.blocks[*hash].is_canon,
                Err(e) => !self@.has_block(*hash) && e == Error::NotExist,
            },
    {
        self.0.is_canon(hash)
    }

    /// Look up the canonical block at the given depth.
    pub fn lookup_canon_depth(&self, depth: usize) -> (r: Result<Option<u64>, Error>)
        ensures
            match r {
                Ok(found) => match found {
                    Some(id) => self@.canon_depth.contains_key(depth) && id
                        == self@.canon_depth[depth],
                    None => !self@.canon_depth.contains_key(depth),
                },
                Err(_) => false,
            },
    {
        self.0.lookup_canon_depth(depth)
    }

    /// Get the auxiliary record under the given key.
    pub fn auxiliary(&self, key: &u64) -> (r: Result<Option<A>, Error>)
        ensures
            match r {
                Ok(found) => match found {
                    Some(aux) => self@.auxiliaries.contains_key(*key) && aux
                        == self@.auxiliaries[*key],
                    None => !self@.auxiliaries.contains_key(*key),
                },
                Err(_) => false,
            },
    {
        self.0.auxiliary(key)
    }

    /// The depth of a stored block.
    pub fn depth_at(&self, hash: &u64) -> (r: Result<usize, Error>)
        ensures
            match r {
                Ok(depth) => self@.has_block(*hash) && depth == self@.depth_of(*hash),
                Err(e) => !self@.has_block(*hash) && e == Error::NotExist,
            },
    {
        self.0.depth_at(hash)
    }

    /// The children of a stored block.
    pub fn children_at(&self, hash: &u64) -> (r: Result<Vec<u64>, Error>)
        ensures
            match r {
                Ok(children) => self@.has_block(*hash) && children@
                    == self@.blocks[*hash].children@,
                Err(e) => !self@.has_block(*hash) && e == Error::NotExist,
            },
    {
        self.0.children_at(hash)
    }

    /// The state snapshot of a stored block.
    pub fn state_at(&self, hash: &u64) -> (r: Result<S, Error>)
        ensures
            match r {
                Ok(state) => self@.has_block(*hash) && state@ == self@.blocks[*hash].state@,
                Err(e) => !self@.has_block(*hash) && e == Error::NotExist,
            },
    {
        self.0.state_at(hash)
    }

    /// The stored block under the given identifier.
    pub fn block_at(&self, hash: &u64) -> (r: Result<B, Error>)
        ensures
            match r {
                Ok(block) => self@.has_block(*hash) && block == self@.blocks[*hash].block,
                Err(e) => !self@.has_block(*hash) && e == Error::NotExist,
            },
    {
        self.0.block_at(hash)
    }

    /// Compute the tree route between two stored blocks; see
    /// [`tree_route`](crate::route::tree_route).
    pub fn tree_route(&self, from: &u64, to: &u64) -> (r: Result<crate::route::TreeRoute, Error>)
        requires
            self@.tree_wf(),
            self@.has_block(*from),
            self@.has_block(*to),
        ensures
            r matches Ok(route) && crate::route::is_tree_route(
                self@,
                *from,
                *to,
                route.spec_route(),
                route.spec_pivot(),
            ),
    {
        crate::route::tree_route(&self.0, from, to)
    }

    /// Commit an operation: settle it against the store in one atomic,
    /// pre-validated step. The contract is that of
    /// [`Operation::settle`](crate::operation::Operation::settle).
    pub fn commit(&mut self, operation: Operation<B, S, A>) -> (r: Result<(), Error>)
        requires
            old(self)@.wf(),
            old(self)@.blocks.dom().len() + operation.import_block@.len() <= usize::MAX,
        ensures
            r is Ok <==> (all_have_parents(operation.import_block@) && fresh_ids(
                old(self)@,
                operation.import_block@,
            ) && admissible(old(self)@, operation.import_block@) && head_target_ok(
                old(self)@,
                operation.import_block@,
                operation.set_head,
            ) && auxiliaries_ok(old(self)@, operation.import_block@, operation.insert_auxiliaries@)),
            r matches Err(e) ==> final(self)@ == old(self)@ && (e == Error::IsGenesis || e
                == Error::InvalidOperation) && (e == Error::IsGenesis <==> !all_have_parents(
                operation.import_block@,
            )),
            r is Ok ==> final(self)@.wf(),
            r is Ok ==> final(self)@.genesis == old(self)@.genesis,
            r is Ok ==> final(self)@.head == (if operation.set_head is Some {
                operation.set_head->0
            } else {
                old(self)@.head
            }),
            r is Ok ==> forall|id: u64| #[trigger]
                final(self)@.has_block(id) <==> (old(self)@.has_block(id) || ops_has_id(
                    operation.import_block@,
                    id,
                )),
            r is Ok ==> forall|id: u64|
                old(self)@.has_block(id) ==> {
                    &&& #[trigger] final(self)@.blocks[id].block == old(self)@.blocks[id].block
                    &&& final(self)@.blocks[id].state == old(self)@.blocks[id].state
                    &&& final(self)@.blocks[id].depth == old(self)@.blocks[id].depth
                },
            r is Ok ==> forall|i: int|
                0 <= i < operation.import_block@.len() ==> {
                    let id = (#[trigger] operation.import_block@[i].block.spec_id());
                    let pq = operation.import_block@[i].block.spec_parent_id()->0;
                    &&& final(self)@.blocks[id].block == operation.import_block@[i].block
                    &&& final(self)@.blocks[id].state@ == operation.import_block@[i].state@
                    &&& final(self)@.has_block(pq)
                    &&& final(self)@.depth_of(id) == final(self)@.depth_of(pq) + 1
                },
            r is Ok ==> final(self)@.auxiliaries == insert_auxes(
                remove_aux_keys(old(self)@.auxiliaries, operation.remove_auxiliaries@),
                operation.insert_auxiliaries@,
            ),
    {
        operation.settle(&mut self.0)
    }
}

} // verus!

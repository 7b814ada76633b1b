//! The longest-depth reference policy: a status that advertises the head's
//! depth, and an importer that moves the head to a new block exactly when
//! the block's depth strictly exceeds the current head's.

use vstd::prelude::*;
use crate::traits::{Block, Auxiliary, ChainState, BlockExecutor};
use crate::snapshot::ChainSnapshot;
use crate::memory::{MemoryBackend, Error as BackendError};
use crate::import::ImportAction;
use crate::operation::{depths_ok, admissible};

verus! {

/// A chain status carrying the depth of the canonical head. Statuses are
/// ordered numerically on the depth.
#[derive(Clone, Copy, Debug, PartialEq, Eq, Structural)]
pub struct BestDepthStatus {
    /// The depth of the canonical head.
    pub best_depth: u64,
}

impl BestDepthStatus {
    /// Whether this status is strictly ahead of another.
    pub fn exceeds(&self, other: &Self) -> (r: bool)
        ensures
            r == (self.best_depth > other.best_depth),
    {
        self.best_depth > other.best_depth
    }
}

impl crate::sync::Status for BestDepthStatus {
    open spec fn spec_exceeds(&self, other: &Self) -> bool {
        self.best_depth > other.best_depth
    }

    fn exceeds(&self, other: &Self) -> (r: bool) {
        self.best_depth > other.best_depth
    }

    fn duplicate(&self) -> (r: Self) {
        *self
    }
}

/// Produce a best-depth status by reading the head's depth from the store it
/// owns.
pub struct BestDepthStatusProducer<B, A, S> {
    backend: MemoryBackend<B, A, S>,
}

impl<B: Block, A: Auxiliary, S: ChainState> BestDepthStatusProducer<B, A, S> {
    /// The store's snapshot, at the specification level.
    pub closed spec fn chain(&self) -> ChainSnapshot<B, S, A> {
        self.backend@
    }

    /// Create a new producer around the given store.
    pub fn new(backend: MemoryBackend<B, A, S>) -> (r: Self)
        ensures
            r.chain() == backend@,
    {
        Self { backend }
    }

    /// Generate the current status: the depth of the canonical head.
    pub fn generate(&self) -> (r: BestDepthStatus)
        requires
            self.chain().wf(),
        ensures
            r.best_depth == self.chain().depth_of(self.chain().head) as u64,
    {
        let best_hash = self.backend.head();
        match self.backend.depth_at(&best_hash) {
            Ok(depth) => BestDepthStatus { best_depth: depth as u64 },
            Err(_) => {
                proof {
                    assert(false);
                }
                BestDepthStatus { best_depth: 0 }
            },
        }
    }
}

/// Errors of the longest-depth importer.
#[derive(Debug)]
pub enum BestDepthError<EE> {
    /// The underlying store failed or rejected the import.
    Backend(BackendError),
    /// The runtime executor rejected the block.
    Executor(EE),
}

/// The longest-depth importer: executes a block against its parent's state,
/// imports it, and moves the head to it exactly when its depth strictly
/// exceeds the current head's. The head's depth therefore never decreases.
pub struct BestDepthImporter<E: BlockExecutor, A> {
    backend: MemoryBackend<E::Block, A, E::Externalities>,
    executor: E,
}

impl<E: BlockExecutor, A: Auxiliary> BestDepthImporter<E, A> where
    E::Block: Block,
    E::Externalities: ChainState,
 {
    /// The store's snapshot, at the specification level.
    pub closed spec fn chain(&self) -> ChainSnapshot<E::Block, E::Externalities, A> {
        self.backend@
    }

    /// Create a new importer around the given executor and store.
    pub fn new(
        executor: E,
        backend: MemoryBackend<E::Block, A, E::Externalities>,
    ) -> (r: Self)
        ensures
            r.chain() == backend@,
    {
        Self { backend, executor }
    }

    /// The store held by the importer.
    pub fn backend(&self) -> (r: &MemoryBackend<E::Block, A, E::Externalities>)
        ensures
            r@ == self.chain(),
    {
        &self.backend
    }

    /// Import one block under the longest-depth rule. On success the block
    /// sits one level below its parent, and the head has moved to it exactly
    /// when that level strictly exceeds the old head's depth: the head's
    /// depth never decreases, and increases precisely on a strictly deeper
    /// block.
    pub fn import_block(&mut self, block: E::Block) -> (r: Result<(), BestDepthError<E::Error>>)
        requires
            old(self).chain().wf(),
            old(self).chain().blocks.dom().len() < usize::MAX,
        ensures
            match r {
                Ok(()) => {
                    let c0 = old(self).chain();
                    let cf = final(self).chain();
                    let id = block.spec_id();
                    let pq = block.spec_parent_id()->0;
                    &&& block.spec_parent_id() is Some
                    &&& c0.has_block(pq)
                    &&& !c0.has_block(id)
                    &&& cf.wf()
                    &&& cf.genesis == c0.genesis
                    &&& forall|x: u64| #[trigger] cf.has_block(x) <==> (c0.has_block(x) || x == id)
                    &&& cf.blocks[id].block == block
                    &&& cf.depth_of(id) == c0.depth_of(pq) + 1
                    &&& cf.head == (if c0.depth_of(pq) + 1 > c0.depth_of(c0.head) {
                        id
                    } else {
                        c0.head
                    })
                    &&& cf.depth_of(cf.head) >= c0.depth_of(c0.head)
                    &&& (cf.depth_of(cf.head) > c0.depth_of(c0.head) <==> c0.depth_of(pq) + 1
                        > c0.depth_of(c0.head))
                },
                Err(e) => {
                    &&& final(self).chain() == old(self).chain()
                    &&& match e {
                        BestDepthError::Backend(be) => {
                            &&& (be == BackendError::IsGenesis <==> block.spec_parent_id() is None)
                            &&& (be == BackendError::NotExist ==> block.spec_parent_id() is Some
                                && !old(self).chain().has_block(block.spec_parent_id()->0))
                            &&& (be == BackendError::InvalidOperation ==> old(
                                self,
                            ).chain().has_block(block.spec_id()))
                        },
                        BestDepthError::Executor(_) => block.spec_parent_id() is Some && old(
                            self,
                        ).chain().has_block(block.spec_parent_id()->0),
                    }
                },
            },
    {
        let ghost c0 = self.backend@;
        let new_hash = block.id();
        let parent = match block.parent_id() {
            Some(p) => p,
            None => {
                return Err(BestDepthError::Backend(BackendError::IsGenesis));
            },
        };
        let current_best_hash = self.backend.head();
        let current_best_depth = match self.backend.depth_at(&current_best_hash) {
            Ok(d) => d,
            Err(_) => {
                proof {
                    assert(false);
                }
                0
            },
        };
        let parent_depth = match self.backend.depth_at(&parent) {
            Ok(d) => d,
            Err(_) => {
                return Err(BestDepthError::Backend(BackendError::NotExist));
            },
        };
        proof {
            assert(c0.depth_of(parent) < c0.blocks.dom().len());
        }
        let new_depth = parent_depth + 1;
        let mut state = match self.backend.state_at(&parent) {
            Ok(s) => s,
            Err(_) => {
                proof {
                    assert(false);
                }
                return Err(BestDepthError::Backend(BackendError::NotExist));
            },
        };
        match self.executor.execute_block(&block, &mut state) {
            Ok(()) => {},
            Err(e) => {
                return Err(BestDepthError::Executor(e));
            },
        }
        let mut action = ImportAction::<E::Block, E::Externalities, A>::new();
        let ghost blk = block;
        action.import_block(block, state);
        if new_depth > current_best_depth {
            action.set_head(new_hash);
        }
        proof {
            let ops = action.spec_pending().import_block@;
            assert(ops.len() == 1 && ops[0].block == blk);
            let witness = seq![new_depth];
            assert(depths_ok(c0, ops, witness));
            assert(admissible(c0, ops));
        }
        match action.commit(&mut self.backend) {
            Ok(()) => {
                proof {
                    let cf = self.backend@;
                    assert(crate::operation::ops_has_id(
                        action.spec_pending().import_block@,
                        blk.spec_id(),
                    ));
                    assert forall|x: u64| #[trigger] cf.has_block(x) <==> (c0.has_block(x) || x
                        == blk.spec_id()) by {
                        if crate::operation::ops_has_id(action.spec_pending().import_block@, x) {
                            let i = choose|i: int|
                                0 <= i < action.spec_pending().import_block@.len() && (
                                #[trigger] action.spec_pending().import_block@[i].block.spec_id())
                                    == x;
                        }
                    }
                    assert(cf.depth_of(blk.spec_id()) == cf.depth_of(parent) + 1);
                    assert(cf.blocks[parent].block == c0.blocks[parent].block);
                    assert(cf.depth_of(parent) == c0.depth_of(parent));
                    if new_depth > current_best_depth {
                        assert(cf.head == blk.spec_id());
                    } else {
                        assert(cf.head == c0.head);
                        assert(cf.blocks[c0.head].block == c0.blocks[c0.head].block);
                        assert(cf.depth_of(c0.head) == c0.depth_of(c0.head));
                    }
                }
                Ok(())
            },
            Err(e) => {
                proof {
                    assert(e == BackendError::InvalidOperation);
                    assert(!crate::operation::fresh_ids(
                        c0,
                        action.spec_pending().import_block@,
                    ));
                    assert(c0.has_block(blk.spec_id()));
                }
                Err(BestDepthError::Backend(e))
            },
        }
    }
}

} // verus!

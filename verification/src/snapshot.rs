//! The mathematical model of a chain store: a snapshot of its tables, and
//! the invariants every committed store satisfies.

use vstd::prelude::*;
use crate::traits::{Block, Auxiliary};
use crate::operation::BlockData;

verus! {

/// A specification-level snapshot of a chain store: the block table, the
/// head and genesis identifiers, the canonical-depth index and the auxiliary
/// table.
pub struct ChainSnapshot<B, S, A> {
    /// Every stored block, keyed by identifier.
    pub blocks: Map<u64, BlockData<B, S>>,
    /// The identifier of the canonical tip.
    pub head: u64,
    /// The identifier of the unique depth-zero block.
    pub genesis: u64,
    /// Depth to identifier, defined exactly for canonical blocks.
    pub canon_depth: Map<usize, u64>,
    /// Auxiliary records, keyed by their own key.
    pub auxiliaries: Map<u64, A>,
}

impl<B: Block, S, A: Auxiliary> ChainSnapshot<B, S, A> {
    /// Whether a block with this identifier is stored.
    pub open spec fn has_block(self, id: u64) -> bool {
        self.blocks.contains_key(id)
    }

    /// The depth of a stored block.
    pub open spec fn depth_of(self, id: u64) -> usize {
        self.blocks[id].depth
    }

    /// The parent identifier of a stored block.
    pub open spec fn parent_of(self, id: u64) -> Option<u64> {
        self.blocks[id].block.spec_parent_id()
    }

    /// The tree shape of the store: genesis is stored, parentless and at
    /// depth zero; every other block is keyed by its own identifier, has its
    /// parent stored, and sits one level below it. Depths stay strictly
    /// below the number of stored blocks, so a child's depth always fits.
    pub open spec fn tree_wf(self) -> bool {
        &&& self.blocks.dom().finite()
        &&& self.has_block(self.genesis)
        &&& self.has_block(self.head)
        &&& self.parent_of(self.genesis) is None
        &&& self.depth_of(self.genesis) == 0
        &&& forall|id: u64|
            self.has_block(id) ==> #[trigger] self.blocks[id].block.spec_id() == id
        &&& forall|id: u64|
            self.has_block(id) && #[trigger] self.parent_of(id) is None ==> id == self.genesis
        &&& forall|id: u64|
            self.has_block(id) && id != self.genesis ==> {
                let p = #[trigger] self.parent_of(id);
                &&& p is Some
                &&& self.has_block(p->0)
                &&& self.depth_of(id) == self.depth_of(p->0) + 1
            }
        &&& forall|id: u64|
            self.has_block(id) ==> #[trigger] self.depth_of(id) < self.blocks.dom().len()
    }

    /// The children lists materialize the inverse of the parent relation:
    /// a stored identifier appears in the children of a stored block exactly
    /// when that block is its parent, children lists never repeat an entry,
    /// and every entry is stored.
    pub open spec fn children_wf(self) -> bool {
        &&& forall|p: u64, i: int|
            self.has_block(p) && 0 <= i < self.blocks[p].children@.len()
                ==> self.has_block(#[trigger] self.blocks[p].children@[i])
        &&& forall|p: u64, i: int, j: int|
            self.has_block(p) && 0 <= i < j < self.blocks[p].children@.len()
                ==> #[trigger] self.blocks[p].children@[i] != #[trigger] self.blocks[p].children@[j]
        &&& forall|p: u64, id: u64|
            self.has_block(p) && self.has_block(id) ==> (#[trigger] self.blocks[p].children@.contains(
                id,
            ) <==> self.parent_of(id) == Some(p))
    }

    /// The canonical chain is the parent-linked path that the depth index
    /// spells out: the index is defined exactly on the depths up to the
    /// head's, each entry is a stored block of that depth flagged canonical
    /// with its predecessor as parent, the top entry is the head, and a
    /// block flagged canonical is exactly the entry at its depth.
    pub open spec fn canon_wf(self) -> bool {
        &&& forall|d: usize| #[trigger]
            self.canon_depth.contains_key(d) <==> d <= self.depth_of(self.head)
        &&& forall|d: usize|
            self.canon_depth.contains_key(d) ==> {
                let id = #[trigger] self.canon_depth[d];
                &&& self.has_block(id)
                &&& self.depth_of(id) == d
                &&& self.blocks[id].is_canon
            }
        &&& self.canon_depth.contains_key(self.depth_of(self.head)) && self.canon_depth[self.depth_of(
            self.head,
        )] == self.head
        &&& forall|d: usize|
            self.canon_depth.contains_key(d) && 1 <= d ==> #[trigger] self.parent_of(
                self.canon_depth[d],
            ) == Some(self.canon_depth[(d - 1) as usize])
        &&& forall|id: u64|
            self.has_block(id) && #[trigger] self.blocks[id].is_canon ==> self.canon_depth.contains_key(
                self.depth_of(id),
            ) && self.canon_depth[self.depth_of(id)] == id
    }

    /// Every auxiliary record is keyed by its own key, and every block it is
    /// associated with is stored.
    pub open spec fn aux_wf(self) -> bool {
        forall|k: u64|
            #[trigger] self.auxiliaries.contains_key(k) ==> {
                &&& self.auxiliaries[k].spec_key() == k
                &&& forall|i: int|
                    0 <= i < self.auxiliaries[k].spec_associated().len() ==> self.has_block(
                        #[trigger] self.auxiliaries[k].spec_associated()[i],
                    )
            }
    }

    /// All invariants of a committed store.
    pub open spec fn wf(self) -> bool {
        &&& self.tree_wf()
        &&& self.children_wf()
        &&& self.canon_wf()
        &&& self.aux_wf()
    }
}

} // verus!

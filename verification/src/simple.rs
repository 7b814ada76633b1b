//! The reference wire protocol: status broadcast, block requests over a
//! canonical-depth range, and block responses fed to an importer. The
//! network itself stays behind a handle the caller implements.

use vstd::prelude::*;
use crate::traits::{Block, Auxiliary, ChainState, BlockImporter};
use crate::memory::MemoryBackend;
use crate::depth::BestDepthStatus;

verus! {

/// The identifier and message types a network is built from.
pub trait NetworkEnvironment {
    /// Peer identifier type.
    type PeerId;

    /// Message type.
    type Message;
}

/// An outbound handle: send a message to one peer, or to all of them.
pub trait NetworkHandle: NetworkEnvironment {
    /// Send a message to the given peer.
    fn send(&mut self, peer: &Self::PeerId, message: Self::Message);

    /// Send a message to every peer.
    fn broadcast(&mut self, message: Self::Message);
}

/// An inbound sink: what a network calls on a timer tick and on a message.
pub trait NetworkEvent: NetworkEnvironment {
    /// React to a timer tick.
    fn on_tick<HA: NetworkHandle<PeerId = Self::PeerId, Message = Self::Message>>(
        &mut self,
        handle: &mut HA,
    );

    /// React to an inbound message.
    fn on_message<HA: NetworkHandle<PeerId = Self::PeerId, Message = Self::Message>>(
        &mut self,
        handle: &mut HA,
        peer: &Self::PeerId,
        message: Self::Message,
    );
}

/// The wire messages of the reference protocol.
#[derive(Clone, Debug)]
pub enum SimpleSyncMessage<B> {
    /// The sender's chain status.
    Status(BestDepthStatus),
    /// A request for up to `count` canonical blocks from `start_depth` on.
    BlockRequest {
        /// The depth of the first requested block.
        start_depth: u64,
        /// How many blocks are requested.
        count: u64,
    },
    /// The canonical blocks answering a request, in depth order.
    BlockResponse {
        /// The returned blocks.
        blocks: Vec<B>,
    },
}

/// How many blocks one request asks for.
pub const BLOCK_REQUEST_COUNT: u64 = 256;

/// The reference protocol handler: it owns the store it answers from and the
/// importer it feeds, broadcasts its status on every tick, asks a peer that
/// advertises a deeper chain for the blocks above its own head, answers
/// block requests from the canonical chain, and imports responses in order.
pub struct SimpleSync<B, A, S, I> {
    backend: MemoryBackend<B, A, S>,
    importer: I,
}

impl<B: Block, A: Auxiliary, S: ChainState, I: BlockImporter<Block = B>> SimpleSync<B, A, S, I> {
    /// The store's snapshot, at the specification level.
    pub closed spec fn chain(&self) -> crate::snapshot::ChainSnapshot<B, S, A> {
        self.backend@
    }

    /// Create a new handler around the given store and importer.
    pub fn new(backend: MemoryBackend<B, A, S>, importer: I) -> (r: Self)
        ensures
            r.chain() == backend@,
    {
        Self { backend, importer }
    }

    /// What one entry of a canonical-range answer is: the block of the
    /// canonical-depth index entry at its depth.
    pub open spec fn range_entry_ok(&self, start_depth: u64, j: int, b: B) -> bool {
        let d = (start_depth + j) as usize;
        &&& start_depth + j <= usize::MAX
        &&& self.chain().canon_depth.contains_key(d)
        &&& self.chain().has_block(self.chain().canon_depth[d])
        &&& b == self.chain().blocks[self.chain().canon_depth[d]].block
    }

    /// The canonical blocks from `start_depth` on, at most `count` of them,
    /// stopping at the first depth with no canonical block.
    #[verifier::loop_isolation(false)]
    pub fn canonical_range(&self, start_depth: u64, count: u64) -> (r: Vec<B>)
        requires
            self.chain().wf(),
        ensures
            r@.len() <= count,
            forall|j: int|
                0 <= j < r@.len() ==> self.range_entry_ok(start_depth, j, #[trigger] r@[j]),
            r@.len() < count ==> (start_depth + r@.len() > usize::MAX || !self.chain().canon_depth.contains_key(
                ((start_depth + r@.len()) as usize),
            )),
    {
        let mut ret: Vec<B> = Vec::new();
        let mut j: u64 = 0;
        while j < count
            invariant
                j <= count,
                ret@.len() == j,
                forall|k: int|
                    0 <= k < ret@.len() ==> self.range_entry_ok(start_depth, k, #[trigger] ret@[k]),
            decreases count - j,
        {
            if j > usize::MAX as u64 || start_depth > usize::MAX as u64 - j {
                return ret;
            }
            let d = (start_depth + j) as usize;
            let hash = match self.backend.lookup_canon_depth(d) {
                Ok(Some(hash)) => hash,
                Ok(None) => {
                    return ret;
                },
                Err(_) => {
                    proof {
                        assert(false);
                    }
                    return ret;
                },
            };
            match self.backend.block_at(&hash) {
                Ok(block) => {
                    ret.push(block);
                },
                Err(_) => {
                    proof {
                        assert(false);
                    }
                    return ret;
                },
            }
            j = j + 1;
        }
        ret
    }

    /// The message broadcast on a tick: the local status, carrying the
    /// head's depth.
    pub fn status_broadcast(&self) -> (r: SimpleSyncMessage<B>)
        requires
            self.chain().wf(),
        ensures
            r == SimpleSyncMessage::<B>::Status(
                BestDepthStatus {
                    best_depth: self.chain().depth_of(self.chain().head) as u64,
                },
            ),
    {
        let best_hash = self.backend.head();
        let best_depth = match self.backend.depth_at(&best_hash) {
            Ok(d) => d,
            Err(_) => {
                proof {
                    assert(false);
                }
                0
            },
        };
        SimpleSyncMessage::Status(BestDepthStatus { best_depth: best_depth as u64 })
    }

    /// The reply owed to a peer's advertised status: a block request for the
    /// blocks above the local head, exactly when the peer's status is
    /// strictly ahead of the local depth; nothing otherwise.
    pub fn status_reply(&self, peer_status: &BestDepthStatus) -> (r: Option<SimpleSyncMessage<B>>)
        requires
            self.chain().wf(),
        ensures
            r is Some <==> peer_status.best_depth > self.chain().depth_of(self.chain().head)
                as u64,
            match r {
                Some(m) => m matches SimpleSyncMessage::BlockRequest { start_depth, count }
                    && start_depth == self.chain().depth_of(self.chain().head) + 1 && count
                    == BLOCK_REQUEST_COUNT,
                None => true,
            },
    {
        let best_hash = self.backend.head();
        let best_depth = match self.backend.depth_at(&best_hash) {
            Ok(d) => d,
            Err(_) => {
                proof {
                    assert(false);
                }
                0
            },
        };
        if peer_status.best_depth > best_depth as u64 {
            Some(
                SimpleSyncMessage::BlockRequest {
                    start_depth: best_depth as u64 + 1,
                    count: BLOCK_REQUEST_COUNT,
                },
            )
        } else {
            None
        }
    }

    /// The answer owed to a block request: the canonical blocks at the
    /// consecutive depths from `start_depth` on, in depth order, stopping at
    /// the first depth with no canonical block and after at most `count`.
    pub fn block_reply(&self, start_depth: u64, count: u64) -> (r: SimpleSyncMessage<B>)
        requires
            self.chain().wf(),
        ensures
            (r matches SimpleSyncMessage::BlockResponse { blocks } && {
                &&& blocks@.len() <= count
                &&& forall|j: int|
                    0 <= j < blocks@.len() ==> self.range_entry_ok(
                        start_depth,
                        j,
                        #[trigger] blocks@[j],
                    )
                &&& (blocks@.len() < count ==> (start_depth + blocks@.len() > usize::MAX
                    || !self.chain().canon_depth.contains_key(
                    ((start_depth + blocks@.len()) as usize),
                )))
            }),
    {
        SimpleSyncMessage::BlockResponse { blocks: self.canonical_range(start_depth, count) }
    }

    /// React to a timer tick: broadcast the local status, the value
    /// [`status_broadcast`](Self::status_broadcast) pins.
    pub fn on_tick<HA: NetworkHandle<PeerId = u64, Message = SimpleSyncMessage<B>>>(
        &mut self,
        handle: &mut HA,
    )
        requires
            old(self).chain().wf(),
        ensures
            final(self).chain() == old(self).chain(),
    {
        let message = self.status_broadcast();
        handle.broadcast(message);
    }

    /// React to an inbound message. What goes back out is decided by the
    /// contracted functions and handed to the handle unchanged: a status is
    /// answered with [`status_reply`](Self::status_reply) when that is
    /// `Some`, a block request with [`block_reply`](Self::block_reply); a
    /// block response is fed to the importer in order, stopping at the first
    /// import error.
    pub fn on_message<HA: NetworkHandle<PeerId = u64, Message = SimpleSyncMessage<B>>>(
        &mut self,
        handle: &mut HA,
        peer: &u64,
        message: SimpleSyncMessage<B>,
    )
        requires
            old(self).chain().wf(),
        ensures
            final(self).chain() == old(self).chain(),
    {
        match message {
            SimpleSyncMessage::Status(peer_status) => {
                match self.status_reply(&peer_status) {
                    Some(reply) => {
                        handle.send(peer, reply);
                    },
                    None => {},
                }
            },
            SimpleSyncMessage::BlockRequest { start_depth, count } => {
                let reply = self.block_reply(start_depth, count);
                handle.send(peer, reply);
            },
            SimpleSyncMessage::BlockResponse { blocks } => {
                let n = blocks.len();
                let mut i: usize = 0;
                while i < n
                    invariant
                        n == blocks@.len(),
                        i <= n,
                        self.chain() == old(self).chain(),
                    decreases n - i,
                {
                    match self.importer.import_block(blocks[i].duplicate()) {
                        Ok(()) => {},
                        Err(_) => {
                            return ;
                        },
                    }
                    i = i + 1;
                }
            },
        }
    }
}

} // verus!

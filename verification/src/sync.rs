//! The peer-sync state machine: status exchange, peer bookkeeping and block
//! acquisition over an abstract network. The machine never touches the wire
//! itself; it emits events for a network handle to dispatch, and is fed
//! inbound notes by the caller.

use vstd::prelude::*;
use vstd::pervasive::VecAdditionalExecFns;
use crate::traits::{Block, BlockImporter};

verus! {

/// An ordered chain status, as the sync machine compares them.
pub trait Status: Sized {
    /// Whether this status is strictly ahead of another, at the
    /// specification level.
    spec fn spec_exceeds(&self, other: &Self) -> bool;

    /// Whether this status is strictly ahead of another.
    fn exceeds(&self, other: &Self) -> (r: bool)
        ensures
            r == self.spec_exceeds(other),
    ;

    /// Produce a copy of this status equal to this one.
    fn duplicate(&self) -> (r: Self)
        ensures
            r == *self,
    ;
}

/// What the machine knows of one peer: the last status it advertised with
/// the tick it arrived at, and the tick of the outstanding request, if any.
pub struct PeerStatus<H> {
    /// The peer's last advertised status and its arrival tick.
    pub head_status: Option<(H, u64)>,
    /// The tick at which the outstanding request was sent.
    pub pending_request: Option<u64>,
}

impl<H> Default for PeerStatus<H> {
    /// A freshly connected peer: no status seen, no request outstanding.
    fn default() -> (r: Self)
        ensures
            r.head_status is None,
            r.pending_request is None,
    {
        Self { head_status: None, pending_request: None }
    }
}

/// An outbound event for the caller to dispatch: refresh the local status,
/// ask one peer for its status, or ask one peer for blocks.
#[derive(Clone, Copy, Debug, PartialEq, Eq, Structural)]
pub enum SyncEvent {
    /// Refresh the local status.
    QueryStatus,
    /// Ask the given peer for its status.
    QueryPeerStatus(u64),
    /// Ask the given peer for blocks.
    QueryBlocks(u64),
}

/// Timing parameters of the machine, in ticks.
#[derive(Clone, Copy, Debug, PartialEq, Eq, Structural)]
pub struct SyncConfig {
    /// How often a peer's status is refreshed.
    pub peer_update_frequency: u64,
    /// How often the local status is refreshed, and how often a new block
    /// request may go out.
    pub update_frequency: u64,
    /// After how many ticks an unanswered request is given up.
    pub request_timeout: u64,
}

/// How one peer's record advances on a scheduler wake: an outstanding
/// request older than the timeout is cleared, and a peer with no request
/// outstanding whose status is stale — or was never seen — is queried, which
/// records the current tick as its outstanding request.
pub open spec fn peer_refresh<H>(st: PeerStatus<H>, tick: u64, config: SyncConfig) -> PeerStatus<
    H,
> {
    let cleared: Option<u64> = match st.pending_request {
        Some(last) => if tick - last >= config.request_timeout {
            None
        } else {
            Some(last)
        },
        None => st.pending_request,
    };
    if cleared is None && (match st.head_status {
        Some(hs) => tick - hs.1 >= config.peer_update_frequency,
        None => true,
    }) {
        PeerStatus { head_status: st.head_status, pending_request: Some(tick) }
    } else {
        PeerStatus { head_status: st.head_status, pending_request: cleared }
    }
}

/// Whether the refresh of one peer's record emits a status query.
pub open spec fn peer_refresh_emits<H>(st: PeerStatus<H>, tick: u64, config: SyncConfig) -> bool {
    let cleared: Option<u64> = match st.pending_request {
        Some(last) => if tick - last >= config.request_timeout {
            None
        } else {
            Some(last)
        },
        None => st.pending_request,
    };
    cleared is None && (match st.head_status {
        Some(hs) => tick - hs.1 >= config.peer_update_frequency,
        None => true,
    })
}

/// Pick uniformly among `n` slots.
///
/// Relies on rand's `Rng::gen_range`: a sample from the range `0..n` lies
/// strictly below `n`, and the range is nonempty, so the call does not
/// panic.
#[verifier::external_body]
fn random_index(n: usize) -> (r: usize)
    requires
        n > 0,
    ensures
        r < n,
{
    rand::Rng::gen_range(&mut rand::thread_rng(), 0..n)
}

/// Whether a queue of events holds no event twice.
pub open spec fn no_dup_events(s: Seq<SyncEvent>) -> bool {
    forall|i: int, j: int| 0 <= i < j < s.len() ==> (#[trigger] s[i]) != (#[trigger] s[j])
}

/// The event queue as it stood before the returned event was popped from
/// it: the returned event, if any, back at the front of what remains.
pub open spec fn unpopped_events(r: Option<SyncEvent>, remaining: Seq<SyncEvent>) -> Seq<
    SyncEvent,
> {
    match r {
        Some(event) => seq![event] + remaining,
        None => remaining,
    }
}

/// The peer/status/request state machine driving block acquisition. Peers
/// are keyed by 64-bit identifiers; the table never holds a peer twice.
pub struct NetworkSync<H, I: BlockImporter> {
    head_status: (H, u64),
    tick: u64,
    peers: Vec<(u64, PeerStatus<H>)>,
    pending_blocks: Vec<I::Block>,
    importer: I,
    pending_events: Vec<SyncEvent>,
    last_sync: Option<u64>,
    config: SyncConfig,
}

impl<H: Status, I: BlockImporter> NetworkSync<H, I> where I::Block: Block {
    /// The peer table, at the specification level.
    pub closed spec fn spec_peers(&self) -> Seq<(u64, PeerStatus<H>)> {
        self.peers@
    }

    /// The current tick, at the specification level.
    pub closed spec fn spec_tick(&self) -> u64 {
        self.tick
    }

    /// The blocks noted but not yet imported, at the specification level.
    pub closed spec fn spec_pending_blocks(&self) -> Seq<I::Block> {
        self.pending_blocks@
    }

    /// The queued outbound events, at the specification level.
    pub closed spec fn spec_pending_events(&self) -> Seq<SyncEvent> {
        self.pending_events@
    }

    /// The local status and the tick it was taken at, at the specification
    /// level.
    pub closed spec fn spec_head_status(&self) -> (H, u64) {
        self.head_status
    }

    /// The timing parameters, at the specification level.
    pub closed spec fn spec_config(&self) -> SyncConfig {
        self.config
    }

    /// The tick of the last block request, at the specification level.
    pub closed spec fn spec_last_sync(&self) -> Option<u64> {
        self.last_sync
    }

    /// Whether a peer is in the table.
    pub open spec fn spec_has_peer(&self, peer: u64) -> bool {
        exists|i: int| 0 <= i < self.spec_peers().len() && (#[trigger] self.spec_peers()[i]).0
            == peer
    }

    /// The peer table never holds a peer twice.
    pub open spec fn peers_wf(&self) -> bool {
        forall|i: int, j: int|
            0 <= i < j < self.spec_peers().len() ==> (#[trigger] self.spec_peers()[i]).0 != (
            #[trigger] self.spec_peers()[j]).0
    }

    /// Every recorded tick lies at or before the current one: the tick only
    /// ever advances, and every note stamps the tick of its arrival.
    pub open spec fn ticks_wf(&self) -> bool {
        &&& self.spec_head_status().1 <= self.spec_tick()
        &&& (self.spec_last_sync() is Some ==> self.spec_last_sync()->0 <= self.spec_tick())
        &&& forall|i: int|
            0 <= i < self.spec_peers().len() ==> {
                let st = (#[trigger] self.spec_peers()[i]).1;
                &&& (st.head_status is Some ==> (st.head_status->0).1 <= self.spec_tick())
                &&& (st.pending_request is Some ==> st.pending_request->0 <= self.spec_tick())
            }
    }

    /// The event queue never holds an event twice.
    pub open spec fn events_wf(&self) -> bool {
        no_dup_events(self.spec_pending_events())
    }

    /// Whether some peer advertises a status strictly ahead of the local
    /// one, at the specification level.
    pub open spec fn spec_is_syncing(&self) -> bool {
        exists|i: int|
            0 <= i < self.spec_peers().len() && (#[trigger] self.spec_peers()[i]).1.head_status
                is Some && (self.spec_peers()[i].1.head_status->0).0.spec_exceeds(
                &self.spec_head_status().0,
            )
    }

    /// Whether, at the given tick, a fresh block request is owed: some peer
    /// is ahead, the interval since the last one has passed — or none was
    /// ever sent — and there is a peer to ask.
    pub open spec fn block_request_due(&self, tick: u64) -> bool {
        &&& self.spec_is_syncing()
        &&& match self.spec_last_sync() {
            Some(last) => tick - last >= self.spec_config().update_frequency,
            None => true,
        }
        &&& self.spec_peers().len() > 0
    }

    /// Create a new machine at tick zero with the given local status, block
    /// importer and timing parameters, knowing no peers.
    pub fn new(head: H, importer: I, config: SyncConfig) -> (r: Self)
        ensures
            r.spec_head_status() == (head, 0u64),
            r.spec_tick() == 0,
            r.spec_peers().len() == 0,
            r.spec_pending_blocks().len() == 0,
            r.spec_pending_events().len() == 0,
            r.spec_last_sync() is None,
            r.spec_config() == config,
            r.peers_wf(),
    {
        Self {
            head_status: (head, 0),
            tick: 0,
            peers: Vec::new(),
            pending_blocks: Vec::new(),
            importer,
            pending_events: Vec::new(),
            last_sync: None,
            config,
        }
    }

    /// Note blocks that arrived from the network; they are queued for the
    /// next wake.
    pub fn note_blocks(&mut self, blocks: Vec<I::Block>, _source: Option<u64>)
        ensures
            final(self).spec_pending_blocks() == old(self).spec_pending_blocks() + blocks@,
            final(self).spec_peers() == old(self).spec_peers(),
            final(self).spec_tick() == old(self).spec_tick(),
            final(self).spec_pending_events() == old(self).spec_pending_events(),
            final(self).spec_head_status() == old(self).spec_head_status(),
            final(self).spec_last_sync() == old(self).spec_last_sync(),
            final(self).spec_config() == old(self).spec_config(),
    {
        let mut blocks = blocks;
        self.pending_blocks.append(&mut blocks);
    }

    /// Note a peer's advertised status, stamped with the current tick. An
    /// unknown peer is added to the table.
    #[verifier::loop_isolation(false)]
    pub fn note_peer_status(&mut self, peer: u64, status: H)
        requires
            old(self).peers_wf(),
            old(self).ticks_wf(),
        ensures
            final(self).peers_wf(),
            final(self).ticks_wf(),
            final(self).spec_has_peer(peer),
            (if old(self).spec_has_peer(peer) {
                exists|i: int|
                    0 <= i < old(self).spec_peers().len() && (#[trigger] old(self).spec_peers()[i]).0 == peer && final(self).spec_peers() == old(self).spec_peers().update(
                        i,
                        (
                            peer,
                            PeerStatus {
                                head_status: Some((status, old(self).spec_tick())),
                                pending_request: old(self).spec_peers()[i].1.pending_request,
                            },
                        ),
                    )
            } else {
                final(self).spec_peers() == old(self).spec_peers().push(
                    (
                        peer,
                        PeerStatus {
                            head_status: Some((status, old(self).spec_tick())),
                            pending_request: None,
                        },
                    ),
                )
            }),
            final(self).spec_tick() == old(self).spec_tick(),
            final(self).spec_pending_blocks() == old(self).spec_pending_blocks(),
            final(self).spec_pending_events() == old(self).spec_pending_events(),
            final(self).spec_head_status() == old(self).spec_head_status(),
            final(self).spec_last_sync() == old(self).spec_last_sync(),
            final(self).spec_config() == old(self).spec_config(),
    {
        let n = self.peers.len();
        let mut i: usize = 0;
        while i < n
            invariant
                *self == *old(self),
                n == self.peers@.len(),
                i <= n,
                forall|k: int| 0 <= k < i ==> (#[trigger] self.peers@[k]).0 != peer,
            decreases n - i,
        {
            if self.peers[i].0 == peer {
                let pending_request = self.peers[i].1.pending_request;
                self.peers.set(
                    i,
                    (
                        peer,
                        PeerStatus { head_status: Some((status, self.tick)), pending_request },
                    ),
                );
                proof {
                    assert((#[trigger] self.spec_peers()[i as int]).0 == peer);
                    assert(self.spec_has_peer(peer));
                    assert forall|k1: int, k2: int|
                        0 <= k1 < k2 < self.spec_peers().len() implies (
                    #[trigger] self.spec_peers()[k1]).0 != (#[trigger] self.spec_peers()[k2]).0 by {
                        assert(old(self).spec_peers()[i as int].0 == peer);
                        if k1 != i as int {
                            assert(self.spec_peers()[k1] == old(self).spec_peers()[k1]);
                        }
                        if k2 != i as int {
                            assert(self.spec_peers()[k2] == old(self).spec_peers()[k2]);
                        }
                        assert(self.spec_peers()[k1].0 == old(self).spec_peers()[k1].0);
                        assert(self.spec_peers()[k2].0 == old(self).spec_peers()[k2].0);
                    }
                }
                return ;
            }
            i = i + 1;
        }
        self.peers.push(
            (peer, PeerStatus { head_status: Some((status, self.tick)), pending_request: None }),
        );
        proof {
            assert((#[trigger] self.spec_peers()[self.spec_peers().len() - 1]).0 == peer);
            assert(self.spec_has_peer(peer));
            assert forall|k1: int, k2: int|
                0 <= k1 < k2 < self.spec_peers().len() implies (
            #[trigger] self.spec_peers()[k1]).0 != (#[trigger] self.spec_peers()[k2]).0 by {
                if k2 == self.spec_peers().len() - 1 {
                    assert(self.spec_peers()[k1].0 == old(self).spec_peers()[k1].0);
                } else {
                    assert(self.spec_peers()[k1].0 == old(self).spec_peers()[k1].0);
                    assert(self.spec_peers()[k2].0 == old(self).spec_peers()[k2].0);
                }
            }
        }
    }

    /// Note the local status, stamped with the current tick.
    pub fn note_status(&mut self, status: H)
        requires
            old(self).ticks_wf(),
        ensures
            final(self).ticks_wf(),
            final(self).spec_head_status() == (status, old(self).spec_tick()),
            final(self).spec_peers() == old(self).spec_peers(),
            final(self).spec_tick() == old(self).spec_tick(),
            final(self).spec_pending_blocks() == old(self).spec_pending_blocks(),
            final(self).spec_pending_events() == old(self).spec_pending_events(),
            final(self).spec_last_sync() == old(self).spec_last_sync(),
            final(self).spec_config() == old(self).spec_config(),
    {
        self.head_status = (status, self.tick);
    }

    /// Note a newly connected peer: its record is reset to the default,
    /// whether or not it was known.
    #[verifier::loop_isolation(false)]
    pub fn note_connected(&mut self, peer: u64)
        requires
            old(self).peers_wf(),
            old(self).ticks_wf(),
        ensures
            final(self).peers_wf(),
            final(self).ticks_wf(),
            final(self).spec_has_peer(peer),
            (if old(self).spec_has_peer(peer) {
                exists|i: int|
                    0 <= i < old(self).spec_peers().len() && (#[trigger] old(self).spec_peers()[i]).0 == peer && final(self).spec_peers() == old(self).spec_peers().update(
                        i,
                        (peer, PeerStatus { head_status: None, pending_request: None }),
                    )
            } else {
                final(self).spec_peers() == old(self).spec_peers().push(
                    (peer, PeerStatus { head_status: None, pending_request: None }),
                )
            }),
            final(self).spec_tick() == old(self).spec_tick(),
            final(self).spec_pending_blocks() == old(self).spec_pending_blocks(),
            final(self).spec_pending_events() == old(self).spec_pending_events(),
            final(self).spec_head_status() == old(self).spec_head_status(),
            final(self).spec_last_sync() == old(self).spec_last_sync(),
            final(self).spec_config() == old(self).spec_config(),
    {
        let n = self.peers.len();
        let mut i: usize = 0;
        while i < n
            invariant
                *self == *old(self),
                n == self.peers@.len(),
                i <= n,
                forall|k: int| 0 <= k < i ==> (#[trigger] self.peers@[k]).0 != peer,
            decreases n - i,
        {
            if self.peers[i].0 == peer {
                self.peers.set(i, (peer, PeerStatus::default()));
                proof {
                    assert((#[trigger] self.spec_peers()[i as int]).0 == peer);
                    assert(self.spec_has_peer(peer));
                    assert forall|k1: int, k2: int|
                        0 <= k1 < k2 < self.spec_peers().len() implies (
                    #[trigger] self.spec_peers()[k1]).0 != (#[trigger] self.spec_peers()[k2]).0 by {
                        assert(old(self).spec_peers()[i as int].0 == peer);
                        if k1 != i as int {
                            assert(self.spec_peers()[k1] == old(self).spec_peers()[k1]);
                        }
                        if k2 != i as int {
                            assert(self.spec_peers()[k2] == old(self).spec_peers()[k2]);
                        }
                        assert(self.spec_peers()[k1].0 == old(self).spec_peers()[k1].0);
                        assert(self.spec_peers()[k2].0 == old(self).spec_peers()[k2].0);
                    }
                }
                return ;
            }
            i = i + 1;
        }
        self.peers.push((peer, PeerStatus::default()));
        proof {
            assert((#[trigger] self.spec_peers()[self.spec_peers().len() - 1]).0 == peer);
            assert(self.spec_has_peer(peer));
            assert forall|k1: int, k2: int|
                0 <= k1 < k2 < self.spec_peers().len() implies (
            #[trigger] self.spec_peers()[k1]).0 != (#[trigger] self.spec_peers()[k2]).0 by {
                if k2 == self.spec_peers().len() - 1 {
                    assert(self.spec_peers()[k1].0 == old(self).spec_peers()[k1].0);
                } else {
                    assert(self.spec_peers()[k1].0 == old(self).spec_peers()[k1].0);
                    assert(self.spec_peers()[k2].0 == old(self).spec_peers()[k2].0);
                }
            }
        }
    }

    /// Note a disconnected peer: its record leaves the table.
    #[verifier::loop_isolation(false)]
    pub fn note_disconnected(&mut self, peer: u64)
        requires
            old(self).peers_wf(),
            old(self).ticks_wf(),
        ensures
            final(self).peers_wf(),
            final(self).ticks_wf(),
            !final(self).spec_has_peer(peer),
            (if old(self).spec_has_peer(peer) {
                exists|i: int|
                    0 <= i < old(self).spec_peers().len() && (#[trigger] old(self).spec_peers()[i]).0 == peer && final(self).spec_peers() == old(self).spec_peers().remove(i)
            } else {
                final(self).spec_peers() == old(self).spec_peers()
            }),
            final(self).spec_tick() == old(self).spec_tick(),
            final(self).spec_pending_blocks() == old(self).spec_pending_blocks(),
            final(self).spec_pending_events() == old(self).spec_pending_events(),
            final(self).spec_head_status() == old(self).spec_head_status(),
            final(self).spec_last_sync() == old(self).spec_last_sync(),
            final(self).spec_config() == old(self).spec_config(),
    {
        let n = self.peers.len();
        let mut i: usize = 0;
        while i < n
            invariant
                *self == *old(self),
                n == self.peers@.len(),
                i <= n,
                forall|k: int| 0 <= k < i ==> (#[trigger] self.peers@[k]).0 != peer,
            decreases n - i,
        {
            if self.peers[i].0 == peer {
                self.peers.remove(i);
                proof {
                    assert(self.peers@ =~= old(self).spec_peers().remove(i as int));
                    assert forall|k: int|
                        0 <= k < self.spec_peers().len() implies (#[trigger] self.spec_peers()[k]).0
                        != peer by {
                        assert(old(self).spec_peers()[i as int].0 == peer);
                        if k < i as int {
                            assert(self.spec_peers()[k] == old(self).spec_peers()[k]);
                        } else {
                            assert(self.spec_peers()[k] == old(self).spec_peers()[k + 1]);
                        }
                    }
                    assert forall|k1: int, k2: int|
                        0 <= k1 < k2 < self.spec_peers().len() implies (
                    #[trigger] self.spec_peers()[k1]).0 != (#[trigger] self.spec_peers()[k2]).0 by {
                        if k1 < i as int {
                            assert(self.spec_peers()[k1] == old(self).spec_peers()[k1]);
                        } else {
                            assert(self.spec_peers()[k1] == old(self).spec_peers()[k1 + 1]);
                        }
                        if k2 < i as int {
                            assert(self.spec_peers()[k2] == old(self).spec_peers()[k2]);
                        } else {
                            assert(self.spec_peers()[k2] == old(self).spec_peers()[k2 + 1]);
                        }
                    }
                }
                return ;
            }
            i = i + 1;
        }
    }

    /// Whether some peer advertises a status strictly ahead of the local
    /// one.
    #[verifier::loop_isolation(false)]
    pub fn is_syncing(&self) -> (r: bool)
        ensures
            r == self.spec_is_syncing(),
    {
        let n = self.peers.len();
        let mut i: usize = 0;
        while i < n
            invariant
                n == self.peers@.len(),
                i <= n,
                forall|k: int|
                    0 <= k < i ==> !((#[trigger] self.peers@[k]).1.head_status is Some
                        && (self.peers@[k].1.head_status->0).0.spec_exceeds(&self.head_status.0)),
            decreases n - i,
        {
            match &self.peers[i].1.head_status {
                Some(hs) => {
                    if hs.0.exceeds(&self.head_status.0) {
                        return true;
                    }
                },
                None => {},
            }
            i = i + 1;
        }
        false
    }

    /// Queue an event unless an equal one is already queued.
    #[verifier::loop_isolation(false)]
    fn push_event(&mut self, event: SyncEvent)
        ensures
            final(self).spec_pending_events() == (if old(self).spec_pending_events().contains(
                event,
            ) {
                old(self).spec_pending_events()
            } else {
                old(self).spec_pending_events().push(event)
            }),
            final(self).spec_pending_events().contains(event),
            forall|e2: SyncEvent|
                old(self).spec_pending_events().contains(e2)
                    ==> final(self).spec_pending_events().contains(e2),
            old(self).spec_pending_events().is_prefix_of(final(self).spec_pending_events()),
            no_dup_events(old(self).spec_pending_events()) ==> no_dup_events(
                final(self).spec_pending_events(),
            ),
            final(self).spec_peers() == old(self).spec_peers(),
            final(self).spec_tick() == old(self).spec_tick(),
            final(self).spec_pending_blocks() == old(self).spec_pending_blocks(),
            final(self).spec_head_status() == old(self).spec_head_status(),
            final(self).spec_last_sync() == old(self).spec_last_sync(),
            final(self).spec_config() == old(self).spec_config(),
    {
        let n = self.pending_events.len();
        let mut i: usize = 0;
        while i < n
            invariant
                *self == *old(self),
                n == self.pending_events@.len(),
                i <= n,
                forall|k: int| 0 <= k < i ==> (#[trigger] self.pending_events@[k]) != event,
            decreases n - i,
        {
            if self.pending_events[i] == event {
                proof {
                    assert(self.pending_events@.contains(event));
                    assert(old(self).spec_pending_events() =~= self.pending_events@.subrange(
                        0,
                        old(self).spec_pending_events().len() as int,
                    ));
                }
                return ;
            }
            i = i + 1;
        }
        self.pending_events.push(event);
        proof {
            assert(self.pending_events@.last() == event);
            assert(self.pending_events@.contains(event));
            if no_dup_events(old(self).spec_pending_events()) {
                assert forall|i2: int, j2: int|
                    0 <= i2 < j2 < self.pending_events@.len() implies (
                #[trigger] self.pending_events@[i2]) != (#[trigger] self.pending_events@[j2]) by {
                    if j2 == self.pending_events@.len() - 1 {
                        assert(self.pending_events@[i2] == old(self).spec_pending_events()[i2]);
                        assert(old(self).spec_pending_events()[i2] != event);
                    } else {
                        assert(self.pending_events@[i2] == old(self).spec_pending_events()[i2]);
                        assert(self.pending_events@[j2] == old(self).spec_pending_events()[j2]);
                    }
                }
                assert(no_dup_events(self.pending_events@));
            }
            assert forall|e2: SyncEvent|
                old(self).spec_pending_events().contains(e2) implies self.pending_events@.contains(
                e2,
            ) by {
                let w = choose|w: int|
                    0 <= w < old(self).spec_pending_events().len() && old(self).spec_pending_events()[w] == e2;
                assert(self.pending_events@[w] == e2);
            }
            assert(old(self).spec_pending_events() =~= self.pending_events@.subrange(
                0,
                old(self).spec_pending_events().len() as int,
            ));
        }
    }

    /// Drain the noted blocks through the importer: retry the list until a
    /// pass imports nothing, so a late parent unlocks its earlier-arrived
    /// children, and drop whatever still fails.
    #[verifier::loop_isolation(false)]
    pub fn drain_pending_blocks(&mut self)
        ensures
            final(self).spec_pending_blocks().len() == 0,
            final(self).spec_peers() == old(self).spec_peers(),
            final(self).spec_tick() == old(self).spec_tick(),
            final(self).spec_pending_events() == old(self).spec_pending_events(),
            final(self).spec_head_status() == old(self).spec_head_status(),
            final(self).spec_last_sync() == old(self).spec_last_sync(),
            final(self).spec_config() == old(self).spec_config(),
    {
        let mut remaining: Vec<I::Block> = Vec::new();
        core::mem::swap(&mut remaining, &mut self.pending_blocks);
        loop
            invariant
                self.pending_blocks@.len() == 0,
                self.peers@ == old(self).spec_peers(),
                self.tick == old(self).spec_tick(),
                self.pending_events@ == old(self).spec_pending_events(),
                self.head_status == old(self).spec_head_status(),
                self.last_sync == old(self).spec_last_sync(),
                self.config == old(self).spec_config(),
            decreases remaining@.len(),
        {
            if remaining.len() == 0 {
                return ;
            }
            let mut next: Vec<I::Block> = Vec::new();
            let mut i: usize = 0;
            let n = remaining.len();
            while i < n
                invariant
                    n == remaining@.len(),
                    i <= n,
                    next@.len() <= i,
                    self.pending_blocks@.len() == 0,
                    self.peers@ == old(self).spec_peers(),
                    self.tick == old(self).spec_tick(),
                    self.pending_events@ == old(self).spec_pending_events(),
                    self.head_status == old(self).spec_head_status(),
                    self.last_sync == old(self).spec_last_sync(),
                    self.config == old(self).spec_config(),
                decreases n - i,
            {
                let block = remaining[i].duplicate();
                match self.importer.import_block(block) {
                    Ok(()) => {},
                    Err(_) => {
                        next.push(remaining[i].duplicate());
                    },
                }
                i = i + 1;
            }
            if next.len() == n {
                // No progress: drop what cannot be imported this wake.
                return ;
            }
            remaining = next;
        }
    }

    /// Advance the tick by the number of timer fires observed.
    pub fn advance_ticks(&mut self, fires: u64)
        requires
            old(self).spec_tick() + fires <= u64::MAX,
        ensures
            final(self).spec_tick() == old(self).spec_tick() + fires,
            final(self).spec_peers() == old(self).spec_peers(),
            final(self).spec_pending_blocks() == old(self).spec_pending_blocks(),
            final(self).spec_pending_events() == old(self).spec_pending_events(),
            final(self).spec_head_status() == old(self).spec_head_status(),
            final(self).spec_last_sync() == old(self).spec_last_sync(),
            final(self).spec_config() == old(self).spec_config(),
    {
        self.tick = self.tick + fires;
    }

    /// Refresh every peer's request slot: clear requests older than the
    /// timeout, and query each peer whose status is stale or was never seen,
    /// recording the current tick as its outstanding request.
    #[verifier::loop_isolation(false)]
    pub fn refresh_peers(&mut self)
        requires
            old(self).peers_wf(),
            old(self).ticks_wf(),
        ensures
            final(self).peers_wf(),
            final(self).ticks_wf(),
            final(self).spec_peers().len() == old(self).spec_peers().len(),
            forall|i: int|
                0 <= i < old(self).spec_peers().len() ==> (#[trigger] final(self).spec_peers()[i])
                    == (
                old(self).spec_peers()[i].0,
                peer_refresh(
                    old(self).spec_peers()[i].1,
                    old(self).spec_tick(),
                    old(self).spec_config(),
                ),
            ),
            forall|i: int|
                0 <= i < old(self).spec_peers().len() && peer_refresh_emits(
                    (#[trigger] old(self).spec_peers()[i]).1,
                    old(self).spec_tick(),
                    old(self).spec_config(),
                ) ==> final(self).spec_pending_events().contains(
                    SyncEvent::QueryPeerStatus(old(self).spec_peers()[i].0),
                ),
            old(self).spec_pending_events().is_prefix_of(final(self).spec_pending_events()),
            forall|e: SyncEvent|
                final(self).spec_pending_events().contains(e) ==> (old(self).spec_pending_events().contains(e) || exists|i: int|
                    0 <= i < old(self).spec_peers().len() && e == SyncEvent::QueryPeerStatus(
                        (#[trigger] old(self).spec_peers()[i]).0,
                    ) && peer_refresh_emits(
                        old(self).spec_peers()[i].1,
                        old(self).spec_tick(),
                        old(self).spec_config(),
                    )),
            no_dup_events(old(self).spec_pending_events()) ==> no_dup_events(
                final(self).spec_pending_events(),
            ),
            final(self).spec_tick() == old(self).spec_tick(),
            final(self).spec_pending_blocks() == old(self).spec_pending_blocks(),
            final(self).spec_head_status() == old(self).spec_head_status(),
            final(self).spec_last_sync() == old(self).spec_last_sync(),
            final(self).spec_config() == old(self).spec_config(),
    {
        let n = self.peers.len();
        let mut i: usize = 0;
        while i < n
            invariant
                n == self.peers@.len(),
                n == old(self).spec_peers().len(),
                i <= n,
                forall|k: int|
                    i <= k < n ==> (#[trigger] self.peers@[k]) == old(self).spec_peers()[k],
                forall|k: int|
                    0 <= k < i ==> (#[trigger] self.peers@[k]) == (
                    old(self).spec_peers()[k].0,
                    peer_refresh(
                        old(self).spec_peers()[k].1,
                        old(self).spec_tick(),
                        old(self).spec_config(),
                    ),
                ),
                forall|k: int|
                    0 <= k < i && peer_refresh_emits(
                        (#[trigger] old(self).spec_peers()[k]).1,
                        old(self).spec_tick(),
                        old(self).spec_config(),
                    ) ==> self.pending_events@.contains(
                        SyncEvent::QueryPeerStatus(old(self).spec_peers()[k].0),
                    ),
                old(self).spec_pending_events().is_prefix_of(self.pending_events@),
                forall|e: SyncEvent|
                    self.pending_events@.contains(e) ==> (old(self).spec_pending_events().contains(e) || exists|k: int|
                        0 <= k < i && e == SyncEvent::QueryPeerStatus(
                            (#[trigger] old(self).spec_peers()[k]).0,
                        ) && peer_refresh_emits(
                            old(self).spec_peers()[k].1,
                            old(self).spec_tick(),
                            old(self).spec_config(),
                        )),
                no_dup_events(old(self).spec_pending_events()) ==> no_dup_events(
                    self.pending_events@,
                ),
                self.tick == old(self).spec_tick(),
                self.pending_blocks@ == old(self).spec_pending_blocks(),
                self.head_status == old(self).spec_head_status(),
                self.last_sync == old(self).spec_last_sync(),
                self.config == old(self).spec_config(),
                old(self).ticks_wf(),
            decreases n - i,
        {
            let peer = self.peers[i].0;
            let head_status = match &self.peers[i].1.head_status {
                Some(hs) => Some((hs.0.duplicate(), hs.1)),
                None => None,
            };
            let mut pending_request = self.peers[i].1.pending_request;
            match pending_request {
                Some(last) => {
                    if self.tick - last >= self.config.request_timeout {
                        pending_request = None;
                    }
                },
                None => {},
            }
            let stale = match &head_status {
                Some(hs) => self.tick - hs.1 >= self.config.peer_update_frequency,
                None => true,
            };
            if pending_request.is_none() && stale {
                pending_request = Some(self.tick);
                self.peers.set(i, (peer, PeerStatus { head_status, pending_request }));
                let ghost pre_push = self.pending_events@;
                self.push_event(SyncEvent::QueryPeerStatus(peer));
                proof {
                    if no_dup_events(old(self).spec_pending_events()) {
                        assert(no_dup_events(pre_push));
                        assert(no_dup_events(self.pending_events@));
                    }
                    assert(self.peers@[i as int].1 == peer_refresh(
                        old(self).spec_peers()[i as int].1,
                        old(self).spec_tick(),
                        old(self).spec_config(),
                    ));
                    assert(peer == old(self).spec_peers()[i as int].0);
                    assert(peer_refresh_emits(
                        old(self).spec_peers()[i as int].1,
                        old(self).spec_tick(),
                        old(self).spec_config(),
                    ));
                    assert forall|e: SyncEvent| self.pending_events@.contains(e) implies (old(self).spec_pending_events().contains(e) || exists|k: int|
                        0 <= k < i + 1 && e == SyncEvent::QueryPeerStatus(
                            (#[trigger] old(self).spec_peers()[k]).0,
                        ) && peer_refresh_emits(
                            old(self).spec_peers()[k].1,
                            old(self).spec_tick(),
                            old(self).spec_config(),
                        )) by {
                        if !pre_push.contains(e) {
                            assert(e == SyncEvent::QueryPeerStatus(peer));
                            assert(e == SyncEvent::QueryPeerStatus(
                                (old(self).spec_peers()[i as int]).0,
                            ));
                        } else {
                            if !old(self).spec_pending_events().contains(e) {
                                let k0 = choose|k: int|
                                    0 <= k < i && e == SyncEvent::QueryPeerStatus(
                                        (#[trigger] old(self).spec_peers()[k]).0,
                                    ) && peer_refresh_emits(
                                        old(self).spec_peers()[k].1,
                                        old(self).spec_tick(),
                                        old(self).spec_config(),
                                    );
                                assert(e == SyncEvent::QueryPeerStatus(
                                    (old(self).spec_peers()[k0]).0,
                                ));
                            }
                        }
                    }
                }
            } else {
                self.peers.set(i, (peer, PeerStatus { head_status, pending_request }));
                proof {
                    assert(self.peers@[i as int].1 == peer_refresh(
                        old(self).spec_peers()[i as int].1,
                        old(self).spec_tick(),
                        old(self).spec_config(),
                    ));
                }
            }
            i = i + 1;
        }
        proof {
            assert forall|i2: int, j2: int|
                0 <= i2 < j2 < self.peers@.len() implies (#[trigger] self.peers@[i2]).0 != (
            #[trigger] self.peers@[j2]).0 by {
                assert(self.peers@[i2].0 == old(self).spec_peers()[i2].0);
                assert(self.peers@[j2].0 == old(self).spec_peers()[j2].0);
            }
        }
    }

    /// One scheduler wake: drain the noted blocks through the importer,
    /// advance the tick by the observed timer fires, queue a local status
    /// query when the local status is stale, refresh every peer's record —
    /// queueing a status query per stale peer — send a block request to a
    /// randomly chosen peer when one is owed, and pop the next outbound
    /// event. The clauses below speak of the queue as it stood before the
    /// pop: the returned event put back at the front of what remains.
    #[verifier::loop_isolation(false)]
    #[verifier::rlimit(100)]
    pub fn poll_step(&mut self, timer_fires: u64) -> (r: Option<SyncEvent>)
        requires
            old(self).peers_wf(),
            old(self).ticks_wf(),
            old(self).events_wf(),
            old(self).spec_tick() + timer_fires <= u64::MAX,
        ensures
            final(self).peers_wf(),
            final(self).ticks_wf(),
            final(self).events_wf(),
            final(self).spec_tick() == old(self).spec_tick() + timer_fires,
            final(self).spec_pending_blocks().len() == 0,
            final(self).spec_head_status() == old(self).spec_head_status(),
            final(self).spec_config() == old(self).spec_config(),
            final(self).spec_peers().len() == old(self).spec_peers().len(),
            // The pop: the returned event is the head of the processed
            // queue, `None` comes back only when that queue is empty, and
            // the queue never holds an event twice.
            no_dup_events(unpopped_events(r, final(self).spec_pending_events())),
            old(self).spec_pending_events().is_prefix_of(
                unpopped_events(r, final(self).spec_pending_events()),
            ),
            r is None ==> final(self).spec_pending_events().len() == 0,
            old(self).spec_pending_events().len() > 0 ==> r == Some(
                old(self).spec_pending_events()[0],
            ),
            // The local status query: queued exactly when the local status
            // is stale at the new tick, or it was already queued; when it is
            // fresh news, it is the first event after the old queue.
            (unpopped_events(r, final(self).spec_pending_events()).contains(
                SyncEvent::QueryStatus,
            ) <==> (old(self).spec_pending_events().contains(SyncEvent::QueryStatus) || final(self).spec_tick() - old(self).spec_head_status().1
                >= old(self).spec_config().update_frequency)),
            (!old(self).spec_pending_events().contains(SyncEvent::QueryStatus) && final(self).spec_tick() - old(self).spec_head_status().1
                >= old(self).spec_config().update_frequency) ==> unpopped_events(
                r,
                final(self).spec_pending_events(),
            )[old(self).spec_pending_events().len() as int] == SyncEvent::QueryStatus,
            // The peer records: every record advances by `peer_refresh` at
            // the new tick, except that the block-request target's slot is
            // stamped with the new tick; advertised statuses never change.
            forall|i: int|
                0 <= i < old(self).spec_peers().len() ==> {
                    &&& (#[trigger] final(self).spec_peers()[i]).0 == old(self).spec_peers()[i].0
                    &&& final(self).spec_peers()[i].1.head_status == old(self).spec_peers()[i].1.head_status
                    &&& (final(self).spec_peers()[i].1 == peer_refresh(
                        old(self).spec_peers()[i].1,
                        final(self).spec_tick(),
                        old(self).spec_config(),
                    ) || (final(self).spec_peers()[i].1.pending_request == Some(
                        final(self).spec_tick(),
                    ) && unpopped_events(r, final(self).spec_pending_events()).contains(
                        SyncEvent::QueryBlocks(old(self).spec_peers()[i].0),
                    )))
                },
            // The peer status queries: queued for exactly the peers whose
            // refresh emits one, beyond those already queued.
            forall|i: int|
                0 <= i < old(self).spec_peers().len() && peer_refresh_emits(
                    (#[trigger] old(self).spec_peers()[i]).1,
                    final(self).spec_tick(),
                    old(self).spec_config(),
                ) ==> unpopped_events(r, final(self).spec_pending_events()).contains(
                    SyncEvent::QueryPeerStatus(old(self).spec_peers()[i].0),
                ),
            forall|p: u64|
                #[trigger] unpopped_events(r, final(self).spec_pending_events()).contains(
                    SyncEvent::QueryPeerStatus(p),
                ) ==> (old(self).spec_pending_events().contains(SyncEvent::QueryPeerStatus(p))
                    || exists|i: int|
                    0 <= i < old(self).spec_peers().len() && (#[trigger] old(self).spec_peers()[i]).0 == p && peer_refresh_emits(
                        old(self).spec_peers()[i].1,
                        final(self).spec_tick(),
                        old(self).spec_config(),
                    )),
            // The block request: when one is owed at the new tick, some
            // peer's block query is queued, that peer's request slot and
            // `last_sync` are stamped with the new tick; otherwise
            // `last_sync` stands and no new block query appears.
            old(self).block_request_due(final(self).spec_tick()) ==> (final(self).spec_last_sync()
                == Some(final(self).spec_tick()) && exists|i: int|
                0 <= i < old(self).spec_peers().len() && unpopped_events(
                    r,
                    final(self).spec_pending_events(),
                ).contains(SyncEvent::QueryBlocks((#[trigger] old(self).spec_peers()[i]).0))
                    && final(self).spec_peers()[i].1.pending_request == Some(
                    final(self).spec_tick(),
                )),
            !old(self).block_request_due(final(self).spec_tick()) ==> (final(self).spec_last_sync()
                == old(self).spec_last_sync() && forall|p: u64|
                #[trigger] unpopped_events(r, final(self).spec_pending_events()).contains(
                    SyncEvent::QueryBlocks(p),
                ) ==> old(self).spec_pending_events().contains(SyncEvent::QueryBlocks(p))),
    {
        let ghost ev0 = self.pending_events@;
        let ghost peers0 = self.peers@;
        self.drain_pending_blocks();
        self.advance_ticks(timer_fires);
        let ghost nt = self.tick;
        let status_due = self.tick - self.head_status.1 >= self.config.update_frequency;
        if status_due {
            self.push_event(SyncEvent::QueryStatus);
        }
        let ghost q1 = self.pending_events@;
        proof {
            assert(no_dup_events(q1));
            assert(ev0.is_prefix_of(q1));
            assert(q1.contains(SyncEvent::QueryStatus) <==> (ev0.contains(SyncEvent::QueryStatus)
                || status_due));
            if status_due && !ev0.contains(SyncEvent::QueryStatus) {
                assert(q1 == ev0.push(SyncEvent::QueryStatus));
                assert(q1[ev0.len() as int] == SyncEvent::QueryStatus);
            }
            assert forall|p: u64|
                #[trigger] q1.contains(SyncEvent::QueryPeerStatus(p)) implies ev0.contains(
                SyncEvent::QueryPeerStatus(p),
            ) by {
                if !ev0.contains(SyncEvent::QueryPeerStatus(p)) {
                    assert(q1 == ev0.push(SyncEvent::QueryStatus));
                    let w = choose|w: int| 0 <= w < q1.len() && q1[w] == SyncEvent::QueryPeerStatus(p);
                    assert(w < ev0.len());
                    assert(ev0[w] == SyncEvent::QueryPeerStatus(p));
                }
            }
            assert forall|p: u64|
                #[trigger] q1.contains(SyncEvent::QueryBlocks(p)) implies ev0.contains(
                SyncEvent::QueryBlocks(p),
            ) by {
                if !ev0.contains(SyncEvent::QueryBlocks(p)) {
                    assert(q1 == ev0.push(SyncEvent::QueryStatus));
                    let w = choose|w: int| 0 <= w < q1.len() && q1[w] == SyncEvent::QueryBlocks(p);
                    assert(w < ev0.len());
                    assert(ev0[w] == SyncEvent::QueryBlocks(p));
                }
            }
        }
        self.refresh_peers();
        let ghost q2 = self.pending_events@;
        proof {
            assert(self.peers@.len() == peers0.len());
            assert forall|i: int| 0 <= i < peers0.len() implies (
            #[trigger] self.peers@[i]).1.head_status == peers0[i].1.head_status by {
                assert(self.peers@[i] == (
                    peers0[i].0,
                    peer_refresh(peers0[i].1, nt, self.config),
                ));
            }
        }
        let syncing = self.is_syncing();
        proof {
            // Refreshing never touches an advertised status, so being ahead
            // is the same question over the old table.
            assert(syncing <==> (exists|i: int|
                0 <= i < peers0.len() && (#[trigger] peers0[i]).1.head_status is Some && (
                peers0[i].1.head_status->0).0.spec_exceeds(&old(self).spec_head_status().0))) by {
                if syncing {
                    let i0 = choose|i: int|
                        0 <= i < self.peers@.len() && (#[trigger] self.peers@[i]).1.head_status
                            is Some && (self.peers@[i].1.head_status->0).0.spec_exceeds(
                            &self.head_status.0,
                        );
                    assert(peers0[i0].1.head_status == self.peers@[i0].1.head_status);
                } else {
                    if exists|i: int|
                        0 <= i < peers0.len() && (#[trigger] peers0[i]).1.head_status is Some && (
                        peers0[i].1.head_status->0).0.spec_exceeds(&old(self).spec_head_status().0) {
                        let i0 = choose|i: int|
                            0 <= i < peers0.len() && (#[trigger] peers0[i]).1.head_status is Some
                                && (peers0[i].1.head_status->0).0.spec_exceeds(
                                &old(self).spec_head_status().0,
                            );
                        assert((#[trigger] self.peers@[i0]).1.head_status
                            == peers0[i0].1.head_status);
                        assert(false);
                    }
                }
            }
        }
        if syncing {
            let due = match self.last_sync {
                Some(last) => self.tick - last >= self.config.update_frequency,
                None => true,
            };
            if due && self.peers.len() > 0 {
                let pick = random_index(self.peers.len());
                let peer = self.peers[pick].0;
                let head_status = match &self.peers[pick].1.head_status {
                    Some(hs) => Some((hs.0.duplicate(), hs.1)),
                    None => None,
                };
                self.peers.set(
                    pick,
                    (peer, PeerStatus { head_status, pending_request: Some(self.tick) }),
                );
                self.push_event(SyncEvent::QueryBlocks(peer));
                self.last_sync = Some(self.tick);
                proof {
                    assert forall|i2: int, j2: int|
                        0 <= i2 < j2 < self.peers@.len() implies (#[trigger] self.peers@[i2]).0
                        != (#[trigger] self.peers@[j2]).0 by {}
                    assert(self.pending_events@.contains(SyncEvent::QueryBlocks(peer)));
                    assert(self.peers@[pick as int].1.pending_request == Some(nt));
                    assert(self.peers@[pick as int].0 == peers0[pick as int].0);
                }
            }
        }
        let ghost q3 = self.pending_events@;
        proof {
            let cfg = old(self).spec_config();
            assert(q2.is_prefix_of(q3));
            assert(no_dup_events(q3));
            // Prefixes chain: the old queue opens the processed queue.
            assert(ev0.is_prefix_of(q3)) by {
                assert(ev0 =~= q3.subrange(0, ev0.len() as int));
            }
            assert(ev0.len() > 0 ==> q3[0] == ev0[0]);
            // Containment climbs the prefix chain.
            assert forall|e: SyncEvent| q1.contains(e) implies q3.contains(e) by {
                let w = choose|w: int| 0 <= w < q1.len() && q1[w] == e;
                assert(q2[w] == q1[w]);
                assert(q3[w] == q2[w]);
            }
            assert forall|e: SyncEvent| q2.contains(e) implies q3.contains(e) by {
                let w = choose|w: int| 0 <= w < q2.len() && q2[w] == e;
                assert(q3[w] == q2[w]);
            }
            // What each stage may have added, by constructor.
            assert forall|e: SyncEvent| q3.contains(e) implies (q2.contains(e) || e matches
                SyncEvent::QueryBlocks(_)) by {}
            assert forall|e: SyncEvent| q2.contains(e) implies (q1.contains(e) || e matches
                SyncEvent::QueryPeerStatus(_)) by {
                if !q1.contains(e) {
                    let k0 = choose|k: int|
                        0 <= k < peers0.len() && e == SyncEvent::QueryPeerStatus(
                            (#[trigger] peers0[k]).0,
                        ) && peer_refresh_emits(peers0[k].1, nt, cfg);
                }
            }
            // The local status query, exactly when stale.
            assert(q3.contains(SyncEvent::QueryStatus) <==> (ev0.contains(SyncEvent::QueryStatus)
                || nt - old(self).spec_head_status().1 >= cfg.update_frequency)) by {
                if q3.contains(SyncEvent::QueryStatus) {
                    assert(q1.contains(SyncEvent::QueryStatus));
                }
                if q1.contains(SyncEvent::QueryStatus) {
                    assert(q3.contains(SyncEvent::QueryStatus));
                }
            }
            if !ev0.contains(SyncEvent::QueryStatus) && nt - old(self).spec_head_status().1
                >= cfg.update_frequency {
                assert(q1[ev0.len() as int] == SyncEvent::QueryStatus);
                assert(q2[ev0.len() as int] == q1[ev0.len() as int]);
                assert(q3[ev0.len() as int] == q2[ev0.len() as int]);
            }
            // Peer status queries, forward and converse.
            assert forall|i: int|
                0 <= i < peers0.len() && peer_refresh_emits(
                    (#[trigger] peers0[i]).1,
                    nt,
                    cfg,
                ) implies q3.contains(SyncEvent::QueryPeerStatus(peers0[i].0)) by {
                assert(q2.contains(SyncEvent::QueryPeerStatus(peers0[i].0)));
            }
            assert forall|p: u64|
                #[trigger] q3.contains(SyncEvent::QueryPeerStatus(p)) implies (ev0.contains(
                SyncEvent::QueryPeerStatus(p),
            ) || exists|i: int|
                0 <= i < peers0.len() && (#[trigger] peers0[i]).0 == p && peer_refresh_emits(
                    peers0[i].1,
                    nt,
                    cfg,
                )) by {
                assert(q2.contains(SyncEvent::QueryPeerStatus(p)));
                if q1.contains(SyncEvent::QueryPeerStatus(p)) {
                    assert(ev0.contains(SyncEvent::QueryPeerStatus(p)));
                }
            }
            // Block queries appear only when one was owed.
            if !old(self).block_request_due(nt) {
                assert forall|p: u64|
                    #[trigger] q3.contains(SyncEvent::QueryBlocks(p)) implies ev0.contains(
                    SyncEvent::QueryBlocks(p),
                ) by {
                    assert(q2.contains(SyncEvent::QueryBlocks(p)));
                    assert(q1.contains(SyncEvent::QueryBlocks(p)));
                }
            }
        }
        if self.pending_events.len() > 0 {
            let event = self.pending_events.remove(0);
            proof {
                assert(unpopped_events(Some(event), self.pending_events@) =~= q3);
                assert forall|i2: int, j2: int|
                    0 <= i2 < j2 < self.pending_events@.len() implies (
                #[trigger] self.pending_events@[i2]) != (#[trigger] self.pending_events@[j2]) by {
                    assert(self.pending_events@[i2] == q3[i2 + 1]);
                    assert(self.pending_events@[j2] == q3[j2 + 1]);
                }
            }
            Some(event)
        } else {
            proof {
                assert(unpopped_events(None::<SyncEvent>, self.pending_events@) =~= q3);
            }
            None
        }
    }
}

} // verus!

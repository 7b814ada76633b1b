//! The atomic unit of mutation: an operation bundles block imports, an
//! optional head change and auxiliary edits, and is settled against a store
//! in one pre-validated step.

use vstd::prelude::*;
use crate::traits::{Block, Auxiliary, ChainState};
use crate::snapshot::ChainSnapshot;
use crate::memory::{MemoryDatabase, Error};
use crate::route::{tree_route, is_tree_route};
use vstd::pervasive::VecAdditionalExecFns;

verus! {

/// Whether one of the pending imports carries the given identifier.
pub open spec fn ops_has_id<B: Block, S>(ops: Seq<ImportOperation<B, S>>, id: u64) -> bool {
    exists|i: int| 0 <= i < ops.len() && (#[trigger] ops[i].block.spec_id()) == id
}

/// Whether two block records agree on everything but their children lists.
pub open spec fn same_but_children<B, S>(a: BlockData<B, S>, b: BlockData<B, S>) -> bool {
    &&& a.block == b.block
    &&& a.state == b.state
    &&& a.depth == b.depth
    &&& a.is_canon == b.is_canon
}

/// Whether every pending import names a parent. An import without a parent
/// is a genesis block and can never be imported.
pub open spec fn all_have_parents<B: Block, S>(ops: Seq<ImportOperation<B, S>>) -> bool {
    forall|i: int| 0 <= i < ops.len() ==> (#[trigger] ops[i].block.spec_parent_id()) is Some
}

/// Whether the pending imports carry pairwise distinct identifiers, none of
/// which is already stored.
pub open spec fn fresh_ids<B: Block, S, A: Auxiliary>(
    c: ChainSnapshot<B, S, A>,
    ops: Seq<ImportOperation<B, S>>,
) -> bool {
    &&& forall|i: int| 0 <= i < ops.len() ==> !c.has_block(#[trigger] ops[i].block.spec_id())
    &&& forall|i: int, j: int|
        0 <= i < j < ops.len() ==> (#[trigger] ops[i].block.spec_id()) != (
        #[trigger] ops[j].block.spec_id())
}

/// Whether `depths` assigns every pending import the depth one below its
/// parent, found either in the store or among the imports themselves.
pub open spec fn depths_ok<B: Block, S, A: Auxiliary>(
    c: ChainSnapshot<B, S, A>,
    ops: Seq<ImportOperation<B, S>>,
    depths: Seq<usize>,
) -> bool {
    &&& depths.len() == ops.len()
    &&& forall|i: int|
        0 <= i < ops.len() ==> {
            let p = (#[trigger] ops[i].block.spec_parent_id())->0;
            &&& ops[i].block.spec_parent_id() is Some
            &&& if c.has_block(p) {
                depths[i] == c.depth_of(p) + 1
            } else {
                exists|j: int|
                    0 <= j < ops.len() && (#[trigger] ops[j].block.spec_id()) == p && depths[i]
                        == depths[j] + 1
            }
        }
}

/// Whether the pending imports form a connected, acyclic extension of the
/// store: some depth assignment puts every one of them one level below its
/// parent.
pub open spec fn admissible<B: Block, S, A: Auxiliary>(
    c: ChainSnapshot<B, S, A>,
    ops: Seq<ImportOperation<B, S>>,
) -> bool {
    exists|depths: Seq<usize>| depths_ok(c, ops, depths)
}

/// Whether the head target, if any, is stored or among the pending imports.
pub open spec fn head_target_ok<B: Block, S, A: Auxiliary>(
    c: ChainSnapshot<B, S, A>,
    ops: Seq<ImportOperation<B, S>>,
    set_head: Option<u64>,
) -> bool {
    set_head is Some ==> (c.has_block(set_head->0) || ops_has_id(ops, set_head->0))
}

/// Whether every block an inserted auxiliary is associated with is stored or
/// among the pending imports.
pub open spec fn auxiliaries_ok<B: Block, S, A: Auxiliary>(
    c: ChainSnapshot<B, S, A>,
    ops: Seq<ImportOperation<B, S>>,
    inserts: Seq<A>,
) -> bool {
    forall|i: int, k: int|
        0 <= i < inserts.len() && 0 <= k < inserts[i].spec_associated().len() ==> {
            let id = #[trigger] inserts[i].spec_associated()[k];
            c.has_block(id) || ops_has_id(ops, id)
        }
}

/// The auxiliary table after removing the given keys in order.
pub open spec fn remove_aux_keys<A>(m: Map<u64, A>, keys: Seq<u64>) -> Map<u64, A>
    decreases keys.len(),
{
    if keys.len() == 0 {
        m
    } else {
        remove_aux_keys(m, keys.drop_last()).remove(keys.last())
    }
}

/// The auxiliary table after inserting the given records in order, each
/// under its own key.
pub open spec fn insert_auxes<A: Auxiliary>(m: Map<u64, A>, auxes: Seq<A>) -> Map<u64, A>
    decreases auxes.len(),
{
    if auxes.len() == 0 {
        m
    } else {
        insert_auxes(m, auxes.drop_last()).insert(auxes.last().spec_key(), auxes.last())
    }
}

/// The number of filled slots.
pub(crate) open spec fn count_some(s: Seq<Option<usize>>) -> nat
    decreases s.len(),
{
    if s.len() == 0 {
        0
    } else {
        count_some(s.drop_last()) + if s.last() is Some {
            1nat
        } else {
            0nat
        }
    }
}

proof fn lemma_count_some_update(s: Seq<Option<usize>>, i: int, v: usize)
    requires
        0 <= i < s.len(),
        s[i] is None,
    ensures
        count_some(s.update(i, Some(v))) == count_some(s) + 1,
    decreases s.len(),
{
    let t = s.update(i, Some(v));
    if i == s.len() - 1 {
        assert(t.drop_last() =~= s.drop_last());
    } else {
        assert(t.drop_last() =~= s.drop_last().update(i, Some(v)));
        lemma_count_some_update(s.drop_last(), i, v);
        assert(t.last() == s.last());
    }
}

proof fn lemma_count_some_bound(s: Seq<Option<usize>>)
    ensures
        count_some(s) <= s.len(),
    decreases s.len(),
{
    if s.len() > 0 {
        lemma_count_some_bound(s.drop_last());
    }
}

proof fn lemma_count_some_lt_if_none(s: Seq<Option<usize>>, i: int)
    requires
        0 <= i < s.len(),
        s[i] is None,
    ensures
        count_some(s) < s.len(),
    decreases s.len(),
{
    lemma_count_some_bound(s.drop_last());
    if i < s.len() - 1 {
        lemma_count_some_lt_if_none(s.drop_last(), i);
    }
}

proof fn lemma_count_some_all_none(s: Seq<Option<usize>>)
    requires
        forall|k: int| 0 <= k < s.len() ==> (#[trigger] s[k]) is None,
    ensures
        count_some(s) == 0,
    decreases s.len(),
{
    if s.len() > 0 {
        lemma_count_some_all_none(s.drop_last());
    }
}

proof fn lemma_count_some_all_some(s: Seq<Option<usize>>)
    requires
        forall|k: int| 0 <= k < s.len() ==> (#[trigger] s[k]) is Some,
    ensures
        count_some(s) == s.len(),
    decreases s.len(),
{
    if s.len() > 0 {
        lemma_count_some_all_some(s.drop_last());
    }
}

/// The situation of a pending import whose parent can never be resolved: the
/// parent is neither stored nor assigned a depth in a filled slot.
pub(crate) open spec fn stuck_at<B: Block, S, A: Auxiliary>(
    c: ChainSnapshot<B, S, A>,
    ops: Seq<ImportOperation<B, S>>,
    slots: Seq<Option<usize>>,
    k: int,
) -> bool {
    let p = ops[k].block.spec_parent_id()->0;
    &&& !c.has_block(p)
    &&& !(exists|j: int|
        0 <= j < ops.len() && (#[trigger] slots[j]) is Some && ops[j].block.spec_id() == p)
}

/// When every unfilled slot is stuck, no depth assignment fits the pending
/// imports: an unfilled slot would sit at the bottom of an infinite descent
/// of depths.
proof fn lemma_stuck_unadmittable<B: Block, S, A: Auxiliary>(
    c: ChainSnapshot<B, S, A>,
    ops: Seq<ImportOperation<B, S>>,
    slots: Seq<Option<usize>>,
    w: Seq<usize>,
    i: int,
)
    requires
        slots.len() == ops.len(),
        0 <= i < ops.len(),
        slots[i] is None,
        forall|k: int|
            0 <= k < ops.len() && (#[trigger] slots[k]) is None ==> stuck_at(c, ops, slots, k),
    ensures
        !depths_ok(c, ops, w),
    decreases w[i],
{
    if depths_ok(c, ops, w) {
        let p = ops[i].block.spec_parent_id()->0;
        assert(stuck_at(c, ops, slots, i));
        let j = choose|j: int|
            0 <= j < ops.len() && (#[trigger] ops[j].block.spec_id()) == p && w[i] == w[j] + 1;
        assert(slots[j] is None);
        lemma_stuck_unadmittable(c, ops, slots, w, j);
    }
}

/// The slot table is consistent: every assigned depth is one below the
/// parent's depth in the store or in another filled slot, and stays below
/// the number of stored blocks plus the number of filled slots.
pub(crate) open spec fn slots_inv<B: Block, S, A: Auxiliary>(
    c: ChainSnapshot<B, S, A>,
    ops: Seq<ImportOperation<B, S>>,
    slots: Seq<Option<usize>>,
    cnt: nat,
) -> bool {
    &&& slots.len() == ops.len()
    &&& cnt == count_some(slots)
    &&& forall|i: int|
        0 <= i < ops.len() && (#[trigger] slots[i]) is Some ==> {
            let p = ops[i].block.spec_parent_id()->0;
            &&& (if c.has_block(p) {
                slots[i]->0 == c.depth_of(p) + 1
            } else {
                exists|j: int|
                    0 <= j < ops.len() && (#[trigger] slots[j]) is Some && ops[j].block.spec_id()
                        == p && slots[i]->0 == slots[j]->0 + 1
            })
            &&& slots[i]->0 < c.blocks.dom().len() + cnt
        }
}

/// Whether every pending import names a parent.
fn check_parents<B: Block, S>(pending: &Vec<ImportOperation<B, S>>) -> (r: bool)
    ensures
        r == all_have_parents(pending@),
{
    let mut i: usize = 0;
    while i < pending.len()
        invariant
            i <= pending@.len(),
            forall|k: int| 0 <= k < i ==> (#[trigger] pending@[k].block.spec_parent_id()) is Some,
        decreases pending@.len() - i,
    {
        if pending[i].block.parent_id().is_none() {
            return false;
        }
        i = i + 1;
    }
    true
}

/// Collect the identifiers of the pending imports, confirming that they are
/// pairwise distinct and that none is already stored.
fn collect_fresh_ids<B: Block, A: Auxiliary, S: ChainState>(
    backend: &MemoryDatabase<B, A, S>,
    pending: &Vec<ImportOperation<B, S>>,
) -> (r: Option<Vec<u64>>)
    ensures
        match r {
            Some(ids) => {
                &&& fresh_ids(backend@, pending@)
                &&& ids@.len() == pending@.len()
                &&& forall|i: int|
                    0 <= i < ids@.len() ==> (#[trigger] ids@[i]) == pending@[i].block.spec_id()
            },
            None => !fresh_ids(backend@, pending@),
        },
{
    let mut ids: Vec<u64> = Vec::new();
    let mut i: usize = 0;
    while i < pending.len()
        invariant
            i <= pending@.len(),
            ids@.len() == i,
            forall|k: int| 0 <= k < i ==> (#[trigger] ids@[k]) == pending@[k].block.spec_id(),
            forall|k: int|
                0 <= k < i ==> !backend@.has_block(#[trigger] pending@[k].block.spec_id()),
            forall|k1: int, k2: int|
                0 <= k1 < k2 < i ==> (#[trigger] pending@[k1].block.spec_id()) != (
                #[trigger] pending@[k2].block.spec_id()),
        decreases pending@.len() - i,
    {
        let id = pending[i].block.id();
        match backend.contains(&id) {
            Ok(true) => {
                return None;
            },
            Ok(false) => {},
            Err(_) => {
                proof {
                    assert(false);
                }
            },
        }
        let mut j: usize = 0;
        while j < ids.len()
            invariant
                j <= ids@.len(),
                ids@.len() == i,
                i < pending@.len(),
                id == pending@[i as int].block.spec_id(),
                forall|k: int| 0 <= k < i ==> (#[trigger] ids@[k]) == pending@[k].block.spec_id(),
                forall|k: int| 0 <= k < j ==> (#[trigger] ids@[k]) != id,
            decreases ids@.len() - j,
        {
            if ids[j] == id {
                proof {
                    assert(pending@[j as int].block.spec_id() == pending@[i as int].block.spec_id());
                    assert(!fresh_ids(backend@, pending@));
                }
                return None;
            }
            j = j + 1;
        }
        proof {
            assert forall|k1: int, k2: int| 0 <= k1 < k2 < i + 1 implies (
            #[trigger] pending@[k1].block.spec_id()) != (#[trigger] pending@[k2].block.spec_id()) by {
                if k2 == i as int {
                    assert(ids@[k1] == pending@[k1].block.spec_id());
                    assert(ids@[k1] != id);
                }
            }
        }
        ids.push(id);
        i = i + 1;
    }
    Some(ids)
}

/// Whether the given identifier occurs in the list.
fn contains_id(ids: &Vec<u64>, x: u64) -> (r: bool)
    ensures
        r == ids@.contains(x),
{
    let mut i: usize = 0;
    while i < ids.len()
        invariant
            i <= ids@.len(),
            forall|k: int| 0 <= k < i ==> (#[trigger] ids@[k]) != x,
        decreases ids@.len() - i,
    {
        if ids[i] == x {
            return true;
        }
        i = i + 1;
    }
    false
}

/// Assign each pending import its depth: one below its parent, found in the
/// store or among the other imports. Passes repeat while they make progress;
/// a pass that admits nothing while imports remain shows the batch
/// disconnected.
#[verifier::rlimit(100)]
fn compute_depths<B: Block, A: Auxiliary, S: ChainState>(
    backend: &MemoryDatabase<B, A, S>,
    pending: &Vec<ImportOperation<B, S>>,
) -> (r: Option<Vec<usize>>)
    requires
        backend@.tree_wf(),
        all_have_parents(pending@),
        backend@.blocks.dom().len() + pending@.len() <= usize::MAX,
    ensures
        match r {
            Some(depths) => {
                &&& depths_ok(backend@, pending@, depths@)
                &&& admissible(backend@, pending@)
                &&& forall|i: int|
                    0 <= i < depths@.len() ==> (#[trigger] depths@[i]) < backend@.blocks.dom().len()
                        + pending@.len()
            },
            None => !admissible(backend@, pending@),
        },
{
    let ghost c = backend@;
    let n = pending.len();
    let n_store = backend.block_count();
    let mut slots: Vec<Option<usize>> = Vec::new();
    let mut k: usize = 0;
    while k < n
        invariant
            slots@.len() == k,
            k <= n,
            forall|t: int| 0 <= t < k ==> (#[trigger] slots@[t]) is None,
        decreases n - k,
    {
        slots.push(None);
        k = k + 1;
    }
    let mut cnt: usize = 0;
    proof {
        lemma_count_some_all_none(slots@);
    }
    loop
        invariant
            c == backend@,
            c.tree_wf(),
            all_have_parents(pending@),
            n == pending@.len(),
            n_store == c.blocks.dom().len(),
            n_store + n <= usize::MAX,
            cnt <= n,
            slots_inv(c, pending@, slots@, cnt as nat),
        decreases n - cnt,
    {
        let ghost slots0 = slots@;
        let ghost cnt0 = cnt;
        let mut progress = false;
        let mut any_none = false;
        let mut i: usize = 0;
        while i < n
            invariant
                c == backend@,
                c.tree_wf(),
                all_have_parents(pending@),
                n == pending@.len(),
                n_store == c.blocks.dom().len(),
                n_store + n <= usize::MAX,
                cnt <= n,
                i <= n,
                slots_inv(c, pending@, slots@, cnt as nat),
                !progress ==> slots@ == slots0 && cnt == cnt0,
                progress ==> cnt > cnt0,
                !progress ==> forall|t: int|
                    0 <= t < i && (#[trigger] slots@[t]) is None ==> stuck_at(
                        c,
                        pending@,
                        slots@,
                        t,
                    ),
                !any_none ==> forall|t: int| 0 <= t < i ==> (#[trigger] slots@[t]) is Some,
                any_none && !progress ==> exists|t: int|
                    0 <= t < i && (#[trigger] slots@[t]) is None,
            decreases n - i,
        {
            if slots[i].is_none() {
                let p = match pending[i].block.parent_id() {
                    Some(p) => p,
                    None => {
                        proof {
                            assert(false);
                        }
                        0
                    },
                };
                let parent_depth: Option<usize> = match backend.depth_at(&p) {
                    Ok(d) => {
                        proof {
                            assert(c.depth_of(p) < c.blocks.dom().len());
                        }
                        Some(d)
                    },
                    Err(_) => {
                        let mut j: usize = 0;
                        let mut sib: Option<usize> = None;
                        while j < n
                            invariant
                                n == pending@.len(),
                                n == slots@.len(),
                                j <= n,
                                i < n,
                                p == pending@[i as int].block.spec_parent_id()->0,
                                match sib {
                                    Some(d) => exists|jj: int|
                                        0 <= jj < n && (#[trigger] slots@[jj]) is Some
                                            && pending@[jj].block.spec_id() == p && d
                                            == slots@[jj]->0,
                                    None => forall|jj: int|
                                        0 <= jj < j ==> !((#[trigger] slots@[jj]) is Some
                                            && pending@[jj].block.spec_id() == p),
                                },
                            decreases n - j,
                        {
                            if sib.is_none() && slots[j].is_some() && pending[j].block.id() == p {
                                sib = match slots[j] {
                                    Some(d) => Some(d),
                                    None => None,
                                };
                            }
                            j = j + 1;
                        }
                        sib
                    },
                };
                match parent_depth {
                    Some(d) => {
                        proof {
                            assert((c.has_block(p) && d == c.depth_of(p)) || (!c.has_block(p)
                                && exists|jj: int|
                                0 <= jj < n && (#[trigger] slots@[jj]) is Some
                                    && pending@[jj].block.spec_id() == p && d == slots@[jj]->0));
                            if c.has_block(p) {
                                assert(c.depth_of(p) < c.blocks.dom().len());
                            } else {
                                let jj = choose|jj: int|
                                    0 <= jj < n && (#[trigger] slots@[jj]) is Some
                                        && pending@[jj].block.spec_id() == p && d == slots@[jj]->0;
                                assert(d < c.blocks.dom().len() + cnt);
                            }
                            lemma_count_some_lt_if_none(slots@, i as int);
                            lemma_count_some_update(slots@, i as int, (d + 1) as usize);
                        }
                        let ghost s_prev = slots@;
                        slots.set(i, Some(d + 1));
                        cnt = cnt + 1;
                        progress = true;
                        proof {
                            assert forall|t: int|
                                0 <= t < n && (#[trigger] slots@[t]) is Some implies {
                                let p2 = pending@[t].block.spec_parent_id()->0;
                                &&& (if c.has_block(p2) {
                                    slots@[t]->0 == c.depth_of(p2) + 1
                                } else {
                                    exists|j: int|
                                        0 <= j < n && (#[trigger] slots@[j]) is Some
                                            && pending@[j].block.spec_id() == p2 && slots@[t]->0
                                            == slots@[j]->0 + 1
                                })
                                &&& slots@[t]->0 < c.blocks.dom().len() + cnt
                            } by {
                                let p2 = pending@[t].block.spec_parent_id()->0;
                                if t == i as int {
                                    if !c.has_block(p2) {
                                        let jj = choose|jj: int|
                                            0 <= jj < n && (#[trigger] s_prev[jj]) is Some
                                                && pending@[jj].block.spec_id() == p2 && d
                                                == s_prev[jj]->0;
                                        assert(slots@[jj] is Some && slots@[jj]->0 == d);
                                    }
                                } else {
                                    assert(s_prev[t] is Some);
                                    if !c.has_block(p2) {
                                        let jj = choose|jj: int|
                                            0 <= jj < n && (#[trigger] s_prev[jj]) is Some
                                                && pending@[jj].block.spec_id() == p2
                                                && s_prev[t]->0 == s_prev[jj]->0 + 1;
                                        assert(slots@[jj] is Some && slots@[jj]->0 == s_prev[jj]->0);
                                    }
                                }
                            }
                            assert(slots_inv(c, pending@, slots@, cnt as nat));
                        }
                    },
                    None => {
                        any_none = true;
                    },
                }
            }
            i = i + 1;
        }
        if !any_none {
            proof {
                lemma_count_some_all_some(slots@);
            }
            let mut depths: Vec<usize> = Vec::new();
            let mut t: usize = 0;
            while t < n
                invariant
                    n == pending@.len(),
                    n == slots@.len(),
                    t <= n,
                    depths@.len() == t,
                    forall|u: int| 0 <= u < n ==> (#[trigger] slots@[u]) is Some,
                    forall|u: int| 0 <= u < t ==> (#[trigger] depths@[u]) == slots@[u]->0,
                decreases n - t,
            {
                match slots[t] {
                    Some(d) => {
                        depths.push(d);
                    },
                    None => {
                        proof {
                            assert(false);
                        }
                    },
                }
                t = t + 1;
            }
            proof {
                assert forall|ii: int| 0 <= ii < n implies {
                    let p = (#[trigger] pending@[ii].block.spec_parent_id())->0;
                    &&& pending@[ii].block.spec_parent_id() is Some
                    &&& if c.has_block(p) {
                        depths@[ii] == c.depth_of(p) + 1
                    } else {
                        exists|j: int|
                            0 <= j < n && (#[trigger] pending@[j].block.spec_id()) == p
                                && depths@[ii] == depths@[j] + 1
                    }
                } by {
                    let p = pending@[ii].block.spec_parent_id()->0;
                    if !c.has_block(p) {
                        let j = choose|j: int|
                            0 <= j < n && (#[trigger] slots@[j]) is Some
                                && pending@[j].block.spec_id() == p && slots@[ii]->0 == slots@[j]->0
                                + 1;
                        assert(pending@[j].block.spec_id() == p && depths@[ii] == depths@[j] + 1);
                    }
                }
                assert(depths_ok(c, pending@, depths@));
                assert(admissible(c, pending@));
            }
            return Some(depths);
        }
        if !progress {
            proof {
                let i0 = choose|t: int| 0 <= t < n && (#[trigger] slots@[t]) is None;
                if admissible(c, pending@) {
                    let w = choose|w: Seq<usize>| depths_ok(c, pending@, w);
                    lemma_stuck_unadmittable(c, pending@, slots@, w, i0);
                    assert(false);
                }
            }
            return None;
        }
    }
}

/// Raw data stored for one block: the block itself, its state snapshot, its
/// depth, the identifiers of its children, and whether it lies on the
/// canonical chain.
pub struct BlockData<B, S> {
    /// Block of the data.
    pub block: B,
    /// Block state.
    pub state: S,
    /// Depth: the number of parent links between this block and genesis.
    pub depth: usize,
    /// Children of the current block.
    pub children: Vec<u64>,
    /// Whether the block is on the canonical chain.
    pub is_canon: bool,
}

/// One pending block import: the block and the state it was executed to.
pub struct ImportOperation<B, S> {
    /// Block to be imported.
    pub block: B,
    /// Associated state of the block.
    pub state: S,
}

/// Operation for a backend: an ordered list of block imports, an optional
/// head change, and auxiliary insertions and removals, applied atomically.
pub struct Operation<B, S, A> {
    /// Pending block imports.
    pub import_block: Vec<ImportOperation<B, S>>,
    /// Pending head change.
    pub set_head: Option<u64>,
    /// Auxiliary records to insert.
    pub insert_auxiliaries: Vec<A>,
    /// Keys of auxiliary records to remove.
    pub remove_auxiliaries: Vec<u64>,
}

impl<B, S, A> Default for Operation<B, S, A> {
    /// The empty operation: no imports, no head change, no auxiliary edits.
    fn default() -> (r: Self)
        ensures
            r.import_block@.len() == 0,
            r.set_head is None,
            r.insert_auxiliaries@.len() == 0,
            r.remove_auxiliaries@.len() == 0,
    {
        Self {
            import_block: Vec::new(),
            set_head: None,
            insert_auxiliaries: Vec::new(),
            remove_auxiliaries: Vec::new(),
        }
    }
}

/// Insert every pending block into the store, at its assigned depth, with an
/// empty children list and off the canonical chain.
#[verifier::rlimit(60)]
fn insert_all<B: Block, A: Auxiliary, S: ChainState>(
    backend: &mut MemoryDatabase<B, A, S>,
    pending: &Vec<ImportOperation<B, S>>,
    depths: &Vec<usize>,
)
    requires
        depths@.len() == pending@.len(),
        fresh_ids(old(backend)@, pending@),
        old(backend)@.blocks.dom().finite(),
    ensures
        final(backend)@.head == old(backend)@.head,
        final(backend)@.genesis == old(backend)@.genesis,
        final(backend)@.canon_depth == old(backend)@.canon_depth,
        final(backend)@.auxiliaries == old(backend)@.auxiliaries,
        forall|id: u64| #[trigger]
            final(backend)@.has_block(id) <==> (old(backend)@.has_block(id) || ops_has_id(
                pending@,
                id,
            )),
        forall|id: u64|
            old(backend)@.has_block(id) ==> #[trigger] final(backend)@.blocks[id] == old(backend)@.blocks[id],
        forall|i: int|
            0 <= i < pending@.len() ==> {
                let id = (#[trigger] pending@[i].block.spec_id());
                &&& final(backend)@.blocks[id].block == pending@[i].block
                &&& final(backend)@.blocks[id].state@ == pending@[i].state@
                &&& final(backend)@.blocks[id].depth == depths@[i]
                &&& final(backend)@.blocks[id].children@.len() == 0
                &&& !final(backend)@.blocks[id].is_canon
            },
        final(backend)@.blocks.dom().finite(),
        final(backend)@.blocks.dom().len() == old(backend)@.blocks.dom().len() + pending@.len(),
{
    let ghost c0 = old(backend)@;
    let n = pending.len();
    let mut k: usize = 0;
    while k < n
        invariant
            n == pending@.len(),
            n == depths@.len(),
            k <= n,
            fresh_ids(c0, pending@),
            c0.blocks.dom().finite(),
            backend@.head == c0.head,
            backend@.genesis == c0.genesis,
            backend@.canon_depth == c0.canon_depth,
            backend@.auxiliaries == c0.auxiliaries,
            forall|id: u64| #[trigger]
                backend@.has_block(id) <==> (c0.has_block(id) || exists|j: int|
                    0 <= j < k && (#[trigger] pending@[j].block.spec_id()) == id),
            forall|id: u64|
                c0.has_block(id) ==> #[trigger] backend@.blocks[id] == c0.blocks[id],
            forall|j: int|
                0 <= j < k ==> {
                    let id = (#[trigger] pending@[j].block.spec_id());
                    &&& backend@.blocks[id].block == pending@[j].block
                    &&& backend@.blocks[id].state@ == pending@[j].state@
                    &&& backend@.blocks[id].depth == depths@[j]
                    &&& backend@.blocks[id].children@.len() == 0
                    &&& !backend@.blocks[id].is_canon
                },
            backend@.blocks.dom().finite(),
            backend@.blocks.dom().len() == c0.blocks.dom().len() + k,
        decreases n - k,
    {
        let op = &pending[k];
        let id = op.block.id();
        let ghost cprev = backend@;
        proof {
            assert(!backend@.has_block(id));
            vstd::set::axiom_set_insert_finite(backend@.blocks.dom(), id);
            vstd::set::axiom_set_insert_len(backend@.blocks.dom(), id);
        }
        backend.insert_block(id, op.block.duplicate(), op.state.duplicate(), depths[k], Vec::new(), false);
        k = k + 1;
        proof {
            assert forall|id2: u64| #[trigger] backend@.has_block(id2) implies (c0.has_block(id2)
                || exists|j: int|
                0 <= j < k && (#[trigger] pending@[j].block.spec_id()) == id2) by {
                if id2 == id {
                    assert(pending@[k - 1].block.spec_id() == id2);
                } else {
                    assert(cprev.has_block(id2));
                    if !c0.has_block(id2) {
                        let j0 = choose|j: int|
                            0 <= j < k - 1 && (#[trigger] pending@[j].block.spec_id()) == id2;
                        assert(pending@[j0].block.spec_id() == id2);
                    }
                }
            }
            assert forall|id2: u64|
                (c0.has_block(id2) || exists|j: int|
                    0 <= j < k && (#[trigger] pending@[j].block.spec_id()) == id2) implies
            #[trigger] backend@.has_block(id2) by {
                if c0.has_block(id2) {
                    assert(cprev.has_block(id2));
                } else {
                    let j0 = choose|j: int|
                        0 <= j < k && (#[trigger] pending@[j].block.spec_id()) == id2;
                    if j0 < k - 1 {
                        assert(cprev.has_block(id2));
                    } else {
                        assert(id2 == id);
                    }
                }
            }
        }
    }
}

/// Append every pending block to its parent's children list. Every pending
/// block and its parent are stored by now, no pending identifier already
/// occurs in a children list, and the pending identifiers are distinct, so
/// the lists stay exact and duplicate-free.
#[verifier::rlimit(60)]
fn connect_children<B: Block, A: Auxiliary, S: ChainState>(
    backend: &mut MemoryDatabase<B, A, S>,
    pending: &Vec<ImportOperation<B, S>>,
)
    requires
        forall|i: int|
            0 <= i < pending@.len() ==> {
                let b = (#[trigger] pending@[i].block);
                &&& b.spec_parent_id() is Some
                &&& old(backend)@.has_block(b.spec_id())
                &&& old(backend)@.has_block(b.spec_parent_id()->0)
            },
        forall|i: int, j: int|
            0 <= i < j < pending@.len() ==> (#[trigger] pending@[i].block.spec_id()) != (
            #[trigger] pending@[j].block.spec_id()),
        forall|p: u64, i: int|
            old(backend)@.has_block(p) && 0 <= i < pending@.len() ==> !(#[trigger] old(backend)@.blocks[p].children@.contains(pending@[i].block.spec_id())),
        forall|p: u64, i: int, j: int|
            old(backend)@.has_block(p) && 0 <= i < j < old(backend)@.blocks[p].children@.len()
                ==> #[trigger] old(backend)@.blocks[p].children@[i] != #[trigger] old(backend)@.blocks[p].children@[j],
    ensures
        final(backend)@.head == old(backend)@.head,
        final(backend)@.genesis == old(backend)@.genesis,
        final(backend)@.canon_depth == old(backend)@.canon_depth,
        final(backend)@.auxiliaries == old(backend)@.auxiliaries,
        final(backend)@.blocks.dom() == old(backend)@.blocks.dom(),
        forall|id: u64|
            old(backend)@.has_block(id) ==> same_but_children(
                #[trigger] final(backend)@.blocks[id],
                old(backend)@.blocks[id],
            ),
        forall|p: u64, x: u64|
            old(backend)@.has_block(p) ==> (#[trigger] final(backend)@.blocks[p].children@.contains(
                x,
            ) <==> (old(backend)@.blocks[p].children@.contains(x) || exists|i: int|
                0 <= i < pending@.len() && (#[trigger] pending@[i].block.spec_parent_id()) == Some(p)
                    && pending@[i].block.spec_id() == x)),
        forall|p: u64, i: int, j: int|
            final(backend)@.has_block(p) && 0 <= i < j < final(backend)@.blocks[p].children@.len()
                ==> #[trigger] final(backend)@.blocks[p].children@[i]
                != #[trigger] final(backend)@.blocks[p].children@[j],
{
    let ghost c0 = old(backend)@;
    let n = pending.len();
    let mut k: usize = 0;
    while k < n
        invariant
            n == pending@.len(),
            k <= n,
            forall|i: int|
                0 <= i < pending@.len() ==> {
                    let b = (#[trigger] pending@[i].block);
                    &&& b.spec_parent_id() is Some
                    &&& c0.has_block(b.spec_id())
                    &&& c0.has_block(b.spec_parent_id()->0)
                },
            forall|i: int, j: int|
                0 <= i < j < pending@.len() ==> (#[trigger] pending@[i].block.spec_id()) != (
                #[trigger] pending@[j].block.spec_id()),
            forall|p: u64, i: int|
                c0.has_block(p) && 0 <= i < pending@.len() ==> !(#[trigger] c0.blocks[p].children@.contains(pending@[i].block.spec_id())),
            backend@.head == c0.head,
            backend@.genesis == c0.genesis,
            backend@.canon_depth == c0.canon_depth,
            backend@.auxiliaries == c0.auxiliaries,
            backend@.blocks.dom() == c0.blocks.dom(),
            forall|id: u64|
                c0.has_block(id) ==> same_but_children(
                    #[trigger] backend@.blocks[id],
                    c0.blocks[id],
                ),
            forall|p: u64, x: u64|
                c0.has_block(p) ==> (#[trigger] backend@.blocks[p].children@.contains(x) <==> (
                c0.blocks[p].children@.contains(x) || exists|i: int|
                    0 <= i < k && (#[trigger] pending@[i].block.spec_parent_id()) == Some(p)
                        && pending@[i].block.spec_id() == x)),
            forall|p: u64, i: int, j: int|
                c0.has_block(p) && 0 <= i < j < backend@.blocks[p].children@.len()
                    ==> #[trigger] backend@.blocks[p].children@[i] != #[trigger] backend@.blocks[p].children@[j],
        decreases n - k,
    {
        let op = &pending[k];
        let id = op.block.id();
        let parent = match op.block.parent_id() {
            Some(p) => p,
            None => {
                proof {
                    assert(false);
                }
                0
            },
        };
        let ghost c_before = backend@;
        proof {
            // The pushed identifier is not yet in the parent's children: it
            // is not already a child, and no earlier pending block shares
            // its identifier.
            if c_before.blocks[parent].children@.contains(id) {
                assert(!c0.blocks[parent].children@.contains(id));
                let i0 = choose|i: int|
                    0 <= i < k && (#[trigger] pending@[i].block.spec_parent_id()) == Some(parent)
                        && pending@[i].block.spec_id() == id;
                assert(pending@[i0].block.spec_id() == pending@[k as int].block.spec_id());
                assert(false);
            }
        }
        backend.push_child(parent, id);
        k = k + 1;
        proof {
            let base = c_before.blocks[parent].children@;
            assert(backend@.blocks[parent].children@ == base.push(id));
            assert forall|idq: u64| c0.has_block(idq) implies same_but_children(
                #[trigger] backend@.blocks[idq],
                c0.blocks[idq],
            ) by {
                assert(same_but_children(c_before.blocks[idq], c0.blocks[idq]));
                if idq != parent {
                    assert(c_before.blocks.contains_key(idq));
                    assert(backend@.blocks[idq] == c_before.blocks[idq]);
                }
            }
            assert forall|p: u64, x: u64| c0.has_block(p) implies (
            #[trigger] backend@.blocks[p].children@.contains(x) <==> (c0.blocks[p].children@.contains(
                x,
            ) || exists|i: int|
                0 <= i < k && (#[trigger] pending@[i].block.spec_parent_id()) == Some(p)
                    && pending@[i].block.spec_id() == x)) by {
                if p == parent {
                    if backend@.blocks[p].children@.contains(x) {
                        let wi = choose|wi: int|
                            0 <= wi < base.push(id).len() && base.push(id)[wi] == x;
                        if wi < base.len() {
                            assert(base[wi] == x);
                            assert(base.contains(x));
                        } else {
                            assert(x == id);
                            assert(pending@[k - 1].block.spec_parent_id() == Some(p)
                                && pending@[k - 1].block.spec_id() == x);
                        }
                    }
                    if c0.blocks[p].children@.contains(x) {
                        assert(base.contains(x));
                        let wi = choose|wi: int| 0 <= wi < base.len() && base[wi] == x;
                        assert(base.push(id)[wi] == x);
                        assert(backend@.blocks[p].children@.contains(x));
                    }
                    if exists|i: int|
                        0 <= i < k && (#[trigger] pending@[i].block.spec_parent_id()) == Some(p)
                            && pending@[i].block.spec_id() == x {
                        let i0 = choose|i: int|
                            0 <= i < k && (#[trigger] pending@[i].block.spec_parent_id()) == Some(p)
                                && pending@[i].block.spec_id() == x;
                        if i0 < k - 1 {
                            assert(base.contains(x));
                            let wi = choose|wi: int| 0 <= wi < base.len() && base[wi] == x;
                            assert(base.push(id)[wi] == x);
                        } else {
                            assert(x == id);
                            assert(base.push(id)[base.len() as int] == x);
                        }
                        assert(backend@.blocks[p].children@.contains(x));
                    }
                } else {
                    assert(backend@.blocks[p].children@ == c_before.blocks[p].children@);
                    if exists|i: int|
                        0 <= i < k && (#[trigger] pending@[i].block.spec_parent_id()) == Some(p)
                            && pending@[i].block.spec_id() == x {
                        let i0 = choose|i: int|
                            0 <= i < k && (#[trigger] pending@[i].block.spec_parent_id()) == Some(p)
                                && pending@[i].block.spec_id() == x;
                        assert(i0 < k - 1);
                    }
                }
            }
            assert forall|p: u64, i: int, j: int|
                c0.has_block(p) && 0 <= i < j < backend@.blocks[p].children@.len() implies
            #[trigger] backend@.blocks[p].children@[i] != #[trigger] backend@.blocks[p].children@[j] by {
                if p == parent {
                    if j == backend@.blocks[p].children@.len() - 1 {
                        assert(backend@.blocks[p].children@[j] == id);
                        assert(backend@.blocks[p].children@[i] == base[i]);
                        assert(base.contains(base[i]));
                        assert(!base.contains(id));
                        assert(base[i] != id);
                    } else {
                        assert(backend@.blocks[p].children@[i] == base[i]);
                        assert(backend@.blocks[p].children@[j] == base[j]);
                        assert(c_before.has_block(p));
                    }
                }
            }
        }
    }
}

/// Whether two block records agree on everything but their canonical flag.
pub open spec fn same_but_canon<B, S>(a: BlockData<B, S>, b: BlockData<B, S>) -> bool {
    &&& a.block == b.block
    &&& a.state == b.state
    &&& a.depth == b.depth
    &&& a.children@ == b.children@
}

/// Walking up from the head along parent links stays on the canonical chain
/// and meets the depth index pointwise.
proof fn lemma_head_path_canon<B: Block, S, A: Auxiliary>(
    c: ChainSnapshot<B, S, A>,
    route: Seq<u64>,
    pivot: int,
    to: u64,
    i: int,
)
    requires
        c.tree_wf(),
        c.canon_wf(),
        is_tree_route(c, c.head, to, route, pivot),
        0 <= i <= pivot,
    ensures
        c.blocks[route[i]].is_canon,
        c.canon_depth.contains_key(c.depth_of(route[i])),
        c.canon_depth[c.depth_of(route[i])] == route[i],
    decreases i,
{
    if i == 0 {
        assert(route[0] == c.head);
        assert(c.canon_depth[c.depth_of(c.head)] == c.head);
    } else {
        lemma_head_path_canon(c, route, pivot, to, i - 1);
        let prev = route[i - 1];
        let d = c.depth_of(prev);
        assert(c.parent_of(prev) == Some(route[i]));
        assert(c.canon_depth.contains_key(d) && c.canon_depth[d] == prev);
        assert(d as int == c.depth_of(route[pivot]) + pivot - (i - 1));
        assert(d >= 1);
        assert(c.parent_of(c.canon_depth[d]) == Some(c.canon_depth[(d - 1) as usize]));
        assert(route[i] == c.canon_depth[(d - 1) as usize]);
        assert(c.canon_depth.contains_key((d - 1) as usize));
        assert(c.depth_of(route[i]) == (d - 1) as usize);
    }
}

/// Switch the canonical chain to the one ending at `new_head`: compute the
/// tree route from the current head, unflag and unindex the retracted
/// segment, flag and index the enacted segment, and move the head. Blocks,
/// states, depths, children and auxiliaries are untouched; the canonical
/// invariant holds again at exit.
#[verifier::rlimit(100)]
#[verifier::loop_isolation(false)]
fn reorg<B: Block, A: Auxiliary, S: ChainState>(
    backend: &mut MemoryDatabase<B, A, S>,
    new_head: u64,
)
    requires
        old(backend)@.tree_wf(),
        old(backend)@.canon_wf(),
        old(backend)@.has_block(new_head),
    ensures
        final(backend)@.tree_wf(),
        final(backend)@.canon_wf(),
        final(backend)@.head == new_head,
        final(backend)@.genesis == old(backend)@.genesis,
        final(backend)@.auxiliaries == old(backend)@.auxiliaries,
        final(backend)@.blocks.dom() == old(backend)@.blocks.dom(),
        forall|id: u64|
            old(backend)@.has_block(id) ==> same_but_canon(
                #[trigger] final(backend)@.blocks[id],
                old(backend)@.blocks[id],
            ),
{
    let ghost c = old(backend)@;
    let old_head = backend.head();
    let route = match tree_route(&*backend, &old_head, &new_head) {
        Ok(route) => route,
        Err(_) => {
            proof {
                assert(false);
            }
            return ;
        },
    };
    let ghost r = route.spec_route();
    let ghost p = route.spec_pivot();
    let ghost cd = c.depth_of(r[p]) as int;
    let ghost dh = c.depth_of(c.head) as int;
    let ghost el = r.len() - p - 1;
    proof {
        assert(dh == cd + p);
        assert forall|i: int| 0 <= i <= p implies {
            &&& c.blocks[#[trigger] r[i]].is_canon
            &&& c.canon_depth.contains_key(c.depth_of(r[i]))
            &&& c.canon_depth[c.depth_of(r[i])] == r[i]
        } by {
            lemma_head_path_canon(c, r, p, new_head, i);
        }
    }
    let retracted = route.retracted();
    let mut k: usize = 0;
    while k < retracted.len()
        invariant
            k <= retracted@.len(),
            backend@.genesis == c.genesis,
            backend@.head == c.head,
            backend@.auxiliaries == c.auxiliaries,
            backend@.blocks.dom() == c.blocks.dom(),
            forall|id: u64|
                c.has_block(id) ==> same_but_canon(#[trigger] backend@.blocks[id], c.blocks[id]),
            forall|id: u64|
                c.has_block(id) ==> #[trigger] backend@.blocks[id].is_canon == (if (exists|j: int|
                    0 <= j < k && #[trigger] r[j] == id) {
                    false
                } else {
                    c.blocks[id].is_canon
                }),
            forall|d: usize| #[trigger]
                backend@.canon_depth.contains_key(d) <==> (c.canon_depth.contains_key(d) && !(
                exists|j: int| 0 <= j < k && c.depth_of(#[trigger] r[j]) == d)),
            forall|d: usize|
                backend@.canon_depth.contains_key(d) ==> #[trigger] backend@.canon_depth[d]
                    == c.canon_depth[d],
        decreases retracted@.len() - k,
    {
        let id = retracted[k];
        proof {
            assert(r.take(p)[k as int] == r[k as int]);
            assert(c.has_block(r[k as int]));
        }
        backend.set_canon(id, false);
        let d = match backend.depth_at(&id) {
            Ok(d) => d,
            Err(_) => {
                proof {
                    assert(false);
                }
                0
            },
        };
        backend.remove_canon_depth_mapping(&d);
        k = k + 1;
        proof {
            assert(d == c.depth_of(r[k - 1]));
            assert forall|id2: u64| c.has_block(id2) implies #[trigger] backend@.blocks[id2].is_canon
                == (if (exists|j: int| 0 <= j < k && #[trigger] r[j] == id2) {
                false
            } else {
                c.blocks[id2].is_canon
            }) by {
                if id2 == id {
                    assert(r[k - 1] == id2);
                } else {
                    if exists|j: int| 0 <= j < k && #[trigger] r[j] == id2 {
                        let j0 = choose|j: int| 0 <= j < k && #[trigger] r[j] == id2;
                        assert(j0 < k - 1);
                    }
                }
            }
            assert forall|d2: usize| #[trigger]
                backend@.canon_depth.contains_key(d2) <==> (c.canon_depth.contains_key(d2) && !(
            exists|j: int| 0 <= j < k && c.depth_of(#[trigger] r[j]) == d2)) by {
                if d2 == d {
                    assert(c.depth_of(r[k - 1]) == d2);
                } else {
                    if exists|j: int| 0 <= j < k && c.depth_of(#[trigger] r[j]) == d2 {
                        let j0 = choose|j: int| 0 <= j < k && c.depth_of(#[trigger] r[j]) == d2;
                        assert(j0 < k - 1);
                    }
                }
            }
        }
    }
    let enacted = route.enacted();
    let mut k2: usize = 0;
    while k2 < enacted.len()
        invariant
            k2 <= el,
            backend@.genesis == c.genesis,
            backend@.head == c.head,
            backend@.auxiliaries == c.auxiliaries,
            backend@.blocks.dom() == c.blocks.dom(),
            forall|id: u64|
                c.has_block(id) ==> same_but_canon(#[trigger] backend@.blocks[id], c.blocks[id]),
            forall|id: u64|
                c.has_block(id) ==> #[trigger] backend@.blocks[id].is_canon == (if (exists|j: int|
                    0 <= j < k2 && #[trigger] r[p + 1 + j] == id) {
                    true
                } else if (exists|j: int| 0 <= j < p && #[trigger] r[j] == id) {
                    false
                } else {
                    c.blocks[id].is_canon
                }),
            forall|d: usize| #[trigger]
                backend@.canon_depth.contains_key(d) <==> ((c.canon_depth.contains_key(d) && !(
                exists|j: int| 0 <= j < p && c.depth_of(#[trigger] r[j]) == d)) || (exists|j: int|
                0 <= j < k2 && c.depth_of(#[trigger] r[p + 1 + j]) == d)),
            forall|j: int|
                0 <= j < k2 ==> backend@.canon_depth.contains_key(c.depth_of(#[trigger] r[p + 1
                    + j])) && backend@.canon_depth[c.depth_of(r[p + 1 + j])] == r[p + 1 + j],
            forall|d: usize|
                backend@.canon_depth.contains_key(d) && !(exists|j: int|
                    0 <= j < k2 && c.depth_of(#[trigger] r[p + 1 + j]) == d)
                    ==> #[trigger] backend@.canon_depth[d] == c.canon_depth[d],
        decreases el - k2,
    {
        let id = enacted[k2];
        proof {
            assert(r.skip(p + 1)[k2 as int] == r[p + 1 + k2]);
            assert(c.has_block(r[p + 1 + k2]));
        }
        backend.set_canon(id, true);
        let d = match backend.depth_at(&id) {
            Ok(d) => d,
            Err(_) => {
                proof {
                    assert(false);
                }
                0
            },
        };
        backend.insert_canon_depth_mapping(d, id);
        k2 = k2 + 1;
        proof {
            assert(d == c.depth_of(r[p + 1 + (k2 - 1)]));
            assert forall|id2: u64| c.has_block(id2) implies #[trigger] backend@.blocks[id2].is_canon
                == (if (exists|j: int| 0 <= j < k2 && #[trigger] r[p + 1 + j] == id2) {
                true
            } else if (exists|j: int| 0 <= j < p && #[trigger] r[j] == id2) {
                false
            } else {
                c.blocks[id2].is_canon
            }) by {
                if id2 == id {
                    assert(r[p + 1 + (k2 - 1)] == id2);
                } else {
                    if exists|j: int| 0 <= j < k2 && #[trigger] r[p + 1 + j] == id2 {
                        let j0 = choose|j: int| 0 <= j < k2 && #[trigger] r[p + 1 + j] == id2;
                        assert(j0 < k2 - 1);
                    }
                }
            }
            assert forall|d2: usize| #[trigger]
                backend@.canon_depth.contains_key(d2) <==> ((c.canon_depth.contains_key(d2) && !(
            exists|j: int| 0 <= j < p && c.depth_of(#[trigger] r[j]) == d2)) || (exists|j: int|
            0 <= j < k2 && c.depth_of(#[trigger] r[p + 1 + j]) == d2)) by {
                if d2 == d {
                    assert(c.depth_of(r[p + 1 + (k2 - 1)]) == d2);
                } else {
                    if exists|j: int| 0 <= j < k2 && c.depth_of(#[trigger] r[p + 1 + j]) == d2 {
                        let j0 = choose|j: int| 0 <= j < k2 && c.depth_of(#[trigger] r[p + 1 + j])
                            == d2;
                        assert(j0 < k2 - 1);
                    }
                }
            }
        }
    }
    backend.set_head(new_head);
    proof {
        lemma_reorg_canon(c, backend@, r, p, new_head);
        lemma_preserved_tree_wf(c, backend@);
    }
}

/// The canonical identification of the route's retracted prefix: each entry
/// sits on the old canonical chain at its own depth.
pub(crate) open spec fn route_canon_facts<B: Block, S, A: Auxiliary>(
    c: ChainSnapshot<B, S, A>,
    r: Seq<u64>,
    p: int,
) -> bool {
    forall|i: int| 0 <= i <= p ==> {
        &&& c.blocks[#[trigger] r[i]].is_canon
        &&& c.canon_depth.contains_key(c.depth_of(r[i]))
        &&& c.canon_depth[c.depth_of(r[i])] == r[i]
    }
}

/// How the state after the retract and enact sweeps and the head move
/// relates to the state before them.
pub(crate) open spec fn reorg_rel<B: Block, S, A: Auxiliary>(
    c: ChainSnapshot<B, S, A>,
    f: ChainSnapshot<B, S, A>,
    r: Seq<u64>,
    p: int,
    new_head: u64,
) -> bool {
    &&& f.genesis == c.genesis
    &&& f.head == new_head
    &&& f.auxiliaries == c.auxiliaries
    &&& f.blocks.dom() == c.blocks.dom()
    &&& forall|id: u64|
        c.has_block(id) ==> same_but_canon(#[trigger] f.blocks[id], c.blocks[id])
    &&& forall|id: u64|
        c.has_block(id) ==> #[trigger] f.blocks[id].is_canon == (if (exists|j: int|
            0 <= j < r.len() - p - 1 && #[trigger] r[p + 1 + j] == id) {
            true
        } else if (exists|j: int| 0 <= j < p && #[trigger] r[j] == id) {
            false
        } else {
            c.blocks[id].is_canon
        })
    &&& forall|d: usize| #[trigger]
        f.canon_depth.contains_key(d) <==> ((c.canon_depth.contains_key(d) && !(exists|j: int|
            0 <= j < p && c.depth_of(#[trigger] r[j]) == d)) || (exists|j: int|
            0 <= j < r.len() - p - 1 && c.depth_of(#[trigger] r[p + 1 + j]) == d))
    &&& forall|j: int|
        0 <= j < r.len() - p - 1 ==> f.canon_depth.contains_key(c.depth_of(#[trigger] r[p + 1 + j]))
            && f.canon_depth[c.depth_of(r[p + 1 + j])] == r[p + 1 + j]
    &&& forall|d: usize|
        f.canon_depth.contains_key(d) && !(exists|j: int|
            0 <= j < r.len() - p - 1 && c.depth_of(#[trigger] r[p + 1 + j]) == d)
            ==> #[trigger] f.canon_depth[d] == c.canon_depth[d]
}

/// After the sweeps, the index is defined exactly up to the new head depth.
#[verifier::rlimit(100)]
proof fn lemma_reorg_index_domain<B: Block, S, A: Auxiliary>(
    c: ChainSnapshot<B, S, A>,
    f: ChainSnapshot<B, S, A>,
    r: Seq<u64>,
    p: int,
    new_head: u64,
)
    requires
        c.tree_wf(),
        c.canon_wf(),
        is_tree_route(c, c.head, new_head, r, p),
        route_canon_facts(c, r, p),
        reorg_rel(c, f, r, p, new_head),
    ensures
        forall|d: usize| #[trigger] f.canon_depth.contains_key(d) <==> d <= f.depth_of(f.head),
{

    let cd = c.depth_of(r[p]) as int;
    let dh = c.depth_of(c.head) as int;
    let el = r.len() - p - 1;
    assert(dh == cd + p);
    let dhn = c.depth_of(new_head) as int;
    assert(dhn == cd + el);
    assert(f.has_block(new_head));
    assert(f.depth_of(f.head) as int == dhn);
    // Depths along the route identify the retracted and enacted entries.
    assert forall|j: int| 0 <= j < p implies c.depth_of(#[trigger] r[j]) as int == cd + p
        - j by {}
    assert forall|j: int| 0 <= j < el implies c.depth_of(#[trigger] r[p + 1 + j]) as int == cd
        + 1 + j by {}
    // Clause 1: the index is defined exactly up to the new head depth.
    assert forall|d: usize| #[trigger] f.canon_depth.contains_key(d) <==> d <= f.depth_of(
        f.head,
    ) by {
        if f.canon_depth.contains_key(d) {
            if exists|j: int| 0 <= j < el && c.depth_of(#[trigger] r[p + 1 + j]) == d {
                let j0 = choose|j: int| 0 <= j < el && c.depth_of(#[trigger] r[p + 1 + j]) == d;
                assert(d as int == cd + 1 + j0);
            } else {
                assert(c.canon_depth.contains_key(d) && !(exists|j: int|
                    0 <= j < p && c.depth_of(#[trigger] r[j]) == d));
                assert(d as int <= dh);
                if d as int > cd {
                    let j0 = cd + p - d;
                    assert(0 <= j0 < p && c.depth_of(r[j0]) == d);
                    assert(false);
                }
            }
        } else {
            if d <= f.depth_of(f.head) {
                if d as int <= cd {
                    assert(c.canon_depth.contains_key(d));
                    assert forall|j: int| 0 <= j < p implies c.depth_of(#[trigger] r[j])
                        != d by {
                        assert(c.depth_of(r[j]) as int == cd + p - j > cd);
                    }
                    assert(false);
                } else {
                    let j0 = d - cd - 1;
                    assert(0 <= j0 < el && c.depth_of(r[p + 1 + j0]) == d);
                    assert(false);
                }
            }
        }
    }
}

/// After the sweeps, every index entry is a stored canonical block of its depth.
#[verifier::rlimit(100)]
proof fn lemma_reorg_index_entries<B: Block, S, A: Auxiliary>(
    c: ChainSnapshot<B, S, A>,
    f: ChainSnapshot<B, S, A>,
    r: Seq<u64>,
    p: int,
    new_head: u64,
)
    requires
        c.tree_wf(),
        c.canon_wf(),
        is_tree_route(c, c.head, new_head, r, p),
        route_canon_facts(c, r, p),
        reorg_rel(c, f, r, p, new_head),
    ensures
        forall|d: usize|
            f.canon_depth.contains_key(d) ==> {
                let id = #[trigger] f.canon_depth[d];
                &&& f.has_block(id)
                &&& f.depth_of(id) == d
                &&& f.blocks[id].is_canon
            },
{

    let cd = c.depth_of(r[p]) as int;
    let dh = c.depth_of(c.head) as int;
    let el = r.len() - p - 1;
    assert(dh == cd + p);
    let dhn = c.depth_of(new_head) as int;
    assert(dhn == cd + el);
    assert(f.has_block(new_head));
    assert(f.depth_of(f.head) as int == dhn);
    // Depths along the route identify the retracted and enacted entries.
    assert forall|j: int| 0 <= j < p implies c.depth_of(#[trigger] r[j]) as int == cd + p
        - j by {}
    assert forall|j: int| 0 <= j < el implies c.depth_of(#[trigger] r[p + 1 + j]) as int == cd
        + 1 + j by {}
    // Clause 2: every index entry is a stored canonical block of that depth.
    assert forall|d: usize| f.canon_depth.contains_key(d) implies {
        let id = #[trigger] f.canon_depth[d];
        &&& f.has_block(id)
        &&& f.depth_of(id) == d
        &&& f.blocks[id].is_canon
    } by {
        if exists|j: int| 0 <= j < el && c.depth_of(#[trigger] r[p + 1 + j]) == d {
            let j0 = choose|j: int| 0 <= j < el && c.depth_of(#[trigger] r[p + 1 + j]) == d;
            assert(f.canon_depth[d] == r[p + 1 + j0]);
            assert(f.blocks[r[p + 1 + j0]].is_canon);
        } else {
            assert(f.canon_depth[d] == c.canon_depth[d]);
            let id = c.canon_depth[d];
            assert(c.canon_depth.contains_key(d) && !(exists|j: int|
                0 <= j < p && c.depth_of(#[trigger] r[j]) == d));
            assert(c.has_block(id) && c.depth_of(id) == d && c.blocks[id].is_canon);
            if d as int > cd {
                let j0 = cd + p - d;
                assert(0 <= j0 < p && c.depth_of(r[j0]) == d);
                assert(false);
            }
            assert(d as int <= cd);
            assert forall|j: int| 0 <= j < p implies #[trigger] r[j] != id by {
                assert(c.depth_of(r[j]) as int == cd + p - j > cd);
                if r[j] == id {
                    assert(c.depth_of(r[j]) == d);
                }
            }
            assert forall|j: int| 0 <= j < el implies #[trigger] r[p + 1 + j] != id by {
                assert(c.depth_of(r[p + 1 + j]) as int == cd + 1 + j > cd);
                if r[p + 1 + j] == id {
                    assert(c.depth_of(r[p + 1 + j]) == d);
                }
            }
            assert(f.blocks[id].is_canon == c.blocks[id].is_canon);
        }
    }
}

/// After the sweeps, the index entry at the head depth is the head.
#[verifier::rlimit(100)]
proof fn lemma_reorg_head_entry<B: Block, S, A: Auxiliary>(
    c: ChainSnapshot<B, S, A>,
    f: ChainSnapshot<B, S, A>,
    r: Seq<u64>,
    p: int,
    new_head: u64,
)
    requires
        c.tree_wf(),
        c.canon_wf(),
        is_tree_route(c, c.head, new_head, r, p),
        route_canon_facts(c, r, p),
        reorg_rel(c, f, r, p, new_head),
    ensures
        f.canon_depth.contains_key(f.depth_of(f.head)) && f.canon_depth[f.depth_of(f.head)]
            == f.head,
{

    let cd = c.depth_of(r[p]) as int;
    let dh = c.depth_of(c.head) as int;
    let el = r.len() - p - 1;
    assert(dh == cd + p);
    let dhn = c.depth_of(new_head) as int;
    assert(dhn == cd + el);
    assert(f.has_block(new_head));
    assert(f.depth_of(f.head) as int == dhn);
    // Depths along the route identify the retracted and enacted entries.
    assert forall|j: int| 0 <= j < p implies c.depth_of(#[trigger] r[j]) as int == cd + p
        - j by {}
    assert forall|j: int| 0 <= j < el implies c.depth_of(#[trigger] r[p + 1 + j]) as int == cd
        + 1 + j by {}
    // The index entry at the head depth is the head.
    if el > 0 {
        assert(c.depth_of(r[p + 1 + (el - 1)]) as int == cd + el);
        assert(r[p + 1 + (el - 1)] == r[r.len() - 1]);
        assert(r[r.len() - 1] == new_head);
        assert(f.canon_depth.contains_key(c.depth_of(r[p + 1 + (el - 1)])));
        assert(f.canon_depth[c.depth_of(r[p + 1 + (el - 1)])] == r[p + 1 + (el - 1)]);
        assert(c.depth_of(r[p + 1 + (el - 1)]) == f.depth_of(f.head));
    } else {
        assert(new_head == r[p]);
        assert((c.depth_of(new_head) as int) == cd);
        assert(c.canon_depth.contains_key(c.depth_of(r[p])));
        assert forall|j: int| 0 <= j < p implies c.depth_of(#[trigger] r[j]) != c.depth_of(
            new_head,
        ) by {
            assert(c.depth_of(r[j]) as int == cd + p - j > cd);
        }
        assert(f.canon_depth.contains_key(c.depth_of(new_head)));
        assert forall|j: int| 0 <= j < el implies c.depth_of(#[trigger] r[p + 1 + j])
            != c.depth_of(new_head) by {}
        assert(f.canon_depth[c.depth_of(new_head)] == c.canon_depth[c.depth_of(new_head)]);
        assert(c.canon_depth[c.depth_of(r[p])] == r[p]);
        assert(f.depth_of(f.head) == c.depth_of(new_head));
    }
    assert(f.canon_depth.contains_key(f.depth_of(f.head)) && f.canon_depth[f.depth_of(f.head)]
        == f.head);
}

/// After the sweeps, consecutive index entries are parent-linked.
#[verifier::rlimit(100)]
proof fn lemma_reorg_index_links<B: Block, S, A: Auxiliary>(
    c: ChainSnapshot<B, S, A>,
    f: ChainSnapshot<B, S, A>,
    r: Seq<u64>,
    p: int,
    new_head: u64,
)
    requires
        c.tree_wf(),
        c.canon_wf(),
        is_tree_route(c, c.head, new_head, r, p),
        route_canon_facts(c, r, p),
        reorg_rel(c, f, r, p, new_head),
        forall|d: usize| #[trigger] f.canon_depth.contains_key(d) <==> d <= f.depth_of(f.head),
    ensures
        forall|d: usize|
            f.canon_depth.contains_key(d) && 1 <= d ==> #[trigger] f.parent_of(f.canon_depth[d])
                == Some(f.canon_depth[(d - 1) as usize]),
{

    let cd = c.depth_of(r[p]) as int;
    let dh = c.depth_of(c.head) as int;
    let el = r.len() - p - 1;
    assert(dh == cd + p);
    let dhn = c.depth_of(new_head) as int;
    assert(dhn == cd + el);
    assert(f.has_block(new_head));
    assert(f.depth_of(f.head) as int == dhn);
    // Depths along the route identify the retracted and enacted entries.
    assert forall|j: int| 0 <= j < p implies c.depth_of(#[trigger] r[j]) as int == cd + p
        - j by {}
    assert forall|j: int| 0 <= j < el implies c.depth_of(#[trigger] r[p + 1 + j]) as int == cd
        + 1 + j by {}
    // Characterize the index values below and above the common depth.
    assert forall|d: usize| f.canon_depth.contains_key(d) && d as int <= cd implies
    #[trigger] f.canon_depth[d] == c.canon_depth[d] by {
        assert forall|j: int| 0 <= j < el implies c.depth_of(#[trigger] r[p + 1 + j]) != d by {
            assert(c.depth_of(r[p + 1 + j]) as int == cd + 1 + j > cd);
        }
    }
    assert forall|d: usize| f.canon_depth.contains_key(d) && d as int > cd implies
    #[trigger] f.canon_depth[d] == r[p + 1 + (d - cd - 1)] by {
        let j0 = d - cd - 1;
        assert(d <= f.depth_of(f.head));
        assert(0 <= j0 < el);
        assert(c.depth_of(r[p + 1 + j0]) == d);
        assert(f.canon_depth[c.depth_of(r[p + 1 + j0])] == r[p + 1 + j0]);
    }
    // Consecutive index entries are parent-linked.
    assert forall|d: usize| f.canon_depth.contains_key(d) && 1 <= d implies #[trigger] f.parent_of(
        f.canon_depth[d],
    ) == Some(f.canon_depth[(d - 1) as usize]) by {
        let dm = (d - 1) as usize;
        assert(f.canon_depth.contains_key(dm));
        if d as int <= cd {
            assert(f.canon_depth[d] == c.canon_depth[d]);
            assert(f.canon_depth[dm] == c.canon_depth[dm]);
            assert(c.canon_depth.contains_key(d));
            assert(c.parent_of(c.canon_depth[d]) == Some(c.canon_depth[dm]));
            assert(c.has_block(c.canon_depth[d]));
            assert(same_but_canon(f.blocks[c.canon_depth[d]], c.blocks[c.canon_depth[d]]));
            assert(f.parent_of(c.canon_depth[d]) == c.parent_of(c.canon_depth[d]));
        } else {
            let j0 = d - cd - 1;
            assert(d <= f.depth_of(f.head));
            assert(0 <= j0 < el);
            assert(f.canon_depth[d] == r[p + 1 + j0]);
            assert(c.parent_of(r[p + 1 + j0]) == Some(r[p + j0]));
            assert(c.has_block(r[p + 1 + j0]));
            assert(same_but_canon(f.blocks[r[p + 1 + j0]], c.blocks[r[p + 1 + j0]]));
            assert(f.parent_of(r[p + 1 + j0]) == c.parent_of(r[p + 1 + j0]));
            if j0 == 0 {
                assert(r[p + j0] == r[p]);
                assert(dm as int == cd);
                assert(c.canon_depth[c.depth_of(r[p])] == r[p]);
                assert(f.canon_depth[dm] == c.canon_depth[dm]);
                assert(c.canon_depth[dm] == r[p]);
            } else {
                assert(dm as int > cd);
                assert(f.canon_depth[dm] == r[p + 1 + (dm - cd - 1)]);
                assert(p + 1 + (dm - cd - 1) == p + j0);
            }
        }
    }
}

/// After the sweeps, a block flagged canonical is the index entry at its depth.
#[verifier::rlimit(100)]
proof fn lemma_reorg_canon_flags<B: Block, S, A: Auxiliary>(
    c: ChainSnapshot<B, S, A>,
    f: ChainSnapshot<B, S, A>,
    r: Seq<u64>,
    p: int,
    new_head: u64,
)
    requires
        c.tree_wf(),
        c.canon_wf(),
        is_tree_route(c, c.head, new_head, r, p),
        route_canon_facts(c, r, p),
        reorg_rel(c, f, r, p, new_head),
    ensures
        forall|id: u64|
            f.has_block(id) && #[trigger] f.blocks[id].is_canon ==> f.canon_depth.contains_key(
                f.depth_of(id),
            ) && f.canon_depth[f.depth_of(id)] == id,
{

    let cd = c.depth_of(r[p]) as int;
    let dh = c.depth_of(c.head) as int;
    let el = r.len() - p - 1;
    assert(dh == cd + p);
    let dhn = c.depth_of(new_head) as int;
    assert(dhn == cd + el);
    assert(f.has_block(new_head));
    assert(f.depth_of(f.head) as int == dhn);
    // Depths along the route identify the retracted and enacted entries.
    assert forall|j: int| 0 <= j < p implies c.depth_of(#[trigger] r[j]) as int == cd + p
        - j by {}
    assert forall|j: int| 0 <= j < el implies c.depth_of(#[trigger] r[p + 1 + j]) as int == cd
        + 1 + j by {}
    // Clause 5: a block flagged canonical is the index entry at its depth.
    assert forall|id: u64| f.has_block(id) && #[trigger] f.blocks[id].is_canon implies
    f.canon_depth.contains_key(f.depth_of(id)) && f.canon_depth[f.depth_of(id)] == id by {
        let d = f.depth_of(id);
        if exists|j: int| 0 <= j < el && #[trigger] r[p + 1 + j] == id {
            let j0 = choose|j: int| 0 <= j < el && #[trigger] r[p + 1 + j] == id;
            assert(c.depth_of(id) as int == cd + 1 + j0);
            assert(f.canon_depth.contains_key(c.depth_of(id)));
            assert forall|j: int|
                0 <= j < el && c.depth_of(#[trigger] r[p + 1 + j]) == c.depth_of(id) implies j
                == j0 by {}
            assert(f.canon_depth[c.depth_of(id)] == r[p + 1 + j0]);
        } else if exists|j: int| 0 <= j < p && #[trigger] r[j] == id {
            assert(!f.blocks[id].is_canon);
        } else {
            assert(f.blocks[id].is_canon == c.blocks[id].is_canon);
            assert(c.blocks[id].is_canon);
            assert(c.canon_depth.contains_key(c.depth_of(id)) && c.canon_depth[c.depth_of(id)]
                == id);
            if c.depth_of(id) as int > cd {
                let j0 = cd + p - c.depth_of(id);
                assert(0 <= j0 < p);
                assert(c.depth_of(r[j0]) == c.depth_of(id));
                assert(c.canon_depth[c.depth_of(r[j0])] == r[j0]);
                assert(r[j0] == id);
                assert(false);
            }
            assert forall|j: int| 0 <= j < p implies c.depth_of(#[trigger] r[j]) != d by {
                assert(c.depth_of(r[j]) as int == cd + p - j > cd);
            }
            assert(f.canon_depth.contains_key(d));
            assert forall|j: int| 0 <= j < el implies c.depth_of(#[trigger] r[p + 1 + j])
                != d by {
                assert(c.depth_of(r[p + 1 + j]) as int == cd + 1 + j > cd);
            }
            assert(f.canon_depth[d] == c.canon_depth[d]);
            assert(c.canon_depth[d] == id);
        }
    }
}

/// After the retract and enact sweeps and the head move, the canonical
/// invariant holds of the new state.
proof fn lemma_reorg_canon<B: Block, S, A: Auxiliary>(
    c: ChainSnapshot<B, S, A>,
    f: ChainSnapshot<B, S, A>,
    r: Seq<u64>,
    p: int,
    new_head: u64,
)
    requires
        c.tree_wf(),
        c.canon_wf(),
        is_tree_route(c, c.head, new_head, r, p),
        route_canon_facts(c, r, p),
        reorg_rel(c, f, r, p, new_head),
    ensures
        f.canon_wf(),
{
    lemma_reorg_index_domain(c, f, r, p, new_head);
    lemma_reorg_index_entries(c, f, r, p, new_head);
    lemma_reorg_head_entry(c, f, r, p, new_head);
    lemma_reorg_index_links(c, f, r, p, new_head);
    lemma_reorg_canon_flags(c, f, r, p, new_head);
    assert(f.canon_wf());
}

/// A state that differs from a well-formed tree only in canonical flags,
/// head and index — with the new head stored — is itself a well-formed tree.
proof fn lemma_preserved_tree_wf<B: Block, S, A: Auxiliary>(
    c: ChainSnapshot<B, S, A>,
    f: ChainSnapshot<B, S, A>,
)
    requires
        c.tree_wf(),
        f.genesis == c.genesis,
        f.blocks.dom() == c.blocks.dom(),
        f.has_block(f.head),
        forall|id: u64|
            c.has_block(id) ==> same_but_canon(#[trigger] f.blocks[id], c.blocks[id]),
    ensures
        f.tree_wf(),
{
    assert forall|id: u64| f.has_block(id) implies {
        &&& #[trigger] f.blocks[id].block == c.blocks[id].block
        &&& f.depth_of(id) == c.depth_of(id)
    } by {
        assert(same_but_canon(f.blocks[id], c.blocks[id]));
    }
    assert forall|id: u64| f.has_block(id) && id != f.genesis implies {
        let pp = #[trigger] f.parent_of(id);
        &&& pp is Some
        &&& f.has_block(pp->0)
        &&& f.depth_of(id) == f.depth_of(pp->0) + 1
    } by {
        assert(c.parent_of(id) is Some);
        assert(f.parent_of(id) == c.parent_of(id));
    }
    assert(f.blocks[f.genesis].block == c.blocks[c.genesis].block);
    assert(f.parent_of(f.genesis) is None);
    assert(f.depth_of(f.genesis) == 0);
    assert forall|id: u64| f.has_block(id) && #[trigger] f.parent_of(id) is None implies id
        == f.genesis by {
        assert(f.parent_of(id) == c.parent_of(id));
    }
    assert forall|id: u64| f.has_block(id) implies #[trigger] f.depth_of(id)
        < f.blocks.dom().len() by {
        assert(f.depth_of(id) == c.depth_of(id));
    }
    assert(f.tree_wf());
}

/// Identifiers collected from the pending imports stand for them: membership
/// in the list is membership among the imports.
proof fn lemma_ids_match<B: Block, S>(ids: Seq<u64>, ops: Seq<ImportOperation<B, S>>, x: u64)
    requires
        ids.len() == ops.len(),
        forall|i: int| 0 <= i < ids.len() ==> (#[trigger] ids[i]) == ops[i].block.spec_id(),
    ensures
        ids.contains(x) == ops_has_id(ops, x),
{
    if ids.contains(x) {
        let i = choose|i: int| 0 <= i < ids.len() && ids[i] == x;
        assert(ops[i].block.spec_id() == x);
    }
    if ops_has_id(ops, x) {
        let i = choose|i: int| 0 <= i < ops.len() && (#[trigger] ops[i].block.spec_id()) == x;
        assert(ids[i] == x);
    }
}

/// Every entry that survives the removals was in the base table, unchanged.
proof fn lemma_remove_aux_entries<A>(m: Map<u64, A>, keys: Seq<u64>)
    ensures
        forall|k: u64| #[trigger]
            remove_aux_keys(m, keys).contains_key(k) ==> m.contains_key(k) && remove_aux_keys(
                m,
                keys,
            )[k] == m[k],
    decreases keys.len(),
{
    if keys.len() > 0 {
        lemma_remove_aux_entries(m, keys.drop_last());
        let prev = remove_aux_keys(m, keys.drop_last());
        assert forall|k: u64| #[trigger] remove_aux_keys(m, keys).contains_key(k) implies
        m.contains_key(k) && remove_aux_keys(m, keys)[k] == m[k] by {
            assert(prev.contains_key(k) && prev[k] == m[k]);
        }
    }
}

/// Every entry of the table after the insertions is an inserted record or an
/// unchanged entry of the base table.
proof fn lemma_insert_aux_entries<A: Auxiliary>(m: Map<u64, A>, auxes: Seq<A>)
    ensures
        forall|k: u64| #[trigger]
            insert_auxes(m, auxes).contains_key(k) ==> ((m.contains_key(k) && insert_auxes(
                m,
                auxes,
            )[k] == m[k]) || (exists|i: int|
                0 <= i < auxes.len() && (#[trigger] auxes[i]).spec_key() == k && insert_auxes(
                    m,
                    auxes,
                )[k] == auxes[i])),
    decreases auxes.len(),
{
    if auxes.len() > 0 {
        lemma_insert_aux_entries(m, auxes.drop_last());
        let prev = insert_auxes(m, auxes.drop_last());
        assert forall|k: u64| #[trigger] insert_auxes(m, auxes).contains_key(k) implies ((
        m.contains_key(k) && insert_auxes(m, auxes)[k] == m[k]) || (exists|i: int|
            0 <= i < auxes.len() && (#[trigger] auxes[i]).spec_key() == k && insert_auxes(m, auxes)[k]
                == auxes[i])) by {
            if k == auxes.last().spec_key() {
                let i0 = auxes.len() - 1;
                assert(auxes[i0].spec_key() == k && insert_auxes(m, auxes)[k] == auxes[i0]);
            } else {
                assert(prev.contains_key(k) && insert_auxes(m, auxes)[k] == prev[k]);
                if !(m.contains_key(k) && prev[k] == m[k]) {
                    let i0 = choose|i: int|
                        0 <= i < auxes.drop_last().len() && (#[trigger] auxes.drop_last()[i]).spec_key()
                            == k && prev[k] == auxes.drop_last()[i];
                    assert(auxes[i0].spec_key() == k && insert_auxes(m, auxes)[k] == auxes[i0]);
                }
            }
        }
    }
}

/// After the pending blocks are inserted and linked into their parents'
/// children lists, the extended store is a well-formed tree with exact
/// children lists, and the canonical chain is untouched.
#[verifier::rlimit(100)]
proof fn lemma_extended_wf<B: Block, S: View, A: Auxiliary>(
    c0: ChainSnapshot<B, S, A>,
    c1: ChainSnapshot<B, S, A>,
    c2: ChainSnapshot<B, S, A>,
    ops: Seq<ImportOperation<B, S>>,
    depths: Seq<usize>,
)
    requires
        c0.wf(),
        fresh_ids(c0, ops),
        depths_ok(c0, ops, depths),
        forall|i: int|
            0 <= i < depths.len() ==> (#[trigger] depths[i]) < c0.blocks.dom().len() + ops.len(),
        // After the inserts:
        c1.head == c0.head,
        c1.genesis == c0.genesis,
        c1.canon_depth == c0.canon_depth,
        c1.auxiliaries == c0.auxiliaries,
        forall|id: u64| #[trigger] c1.has_block(id) <==> (c0.has_block(id) || ops_has_id(ops, id)),
        forall|id: u64| c0.has_block(id) ==> #[trigger] c1.blocks[id] == c0.blocks[id],
        forall|i: int|
            0 <= i < ops.len() ==> {
                let id = (#[trigger] ops[i].block.spec_id());
                &&& c1.blocks[id].block == ops[i].block
                &&& c1.blocks[id].state@ == ops[i].state@
                &&& c1.blocks[id].depth == depths[i]
                &&& c1.blocks[id].children@.len() == 0
                &&& !c1.blocks[id].is_canon
            },
        c1.blocks.dom().finite(),
        c1.blocks.dom().len() == c0.blocks.dom().len() + ops.len(),
        // After the children sweep:
        c2.head == c1.head,
        c2.genesis == c1.genesis,
        c2.canon_depth == c1.canon_depth,
        c2.auxiliaries == c1.auxiliaries,
        c2.blocks.dom() == c1.blocks.dom(),
        forall|id: u64|
            c1.has_block(id) ==> same_but_children(#[trigger] c2.blocks[id], c1.blocks[id]),
        forall|p: u64, x: u64|
            c1.has_block(p) ==> (#[trigger] c2.blocks[p].children@.contains(x) <==> (
            c1.blocks[p].children@.contains(x) || exists|i: int|
                0 <= i < ops.len() && (#[trigger] ops[i].block.spec_parent_id()) == Some(p)
                    && ops[i].block.spec_id() == x)),
        forall|p: u64, i: int, j: int|
            c2.has_block(p) && 0 <= i < j < c2.blocks[p].children@.len()
                ==> #[trigger] c2.blocks[p].children@[i] != #[trigger] c2.blocks[p].children@[j],
    ensures
        c2.tree_wf(),
        c2.children_wf(),
        c2.canon_wf(),
        forall|id: u64| #[trigger] c2.has_block(id) <==> (c0.has_block(id) || ops_has_id(ops, id)),
        forall|id: u64|
            c0.has_block(id) ==> same_but_children(#[trigger] c2.blocks[id], c0.blocks[id]),
        forall|i: int|
            0 <= i < ops.len() ==> {
                let id = (#[trigger] ops[i].block.spec_id());
                &&& c2.blocks[id].block == ops[i].block
                &&& c2.blocks[id].state@ == ops[i].state@
                &&& c2.blocks[id].depth == depths[i]
                &&& !c2.blocks[id].is_canon
            },
{
    assert forall|id: u64| #[trigger] c2.has_block(id) <==> (c0.has_block(id) || ops_has_id(
        ops,
        id,
    )) by {
        assert(c2.has_block(id) == c1.has_block(id));
    }
    assert forall|id: u64| c0.has_block(id) implies same_but_children(
        #[trigger] c2.blocks[id],
        c0.blocks[id],
    ) by {
        assert(c1.has_block(id));
        assert(c1.blocks[id] == c0.blocks[id]);
        assert(same_but_children(c2.blocks[id], c1.blocks[id]));
    }
    assert forall|i: int| 0 <= i < ops.len() implies {
        let id = (#[trigger] ops[i].block.spec_id());
        &&& c2.blocks[id].block == ops[i].block
        &&& c2.blocks[id].state@ == ops[i].state@
        &&& c2.blocks[id].depth == depths[i]
        &&& !c2.blocks[id].is_canon
    } by {
        let id = ops[i].block.spec_id();
        assert(ops_has_id(ops, id));
        assert(c1.has_block(id));
        assert(same_but_children(c2.blocks[id], c1.blocks[id]));
    }
    // The tree shape.
    assert(c2.blocks.dom().len() == c0.blocks.dom().len() + ops.len());
    assert(c1.has_block(c0.genesis));
    assert(c1.has_block(c0.head));
    assert(c2.has_block(c2.genesis) && c2.has_block(c2.head));
    assert(same_but_children(c2.blocks[c2.genesis], c0.blocks[c0.genesis]));
    assert(c2.parent_of(c2.genesis) is None && c2.depth_of(c2.genesis) == 0);
    assert forall|id: u64| c2.has_block(id) implies #[trigger] c2.blocks[id].block.spec_id()
        == id by {
        if c0.has_block(id) {
            assert(same_but_children(c2.blocks[id], c0.blocks[id]));
        } else {
            let i = choose|i: int| 0 <= i < ops.len() && (#[trigger] ops[i].block.spec_id()) == id;
            assert(c1.has_block(id));
            assert(same_but_children(c2.blocks[id], c1.blocks[id]));
            assert(c1.blocks[id].block == ops[i].block);
        }
    }
    assert forall|id: u64|
        c2.has_block(id) && #[trigger] c2.parent_of(id) is None implies id == c2.genesis by {
        if c0.has_block(id) {
            assert(same_but_children(c2.blocks[id], c0.blocks[id]));
            assert(c0.parent_of(id) is None);
        } else {
            let i = choose|i: int| 0 <= i < ops.len() && (#[trigger] ops[i].block.spec_id()) == id;
            assert(c1.has_block(id));
            assert(same_but_children(c2.blocks[id], c1.blocks[id]));
            assert(c1.blocks[id].block == ops[i].block);
            assert(ops[i].block.spec_parent_id() is Some);
        }
    }
    assert forall|id: u64| c2.has_block(id) && id != c2.genesis implies {
        let pq = #[trigger] c2.parent_of(id);
        &&& pq is Some
        &&& c2.has_block(pq->0)
        &&& c2.depth_of(id) == c2.depth_of(pq->0) + 1
    } by {
        if c0.has_block(id) {
            assert(c1.has_block(id));
            assert(same_but_children(c2.blocks[id], c1.blocks[id]));
            assert(c1.blocks[id] == c0.blocks[id]);
            let pq = c0.parent_of(id);
            assert(pq is Some && c0.has_block(pq->0));
            assert(c1.has_block(pq->0));
            assert(same_but_children(c2.blocks[pq->0], c1.blocks[pq->0]));
            assert(c1.blocks[pq->0] == c0.blocks[pq->0]);
        } else {
            let i = choose|i: int| 0 <= i < ops.len() && (#[trigger] ops[i].block.spec_id()) == id;
            assert(c1.has_block(id));
            assert(same_but_children(c2.blocks[id], c1.blocks[id]));
            assert(c1.blocks[id].block == ops[i].block);
            assert(c1.blocks[id].depth == depths[i]);
            let pq = ops[i].block.spec_parent_id()->0;
            if c0.has_block(pq) {
                assert(c1.has_block(pq));
                assert(same_but_children(c2.blocks[pq], c1.blocks[pq]));
                assert(c1.blocks[pq] == c0.blocks[pq]);
                assert(c2.depth_of(id) == depths[i] == c0.depth_of(pq) + 1);
            } else {
                let j = choose|j: int|
                    0 <= j < ops.len() && (#[trigger] ops[j].block.spec_id()) == pq && depths[i]
                        == depths[j] + 1;
                assert(ops_has_id(ops, pq));
                assert(c1.has_block(pq));
                assert(same_but_children(c2.blocks[pq], c1.blocks[pq]));
                assert(c1.blocks[pq].depth == depths[j]);
            }
        }
    }
    assert forall|id: u64| c2.has_block(id) implies #[trigger] c2.depth_of(id)
        < c2.blocks.dom().len() by {
        if c0.has_block(id) {
            assert(same_but_children(c2.blocks[id], c0.blocks[id]));
            assert(c0.depth_of(id) < c0.blocks.dom().len());
        } else {
            let i = choose|i: int| 0 <= i < ops.len() && (#[trigger] ops[i].block.spec_id()) == id;
            assert(c2.depth_of(id) == depths[i]);
        }
    }
    assert(c2.tree_wf());
    // The children lists.
    assert forall|p: u64, i: int|
        c2.has_block(p) && 0 <= i < c2.blocks[p].children@.len() implies c2.has_block(
        #[trigger] c2.blocks[p].children@[i],
    ) by {
        let x = c2.blocks[p].children@[i];
        assert(c2.blocks[p].children@.contains(x));
        assert(c1.has_block(p));
        if c1.blocks[p].children@.contains(x) {
            if c0.has_block(p) {
                assert(c1.blocks[p] == c0.blocks[p]);
                assert(c0.blocks[p].children@.contains(x));
                let wi = choose|w: int|
                    0 <= w < c0.blocks[p].children@.len() && c0.blocks[p].children@[w] == x;
                assert(c0.has_block(c0.blocks[p].children@[wi]));
                assert(c1.has_block(x));
            } else {
                let ip = choose|ii: int|
                    0 <= ii < ops.len() && (#[trigger] ops[ii].block.spec_id()) == p;
                assert(c1.blocks[p].children@.len() == 0);
                assert(false);
            }
        } else {
            let ii = choose|ii: int|
                0 <= ii < ops.len() && (#[trigger] ops[ii].block.spec_parent_id()) == Some(p)
                    && ops[ii].block.spec_id() == x;
            assert(ops_has_id(ops, x));
            assert(c1.has_block(x));
        }
        assert(c2.has_block(x));
    }
    assert forall|p: u64, id: u64| c2.has_block(p) && c2.has_block(id) implies (
    #[trigger] c2.blocks[p].children@.contains(id) <==> c2.parent_of(id) == Some(p)) by {
        assert(c1.has_block(p));
        assert(c1.has_block(id));
        assert(same_but_children(c2.blocks[id], c1.blocks[id]));
        if c2.blocks[p].children@.contains(id) {
            if c1.blocks[p].children@.contains(id) {
                if c0.has_block(p) {
                    assert(c1.blocks[p] == c0.blocks[p]);
                    assert(c0.blocks[p].children@.contains(id));
                    let wi = choose|w: int|
                        0 <= w < c0.blocks[p].children@.len() && c0.blocks[p].children@[w] == id;
                    assert(c0.has_block(c0.blocks[p].children@[wi]));
                    assert(c0.parent_of(id) == Some(p));
                    assert(c1.blocks[id] == c0.blocks[id]);
                } else {
                    let ip = choose|ii: int|
                        0 <= ii < ops.len() && (#[trigger] ops[ii].block.spec_id()) == p;
                    assert(c1.blocks[p].children@.len() == 0);
                    assert(false);
                }
            } else {
                let i = choose|i: int|
                    0 <= i < ops.len() && (#[trigger] ops[i].block.spec_parent_id()) == Some(p)
                        && ops[i].block.spec_id() == id;
                assert(c1.blocks[id].block == ops[i].block);
            }
        }
        if c2.parent_of(id) == Some(p) {
            if c0.has_block(id) {
                assert(c1.blocks[id] == c0.blocks[id]);
                assert(c0.parent_of(id) == Some(p));
                assert(c0.has_block(p));
                assert(c0.blocks[p].children@.contains(id));
                assert(c1.blocks[p] == c0.blocks[p]);
                assert(c2.blocks[p].children@.contains(id));
            } else {
                let i = choose|i: int|
                    0 <= i < ops.len() && (#[trigger] ops[i].block.spec_id()) == id;
                assert(c1.blocks[id].block == ops[i].block);
                assert(ops[i].block.spec_parent_id() == Some(p));
                assert(c2.blocks[p].children@.contains(id));
            }
        }
    }
    assert(c2.children_wf());
    // The canonical chain is untouched.
    assert(c2.canon_depth == c0.canon_depth);
    assert(c2.depth_of(c2.head) == c0.depth_of(c0.head));
    assert forall|d: usize| #[trigger] c2.canon_depth.contains_key(d) implies {
        let id = c2.canon_depth[d];
        &&& c2.has_block(id)
        &&& c2.depth_of(id) == d
        &&& c2.blocks[id].is_canon
    } by {
        let id = c0.canon_depth[d];
        assert(c0.canon_depth.contains_key(d));
        assert(c0.has_block(id) && c0.depth_of(id) == d && c0.blocks[id].is_canon);
        assert(c1.has_block(id));
        assert(same_but_children(c2.blocks[id], c1.blocks[id]));
        assert(c1.blocks[id] == c0.blocks[id]);
    }
    assert forall|d: usize| c2.canon_depth.contains_key(d) && 1 <= d implies
    #[trigger] c2.parent_of(c2.canon_depth[d]) == Some(c2.canon_depth[(d - 1) as usize]) by {
        let id = c0.canon_depth[d];
        assert(c0.canon_depth.contains_key(d));
        assert(c0.has_block(id));
        assert(c1.has_block(id));
        assert(same_but_children(c2.blocks[id], c1.blocks[id]));
        assert(c1.blocks[id] == c0.blocks[id]);
        assert(c0.parent_of(id) == Some(c0.canon_depth[(d - 1) as usize]));
    }
    assert forall|id: u64| c2.has_block(id) && #[trigger] c2.blocks[id].is_canon implies
    c2.canon_depth.contains_key(c2.depth_of(id)) && c2.canon_depth[c2.depth_of(id)] == id by {
        assert(c1.has_block(id));
        assert(same_but_children(c2.blocks[id], c1.blocks[id]));
        if c0.has_block(id) {
            assert(c1.blocks[id] == c0.blocks[id]);
            assert(c0.blocks[id].is_canon);
        } else {
            let i = choose|i: int| 0 <= i < ops.len() && (#[trigger] ops[i].block.spec_id()) == id;
            assert(c1.blocks[id].block == ops[i].block);
            assert(!c1.blocks[id].is_canon);
            assert(false);
        }
    }
    assert(c2.canon_wf());
}

/// A state that differs from one with exact children lists only in canonical
/// flags, head and index has exact children lists too.
proof fn lemma_preserved_children_wf<B: Block, S, A: Auxiliary>(
    c: ChainSnapshot<B, S, A>,
    f: ChainSnapshot<B, S, A>,
)
    requires
        c.children_wf(),
        f.blocks.dom() == c.blocks.dom(),
        forall|id: u64|
            c.has_block(id) ==> same_but_canon(#[trigger] f.blocks[id], c.blocks[id]),
    ensures
        f.children_wf(),
{
    assert forall|id: u64| f.has_block(id) implies {
        &&& #[trigger] f.blocks[id].children@ == c.blocks[id].children@
        &&& f.blocks[id].block == c.blocks[id].block
    } by {
        assert(same_but_canon(f.blocks[id], c.blocks[id]));
    }
    assert(f.children_wf());
}

/// A state with the same block table, head and index as one satisfying the
/// canonical invariant satisfies it too.
proof fn lemma_same_canon_wf<B: Block, S, A: Auxiliary>(
    c: ChainSnapshot<B, S, A>,
    f: ChainSnapshot<B, S, A>,
)
    requires
        c.canon_wf(),
        f.blocks == c.blocks,
        f.head == c.head,
        f.canon_depth == c.canon_depth,
    ensures
        f.canon_wf(),
{
    assert(f.depth_of(f.head) == c.depth_of(c.head));
    assert forall|d: usize| #[trigger] f.canon_depth.contains_key(d) <==> d <= f.depth_of(
        f.head,
    ) by {
        assert(c.canon_depth.contains_key(d) <==> d <= c.depth_of(c.head));
    }
    assert forall|d: usize| f.canon_depth.contains_key(d) implies {
        let id = #[trigger] f.canon_depth[d];
        &&& f.has_block(id)
        &&& f.depth_of(id) == d
        &&& f.blocks[id].is_canon
    } by {
        assert(c.canon_depth.contains_key(d));
        assert(c.canon_depth[d] == f.canon_depth[d]);
    }
    assert forall|d: usize| f.canon_depth.contains_key(d) && 1 <= d implies #[trigger] f.parent_of(
        f.canon_depth[d],
    ) == Some(f.canon_depth[(d - 1) as usize]) by {
        assert(c.canon_depth.contains_key(d));
        assert(c.parent_of(c.canon_depth[d]) == Some(c.canon_depth[(d - 1) as usize]));
    }
    assert forall|id: u64| f.has_block(id) && #[trigger] f.blocks[id].is_canon implies
    f.canon_depth.contains_key(f.depth_of(id)) && f.canon_depth[f.depth_of(id)] == id by {
        assert(c.has_block(id) && c.blocks[id].is_canon);
    }
    assert(f.canon_wf());
}

impl<B: Block, S: ChainState, A: Auxiliary> Operation<B, S, A> {
    /// Settle the operation against the store in one atomic step. All
    /// pre-validation happens before any mutation: every pending import must
    /// name a parent, carry a fresh and distinct identifier, and connect —
    /// possibly through other imports — to the stored tree; the head target
    /// and every inserted auxiliary's associations must be stored or among
    /// the imports. Only then are the blocks inserted, the children lists
    /// extended, the canonical chain reorganized towards the new head, and
    /// the auxiliary removals and insertions applied. A rejected operation
    /// returns `IsGenesis` exactly when some import has no parent, otherwise
    /// `InvalidOperation`, and leaves the store untouched.
    #[verifier::rlimit(100)]
    #[verifier::loop_isolation(false)]
    pub fn settle(self, backend: &mut MemoryDatabase<B, A, S>) -> (r: Result<(), Error>)
        requires
            old(backend)@.wf(),
            old(backend)@.blocks.dom().len() + self.import_block@.len() <= usize::MAX,
        ensures
            r is Ok <==> (all_have_parents(self.import_block@) && fresh_ids(
                old(backend)@,
                self.import_block@,
            ) && admissible(old(backend)@, self.import_block@) && head_target_ok(
                old(backend)@,
                self.import_block@,
                self.set_head,
            ) && auxiliaries_ok(old(backend)@, self.import_block@, self.insert_auxiliaries@)),
            r matches Err(e) ==> final(backend)@ == old(backend)@ && (e == Error::IsGenesis || e
                == Error::InvalidOperation) && (e == Error::IsGenesis <==> !all_have_parents(
                self.import_block@,
            )),
            r is Ok ==> final(backend)@.wf(),
            r is Ok ==> final(backend)@.genesis == old(backend)@.genesis,
            r is Ok ==> final(backend)@.head == (if self.set_head is Some {
                self.set_head->0
            } else {
                old(backend)@.head
            }),
            r is Ok ==> forall|id: u64| #[trigger]
                final(backend)@.has_block(id) <==> (old(backend)@.has_block(id) || ops_has_id(
                    self.import_block@,
                    id,
                )),
            r is Ok ==> forall|id: u64|
                old(backend)@.has_block(id) ==> {
                    &&& #[trigger] final(backend)@.blocks[id].block == old(backend)@.blocks[id].block
                    &&& final(backend)@.blocks[id].state == old(backend)@.blocks[id].state
                    &&& final(backend)@.blocks[id].depth == old(backend)@.blocks[id].depth
                },
            r is Ok ==> forall|i: int|
                0 <= i < self.import_block@.len() ==> {
                    let id = (#[trigger] self.import_block@[i].block.spec_id());
                    let pq = self.import_block@[i].block.spec_parent_id()->0;
                    &&& final(backend)@.blocks[id].block == self.import_block@[i].block
                    &&& final(backend)@.blocks[id].state@ == self.import_block@[i].state@
                    &&& final(backend)@.has_block(pq)
                    &&& final(backend)@.depth_of(id) == final(backend)@.depth_of(pq) + 1
                },
            r is Ok ==> final(backend)@.auxiliaries == insert_auxes(
                remove_aux_keys(old(backend)@.auxiliaries, self.remove_auxiliaries@),
                self.insert_auxiliaries@,
            ),
    {
        let ghost c0 = backend@;
        let Operation { import_block: pending, set_head, insert_auxiliaries, remove_auxiliaries } =
            self;

        if !check_parents(&pending) {
            return Err(Error::IsGenesis);
        }
        let ids = match collect_fresh_ids(backend, &pending) {
            Some(ids) => ids,
            None => {
                return Err(Error::InvalidOperation);
            },
        };
        let depths = match compute_depths(backend, &pending) {
            Some(depths) => depths,
            None => {
                return Err(Error::InvalidOperation);
            },
        };
        if let Some(h) = set_head {
            let in_store = match backend.contains(&h) {
                Ok(b) => b,
                Err(_) => {
                    proof {
                        assert(false);
                    }
                    false
                },
            };
            let among_imports = contains_id(&ids, h);
            proof {
                lemma_ids_match(ids@, pending@, h);
            }
            if !(in_store || among_imports) {
                return Err(Error::InvalidOperation);
            }
        }
        let mut ai: usize = 0;
        while ai < insert_auxiliaries.len()
            invariant
                ai <= insert_auxiliaries@.len(),
                forall|i: int, k: int|
                    0 <= i < ai && 0 <= k < insert_auxiliaries@[i].spec_associated().len() ==> {
                        let aid = #[trigger] insert_auxiliaries@[i].spec_associated()[k];
                        c0.has_block(aid) || ops_has_id(pending@, aid)
                    },
            decreases insert_auxiliaries@.len() - ai,
        {
            let assoc = insert_auxiliaries[ai].associated();
            let mut ak: usize = 0;
            while ak < assoc.len()
                invariant
                    ak <= assoc@.len(),
                    forall|k: int|
                        0 <= k < ak ==> {
                            let aid = #[trigger] assoc@[k];
                            c0.has_block(aid) || ops_has_id(pending@, aid)
                        },
                decreases assoc@.len() - ak,
            {
                let aid = assoc[ak];
                let in_store = match backend.contains(&aid) {
                    Ok(b) => b,
                    Err(_) => {
                        proof {
                            assert(false);
                        }
                        false
                    },
                };
                let among_imports = contains_id(&ids, aid);
                proof {
                    lemma_ids_match(ids@, pending@, aid);
                }
                if !(in_store || among_imports) {
                    proof {
                        assert(insert_auxiliaries@[ai as int].spec_associated()[ak as int] == aid);
                        assert(!auxiliaries_ok(c0, pending@, insert_auxiliaries@));
                    }
                    return Err(Error::InvalidOperation);
                }
                ak = ak + 1;
            }
            ai = ai + 1;
        }
        proof {
            assert(auxiliaries_ok(c0, pending@, insert_auxiliaries@));
        }

        // Pre-validation is done; mutate the store.
        insert_all(backend, &pending, &depths);
        let ghost c1 = backend@;
        proof {
            assert forall|i: int| 0 <= i < pending@.len() implies {
                let b = (#[trigger] pending@[i].block);
                &&& b.spec_parent_id() is Some
                &&& c1.has_block(b.spec_id())
                &&& c1.has_block(b.spec_parent_id()->0)
            } by {
                assert(ops_has_id(pending@, pending@[i].block.spec_id()));
                assert(c1.has_block(pending@[i].block.spec_id()));
                let pq = pending@[i].block.spec_parent_id()->0;
                if !c0.has_block(pq) {
                    let j = choose|j: int|
                        0 <= j < pending@.len() && (#[trigger] pending@[j].block.spec_id()) == pq
                            && depths@[i as int] == depths@[j] + 1;
                    assert(ops_has_id(pending@, pq));
                }
                assert(c1.has_block(pq));
            }
            assert forall|p: u64, i: int|
                c1.has_block(p) && 0 <= i < pending@.len() implies !(
            #[trigger] c1.blocks[p].children@.contains(pending@[i].block.spec_id())) by {
                let x = pending@[i].block.spec_id();
                if c1.blocks[p].children@.contains(x) {
                    if c0.has_block(p) {
                        assert(c1.blocks[p] == c0.blocks[p]);
                        let wi = choose|w: int|
                            0 <= w < c0.blocks[p].children@.len() && c0.blocks[p].children@[w] == x;
                        assert(c0.has_block(c0.blocks[p].children@[wi]));
                        assert(false);
                    } else {
                        let ip = choose|ii: int|
                            0 <= ii < pending@.len() && (#[trigger] pending@[ii].block.spec_id())
                                == p;
                        assert(c1.blocks[p].children@.len() == 0);
                        assert(false);
                    }
                }
            }
            assert forall|p: u64, i: int, j: int|
                c1.has_block(p) && 0 <= i < j < c1.blocks[p].children@.len() implies
            #[trigger] c1.blocks[p].children@[i] != #[trigger] c1.blocks[p].children@[j] by {
                if c0.has_block(p) {
                    assert(c1.blocks[p] == c0.blocks[p]);
                } else {
                    let ip = choose|ii: int|
                        0 <= ii < pending@.len() && (#[trigger] pending@[ii].block.spec_id()) == p;
                    assert(c1.blocks[p].children@.len() == 0);
                }
            }
        }
        connect_children(backend, &pending);
        let ghost c2 = backend@;
        proof {
            lemma_extended_wf(c0, c1, c2, pending@, depths@);
            assert forall|k: u64| #[trigger] c2.auxiliaries.contains_key(k) implies {
                &&& c2.auxiliaries[k].spec_key() == k
                &&& forall|i: int|
                    0 <= i < c2.auxiliaries[k].spec_associated().len() ==> c2.has_block(
                        #[trigger] c2.auxiliaries[k].spec_associated()[i],
                    )
            } by {
                assert(c0.auxiliaries.contains_key(k));
                assert(c0.auxiliaries[k].spec_key() == k);
                assert forall|i: int|
                    0 <= i < c2.auxiliaries[k].spec_associated().len() implies c2.has_block(
                    #[trigger] c2.auxiliaries[k].spec_associated()[i],
                ) by {
                    assert(c0.has_block(c0.auxiliaries[k].spec_associated()[i]));
                }
            }
            assert(c2.aux_wf());
        }
        if let Some(h) = set_head {
            proof {
                lemma_ids_match(ids@, pending@, h);
                assert(backend@.has_block(h));
            }
            reorg(backend, h);
            proof {
                lemma_preserved_children_wf(c2, backend@);
            }
        }
        let ghost c3 = backend@;
        proof {
            assert(c3.tree_wf() && c3.children_wf() && c3.canon_wf());
            assert(c3.auxiliaries == c0.auxiliaries);
            assert(c3.blocks.dom() == c2.blocks.dom());
            assert forall|id: u64| c0.has_block(id) implies {
                &&& #[trigger] c3.blocks[id].block == c0.blocks[id].block
                &&& c3.blocks[id].state == c0.blocks[id].state
                &&& c3.blocks[id].depth == c0.blocks[id].depth
            } by {
                assert(same_but_children(c2.blocks[id], c0.blocks[id]));
                if set_head is Some {
                    assert(c2.has_block(id));
                    assert(same_but_canon(c3.blocks[id], c2.blocks[id]));
                }
            }
            assert forall|i: int| 0 <= i < pending@.len() implies {
                let id = (#[trigger] pending@[i].block.spec_id());
                &&& c3.blocks[id].block == pending@[i].block
                &&& c3.blocks[id].state@ == pending@[i].state@
                &&& c3.blocks[id].depth == depths@[i]
            } by {
                let id = pending@[i].block.spec_id();
                assert(ops_has_id(pending@, id));
                assert(c2.has_block(id));
                if set_head is Some {
                    assert(same_but_canon(c3.blocks[id], c2.blocks[id]));
                }
            }
        }
        let mut rk: usize = 0;
        while rk < remove_auxiliaries.len()
            invariant
                rk <= remove_auxiliaries@.len(),
                backend@.auxiliaries == remove_aux_keys(
                    c3.auxiliaries,
                    remove_auxiliaries@.take(rk as int),
                ),
                backend@.blocks == c3.blocks,
                backend@.head == c3.head,
                backend@.genesis == c3.genesis,
                backend@.canon_depth == c3.canon_depth,
            decreases remove_auxiliaries@.len() - rk,
        {
            backend.remove_auxiliary(&remove_auxiliaries[rk]);
            rk = rk + 1;
            proof {
                assert(remove_auxiliaries@.take(rk as int).drop_last() =~= remove_auxiliaries@.take(
                    rk - 1,
                ));
                assert(remove_auxiliaries@.take(rk as int).last() == remove_auxiliaries@[rk - 1]);
            }
        }
        proof {
            assert(remove_auxiliaries@.take(remove_auxiliaries@.len() as int)
                =~= remove_auxiliaries@);
        }
        let ghost removed = remove_aux_keys(c3.auxiliaries, remove_auxiliaries@);
        let mut ik: usize = 0;
        while ik < insert_auxiliaries.len()
            invariant
                ik <= insert_auxiliaries@.len(),
                backend@.auxiliaries == insert_auxes(removed, insert_auxiliaries@.take(ik as int)),
                backend@.blocks == c3.blocks,
                backend@.head == c3.head,
                backend@.genesis == c3.genesis,
                backend@.canon_depth == c3.canon_depth,
            decreases insert_auxiliaries@.len() - ik,
        {
            let aux = insert_auxiliaries[ik].duplicate();
            let key = aux.key();
            backend.insert_auxiliary(key, aux);
            ik = ik + 1;
            proof {
                assert(insert_auxiliaries@.take(ik as int).drop_last() =~= insert_auxiliaries@.take(
                    ik - 1,
                ));
                assert(insert_auxiliaries@.take(ik as int).last() == insert_auxiliaries@[ik - 1]);
            }
        }
        proof {
            assert(insert_auxiliaries@.take(insert_auxiliaries@.len() as int)
                =~= insert_auxiliaries@);
            let cf = backend@;
            assert(cf.blocks == c3.blocks && cf.head == c3.head && cf.genesis == c3.genesis
                && cf.canon_depth == c3.canon_depth);
            assert(cf.auxiliaries == insert_auxes(
                remove_aux_keys(c0.auxiliaries, remove_auxiliaries@),
                insert_auxiliaries@,
            ));
            // The auxiliary invariant after the edits.
            lemma_remove_aux_entries(c0.auxiliaries, remove_auxiliaries@);
            lemma_insert_aux_entries(removed, insert_auxiliaries@);
            assert forall|k: u64| #[trigger] cf.auxiliaries.contains_key(k) implies {
                &&& cf.auxiliaries[k].spec_key() == k
                &&& forall|i: int|
                    0 <= i < cf.auxiliaries[k].spec_associated().len() ==> cf.has_block(
                        #[trigger] cf.auxiliaries[k].spec_associated()[i],
                    )
            } by {
                if removed.contains_key(k) && cf.auxiliaries[k] == removed[k] {
                    assert(c0.auxiliaries.contains_key(k) && removed[k] == c0.auxiliaries[k]);
                    assert(c0.auxiliaries[k].spec_key() == k);
                    assert forall|i: int|
                        0 <= i < cf.auxiliaries[k].spec_associated().len() implies cf.has_block(
                        #[trigger] cf.auxiliaries[k].spec_associated()[i],
                    ) by {
                        assert(c0.has_block(c0.auxiliaries[k].spec_associated()[i]));
                        assert(c2.has_block(c0.auxiliaries[k].spec_associated()[i]));
                    }
                } else {
                    let i0 = choose|i: int|
                        0 <= i < insert_auxiliaries@.len() && (
                        #[trigger] insert_auxiliaries@[i]).spec_key() == k && insert_auxes(
                            removed,
                            insert_auxiliaries@,
                        )[k] == insert_auxiliaries@[i];
                    assert(cf.auxiliaries[k] == insert_auxiliaries@[i0]);
                    assert forall|i: int|
                        0 <= i < cf.auxiliaries[k].spec_associated().len() implies cf.has_block(
                        #[trigger] cf.auxiliaries[k].spec_associated()[i],
                    ) by {
                        let aid = insert_auxiliaries@[i0].spec_associated()[i];
                        assert(c0.has_block(aid) || ops_has_id(pending@, aid));
                        assert(c2.has_block(aid));
                    }
                }
            }
            assert(cf.aux_wf());
            // The remaining invariants carry over: only the auxiliary table
            // changed since the canonical state after the reorganization.
            assert forall|id: u64| c3.has_block(id) implies same_but_canon(
                #[trigger] cf.blocks[id],
                c3.blocks[id],
            ) by {
                assert(cf.blocks[id] == c3.blocks[id]);
            }
            lemma_preserved_tree_wf(c3, cf);
            lemma_preserved_children_wf(c3, cf);
            lemma_same_canon_wf(c3, cf);
            assert(cf.wf());
            assert forall|id: u64| #[trigger] cf.has_block(id) <==> (c0.has_block(id) || ops_has_id(
                pending@,
                id,
            )) by {
                assert(cf.has_block(id) == c2.has_block(id));
            }
            // The contract of every import.
            assert forall|i: int| 0 <= i < pending@.len() implies {
                let id = (#[trigger] pending@[i].block.spec_id());
                let pq = pending@[i].block.spec_parent_id()->0;
                &&& cf.blocks[id].block == pending@[i].block
                &&& cf.blocks[id].state@ == pending@[i].state@
                &&& cf.has_block(pq)
                &&& cf.depth_of(id) == cf.depth_of(pq) + 1
            } by {
                let id = pending@[i].block.spec_id();
                let pq = pending@[i].block.spec_parent_id()->0;
                assert(cf.blocks[id].depth == depths@[i]);
                if c0.has_block(pq) {
                    assert(cf.blocks[pq].depth == c0.blocks[pq].depth);
                    assert(depths@[i] == c0.depth_of(pq) + 1);
                } else {
                    let j = choose|j: int|
                        0 <= j < pending@.len() && (#[trigger] pending@[j].block.spec_id()) == pq
                            && depths@[i as int] == depths@[j] + 1;
                    assert(ops_has_id(pending@, pq));
                    assert(cf.blocks[pq].depth == depths@[j]);
                }
                assert(cf.has_block(pq));
            }
        }
        Ok(())
    }
}

} // verus!

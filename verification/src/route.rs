//! Tree routes: the retracted/common/enacted decomposition of the path
//! between two blocks of the tree, used to reorganize the canonical chain.

use vstd::prelude::*;
use crate::traits::{Block, Auxiliary, ChainState};
use crate::snapshot::ChainSnapshot;
use crate::memory::{MemoryDatabase, Error};

verus! {

/// What it means for `route` with the given `pivot` to be a tree route from
/// `from` to `to` in the chain `c`: the part before the pivot walks up from
/// `from`, the part after the pivot walks down to `to`, and the pivot is the
/// common ancestor of the two.
pub open spec fn is_tree_route<B: Block, S, A: Auxiliary>(
    c: ChainSnapshot<B, S, A>,
    from: u64,
    to: u64,
    route: Seq<u64>,
    pivot: int,
) -> bool {
    &&& 0 <= pivot < route.len()
    &&& route[0] == from
    &&& route[route.len() - 1] == to
    &&& forall|i: int| 0 <= i < route.len() ==> c.has_block(#[trigger] route[i])
    &&& forall|i: int|
        0 <= i < pivot ==> c.parent_of(#[trigger] route[i]) == Some(route[i + 1])
    &&& forall|i: int|
        pivot < i < route.len() ==> c.parent_of(#[trigger] route[i]) == Some(route[i - 1])
    &&& forall|i: int|
        0 <= i <= pivot ==> c.depth_of(#[trigger] route[i]) as int == c.depth_of(route[pivot])
            + pivot - i
    &&& forall|i: int|
        pivot <= i < route.len() ==> c.depth_of(#[trigger] route[i]) as int == c.depth_of(
            route[pivot],
        ) + i - pivot
}

/// A tree route from one block to another in the chain.
///
/// All blocks before the pivot are the reverse-order ancestry of the first
/// block, the block at the pivot index is the common ancestor, and all
/// blocks after the pivot are the ancestry of the second block, in order.
/// The ancestry sides include the given blocks themselves, so the route is
/// never empty.
pub struct TreeRoute {
    route: Vec<u64>,
    pivot: usize,
}

impl TreeRoute {
    /// The full route, at the specification level.
    pub closed spec fn spec_route(&self) -> Seq<u64> {
        self.route@
    }

    /// The pivot index, at the specification level.
    pub closed spec fn spec_pivot(&self) -> int {
        self.pivot as int
    }

    #[verifier::type_invariant]
    closed spec fn route_wf(&self) -> bool {
        self.pivot < self.route@.len()
    }

    /// The retracted blocks, at the specification level.
    pub open spec fn spec_retracted(&self) -> Seq<u64> {
        self.spec_route().take(self.spec_pivot())
    }

    /// The common ancestor, at the specification level.
    pub open spec fn spec_common(&self) -> u64 {
        self.spec_route()[self.spec_pivot()]
    }

    /// The enacted blocks, at the specification level.
    pub open spec fn spec_enacted(&self) -> Seq<u64> {
        self.spec_route().skip(self.spec_pivot() + 1)
    }

    /// All retracted blocks in reverse order, towards the common ancestor.
    pub fn retracted(&self) -> (r: Vec<u64>)
        ensures
            r@ == self.spec_retracted(),
    {
        proof {
            use_type_invariant(self);
        }
        let mut out: Vec<u64> = Vec::new();
        let mut i: usize = 0;
        while i < self.pivot
            invariant
                self.pivot < self.route@.len(),
                i <= self.pivot,
                out@ == self.route@.take(self.pivot as int).take(i as int),
            decreases self.pivot - i,
        {
            out.push(self.route[i]);
            i = i + 1;
            proof {
                assert(out@ =~= self.route@.take(self.pivot as int).take(i as int));
            }
        }
        proof {
            assert(self.route@.take(self.pivot as int).take(self.pivot as int) =~= self.route@.take(
                self.pivot as int,
            ));
        }
        out
    }

    /// The common ancestor block of the route. This may be one of the two
    /// endpoints of the route.
    pub fn common_block(&self) -> (r: u64)
        ensures
            r == self.spec_common(),
    {
        proof {
            use_type_invariant(self);
        }
        self.route[self.pivot]
    }

    /// The enacted blocks — descendants of the common ancestor — in order.
    pub fn enacted(&self) -> (r: Vec<u64>)
        ensures
            r@ == self.spec_enacted(),
    {
        proof {
            use_type_invariant(self);
        }
        let mut out: Vec<u64> = Vec::new();
        let n = self.route.len();
        proof {
            assert(self.pivot < n);
        }
        let mut i: usize = self.pivot + 1;
        while i < self.route.len()
            invariant
                self.pivot < self.route@.len(),
                self.pivot + 1 <= i <= self.route@.len(),
                out@ == self.route@.skip(self.pivot + 1).take(i - self.pivot - 1),
            decreases self.route@.len() - i,
        {
            out.push(self.route[i]);
            i = i + 1;
            proof {
                assert(out@ =~= self.route@.skip(self.pivot + 1).take(i - self.pivot - 1));
            }
        }
        proof {
            assert(self.route@.skip(self.pivot + 1).take(
                self.route@.len() - self.pivot - 1,
            ) =~= self.route@.skip(self.pivot + 1));
        }
        out
    }
}

/// The depth of a block known to exist.
fn depth_of_existing<B: Block, A: Auxiliary, S: ChainState>(
    backend: &MemoryDatabase<B, A, S>,
    id: &u64,
) -> (r: usize)
    requires
        backend@.has_block(*id),
    ensures
        r == backend@.depth_of(*id),
{
    match backend.depth_at(id) {
        Ok(d) => d,
        Err(_) => {
            proof {
                assert(false);
            }
            0
        },
    }
}

/// The parent identifier of a block known to exist.
fn parent_of_existing<B: Block, A: Auxiliary, S: ChainState>(
    backend: &MemoryDatabase<B, A, S>,
    id: &u64,
) -> (r: Option<u64>)
    requires
        backend@.has_block(*id),
    ensures
        r == backend@.parent_of(*id),
{
    match backend.block_at(id) {
        Ok(b) => b.parent_id(),
        Err(_) => {
            proof {
                assert(false);
            }
            None
        },
    }
}

/// Compute a tree route between two stored blocks: walk the deeper side up
/// until the depths match, then walk both sides up in lockstep until they
/// meet at the common ancestor.
#[verifier::rlimit(60)]
pub fn tree_route<B: Block, A: Auxiliary, S: ChainState>(
    backend: &MemoryDatabase<B, A, S>,
    from_id: &u64,
    to_id: &u64,
) -> (r: Result<TreeRoute, Error>)
    requires
        backend@.tree_wf(),
        backend@.has_block(*from_id),
        backend@.has_block(*to_id),
    ensures
        r matches Ok(route) && is_tree_route(
            backend@,
            *from_id,
            *to_id,
            route.spec_route(),
            route.spec_pivot(),
        ) && (forall|i: int, j: int|
            0 <= i < j < route.spec_route().len() ==> route.spec_route()[i]
                != route.spec_route()[j]),
{
    let ghost c = backend@;
    let mut from: u64 = *from_id;
    let mut to: u64 = *to_id;
    let mut from_depth: usize = depth_of_existing(backend, from_id);
    let mut to_depth: usize = depth_of_existing(backend, to_id);
    let mut from_branch: Vec<u64> = Vec::new();
    let mut to_branch: Vec<u64> = Vec::new();

    while to_depth > from_depth
        invariant
            c == backend@,
            c.tree_wf(),
            c.has_block(from),
            c.has_block(to),
            from == *from_id,
            from_depth == c.depth_of(from),
            to_depth == c.depth_of(to),
            from_branch@.len() == 0,
            to_branch@.len() > 0 ==> to_depth >= from_depth,
            to_branch@.len() == c.depth_of(*to_id) - to_depth,
            to_branch@.len() > 0 ==> to_branch@[0] == *to_id,
            to_branch@.len() == 0 ==> to == *to_id,
            forall|k: int| 0 <= k < to_branch@.len() ==> c.has_block(#[trigger] to_branch@[k]),
            forall|k: int|
                0 <= k < to_branch@.len() - 1 ==> c.parent_of(#[trigger] to_branch@[k]) == Some(
                    to_branch@[k + 1],
                ),
            to_branch@.len() > 0 ==> c.parent_of(to_branch@.last()) == Some(to),
            forall|k: int|
                0 <= k < to_branch@.len() ==> c.depth_of(#[trigger] to_branch@[k]) as int
                    == c.depth_of(*to_id) - k,
        decreases to_depth,
    {
        match parent_of_existing(backend, &to) {
            Some(parent_id) => {
                to_branch.push(to);
                to = parent_id;
                to_depth = depth_of_existing(backend, &to);
            },
            None => {
                proof {
                    assert(to == c.genesis);
                    assert(false);
                }
            },
        }
    }

    while from_depth > to_depth
        invariant
            c == backend@,
            c.tree_wf(),
            c.has_block(from),
            c.has_block(to),
            from_depth == c.depth_of(from),
            to_depth == c.depth_of(to),
            to_depth <= from_depth,
            to_branch@.len() > 0 ==> to_depth >= from_depth,
            to_branch@.len() > 0 ==> from_branch@.len() == 0,
            to_branch@.len() == c.depth_of(*to_id) - to_depth,
            to_branch@.len() > 0 ==> to_branch@[0] == *to_id,
            to_branch@.len() == 0 ==> to == *to_id,
            forall|k: int| 0 <= k < to_branch@.len() ==> c.has_block(#[trigger] to_branch@[k]),
            forall|k: int|
                0 <= k < to_branch@.len() - 1 ==> c.parent_of(#[trigger] to_branch@[k]) == Some(
                    to_branch@[k + 1],
                ),
            to_branch@.len() > 0 ==> c.parent_of(to_branch@.last()) == Some(to),
            forall|k: int|
                0 <= k < to_branch@.len() ==> c.depth_of(#[trigger] to_branch@[k]) as int
                    == c.depth_of(*to_id) - k,
            from_branch@.len() == c.depth_of(*from_id) - from_depth,
            from_branch@.len() > 0 ==> from_branch@[0] == *from_id,
            from_branch@.len() == 0 ==> from == *from_id,
            forall|k: int| 0 <= k < from_branch@.len() ==> c.has_block(#[trigger] from_branch@[k]),
            forall|k: int|
                0 <= k < from_branch@.len() - 1 ==> c.parent_of(#[trigger] from_branch@[k]) == Some(
                    from_branch@[k + 1],
                ),
            from_branch@.len() > 0 ==> c.parent_of(from_branch@.last()) == Some(from),
            forall|k: int|
                0 <= k < from_branch@.len() ==> c.depth_of(#[trigger] from_branch@[k]) as int
                    == c.depth_of(*from_id) - k,
        decreases from_depth,
    {
        match parent_of_existing(backend, &from) {
            Some(parent_id) => {
                from_branch.push(from);
                from = parent_id;
                from_depth = depth_of_existing(backend, &from);
            },
            None => {
                proof {
                    assert(from == c.genesis);
                    assert(false);
                }
            },
        }
    }

    while from != to
        invariant
            c == backend@,
            c.tree_wf(),
            c.has_block(from),
            c.has_block(to),
            from_depth == c.depth_of(from),
            to_depth == c.depth_of(to),
            from_depth == to_depth,
            to_branch@.len() == c.depth_of(*to_id) - to_depth,
            to_branch@.len() > 0 ==> to_branch@[0] == *to_id,
            to_branch@.len() == 0 ==> to == *to_id,
            forall|k: int| 0 <= k < to_branch@.len() ==> c.has_block(#[trigger] to_branch@[k]),
            forall|k: int|
                0 <= k < to_branch@.len() - 1 ==> c.parent_of(#[trigger] to_branch@[k]) == Some(
                    to_branch@[k + 1],
                ),
            to_branch@.len() > 0 ==> c.parent_of(to_branch@.last()) == Some(to),
            forall|k: int|
                0 <= k < to_branch@.len() ==> c.depth_of(#[trigger] to_branch@[k]) as int
                    == c.depth_of(*to_id) - k,
            from_branch@.len() == c.depth_of(*from_id) - from_depth,
            from_branch@.len() > 0 ==> from_branch@[0] == *from_id,
            from_branch@.len() == 0 ==> from == *from_id,
            forall|k: int| 0 <= k < from_branch@.len() ==> c.has_block(#[trigger] from_branch@[k]),
            forall|k: int|
                0 <= k < from_branch@.len() - 1 ==> c.parent_of(#[trigger] from_branch@[k]) == Some(
                    from_branch@[k + 1],
                ),
            from_branch@.len() > 0 ==> c.parent_of(from_branch@.last()) == Some(from),
            forall|k: int|
                0 <= k < from_branch@.len() ==> c.depth_of(#[trigger] from_branch@[k]) as int
                    == c.depth_of(*from_id) - k,
            forall|k: int, k2: int|
                0 <= k < from_branch@.len() && 0 <= k2 < to_branch@.len() && c.depth_of(
                    #[trigger] from_branch@[k],
                ) == c.depth_of(#[trigger] to_branch@[k2]) ==> from_branch@[k] != to_branch@[k2],
        decreases from_depth,
    {
        proof {
            if from_depth == 0 {
                if from != c.genesis {
                    assert(c.parent_of(from) is Some);
                    assert(false);
                }
                if to != c.genesis {
                    assert(c.parent_of(to) is Some);
                    assert(false);
                }
                assert(false);
            }
        }
        let from_parent = parent_of_existing(backend, &from);
        let to_parent = parent_of_existing(backend, &to);
        match (from_parent, to_parent) {
            (Some(fp), Some(tp)) => {
                from_branch.push(from);
                from = fp;
                from_depth = depth_of_existing(backend, &from);
                to_branch.push(to);
                to = tp;
                to_depth = depth_of_existing(backend, &to);
                proof {
                    assert forall|k: int, k2: int|
                        0 <= k < from_branch@.len() && 0 <= k2 < to_branch@.len() && c.depth_of(
                            #[trigger] from_branch@[k],
                        ) == c.depth_of(#[trigger] to_branch@[k2]) implies from_branch@[k]
                        != to_branch@[k2] by {
                        assert(c.depth_of(from_branch@[k]) as int == c.depth_of(*from_id) - k);
                        assert(c.depth_of(to_branch@[k2]) as int == c.depth_of(*to_id) - k2);
                    }
                }
            },
            _ => {
                proof {
                    assert(false);
                }
            },
        }
    }

    // `from` now equals `to`: the common ancestor. Assemble the route as the
    // from-side walk, the common ancestor, and the reversed to-side walk.
    let ghost fb0 = from_branch@;
    let ghost tb0 = to_branch@;
    let ghost common = from;
    let pivot = from_branch.len();
    let mut route = from_branch;
    route.push(from);

    let mut j: usize = to_branch.len();
    while j > 0
        invariant
            j <= tb0.len(),
            pivot == fb0.len(),
            to_branch@ == tb0,
            route@.len() == pivot + 1 + (tb0.len() - j),
            forall|i: int| 0 <= i < pivot ==> #[trigger] route@[i] == fb0[i],
            route@[pivot as int] == common,
            forall|i: int|
                pivot + 1 <= i < route@.len() ==> #[trigger] route@[i] == tb0[tb0.len() - 1 - (i
                    - pivot - 1)],
        decreases j,
    {
        j = j - 1;
        route.push(to_branch[j]);
        proof {
            assert(route@[route@.len() - 1] == tb0[j as int]);
        }
    }

    let result = TreeRoute { route, pivot };
    proof {
        let r = result.spec_route();
        let p = result.spec_pivot();
        let cd = c.depth_of(common) as int;
        assert(r.len() == p + 1 + tb0.len());
        assert(r[p] == common);
        // Endpoints.
        if p > 0 {
            assert(r[0] == fb0[0] == *from_id);
        } else {
            assert(r[0] == common);
        }
        if tb0.len() > 0 {
            assert(r[p + 1 + (tb0.len() - 1)] == tb0[0]);
            assert(r[r.len() - 1] == *to_id);
        } else {
            assert(r[r.len() - 1] == common);
        }
        // Membership, links, and depths on the from side.
        assert forall|i: int| 0 <= i < p implies c.has_block(#[trigger] r[i]) by {
            assert(r[i] == fb0[i]);
        }
        assert forall|i: int| 0 <= i < p implies c.parent_of(#[trigger] r[i]) == Some(r[i + 1]) by {
            assert(r[i] == fb0[i]);
            if i + 1 < p {
                assert(r[i + 1] == fb0[i + 1]);
            } else {
                assert(r[i + 1] == common);
                assert(fb0[i] == fb0.last());
            }
        }
        assert forall|i: int| 0 <= i <= p implies c.depth_of(#[trigger] r[i]) as int == cd + p
            - i by {
            if i < p {
                assert(r[i] == fb0[i]);
                assert(c.depth_of(fb0[i]) as int == c.depth_of(*from_id) - i);
                assert(c.depth_of(*from_id) as int == cd + p);
            }
        }
        // Membership, links, and depths on the to side.
        assert forall|i: int| p < i < r.len() implies c.has_block(#[trigger] r[i]) by {
            assert(r[i] == tb0[tb0.len() - 1 - (i - p - 1)]);
        }
        assert forall|i: int| p < i < r.len() implies c.parent_of(#[trigger] r[i]) == Some(
            r[i - 1],
        ) by {
            let j = i - p - 1;
            assert(r[i] == tb0[tb0.len() - 1 - j]);
            if j == 0 {
                assert(tb0[tb0.len() - 1] == tb0.last());
                assert(r[i - 1] == common);
            } else {
                assert(r[i - 1] == tb0[tb0.len() - 1 - (j - 1)]);
                assert(c.parent_of(tb0[tb0.len() - 1 - j]) == Some(tb0[tb0.len() - j]));
            }
        }
        assert forall|i: int| p <= i < r.len() implies c.depth_of(#[trigger] r[i]) as int == cd + i
            - p by {
            if i > p {
                let j = i - p - 1;
                assert(r[i] == tb0[tb0.len() - 1 - j]);
                assert(c.depth_of(tb0[tb0.len() - 1 - j]) as int == c.depth_of(*to_id) - (tb0.len()
                    - 1 - j));
                assert(c.depth_of(*to_id) as int == cd + tb0.len());
            }
        }
        assert(is_tree_route(c, *from_id, *to_id, r, p));
        assert forall|i: int, j: int| 0 <= i < j < r.len() implies r[i] != r[j] by {
            assert(c.depth_of(r[i]) as int == if i <= p {
                cd + p - i
            } else {
                cd + i - p
            });
            assert(c.depth_of(r[j]) as int == if j <= p {
                cd + p - j
            } else {
                cd + j - p
            });
            if i < p && j > p && c.depth_of(r[i]) == c.depth_of(r[j]) {
                assert(r[i] == fb0[i]);
                assert(r[j] == tb0[tb0.len() - 1 - (j - p - 1)]);
            }
        }
    }
    Ok(result)
}

} // verus!

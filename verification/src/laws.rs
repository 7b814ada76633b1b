//! Laws of the library: statements that relate several functions, proved
//! once and for all over the same specifications the functions' contracts
//! use.

use vstd::prelude::*;
use crate::traits::{Block, Auxiliary};
use crate::snapshot::ChainSnapshot;
use crate::route::{is_tree_route, TreeRoute};
use crate::operation::{remove_aux_keys, insert_auxes};

verus! {

/// A tree route between a block and itself is trivial: the route holds the
/// block alone, so nothing is retracted and nothing is enacted, and the
/// block is its own common ancestor.
pub proof fn lemma_tree_route_self<B: Block, S, A: Auxiliary>(
    c: ChainSnapshot<B, S, A>,
    a: u64,
    route: Seq<u64>,
    pivot: int,
)
    requires
        is_tree_route(c, a, a, route, pivot),
        forall|i: int, j: int| 0 <= i < j < route.len() ==> route[i] != route[j],
    ensures
        pivot == 0,
        route.len() == 1,
        route[0] == a,
{
    if route.len() > 1 {
        assert(route[0] == a);
        assert(route[route.len() - 1] == a);
        assert(false);
    }
}

/// The retracted blocks, the common ancestor and the enacted blocks of a
/// tree route, concatenated, are exactly the route: a parent-linked path
/// from one endpoint up to the common ancestor and down to the other.
pub proof fn lemma_tree_route_decomposition(tr: &TreeRoute)
    requires
        0 <= tr.spec_pivot() < tr.spec_route().len(),
    ensures
        tr.spec_retracted() + seq![tr.spec_common()] + tr.spec_enacted() =~= tr.spec_route(),
        tr.spec_retracted().len() == tr.spec_pivot(),
{
}

/// Inserting an auxiliary record and then removing its key leaves the
/// auxiliary table as removing the key alone would; on a key the table does
/// not hold, the two operations together are a no-op.
pub proof fn lemma_insert_then_remove_auxiliary<A: Auxiliary>(m: Map<u64, A>, aux: A)
    ensures
        remove_aux_keys(insert_auxes(m, seq![aux]), seq![aux.spec_key()]) =~= m.remove(
            aux.spec_key(),
        ),
        !m.contains_key(aux.spec_key()) ==> remove_aux_keys(
            insert_auxes(m, seq![aux]),
            seq![aux.spec_key()],
        ) =~= m,
{
    let inserted = insert_auxes(m, seq![aux]);
    assert(seq![aux].drop_last() =~= Seq::<A>::empty());
    assert(inserted == insert_auxes(m, Seq::<A>::empty()).insert(aux.spec_key(), aux));
    let removed = remove_aux_keys(inserted, seq![aux.spec_key()]);
    assert(seq![aux.spec_key()].drop_last() =~= Seq::<u64>::empty());
    assert(removed == remove_aux_keys(inserted, Seq::<u64>::empty()).remove(aux.spec_key()));
}

} // verus!

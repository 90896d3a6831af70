//! Laws of the mutation history.
//!
//! `add_node` and `remove_node` ensure that the set of live identities is
//! exactly the previous set with the returned identity inserted, or the
//! given identity removed (`node_models().dom()` in their contracts).
//! `ids_after` folds those two transitions over a whole history, and the
//! lemmas here state what any such history can produce.

use vstd::prelude::*;

use crate::graph::EdgeModel;
use crate::graph::keep_edges;
use crate::graph::edge_matches;
use crate::graph::has_edge;
use crate::graph::lemma_keep_edges_clean;
use crate::graph::lemma_keep_edges_identity;
use crate::graph::lemma_find_edge_props;
use crate::graph::spec_find_edge_from;
use crate::graph::spec_remove_edge;

verus! {

/// One recorded mutation of the node set.
pub enum GraphOp {
    AddNode(int),
    RemoveNode(int),
}

/// The set of live identities after a history of insertions and
/// removals, starting from `s0`.
pub open spec fn ids_after(s0: Set<int>, ops: Seq<GraphOp>) -> Set<int>
    decreases ops.len(),
{
    if ops.len() == 0 {
        s0
    } else {
        let rest = ids_after(s0, ops.drop_last());
        match ops.last() {
            GraphOp::AddNode(i) => rest.insert(i),
            GraphOp::RemoveNode(i) => rest.remove(i),
        }
    }
}

/// An identity that was never inserted is never reported live: after any
/// history that does not add `id`, starting from a state without `id`,
/// the live set does not contain `id`.
pub proof fn lemma_id_never_added(s0: Set<int>, ops: Seq<GraphOp>, id: int)
    requires
        !s0.contains(id),
        forall|k: int| 0 <= k < ops.len() ==> #[trigger] ops[k] != GraphOp::AddNode(id),
    ensures
        !ids_after(s0, ops).contains(id),
    decreases ops.len(),
{
    if ops.len() > 0 {
        lemma_id_never_added(s0, ops.drop_last(), id);
    }
}

/// An identity that was removed and not inserted again is not reported
/// live: if `ops[k]` removes `id` and no later operation adds it, the
/// live set after the whole history does not contain `id`.
pub proof fn lemma_id_removed(s0: Set<int>, ops: Seq<GraphOp>, id: int, k: int)
    requires
        0 <= k < ops.len(),
        ops[k] == GraphOp::RemoveNode(id),
        forall|k2: int| k < k2 < ops.len() ==> #[trigger] ops[k2] != GraphOp::AddNode(id),
    ensures
        !ids_after(s0, ops).contains(id),
    decreases ops.len(),
{
    if k == ops.len() - 1 {
        assert(ops.last() == GraphOp::RemoveNode(id));
    } else {
        lemma_id_removed(s0, ops.drop_last(), id, k);
    }
}

/// Removing a node twice is the same as removing it once: the node map
/// and the edge list transitions of `remove_node` are idempotent.
pub proof fn lemma_remove_node_idempotent<N, E>(
    nodes: Map<int, crate::node::NodeModel<N>>,
    edges: Seq<EdgeModel<E>>,
    id: int,
)
    ensures
        nodes.remove(id).remove(id) =~= nodes.remove(id),
        keep_edges(keep_edges(edges, id), id) =~= keep_edges(edges, id),
{
    lemma_keep_edges_clean(edges, id);
    lemma_keep_edges_identity(keep_edges(edges, id), id);
}

/// Removing an edge twice is the same as removing it once: when no two
/// edges connect the same unordered pair, the second removal finds
/// nothing and the edge list transition of `remove_edge` is idempotent.
pub proof fn lemma_remove_edge_idempotent<E>(edges: Seq<EdgeModel<E>>, a: int, b: int)
    requires
        forall|k1: int, k2: int| #![trigger edges[k1], edges[k2]]
            0 <= k1 < k2 < edges.len() ==> !edge_matches(edges[k1], edges[k2].a, edges[k2].b),
    ensures
        !has_edge(spec_remove_edge(edges, a, b), a, b),
        spec_remove_edge(spec_remove_edge(edges, a, b), a, b) =~= spec_remove_edge(edges, a, b),
{
    lemma_find_edge_props(edges, a, b, 0);
    let k = spec_find_edge_from(edges, a, b, 0);
    let once = spec_remove_edge(edges, a, b);
    if k == -1 {
        assert(once =~= edges);
        lemma_find_edge_props(once, a, b, 0);
        assert(spec_find_edge_from(once, a, b, 0) == -1) by {
            if spec_find_edge_from(once, a, b, 0) != -1 {
                let r = spec_find_edge_from(once, a, b, 0);
                assert(edge_matches(edges[r], a, b));
            }
        }
    } else {
        edges.remove_ensures(k);
        assert forall|m: int| 0 <= m < once.len() implies !edge_matches(
            #[trigger] once[m],
            a,
            b,
        ) by {
            if m < k {
                assert(once[m] == edges[m]);
            } else {
                assert(once[m] == edges[m + 1]);
            }
        }
        lemma_find_edge_props(once, a, b, 0);
        assert(spec_find_edge_from(once, a, b, 0) == -1) by {
            if spec_find_edge_from(once, a, b, 0) != -1 {
                let r = spec_find_edge_from(once, a, b, 0);
                assert(edge_matches(once[r], a, b));
            }
        }
    }
}

} // verus!

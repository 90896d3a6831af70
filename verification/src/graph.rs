//! The graph store: nodes in a slot arena indexed by stable single-byte
//! identities, and edges as an ordered list of unordered pairs.
//!
//! Identities are `u8` slot indices. A removed slot is reused by the next
//! insertion (the smallest free index is taken), so iteration order is
//! always ascending identity, deterministic and reproducible. Edges keep
//! insertion order; at most one edge exists between any unordered pair.

use vstd::prelude::*;

use crate::node::Node;
use crate::node::NodeData;
use crate::node::EdgeData;
use crate::node::NodeModel;
use crate::node::model_wf;
use crate::params::SimulationParameters;

verus! {

/// A stable node identity: a slot index in the arena.
pub type DefaultNodeIdx = u8;

/// Returned by `add_node` when all 256 identities are live.
#[derive(Clone, Copy, Debug, PartialEq, Eq, Structural)]
pub struct CapacityError;

/// One stored edge: the two endpoint identities, in insertion orientation,
/// and the user payload.
pub(crate) struct EdgeRec<E> {
    pub(crate) a: u8,
    pub(crate) b: u8,
    pub(crate) data: EdgeData<E>,
}

/// The mathematical value of one edge.
pub struct EdgeModel<E> {
    pub a: int,
    pub b: int,
    pub user: E,
}

/// The mathematical value of the whole graph: live nodes keyed by
/// identity, and the edge list in insertion order.
pub struct GraphModel<N, E> {
    pub nodes: Map<int, NodeModel<N>>,
    pub edges: Seq<EdgeModel<E>>,
}

/// Whether `e` connects `a` and `b`, in either orientation.
pub open spec fn edge_matches<E>(e: EdgeModel<E>, a: int, b: int) -> bool {
    (e.a == a && e.b == b) || (e.a == b && e.b == a)
}

/// Whether the edge list holds an edge between `a` and `b`.
pub open spec fn has_edge<E>(s: Seq<EdgeModel<E>>, a: int, b: int) -> bool {
    exists|k: int| 0 <= k < s.len() && edge_matches(#[trigger] s[k], a, b)
}

/// The index of the first edge between `a` and `b` at or after `k`,
/// or `-1` if there is none.
pub open spec fn spec_find_edge_from<E>(s: Seq<EdgeModel<E>>, a: int, b: int, k: int) -> int
    decreases s.len() - k,
{
    if !(0 <= k < s.len()) {
        -1
    } else if edge_matches(s[k], a, b) {
        k
    } else {
        spec_find_edge_from(s, a, b, k + 1)
    }
}

/// The edge list with every edge incident to `id` removed, order kept.
pub open spec fn keep_edges<E>(s: Seq<EdgeModel<E>>, id: int) -> Seq<EdgeModel<E>>
    decreases s.len(),
{
    if s.len() == 0 {
        Seq::empty()
    } else {
        let rest = keep_edges(s.drop_last(), id);
        if s.last().a != id && s.last().b != id {
            rest.push(s.last())
        } else {
            rest
        }
    }
}

/// The edge list after removing the first edge between `a` and `b`,
/// or the list unchanged if there is none.
pub open spec fn spec_remove_edge<E>(s: Seq<EdgeModel<E>>, a: int, b: int) -> Seq<EdgeModel<E>> {
    let k = spec_find_edge_from(s, a, b, 0);
    if k == -1 {
        s
    } else {
        s.remove(k)
    }
}

/// No edge that `keep_edges` keeps mentions the removed identity.
pub proof fn lemma_keep_edges_clean<E>(s: Seq<EdgeModel<E>>, id: int)
    ensures
        forall|m: int| 0 <= m < keep_edges(s, id).len()
            ==> (#[trigger] keep_edges(s, id)[m]).a != id && keep_edges(s, id)[m].b != id,
    decreases s.len(),
{
    if s.len() > 0 {
        lemma_keep_edges_clean(s.drop_last(), id);
        let kept = keep_edges(s, id);
        let rest = keep_edges(s.drop_last(), id);
        assert forall|m: int| 0 <= m < kept.len() implies (#[trigger] kept[m]).a != id
            && kept[m].b != id by {
            if m < rest.len() {
                assert(kept[m] == rest[m]);
            } else {
                assert(kept[m] == s.last());
            }
        }
    }
}

/// Every kept edge already stood somewhere in the input list.
pub proof fn lemma_keep_edges_membership<E>(s: Seq<EdgeModel<E>>, id: int)
    ensures
        forall|m: int| 0 <= m < keep_edges(s, id).len()
            ==> exists|j: int| 0 <= j < s.len() && #[trigger] keep_edges(s, id)[m] == s[j],
    decreases s.len(),
{
    if s.len() > 0 {
        lemma_keep_edges_membership(s.drop_last(), id);
        assert forall|m: int| 0 <= m < keep_edges(s, id).len()
            implies exists|j: int| 0 <= j < s.len() && #[trigger] keep_edges(s, id)[m] == s[j] by {
            let kept = keep_edges(s, id);
            let rest = keep_edges(s.drop_last(), id);
            if m < rest.len() {
                let j = choose|j: int| 0 <= j < s.drop_last().len() && rest[m] == s.drop_last()[j];
                assert(kept[m] == s[j]);
            } else {
                assert(kept[m] == s[s.len() - 1]);
            }
        }
    }
}

/// If no edge mentions `id`, `keep_edges` keeps the list as it is.
pub proof fn lemma_keep_edges_identity<E>(s: Seq<EdgeModel<E>>, id: int)
    requires
        forall|m: int| 0 <= m < s.len() ==> (#[trigger] s[m]).a != id && s[m].b != id,
    ensures
        keep_edges(s, id) =~= s,
    decreases s.len(),
{
    if s.len() > 0 {
        lemma_keep_edges_identity(s.drop_last(), id);
    }
}

/// `spec_find_edge_from` finds a match if and only if one exists at or
/// after `k`, and what it finds is the first one.
pub proof fn lemma_find_edge_props<E>(s: Seq<EdgeModel<E>>, a: int, b: int, k: int)
    requires
        0 <= k <= s.len(),
    ensures
        spec_find_edge_from(s, a, b, k) == -1 ==> forall|m: int|
            k <= m < s.len() ==> !edge_matches(#[trigger] s[m], a, b),
        spec_find_edge_from(s, a, b, k) != -1 ==> {
            let r = spec_find_edge_from(s, a, b, k);
            &&& k <= r < s.len()
            &&& edge_matches(s[r], a, b)
            &&& forall|m: int| k <= m < r ==> !edge_matches(#[trigger] s[m], a, b)
        },
    decreases s.len() - k,
{
    if k < s.len() && !edge_matches(s[k], a, b) {
        lemma_find_edge_props(s, a, b, k + 1);
    }
}

/// The main force graph structure.
///
/// `parameters` may be tuned freely; the mutation and query operations
/// keep the store well formed, and `update` advances the simulation.
pub struct ForceGraph<N = (), E = ()> {
    pub parameters: SimulationParameters,
    pub(crate) nodes: Vec<Option<Node<N>>>,
    pub(crate) edges: Vec<EdgeRec<E>>,
}

impl<N, E> ForceGraph<N, E> {
    /// The simulation parameters, as a spec value.
    pub open(crate) spec fn sim_params(&self) -> SimulationParameters {
        self.parameters
    }

    /// Whether slot `i` holds a live node.
    pub open(crate) spec fn slot_live(&self, i: int) -> bool {
        0 <= i < self.nodes@.len() && self.nodes@[i] is Some
    }

    /// The node in slot `j` (meaningful only for live slots).
    pub open(crate) spec fn node_at(&self, j: int) -> Node<N> {
        self.nodes@[j].unwrap()
    }

    /// The live nodes, keyed by identity.
    pub open(crate) spec fn node_models(&self) -> Map<int, NodeModel<N>> {
        Map::new(|i: int| self.slot_live(i), |i: int| self.nodes@[i].unwrap().model())
    }

    /// The edges, in insertion order.
    pub open(crate) spec fn edge_models(&self) -> Seq<EdgeModel<E>> {
        self.edges@.map_values(
            |r: EdgeRec<E>| EdgeModel { a: r.a as int, b: r.b as int, user: r.data.user_data },
        )
    }

    /// The graph's state as one mathematical value.
    pub open(crate) spec fn model(&self) -> GraphModel<N, E> {
        GraphModel { nodes: self.node_models(), edges: self.edge_models() }
    }

    /// The store invariant: at most 256 slots; each live slot holds a node
    /// that knows its own identity and is within the numeric ranges; every
    /// edge endpoint is live; and no two edges connect the same unordered
    /// pair.
    pub open(crate) spec fn wf(&self) -> bool {
        &&& self.nodes@.len() <= 256
        &&& forall|i: int| #![trigger self.nodes@[i]]
            0 <= i < self.nodes@.len() && self.nodes@[i] is Some ==> {
                let n = self.nodes@[i].unwrap();
                &&& n.model().id == i
                &&& model_wf(n.model())
            }
        &&& forall|k: int| #![trigger self.edge_models()[k]]
            0 <= k < self.edge_models().len() ==> {
                let e = self.edge_models()[k];
                self.slot_live(e.a) && self.slot_live(e.b)
            }
        &&& forall|k1: int, k2: int| #![trigger self.edge_models()[k1], self.edge_models()[k2]]
            0 <= k1 < k2 < self.edge_models().len() ==> !edge_matches(
                self.edge_models()[k1],
                self.edge_models()[k2].a,
                self.edge_models()[k2].b,
            )
    }

    /// Constructs a new, empty force graph with the given parameters.
    pub fn new(parameters: SimulationParameters) -> (g: Self)
        ensures
            g.wf(),
            g.sim_params() == parameters,
            g.node_models() =~= Map::<int, NodeModel<N>>::empty(),
            g.edge_models() =~= Seq::<EdgeModel<E>>::empty(),
    {
        ForceGraph { parameters, nodes: Vec::new(), edges: Vec::new() }
    }

    /// Adds a new node and returns the identity that references it: the
    /// smallest identity not currently live. Fails exactly when all 256
    /// identities are live.
    #[verifier::loop_isolation(false)]
    pub fn add_node(&mut self, node_data: NodeData<N>) -> (r: Result<
        DefaultNodeIdx,
        CapacityError,
    >)
        requires
            old(self).wf(),
            node_data.wf(),
        ensures
            final(self).wf(),
            final(self).sim_params() == old(self).sim_params(),
            final(self).edge_models() == old(self).edge_models(),
            match r {
                Ok(id) => {
                    &&& !old(self).node_models().dom().contains(id as int)
                    &&& forall|j: int|
                        0 <= j < id as int ==> old(self).node_models().dom().contains(j)
                    &&& final(self).node_models() =~= old(self).node_models().insert(
                        id as int,
                        fresh_node_model(id as int, node_data),
                    )
                },
                Err(_) => {
                    &&& *final(self) == *old(self)
                    &&& forall|i: int| 0 <= i < 256 ==> old(self).node_models().dom().contains(i)
                },
            },
    {
        let mut i: usize = 0;
        while i < self.nodes.len()
            invariant
                *self == *old(self),
                i <= self.nodes@.len(),
                forall|j: int| 0 <= j < i ==> self.nodes@[j] is Some,
            decreases self.nodes@.len() - i,
        {
            if self.nodes[i].is_none() {
                let node = Node {
                    data: node_data,
                    index: i as u8,
                    vx: 0,
                    vy: 0,
                    ax: 0,
                    ay: 0,
                };
                self.nodes[i] = Some(node);
                proof {
                    assert(self.edge_models() == old(self).edge_models());
                    lemma_wf_after_node_update(*old(self), *self, i as int);
                }
                return Ok(i as u8);
            }
            i += 1;
        }
        if self.nodes.len() < 256 {
            let id = self.nodes.len() as u8;
            let node = Node {
                data: node_data,
                index: id,
                vx: 0,
                vy: 0,
                ax: 0,
                ay: 0,
            };
            self.nodes.push(Some(node));
            proof {
                assert(self.edge_models() == old(self).edge_models());
                lemma_wf_after_node_update(*old(self), *self, id as int);
            }
            return Ok(id);
        }
        Err(CapacityError)
    }

    /// Removes a node by identity, along with every edge incident to it.
    /// A no-op if the identity is not live.
    pub fn remove_node(&mut self, idx: DefaultNodeIdx)
        requires
            old(self).wf(),
        ensures
            final(self).wf(),
            final(self).sim_params() == old(self).sim_params(),
            final(self).node_models() =~= old(self).node_models().remove(idx as int),
            final(self).edge_models() =~= keep_edges(old(self).edge_models(), idx as int),
            !old(self).node_models().dom().contains(idx as int) ==> *final(self) == *old(self),
    {
        let iu = idx as usize;
        if iu < self.nodes.len() {
            if self.nodes[iu].is_some() {
                self.nodes[iu] = None;
                retain_not_incident(&mut self.edges, idx);
                proof {
                    lemma_keep_edges_clean(old(self).edge_models(), idx as int);
                    lemma_keep_edges_membership(old(self).edge_models(), idx as int);
                    lemma_keep_edges_pairwise(old(self).edge_models(), idx as int);
                }
                return;
            }
        }
        proof {
            lemma_keep_edges_identity(self.edge_models(), idx as int);
        }
    }

    /// Removes the edge between `n1_idx` and `n2_idx` if one exists;
    /// a no-op otherwise.
    #[verifier::loop_isolation(false)]
    pub fn remove_edge(&mut self, n1_idx: DefaultNodeIdx, n2_idx: DefaultNodeIdx)
        requires
            old(self).wf(),
        ensures
            final(self).wf(),
            final(self).sim_params() == old(self).sim_params(),
            final(self).node_models() == old(self).node_models(),
            final(self).edge_models() =~= spec_remove_edge(
                old(self).edge_models(),
                n1_idx as int,
                n2_idx as int,
            ),
            !has_edge(final(self).edge_models(), n1_idx as int, n2_idx as int),
            !has_edge(old(self).edge_models(), n1_idx as int, n2_idx as int) ==> *final(self)
                == *old(self),
    {
        let a = n1_idx;
        let b = n2_idx;
        let ghost s = self.edge_models();
        proof {
            lemma_find_edge_props(s, a as int, b as int, 0);
        }
        let mut k: usize = 0;
        while k < self.edges.len()
            invariant
                *self == *old(self),
                k <= self.edges@.len(),
                forall|m: int| 0 <= m < k ==> !edge_matches(
                    #[trigger] self.edge_models()[m],
                    a as int,
                    b as int,
                ),
                spec_find_edge_from(s, a as int, b as int, 0) == spec_find_edge_from(
                    s,
                    a as int,
                    b as int,
                    k as int,
                ),
            decreases self.edges@.len() - k,
        {
            let ea = self.edges[k].a;
            let eb = self.edges[k].b;
            if (ea == a && eb == b) || (ea == b && eb == a) {
                let ghost pre = self.edges@;
                self.edges.remove(k);
                proof {
                    pre.remove_ensures(k as int);
                    s.remove_ensures(k as int);
                    assert(self.edge_models() =~= s.remove(k as int));
                    assert forall|m: int|
                        0 <= m < self.edge_models().len() implies !edge_matches(
                        #[trigger] self.edge_models()[m],
                        a as int,
                        b as int,
                    ) by {
                        if m < k {
                            assert(self.edge_models()[m] == s[m]);
                        } else {
                            assert(self.edge_models()[m] == s[m + 1]);
                        }
                    }
                }
                return;
            }
            k += 1;
        }
    }

    /// Adds an edge between two live identities, or replaces the payload
    /// of the existing edge between them. Orientation and position of an
    /// existing edge are kept. A self-loop (`n1_idx == n2_idx`) is stored
    /// but excluded from the force model.
    #[verifier::loop_isolation(false)]
    pub fn add_edge(&mut self, n1_idx: DefaultNodeIdx, n2_idx: DefaultNodeIdx, edge: EdgeData<E>)
        requires
            old(self).wf(),
            old(self).node_models().dom().contains(n1_idx as int),
            old(self).node_models().dom().contains(n2_idx as int),
        ensures
            final(self).wf(),
            final(self).sim_params() == old(self).sim_params(),
            final(self).node_models() == old(self).node_models(),
            has_edge(final(self).edge_models(), n1_idx as int, n2_idx as int),
            ({
                let s = old(self).edge_models();
                let k = spec_find_edge_from(s, n1_idx as int, n2_idx as int, 0);
                if k == -1 {
                    final(self).edge_models() =~= s.push(
                        EdgeModel { a: n1_idx as int, b: n2_idx as int, user: edge.user_data },
                    )
                } else {
                    final(self).edge_models() =~= s.update(
                        k,
                        EdgeModel { a: s[k].a, b: s[k].b, user: edge.user_data },
                    )
                }
            }),
    {
        let a = n1_idx;
        let b = n2_idx;
        let ghost s = self.edge_models();
        proof {
            lemma_find_edge_props(s, a as int, b as int, 0);
        }
        let mut k: usize = 0;
        while k < self.edges.len()
            invariant
                *self == *old(self),
                k <= self.edges@.len(),
                forall|m: int| 0 <= m < k ==> !edge_matches(
                    #[trigger] self.edge_models()[m],
                    a as int,
                    b as int,
                ),
                spec_find_edge_from(s, a as int, b as int, 0) == spec_find_edge_from(
                    s,
                    a as int,
                    b as int,
                    k as int,
                ),
            decreases self.edges@.len() - k,
        {
            let ea = self.edges[k].a;
            let eb = self.edges[k].b;
            if (ea == a && eb == b) || (ea == b && eb == a) {
                let er = &mut self.edges[k];
                er.data = edge;
                proof {
                    assert(self.edge_models() =~= s.update(
                        k as int,
                        EdgeModel { a: s[k as int].a, b: s[k as int].b, user: edge.user_data },
                    ));
                    assert(edge_matches(self.edge_models()[k as int], a as int, b as int));
                    assert(self.node_models() == old(self).node_models());
                    assert forall|k1: int, k2: int|
                        0 <= k1 < k2 < self.edge_models().len() implies !edge_matches(
                        #[trigger] self.edge_models()[k1],
                        (#[trigger] self.edge_models()[k2]).a,
                        self.edge_models()[k2].b,
                    ) by {
                        assert(self.edge_models()[k1].a == s[k1].a && self.edge_models()[k1].b
                            == s[k1].b);
                        assert(self.edge_models()[k2].a == s[k2].a && self.edge_models()[k2].b
                            == s[k2].b);
                    }
                }
                return;
            }
            k += 1;
        }
        self.edges.push(EdgeRec { a, b, data: edge });
        proof {
            let post = self.edge_models();
            assert(post =~= s.push(EdgeModel { a: a as int, b: b as int, user: edge.user_data }));
            assert(edge_matches(post[s.len() as int], a as int, b as int));
            assert(self.node_models() == old(self).node_models());
            assert forall|k1: int, k2: int| 0 <= k1 < k2 < post.len() implies !edge_matches(
                #[trigger] post[k1],
                (#[trigger] post[k2]).a,
                post[k2].b,
            ) by {
                if k2 < s.len() {
                    assert(post[k1] == s[k1] && post[k2] == s[k2]);
                } else {
                    assert(post[k2] == EdgeModel { a: a as int, b: b as int, user: edge.user_data });
                    assert(post[k1] == s[k1]);
                    assert(!edge_matches(s[k1], a as int, b as int));
                }
            }
        }
    }

    /// Removes all nodes and edges from the force graph.
    pub fn clear(&mut self)
        ensures
            final(self).wf(),
            final(self).sim_params() == old(self).sim_params(),
            final(self).node_models() =~= Map::<int, NodeModel<N>>::empty(),
            final(self).edge_models() =~= Seq::<EdgeModel<E>>::empty(),
    {
        self.nodes = Vec::new();
        self.edges = Vec::new();
    }

    /// Check if a node is in the graph.
    pub fn contains_node(&self, idx: DefaultNodeIdx) -> (r: bool)
        ensures
            r == self.node_models().dom().contains(idx as int),
    {
        let iu = idx as usize;
        iu < self.nodes.len() && self.nodes[iu].is_some()
    }

    /// Check if an edge is in the graph.
    #[verifier::loop_isolation(false)]
    pub fn contains_edge(&self, n1_idx: DefaultNodeIdx, n2_idx: DefaultNodeIdx) -> (r: bool)
        ensures
            r == has_edge(self.edge_models(), n1_idx as int, n2_idx as int),
    {
        let a = n1_idx;
        let b = n2_idx;
        let mut k: usize = 0;
        while k < self.edges.len()
            invariant
                k <= self.edges@.len(),
                forall|m: int| 0 <= m < k ==> !edge_matches(
                    #[trigger] self.edge_models()[m],
                    a as int,
                    b as int,
                ),
            decreases self.edges@.len() - k,
        {
            let ea = self.edges[k].a;
            let eb = self.edges[k].b;
            if (ea == a && eb == b) || (ea == b && eb == a) {
                proof {
                    assert(edge_matches(self.edge_models()[k as int], a as int, b as int));
                }
                return true;
            }
            k += 1;
        }
        false
    }

    /// The identities of all live nodes, in ascending order.
    #[verifier::loop_isolation(false)]
    pub fn get_nodes_indices(&self) -> (r: Vec<DefaultNodeIdx>)
        requires
            self.wf(),
        ensures
            forall|m1: int, m2: int| 0 <= m1 < m2 < r@.len() ==> r@[m1] < r@[m2],
            forall|m: int| 0 <= m < r@.len() ==> self.node_models().dom().contains(
                #[trigger] r@[m] as int,
            ),
            forall|i: int| #[trigger] self.node_models().dom().contains(i) ==> r@.contains(i as u8),
    {
        let mut out: Vec<u8> = Vec::new();
        let mut i: usize = 0;
        while i < self.nodes.len()
            invariant
                i <= self.nodes@.len(),
                forall|m1: int, m2: int| 0 <= m1 < m2 < out@.len() ==> out@[m1] < out@[m2],
                forall|m: int| 0 <= m < out@.len() ==> (#[trigger] out@[m] as int) < i
                    && self.slot_live(out@[m] as int),
                forall|j: int| 0 <= j < i && self.slot_live(j) ==> out@.contains(j as u8),
            decreases self.nodes@.len() - i,
        {
            if self.nodes[i].is_some() {
                let ghost out0 = out@;
                out.push(i as u8);
                proof {
                    assert forall|j: int| 0 <= j < i + 1 && self.slot_live(j) implies out@.contains(
                        j as u8,
                    ) by {
                        if j == i as int {
                            assert(out@[out0.len() as int] == i as u8);
                        } else {
                            let m = choose|m: int| 0 <= m < out0.len() && out0[m] == j as u8;
                            assert(out@[m] == j as u8);
                        }
                    }
                }
            }
            i += 1;
        }
        out
    }

    /// The endpoint identities of every edge, in insertion order.
    #[verifier::loop_isolation(false)]
    pub fn get_edges_indices(&self) -> (r: Vec<(DefaultNodeIdx, DefaultNodeIdx)>)
        ensures
            r@.len() == self.edge_models().len(),
            forall|k: int| 0 <= k < r@.len() ==> (#[trigger] r@[k]).0 == self.edge_models()[k].a
                && r@[k].1 == self.edge_models()[k].b,
    {
        let mut out: Vec<(u8, u8)> = Vec::new();
        let mut k: usize = 0;
        while k < self.edges.len()
            invariant
                k <= self.edges@.len(),
                out@.len() == k,
                forall|m: int| 0 <= m < k ==> (#[trigger] out@[m]).0 == self.edge_models()[m].a
                    && out@[m].1 == self.edge_models()[m].b,
            decreases self.edges@.len() - k,
        {
            out.push((self.edges[k].a, self.edges[k].b));
            k += 1;
        }
        out
    }

    /// The position of the node with the given identity, or `None` if the
    /// identity is not live.
    pub fn get_node_position(&self, idx: DefaultNodeIdx) -> (r: Option<(i64, i64)>)
        ensures
            match r {
                Some(pos) => {
                    &&& self.node_models().dom().contains(idx as int)
                    &&& pos.0 == self.node_models()[idx as int].x
                    &&& pos.1 == self.node_models()[idx as int].y
                },
                None => !self.node_models().dom().contains(idx as int),
            },
    {
        let iu = idx as usize;
        if iu < self.nodes.len() {
            match &self.nodes[iu] {
                Some(n) => Some((n.data.x, n.data.y)),
                None => None,
            }
        } else {
            None
        }
    }
}

/// After turning one free slot live with a well-formed fresh node, the
/// store invariant still holds (edges untouched).
proof fn lemma_wf_after_node_update<N, E>(pre: ForceGraph<N, E>, post: ForceGraph<N, E>, i: int)
    requires
        pre.wf(),
        post.nodes@.len() <= 256,
        post.edges@ == pre.edges@,
        0 <= i < post.nodes@.len(),
        pre.nodes@.len() <= post.nodes@.len(),
        forall|j: int| 0 <= j < pre.nodes@.len() && j != i ==> post.nodes@[j] == pre.nodes@[j],
        post.nodes@.len() == pre.nodes@.len() || (post.nodes@.len() == pre.nodes@.len() + 1 && i
            == pre.nodes@.len()),
        post.nodes@[i] is Some,
        post.nodes@[i].unwrap().model().id == i,
        model_wf(post.nodes@[i].unwrap().model()),
    ensures
        post.wf(),
{
    assert forall|j: int| 0 <= j < post.nodes@.len() && (#[trigger] post.nodes@[j]) is Some implies ({
        let n = post.nodes@[j].unwrap();
        n.model().id == j && model_wf(n.model())
    }) by {
        if j != i {
            assert(post.nodes@[j] == pre.nodes@[j]);
        }
    }
    assert forall|k: int| 0 <= k < post.edge_models().len() implies ({
        let e = #[trigger] post.edge_models()[k];
        post.slot_live(e.a) && post.slot_live(e.b)
    }) by {
        assert(post.edge_models()[k] == pre.edge_models()[k]);
        let e = pre.edge_models()[k];
        assert(pre.slot_live(e.a) && pre.slot_live(e.b));
        if e.a != i {
            assert(post.nodes@[e.a] == pre.nodes@[e.a]);
        }
        if e.b != i {
            assert(post.nodes@[e.b] == pre.nodes@[e.b]);
        }
    }
    assert forall|k1: int, k2: int| 0 <= k1 < k2 < post.edge_models().len() implies !edge_matches(
        #[trigger] post.edge_models()[k1],
        (#[trigger] post.edge_models()[k2]).a,
        post.edge_models()[k2].b,
    ) by {
        assert(post.edge_models()[k1] == pre.edge_models()[k1]);
        assert(post.edge_models()[k2] == pre.edge_models()[k2]);
    }
}

/// The fresh node made by `add_node`: the caller's data, zero velocity,
/// and a clear force accumulator.
pub open spec fn fresh_node_model<N>(id: int, d: NodeData<N>) -> NodeModel<N> {
    NodeModel {
        id,
        x: d.x as int,
        y: d.y as int,
        vx: 0,
        vy: 0,
        ax: 0,
        ay: 0,
        mass: d.mass as int,
        anchor: d.is_anchor,
        user: d.user_data,
    }
}

/// If no two edges of `s` connect the same unordered pair, the same holds
/// after dropping the edges incident to one identity.
pub proof fn lemma_keep_edges_pairwise<E>(s: Seq<EdgeModel<E>>, id: int)
    requires
        forall|k1: int, k2: int| #![trigger s[k1], s[k2]]
            0 <= k1 < k2 < s.len() ==> !edge_matches(s[k1], s[k2].a, s[k2].b),
    ensures
        forall|k1: int, k2: int|
            #![trigger keep_edges(s, id)[k1], keep_edges(s, id)[k2]]
            0 <= k1 < k2 < keep_edges(s, id).len() ==> !edge_matches(
                keep_edges(s, id)[k1],
                keep_edges(s, id)[k2].a,
                keep_edges(s, id)[k2].b,
            ),
    decreases s.len(),
{
    if s.len() > 0 {
        lemma_keep_edges_pairwise(s.drop_last(), id);
        lemma_keep_edges_membership(s.drop_last(), id);
        let kept = keep_edges(s, id);
        let rest = keep_edges(s.drop_last(), id);
        assert forall|k1: int, k2: int|
            0 <= k1 < k2 < kept.len() implies !edge_matches(
            #[trigger] kept[k1],
            (#[trigger] kept[k2]).a,
            kept[k2].b,
        ) by {
            if k2 < rest.len() {
                assert(kept[k1] == rest[k1] && kept[k2] == rest[k2]);
            } else {
                // k2 is the pushed last element of s
                assert(kept[k2] == s[s.len() - 1]);
                assert(kept[k1] == rest[k1]);
                let j = choose|j: int|
                    0 <= j < s.drop_last().len() && rest[k1] == s.drop_last()[j];
                assert(s.drop_last()[j] == s[j]);
            }
        }
    }
}

/// Rebuilds the edge list without the edges incident to `idx`, keeping
/// the order of the rest.
#[verifier::loop_isolation(false)]
fn retain_not_incident<E>(edges: &mut Vec<EdgeRec<E>>, idx: u8)
    ensures
        rec_models(final(edges)@) =~= keep_edges(rec_models(old(edges)@), idx as int),
{
    let ghost orig = edges@;
    let ghost n = edges@.len();
    let mut rev: Vec<EdgeRec<E>> = Vec::new();
    while edges.len() > 0
        invariant
            rev@.len() + edges@.len() == n,
            forall|m: int| 0 <= m < edges@.len() ==> edges@[m] == orig[m],
            forall|m: int| 0 <= m < rev@.len() ==> rev@[m] == orig[n - 1 - m],
        decreases edges@.len(),
    {
        let e = edges.pop().unwrap();
        rev.push(e);
    }
    while rev.len() > 0
        invariant
            rev@.len() <= n,
            forall|m: int| 0 <= m < rev@.len() ==> rev@[m] == orig[n - 1 - m],
            rec_models(edges@) =~= keep_edges(
                rec_models(orig.subrange(0, n - rev@.len())),
                idx as int,
            ),
        decreases rev@.len(),
    {
        let ghost p = n - rev@.len();
        let e = rev.pop().unwrap();
        proof {
            assert(e == orig[p]);
            assert(rec_models(orig.subrange(0, p + 1)).drop_last() =~= rec_models(
                orig.subrange(0, p),
            ));
            assert(rec_models(orig.subrange(0, p + 1)).last() == rec_model(orig[p]));
        }
        if e.a != idx && e.b != idx {
            edges.push(e);
        }
    }
    proof {
        assert(orig.subrange(0, n as int) =~= orig);
    }
}

/// The mathematical value of one stored edge.
pub(crate) open spec fn rec_model<E>(r: EdgeRec<E>) -> EdgeModel<E> {
    EdgeModel { a: r.a as int, b: r.b as int, user: r.data.user_data }
}

/// The mathematical values of a stored edge list.
pub(crate) open spec fn rec_models<E>(s: Seq<EdgeRec<E>>) -> Seq<EdgeModel<E>> {
    s.map_values(|r: EdgeRec<E>| EdgeModel { a: r.a as int, b: r.b as int, user: r.data.user_data })
}

} // verus!

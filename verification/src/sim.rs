//! The simulation step.
//!
//! One step visits every live node in ascending identity order. At node
//! `i`'s visit, attraction from each of `i`'s neighbors is folded into
//! `i`'s force accumulator, repulsion is exchanged between `i` and every
//! live node with a larger identity (each unordered pair exactly once,
//! anchored endpoints skipped), and `i` is then integrated immediately —
//! or, if `i` is anchored, only its accumulator is reset. The whole step
//! is specified by `spec_step`, a fold of `spec_visit` over identities.

use vstd::prelude::*;

use crate::fixed::DT_LIMIT;
use crate::forces::attract_nodes;
use crate::forces::repel_nodes;
use crate::forces::spec_attract;
use crate::forces::spec_repel;
use crate::graph::EdgeModel;
use crate::graph::ForceGraph;
use crate::graph::GraphModel;
use crate::node::NodeModel;
use crate::node::model_wf;
use crate::node::spec_apply_force;
use crate::node::spec_integrate;
use crate::node::spec_reset_acc;
use crate::params::SimulationParameters;

verus! {

/// Two node states that agree on everything except the force accumulator.
pub open spec fn same_core<N>(n1: NodeModel<N>, n2: NodeModel<N>) -> bool {
    &&& n1.id == n2.id
    &&& n1.x == n2.x
    &&& n1.y == n2.y
    &&& n1.vx == n2.vx
    &&& n1.vy == n2.vy
    &&& n1.mass == n2.mass
    &&& n1.anchor == n2.anchor
    &&& n1.user == n2.user
}

/// The attraction pass for node `i`, folded over the edge list from
/// position `k` on: each non-loop edge incident to `i` pulls `i` toward
/// its other endpoint. Only `i`'s accumulator changes.
pub open spec fn spec_attract_pass<N, E>(
    nodes: Map<int, NodeModel<N>>,
    edges: Seq<EdgeModel<E>>,
    i: int,
    k: int,
    dt: int,
    p: SimulationParameters,
) -> Map<int, NodeModel<N>>
    decreases edges.len() - k,
{
    if !(0 <= k < edges.len()) {
        nodes
    } else {
        let e = edges[k];
        let touched = e.a != e.b && (e.a == i || e.b == i);
        let j = if e.a == i {
            e.b
        } else {
            e.a
        };
        let nodes1 = if touched && nodes.dom().contains(i) && nodes.dom().contains(j) {
            let f = spec_attract(nodes[i], nodes[j], p);
            nodes.insert(i, spec_apply_force(nodes[i], f.0, f.1, dt, p))
        } else {
            nodes
        };
        spec_attract_pass(nodes1, edges, i, k + 1, dt, p)
    }
}

/// The repulsion pass for node `i`, folded over the identities from `j`
/// up: each live `j` exchanges repulsion with `i`, the force applied to
/// `i` and the negated force to `j`, skipping anchored endpoints.
pub open spec fn spec_repel_pass<N>(
    nodes: Map<int, NodeModel<N>>,
    i: int,
    j: int,
    dt: int,
    p: SimulationParameters,
) -> Map<int, NodeModel<N>>
    decreases 256 - j,
{
    if !(i < j < 256) {
        nodes
    } else {
        let nodes2 = if nodes.dom().contains(i) && nodes.dom().contains(j) {
            let f = spec_repel(nodes[i], nodes[j], p);
            let nodes1 = if !nodes[i].anchor {
                nodes.insert(i, spec_apply_force(nodes[i], f.0, f.1, dt, p))
            } else {
                nodes
            };
            if !nodes[j].anchor {
                nodes1.insert(j, spec_apply_force(nodes1[j], -f.0, -f.1, dt, p))
            } else {
                nodes1
            }
        } else {
            nodes
        };
        spec_repel_pass(nodes2, i, j + 1, dt, p)
    }
}

/// One node's visit: attraction from its neighbors, repulsion against all
/// larger identities, then integration — or an accumulator reset if the
/// node is anchored.
pub open spec fn spec_visit<N, E>(g: GraphModel<N, E>, i: int, dt: int, p: SimulationParameters)
    -> GraphModel<N, E> {
    if !g.nodes.dom().contains(i) {
        g
    } else {
        let n1 = spec_attract_pass(g.nodes, g.edges, i, 0, dt, p);
        let n2 = spec_repel_pass(n1, i, i + 1, dt, p);
        let n3 = if n2[i].anchor {
            n2.insert(i, spec_reset_acc(n2[i]))
        } else {
            n2.insert(i, spec_integrate(n2[i], dt, p))
        };
        GraphModel { nodes: n3, edges: g.edges }
    }
}

/// The simulation step, folded over the identities from `i` up.
pub open spec fn spec_step_from<N, E>(
    g: GraphModel<N, E>,
    i: int,
    dt: int,
    p: SimulationParameters,
) -> GraphModel<N, E>
    decreases 256 - i,
{
    if !(0 <= i < 256) {
        g
    } else {
        spec_step_from(spec_visit(g, i, dt, p), i + 1, dt, p)
    }
}

/// One full simulation step: every identity visited in ascending order.
pub open spec fn spec_step<N, E>(g: GraphModel<N, E>, dt: int, p: SimulationParameters)
    -> GraphModel<N, E> {
    spec_step_from(g, 0, dt, p)
}

/// The graph after `n` simulation steps of the same time delta.
pub open spec fn spec_run<N, E>(
    g: GraphModel<N, E>,
    dt: int,
    p: SimulationParameters,
    n: nat,
) -> GraphModel<N, E>
    decreases n,
{
    if n == 0 {
        g
    } else {
        spec_run(spec_step(g, dt, p), dt, p, (n - 1) as nat)
    }
}

/// What the attraction pass can and cannot change: the key set stays; no
/// node but `i` changes at all; `i` keeps everything but its accumulator,
/// and stays within the numeric ranges.
pub proof fn lemma_attract_pass_props<N, E>(
    nodes: Map<int, NodeModel<N>>,
    edges: Seq<EdgeModel<E>>,
    i: int,
    k: int,
    dt: int,
    p: SimulationParameters,
)
    ensures
        spec_attract_pass(nodes, edges, i, k, dt, p).dom() == nodes.dom(),
        forall|m: int| m != i && nodes.dom().contains(m)
            ==> #[trigger] spec_attract_pass(nodes, edges, i, k, dt, p)[m] == nodes[m],
        nodes.dom().contains(i) ==> same_core(
            spec_attract_pass(nodes, edges, i, k, dt, p)[i],
            nodes[i],
        ),
        nodes.dom().contains(i) && model_wf(nodes[i]) ==> model_wf(
            spec_attract_pass(nodes, edges, i, k, dt, p)[i],
        ),
    decreases edges.len() - k,
{
    if 0 <= k < edges.len() {
        let e = edges[k];
        let touched = e.a != e.b && (e.a == i || e.b == i);
        let j = if e.a == i {
            e.b
        } else {
            e.a
        };
        if touched && nodes.dom().contains(i) && nodes.dom().contains(j) {
            let f = spec_attract(nodes[i], nodes[j], p);
            let nodes1 = nodes.insert(i, spec_apply_force(nodes[i], f.0, f.1, dt, p));
            assert(nodes1.dom() =~= nodes.dom());
            lemma_attract_pass_props(nodes1, edges, i, k + 1, dt, p);
        } else {
            lemma_attract_pass_props(nodes, edges, i, k + 1, dt, p);
        }
    }
}

/// What the repulsion pass can and cannot change: the key set stays;
/// nothing below `j` but `i` changes; every node keeps everything but its
/// accumulator and stays within ranges; anchored nodes do not change.
pub proof fn lemma_repel_pass_props<N>(
    nodes: Map<int, NodeModel<N>>,
    i: int,
    j: int,
    dt: int,
    p: SimulationParameters,
)
    ensures
        spec_repel_pass(nodes, i, j, dt, p).dom() == nodes.dom(),
        forall|m: int| nodes.dom().contains(m) && m != i && m < j
            ==> #[trigger] spec_repel_pass(nodes, i, j, dt, p)[m] == nodes[m],
        forall|m: int| nodes.dom().contains(m) ==> same_core(
            #[trigger] spec_repel_pass(nodes, i, j, dt, p)[m],
            nodes[m],
        ),
        forall|m: int| nodes.dom().contains(m) && nodes[m].anchor
            ==> #[trigger] spec_repel_pass(nodes, i, j, dt, p)[m] == nodes[m],
        forall|m: int| nodes.dom().contains(m) && model_wf(nodes[m]) ==> model_wf(
            #[trigger] spec_repel_pass(nodes, i, j, dt, p)[m],
        ),
    decreases 256 - j,
{
    if i < j < 256 {
        if nodes.dom().contains(i) && nodes.dom().contains(j) {
            let f = spec_repel(nodes[i], nodes[j], p);
            let nodes1 = if !nodes[i].anchor {
                nodes.insert(i, spec_apply_force(nodes[i], f.0, f.1, dt, p))
            } else {
                nodes
            };
            let nodes2 = if !nodes[j].anchor {
                nodes1.insert(j, spec_apply_force(nodes1[j], -f.0, -f.1, dt, p))
            } else {
                nodes1
            };
            assert(nodes1.dom() =~= nodes.dom());
            assert(nodes2.dom() =~= nodes.dom());
            lemma_repel_pass_props(nodes2, i, j + 1, dt, p);
        } else {
            lemma_repel_pass_props(nodes, i, j + 1, dt, p);
        }
    }
}

/// What one visit can and cannot change: the key set and the edges stay;
/// identities below `i` are untouched; all nodes keep their position,
/// velocity and everything else but the accumulator; `i` ends with a
/// clear accumulator if anchored, and anchored nodes keep their whole
/// state except that clearing; numeric ranges are kept.
pub proof fn lemma_visit_props<N, E>(
    g: GraphModel<N, E>,
    i: int,
    dt: int,
    p: SimulationParameters,
)
    requires
        forall|m: int| #[trigger] g.nodes.dom().contains(m) ==> model_wf(g.nodes[m]),
    ensures
        spec_visit(g, i, dt, p).edges == g.edges,
        spec_visit(g, i, dt, p).nodes.dom() == g.nodes.dom(),
        forall|m: int| g.nodes.dom().contains(m) && m < i
            ==> #[trigger] spec_visit(g, i, dt, p).nodes[m] == g.nodes[m],
        forall|m: int| g.nodes.dom().contains(m) && m != i ==> same_core(
            #[trigger] spec_visit(g, i, dt, p).nodes[m],
            g.nodes[m],
        ),
        forall|m: int| g.nodes.dom().contains(m) && m != i && g.nodes[m].anchor
            ==> #[trigger] spec_visit(g, i, dt, p).nodes[m] == g.nodes[m],
        g.nodes.dom().contains(i) ==> spec_visit(g, i, dt, p).nodes[i].ax == 0
            && spec_visit(g, i, dt, p).nodes[i].ay == 0,
        g.nodes.dom().contains(i) && g.nodes[i].anchor ==> same_core(
            spec_visit(g, i, dt, p).nodes[i],
            g.nodes[i],
        ),
        forall|m: int| #[trigger] g.nodes.dom().contains(m) ==> model_wf(
            spec_visit(g, i, dt, p).nodes[m],
        ),
{
    if g.nodes.dom().contains(i) {
        lemma_attract_pass_props(g.nodes, g.edges, i, 0, dt, p);
        let n1 = spec_attract_pass(g.nodes, g.edges, i, 0, dt, p);
        lemma_repel_pass_props(n1, i, i + 1, dt, p);
        let n2 = spec_repel_pass(n1, i, i + 1, dt, p);
        let n3 = spec_visit(g, i, dt, p).nodes;
        assert(n3.dom() =~= g.nodes.dom());
    }
}

/// What a partial step (visits from `i` up) does: identities below `i`
/// are untouched, all visited nodes end with a clear accumulator,
/// anchored nodes keep their position and velocity, the key set and the
/// edges stay, and numeric ranges are kept.
pub proof fn lemma_step_from_props<N, E>(
    g: GraphModel<N, E>,
    i: int,
    dt: int,
    p: SimulationParameters,
)
    requires
        i >= 0,
        forall|m: int| #[trigger] g.nodes.dom().contains(m) ==> model_wf(g.nodes[m]),
    ensures
        spec_step_from(g, i, dt, p).edges == g.edges,
        spec_step_from(g, i, dt, p).nodes.dom() == g.nodes.dom(),
        forall|m: int| g.nodes.dom().contains(m) && m < i
            ==> #[trigger] spec_step_from(g, i, dt, p).nodes[m] == g.nodes[m],
        forall|m: int| g.nodes.dom().contains(m) && i <= m < 256
            ==> (#[trigger] spec_step_from(g, i, dt, p).nodes[m]).ax == 0 && spec_step_from(
            g,
            i,
            dt,
            p,
        ).nodes[m].ay == 0,
        forall|m: int| g.nodes.dom().contains(m) && g.nodes[m].anchor ==> same_core(
            #[trigger] spec_step_from(g, i, dt, p).nodes[m],
            g.nodes[m],
        ),
        forall|m: int| #[trigger] g.nodes.dom().contains(m) ==> model_wf(
            spec_step_from(g, i, dt, p).nodes[m],
        ),
    decreases 256 - i,
{
    if 0 <= i < 256 {
        lemma_visit_props(g, i, dt, p);
        let g1 = spec_visit(g, i, dt, p);
        lemma_step_from_props(g1, i + 1, dt, p);
        assert(spec_step_from(g, i, dt, p) == spec_step_from(g1, i + 1, dt, p));
        assert forall|m: int| g.nodes.dom().contains(m) && i <= m < 256 implies (
        #[trigger] spec_step_from(g, i, dt, p).nodes[m]).ax == 0 && spec_step_from(
            g,
            i,
            dt,
            p,
        ).nodes[m].ay == 0 by {
            if m == i {
                assert(spec_step_from(g1, i + 1, dt, p).nodes[m] == g1.nodes[m]);
            } else {
                assert(spec_step_from(g1, i + 1, dt, p).nodes[m].ax == 0
                    && spec_step_from(g1, i + 1, dt, p).nodes[m].ay == 0);
            }
        }
    }
}

/// Folding repulsion over identities of which none is live changes
/// nothing.
proof fn lemma_repel_pass_absent<N>(
    nodes: Map<int, NodeModel<N>>,
    i: int,
    j: int,
    dt: int,
    p: SimulationParameters,
)
    requires
        forall|m: int| #[trigger] nodes.dom().contains(m) ==> m < j,
    ensures
        spec_repel_pass(nodes, i, j, dt, p) == nodes,
    decreases 256 - j,
{
    if i < j < 256 {
        lemma_repel_pass_absent(nodes, i, j + 1, dt, p);
    }
}

/// Visiting identities of which none is live changes nothing.
proof fn lemma_step_from_absent<N, E>(
    g: GraphModel<N, E>,
    i: int,
    dt: int,
    p: SimulationParameters,
)
    requires
        0 <= i <= 256,
        forall|m: int| #[trigger] g.nodes.dom().contains(m) ==> m < i,
    ensures
        spec_step_from(g, i, dt, p) == g,
    decreases 256 - i,
{
    if i < 256 {
        assert(spec_visit(g, i, dt, p) == g);
        lemma_step_from_absent(g, i + 1, dt, p);
    }
}

impl<N, E> ForceGraph<N, E> {
    /// Fold the attraction of each of node `i`'s neighbors into `i`'s
    /// force accumulator.
    #[verifier::rlimit(50)]
    #[verifier::loop_isolation(false)]
    fn attract_pass(&mut self, i: usize, dt: i64)
        requires
            old(self).wf(),
            old(self).sim_params().valid(),
            0 <= dt <= DT_LIMIT,
            old(self).slot_live(i as int),
        ensures
            final(self).wf(),
            final(self).sim_params() == old(self).sim_params(),
            final(self).edges@ == old(self).edges@,
            final(self).nodes@.len() == old(self).nodes@.len(),
            forall|j: int| #![trigger final(self).nodes@[j]] 0 <= j < final(self).nodes@.len()
                ==> (final(self).nodes@[j] is Some <==> old(self).nodes@[j] is Some),
            final(self).node_models() == spec_attract_pass(
                old(self).node_models(),
                old(self).edge_models(),
                i as int,
                0,
                dt as int,
                old(self).sim_params(),
            ),
    {
        let p = self.parameters;
        let ghost m0 = self.node_models();
        let mut k: usize = 0;
        while k < self.edges.len()
            invariant
                self.wf(),
                self.sim_params() == old(self).sim_params(),
                self.edges@ == old(self).edges@,
                self.nodes@.len() == old(self).nodes@.len(),
                forall|j: int| #![trigger self.nodes@[j]] 0 <= j < self.nodes@.len()
                    ==> (self.nodes@[j] is Some <==> old(self).nodes@[j] is Some),
                k <= self.edges@.len(),
                spec_attract_pass(
                    self.node_models(),
                    self.edge_models(),
                    i as int,
                    k as int,
                    dt as int,
                    p,
                ) == spec_attract_pass(
                    m0,
                    old(self).edge_models(),
                    i as int,
                    0,
                    dt as int,
                    p,
                ),
            decreases self.edges@.len() - k,
        {
            let ea = self.edges[k].a;
            let eb = self.edges[k].b;
            if ea != eb && (ea as usize == i || eb as usize == i) {
                let ju: usize = if ea as usize == i {
                    eb as usize
                } else {
                    ea as usize
                };
                proof {
                    assert(self.edge_models()[k as int].a == ea as int);
                    assert(self.edge_models()[k as int].b == eb as int);
                    assert(self.slot_live(ea as int) && self.slot_live(eb as int));
                }
                let f = match (&self.nodes[i], &self.nodes[ju]) {
                    (Some(n1), Some(n2)) => attract_nodes(n1, n2, &p),
                    _ => (0i64, 0i64),
                };
                let ghost mk = self.node_models();
                let ghost gpre = *self;
                match &mut self.nodes[i] {
                    Some(nd) => nd.apply_force(f.0, f.1, dt, &p),
                    None => {},
                }
                proof {
                    assert(mk[i as int] == gpre.nodes@[i as int].unwrap().model());
                    assert(mk[ju as int] == gpre.nodes@[ju as int].unwrap().model());
                    assert((f.0 as int, f.1 as int) == spec_attract(
                        mk[i as int],
                        mk[ju as int],
                        p,
                    ));
                    let applied = spec_apply_force(
                        mk[i as int],
                        f.0 as int,
                        f.1 as int,
                        dt as int,
                        p,
                    );
                    assert(self.node_models() =~= mk.insert(i as int, applied));
                    assert(self.nodes@[i as int].unwrap().model() == applied);
                    lemma_wf_after_node_update_sim(gpre, *self, i as int);
                }
            }
            k += 1;
        }
    }

    /// Exchange repulsion between node `i` and every live node with a
    /// larger identity, skipping anchored endpoints.
    #[verifier::rlimit(50)]
    #[verifier::loop_isolation(false)]
    fn repel_pass(&mut self, i: usize, dt: i64)
        requires
            old(self).wf(),
            old(self).sim_params().valid(),
            0 <= dt <= DT_LIMIT,
            old(self).slot_live(i as int),
        ensures
            final(self).wf(),
            final(self).sim_params() == old(self).sim_params(),
            final(self).edges@ == old(self).edges@,
            final(self).nodes@.len() == old(self).nodes@.len(),
            forall|j: int| #![trigger final(self).nodes@[j]] 0 <= j < final(self).nodes@.len()
                ==> (final(self).nodes@[j] is Some <==> old(self).nodes@[j] is Some),
            final(self).node_models() == spec_repel_pass(
                old(self).node_models(),
                i as int,
                i as int + 1,
                dt as int,
                old(self).sim_params(),
            ),
    {
        let p = self.parameters;
        let ghost m0 = self.node_models();
        let mut j: usize = i + 1;
        while j < self.nodes.len()
            invariant
                self.wf(),
                self.sim_params() == old(self).sim_params(),
                self.edges@ == old(self).edges@,
                self.nodes@.len() == old(self).nodes@.len(),
                forall|j2: int| #![trigger self.nodes@[j2]] 0 <= j2 < self.nodes@.len()
                    ==> (self.nodes@[j2] is Some <==> old(self).nodes@[j2] is Some),
                i < j,
                spec_repel_pass(self.node_models(), i as int, j as int, dt as int, p)
                    == spec_repel_pass(m0, i as int, i as int + 1, dt as int, p),
            decreases self.nodes@.len() - j,
        {
            if self.nodes[j].is_some() {
                let (f, a1, a2) = match (&self.nodes[i], &self.nodes[j]) {
                    (Some(n1), Some(n2)) => (
                        repel_nodes(n1, n2, &p),
                        n1.data.is_anchor,
                        n2.data.is_anchor,
                    ),
                    _ => ((0i64, 0i64), false, false),
                };
                let ghost mk = self.node_models();
                proof {
                    assert(mk[i as int] == self.nodes@[i as int].unwrap().model());
                    assert(mk[j as int] == self.nodes@[j as int].unwrap().model());
                    assert((f.0 as int, f.1 as int) == spec_repel(mk[i as int], mk[j as int], p));
                    assert(a1 == mk[i as int].anchor && a2 == mk[j as int].anchor);
                }
                if !a1 {
                    let ghost gpre = *self;
                    match &mut self.nodes[i] {
                        Some(nd) => nd.apply_force(f.0, f.1, dt, &p),
                        None => {},
                    }
                    proof {
                        let applied = spec_apply_force(
                            mk[i as int],
                            f.0 as int,
                            f.1 as int,
                            dt as int,
                            p,
                        );
                        assert(self.node_models() =~= mk.insert(i as int, applied));
                        lemma_wf_after_node_update_sim(gpre, *self, i as int);
                    }
                }
                let ghost m1 = self.node_models();
                if !a2 {
                    let ghost gpre = *self;
                    match &mut self.nodes[j] {
                        Some(nd) => nd.apply_force(-f.0, -f.1, dt, &p),
                        None => {},
                    }
                    proof {
                        assert(m1[j as int] == mk[j as int]);
                        let applied = spec_apply_force(
                            m1[j as int],
                            -f.0 as int,
                            -f.1 as int,
                            dt as int,
                            p,
                        );
                        assert(self.node_models() =~= m1.insert(j as int, applied));
                        lemma_wf_after_node_update_sim(gpre, *self, j as int);
                    }
                }
            }
            j += 1;
        }
        proof {
            assert forall|m: int| #[trigger] self.node_models().dom().contains(m) implies m
                < j by {}
            lemma_repel_pass_absent(self.node_models(), i as int, j as int, dt as int, p);
        }
    }

    /// Applies the next step of the force graph simulation.
    ///
    /// `dt` is the elapsed time since the previous update, in ticks
    /// (`FP_SCALE` ticks are one second), and must be nonnegative.
    /// The outcome is exactly `spec_step` of the previous state: every
    /// live node visited in ascending identity order — attraction from
    /// its neighbors, repulsion against larger identities, immediate
    /// integration — with anchored nodes left in place.
    #[verifier::rlimit(50)]
    #[verifier::loop_isolation(false)]
    pub fn update(&mut self, dt: i64)
        requires
            old(self).wf(),
            old(self).sim_params().valid(),
            0 <= dt <= DT_LIMIT,
        ensures
            final(self).wf(),
            final(self).sim_params() == old(self).sim_params(),
            final(self).edge_models() == old(self).edge_models(),
            final(self).node_models() == spec_step(
                old(self).model(),
                dt as int,
                old(self).sim_params(),
            ).nodes,
            final(self).node_models().dom() == old(self).node_models().dom(),
            forall|id: int| #[trigger] old(self).node_models().dom().contains(id)
                && old(self).node_models()[id].anchor ==> {
                &&& final(self).node_models()[id].x == old(self).node_models()[id].x
                &&& final(self).node_models()[id].y == old(self).node_models()[id].y
                &&& final(self).node_models()[id].vx == old(self).node_models()[id].vx
                &&& final(self).node_models()[id].vy == old(self).node_models()[id].vy
            },
            forall|id: int| #[trigger] final(self).node_models().dom().contains(id)
                ==> final(self).node_models()[id].ax == 0 && final(self).node_models()[id].ay
                    == 0,
    {
        let ghost g0 = self.model();
        let p = self.parameters;
        let n = self.nodes.len();
        let mut i: usize = 0;
        while i < n
            invariant
                self.wf(),
                self.sim_params() == old(self).sim_params(),
                self.edges@ == old(self).edges@,
                self.nodes@.len() == n,
                forall|j: int| #![trigger self.nodes@[j]] 0 <= j < self.nodes@.len()
                    ==> (self.nodes@[j] is Some <==> old(self).nodes@[j] is Some),
                i <= n,
                spec_step_from(self.model(), i as int, dt as int, p) == spec_step_from(
                    g0,
                    0,
                    dt as int,
                    p,
                ),
            decreases n - i,
        {
            let ghost gv = self.model();
            if self.nodes[i].is_some() {
                self.attract_pass(i, dt);
                self.repel_pass(i, dt);
                let ghost gpre = *self;
                match &mut self.nodes[i] {
                    Some(nd) => {
                        if nd.data.is_anchor {
                            nd.ax = 0;
                            nd.ay = 0;
                        } else {
                            nd.update(dt, &p);
                        }
                    },
                    None => {},
                }
                proof {
                    let n2 = spec_repel_pass(
                        spec_attract_pass(gv.nodes, gv.edges, i as int, 0, dt as int, p),
                        i as int,
                        i as int + 1,
                        dt as int,
                        p,
                    );
                    assert(gpre.node_models() == n2);
                    assert(gpre.nodes@[i as int].unwrap().model() == n2[i as int]);
                    assert(self.node_models() =~= spec_visit(gv, i as int, dt as int, p).nodes);
                    assert(self.model().nodes == spec_visit(gv, i as int, dt as int, p).nodes);
                    assert(self.model().edges == spec_visit(gv, i as int, dt as int, p).edges);
                    assert(self.model() == spec_visit(gv, i as int, dt as int, p));
                    lemma_wf_after_node_update_sim(gpre, *self, i as int);
                }
            } else {
                proof {
                    assert(!gv.nodes.dom().contains(i as int));
                    assert(spec_visit(gv, i as int, dt as int, p) == gv);
                }
            }
            i += 1;
        }
        proof {
            assert forall|m: int| #[trigger] self.node_models().dom().contains(m) implies m
                < n by {}
            lemma_step_from_absent(self.model(), n as int, dt as int, p);
            assert forall|m: int| #[trigger] g0.nodes.dom().contains(m) implies model_wf(
                g0.nodes[m],
            ) by {}
            lemma_step_from_props(g0, 0, dt as int, p);
        }
    }
}

/// A node state with the user-modifiable data replaced and the engine's
/// own state (identity, velocity, accumulator) kept.
pub open spec fn replace_data<N>(n: NodeModel<N>, d: crate::node::NodeData<N>) -> NodeModel<N> {
    NodeModel {
        x: d.x as int,
        y: d.y as int,
        mass: d.mass as int,
        anchor: d.is_anchor,
        user: d.user_data,
        ..n
    }
}

impl<N, E> ForceGraph<N, E> {
    /// Processes each live node with a user-defined callback `cb`, in
    /// ascending identity order.
    #[verifier::loop_isolation(false)]
    pub fn visit_nodes<F: Fn(&crate::node::Node<N>)>(&self, cb: F)
        requires
            forall|j: int| #[trigger] self.slot_live(j) ==> call_requires(
                cb,
                (&self.node_at(j),),
            ),
    {
        let mut i: usize = 0;
        while i < self.nodes.len()
            invariant
                i <= self.nodes@.len(),
            decreases self.nodes@.len() - i,
        {
            match &self.nodes[i] {
                Some(n) => {
                    proof {
                        assert(self.slot_live(i as int));
                    }
                    cb(n)
                },
                None => {},
            }
            i += 1;
        }
    }

    /// Processes each edge together with both endpoint nodes and the edge
    /// payload, in insertion order.
    #[verifier::loop_isolation(false)]
    pub fn visit_edges<F: Fn(&crate::node::Node<N>, &crate::node::Node<N>, &crate::node::EdgeData<E>)>(
        &self,
        cb: F,
    )
        requires
            self.wf(),
            forall|n1: &crate::node::Node<N>, n2: &crate::node::Node<N>, e: &crate::node::EdgeData<
                E,
            >| #[trigger] call_requires(cb, (n1, n2, e)),
    {
        let mut k: usize = 0;
        while k < self.edges.len()
            invariant
                k <= self.edges@.len(),
            decreases self.edges@.len() - k,
        {
            let au = self.edges[k].a as usize;
            let bu = self.edges[k].b as usize;
            proof {
                assert(self.edge_models()[k as int].a == au as int);
                assert(self.edge_models()[k as int].b == bu as int);
                assert(self.slot_live(au as int) && self.slot_live(bu as int));
            }
            match (&self.nodes[au], &self.nodes[bu]) {
                (Some(n1), Some(n2)) => cb(n1, n2, &self.edges[k].data),
                _ => {},
            }
            k += 1;
        }
    }

    /// Replaces each live node's user data (position, mass, anchor flag
    /// and payload) with what the callback returns for it; the engine's
    /// own state — identity, velocity, force accumulator — is kept.
    #[verifier::rlimit(50)]
    #[verifier::loop_isolation(false)]
    pub fn visit_nodes_mut<F: Fn(&crate::node::Node<N>) -> crate::node::NodeData<N>>(
        &mut self,
        cb: F,
    )
        requires
            old(self).wf(),
            forall|j: int| #[trigger] old(self).slot_live(j) ==> call_requires(
                cb,
                (&old(self).node_at(j),),
            ),
            forall|x: &crate::node::Node<N>, d: crate::node::NodeData<N>| #[trigger] call_ensures(
                cb,
                (x,),
                d,
            ) ==> d.wf(),
        ensures
            final(self).wf(),
            final(self).sim_params() == old(self).sim_params(),
            final(self).edge_models() == old(self).edge_models(),
            final(self).node_models().dom() == old(self).node_models().dom(),
            forall|j: int| #[trigger] old(self).node_models().dom().contains(j) ==> exists|
                d: crate::node::NodeData<N>,
            |
                call_ensures(cb, (&old(self).node_at(j),), d)
                    && final(self).node_models()[j] == replace_data(
                    old(self).node_models()[j],
                    d,
                ),
    {
        let ghost mut wit: Map<int, crate::node::NodeData<N>> = Map::empty();
        let mut i: usize = 0;
        while i < self.nodes.len()
            invariant
                self.wf(),
                self.sim_params() == old(self).sim_params(),
                self.edges@ == old(self).edges@,
                self.nodes@.len() == old(self).nodes@.len(),
                i <= self.nodes@.len(),
                forall|j: int| #![trigger self.nodes@[j]] i <= j < self.nodes@.len()
                    ==> self.nodes@[j] == old(self).nodes@[j],
                forall|j: int| #![trigger self.nodes@[j]] 0 <= j < self.nodes@.len()
                    ==> (self.nodes@[j] is Some <==> old(self).nodes@[j] is Some),
                forall|j: int| #![trigger old(self).node_at(j)]
                    0 <= j < i && old(self).node_models().dom().contains(j)
                    ==> call_ensures(cb, (&old(self).node_at(j),), wit[j])
                        && self.node_models()[j] == replace_data(
                        old(self).node_models()[j],
                        wit[j],
                    ),
            decreases self.nodes@.len() - i,
        {
            let d = match &self.nodes[i] {
                Some(n) => {
                    proof {
                        assert(self.nodes@[i as int] == old(self).nodes@[i as int]);
                        assert(old(self).slot_live(i as int));
                    }
                    Some(cb(n))
                },
                None => None,
            };
            match d {
                Some(d) => {
                    let ghost gpre = *self;
                    let ghost mpre = self.node_models();
                    let ghost witpre = wit;
                    match &mut self.nodes[i] {
                        Some(nd) => nd.data = d,
                        None => {},
                    }
                    proof {
                        wit = wit.insert(i as int, d);
                        assert(self.nodes@[i as int].unwrap().model() == replace_data(
                            mpre[i as int],
                            d,
                        ));
                        assert(mpre[i as int] == old(self).node_models()[i as int]);
                        lemma_wf_after_node_update_sim(gpre, *self, i as int);
                        assert(self.node_models()[i as int] == replace_data(
                            old(self).node_models()[i as int],
                            d,
                        ));
                        assert(call_ensures(cb, (&old(self).node_at(i as int),), d));
                        assert forall|j: int| #![trigger old(self).node_at(j)]
                            0 <= j < i + 1 && old(self).node_models().dom().contains(j)
                            implies call_ensures(cb, (&old(self).node_at(j),), wit[j])
                                && self.node_models()[j] == replace_data(
                                old(self).node_models()[j],
                                wit[j],
                            ) by {
                            if j < i as int {
                                assert(call_ensures(cb, (&old(self).node_at(j),), witpre[j])
                                    && mpre[j] == replace_data(
                                    old(self).node_models()[j],
                                    witpre[j],
                                ));
                                assert(wit[j] == witpre[j]);
                                assert(self.node_models()[j] == mpre[j]);
                            } else {
                                assert(wit[j] == d);
                            }
                        }
                    }
                },
                None => {},
            }
            i += 1;
        }
        proof {
            assert(final(self).node_models().dom() =~= old(self).node_models().dom());
            assert forall|j: int| #[trigger]
                old(self).node_models().dom().contains(j) implies exists|
                dd: crate::node::NodeData<N>,
            |
                call_ensures(cb, (&old(self).node_at(j),), dd) && final(self).node_models()[j]
                    == replace_data(old(self).node_models()[j], dd) by {
                assert(call_ensures(cb, (&old(self).node_at(j),), wit[j]));
                assert(final(self).node_models()[j] == replace_data(
                    old(self).node_models()[j],
                    wit[j],
                ));
            }
        }
    }
}

/// Replacing one live node with another that keeps its identity and its
/// numeric ranges keeps the store invariant (edges and the other slots
/// untouched).
proof fn lemma_wf_after_node_update_sim<N, E>(
    pre: ForceGraph<N, E>,
    post: ForceGraph<N, E>,
    i: int,
)
    requires
        pre.wf(),
        post.nodes@.len() == pre.nodes@.len(),
        post.edges@ == pre.edges@,
        0 <= i < post.nodes@.len(),
        forall|j: int| 0 <= j < pre.nodes@.len() && j != i ==> post.nodes@[j] == pre.nodes@[j],
        post.nodes@[i] is Some,
        post.nodes@[i].unwrap().model().id == i,
        model_wf(post.nodes@[i].unwrap().model()),
    ensures
        post.wf(),
{
    assert forall|j: int| 0 <= j < post.nodes@.len() && (#[trigger] post.nodes@[j]) is Some
        implies ({
        let n = post.nodes@[j].unwrap();
        n.model().id == j && model_wf(n.model())
    }) by {
        if j != i {
            assert(post.nodes@[j] == pre.nodes@[j]);
        }
    }
    assert forall|k: int| 0 <= k < post.edge_models().len() implies ({
        let e = #[trigger] post.edge_models()[k];
        post.slot_live(e.a) && post.slot_live(e.b)
    }) by {
        assert(post.edge_models()[k] == pre.edge_models()[k]);
        let e = pre.edge_models()[k];
        assert(pre.slot_live(e.a) && pre.slot_live(e.b));
        if e.a != i {
            assert(post.nodes@[e.a] == pre.nodes@[e.a]);
        }
        if e.b != i {
            assert(post.nodes@[e.b] == pre.nodes@[e.b]);
        }
    }
    assert forall|k1: int, k2: int| 0 <= k1 < k2 < post.edge_models().len() implies !crate::graph::edge_matches(
        #[trigger] post.edge_models()[k1],
        (#[trigger] post.edge_models()[k2]).a,
        post.edge_models()[k2].b,
    ) by {
        assert(post.edge_models()[k1] == pre.edge_models()[k1]);
        assert(post.edge_models()[k2] == pre.edge_models()[k2]);
    }
}

/// An anchored node keeps its exact position and velocity across one
/// whole simulation step, whatever forces reach it.
pub proof fn lemma_anchor_fixed_step<N, E>(
    g: GraphModel<N, E>,
    dt: int,
    p: SimulationParameters,
    id: int,
)
    requires
        forall|m: int| #[trigger] g.nodes.dom().contains(m) ==> model_wf(g.nodes[m]),
        g.nodes.dom().contains(id),
        g.nodes[id].anchor,
    ensures
        spec_step(g, dt, p).nodes.dom().contains(id),
        spec_step(g, dt, p).nodes[id].x == g.nodes[id].x,
        spec_step(g, dt, p).nodes[id].y == g.nodes[id].y,
        spec_step(g, dt, p).nodes[id].vx == g.nodes[id].vx,
        spec_step(g, dt, p).nodes[id].vy == g.nodes[id].vy,
        spec_step(g, dt, p).nodes[id].anchor,
{
    lemma_step_from_props(g, 0, dt, p);
}

/// An anchored node keeps its exact position across any number of
/// simulation steps.
pub proof fn lemma_anchor_fixed_run<N, E>(
    g: GraphModel<N, E>,
    dt: int,
    p: SimulationParameters,
    n: nat,
    id: int,
)
    requires
        forall|m: int| #[trigger] g.nodes.dom().contains(m) ==> model_wf(g.nodes[m]),
        g.nodes.dom().contains(id),
        g.nodes[id].anchor,
    ensures
        spec_run(g, dt, p, n).nodes.dom().contains(id),
        spec_run(g, dt, p, n).nodes[id].x == g.nodes[id].x,
        spec_run(g, dt, p, n).nodes[id].y == g.nodes[id].y,
        spec_run(g, dt, p, n).nodes[id].anchor,
    decreases n,
{
    if n > 0 {
        lemma_anchor_fixed_step(g, dt, p, id);
        lemma_step_from_props(g, 0, dt, p);
        lemma_anchor_fixed_run(spec_step(g, dt, p), dt, p, (n - 1) as nat, id);
    }
}

} // verus!

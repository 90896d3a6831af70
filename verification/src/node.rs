//! Nodes, edges and the per-node integrator.

use vstd::prelude::*;

use crate::fixed::ACC_LIMIT;
use crate::fixed::DT_LIMIT;
use crate::fixed::FP_SCALE;
use crate::fixed::MASS_LIMIT;
use crate::fixed::POS_LIMIT;
use crate::fixed::VEL_SAT;
use crate::fixed::clamp_i128;
use crate::fixed::clamp_i64;
use crate::fixed::div_trunc;
use crate::fixed::mul_i128;
use crate::fixed::spec_clamp;
use crate::fixed::spec_div_trunc;
use crate::fixed::wide_mul;
use crate::params::SimulationParameters;

verus! {

/// Stores data associated with a node that can be modified by the user.
///
/// Positions and mass are fixed-point ticks (`FP_SCALE` per unit).
#[derive(Clone, Debug)]
pub struct NodeData<N = ()> {
    /// The horizontal position of the node, in ticks.
    pub x: i64,
    /// The vertical position of the node, in ticks.
    pub y: i64,
    /// The mass of the node, in ticks.
    ///
    /// Increasing the mass of a node increases the force with which it
    /// repels other nearby nodes.
    pub mass: i64,
    /// Whether the node is fixed to its current position.
    pub is_anchor: bool,
    /// Arbitrary user data.
    pub user_data: N,
}

impl<N> NodeData<N> {
    /// Position within `POS_LIMIT` and mass within `[0, MASS_LIMIT]`.
    pub open spec fn wf(&self) -> bool {
        &&& -POS_LIMIT <= self.x <= POS_LIMIT
        &&& -POS_LIMIT <= self.y <= POS_LIMIT
        &&& 0 <= self.mass <= MASS_LIMIT
    }
}

impl<N: Default> Default for NodeData<N> {
    /// A node at the origin with mass 10 units, not anchored.
    fn default() -> (d: Self)
        ensures
            d.x == 0i64,
            d.y == 0i64,
            d.mass == 10_000i64,
            !d.is_anchor,
            d.wf(),
    {
        NodeData {
            x: 0,
            y: 0,
            mass: 10_000,
            is_anchor: false,
            user_data: N::default(),
        }
    }
}

/// Stores data associated with an edge that can be modified by the user.
pub struct EdgeData<E = ()> {
    /// Arbitrary user data.
    pub user_data: E,
}

impl<E: Default> Default for EdgeData<E> {
    fn default() -> (d: Self) {
        EdgeData { user_data: E::default() }
    }
}

/// The mathematical state of one node: its identity, kinematic state in
/// ticks, mass, anchor flag and payload.
pub struct NodeModel<N> {
    pub id: int,
    pub x: int,
    pub y: int,
    pub vx: int,
    pub vy: int,
    pub ax: int,
    pub ay: int,
    pub mass: int,
    pub anchor: bool,
    pub user: N,
}

/// All kinematic components of a node model are within the engine's ranges.
pub open spec fn model_wf<N>(n: NodeModel<N>) -> bool {
    &&& -POS_LIMIT <= n.x <= POS_LIMIT
    &&& -POS_LIMIT <= n.y <= POS_LIMIT
    &&& -POS_LIMIT <= n.vx <= POS_LIMIT
    &&& -POS_LIMIT <= n.vy <= POS_LIMIT
    &&& -ACC_LIMIT <= n.ax <= ACC_LIMIT
    &&& -ACC_LIMIT <= n.ay <= ACC_LIMIT
    &&& 0 <= n.mass <= MASS_LIMIT
}

/// References a node in the [`ForceGraph`](crate::graph::ForceGraph).
/// Cannot be constructed by the user.
pub struct Node<N = ()> {
    /// The node data provided by the user.
    pub data: NodeData<N>,
    pub(crate) index: u8,
    pub(crate) vx: i64,
    pub(crate) vy: i64,
    pub(crate) ax: i64,
    pub(crate) ay: i64,
}

impl<N> Node<N> {
    /// The node's state as a mathematical value.
    pub open(crate) spec fn model(&self) -> NodeModel<N> {
        NodeModel {
            id: self.index as int,
            x: self.data.x as int,
            y: self.data.y as int,
            vx: self.vx as int,
            vy: self.vy as int,
            ax: self.ax as int,
            ay: self.ay as int,
            mass: self.data.mass as int,
            anchor: self.data.is_anchor,
            user: self.data.user_data,
        }
    }

    /// The horizontal position of the node, in ticks.
    pub fn x(&self) -> (r: i64)
        ensures
            r == self.model().x,
    {
        self.data.x
    }

    /// The vertical position of the node, in ticks.
    pub fn y(&self) -> (r: i64)
        ensures
            r == self.model().y,
    {
        self.data.y
    }

    /// The index used to reference the node in the graph.
    pub fn index(&self) -> (r: u8)
        ensures
            r == self.model().id,
    {
        self.index
    }
}

/// One force component folded into one accumulator component:
/// the component is clamped to `[-force_max, force_max]`, scaled by `dt`,
/// and the resulting accumulator is clamped to `ACC_LIMIT`.
pub open spec fn spec_apply_axis(acc: int, f: int, dt: int, p: SimulationParameters) -> int {
    let clamped = spec_clamp(f, -(p.force_max as int), p.force_max as int);
    spec_clamp(
        acc + spec_div_trunc(clamped * dt, FP_SCALE as int),
        -(ACC_LIMIT as int),
        ACC_LIMIT as int,
    )
}

/// A force vector folded into a node's accumulator; nothing else changes.
pub open spec fn spec_apply_force<N>(
    n: NodeModel<N>,
    fx: int,
    fy: int,
    dt: int,
    p: SimulationParameters,
) -> NodeModel<N> {
    NodeModel {
        ax: spec_apply_axis(n.ax, fx, dt, p),
        ay: spec_apply_axis(n.ay, fy, dt, p),
        ..n
    }
}

/// One axis of the velocity/position update:
/// `velocity += accumulator * dt * node_speed; velocity *= damping_factor;
/// position += velocity * dt`, with each result clamped to its range.
/// Returns the new (position, velocity).
pub open spec fn spec_axis(pos: int, vel: int, acc: int, dt: int, p: SimulationParameters) -> (
    int,
    int,
) {
    let gain = spec_div_trunc(
        acc * dt * (p.node_speed as int),
        (FP_SCALE as int) * (FP_SCALE as int),
    );
    let vsum = spec_clamp(vel + gain, -(VEL_SAT as int), VEL_SAT as int);
    let v2 = spec_clamp(
        spec_div_trunc(vsum * (p.damping_factor as int), FP_SCALE as int),
        -(POS_LIMIT as int),
        POS_LIMIT as int,
    );
    let p2 = spec_clamp(
        pos + spec_div_trunc(v2 * dt, FP_SCALE as int),
        -(POS_LIMIT as int),
        POS_LIMIT as int,
    );
    (p2, v2)
}

/// A full integration step of one node: both axes updated from the
/// accumulated force, then the accumulator reset to zero.
pub open spec fn spec_integrate<N>(n: NodeModel<N>, dt: int, p: SimulationParameters) -> NodeModel<
    N,
> {
    let xr = spec_axis(n.x, n.vx, n.ax, dt, p);
    let yr = spec_axis(n.y, n.vy, n.ay, dt, p);
    NodeModel { x: xr.0, vx: xr.1, y: yr.0, vy: yr.1, ax: 0, ay: 0, ..n }
}

/// The accumulator reset alone (used for anchored nodes).
pub open spec fn spec_reset_acc<N>(n: NodeModel<N>) -> NodeModel<N> {
    NodeModel { ax: 0, ay: 0, ..n }
}

/// Exec counterpart of `spec_apply_axis`.
fn apply_axis(acc: i64, f: i64, dt: i64, parameters: &SimulationParameters) -> (r: i64)
    requires
        parameters.valid(),
        0 <= dt <= DT_LIMIT,
    ensures
        r == spec_apply_axis(acc as int, f as int, dt as int, *parameters),
{
    let fm = parameters.force_max;
    let clamped = clamp_i64(f, -fm, fm);
    let scaled = div_trunc(wide_mul(clamped, dt), FP_SCALE as i128);
    clamp_i128((acc as i128) + scaled, -ACC_LIMIT, ACC_LIMIT)
}

/// Exec counterpart of `spec_axis`.
fn integrate_axis(pos: i64, vel: i64, acc: i64, dt: i64, parameters: &SimulationParameters) -> (r:
    (i64, i64))
    requires
        parameters.valid(),
        0 <= dt <= DT_LIMIT,
        -POS_LIMIT <= pos <= POS_LIMIT,
        -POS_LIMIT <= vel <= POS_LIMIT,
        -ACC_LIMIT <= acc <= ACC_LIMIT,
    ensures
        (r.0 as int, r.1 as int) == spec_axis(pos as int, vel as int, acc as int, dt as int, *parameters),
        -POS_LIMIT <= r.0 <= POS_LIMIT,
        -POS_LIMIT <= r.1 <= POS_LIMIT,
{
    let t1 = wide_mul(acc, dt);
    proof {
        assert((acc as int) * (dt as int) <= 1_000_000_000_000_000_000_000_000int
            && (acc as int) * (dt as int) >= -1_000_000_000_000_000_000_000_000int)
            by (nonlinear_arith)
            requires
                -1_000_000_000_000_000int <= acc as int <= 1_000_000_000_000_000int,
                0 <= dt as int <= 1_000_000_000int,
        ;
    }
    let t2 = mul_i128(t1, parameters.node_speed as i128);
    proof {
        assert((FP_SCALE as int) * (FP_SCALE as int) == 1_000_000int) by (nonlinear_arith);
    }
    let gain = div_trunc(t2, 1_000_000i128);
    let vsum = clamp_i128((vel as i128) + gain, -VEL_SAT, VEL_SAT);
    let t3 = mul_i128(vsum as i128, parameters.damping_factor as i128);
    let v2 = clamp_i128(div_trunc(t3, FP_SCALE as i128), -POS_LIMIT, POS_LIMIT);
    let t4 = div_trunc(wide_mul(v2, dt), FP_SCALE as i128);
    let p2 = clamp_i128((pos as i128) + t4, -POS_LIMIT, POS_LIMIT);
    (p2, v2)
}

impl<N> Node<N> {
    /// Fold one force vector into this node's accumulator.
    pub(crate) fn apply_force(
        &mut self,
        fx: i64,
        fy: i64,
        dt: i64,
        parameters: &SimulationParameters,
    )
        requires
            parameters.valid(),
            0 <= dt <= DT_LIMIT,
        ensures
            final(self).model() == spec_apply_force(
                old(self).model(),
                fx as int,
                fy as int,
                dt as int,
                *parameters,
            ),
    {
        self.ax = apply_axis(self.ax, fx, dt, parameters);
        self.ay = apply_axis(self.ay, fy, dt, parameters);
    }

    /// Advance this node's velocity and position by one step and reset the
    /// force accumulator.
    pub(crate) fn update(&mut self, dt: i64, parameters: &SimulationParameters)
        requires
            parameters.valid(),
            0 <= dt <= DT_LIMIT,
            model_wf(old(self).model()),
        ensures
            final(self).model() == spec_integrate(old(self).model(), dt as int, *parameters),
            model_wf(final(self).model()),
    {
        let xr = integrate_axis(self.data.x, self.vx, self.ax, dt, parameters);
        let yr = integrate_axis(self.data.y, self.vy, self.ay, dt, parameters);
        self.data.x = xr.0;
        self.vx = xr.1;
        self.data.y = yr.0;
        self.vy = yr.1;
        self.ax = 0;
        self.ay = 0;
    }
}

} // verus!

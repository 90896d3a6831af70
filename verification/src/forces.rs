//! The force model: spring attraction along edges and inverse-square
//! repulsion between all node pairs.
//!
//! Both functions are pure: they read two nodes' positions and masses and
//! return the force vector to apply to the first node. When the two nodes
//! coincide exactly, the distance is taken as one unit and the direction as
//! the positive x axis — a stability fallback, not a physical value.

use vstd::prelude::*;

use crate::fixed::FORCE_SAT;
use crate::fixed::FP_SCALE;
use crate::fixed::clamp_i128;
use crate::fixed::div_trunc;
use crate::fixed::isqrt_u128;
use crate::fixed::mul_i128;
use crate::fixed::spec_clamp;
use crate::fixed::spec_div_trunc;
use crate::fixed::spec_isqrt;
use crate::fixed::wide_mul;
use crate::node::Node;
use crate::node::NodeModel;
use crate::node::model_wf;
use crate::params::SimulationParameters;

verus! {

/// The saturated attraction strength at a given distance:
/// `force_spring * distance * 0.5` in ticks, truncated and saturated.
pub open spec fn spec_attract_strength(spring: int, dist: int) -> int {
    spec_clamp(
        spec_div_trunc(spring * dist, 2 * (FP_SCALE as int)),
        -(FORCE_SAT as int),
        FORCE_SAT as int,
    )
}

/// The saturated repulsion strength at a given distance:
/// `charge * m1 * m2 / distance²` in ticks, truncated and saturated.
/// The sign is applied by the caller (repulsion pushes apart).
pub open spec fn spec_repel_strength(charge: int, m1: int, m2: int, dist: int) -> int {
    spec_clamp(
        spec_div_trunc(charge * m1 * m2, dist * dist),
        -(FORCE_SAT as int),
        FORCE_SAT as int,
    )
}

/// One axis of a strength applied along the (unnormalised) offset `d` at
/// distance `dist`: `d * strength / dist`, truncated and saturated.
pub open spec fn spec_axis_component(d: int, strength: int, dist: int) -> int {
    spec_clamp(
        spec_div_trunc(d * strength, dist),
        -(FORCE_SAT as int),
        FORCE_SAT as int,
    )
}

/// The attraction force on `a` toward `b`: directed along the offset from
/// `a` to `b`, with magnitude `spec_attract_strength` at their distance.
pub open spec fn spec_attract<N>(a: NodeModel<N>, b: NodeModel<N>, p: SimulationParameters) -> (
    int,
    int,
) {
    let dx = b.x - a.x;
    let dy = b.y - a.y;
    if dx == 0 && dy == 0 {
        (spec_attract_strength(p.force_spring as int, FP_SCALE as int), 0)
    } else {
        let dist = spec_isqrt(dx * dx + dy * dy);
        let strength = spec_attract_strength(p.force_spring as int, dist);
        (spec_axis_component(dx, strength, dist), spec_axis_component(dy, strength, dist))
    }
}

/// The repulsion force on `a` away from `b`: directed against the offset
/// from `a` to `b`, with magnitude `spec_repel_strength` at their distance.
pub open spec fn spec_repel<N>(a: NodeModel<N>, b: NodeModel<N>, p: SimulationParameters) -> (
    int,
    int,
) {
    let dx = b.x - a.x;
    let dy = b.y - a.y;
    if dx == 0 && dy == 0 {
        (-spec_repel_strength(p.force_charge as int, a.mass, b.mass, FP_SCALE as int), 0)
    } else {
        let dist = spec_isqrt(dx * dx + dy * dy);
        let strength = spec_repel_strength(p.force_charge as int, a.mass, b.mass, dist);
        (-spec_axis_component(dx, strength, dist), -spec_axis_component(dy, strength, dist))
    }
}

/// Distance facts for two in-range offsets: the squared length fits well
/// inside `u128`, and its root is at least 1 and at most 3·10¹².
proof fn lemma_offset_geometry(dx: int, dy: int)
    requires
        -2_000_000_000_000 <= dx <= 2_000_000_000_000,
        -2_000_000_000_000 <= dy <= 2_000_000_000_000,
        !(dx == 0 && dy == 0),
    ensures
        1 <= dx * dx + dy * dy <= 8_000_000_000_000_000_000_000_000,
        1 <= spec_isqrt(dx * dx + dy * dy) <= 3_000_000_000_000,
{
    assert(1 <= dx * dx + dy * dy <= 8_000_000_000_000_000_000_000_000int) by (nonlinear_arith)
        requires
            -2_000_000_000_000int <= dx <= 2_000_000_000_000int,
            -2_000_000_000_000int <= dy <= 2_000_000_000_000int,
            !(dx == 0 && dy == 0),
    ;
    let n = dx * dx + dy * dy;
    crate::fixed::lemma_isqrt_exists(n);
    let r = spec_isqrt(n);
    assert(r >= 0 && r * r <= n && n < (r + 1) * (r + 1));
    assert(r >= 1 && r <= 3_000_000_000_000int) by (nonlinear_arith)
        requires
            r >= 0,
            r * r <= n,
            n < (r + 1) * (r + 1),
            1 <= n <= 8_000_000_000_000_000_000_000_000int,
    ;
}

/// Computes the attraction force of `n1` toward `n2`.
///
/// Attraction applies once per edge endpoint: each endpoint pulls itself
/// toward the other on its own visit, so no negated force is applied here.
pub fn attract_nodes<N>(n1: &Node<N>, n2: &Node<N>, parameters: &SimulationParameters) -> (f: (
    i64,
    i64,
))
    requires
        parameters.valid(),
        model_wf(n1.model()),
        model_wf(n2.model()),
    ensures
        (f.0 as int, f.1 as int) == spec_attract(n1.model(), n2.model(), *parameters),
        -FORCE_SAT <= f.0 <= FORCE_SAT,
        -FORCE_SAT <= f.1 <= FORCE_SAT,
{
    let dx = n2.data.x - n1.data.x;
    let dy = n2.data.y - n1.data.y;
    let spring = parameters.force_spring;
    if dx == 0 && dy == 0 {
        let strength = clamp_i128(
            div_trunc(wide_mul(spring, FP_SCALE), 2 * (FP_SCALE as i128)),
            -FORCE_SAT,
            FORCE_SAT,
        );
        (strength, 0)
    } else {
        let sqx = wide_mul(dx, dx);
        let sqy = wide_mul(dy, dy);
        proof {
            lemma_offset_geometry(dx as int, dy as int);
        }
        let dist64 = isqrt_u128((sqx + sqy) as u128);
        let dist = dist64 as i64;
        let strength = clamp_i128(
            div_trunc(wide_mul(spring, dist), 2 * (FP_SCALE as i128)),
            -FORCE_SAT,
            FORCE_SAT,
        );
        let fx = clamp_i128(div_trunc(wide_mul(dx, strength), dist as i128), -FORCE_SAT, FORCE_SAT);
        let fy = clamp_i128(div_trunc(wide_mul(dy, strength), dist as i128), -FORCE_SAT, FORCE_SAT);
        (fx, fy)
    }
}

/// Computes the repulsion force of `n1` away from `n2`; the caller applies
/// the negated vector to `n2`.
pub fn repel_nodes<N>(n1: &Node<N>, n2: &Node<N>, parameters: &SimulationParameters) -> (f: (
    i64,
    i64,
))
    requires
        parameters.valid(),
        model_wf(n1.model()),
        model_wf(n2.model()),
    ensures
        (f.0 as int, f.1 as int) == spec_repel(n1.model(), n2.model(), *parameters),
        -FORCE_SAT <= f.0 <= FORCE_SAT,
        -FORCE_SAT <= f.1 <= FORCE_SAT,
{
    let dx = n2.data.x - n1.data.x;
    let dy = n2.data.y - n1.data.y;
    let charge = parameters.force_charge;
    let m1 = n1.data.mass;
    let m2 = n2.data.mass;
    proof {
        assert((charge as int) * (m1 as int) <= 1_000_000_000_000_000_000_000int
            && (charge as int) * (m1 as int) >= 0) by (nonlinear_arith)
            requires
                0 <= charge as int <= 1_000_000_000_000int,
                0 <= m1 as int <= 1_000_000_000int,
        ;
    }
    let num = mul_i128(wide_mul(charge, m1), m2 as i128);
    if dx == 0 && dy == 0 {
        proof {
            assert((FP_SCALE as int) * (FP_SCALE as int) == 1_000_000int) by (nonlinear_arith);
        }
        let mag = clamp_i128(div_trunc(num, 1_000_000i128), -FORCE_SAT, FORCE_SAT);
        (-mag, 0)
    } else {
        let sqx = wide_mul(dx, dx);
        let sqy = wide_mul(dy, dy);
        proof {
            lemma_offset_geometry(dx as int, dy as int);
        }
        let dist64 = isqrt_u128((sqx + sqy) as u128);
        let dist = dist64 as i64;
        let d2 = wide_mul(dist, dist);
        proof {
            assert((dist as int) * (dist as int) >= 1) by (nonlinear_arith)
                requires
                    dist as int >= 1,
            ;
        }
        let mag = clamp_i128(div_trunc(num, d2), -FORCE_SAT, FORCE_SAT);
        let fx = clamp_i128(div_trunc(wide_mul(dx, mag), dist as i128), -FORCE_SAT, FORCE_SAT);
        let fy = clamp_i128(div_trunc(wide_mul(dy, mag), dist as i128), -FORCE_SAT, FORCE_SAT);
        (-fx, -fy)
    }
}

/// Repulsion falls off monotonically with distance: for fixed positive
/// masses and charge and distances `0 < d1 < d2`, the computed fixed-point
/// magnitude never increases, and the exact magnitudes
/// `charge·m1·m2 / d²` — compared as rationals by cross-multiplying with
/// the positive denominators — strictly decrease.
pub proof fn lemma_repulsion_falloff(charge: int, m1: int, m2: int, d1: int, d2: int)
    requires
        charge > 0,
        m1 > 0,
        m2 > 0,
        0 < d1 < d2,
    ensures
        spec_repel_strength(charge, m1, m2, d2) <= spec_repel_strength(charge, m1, m2, d1),
        (charge * m1 * m2) * (d1 * d1) < (charge * m1 * m2) * (d2 * d2),
{
    let num = charge * m1 * m2;
    assert(num >= 1 && 1 <= d1 * d1 && d1 * d1 < d2 * d2) by (nonlinear_arith)
        requires
            num == charge * m1 * m2,
            charge > 0,
            m1 > 0,
            m2 > 0,
            0 < d1 < d2,
    ;
    assert(num * (d1 * d1) < num * (d2 * d2)) by (nonlinear_arith)
        requires
            num >= 1,
            1 <= d1 * d1,
            d1 * d1 < d2 * d2,
    ;
    vstd::arithmetic::div_mod::lemma_div_is_ordered_by_denominator(num, d1 * d1, d2 * d2);
}

/// Attraction grows monotonically with distance: for a fixed positive
/// spring constant and distances `0 < d1 < d2`, the computed fixed-point
/// strength never decreases, and the exact magnitudes
/// `spring·d/2` strictly increase.
pub proof fn lemma_attraction_growth(spring: int, d1: int, d2: int)
    requires
        spring > 0,
        0 < d1 < d2,
    ensures
        spec_attract_strength(spring, d1) <= spec_attract_strength(spring, d2),
        spring * d1 < spring * d2,
{
    assert(0 <= spring * d1 && spring * d1 < spring * d2) by (nonlinear_arith)
        requires
            spring > 0,
            0 < d1 < d2,
    ;
    vstd::arithmetic::div_mod::lemma_div_is_ordered(spring * d1, spring * d2, 2 * (FP_SCALE as int));
}

} // verus!

//! Tests for the force model: exact values, falloff and growth.

use force_graph_rs::EdgeData;
use force_graph_rs::ForceGraph;
use force_graph_rs::NodeData;
use force_graph_rs::SimulationParameters;
use force_graph_rs::attract_nodes;
use force_graph_rs::repel_nodes;
use std::cell::RefCell;

/// Builds a two-node graph at the given tick positions, connected by an
/// edge, and hands both nodes to the force functions.
fn forces_at(
    x1: i64,
    y1: i64,
    x2: i64,
    y2: i64,
    mass1: i64,
    mass2: i64,
) -> ((i64, i64), (i64, i64)) {
    let p = SimulationParameters::default();
    let mut g: ForceGraph = ForceGraph::new(SimulationParameters::default());
    let a = g.add_node(NodeData { x: x1, y: y1, mass: mass1, is_anchor: false, user_data: () })
        .unwrap();
    let b = g.add_node(NodeData { x: x2, y: y2, mass: mass2, is_anchor: false, user_data: () })
        .unwrap();
    g.add_edge(a, b, EdgeData { user_data: () });
    let out: RefCell<((i64, i64), (i64, i64))> = RefCell::new(((0, 0), (0, 0)));
    g.visit_edges(|n1, n2, _e| {
        let r = repel_nodes(n1, n2, &p);
        let t = attract_nodes(n1, n2, &p);
        *out.borrow_mut() = (r, t);
    });
    out.into_inner()
}

#[test]
fn repulsion_at_ten_units_is_exact() {
    // charge * m1 * m2 / d^2 = 12000 * 10 * 10 / 100 = 12000 units,
    // pushing the first node toward negative x.
    let (repel, attract) = forces_at(0, 0, 10_000, 0, 10_000, 10_000);
    assert_eq!(repel, (-12_000_000, 0));
    // spring * d * 0.5 = 0.3 * 10 * 0.5 = 1.5 units, toward positive x.
    assert_eq!(attract, (1_500, 0));
}

#[test]
fn coincident_nodes_use_unit_distance_fallback() {
    // distance treated as one unit, direction the positive x axis:
    // repulsion 12000 * 10 * 10 / 1 = 1200000 units, attraction 0.15.
    let (repel, attract) = forces_at(7_000, -3_000, 7_000, -3_000, 10_000, 10_000);
    assert_eq!(repel, (-1_200_000_000, 0));
    assert_eq!(attract, (150, 0));
}

#[test]
fn repulsion_falls_off_with_distance() {
    let (r10, _) = forces_at(0, 0, 10_000, 0, 10_000, 10_000);
    let (r20, _) = forces_at(0, 0, 20_000, 0, 10_000, 10_000);
    let (r40, _) = forces_at(0, 0, 40_000, 0, 10_000, 10_000);
    assert_eq!(r10.0, -12_000_000);
    assert_eq!(r20.0, -3_000_000);
    assert_eq!(r40.0, -750_000);
    assert!(r10.0.abs() > r20.0.abs());
    assert!(r20.0.abs() > r40.0.abs());
}

#[test]
fn attraction_grows_with_distance() {
    let (_, a10) = forces_at(0, 0, 10_000, 0, 10_000, 10_000);
    let (_, a20) = forces_at(0, 0, 20_000, 0, 10_000, 10_000);
    let (_, a40) = forces_at(0, 0, 40_000, 0, 10_000, 10_000);
    assert_eq!(a10.0, 1_500);
    assert_eq!(a20.0, 3_000);
    assert_eq!(a40.0, 6_000);
    assert!(a10.0 < a20.0 && a20.0 < a40.0);
}

#[test]
fn heavier_nodes_repel_more_strongly() {
    let (light, _) = forces_at(0, 0, 10_000, 0, 10_000, 10_000);
    let (heavy, _) = forces_at(0, 0, 10_000, 0, 20_000, 10_000);
    assert_eq!(heavy.0, 2 * light.0);
}

#[test]
fn forces_point_along_the_offset() {
    // nodes separated along y only: x components are zero
    let (repel, attract) = forces_at(0, 0, 0, 10_000, 10_000, 10_000);
    assert_eq!(repel, (0, -12_000_000));
    assert_eq!(attract, (0, 1_500));
}

//! Tests for parameters, node data defaults, and the visitor API.

use force_graph_rs::ForceGraph;
use force_graph_rs::NodeData;
use force_graph_rs::SimulationParameters;
use std::cell::RefCell;

#[test]
fn default_parameters_match_the_stock_set() {
    let p = SimulationParameters::default();
    assert_eq!(p.force_charge, 12_000_000);
    assert_eq!(p.force_spring, 300);
    assert_eq!(p.force_max, 280_000);
    assert_eq!(p.node_speed, 7_000_000);
    assert_eq!(p.damping_factor, 950);
}

#[test]
fn default_node_data_is_origin_mass_ten() {
    let d: NodeData<()> = NodeData::default();
    assert_eq!((d.x, d.y, d.mass, d.is_anchor), (0, 0, 10_000, false));
}

#[test]
fn visit_nodes_sees_every_live_node() {
    let mut g: ForceGraph<i32, ()> = ForceGraph::new(SimulationParameters::default());
    let a = g
        .add_node(NodeData { x: 1_000, y: 2_000, mass: 10_000, is_anchor: false, user_data: 7 })
        .unwrap();
    let b = g
        .add_node(NodeData { x: 3_000, y: 4_000, mass: 10_000, is_anchor: false, user_data: 8 })
        .unwrap();
    g.remove_node(a);
    let seen: RefCell<Vec<(u8, i64, i64, i32)>> = RefCell::new(Vec::new());
    g.visit_nodes(|n| {
        seen.borrow_mut().push((n.index(), n.x(), n.y(), n.data.user_data));
    });
    assert_eq!(seen.into_inner(), vec![(b, 3_000, 4_000, 8)]);
}

#[test]
fn visit_nodes_mut_overrides_position() {
    let mut g: ForceGraph = ForceGraph::new(SimulationParameters::default());
    let a = g
        .add_node(NodeData { x: 0, y: 0, mass: 10_000, is_anchor: false, user_data: () })
        .unwrap();
    g.visit_nodes_mut(|n| NodeData {
        x: n.x() + 5_000,
        y: 6_000,
        mass: n.data.mass,
        is_anchor: n.data.is_anchor,
        user_data: n.data.user_data,
    });
    assert_eq!(g.get_node_position(a), Some((5_000, 6_000)));
}

#[test]
fn visit_nodes_mut_can_toggle_anchors() {
    let mut g: ForceGraph = ForceGraph::new(SimulationParameters::default());
    let a = g
        .add_node(NodeData { x: 0, y: 0, mass: 10_000, is_anchor: false, user_data: () })
        .unwrap();
    let b = g
        .add_node(NodeData { x: 10_000, y: 0, mass: 10_000, is_anchor: false, user_data: () })
        .unwrap();
    g.visit_nodes_mut(|n| NodeData {
        x: n.x(),
        y: n.y(),
        mass: n.data.mass,
        is_anchor: n.index() == a,
        user_data: n.data.user_data,
    });
    g.update(10);
    // the newly anchored node stays; the other is pushed away
    assert_eq!(g.get_node_position(a), Some((0, 0)));
    assert_eq!(g.get_node_position(b), Some((11_862, 0)));
}

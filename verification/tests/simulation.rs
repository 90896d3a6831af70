//! Tests for the simulation step: scenarios, anchors, determinism.

use force_graph_rs::EdgeData;
use force_graph_rs::ForceGraph;
use force_graph_rs::NodeData;
use force_graph_rs::SimulationParameters;

fn data_at(x: i64, y: i64) -> NodeData<()> {
    NodeData { x, y, mass: 10_000, is_anchor: false, user_data: () }
}

fn anchor_at(x: i64, y: i64) -> NodeData<()> {
    NodeData { x, y, mass: 10_000, is_anchor: true, user_data: () }
}

#[test]
fn two_unconnected_nodes_repel_symmetrically() {
    // nodes at (0,0) and (10,0) units, no edge, dt = 0.01 s: they repel
    // along the x axis by exactly 1.862 units each, y stays zero.
    let mut g: ForceGraph = ForceGraph::new(SimulationParameters::default());
    let a = g.add_node(data_at(0, 0)).unwrap();
    let b = g.add_node(data_at(10_000, 0)).unwrap();
    g.update(10);
    let (ax, ay) = g.get_node_position(a).unwrap();
    let (bx, by) = g.get_node_position(b).unwrap();
    assert!(ax < 0);
    assert!(bx > 10_000);
    assert_eq!(ay, 0);
    assert_eq!(by, 0);
    assert_eq!((ax, bx), (-1_862, 11_862));
    assert_eq!(ax, 10_000 - bx);
}

#[test]
fn anchored_node_never_moves() {
    let mut g: ForceGraph = ForceGraph::new(SimulationParameters::default());
    let a = g.add_node(anchor_at(-100_000, 0)).unwrap();
    let b = g.add_node(data_at(0, 0)).unwrap();
    g.add_edge(a, b, EdgeData { user_data: () });
    for _ in 0..50 {
        g.update(10);
    }
    assert_eq!(g.get_node_position(a), Some((-100_000, 0)));
    // the free node, under nonzero net force and dt > 0, did move
    assert_ne!(g.get_node_position(b), Some((0, 0)));
}

#[test]
fn anchored_pair_reaches_a_bounded_equilibrium() {
    // an anchor at (-100,0) and a free node at (0,0), connected: the free
    // node settles near 200 units from the anchor (attraction and
    // repulsion balance), neither diverging nor collapsing onto it.
    let mut g: ForceGraph = ForceGraph::new(SimulationParameters::default());
    let a = g.add_node(anchor_at(-100_000, 0)).unwrap();
    let b = g.add_node(data_at(0, 0)).unwrap();
    g.add_edge(a, b, EdgeData { user_data: () });
    for _ in 0..600 {
        g.update(10);
    }
    assert_eq!(g.get_node_position(a), Some((-100_000, 0)));
    let (bx, by) = g.get_node_position(b).unwrap();
    assert_eq!(by, 0);
    let distance = bx - (-100_000);
    assert!(distance > 190_000, "distance collapsed: {distance}");
    assert!(distance < 210_000, "distance diverged: {distance}");
}

#[test]
fn connected_distant_nodes_move_closer() {
    // at 400 units the spring (60 units of force) dominates repulsion
    // (7.5 units), so the pair contracts over repeated steps.
    let mut g: ForceGraph = ForceGraph::new(SimulationParameters::default());
    let a = g.add_node(data_at(0, 0)).unwrap();
    let b = g.add_node(data_at(400_000, 0)).unwrap();
    g.add_edge(a, b, EdgeData { user_data: () });
    for _ in 0..50 {
        g.update(10);
    }
    let (ax, _) = g.get_node_position(a).unwrap();
    let (bx, _) = g.get_node_position(b).unwrap();
    assert!(bx - ax < 400_000);
    assert!(bx - ax > 0);
}

#[test]
fn zero_dt_changes_nothing() {
    let mut g: ForceGraph = ForceGraph::new(SimulationParameters::default());
    let a = g.add_node(data_at(0, 0)).unwrap();
    let b = g.add_node(data_at(10_000, 0)).unwrap();
    g.update(0);
    assert_eq!(g.get_node_position(a), Some((0, 0)));
    assert_eq!(g.get_node_position(b), Some((10_000, 0)));
}

#[test]
fn update_on_empty_graph_is_a_no_op() {
    let mut g: ForceGraph = ForceGraph::new(SimulationParameters::default());
    g.update(10);
    assert_eq!(g.get_nodes_indices(), Vec::<u8>::new());
}

#[test]
fn simulation_is_deterministic() {
    let build = || {
        let mut g: ForceGraph = ForceGraph::new(SimulationParameters::default());
        let a = g.add_node(data_at(0, 0)).unwrap();
        let b = g.add_node(data_at(30_000, 10_000)).unwrap();
        let c = g.add_node(data_at(-20_000, 25_000)).unwrap();
        g.add_edge(a, b, EdgeData { user_data: () });
        g.add_edge(b, c, EdgeData { user_data: () });
        g
    };
    let mut g1 = build();
    let mut g2 = build();
    for _ in 0..20 {
        g1.update(16);
        g2.update(16);
    }
    for id in g1.get_nodes_indices() {
        assert_eq!(g1.get_node_position(id), g2.get_node_position(id));
    }
}

#[test]
fn anchored_node_still_pushes_others() {
    let mut g: ForceGraph = ForceGraph::new(SimulationParameters::default());
    let a = g.add_node(anchor_at(0, 0)).unwrap();
    let b = g.add_node(data_at(10_000, 0)).unwrap();
    g.update(10);
    assert_eq!(g.get_node_position(a), Some((0, 0)));
    assert_eq!(g.get_node_position(b), Some((11_862, 0)));
}

#[test]
fn three_node_chain_follows_the_fixed_traversal_order() {
    // an asymmetric chain stepped twice: the exact outcome depends on the
    // ascending-identity traversal and per-node integration, so these
    // positions pin the whole step down to the tick
    let mut g: ForceGraph = ForceGraph::new(SimulationParameters::default());
    let a = g.add_node(data_at(0, 0)).unwrap();
    let b = g.add_node(data_at(30_000, 10_000)).unwrap();
    let c = g.add_node(data_at(-20_000, 25_000)).unwrap();
    g.add_edge(a, b, EdgeData { user_data: () });
    g.add_edge(b, c, EdgeData { user_data: () });
    g.update(16);
    assert_eq!(g.get_node_position(a), Some((120, -15_214)));
    assert_eq!(g.get_node_position(b), Some((44_930, 14_138)));
    assert_eq!(g.get_node_position(c), Some((-34_989, 36_028)));
    g.update(16);
    assert_eq!(g.get_node_position(a), Some((-2_422, -42_777)));
    assert_eq!(g.get_node_position(b), Some((70_814, 22_911)));
    assert_eq!(g.get_node_position(c), Some((-58_176, 54_696)));
}

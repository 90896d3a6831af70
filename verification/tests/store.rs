//! Tests for the graph store: identities, edges, containment, removal.

use force_graph_rs::CapacityError;
use force_graph_rs::EdgeData;
use force_graph_rs::ForceGraph;
use force_graph_rs::NodeData;
use force_graph_rs::SimulationParameters;
use std::cell::RefCell;

fn data_at(x: i64, y: i64) -> NodeData<()> {
    NodeData { x, y, mass: 10_000, is_anchor: false, user_data: () }
}

#[test]
fn add_node_then_contains_then_remove() {
    let mut g: ForceGraph = ForceGraph::new(SimulationParameters::default());
    let id = g.add_node(data_at(1_000, 2_000)).unwrap();
    assert!(g.contains_node(id));
    assert_eq!(g.get_node_position(id), Some((1_000, 2_000)));
    g.remove_node(id);
    assert!(!g.contains_node(id));
    assert_eq!(g.get_node_position(id), None);
}

#[test]
fn node_ids_track_insertions_and_removals() {
    let mut g: ForceGraph = ForceGraph::new(SimulationParameters::default());
    let a = g.add_node(data_at(0, 0)).unwrap();
    let b = g.add_node(data_at(1_000, 0)).unwrap();
    let c = g.add_node(data_at(2_000, 0)).unwrap();
    assert_eq!((a, b, c), (0, 1, 2));
    assert_eq!(g.get_nodes_indices(), vec![0, 1, 2]);
    g.remove_node(b);
    assert_eq!(g.get_nodes_indices(), vec![0, 2]);
    // an identity never created is not reported
    assert!(!g.contains_node(77));
    // the smallest free identity is reused
    let d = g.add_node(data_at(3_000, 0)).unwrap();
    assert_eq!(d, 1);
    assert_eq!(g.get_nodes_indices(), vec![0, 1, 2]);
}

#[test]
fn remove_node_removes_incident_edges() {
    let mut g: ForceGraph<(), i32> = ForceGraph::new(SimulationParameters::default());
    let a = g.add_node(data_at(0, 0)).unwrap();
    let b = g.add_node(data_at(1_000, 0)).unwrap();
    let c = g.add_node(data_at(2_000, 0)).unwrap();
    g.add_edge(a, b, EdgeData { user_data: 1 });
    g.add_edge(b, c, EdgeData { user_data: 2 });
    g.add_edge(a, c, EdgeData { user_data: 3 });
    g.remove_node(b);
    let pairs = g.get_edges_indices();
    assert_eq!(pairs, vec![(a, c)]);
    assert!(!g.contains_edge(a, b));
    assert!(!g.contains_edge(b, c));
    assert!(g.contains_edge(a, c));
}

#[test]
fn removals_are_idempotent() {
    let mut g: ForceGraph<(), i32> = ForceGraph::new(SimulationParameters::default());
    let a = g.add_node(data_at(0, 0)).unwrap();
    let b = g.add_node(data_at(5_000, 0)).unwrap();
    g.add_edge(a, b, EdgeData { user_data: 9 });
    g.remove_edge(a, b);
    let ids_once = g.get_nodes_indices();
    let pairs_once = g.get_edges_indices();
    g.remove_edge(a, b);
    assert_eq!(g.get_nodes_indices(), ids_once);
    assert_eq!(g.get_edges_indices(), pairs_once);
    g.remove_node(b);
    let ids_after = g.get_nodes_indices();
    g.remove_node(b);
    assert_eq!(g.get_nodes_indices(), ids_after);
    assert_eq!(ids_after, vec![a]);
}

#[test]
fn add_edge_twice_keeps_one_edge_with_new_payload() {
    let mut g: ForceGraph<(), &'static str> = ForceGraph::new(SimulationParameters::default());
    let a = g.add_node(data_at(0, 0)).unwrap();
    let b = g.add_node(data_at(1_000, 0)).unwrap();
    g.add_edge(a, b, EdgeData { user_data: "first" });
    g.add_edge(a, b, EdgeData { user_data: "second" });
    assert_eq!(g.get_edges_indices(), vec![(a, b)]);
    let seen: RefCell<Vec<(u8, u8, &'static str)>> = RefCell::new(Vec::new());
    g.visit_edges(|n1, n2, e| {
        seen.borrow_mut().push((n1.index(), n2.index(), e.user_data));
    });
    assert_eq!(seen.into_inner(), vec![(a, b, "second")]);
}

#[test]
fn add_edge_reversed_updates_same_edge() {
    let mut g: ForceGraph<(), i32> = ForceGraph::new(SimulationParameters::default());
    let a = g.add_node(data_at(0, 0)).unwrap();
    let b = g.add_node(data_at(1_000, 0)).unwrap();
    g.add_edge(a, b, EdgeData { user_data: 1 });
    g.add_edge(b, a, EdgeData { user_data: 2 });
    assert_eq!(g.get_edges_indices(), vec![(a, b)]);
    assert!(g.contains_edge(a, b));
    assert!(g.contains_edge(b, a));
}

#[test]
fn capacity_is_exactly_256_nodes() {
    let mut g: ForceGraph = ForceGraph::new(SimulationParameters::default());
    for expected in 0..=255u32 {
        let id = g.add_node(data_at(0, 0)).unwrap();
        assert_eq!(id as u32, expected);
    }
    assert_eq!(g.add_node(data_at(0, 0)), Err(CapacityError));
    // after a removal there is room again
    g.remove_node(17);
    assert_eq!(g.add_node(data_at(0, 0)), Ok(17));
}

#[test]
fn clear_drops_everything() {
    let mut g: ForceGraph<(), i32> = ForceGraph::new(SimulationParameters::default());
    let a = g.add_node(data_at(0, 0)).unwrap();
    let b = g.add_node(data_at(1_000, 0)).unwrap();
    g.add_edge(a, b, EdgeData { user_data: 5 });
    g.clear();
    assert_eq!(g.get_nodes_indices(), Vec::<u8>::new());
    assert_eq!(g.get_edges_indices(), Vec::<(u8, u8)>::new());
    assert!(!g.contains_node(a));
}

#[test]
fn self_loop_is_stored_but_exerts_no_force() {
    let mut g: ForceGraph = ForceGraph::new(SimulationParameters::default());
    let a = g.add_node(data_at(4_000, 5_000)).unwrap();
    g.add_edge(a, a, EdgeData { user_data: () });
    assert!(g.contains_edge(a, a));
    g.update(10);
    assert_eq!(g.get_node_position(a), Some((4_000, 5_000)));
}

#[test]
fn reused_identity_does_not_resurrect_edges() {
    let mut g: ForceGraph<(), i32> = ForceGraph::new(SimulationParameters::default());
    let a = g.add_node(data_at(0, 0)).unwrap();
    let b = g.add_node(data_at(1_000, 0)).unwrap();
    g.add_edge(a, b, EdgeData { user_data: 4 });
    g.remove_node(b);
    let b2 = g.add_node(data_at(9_000, 0)).unwrap();
    assert_eq!(b2, b);
    assert!(!g.contains_edge(a, b2));
    assert_eq!(g.get_edges_indices(), Vec::<(u8, u8)>::new());
}

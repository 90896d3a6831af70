//! A force-directed graph layout engine.
//!
//! The engine keeps a dynamically changing set of nodes and edges, assigns
//! each node a 2-D position, and advances the layout one discrete step at a
//! time so that connected nodes cluster and unconnected nodes repel.
//!
//! All quantities (positions, velocities, forces, parameters, elapsed time)
//! are fixed-point numbers: an `i64` holding the value scaled by `FP_SCALE`
//! thousandths. This keeps every step of the simulation exactly specified.

pub mod fixed;
pub mod laws;
pub mod forces;
pub mod graph;
pub mod node;
pub mod params;
pub mod sim;

pub use graph::CapacityError;
pub use graph::DefaultNodeIdx;
pub use graph::ForceGraph;

pub use forces::attract_nodes;
pub use forces::repel_nodes;

pub use node::EdgeData;
pub use node::Node;
pub use node::NodeData;
pub use params::SimulationParameters;

pub use fixed::FP_SCALE;
pub use fixed::POS_LIMIT;
pub use fixed::MASS_LIMIT;
pub use fixed::PARAM_LIMIT;
pub use fixed::DT_LIMIT;
pub use fixed::ACC_LIMIT;
pub use fixed::FORCE_SAT;

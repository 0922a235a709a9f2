//! Traffic of messages on connected undirected graphs: the graph model, the
//! per-vertex and per-edge dynamics, the routing rules and the observers.
pub mod edge_list;
pub mod graph_dynamics;
pub mod graph_structure;
pub mod observers;
pub mod random_engine;
pub mod schema;
pub mod simulation;
pub mod tracker;

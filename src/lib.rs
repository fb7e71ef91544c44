//! Replaying recorded state changes forward and backward: events compile to
//! reversible operations over a node graph, and a cursor moves through them.
pub mod change;
pub mod event;
pub mod graph;
pub mod history;
pub mod math;
pub mod node;
pub mod op;
pub mod state;

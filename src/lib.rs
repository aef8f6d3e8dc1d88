//! Shortest hop counts from position 0 on a line of positions where every
//! position also carries one shortcut edge to another position.

pub mod graph;
pub mod incoming;
pub mod input;
pub mod laws;
pub mod propagate;

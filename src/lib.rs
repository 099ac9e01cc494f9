//! Depth-bounded, level-synchronous breadth-first traversal of a directed
//! graph, producing node, color and edge records ready for rendering.

pub mod color;

pub mod graph;
pub mod traverse;
pub mod lemmas;
pub mod assemble;

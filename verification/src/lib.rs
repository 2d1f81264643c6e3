//! A D2Q9 lattice-Boltzmann grid: its shape, its nodes, the traversal that
//! updates them, the streaming step that moves each microscopic velocity to
//! the neighbouring node (done in place), and the mapping from screen
//! coordinates to lattice cells.

pub mod consts;
pub mod direction;
pub mod node;
pub mod lattice;
pub mod streaming;
pub mod laws;

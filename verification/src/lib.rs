//! Verified core of a numerics graph library: tensor shapes and their
//! broadcasting, graph scheduling and shape inference, equation graphs,
//! checkpoint bookkeeping and the integer side of the lattice-Boltzmann domain.

pub mod bc;
pub mod checkpoint;
pub mod context;
pub mod equation;
pub mod equation_node;
pub mod error;
pub mod graph;
pub mod ids;
pub mod lbm;
pub mod name_map;
pub mod nodes;
pub mod probe;
pub mod schedule;
pub mod shape;
pub mod sort;
pub mod tensor;

//! Cellular sheaves on graphs for multi-agent consensus analysis.
//!
//! This crate holds the verified structure of the library: the shapes and
//! block layout of a sheaf, the coboundary operator in symbolic form, the
//! layout of the sheaf Laplacian, the elimination and the null-space basis
//! it yields, the dimension bookkeeping of sheaf cohomology, the agent network
//! and the decisions of the convergence loop.
//! Entries of matrices and beliefs are generic, so the same code serves any
//! scalar type the caller chooses.

pub mod matrix;
pub mod sheaf;
pub mod coboundary;
pub mod cohomology;
pub mod laplacian;
pub mod agents;
pub mod converge;
pub mod kernel;
pub mod ops;
pub mod echelon;
pub mod rref;
pub mod row_space;

//! Index domains, grids over them, and the Jacobi stencil sweeps that run on
//! those grids.

pub mod index_math;
pub mod domain;
pub mod domain_iter;
pub mod grid2d;
pub mod grid3d;

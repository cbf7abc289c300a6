//! A Markov chain Monte Carlo engine for two-dimensional causal dynamical
//! triangulations: cylindrical surfaces of triangles linked by spacelike and
//! timelike adjacencies, updated in place by local flip and shard-relocation
//! moves, with slice-walking measurements of the geometry.

pub mod triangles;
pub mod universe;

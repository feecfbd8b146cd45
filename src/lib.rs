//! Combinatorics of the n-dimensional hypercube: its vertices, edges and
//! triangulated square faces, and the bookkeeping of its planes of rotation.
//!
//! - [`math`]: factorials, binomial coefficients, ordered pairs and
//!   4-combinations.
//! - [`topology`]: the cube's vertices (as sign vectors), edges and face
//!   triangles.
//! - [`counting`]: the counting, coplanarity and distinctness laws they obey.
//! - [`bits`]: the arithmetic of binary digits beneath them.
//! - [`planes`]: a map holding one value per plane of rotation, keyed by
//!   canonical axis pairs, with export and import.

pub mod bits;
pub mod counting;
pub mod math;
pub mod planes;
pub mod topology;

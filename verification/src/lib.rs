//! Exact-arithmetic Cayley-table construction for a matrix group generated by
//! a fixed set of scaled quantum-gate matrices, together with a table-driven
//! random-walk stepper.
//!
//! Matrices hold complex entries with integer real and imaginary parts; every
//! generator is pre-multiplied by the common scale factor so that all products
//! stay integral after rescaling.  Two matrices that differ only by a global
//! phase in {1, i, -1, -i} denote the same group element; a canonicalization
//! rule picks one representative per phase class, and that representative
//! stands for the group element everywhere.

pub mod codec;
pub mod gens;
pub mod group;
pub mod matrix;
pub mod table;
pub mod walk;

//! Constructive solid geometry algebra: expression trees over primitive
//! solids, their reduction to a flat union of clauses, and the evaluation of
//! that normal form along a ray.
pub mod clause;
pub mod ray;
pub mod tree;
pub mod semantics;
pub mod eval;
pub mod molecule;

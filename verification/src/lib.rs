//! Exact rational arithmetic on unsigned 128-bit numerators and
//! denominators: a fraction type kept in lowest terms through
//! construction, arithmetic, comparison and rendering, the greatest
//! common divisor helpers it rests on, proofs of its algebraic laws,
//! and a membership scan over previously computed values.

pub mod euclid;
pub mod fraction;
pub mod laws;
pub mod search;

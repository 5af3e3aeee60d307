//! A small particle universe: bodies interact pairwise once per tick, and each
//! body's accumulated displacement is then applied to it.
//!
//! The numeric content of a body (positions, masses, charges and the force
//! laws between them) is supplied by the caller as two functions; this crate
//! owns the collection, the order in which pairs are visited and folded in, the
//! position pass that follows, and the tick counter.

pub mod universe;

pub use universe::Universe;

//! Enumeration, up to isomorphism, of the trivalent graphs dual to nodal
//! subdivisions of a lattice polygon.
//!
//! A generation of subdivisions is turned into the next one by applying
//! flips; every subdivision yields a skeleton graph, graphs are sorted into
//! buckets by a coarse signature, and an exact isomorphism test keeps one
//! representative per class.

pub mod counting;
pub mod dedup;
pub mod descent;
pub mod flips;
pub mod graph;
pub mod isomorphism;
pub mod matching;
pub mod signature;
pub mod skeleton;
pub mod subdivision;

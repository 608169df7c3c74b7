//! Reverse-dependency ("blast radius") analysis over a package index.

pub mod crates;
pub mod graph;
pub mod impact;
pub mod index;
pub mod select;
pub mod version;

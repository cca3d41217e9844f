//! Offline geocoding over a compact binary index: street-level reverse
//! lookups, and the documents and ranking of a place search.
//!
//! Coordinates, areas and distances are IEEE-754 numbers. The library carries
//! them as their bit patterns and orders them through [`ieee`]; the arithmetic
//! on them is done by functions that the caller passes in.

pub mod boundary;
pub mod bytes;
pub mod cells;
pub mod geometry;
pub mod ieee;
pub mod search;
pub mod server;
pub mod text;

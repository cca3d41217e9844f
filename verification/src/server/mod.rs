//! Reverse geocoding: the address of a point.
pub mod address;
pub mod geo;
pub mod index;

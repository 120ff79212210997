//! The in-memory grammar representation.

pub mod brex;
pub mod group;
pub mod numeric;
pub mod suffix;

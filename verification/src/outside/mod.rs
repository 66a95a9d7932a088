//! What this crate takes on trust from the crates it is built on.

pub mod address;
pub mod encoding;
pub mod ordered_map;
pub mod sorting;

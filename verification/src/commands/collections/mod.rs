pub mod items;
pub mod migrate;

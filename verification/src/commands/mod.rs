pub mod burn;
pub mod collections;
pub mod decode;
pub mod snapshot;
pub mod update;

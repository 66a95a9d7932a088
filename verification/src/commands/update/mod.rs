pub mod creator;
pub mod symbol;

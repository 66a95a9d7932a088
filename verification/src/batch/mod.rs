//! The batch engine: bounded dispatch, aggregation of outcomes, retry.

pub mod outcome;
pub mod pool;
pub mod retry;

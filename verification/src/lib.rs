//! Verified core of a command-line tool that inspects and changes token
//! metadata records on a remote ledger.
//!
//! The heart of the crate is a batch engine: a slot pool that bounds how many
//! operations run at once, an aggregator that splits what they returned, and
//! a retry loop that replays failures until a whole round succeeds or the
//! retry budget is spent.  Network and disk access happen outside of this
//! crate; here stand the decisions, each with a machine-checked contract.

pub mod batch;
pub mod commands;
pub mod constants;
pub mod json;
pub mod outside;
pub mod parse;
pub mod text;

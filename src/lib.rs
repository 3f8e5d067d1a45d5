//! The core of a streaming dataflow engine: chunks and barriers, channel
//! routing, dispatchers, and the stateful aggregation and materialization
//! operators.
pub mod types;
pub mod array;
pub mod chunk;
pub mod bytes;
pub mod error;
pub mod encoding;
pub mod hash;
pub mod message;
pub mod dispatch;
pub mod registry;
pub mod actor;
pub mod state_store;
pub mod codec;
pub mod materialize;
pub mod agg;
pub mod laws;
pub mod source;
pub mod wire;

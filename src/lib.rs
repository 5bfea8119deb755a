//! Client-side core of a publish/subscribe data plane: the framed wire
//! codec, the per-publisher connection state machine, the subscription
//! registry and the per-call subscribe bookkeeping, the durable retry
//! scheduler, the recycled update batches, and the expression type.

pub mod frame;
pub mod value;
pub mod connection;
pub mod registry;
pub mod pipeline;
pub mod durable;
pub mod batch;
pub mod expr;
pub mod config;

//! An in-memory job queue server core: the wire grammar, the queues with
//! their lease and retry rules, and the per-connection framing state machine.

pub mod bytemap;
pub mod command;
pub mod decimal;
pub mod field;
pub mod laws;
pub mod manager;
pub mod message;
pub mod model;
pub mod queue;
pub mod server;
pub mod signal;
pub mod utils;

pub use crate::manager::QueueManager;
pub use crate::server::Server;

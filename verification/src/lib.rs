//! A verified core for an event-streaming broker: the binary wire formats of
//! records, frames and protocol messages, ingress validation, and the
//! state of append-only segment and partition logs.

pub mod wire;
pub mod error;
pub mod text;
pub mod hash;
pub mod clock;
pub mod record;
pub mod frame;
pub mod messages;
pub mod validator;
pub mod quarantine;
pub mod segment;
pub mod partition;
pub mod engine;
pub mod cli;


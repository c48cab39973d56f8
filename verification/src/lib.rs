//! A small key-value wire protocol: a frame codec for a RESP-style byte
//! format, a buffered streaming reader that extracts whole frames from
//! arbitrarily chunked input, a command layer, and an in-memory store.
pub mod scan;
pub mod frame;
pub mod parse;
pub mod connection;
pub mod store;
pub mod command;

pub use command::{Command, respond, response_count, response_value};
pub use connection::{FrameBuffer, ReadOutcome};
pub use frame::Frame;
pub use parse::ParseResult;
pub use store::DB;

//! A small in-memory key-value and publish/subscribe server library speaking a
//! subset of the RESP wire format, with the matching client-side logic.
//!
//! Everything in this crate is plain computation: framing and unframing bytes,
//! command parsing, the key-value store with its expiration index, the
//! subscriber-mode session rules and the client-side reply checks. Sockets,
//! tasks and timers live with the caller.

pub mod error;
pub mod frame;
pub mod wire;
pub mod connection;
pub mod codec_laws;
pub mod parse;
pub mod text;
pub mod store;
pub mod cmd;
pub mod session;
pub mod display;
pub mod client;
pub mod listener;

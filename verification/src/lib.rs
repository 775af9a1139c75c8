//! Client-side core of a small SQL-over-TCP wire protocol: the value codec,
//! the message framing format, the textual request/response encoding, the
//! error-code taxonomy, and the per-call session bookkeeping.
//!
//! Everything here is transport-agnostic: functions produce and consume plain
//! byte and character sequences, and the surrounding (unverified) binary is
//! responsible only for moving those bytes over a socket.
pub mod codec;
pub mod config;
pub mod dto;
pub mod errors;
pub mod frame;
pub mod manager;
pub mod num;
pub mod session;
pub mod structs;
pub mod wire;

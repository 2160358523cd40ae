//! A client-side codec and session core for the RESP wire protocol: a value
//! model, an encoder, an incremental decoder with proved round-trip and
//! prefix-safety laws, and the pure decision logic of a one-command-at-a-time
//! key-value client. All transport I/O stays with the caller.

pub mod value;
pub mod encode;
pub mod decode;
pub mod laws;
pub mod client;

//! Server side of a text-message protocol over a byte stream: the upgrade
//! handshake, the frame encoder and decoder, and the per-connection session
//! rules. Reading from and writing to the stream is left to the caller.
pub mod error;
pub mod frame;
pub mod wire_laws;
pub mod handshake;
pub mod session;

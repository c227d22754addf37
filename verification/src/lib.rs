//! Synchronisation core of a two-player cooperative platformer: the wire
//! formats, the server's session registry, and the client's prediction state.

pub mod ascii;
pub mod client;
pub mod connect;
pub mod handshake_data;
pub mod input;
pub mod server;
pub mod snapshot;
pub mod wire;

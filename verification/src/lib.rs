//! A small client/server message protocol: a binary frame codec with an
//! incremental decoder, the server-side session state machine and connection
//! registry, and the client's command parser.

pub mod be;
pub mod bytebuf;
pub mod client;
pub mod codec;
pub mod registry;
pub mod session;

//! A reverse proxy for a game-server protocol: the handshake codec, the
//! interception of the first frame, and the prioritised, weighted choice of
//! backends from service records.

pub mod config;
pub mod srv;
pub mod varint;
pub mod handshake;
pub mod proxy;

//! Networking core of an authoritative multiplayer game: wrapping ticks and
//! timelines, datagram framing, channels, sessions, inputs, replication,
//! prediction with rollback, and interpolation.

pub mod acks;
pub mod bytes;
pub mod channel;
pub mod handshake;
pub mod input;
pub mod interpolation;
pub mod lifecycle;
pub mod payload;
pub mod prediction;
pub mod reliable;
pub mod replication;
pub mod session;
pub mod snapshot;
pub mod tick;
pub mod varint;
pub mod wire;

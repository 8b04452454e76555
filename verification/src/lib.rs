//! A MessagePack-compatible codec for the value tree exchanged with an online
//! game-client API, with the wire format stated as a mathematical model and
//! the encoder and decoder proved against it.
//!
//! - [`value`]: the value tree, its model, the error kinds.
//! - [`wire`]: the format itself, as functions from values to bytes and from
//!   bytes to values.
//! - [`encode`] and [`decode`]: the executable encoder and decoder, each
//!   proved to compute what [`wire`] says.
//! - [`roundtrip`], [`truncation`], [`ambiguity`]: what follows for every
//!   input: which values come back from their encoding, what a cut buffer is
//!   read as, and what the mod-descriptor heuristic does to plain arrays.
//! - [`endian`], [`framing`]: big-endian integers, and how headers are read
//!   back.
//! - [`foreign`]: the calls into other crates whose contracts are taken on
//!   trust.

pub mod ambiguity;
pub mod decode;
pub mod encode;
pub mod endian;
pub mod foreign;
pub mod framing;
pub mod roundtrip;
pub mod truncation;
pub mod value;
pub mod wire;

//! Audio fingerprinting and similarity search by landmark-pair hashing.
//!
//! The crate holds the integer and text rules of the engine: how a signal is
//! cut into frames, how band peaks are chosen from magnitude keys, how peaks
//! are paired into 64-bit landmark hashes, how fingerprints are laid out in a
//! key-value store, and how candidate tracks are scored and ranked.

pub mod codec;
pub mod config;
pub mod dispatch;
pub mod engine;
pub mod framing;
pub mod hash;
pub mod landmarks;
pub mod matcher;
pub mod peaks;
pub mod schema;
pub mod song;
pub mod store;

//! Streaming audio convolution on 16-bit integer samples, with a
//! fixed-capacity ring buffer.
//!
//! `signal` models linear convolution over mathematical integers;
//! `convolver` is the streaming engine, whose contracts are stated over that
//! model; `laws` proves the properties the engine's output has whatever the
//! block sizes; `ring_buffer` is a generic circular buffer.
pub mod convolver;
pub mod laws;
pub mod ring_buffer;
pub mod signal;

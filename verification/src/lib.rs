//! Streaming audio-to-container encoding: a byte builder for the container
//! format, a buffered frame encoder around a fixed-frame codec, a muxer that
//! groups encoded frames into clusters, and a chunking resample-and-mux
//! processor.

pub mod ebml;
pub mod opus;
pub mod ieee;
pub mod webm;
pub mod stream_processor;

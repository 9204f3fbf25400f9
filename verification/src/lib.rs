//! Verified core of a fraud-scoring service: timestamp parsing, quantized
//! nearest-neighbour search, byte-level payload scanning, the binary index
//! format and the HTTP framing.
pub mod time;
pub mod nearest;
pub mod distance;
pub mod index;
pub mod classifier;
pub mod http;
pub mod binary_index;
pub mod vectorize;

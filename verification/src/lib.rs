//! A bidirectional Llama encoder on the CPU: rotary position tables, full-sequence attention
//! with grouped key/value heads, and the layer stack that ties them together.
//!
//! Floating-point values are held by their bits ([`float::Half`], [`float::Single`]). Sums,
//! products and transcendental functions come from an implementation of [`float::FloatUnit`],
//! of which nothing is assumed; every contract says which operations produced a value, on which
//! operands and in which order.
pub mod architectures;
pub mod attn_cpu;
pub mod bridge;
pub mod exact;
pub mod float;
pub mod input;
pub mod layers;
pub mod rope_llama3;
pub mod rope_meaning;
pub mod runner;

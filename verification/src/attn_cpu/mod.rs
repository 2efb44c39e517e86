//! Attention backends that run on the CPU.
pub mod bidirectional;
pub mod meaning;

pub use crate::attn_cpu::bidirectional::CpuBidirectionalAttention;

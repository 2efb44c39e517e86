//! The dense kernels that a layer stack is made of.
use crate::bridge::{GpuBuffer, RunnerError};
use crate::float::{Half, Single};
use vstd::prelude::*;

verus! {

/// Dense kernels. The layer stack only calls them: it assumes nothing of what they return.
pub trait LayerKernels {
    /// The rows of the embedding table for these tokens.
    fn embed_tokens(table: &GpuBuffer<Half>, token_ids: &Vec<u32>, hidden_size: usize) -> GpuBuffer<
        Half,
    >;

    /// Root-mean-square normalization of each row.
    fn rms_norm(x: &GpuBuffer<Half>, weight: &GpuBuffer<Half>, eps: Single) -> Result<
        GpuBuffer<Half>,
        RunnerError,
    >;

    /// A linear layer.
    fn linear(x: &GpuBuffer<Half>, weight: &GpuBuffer<Half>, bias: Option<&GpuBuffer<Half>>) -> Result<
        GpuBuffer<Half>,
        RunnerError,
    >;

    /// A gated feed-forward layer.
    fn mlp(
        x: &GpuBuffer<Half>,
        gate: &GpuBuffer<Half>,
        up: &GpuBuffer<Half>,
        down: &GpuBuffer<Half>,
    ) -> Result<GpuBuffer<Half>, RunnerError>;

    /// `hidden` with `update` added to it.
    fn add_residual(hidden: GpuBuffer<Half>, update: &GpuBuffer<Half>) -> GpuBuffer<Half>;
}

} // verus!

//! What a model is configured with.
use crate::float::Single;
use vstd::prelude::*;

verus! {

/// How the weights are stored.
#[derive(Clone, Copy, Debug, PartialEq, Eq, Structural)]
pub enum Dtype {
    Auto,
    Float16,
}

/// The scaling of rotary frequencies that a model asks for.
#[derive(Debug)]
pub struct RopeScalingConfig {
    pub rope_type: String,
    pub factor: Single,
    pub low_freq_factor: Single,
    pub high_freq_factor: Single,
    pub original_max_position_embeddings: usize,
}

/// The configuration of a model.
#[derive(Debug)]
pub struct ModelRunnerConfig {
    pub num_layers: usize,
    pub hidden_size: usize,
    pub num_heads: usize,
    pub num_kv_heads: usize,
    pub head_dim: usize,
    pub intermediate_size: usize,
    pub vocab_size: usize,
    pub max_position: usize,
    pub dtype: Dtype,
    pub rms_norm_eps: Single,
    pub rope_theta: Single,
    pub partial_rotary_factor: Single,
    pub rope_scaling: Option<RopeScalingConfig>,
    pub architecture: String,
}

} // verus!

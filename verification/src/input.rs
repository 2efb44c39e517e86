//! What a model is run on.
use crate::bridge::AttentionMetadata;
use vstd::prelude::*;

verus! {

/// A sequence of tokens and their positions.
#[derive(Debug)]
pub struct ModelInput {
    pub token_ids: Vec<u32>,
    pub position_ids: Vec<u32>,
    pub attention_metadata: AttentionMetadata,
    pub is_prefill: bool,
}

impl ModelInput {
    /// The number of tokens.
    pub fn num_tokens(&self) -> (r: usize)
        ensures
            r == self.token_ids@.len(),
    {
        self.token_ids.len()
    }
}

} // verus!

//! Model architectures.
pub mod llama;
pub mod llama_bidirectional;
pub mod meaning;

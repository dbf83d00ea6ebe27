//! Sizes shared by the small transformers.

use vstd::prelude::*;

verus! {

/// Token embedding + learned positional embedding.
#[derive(Debug, Clone, Copy, PartialEq, Eq, Structural)]
pub struct SeqEmbeddingConfig {
    pub vocab_size: usize,
    pub max_seq_len: usize,
    pub d_model: usize,
}

impl SeqEmbeddingConfig {
    pub fn new(vocab_size: usize, max_seq_len: usize, d_model: usize) -> (r: SeqEmbeddingConfig)
        ensures
            r == (SeqEmbeddingConfig { vocab_size, max_seq_len, d_model }),
    {
        SeqEmbeddingConfig { vocab_size, max_seq_len, d_model }
    }
}

} // verus!

//! The Critic's sizes and its halting decision for the edit loop.

use crate::nn::SeqEmbeddingConfig;
use crate::score::Score;
use vstd::prelude::*;

verus! {

/// Sizes of the Critic.
#[derive(Debug, Clone, Copy, PartialEq, Eq, Structural)]
pub struct CriticConfig {
    pub vocab_size: usize,
    pub d_model: usize,
    pub n_heads: usize,
    pub n_layers: usize,
    pub d_ff: usize,
    pub max_seq_len: usize,
}

impl CriticConfig {
    pub fn new(vocab_size: usize) -> (r: CriticConfig)
        ensures
            r == (CriticConfig {
                vocab_size,
                d_model: 64,
                n_heads: 4,
                n_layers: 2,
                d_ff: 256,
                max_seq_len: 64,
            }),
    {
        CriticConfig {
            vocab_size,
            d_model: 64,
            n_heads: 4,
            n_layers: 2,
            d_ff: 256,
            max_seq_len: 64,
        }
    }

    pub fn with_max_seq_len(self, max_seq_len: usize) -> (r: CriticConfig)
        ensures
            r == (CriticConfig { max_seq_len, ..self }),
    {
        CriticConfig { max_seq_len, ..self }
    }

    /// The embedding that the Critic reads tokens through.
    pub fn embedding(&self) -> (r: SeqEmbeddingConfig)
        ensures
            r == (SeqEmbeddingConfig {
                vocab_size: self.vocab_size,
                max_seq_len: self.max_seq_len,
                d_model: self.d_model,
            }),
    {
        SeqEmbeddingConfig::new(self.vocab_size, self.max_seq_len, self.d_model)
    }
}

/// The bit pattern of 0.05, the default halting threshold.
pub const DEFAULT_WEIGHT_THRESHOLD: u64 = 0x3fa9_9999_9999_999a;

/// Halting rule for the edit loop: stop editing once the largest remaining
/// flagged-span weight falls below the threshold, i.e. nothing left on the pad
/// is worth touching.
#[derive(Debug, Clone, Copy, PartialEq, Eq, Structural)]
pub struct HaltingConfig {
    /// Tunable; default chosen empirically against toy-task label scale
    /// (queried-pair deltas are ~1-4 nats, filler ~0).
    pub weight_threshold: Score,
}

/// Every weight is below the threshold.
pub open spec fn all_below(weights: Seq<Score>, threshold: Score) -> bool {
    forall|i: int| 0 <= i < weights.len() ==> (#[trigger] weights[i]).below(threshold)
}

impl HaltingConfig {
    pub fn new() -> (r: HaltingConfig)
        ensures
            r.weight_threshold.bits == DEFAULT_WEIGHT_THRESHOLD,
    {
        HaltingConfig { weight_threshold: Score { bits: DEFAULT_WEIGHT_THRESHOLD } }
    }

    pub fn with_weight_threshold(self, weight_threshold: Score) -> (r: HaltingConfig)
        ensures
            r.weight_threshold == weight_threshold,
    {
        HaltingConfig { weight_threshold }
    }

    /// `true` = stop editing. Halts when no spans remain or all remaining
    /// spans are below threshold.
    pub fn should_halt(&self, remaining_span_weights: &[Score]) -> (r: bool)
        ensures
            r == all_below(remaining_span_weights@, self.weight_threshold),
            r <==> forall|i: int|
                0 <= i < remaining_span_weights@.len() ==> (
                #[trigger] remaining_span_weights@[i]).below(self.weight_threshold),
    {
        let mut i: usize = 0;
        while i < remaining_span_weights.len()
            invariant
                i <= remaining_span_weights.len(),
                forall|k: int|
                    0 <= k < i ==> (#[trigger] remaining_span_weights@[k]).below(
                        self.weight_threshold,
                    ),
            decreases remaining_span_weights.len() - i,
        {
            if !remaining_span_weights[i].less_than(self.weight_threshold) {
                return false;
            }
            i = i + 1;
        }
        true
    }
}

/// The loop halts exactly when the heaviest remaining span is below the
/// threshold; with nothing remaining it halts.
pub proof fn halts_on_the_heaviest(weights: Seq<Score>, threshold: Score, heaviest: int)
    requires
        0 <= heaviest < weights.len(),
        forall|i: int|
            0 <= i < weights.len() ==> !(#[trigger] weights[i]).nan() && weights[i].rank()
                <= weights[heaviest].rank(),
    ensures
        all_below(weights, threshold) <==> weights[heaviest].below(threshold),
        all_below(Seq::empty(), threshold),
{
}

/// Every weight has a say: the loop halts on two lists together exactly when it
/// halts on each, it halts on a single weight exactly when that is below the
/// threshold, and a weight that is not a number never lets it halt.
pub proof fn every_weight_has_a_say(
    a: Seq<Score>,
    b: Seq<Score>,
    weight: Score,
    threshold: Score,
)
    ensures
        all_below(a + b, threshold) <==> all_below(a, threshold) && all_below(b, threshold),
        all_below(seq![weight], threshold) <==> weight.below(threshold),
        weight.nan() ==> !all_below(a.push(weight) + b, threshold),
        all_below(Seq::empty(), threshold),
{
    let both = a + b;
    if all_below(both, threshold) {
        assert forall|i: int| 0 <= i < a.len() implies (#[trigger] a[i]).below(threshold) by {
            assert(both[i] == a[i]);
        }
        assert forall|i: int| 0 <= i < b.len() implies (#[trigger] b[i]).below(threshold) by {
            assert(both[a.len() + i] == b[i]);
        }
    }
    assert(seq![weight][0] == weight);
    assert((a.push(weight) + b)[a.len() as int] == weight);
}

} // verus!

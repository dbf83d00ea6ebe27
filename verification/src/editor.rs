//! The Editor's sizes, and the patch it proposes for a span.

use crate::nn::SeqEmbeddingConfig;
use crate::patch;
use crate::patch::Patch;
use crate::span::Span;
use crate::tokenizer::TokenId;
use vstd::prelude::*;

verus! {

/// Sizes of the Editor.
#[derive(Debug, Clone, Copy, PartialEq, Eq, Structural)]
pub struct EditorConfig {
    pub vocab_size: usize,
    pub d_model: usize,
    pub n_heads: usize,
    pub n_layers: usize,
    pub d_ff: usize,
    pub max_seq_len: usize,
}

impl EditorConfig {
    pub fn new(vocab_size: usize) -> (r: EditorConfig)
        ensures
            r == (EditorConfig {
                vocab_size,
                d_model: 64,
                n_heads: 4,
                n_layers: 2,
                d_ff: 256,
                max_seq_len: 64,
            }),
    {
        EditorConfig {
            vocab_size,
            d_model: 64,
            n_heads: 4,
            n_layers: 2,
            d_ff: 256,
            max_seq_len: 64,
        }
    }

    pub fn with_max_seq_len(self, max_seq_len: usize) -> (r: EditorConfig)
        ensures
            r == (EditorConfig { max_seq_len, ..self }),
    {
        EditorConfig { max_seq_len, ..self }
    }

    /// The embedding that the Editor reads tokens through.
    pub fn embedding(&self) -> (r: SeqEmbeddingConfig)
        ensures
            r == (SeqEmbeddingConfig {
                vocab_size: self.vocab_size,
                max_seq_len: self.max_seq_len,
                d_model: self.d_model,
            }),
    {
        SeqEmbeddingConfig::new(self.vocab_size, self.max_seq_len, self.d_model)
    }
}

/// The predictions at the positions of the span, as token ids.
pub open spec fn predicted(predictions: Seq<i64>, span: Span) -> Seq<TokenId> {
    Seq::new(
        (span.end - span.start) as nat,
        |i: int| predictions[span.start + i] as TokenId,
    )
}

/// The same-length replacement patch that per-position predictions propose for
/// `span`.
pub fn patch_from_predictions(predictions: &[i64], span: Span) -> (r: Patch)
    requires
        span.start < span.end <= predictions@.len(),
    ensures
        r.span == span,
        r.replacement@ == predicted(predictions@, span),
        r.same_length(),
        r.replacement@.len() == span.end - span.start,
        forall|p: int|
            span.start <= p < span.end ==> #[trigger] r.replacement@[p - span.start]
                == predictions@[p] as TokenId,
{
    let mut replacement: Vec<TokenId> = Vec::new();
    let mut p: usize = span.start;
    while p < span.end
        invariant
            span.start <= p <= span.end <= predictions@.len(),
            replacement@ =~= Seq::new(
                (p - span.start) as nat,
                |i: int| predictions@[span.start + i] as TokenId,
            ),
        decreases span.end - p,
    {
        replacement.push(#[verifier::truncate] (predictions[p] as TokenId));
        p = p + 1;
    }
    Patch::new(span, replacement)
}

/// An edit writes each prediction at its own position: afterwards every position
/// of the span holds what was predicted for that position, every other position
/// holds what it held before, and the buffer is as long as before.
pub proof fn predictions_land_on_their_positions(
    tokens: Seq<TokenId>,
    predictions: Seq<i64>,
    span: Span,
)
    requires
        span.start <= span.end <= tokens.len(),
    ensures
        ({
            let after = patch::spliced(tokens, span, predicted(predictions, span));
            &&& after.len() == tokens.len()
            &&& forall|p: int|
                span.start <= p < span.end ==> #[trigger] after[p] == predictions[p] as TokenId
            &&& forall|p: int|
                0 <= p < span.start || span.end <= p < tokens.len() ==> #[trigger] after[p]
                    == tokens[p]
        }),
{
}

/// What is proposed for one position depends on the prediction there alone: two
/// rows of predictions that agree at a position of two spans put the same token
/// there, whichever the spans are.
pub proof fn a_position_heeds_its_own_prediction(
    a: Seq<i64>,
    b: Seq<i64>,
    wide: Span,
    narrow: Span,
    p: int,
)
    requires
        wide.start <= p < wide.end,
        narrow.start <= p < narrow.end,
        a[p] == b[p],
    ensures
        predicted(a, wide)[p - wide.start] == predicted(b, narrow)[p - narrow.start],
{
}

} // verus!

//! Ablation/perturbation labeling: the ground-truth causal "weight" signal the
//! Critic learns to imitate.
//!
//! For a sequence and a sampled span, the span is masked in the *input*, the
//! model is rerun, and the change of the per-position NLL of the *original*
//! tokens is measured. This module decides which spans are masked, what the
//! model is run on, which predictions count, and how span weights become token
//! labels. It never sees a model: rows of NLL values are scored by the caller.

use crate::batch::{widened, TokenBatch};
use crate::counting;
use crate::kv_task::KvExample;
use crate::random;
use crate::random::draw_inclusive;
use crate::score::Score;
use crate::span::Span;
use crate::tokenizer::TokenId;
use crate::vocab;
use rand::rngs::StdRng;
use vstd::prelude::*;
use vstd::slice::{slice_subrange, slice_to_vec};

verus! {

/// Which NLL deltas count toward a span's weight.
///
/// Prediction index `i` consumes input tokens `0..=i` and predicts token
/// `i+1`; masking span `[s, e)` perturbs predictions with `i >= s`.
#[derive(Debug, Clone, Copy, PartialEq, Eq, Structural)]
pub enum AblationMetric {
    /// Mean delta over predictions of tokens strictly *after* the span
    /// (`i >= e-1`): "how much does this span matter for the original
    /// continuation".
    Downstream,
    /// Mean delta over *all* perturbed predictions (`i >= s`), including
    /// re-predicting the span's own original tokens from perturbed
    /// context.
    FromSpanStart,
}

/// Knobs for the labeling pass. `spans_per_sequence` is the main
/// cost/fidelity trade-off: more samples = better per-token coverage and
/// less variance, at one extra forward pass per (sequence, span) sample.
#[derive(Debug, Clone, Copy)]
pub struct AblationConfig {
    pub spans_per_sequence: usize,
    /// Span lengths are sampled uniformly in `min_span_len..=max_span_len`.
    pub min_span_len: usize,
    pub max_span_len: usize,
    pub metric: AblationMetric,
    /// Token id used to ablate (the tokenizer's MASK).
    pub mask_id: TokenId,
    pub seed: u64,
}

impl Default for AblationConfig {
    fn default() -> (r: AblationConfig)
        ensures
            r.spans_per_sequence == 16,
            r.min_span_len == 1,
            r.max_span_len == 3,
            r.metric == AblationMetric::Downstream,
            r.mask_id == vocab::MASK,
            r.seed == 0,
    {
        AblationConfig {
            spans_per_sequence: 16,
            min_span_len: 1,
            max_span_len: 3,
            metric: AblationMetric::Downstream,
            mask_id: vocab::MASK,
            seed: 0,
        }
    }
}

/// One span's measured weight.
#[derive(Debug, Clone, Copy)]
pub struct SpanWeight {
    pub span: Span,
    pub weight: Score,
}

/// A labeled sequence: sampled span weights plus their per-token
/// aggregation (mean weight of covering spans; `covered[p]` is false when
/// no sampled span touched position `p`, in which case `token_weights[p]`
/// is 0 by construction and should be excluded from supervised losses).
#[derive(Debug, Clone)]
pub struct LabeledSequence {
    pub tokens: Vec<TokenId>,
    pub span_weights: Vec<SpanWeight>,
    pub token_weights: Vec<Score>,
    pub covered: Vec<bool>,
}

/// The span drawn in a sequence of `len` tokens, and the state after it: a length
/// drawn in `min..=max`, cut to what fits between the first token and the last,
/// and a start drawn among those where that length fits.
pub open spec fn drawn_span(state: Seq<u32>, len: usize, min: usize, max: usize) -> (
    Span,
    Seq<u32>,
) {
    let length = random::inclusive_draw(state, min, max);
    let cut = if length.0 <= len - 2 {
        length.0 as int
    } else {
        len - 2
    };
    let start = random::inclusive_draw(length.1, 1, (len - 1 - cut) as usize);
    (Span { start: start.0, end: (start.0 + cut) as usize }, start.1)
}

/// `count` spans drawn one after another, and the state after them.
pub open spec fn drawn_spans(
    state: Seq<u32>,
    len: usize,
    min: usize,
    max: usize,
    count: nat,
) -> (Seq<Span>, Seq<u32>)
    decreases count,
{
    if count == 0 {
        (Seq::empty(), state)
    } else {
        let before = drawn_spans(state, len, min, max, (count - 1) as nat);
        let draw = drawn_span(before.1, len, min, max);
        (before.0.push(draw.0), draw.1)
    }
}

/// The span lies between the first token and the last, which stay out of it.
pub open spec fn is_inner(span: Span, len: usize) -> bool {
    1 <= span.start <= span.end <= len - 1
}

/// The span is as long as a length in `min..=max`, cut to what fits between the
/// first token and the last.
pub open spec fn has_length_in(span: Span, len: usize, min: usize, max: usize) -> bool {
    &&& span.end - span.start <= max
    &&& span.end - span.start >= min || span.end - span.start == len - 2
}

/// Draws one span that leaves the first and the last token out.
pub fn draw_span(rng: &mut StdRng, len: usize, min_span_len: usize, max_span_len: usize) -> (r:
    Span)
    requires
        len >= 2,
        min_span_len <= max_span_len,
    ensures
        (r, random::generator_state(*final(rng))) == drawn_span(
            random::generator_state(*old(rng)),
            len,
            min_span_len,
            max_span_len,
        ),
        is_inner(r, len),
        has_length_in(r, len, min_span_len, max_span_len),
        ({
            let length = random::inclusive_draw(
                random::generator_state(*old(rng)),
                min_span_len,
                max_span_len,
            );
            let start = random::inclusive_draw(
                length.1,
                1,
                (len - 1 - (r.end - r.start)) as usize,
            );
            &&& r.end - r.start == if length.0 < len - 2 {
                length.0 as int
            } else {
                len - 2
            }
            &&& r.start == start.0
            &&& random::generator_state(*final(rng)) == start.1
        }),
        1 <= r.start <= r.end <= len - 1,
{
    let low: usize = 1;
    let high: usize = len - 1;
    let drawn: usize = draw_inclusive(rng, min_span_len, max_span_len);
    let span_len: usize = if drawn <= high - low {
        drawn
    } else {
        high - low
    };
    let start: usize = draw_inclusive(rng, low, high - span_len);
    Span::new(start, start + span_len)
}

/// Sample random spans within `[1, len-1)` (BOS excluded: masking BOS is
/// uninformative; final token excluded because masking it perturbs no
/// prediction under either metric).
pub fn sample_spans(len: usize, config: &AblationConfig, rng: &mut StdRng) -> (r: Vec<Span>)
    requires
        len >= 1,
        config.spans_per_sequence > 0 ==> len >= 2 && config.min_span_len <= config.max_span_len,
    ensures
        (r@, random::generator_state(*final(rng))) == drawn_spans(
            random::generator_state(*old(rng)),
            len,
            config.min_span_len,
            config.max_span_len,
            config.spans_per_sequence as nat,
        ),
        r@.len() == config.spans_per_sequence,
        forall|i: int|
            0 <= i < r@.len() ==> is_inner(#[trigger] r@[i], len) && has_length_in(
                r@[i],
                len,
                config.min_span_len,
                config.max_span_len,
            ),
{
    let ghost state = random::generator_state(*rng);
    let mut spans: Vec<Span> = Vec::new();
    let mut i: usize = 0;
    while i < config.spans_per_sequence
        invariant
            i <= config.spans_per_sequence,
            config.spans_per_sequence > 0 ==> len >= 2 && config.min_span_len
                <= config.max_span_len,
            (spans@, random::generator_state(*rng)) == drawn_spans(
                state,
                len,
                config.min_span_len,
                config.max_span_len,
                i as nat,
            ),
            spans@.len() == i,
            forall|k: int|
                0 <= k < i ==> is_inner(#[trigger] spans@[k], len) && has_length_in(
                    spans@[k],
                    len,
                    config.min_span_len,
                    config.max_span_len,
                ),
        decreases config.spans_per_sequence - i,
    {
        let span: Span = draw_span(rng, len, config.min_span_len, config.max_span_len);
        spans.push(span);
        i = i + 1;
    }
    spans
}

/// The tokens with every position of the span masked.
pub open spec fn masked(tokens: Seq<TokenId>, span: Span, mask_id: TokenId) -> Seq<TokenId> {
    Seq::new(
        tokens.len(),
        |p: int|
            if span.holds(p) {
                mask_id
            } else {
                tokens[p]
            },
    )
}

/// The positions of the span are positions of a sequence of `len` tokens.
pub open spec fn positions_exist(span: Span, len: nat) -> bool {
    span.start < span.end ==> span.end <= len
}

/// Masks one span.
pub fn mask_span(tokens: &[TokenId], span: Span, mask_id: TokenId) -> (r: Vec<TokenId>)
    requires
        positions_exist(span, tokens@.len()),
    ensures
        r@ == masked(tokens@, span, mask_id),
{
    let mut out: Vec<TokenId> = slice_to_vec(tokens);
    let mut p: usize = span.start;
    while p < span.end
        invariant
            span.start <= p,
            span.start < span.end ==> p <= span.end <= tokens@.len(),
            out@ =~= Seq::new(
                tokens@.len(),
                |q: int|
                    if span.start <= q < p && q < span.end {
                        mask_id
                    } else {
                        tokens@[q]
                    },
            ),
        decreases span.end - p,
    {
        out.set(p, mask_id);
        p = p + 1;
    }
    out
}

/// The clean sequence, then one masked variant per span.
pub fn ablation_inputs(tokens: &[TokenId], spans: &[Span], mask_id: TokenId) -> (r: Vec<
    Vec<TokenId>,
>)
    requires
        forall|i: int|
            0 <= i < spans@.len() ==> positions_exist(#[trigger] spans@[i], tokens@.len()),
    ensures
        r@.len() == spans@.len() + 1,
        r@[0]@ == tokens@,
        forall|i: int|
            0 <= i < spans@.len() ==> (#[trigger] r@[i + 1])@ == masked(
                tokens@,
                spans@[i],
                mask_id,
            ),
{
    let mut inputs: Vec<Vec<TokenId>> = Vec::new();
    inputs.push(slice_to_vec(tokens));
    let mut i: usize = 0;
    while i < spans.len()
        invariant
            i <= spans.len(),
            forall|k: int|
                0 <= k < spans@.len() ==> positions_exist(#[trigger] spans@[k], tokens@.len()),
            inputs@.len() == i + 1,
            inputs@[0]@ == tokens@,
            forall|k: int|
                1 <= k <= i ==> (#[trigger] inputs@[k])@ == masked(tokens@, spans@[k - 1], mask_id),
        decreases spans.len() - i,
    {
        inputs.push(mask_span(tokens, spans[i], mask_id));
        i = i + 1;
    }
    inputs
}

/// What the labeling of one sequence asks the model to score.
pub struct AblationBatch {
    /// The sampled spans, then the extra ones.
    pub spans: Vec<Span>,
    /// The clean sequence, then one masked variant per span.
    pub inputs: Vec<Vec<TokenId>>,
}

/// Plan the labeling of one sequence: sample spans (plus any `extra_spans` the
/// caller wants measured, e.g. task-structure spans for sanity checks), and mask
/// each of them.
pub fn plan_labels(
    tokens: &[TokenId],
    extra_spans: &[Span],
    config: &AblationConfig,
    rng: &mut StdRng,
) -> (r: AblationBatch)
    requires
        tokens@.len() >= 1,
        config.spans_per_sequence > 0 ==> tokens@.len() >= 2 && config.min_span_len
            <= config.max_span_len,
        forall|i: int|
            0 <= i < extra_spans@.len() ==> positions_exist(
                #[trigger] extra_spans@[i],
                tokens@.len(),
            ),
    ensures
        ({
            let draw = drawn_spans(
                random::generator_state(*old(rng)),
                tokens@.len() as usize,
                config.min_span_len,
                config.max_span_len,
                config.spans_per_sequence as nat,
            );
            &&& r.spans@ == draw.0 + extra_spans@
            &&& random::generator_state(*final(rng)) == draw.1
        }),
        r.spans@.len() == config.spans_per_sequence + extra_spans@.len(),
        forall|i: int|
            0 <= i < config.spans_per_sequence ==> is_inner(
                #[trigger] r.spans@[i],
                tokens@.len() as usize,
            ) && has_length_in(
                r.spans@[i],
                tokens@.len() as usize,
                config.min_span_len,
                config.max_span_len,
            ),
        forall|j: int|
            0 <= j < extra_spans@.len() ==> r.spans@[config.spans_per_sequence + j]
                == #[trigger] extra_spans@[j],
        r.inputs@.len() == r.spans@.len() + 1,
        r.inputs@[0]@ == tokens@,
        forall|i: int|
            0 <= i < r.spans@.len() ==> (#[trigger] r.inputs@[i + 1])@ == masked(
                tokens@,
                r.spans@[i],
                config.mask_id,
            ),
        forall|i: int|
            0 <= i < r.spans@.len() ==> positions_exist(#[trigger] r.spans@[i], tokens@.len()),
{
    let mut spans: Vec<Span> = sample_spans(tokens.len(), config, rng);
    let mut more: Vec<Span> = slice_to_vec(extra_spans);
    spans.append(&mut more);
    let inputs: Vec<Vec<TokenId>> = ablation_inputs(tokens, spans.as_slice(), config.mask_id);
    AblationBatch { spans, inputs }
}

/// The first prediction index whose delta counts.
pub open spec fn first_scored(span: Span, metric: AblationMetric) -> int {
    match metric {
        AblationMetric::Downstream => if span.end == 0 {
            0
        } else {
            span.end - 1
        },
        AblationMetric::FromSpanStart => span.start as int,
    }
}

/// The prediction indices of a row of `row_len` that count toward the weight of
/// `span`: all from the first one that the metric takes in. The span's weight is
/// the mean of the deltas there, or 0 where there are none.
pub fn scored_indices(row_len: usize, span: Span, metric: AblationMetric) -> (r: Span)
    ensures
        r.wf(),
        r.end == row_len,
        forall|i: int| #[trigger] r.holds(i) <==> first_scored(span, metric) <= i < row_len,
        forall|i: int|
            0 <= i < row_len ==> (#[trigger] r.holds(i) <==> match metric {
                AblationMetric::Downstream => span.end <= i + 1,
                AblationMetric::FromSpanStart => span.start <= i,
            }),
        forall|i: int| #[trigger] r.holds(i) <==> r.start <= i < r.end,
{
    let first: usize = match metric {
        AblationMetric::Downstream => if span.end == 0 {
            0
        } else {
            span.end - 1
        },
        AblationMetric::FromSpanStart => span.start,
    };
    if first <= row_len {
        Span::new(first, row_len)
    } else {
        Span::new(row_len, row_len)
    }
}

/// Every prediction that counts downstream of a non-empty span counts from its
/// start too, and the ones that only count from its start are the re-predictions
/// of the span's own tokens after the first.
pub proof fn downstream_ignores_in_span_targets(span: Span, i: int)
    requires
        span.start < span.end,
    ensures
        first_scored(span, AblationMetric::Downstream) <= i ==> first_scored(
            span,
            AblationMetric::FromSpanStart,
        ) <= i,
        first_scored(span, AblationMetric::FromSpanStart) <= i < first_scored(
            span,
            AblationMetric::Downstream,
        ) <==> span.start < i + 1 < span.end,
{
}

/// Pairs spans with their weights, as far as both go.
pub fn weigh_spans(spans: &[Span], weights: &[Score]) -> (r: Vec<SpanWeight>)
    ensures
        r@.len() == if spans@.len() <= weights@.len() {
            spans@.len()
        } else {
            weights@.len()
        },
        forall|i: int|
            0 <= i < r@.len() ==> #[trigger] r@[i] == (SpanWeight {
                span: spans@[i],
                weight: weights@[i],
            }),
{
    let mut out: Vec<SpanWeight> = Vec::new();
    let mut i: usize = 0;
    while i < spans.len() && i < weights.len()
        invariant
            i <= spans.len(),
            i <= weights.len(),
            out@.len() == i,
            forall|k: int|
                0 <= k < i ==> #[trigger] out@[k] == (SpanWeight {
                    span: spans@[k],
                    weight: weights@[k],
                }),
        decreases spans.len() - i,
    {
        out.push(SpanWeight { span: spans[i], weight: weights[i] });
        i = i + 1;
    }
    out
}

/// The indices of the spans that hold position `p`, in order.
pub open spec fn covering(span_weights: Seq<SpanWeight>, p: int) -> Seq<usize> {
    Seq::new(span_weights.len(), |k: int| k as usize).filter(
        |k: usize| span_weights[k as int].span.holds(p),
    )
}

/// For each of `len` positions, the indices of the spans that hold it, in order.
/// A position's label is the mean weight of these spans.
pub fn coverage(len: usize, span_weights: &[SpanWeight]) -> (r: Vec<Vec<usize>>)
    ensures
        r@.len() == len,
        forall|p: int| 0 <= p < len ==> (#[trigger] r@[p])@ == covering(span_weights@, p),
{
    let mut out: Vec<Vec<usize>> = Vec::new();
    let mut p: usize = 0;
    while p < len
        invariant
            p <= len,
            out@.len() == p,
            forall|q: int| 0 <= q < p ==> (#[trigger] out@[q])@ == covering(span_weights@, q),
        decreases len - p,
    {
        let ghost all = Seq::new(span_weights@.len(), |k: int| k as usize);
        let ghost holds_p = |k: usize| span_weights@[k as int].span.holds(p as int);
        let mut here: Vec<usize> = Vec::new();
        let mut k: usize = 0;
        proof {
            reveal(Seq::filter);
        }
        while k < span_weights.len()
            invariant
                k <= span_weights.len(),
                all == Seq::new(span_weights@.len(), |k: int| k as usize),
                holds_p == (|k: usize| span_weights@[k as int].span.holds(p as int)),
                here@ == all.take(k as int).filter(holds_p),
            decreases span_weights.len() - k,
        {
            proof {
                reveal(Seq::filter);
                assert(all.take(k + 1).drop_last() =~= all.take(k as int));
            }
            if span_weights[k].span.contains(p) {
                here.push(k);
            }
            k = k + 1;
        }
        assert(all.take(k as int) =~= all);
        out.push(here);
        p = p + 1;
    }
    out
}

/// Some span holds position `p`.
pub open spec fn is_covered(span_weights: Seq<SpanWeight>, p: int) -> bool {
    exists|k: int| 0 <= k < span_weights.len() && (#[trigger] span_weights[k]).span.holds(p)
}

/// Assemble the labels of a sequence from its span weights and the mean weight of
/// the spans over each position. A position under no span is marked uncovered and
/// gets weight 0, whatever its mean.
pub fn assemble_labels(
    tokens: &[TokenId],
    span_weights: Vec<SpanWeight>,
    means: &[Score],
) -> (r: LabeledSequence)
    requires
        means@.len() == tokens@.len(),
    ensures
        r.tokens@ == tokens@,
        r.span_weights == span_weights,
        r.covered@.len() == tokens@.len(),
        r.token_weights@.len() == tokens@.len(),
        forall|p: int|
            0 <= p < tokens@.len() ==> #[trigger] r.covered@[p] == is_covered(span_weights@, p),
        forall|p: int|
            0 <= p < tokens@.len() ==> #[trigger] r.token_weights@[p] == if is_covered(
                span_weights@,
                p,
            ) {
                means@[p]
            } else {
                Score::zero()
            },
{
    let mut covered: Vec<bool> = Vec::new();
    let mut token_weights: Vec<Score> = Vec::new();
    let mut p: usize = 0;
    while p < tokens.len()
        invariant
            p <= tokens.len(),
            means@.len() == tokens@.len(),
            covered@.len() == p,
            token_weights@.len() == p,
            forall|q: int|
                0 <= q < p ==> #[trigger] covered@[q] == is_covered(span_weights@, q),
            forall|q: int|
                0 <= q < p ==> #[trigger] token_weights@[q] == if is_covered(span_weights@, q) {
                    means@[q]
                } else {
                    Score::zero()
                },
        decreases tokens.len() - p,
    {
        let mut found: bool = false;
        let mut k: usize = 0;
        while k < span_weights.len() && !found
            invariant
                k <= span_weights.len(),
                found ==> is_covered(span_weights@, p as int),
                !found ==> forall|j: int|
                    0 <= j < k ==> !(#[trigger] span_weights@[j]).span.holds(p as int),
            decreases span_weights.len() - k,
        {
            if span_weights[k].span.contains(p) {
                found = true;
            }
            k = k + 1;
        }
        covered.push(found);
        if found {
            token_weights.push(means[p]);
        } else {
            token_weights.push(Score { bits: 0 });
        }
        p = p + 1;
    }
    LabeledSequence { tokens: slice_to_vec(tokens), span_weights, token_weights, covered }
}

/// A position is covered exactly when some span stands in its coverage list.
pub proof fn covered_iff_some_span(span_weights: Seq<SpanWeight>, p: int)
    requires
        span_weights.len() <= usize::MAX,
    ensures
        is_covered(span_weights, p) <==> covering(span_weights, p).len() > 0,
        forall|k: usize|
            #[trigger] covering(span_weights, p).contains(k) <==> k < span_weights.len()
                && span_weights[k as int].span.holds(p),
{
    broadcast use vstd::seq_lib::group_filter_ensures;

    let all = Seq::new(span_weights.len(), |k: int| k as usize);
    let holds_p = |k: usize| span_weights[k as int].span.holds(p);
    assert forall|k: usize|
        #[trigger] covering(span_weights, p).contains(k) <==> k < span_weights.len()
            && span_weights[k as int].span.holds(p) by {
        if k < span_weights.len() && span_weights[k as int].span.holds(p) {
            all.lemma_filter_contains(holds_p, k as int);
        }
        if covering(span_weights, p).contains(k) {
            all.lemma_filter_contains_rev(holds_p, k);
            let i = choose|i: int|
                0 <= i < covering(span_weights, p).len() && covering(span_weights, p)[i] == k;
            all.lemma_filter_pred(holds_p, i);
        }
    }
    if is_covered(span_weights, p) {
        let k = choose|k: int|
            0 <= k < span_weights.len() && (#[trigger] span_weights[k]).span.holds(p);
        assert(covering(span_weights, p).contains(k as usize));
    }
    if covering(span_weights, p).len() > 0 {
        let k = covering(span_weights, p)[0];
        assert(covering(span_weights, p).contains(k));
    }
}

/// The seed of the span sampler for the data set made from `seed`.
pub fn labeling_seed(seed: u64, config: &AblationConfig) -> (r: u64)
    ensures
        r == (seed * 7919 + config.seed) % 0x1_0000_0000_0000_0000,
{
    seed.wrapping_mul(7919).wrapping_add(config.seed)
}

/// The autoregressive input view of each variant: one row per variant, without
/// its last token.
pub fn scoring_inputs(inputs: &[Vec<TokenId>], seq_len: usize) -> (r: TokenBatch)
    requires
        seq_len >= 1,
        forall|i: int|
            0 <= i < inputs@.len() ==> (#[trigger] inputs@[i])@.len() >= seq_len - 1,
        inputs@.len() > 0,
    ensures
        r.wf(),
        r.batch == inputs@.len(),
        r.seq_len == seq_len - 1,
        forall|i: int, j: int|
            0 <= i < r.batch && 0 <= j < r.seq_len ==> #[trigger] r.at(i, j) == inputs@[i]@[j],
{
    let mut rows: Vec<&[TokenId]> = Vec::new();
    let mut i: usize = 0;
    while i < inputs.len()
        invariant
            i <= inputs.len(),
            seq_len >= 1,
            forall|k: int|
                0 <= k < inputs@.len() ==> (#[trigger] inputs@[k])@.len() >= seq_len - 1,
            rows@.len() == i,
            forall|k: int|
                0 <= k < i ==> (#[trigger] rows@[k])@ == inputs@[k]@.subrange(0, seq_len - 1),
        decreases inputs.len() - i,
    {
        rows.push(slice_subrange(inputs[i].as_slice(), 0, seq_len - 1));
        i = i + 1;
    }
    TokenBatch::from_sequences(rows.as_slice())
}

/// The targets of every variant: the original continuation, the tokens after the
/// first.
pub fn scoring_targets(original: &[TokenId]) -> (r: Vec<i64>)
    requires
        original@.len() >= 1,
    ensures
        r@.len() == original@.len() - 1,
        forall|j: int| 0 <= j < r@.len() ==> #[trigger] r@[j] == original@[j + 1],
{
    widened(slice_subrange(original, 1, original.len()))
}

/// The weights of an example's pair spans, split into that of the queried pair
/// and those of the filler pairs. The pair spans are the last ones measured.
pub fn split_pair_weights(example: &KvExample, span_weights: &[SpanWeight]) -> (r: (
    Vec<Score>,
    Vec<Score>,
))
    requires
        example.pair_spans@.len() <= span_weights@.len(),
    ensures
        ({
            let pairs = span_weights@.skip(span_weights@.len() - example.pair_spans@.len());
            let q = example.queried_pair as int;
            if q < pairs.len() {
                &&& r.0@ == seq![pairs[q].weight]
                &&& r.1@ == pairs.remove(q).map_values(|w: SpanWeight| w.weight)
            } else {
                &&& r.0@ == Seq::<Score>::empty()
                &&& r.1@ == pairs.map_values(|w: SpanWeight| w.weight)
            }
        }),
{
    let first: usize = span_weights.len() - example.pair_spans.len();
    let ghost pairs = span_weights@.skip(first as int);
    let ghost q = example.queried_pair as int;
    let mut queried: Vec<Score> = Vec::new();
    let mut filler: Vec<Score> = Vec::new();
    let mut i: usize = 0;
    while i < example.pair_spans.len()
        invariant
            i <= example.pair_spans.len(),
            first == span_weights.len() - example.pair_spans.len(),
            pairs == span_weights@.skip(first as int),
            q == example.queried_pair,
            queried@ =~= if q < i {
                seq![pairs[q].weight]
            } else {
                Seq::<Score>::empty()
            },
            filler@ =~= (if q < i {
                pairs.take(i as int).remove(q)
            } else {
                pairs.take(i as int)
            }).map_values(|w: SpanWeight| w.weight),
        decreases example.pair_spans.len() - i,
    {
        if i == example.queried_pair {
            queried.push(span_weights[first + i].weight);
        } else {
            filler.push(span_weights[first + i].weight);
        }
        i = i + 1;
    }
    (queried, filler)
}

/// A training batch of the Critic: tokens, target weights and coverage mask, one
/// sequence after another.
pub struct LabelBatch {
    pub tokens: TokenBatch,
    pub weights: Vec<Score>,
    pub covered: Vec<bool>,
}

/// The target weights of the chosen labels, one sequence after another.
pub open spec fn chosen_weights(labels: Seq<LabeledSequence>, indices: Seq<usize>) -> Seq<Score> {
    indices.map_values(|i: usize| labels[i as int].token_weights@).flatten_alt()
}

/// The coverage of the chosen labels, one sequence after another.
pub open spec fn chosen_coverage(labels: Seq<LabeledSequence>, indices: Seq<usize>) -> Seq<bool> {
    indices.map_values(|i: usize| labels[i as int].covered@).flatten_alt()
}

proof fn lemma_chosen_step(labels: Seq<LabeledSequence>, indices: Seq<usize>, i: int)
    requires
        0 <= i < indices.len(),
    ensures
        chosen_weights(labels, indices.take(i + 1)) == chosen_weights(labels, indices.take(i))
            + labels[indices[i] as int].token_weights@,
        chosen_coverage(labels, indices.take(i + 1)) == chosen_coverage(labels, indices.take(i))
            + labels[indices[i] as int].covered@,
{
    let weights = |i: usize| labels[i as int].token_weights@;
    let covered = |i: usize| labels[i as int].covered@;
    assert(indices.take(i + 1).map_values(weights).drop_last() =~= indices.take(i).map_values(
        weights,
    ));
    assert(indices.take(i + 1).map_values(covered).drop_last() =~= indices.take(i).map_values(
        covered,
    ));
}

/// Gathers the chosen labels.
pub fn label_batch(labels: &[LabeledSequence], indices: &[usize]) -> (r: LabelBatch)
    requires
        indices@.len() > 0,
        forall|i: int| 0 <= i < indices@.len() ==> #[trigger] indices@[i] < labels@.len(),
        forall|i: int|
            0 <= i < indices@.len() ==> labels@[#[trigger] indices@[i] as int].tokens@.len()
                == labels@[indices@[0] as int].tokens@.len(),
    ensures
        r.tokens.wf(),
        r.tokens.batch == indices@.len(),
        r.tokens.seq_len == labels@[indices@[0] as int].tokens@.len(),
        forall|i: int, j: int|
            0 <= i < r.tokens.batch && 0 <= j < r.tokens.seq_len ==> #[trigger] r.tokens.at(i, j)
                == labels@[indices@[i] as int].tokens@[j],
        r.weights@ == chosen_weights(labels@, indices@),
        r.covered@ == chosen_coverage(labels@, indices@),
{
    let mut seqs: Vec<&[TokenId]> = Vec::new();
    let mut weights: Vec<Score> = Vec::new();
    let mut covered: Vec<bool> = Vec::new();
    let mut i: usize = 0;
    while i < indices.len()
        invariant
            i <= indices.len(),
            seqs@.len() == i,
            forall|k: int| 0 <= k < indices@.len() ==> #[trigger] indices@[k] < labels@.len(),
            forall|k: int|
                0 <= k < i ==> (#[trigger] seqs@[k])@ == labels@[indices@[k] as int].tokens@,
            weights@ == chosen_weights(labels@, indices@.take(i as int)),
            covered@ == chosen_coverage(labels@, indices@.take(i as int)),
        decreases indices.len() - i,
    {
        proof {
            lemma_chosen_step(labels@, indices@, i as int);
        }
        let label: &LabeledSequence = &labels[indices[i]];
        seqs.push(label.tokens.as_slice());
        let mut more_weights: Vec<Score> = slice_to_vec(label.token_weights.as_slice());
        let mut more_covered: Vec<bool> = slice_to_vec(label.covered.as_slice());
        weights.append(&mut more_weights);
        covered.append(&mut more_covered);
        i = i + 1;
    }
    assert(indices@.take(i as int) =~= indices@);
    LabelBatch { tokens: TokenBatch::from_sequences(seqs.as_slice()), weights, covered }
}

/// A drawn span is two draws of the generator: its length is the first, over
/// `min..=max`, cut to the `len - 2` tokens between the first and the last; its
/// start is the second, over every place from 1 to `len - 1 - length` where a span
/// of that length fits; and the state after it is what the second draw leaves.
pub proof fn a_span_is_two_draws(state: Seq<u32>, len: usize, min: usize, max: usize)
    requires
        len >= 2,
    ensures
        ({
            let first = random::inclusive_draw(state, min, max);
            let length = vstd::math::min(first.0 as int, len - 2);
            let second = random::inclusive_draw(first.1, 1, (len - 1 - length) as usize);
            let span = drawn_span(state, len, min, max).0;
            &&& span.start == second.0
            &&& second.0 <= len - 1 - length ==> span.end - span.start == length
            &&& drawn_span(state, len, min, max).1 == second.1
        }),
{
}

/// Sampling goes on where it left off: `a + b` spans are the first `a` and then
/// the `b` drawn from the state that those leave; one span is one draw, and no
/// spans leave the state alone.
pub proof fn span_draws_compose(
    state: Seq<u32>,
    len: usize,
    min: usize,
    max: usize,
    a: nat,
    b: nat,
)
    ensures
        ({
            let first = drawn_spans(state, len, min, max, a);
            let second = drawn_spans(first.1, len, min, max, b);
            &&& drawn_spans(state, len, min, max, a + b).0 == first.0 + second.0
            &&& drawn_spans(state, len, min, max, a + b).1 == second.1
        }),
        drawn_spans(state, len, min, max, 1).0 == seq![drawn_span(state, len, min, max).0],
        drawn_spans(state, len, min, max, 1).1 == drawn_span(state, len, min, max).1,
        drawn_spans(state, len, min, max, 0) == (Seq::<Span>::empty(), state),
        drawn_spans(state, len, min, max, a).0.len() == a,
    decreases a + b, b,
{
    reveal_with_fuel(drawn_spans, 2);
    let first = drawn_spans(state, len, min, max, a);
    if b == 0 {
        assert(first.0 + Seq::<Span>::empty() =~= first.0);
        if a > 0 {
            span_draws_compose(state, len, min, max, (a - 1) as nat, 0);
        }
    } else {
        span_draws_compose(state, len, min, max, a, (b - 1) as nat);
        let before = drawn_spans(first.1, len, min, max, (b - 1) as nat);
        let draw = drawn_span(before.1, len, min, max);
        assert((first.0 + before.0).push(draw.0) =~= first.0 + before.0.push(draw.0));
    }
}

/// Ablating a span masks its positions and no others: every position from the
/// span's start up to its end holds the mask, every other position its own token.
pub proof fn masking_covers_the_span_alone(tokens: Seq<TokenId>, span: Span, mask_id: TokenId)
    ensures
        masked(tokens, span, mask_id).len() == tokens.len(),
        forall|p: int|
            0 <= p < tokens.len() && span.start <= p < span.end ==> #[trigger] masked(
                tokens,
                span,
                mask_id,
            )[p] == mask_id,
        forall|p: int|
            0 <= p < tokens.len() && !(span.start <= p < span.end) ==> #[trigger] masked(
                tokens,
                span,
                mask_id,
            )[p] == tokens[p],
{
}

/// Prediction `i` predicts token `i + 1`. Downstream of a span it counts exactly
/// when that token lies at or after the span's end; from the span's start it
/// counts exactly when `i` lies at or after the start, however long the span is.
pub proof fn what_a_metric_takes_in(span: Span, i: int)
    requires
        0 <= i,
    ensures
        first_scored(span, AblationMetric::Downstream) <= i <==> span.end <= i + 1,
        first_scored(span, AblationMetric::FromSpanStart) <= i <==> span.start <= i,
        0 <= first_scored(span, AblationMetric::Downstream),
        0 <= first_scored(span, AblationMetric::FromSpanStart),
{
}

/// The spans over a position stand in the order in which they were measured, each
/// once, and they are exactly those whose range takes the position in.
pub proof fn coverage_lists_each_span_once(span_weights: Seq<SpanWeight>, p: int)
    requires
        span_weights.len() <= usize::MAX,
    ensures
        forall|i: int, j: int|
            0 <= i < j < covering(span_weights, p).len() ==> covering(span_weights, p)[i]
                < covering(span_weights, p)[j],
        forall|k: usize|
            #[trigger] covering(span_weights, p).contains(k) <==> k < span_weights.len()
                && span_weights[k as int].span.start <= p < span_weights[k as int].span.end,
        is_covered(span_weights, p) <==> exists|k: int|
            0 <= k < span_weights.len() && (#[trigger] span_weights[k]).span.start <= p
                < span_weights[k].span.end,
{
    let holds_p = |k: usize| span_weights[k as int].span.holds(p);
    counting::kept_indices_ascend(span_weights.len(), holds_p);
    if is_covered(span_weights, p) {
        let k = choose|k: int|
            0 <= k < span_weights.len() && (#[trigger] span_weights[k]).span.holds(p);
        assert(span_weights[k].span.start <= p < span_weights[k].span.end);
    }
    if exists|k: int|
        0 <= k < span_weights.len() && (#[trigger] span_weights[k]).span.start <= p
            < span_weights[k].span.end {
        let k = choose|k: int|
            0 <= k < span_weights.len() && (#[trigger] span_weights[k]).span.start <= p
                < span_weights[k].span.end;
        assert(span_weights[k].span.holds(p));
    }
}

/// The labels of a batch are laid end to end in the order in which they were
/// chosen: choosing more appends theirs, and one choice gives its own.
pub proof fn chosen_labels_line_up(
    labels: Seq<LabeledSequence>,
    a: Seq<usize>,
    b: Seq<usize>,
    i: usize,
)
    ensures
        chosen_weights(labels, a + b) == chosen_weights(labels, a) + chosen_weights(labels, b),
        chosen_coverage(labels, a + b) == chosen_coverage(labels, a) + chosen_coverage(labels, b),
        chosen_weights(labels, seq![i]) == labels[i as int].token_weights@,
        chosen_coverage(labels, seq![i]) == labels[i as int].covered@,
        chosen_weights(labels, Seq::empty()) == Seq::<Score>::empty(),
        chosen_coverage(labels, Seq::empty()) == Seq::<bool>::empty(),
    decreases b.len(),
{
    lemma_chosen_step(labels, seq![i], 0);
    assert(seq![i].take(1) =~= seq![i]);
    assert(seq![i].take(0) =~= Seq::<usize>::empty());
    assert(Seq::<Score>::empty() + labels[i as int].token_weights@
        =~= labels[i as int].token_weights@);
    assert(Seq::<bool>::empty() + labels[i as int].covered@ =~= labels[i as int].covered@);
    assert(chosen_weights(labels, Seq::empty()) =~= Seq::<Score>::empty());
    assert(chosen_coverage(labels, Seq::empty()) =~= Seq::<bool>::empty());
    if b.len() == 0 {
        assert(b =~= Seq::<usize>::empty());
        assert(a + b =~= a);
    } else {
        let n = b.len() - 1;
        chosen_labels_line_up(labels, a, b.drop_last(), i);
        lemma_chosen_step(labels, b, n);
        lemma_chosen_step(labels, a + b, a.len() + n);
        assert((a + b).take(a.len() + n) =~= a + b.drop_last());
        assert((a + b).take(a.len() + n + 1) =~= a + b);
        assert(b.take(n) =~= b.drop_last());
        assert(b.take(n + 1) =~= b);
    }
}

} // verus!

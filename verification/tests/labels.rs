use palimpsest::ablation::{
    assemble_labels, coverage, draw_span, label_batch, labeling_seed, mask_span, plan_labels,
    sample_spans, scored_indices, scoring_inputs, scoring_targets, split_pair_weights,
    weigh_spans, AblationConfig, AblationMetric, LabeledSequence,
};
use palimpsest::corruption::{corrupt, corrupt_batch, corrupt_often, repair, Corruption};
use palimpsest::kv_task::{build_example, generate_examples, KvTaskConfig};
use palimpsest::patch::Patch;
use palimpsest::random::{draw_many, generator};
use palimpsest::score::Score;
use palimpsest::span::Span;
use palimpsest::tokenizer::TokenId;
use palimpsest::vocab;
use rand::rngs::StdRng;
use rand::{Rng, SeedableRng};

fn score(x: f32) -> Score {
    Score { bits: (x as f64).to_bits() }
}

fn number(s: Score) -> f32 {
    f64::from_bits(s.bits) as f32
}

/// Fake scorer: NLL is 1.0 everywhere, except that if position 2 of the
/// input is masked, every later prediction costs 3.0, i.e. token 2 is
/// the only causally-important one.
fn fake_scorer(inputs: &[Vec<TokenId>], original: &[TokenId]) -> Vec<Vec<f32>> {
    let t = original.len();
    inputs
        .iter()
        .map(|inp| {
            let broken = inp[2] == 99;
            (0..t - 1).map(|i| if broken && i >= 2 { 3.0 } else { 1.0 }).collect()
        })
        .collect()
}

fn span_weight_from_rows(
    baseline: &[f32],
    ablated: &[f32],
    span: Span,
    metric: AblationMetric,
) -> f32 {
    let deltas: Vec<f32> = scored_indices(baseline.len(), span, metric)
        .positions()
        .map(|i| ablated[i] - baseline[i])
        .collect();
    if deltas.is_empty() {
        0.0
    } else {
        deltas.iter().sum::<f32>() / deltas.len() as f32
    }
}

fn label_sequence(
    tokens: &[TokenId],
    extra_spans: &[Span],
    config: &AblationConfig,
    rng: &mut StdRng,
) -> LabeledSequence {
    let plan = plan_labels(tokens, extra_spans, config, rng);
    let rows = fake_scorer(&plan.inputs, tokens);
    let weights: Vec<Score> = plan
        .spans
        .iter()
        .zip(&rows[1..])
        .map(|(&span, row)| score(span_weight_from_rows(&rows[0], row, span, config.metric)))
        .collect();
    let span_weights = weigh_spans(&plan.spans, &weights);
    let means: Vec<Score> = coverage(tokens.len(), &span_weights)
        .iter()
        .map(|over| {
            let sum: f32 = over.iter().map(|&k| number(span_weights[k].weight)).sum();
            score(sum / over.len() as f32)
        })
        .collect();
    assemble_labels(tokens, span_weights, &means)
}

fn test_config() -> AblationConfig {
    AblationConfig {
        spans_per_sequence: 32,
        min_span_len: 1,
        max_span_len: 2,
        metric: AblationMetric::Downstream,
        mask_id: 99,
        seed: 0,
    }
}

#[test]
fn important_token_gets_higher_weight() {
    let tokens: Vec<TokenId> = vec![1, 10, 11, 12, 13, 14, 2];
    let config = test_config();
    let mut rng = StdRng::seed_from_u64(7);
    let labeled = label_sequence(&tokens, &[], &config, &mut rng);

    assert!(labeled.covered[2], "position 2 should be covered by samples");
    let w2 = number(labeled.token_weights[2]);
    // Every other content position should have strictly lower weight.
    for p in [1usize, 3, 4, 5] {
        assert!(
            w2 > number(labeled.token_weights[p]) + 0.5,
            "expected pos 2 ({w2}) >> pos {p} ({})",
            number(labeled.token_weights[p])
        );
    }
}

#[test]
fn extra_spans_are_measured() {
    let tokens: Vec<TokenId> = vec![1, 10, 11, 12, 2];
    let config = AblationConfig { spans_per_sequence: 0, ..test_config() };
    let mut rng = StdRng::seed_from_u64(0);
    let labeled =
        label_sequence(&tokens, &[Span::new(2, 3), Span::new(3, 4)], &config, &mut rng);
    assert_eq!(labeled.span_weights.len(), 2);
    assert!(number(labeled.span_weights[0].weight) > 1.5); // masks important pos 2
    assert!(number(labeled.span_weights[1].weight) < 0.5);
}

#[test]
fn downstream_metric_ignores_in_span_targets() {
    let baseline = vec![1.0; 6];
    let ablated = vec![1.0, 5.0, 5.0, 1.0, 1.0, 1.0]; // deltas at i=1,2 only
    // Span [1,3): Downstream starts at i = e-1 = 2, sees delta at 2 only.
    let w_down =
        span_weight_from_rows(&baseline, &ablated, Span::new(1, 3), AblationMetric::Downstream);
    let w_from = span_weight_from_rows(
        &baseline,
        &ablated,
        Span::new(1, 3),
        AblationMetric::FromSpanStart,
    );
    assert!(w_from > w_down);
}

#[test]
fn scored_indices_by_metric() {
    let span = Span::new(2, 4);
    assert_eq!(scored_indices(6, span, AblationMetric::Downstream), Span::new(3, 6));
    assert_eq!(scored_indices(6, span, AblationMetric::FromSpanStart), Span::new(2, 6));
    assert!(scored_indices(2, span, AblationMetric::Downstream).is_empty());
    assert_eq!(scored_indices(3, Span::new(0, 0), AblationMetric::Downstream), Span::new(0, 3));
}

#[test]
fn default_labeling() {
    let config = AblationConfig::default();
    assert_eq!(config.spans_per_sequence, 16);
    assert_eq!((config.min_span_len, config.max_span_len), (1, 3));
    assert_eq!(config.metric, AblationMetric::Downstream);
    assert_eq!(config.mask_id, vocab::MASK);
    assert_eq!(config.seed, 0);
}

#[test]
fn sampled_spans_follow_the_generator() {
    let config = AblationConfig { spans_per_sequence: 20, ..AblationConfig::default() };
    let mut rng = StdRng::seed_from_u64(5);
    let spans = sample_spans(9, &config, &mut rng);
    let mut direct = StdRng::seed_from_u64(5);
    for span in &spans {
        let len = direct.random_range(1..=3usize).min(7);
        let start = direct.random_range(1..=8 - len);
        assert_eq!(*span, Span::new(start, start + len));
        assert!(span.start >= 1 && span.end <= 8);
    }
    assert_eq!(spans.len(), 20);
    assert_eq!(rng.random::<u64>(), direct.random::<u64>());
}

#[test]
fn spans_are_cut_to_short_sequences() {
    let mut rng = StdRng::seed_from_u64(1);
    for _ in 0..20 {
        assert_eq!(draw_span(&mut rng, 3, 4, 9), Span::new(1, 2));
        assert_eq!(draw_span(&mut rng, 2, 1, 3), Span::new(1, 1));
    }
}

#[test]
fn spans_have_the_asked_length() {
    let mut rng = generator(3);
    for len in 2..9usize {
        for (min, max) in [(0usize, 0usize), (1, 3), (4, 5), (9, 12)] {
            for _ in 0..10 {
                let span = draw_span(&mut rng, len, min, max);
                assert!(1 <= span.start && span.end <= len - 1);
                assert!(span.len() <= max.min(len - 2) && span.len() >= min.min(len - 2));
            }
        }
    }
}

#[test]
fn generators_follow_their_seed() {
    let (mut a, mut b) = (generator(71), StdRng::seed_from_u64(71));
    assert_eq!(a.random::<u64>(), b.random::<u64>());
    assert_ne!(generator(1).random::<u64>(), generator(2).random::<u64>());
}

#[test]
fn drawn_numbers_follow_the_generator() {
    let mut rng = StdRng::seed_from_u64(11);
    let mut direct = StdRng::seed_from_u64(11);
    let drawn = draw_many(&mut rng, 6, 22, 50);
    let expected: Vec<usize> = (0..50).map(|_| direct.random_range(6..22)).collect();
    assert_eq!(drawn, expected);
}

#[test]
fn masking_touches_the_span_alone() {
    assert_eq!(mask_span(&[1, 2, 3, 4], Span::new(1, 3), 99), vec![1, 99, 99, 4]);
    assert_eq!(mask_span(&[1, 2], Span::new(2, 2), 99), vec![1, 2]);
}

#[test]
fn coverage_lists_the_spans_over_each_position() {
    let spans = [Span::new(1, 3), Span::new(2, 4), Span::new(2, 3)];
    let weights = weigh_spans(&spans, &[score(1.0), score(2.0), score(3.0)]);
    let over = coverage(5, &weights);
    assert_eq!(over, vec![vec![], vec![0], vec![0, 1, 2], vec![1], vec![]]);
    let means = [score(9.0); 5];
    let labeled = assemble_labels(&[1, 2, 3, 4, 5], weights, &means);
    assert_eq!(labeled.covered, vec![false, true, true, true, false]);
    assert_eq!(labeled.token_weights[0], score(0.0));
    assert_eq!(labeled.token_weights[1], score(9.0));
}

#[test]
fn spans_without_a_weight_are_left_out() {
    let spans = [Span::new(1, 2), Span::new(2, 3)];
    assert_eq!(weigh_spans(&spans, &[score(1.0)]).len(), 1);
    assert_eq!(weigh_spans(&spans[..1], &[score(1.0), score(2.0)]).len(), 1);
}

#[test]
fn labeling_seed_wraps() {
    let config = AblationConfig { seed: 5, ..AblationConfig::default() };
    assert_eq!(labeling_seed(10, &config), 79_195);
    assert_eq!(labeling_seed(u64::MAX, &config), u64::MAX.wrapping_mul(7919).wrapping_add(5));
}

#[test]
fn scoring_views() {
    let inputs = vec![vec![1, 2, 3], vec![1, 99, 3]];
    let batch = scoring_inputs(&inputs, 3);
    assert_eq!(batch.dims(), [2, 2]);
    assert_eq!(batch.data, vec![1, 2, 1, 99]);
    assert_eq!(scoring_targets(&[1, 2, 3]), vec![2, 3]);
}

#[test]
fn pair_weights_split_by_query() {
    let config = KvTaskConfig { num_keys: 4, num_values: 4, num_pairs: 3 };
    let example = build_example(&config, &[0, 1, 2], &[0, 1, 2], 1);
    let mut spans = vec![Span::new(1, 2)];
    spans.extend_from_slice(&example.pair_spans);
    let weights = weigh_spans(&spans, &[score(9.0), score(1.0), score(2.0), score(3.0)]);
    let (queried, filler) = split_pair_weights(&example, &weights);
    assert_eq!(queried, vec![score(2.0)]);
    assert_eq!(filler, vec![score(1.0), score(3.0)]);
}

#[test]
fn label_batches_gather_rows() {
    let make = |w: f32, c: bool| LabeledSequence {
        tokens: vec![1, 2],
        span_weights: vec![],
        token_weights: vec![score(w), score(w + 1.0)],
        covered: vec![c, true],
    };
    let labels = vec![make(0.0, true), make(5.0, false)];
    let batch = label_batch(&labels, &[1, 0, 1]);
    assert_eq!(batch.tokens.dims(), [3, 2]);
    let weights: Vec<f32> = batch.weights.iter().map(|&w| number(w)).collect();
    assert_eq!(weights, vec![5.0, 6.0, 0.0, 1.0, 5.0, 6.0]);
    assert_eq!(batch.covered, vec![false, true, true, true, false, true]);
}

#[test]
fn corruption_follows_the_generator() {
    let config = KvTaskConfig::default();
    let kv = config.vocab();
    let tokens = &generate_examples(&config, 1, 4)[0].tokens;
    let mut rng = StdRng::seed_from_u64(61);
    let mut direct = StdRng::seed_from_u64(61);
    for _ in 0..30 {
        let (out, span) = corrupt(tokens, &kv, Corruption::RandomContent, 1, 3, &mut rng);
        let len = direct.random_range(1..=3usize);
        let start = direct.random_range(1..=13 - len);
        assert_eq!(span, Span::new(start, start + len));
        let mut expected = tokens.clone();
        for p in span.positions() {
            expected[p] = direct.random_range(6..22u32);
        }
        assert_eq!(out, expected);
        assert_eq!((out[0], out[13]), (vocab::BOS, vocab::EOS));
        assert!(span.positions().all(|p| kv.is_key(out[p]) || kv.is_value(out[p])));
    }
}

#[test]
fn mask_corruption_fills_with_mask() {
    let config = KvTaskConfig::default();
    let kv = config.vocab();
    let tokens = &generate_examples(&config, 1, 4)[0].tokens;
    let mut rng = StdRng::seed_from_u64(62);
    let (out, span) = corrupt(tokens, &kv, Corruption::MaskFill, 2, 2, &mut rng);
    for p in 0..tokens.len() {
        assert_eq!(out[p], if span.contains(p) { vocab::MASK } else { tokens[p] });
    }
    assert_eq!(span.len(), 2);
}

#[test]
fn corrupting_often_is_corrupting_again() {
    let config = KvTaskConfig::default();
    let kv = config.vocab();
    let tokens = &generate_examples(&config, 1, 70)[0].tokens;
    let mut rng = StdRng::seed_from_u64(71);
    let mut again = StdRng::seed_from_u64(71);
    let out = corrupt_often(tokens, &kv, Corruption::RandomContent, 1, 2, 2, &mut rng);
    let (once, _) = corrupt(tokens, &kv, Corruption::RandomContent, 1, 2, &mut again);
    let (twice, _) = corrupt(&once, &kv, Corruption::RandomContent, 1, 2, &mut again);
    assert_eq!(out, twice);
    assert_eq!(
        corrupt_often(tokens, &kv, Corruption::RandomContent, 1, 2, 0, &mut rng),
        *tokens
    );
}

#[test]
fn corrupted_batches_corrupt_in_order() {
    let config = KvTaskConfig::default();
    let kv = config.vocab();
    let examples = generate_examples(&config, 4, 40);
    let mut rng = StdRng::seed_from_u64(61);
    let mut again = StdRng::seed_from_u64(61);
    let (sequences, spans) =
        corrupt_batch(&examples, &[2, 0], &kv, Corruption::RandomContent, 1, 3, &mut rng);
    for (i, &at) in [2usize, 0].iter().enumerate() {
        let (tokens, span) =
            corrupt(&examples[at].tokens, &kv, Corruption::RandomContent, 1, 3, &mut again);
        assert_eq!(sequences[i], tokens);
        assert_eq!(spans[i], span);
    }
    assert_eq!((sequences.len(), spans.len()), (2, 2));
}

#[test]
fn repairs_are_compared_with_the_original() {
    let original = [1, 6, 14, 2];
    let damaged = [1, 5, 5, 2];
    let span = Span::new(1, 3);
    let good = repair(&damaged, &Patch::new(span, vec![6, 14]), &original);
    assert!(good.reconstructed);
    assert_eq!(good.tokens, original);
    let bad = repair(&damaged, &Patch::new(span, vec![6, 15]), &original);
    assert!(!bad.reconstructed);
    assert_eq!(bad.tokens, vec![1, 6, 15, 2]);
}

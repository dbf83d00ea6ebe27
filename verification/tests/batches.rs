use burn::backend::NdArray;
use burn::nn::{Embedding, EmbeddingConfig, Linear, LinearConfig};
use burn::tensor::{ElementConversion, Int, Tensor};
use palimpsest::batch::{batch_tokens, span_mask, span_masks, widened, BatchIndexer, TokenBatch};
use palimpsest::drafter::{Continuation, DrafterConfig};
use palimpsest::editor::{patch_from_predictions, EditorConfig};
use palimpsest::kv_task::{generate_examples, KvTaskConfig};
use palimpsest::span::Span;
use palimpsest::tokenizer::TokenId;
use rand::rngs::StdRng;
use rand::seq::SliceRandom;
use rand::SeedableRng;

type B = NdArray<f32>;

fn tensor(batch: TokenBatch) -> Tensor<B, 2, Int> {
    Tensor::from_data(batch.into_tensor_data(), &Default::default())
}

#[test]
fn builds_batch_with_expected_shapes() {
    let config = KvTaskConfig::default();
    let examples = generate_examples(&config, 8, 0);
    let seqs: Vec<&[u32]> = examples.iter().map(|e| e.tokens.as_slice()).collect();
    let batch = TokenBatch::from_sequences(&seqs);
    assert_eq!(batch.dims(), [8, config.seq_len()]);

    let (inputs, targets) = batch.autoregressive_views();
    assert_eq!(inputs.dims(), [8, config.seq_len() - 1]);
    assert_eq!(targets.dims(), [8, config.seq_len() - 1]);

    let (inputs, targets) = (tensor(inputs), tensor(targets));
    assert_eq!(inputs.dims(), [8, config.seq_len() - 1]);
    assert_eq!(targets.dims(), [8, config.seq_len() - 1]);

    // Target row 0 must equal input row 0 shifted by one.
    let inp: Vec<i64> = inputs.slice([0..1, 0..4]).into_data().to_vec().unwrap();
    let tgt: Vec<i64> = targets.slice([0..1, 0..3]).into_data().to_vec().unwrap();
    assert_eq!(inp[1..4], tgt[..]);
}

#[test]
fn indexer_cycles_without_repeats_within_epoch() {
    let mut idx = BatchIndexer::new(10, 3, 1);
    let mut seen = Vec::new();
    for _ in 0..3 {
        seen.extend_from_slice(idx.next_batch());
    }
    seen.sort_unstable();
    seen.dedup();
    assert_eq!(seen.len(), 9, "no repeats within one epoch");
}

#[test]
fn indexer_reshuffles_and_drops_the_ragged_tail() {
    let mut rng = StdRng::seed_from_u64(9);
    let mut order: Vec<usize> = (0..7).collect();
    order.shuffle(&mut rng);
    assert_ne!(order, (0..7).collect::<Vec<usize>>());
    let mut idx = BatchIndexer::new(7, 3, 9);
    assert_eq!(idx.next_batch(), &order[0..3]);
    assert_eq!(idx.next_batch(), &order[3..6]);
    order.shuffle(&mut rng);
    assert_eq!(idx.next_batch(), &order[0..3]);
    assert_eq!(idx.next_batch(), &order[3..6]);
}

#[test]
fn epoch_batches_follow_the_order() {
    let mut rng = StdRng::seed_from_u64(4);
    let mut order: Vec<usize> = (0..11).collect();
    order.shuffle(&mut rng);
    let mut idx = BatchIndexer::new(11, 2, 4);
    let mut handed_out = Vec::new();
    for _ in 0..5 {
        handed_out.extend_from_slice(idx.next_batch());
    }
    assert_eq!(handed_out, order[..10]);
}

#[test]
fn whole_set_batches_hold_every_index() {
    let mut idx = BatchIndexer::new(4, 4, 2);
    for _ in 0..3 {
        let mut batch = idx.next_batch().to_vec();
        batch.sort_unstable();
        assert_eq!(batch, vec![0, 1, 2, 3]);
    }
}

#[test]
fn batch_lays_sequences_out_row_by_row() {
    let batch = TokenBatch::from_sequences(&[&[1, 2, 3], &[4, 5, 4_000_000_000]]);
    assert_eq!(batch.data, vec![1, 2, 3, 4, 5, 4_000_000_000]);
    let data = batch.into_tensor_data();
    assert_eq!(data.shape, vec![2, 3]);
    assert_eq!(data.to_vec::<i64>().unwrap(), vec![1, 2, 3, 4, 5, 4_000_000_000]);
}

#[test]
fn views_are_shifted_by_one() {
    let batch = TokenBatch::from_sequences(&[&[1, 2, 3], &[4, 5, 6]]);
    let (inputs, targets) = batch.autoregressive_views();
    assert_eq!(inputs.data, vec![1, 2, 4, 5]);
    assert_eq!(targets.data, vec![2, 3, 5, 6]);
}

#[test]
fn batch_of_chosen_examples() {
    let config = KvTaskConfig::default();
    let examples = generate_examples(&config, 5, 3);
    let batch = batch_tokens(&examples, &[4, 0, 4]);
    assert_eq!(batch.dims(), [3, 14]);
    let mut expected = widened(&examples[4].tokens);
    expected.extend(widened(&examples[0].tokens));
    expected.extend(widened(&examples[4].tokens));
    assert_eq!(batch.data, expected);
}

#[test]
fn masks_mark_the_span() {
    assert_eq!(span_mask(Span::new(1, 3), 5), vec![0, 1, 1, 0, 0]);
    assert_eq!(span_mask(Span::new(3, 9), 5), vec![0, 0, 0, 1, 1]);
    let masks = span_masks(&[Span::new(0, 1), Span::new(2, 2)], 3);
    assert_eq!(masks.dims(), [2, 3]);
    assert_eq!(masks.data, vec![1, 0, 0, 0, 0, 0]);
}

/// A tiny token model: one embedding and one linear head.
struct TinyModel {
    embed: Embedding<B>,
    head: Linear<B>,
}

impl TinyModel {
    fn new(vocab_size: usize) -> TinyModel {
        let device = Default::default();
        TinyModel {
            embed: EmbeddingConfig::new(vocab_size, 8).init(&device),
            head: LinearConfig::new(8, vocab_size).init(&device),
        }
    }

    fn predictions(&self, input: TokenBatch) -> Vec<i64> {
        let t = input.seq_len;
        let logits = self.head.forward(self.embed.forward(tensor(input)));
        logits.argmax(2).reshape([t]).into_data().to_vec().unwrap()
    }

    fn next(&self, input: TokenBatch) -> i64 {
        let t = input.seq_len;
        let logits = self.head.forward(self.embed.forward(tensor(input)));
        logits.slice([0..1, t - 1..t]).argmax(2).into_scalar().elem()
    }
}

#[test]
fn greedy_generation_appends_tokens() {
    let config = DrafterConfig::new(22).with_max_seq_len(16);
    let model = TinyModel::new(config.vocab_size);
    let mut continuation = Continuation::new(&[1, 6, 14], 3);
    while let Some(input) = continuation.next_input() {
        let next = model.next(input);
        continuation.accept(next);
    }
    let out = continuation.into_tokens();
    assert_eq!(out.len(), 6);
    assert_eq!(&out[..3], &[1, 6, 14]);
}

#[test]
fn continuation_feeds_back_what_it_accepted() {
    let mut continuation = Continuation::new(&[3, 4], 2);
    assert_eq!(continuation.next_input().unwrap().data, vec![3, 4]);
    continuation.accept(9);
    let input = continuation.next_input().unwrap();
    assert_eq!(input.dims(), [1, 3]);
    assert_eq!(input.data, vec![3, 4, 9]);
    continuation.accept(7);
    assert!(continuation.next_input().is_none());
    assert_eq!(continuation.into_tokens(), vec![3, 4, 9, 7]);
}

#[test]
fn continuing_twice_is_continuing_once() {
    let model = TinyModel::new(22);
    let greedy = |prefix: &[TokenId], n: usize| {
        let mut continuation = Continuation::new(prefix, n);
        while let Some(input) = continuation.next_input() {
            let next = model.next(input);
            continuation.accept(next);
        }
        continuation.into_tokens()
    };
    let prefix = [1, 6, 14];
    assert_eq!(greedy(&prefix, 0), prefix);
    assert_eq!(greedy(&greedy(&prefix, 2), 3), greedy(&prefix, 5));
    assert!(greedy(&prefix, 5).iter().all(|&t| t < 22));
}

#[test]
fn proposes_same_length_patch() {
    let config = EditorConfig::new(22).with_max_seq_len(16);
    let model = TinyModel::new(config.vocab_size);
    let tokens: Vec<TokenId> = vec![1, 6, 14, 7, 15, 3, 6, 4, 14, 2];
    let span = Span::new(3, 5);
    let predictions = model.predictions(TokenBatch::from_sequences(&[&tokens]));
    let patch = patch_from_predictions(&predictions, span);
    assert_eq!(patch.span, span);
    assert_eq!(patch.replacement.len(), 2);
    assert!(patch.replacement.iter().all(|&t| (t as usize) < 22));
}

#[test]
fn patch_takes_the_predictions_inside_the_span() {
    let patch = patch_from_predictions(&[10, 11, 12, 13], Span::new(1, 3));
    assert_eq!(patch.span, Span::new(1, 3));
    assert_eq!(patch.replacement, vec![11, 12]);
}

#[test]
fn model_sizes() {
    let drafter = DrafterConfig::new(22);
    assert_eq!(
        (drafter.d_model, drafter.n_heads, drafter.n_layers, drafter.d_ff, drafter.max_seq_len),
        (64, 4, 2, 256, 64)
    );
    assert_eq!(drafter.with_max_seq_len(14).embedding().max_seq_len, 14);
    let editor = EditorConfig::new(22);
    assert_eq!(editor.embedding().vocab_size, 22);
    assert_eq!(editor.embedding().d_model, 64);
}

use palimpsest::kv_task::{
    build_example, generate_examples, task_consistent, KvExample, KvTaskConfig,
};
use palimpsest::span::Span;
use palimpsest::tokenizer::{TokenId, Tokenizer};
use palimpsest::vocab;
use rand::rngs::StdRng;
use rand::seq::SliceRandom;
use rand::{Rng, SeedableRng};

#[test]
fn generates_consistent_examples() {
    let config = KvTaskConfig::default();
    let examples = generate_examples(&config, 100, 42);

    for ex in &examples {
        assert_eq!(ex.tokens.len(), config.seq_len());
        assert_eq!(ex.tokens[0], vocab::BOS);
        assert_eq!(*ex.tokens.last().unwrap(), vocab::EOS);
        // The answer must equal the value of the queried pair.
        let qspan = ex.queried_span();
        assert_eq!(ex.tokens[ex.answer_pos], ex.tokens[qspan.start + 1]);
        // The query key must equal the queried pair's key.
        assert_eq!(ex.tokens[ex.answer_pos - 2], ex.tokens[qspan.start]);
        // Keys distinct within the sequence.
        let keys: Vec<TokenId> = ex.pair_spans.iter().map(|s| ex.tokens[s.start]).collect();
        let mut dedup = keys.clone();
        dedup.dedup();
        assert_eq!(keys.len(), {
            dedup.sort_unstable();
            dedup.dedup();
            dedup.len()
        });
    }
}

#[test]
fn deterministic_given_seed() {
    let config = KvTaskConfig::default();
    let a = generate_examples(&config, 10, 7);
    let b = generate_examples(&config, 10, 7);
    assert_eq!(
        a.iter().map(|e| e.tokens.clone()).collect::<Vec<_>>(),
        b.iter().map(|e| e.tokens.clone()).collect::<Vec<_>>()
    );
}

#[test]
fn decodes_to_readable_form() {
    let config = KvTaskConfig::default();
    let vocab = config.vocab();
    let ex = &generate_examples(&config, 1, 0)[0];
    let text = vocab.decode(&ex.tokens);
    assert!(text.starts_with("BOS"), "{text}");
    assert!(text.contains("QUERY"), "{text}");
}

#[test]
fn different_seeds_give_different_examples() {
    let config = KvTaskConfig::default();
    let a = generate_examples(&config, 10, 1);
    let b = generate_examples(&config, 10, 2);
    assert!(a.iter().zip(&b).any(|(x, y)| x.tokens != y.tokens));
}

#[test]
fn longer_runs_start_like_shorter_ones() {
    let config = KvTaskConfig::default();
    let short = generate_examples(&config, 3, 8);
    let long = generate_examples(&config, 7, 8);
    assert_eq!((short.len(), long.len()), (3, 7));
    for (a, b) in short.iter().zip(&long) {
        assert_eq!(a.tokens, b.tokens);
    }
}

#[test]
fn examples_come_from_the_generator_in_order() {
    let config = KvTaskConfig { num_keys: 5, num_values: 3, num_pairs: 2 };
    let mut rng = StdRng::seed_from_u64(17);
    let mut all_keys: Vec<usize> = (0..5).collect();
    let examples = generate_examples(&config, 6, 17);
    for ex in &examples {
        all_keys.shuffle(&mut rng);
        let values: Vec<usize> = (0..2).map(|_| rng.random_range(0..3)).collect();
        let queried = rng.random_range(0..2);
        let by_hand = build_example(&config, &all_keys[..2], &values, queried);
        assert_eq!(ex.tokens, by_hand.tokens);
        assert_eq!(ex.queried_pair, queried);
        assert_eq!(ex.pair_spans, by_hand.pair_spans);
    }
}

#[test]
fn default_task() {
    let config = KvTaskConfig::default();
    assert_eq!((config.num_keys, config.num_values, config.num_pairs), (8, 8, 4));
    assert_eq!(config.seq_len(), 14);
    assert_eq!(config.answer_pos(), 12);
    assert_eq!(config.vocab().vocab_size(), 22);
}

fn sample() -> (KvTaskConfig, KvExample) {
    let config = KvTaskConfig { num_keys: 8, num_values: 8, num_pairs: 3 };
    let example = build_example(&config, &[3, 0, 5], &[1, 7, 2], 2);
    (config, example)
}

#[test]
fn example_layout() {
    let (config, example) = sample();
    assert_eq!(
        config.vocab().decode(&example.tokens),
        "BOS K3 V1 K0 V7 K5 V2 SEP K5 QUERY V2 EOS"
    );
    assert_eq!(example.answer_pos, 10);
    assert_eq!(example.pair_spans, vec![Span::new(1, 3), Span::new(3, 5), Span::new(5, 7)]);
    assert_eq!(example.queried_span(), Span::new(5, 7));
}

#[test]
fn generated_examples_are_consistent() {
    let config = KvTaskConfig::default();
    let vocab = config.vocab();
    for ex in generate_examples(&config, 50, 5) {
        assert!(task_consistent(&config, &vocab, &ex.tokens));
    }
}

#[test]
fn a_wrong_answer_is_inconsistent() {
    let (config, example) = sample();
    let vocab = config.vocab();
    for v in 0..8usize {
        let mut tokens = example.tokens.clone();
        tokens[example.answer_pos] = vocab.value_id(v);
        assert_eq!(task_consistent(&config, &vocab, &tokens), v == 2);
    }
}

#[test]
fn only_the_queried_pair_decides() {
    let (config, example) = sample();
    let vocab = config.vocab();
    let mut tokens = example.tokens.clone();
    tokens[2] = vocab.value_id(6);
    tokens[3] = vocab.key_id(7);
    assert!(task_consistent(&config, &vocab, &tokens));
    tokens[6] = vocab.value_id(6);
    assert!(!task_consistent(&config, &vocab, &tokens));
}

#[test]
fn broken_layouts_are_inconsistent() {
    let (config, example) = sample();
    let vocab = config.vocab();
    assert!(task_consistent(&config, &vocab, &example.tokens));
    assert!(!task_consistent(&config, &vocab, &example.tokens[1..]));
    assert!(!task_consistent(&config, &vocab, &[]));
    for p in [0usize, 1, 2, 7, 8, 9, 11] {
        let mut tokens = example.tokens.clone();
        tokens[p] = vocab::PAD;
        assert!(!task_consistent(&config, &vocab, &tokens), "position {p}");
    }
    // A query key that no pair binds.
    let mut tokens = example.tokens.clone();
    tokens[8] = vocab.key_id(6);
    assert!(!task_consistent(&config, &vocab, &tokens));
}

#[test]
fn the_last_binding_of_a_repeated_key_counts() {
    let (config, example) = sample();
    let vocab = config.vocab();
    let mut tokens = example.tokens.clone();
    tokens[1] = vocab.key_id(5);
    assert!(task_consistent(&config, &vocab, &tokens));
    tokens[example.answer_pos] = vocab.value_id(1);
    assert!(!task_consistent(&config, &vocab, &tokens));
}

use palimpsest::ablation::LabeledSequence;
use palimpsest::critic::{CriticConfig, HaltingConfig, DEFAULT_WEIGHT_THRESHOLD};
use palimpsest::evaluation::{
    compare_with_ablation, pick_covered, sequence_correlations, shuffled_correlations,
};
use palimpsest::router::{flag_positions, RouterConfig, RouterMeta};
use palimpsest::score::Score;
use palimpsest::stats::{
    arrange, midranks, ranking, spearman, top_k_overlap, Overlap, RankCorrelation,
};
use palimpsest::training::should_log;
use rand::rngs::StdRng;
use rand::seq::SliceRandom;
use rand::{Rng, SeedableRng};

fn scores(x: &[f32]) -> Vec<Score> {
    x.iter().map(|&v| Score { bits: (v as f64).to_bits() }).collect()
}

fn correlation(r: RankCorrelation) -> f64 {
    if r.variance_a == 0 || r.variance_b == 0 {
        return 0.0;
    }
    r.covariance as f64 / ((r.variance_a as f64).sqrt() * (r.variance_b as f64).sqrt())
}

fn rho(a: &[f32], b: &[f32]) -> f64 {
    correlation(spearman(&scores(a), &scores(b)))
}

fn fraction(o: Overlap) -> f64 {
    if o.k == 0 {
        0.0
    } else {
        o.shared as f64 / o.k as f64
    }
}

#[test]
fn perfect_monotone_correlation() {
    let a = [1.0f32, 2.0, 3.0, 4.0];
    let b = [10.0f32, 20.0, 30.0, 40.0];
    assert!((rho(&a, &b) - 1.0).abs() < 1e-9);
    let inv = [40.0f32, 30.0, 20.0, 10.0];
    assert!((rho(&a, &inv) + 1.0).abs() < 1e-9);
}

#[test]
fn ties_are_midranked() {
    // Ties everywhere in b: zero variance, 0.
    let a = [1.0f32, 2.0, 3.0];
    let b = [5.0f32, 5.0, 5.0];
    assert_eq!(rho(&a, &b), 0.0);
    // Partial ties still yield a sensible positive correlation.
    let c = [0.0f32, 0.0, 1.0, 2.0];
    let d = [0.1f32, 0.0, 3.0, 9.0];
    assert!(rho(&c, &d) > 0.7);
}

#[test]
fn overlap() {
    let a = [9.0f32, 1.0, 8.0, 0.0];
    let b = [7.0f32, 6.0, 5.0, 0.0];
    // top-2(a) = {0, 2}, top-2(b) = {0, 1}: overlap 1/2.
    assert!((fraction(top_k_overlap(&scores(&a), &scores(&b), 2)) - 0.5).abs() < 1e-9);
}

#[test]
fn halting() {
    let cfg = HaltingConfig::new();
    assert!(cfg.should_halt(&[]));
    assert!(cfg.should_halt(&scores(&[0.01, 0.002])));
    assert!(!cfg.should_halt(&scores(&[0.01, 0.8])));
}

#[test]
fn flagging() {
    let threshold = scores(&[0.5])[0];
    assert_eq!(flag_positions(&scores(&[0.1, 0.9, 0.05, 0.7]), threshold), vec![1, 3]);
}

#[test]
fn flagging_is_strict() {
    let threshold = scores(&[0.5])[0];
    assert_eq!(flag_positions(&scores(&[0.5, 0.50001, f32::NAN]), threshold), vec![1]);
    assert_eq!(flag_positions(&[], threshold), Vec::<usize>::new());
}

#[test]
fn halting_threshold() {
    assert_eq!(DEFAULT_WEIGHT_THRESHOLD, 0.05f64.to_bits());
    let cfg = HaltingConfig::new().with_weight_threshold(Score { bits: 0.1f64.to_bits() });
    assert!(cfg.should_halt(&scores(&[0.09, -3.0])));
    // 0.1 as a narrow number lies above the wide 0.1.
    assert!(!cfg.should_halt(&scores(&[0.1])));
    assert!(!cfg.should_halt(&scores(&[f32::NAN])));
}

#[test]
fn halting_looks_at_the_heaviest() {
    let cfg = HaltingConfig::new();
    for weights in [[0.01f32, 0.04, 0.02], [0.01, 0.06, 0.02], [-1.0, -2.0, 0.0]] {
        let heaviest = weights.iter().cloned().fold(f32::MIN, f32::max);
        assert_eq!(cfg.should_halt(&scores(&weights)), (heaviest as f64) < 0.05);
    }
}

#[test]
fn doubled_ranks() {
    assert_eq!(midranks(&scores(&[5.0, -1.0, 5.0, 7.0, 5.0])), vec![6, 2, 6, 10, 6]);
    assert_eq!(midranks(&scores(&[0.0, -0.0])), vec![3, 3]);
    assert_eq!(midranks(&scores(&[3.0])), vec![2]);
    assert_eq!(midranks(&[]), Vec::<u64>::new());
}

#[test]
fn ranks_add_up() {
    for x in [
        vec![1.0f32, 2.0, 3.0, 4.0],
        vec![1.0, 1.0, 1.0, 1.0],
        vec![3.0, 1.0, 3.0, 2.0],
    ] {
        assert_eq!(midranks(&scores(&x)).iter().sum::<u64>(), 20);
    }
}

#[test]
fn ranks_follow_the_scores() {
    let x = [0.5f32, -2.0, 0.5, 9.0, 0.25];
    let ranks = midranks(&scores(&x));
    for p in 0..x.len() {
        for q in 0..x.len() {
            assert_eq!(x[p] < x[q], ranks[p] < ranks[q]);
            assert_eq!(x[p] == x[q], ranks[p] == ranks[q]);
        }
    }
}

#[test]
fn correlation_sums_are_exact() {
    // Doubled deviations: a is -2 -2 1 3 (ranks 1.5 1.5 3 4), b is -1 -3 1 3.
    let r = spearman(&scores(&[0.0, 0.0, 1.0, 2.0]), &scores(&[0.1, 0.0, 3.0, 9.0]));
    assert_eq!(r, RankCorrelation { covariance: 18, variance_a: 18, variance_b: 20 });
}

#[test]
fn short_inputs_do_not_correlate() {
    let none = RankCorrelation { covariance: 0, variance_a: 0, variance_b: 0 };
    assert_eq!(spearman(&[], &[]), none);
    assert_eq!(spearman(&scores(&[1.0]), &scores(&[2.0])), none);
    assert_eq!(spearman(&scores(&[f32::NAN]), &scores(&[2.0])), none);
}

#[test]
fn correlations_are_bounded() {
    let mut rng = StdRng::seed_from_u64(3);
    for _ in 0..20 {
        let a: Vec<f32> = (0..9).map(|_| rng.random_range(0..4) as f32).collect();
        let b: Vec<f32> = (0..9).map(|_| rng.random_range(0..4) as f32).collect();
        let r = spearman(&scores(&a), &scores(&b));
        assert!(r.covariance * r.covariance <= r.variance_a * r.variance_b);
        assert_eq!(r.variance_a == 0, a.iter().all(|&v| v == a[0]));
    }
}

#[test]
fn ranking_puts_the_highest_first() {
    assert_eq!(ranking(&scores(&[1.0, 9.0, 1.0, 4.0])), vec![2, 0, 3, 1]);
    let order: Vec<usize> = arrange(&[4, -1, 4, 0]).iter().map(|k| k.index).collect();
    assert_eq!(order, vec![1, 3, 0, 2]);
}

#[test]
fn overlap_counts() {
    let a = scores(&[9.0, 1.0, 8.0, 0.0]);
    let b = scores(&[7.0, 6.0, 5.0, 0.0]);
    assert_eq!(top_k_overlap(&a, &b, 2), Overlap { shared: 1, k: 2 });
    assert_eq!(top_k_overlap(&b, &a, 2), Overlap { shared: 1, k: 2 });
    assert_eq!(top_k_overlap(&a, &a, 3), Overlap { shared: 3, k: 3 });
    assert_eq!(top_k_overlap(&a, &b, 9), Overlap { shared: 4, k: 4 });
    assert_eq!(top_k_overlap(&a, &b, 0), Overlap { shared: 0, k: 0 });
    assert_eq!(top_k_overlap(&[], &[], 3), Overlap { shared: 0, k: 0 });
    // Of level scores the earlier ones count.
    let level = scores(&[2.0, 2.0, 2.0]);
    assert_eq!(top_k_overlap(&level, &scores(&[0.0, 1.0, 2.0]), 1), Overlap { shared: 0, k: 1 });
    assert_eq!(top_k_overlap(&level, &scores(&[2.0, 1.0, 0.0]), 1), Overlap { shared: 1, k: 1 });
}

fn label(weights: &[f32], covered: &[bool]) -> LabeledSequence {
    LabeledSequence {
        tokens: vec![0; weights.len()],
        span_weights: vec![],
        token_weights: scores(weights),
        covered: covered.to_vec(),
    }
}

#[test]
fn covered_positions_are_picked() {
    let x = scores(&[1.0, 2.0, 3.0]);
    assert_eq!(pick_covered(&[true, false, true], &x), scores(&[1.0, 3.0]));
    assert_eq!(pick_covered(&[false, false], &x), vec![]);
}

#[test]
fn sequences_are_judged_on_covered_positions() {
    let labels = vec![
        label(&[0.0, 1.0, 2.0, 3.0], &[false, true, true, true]),
        label(&[0.0, 1.0, 2.0, 3.0], &[false, true, true, false]),
        label(&[3.0, 2.0, 1.0, 0.0], &[true, true, true, true]),
    ];
    let predictions = scores(&[
        9.0, 1.0, 2.0, 3.0, // in order where covered
        0.0, 0.0, 0.0, 0.0, // too few covered
        1.0, 2.0, 3.0, 4.0, // reversed
    ]);
    let r = sequence_correlations(&labels, &predictions, 4);
    assert_eq!(r.len(), 2);
    assert_eq!(r[0], RankCorrelation { covariance: 8, variance_a: 8, variance_b: 8 });
    assert_eq!(r[1], RankCorrelation { covariance: -20, variance_a: 20, variance_b: 20 });
}

#[test]
fn baseline_shuffles_the_labels() {
    let labels = vec![
        label(&[0.0, 1.0, 2.0, 3.0, 4.0, 5.0], &[true; 6]),
        label(&[0.0, 1.0], &[true; 2]),
        label(&[5.0, 1.0, 4.0, 2.0], &[true; 4]),
    ];
    let r = shuffled_correlations(&labels, 123);
    let mut rng = StdRng::seed_from_u64(123);
    let mut expected = Vec::new();
    for lab in [&labels[0], &labels[2]] {
        let mut shuffled = lab.token_weights.clone();
        shuffled.shuffle(&mut rng);
        expected.push(spearman(&shuffled, &lab.token_weights));
    }
    assert_eq!(r, expected);
    assert!(r.iter().any(|c| c.covariance != c.variance_a));
}

#[test]
fn router_scores_are_compared_with_labels() {
    let lab = label(&[0.0, 3.0, 2.0, 1.0, 9.0], &[true, true, true, true, false]);
    let router = scores(&[0.5, 0.25, 0.75, 0.0, 1.0]);
    let mut rng = StdRng::seed_from_u64(99);
    let c = compare_with_ablation(&lab, &router, 2, &mut rng).unwrap();
    assert_eq!(c.overlap, Overlap { shared: 1, k: 2 });
    let mut direct = StdRng::seed_from_u64(99);
    let mut shuffled = router[..4].to_vec();
    shuffled.shuffle(&mut direct);
    assert_eq!(c.shuffled_overlap, top_k_overlap(&shuffled, &lab.token_weights[..4], 2));
    assert_eq!(c.correlation, spearman(&router[..4], &lab.token_weights[..4]));
    assert_eq!(rng.random::<u64>(), direct.random::<u64>());
}

#[test]
fn short_sequences_are_not_compared() {
    let two = label(&[0.0, 3.0, 2.0], &[true, true, false]);
    let three = label(&[0.0, 3.0, 2.0], &[true, true, true]);
    let router = scores(&[0.5, 0.25, 0.75]);
    let mut rng = StdRng::seed_from_u64(1);
    assert!(compare_with_ablation(&two, &router, 1, &mut rng).is_none());
    assert!(compare_with_ablation(&three, &router, 4, &mut rng).is_none());
    // Nothing was drawn.
    assert_eq!(rng.random::<u64>(), StdRng::seed_from_u64(1).random::<u64>());
    assert!(compare_with_ablation(&three, &router, 3, &mut rng).is_some());
}

#[test]
fn skipped_sequences_may_hold_nan() {
    let lab = label(&[0.0, f32::NAN, 2.0], &[true, true, true]);
    let router = scores(&[0.5, 0.25, f32::NAN]);
    assert!(compare_with_ablation(&lab, &router, 4, &mut StdRng::seed_from_u64(1)).is_none());
}

#[test]
fn router_reads_the_requested_layer() {
    assert_eq!(RouterMeta::select(None, 2, 64), Some(RouterMeta { layer: 1, d_input: 64 }));
    assert_eq!(RouterMeta::select(Some(0), 2, 64), Some(RouterMeta { layer: 0, d_input: 64 }));
    assert_eq!(RouterMeta::select(Some(2), 2, 64), None);
    assert_eq!(RouterConfig::new(64), RouterConfig { d_input: 64, d_hidden: 64 });
}

#[test]
fn critic_sizes() {
    let config = CriticConfig::new(22).with_max_seq_len(14);
    assert_eq!(config.embedding().max_seq_len, 14);
    assert_eq!((config.d_model, config.n_heads, config.n_layers, config.d_ff), (64, 4, 2, 256));
}

#[test]
fn logging_steps() {
    let logged: Vec<usize> = (1..=10).filter(|&s| should_log(s, 4)).collect();
    assert_eq!(logged, vec![1, 4, 8]);
}

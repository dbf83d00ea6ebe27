use palimpsest::critic::HaltingConfig;
use palimpsest::edit_loop::{tally, Decision, EditLoop, EditSettings, LoopTally, Trajectory};
use palimpsest::kv_task::{build_example, KvExample, KvTaskConfig};
use palimpsest::patch::Patch;
use palimpsest::score::Score;
use palimpsest::span::Span;
use palimpsest::tokenizer::TokenId;

fn score(x: f64) -> Score {
    Score { bits: x.to_bits() }
}

fn settings(max_steps: usize) -> EditSettings {
    EditSettings {
        max_steps,
        router_threshold: score(0.2),
        max_span_len: 3,
        halting: HaltingConfig::new().with_weight_threshold(score(0.1)),
    }
}

/// Runs the loop with a Router that scores every position, a Critic that weighs a
/// span by its first position, and an Editor that predicts fixed tokens.
fn run(
    max_steps: usize,
    draft: Vec<TokenId>,
    router: &dyn Fn(&[TokenId]) -> Vec<f64>,
    critic: &dyn Fn(&[TokenId], Span) -> f64,
    editor: &dyn Fn(&[TokenId]) -> Vec<i64>,
) -> EditLoop {
    let mut state = EditLoop::new(settings(max_steps), draft);
    while !state.is_finished() {
        let scores: Vec<Score> = router(state.tokens()).into_iter().map(score).collect();
        let spans = state.candidates(&scores);
        let weights: Vec<Score> =
            spans.iter().map(|&s| score(critic(state.tokens(), s))).collect();
        match state.decide(&weights) {
            Decision::Halt => {}
            Decision::Edit { span, .. } => {
                let predictions = editor(state.tokens());
                let router_score = scores[span.start];
                state.apply_predictions(&predictions, router_score);
            }
        }
    }
    state
}

fn sample() -> (KvTaskConfig, KvExample) {
    let config = KvTaskConfig { num_keys: 8, num_values: 8, num_pairs: 3 };
    let example = build_example(&config, &[3, 0, 5], &[1, 7, 2], 2);
    (config, example)
}

#[test]
fn loop_repairs_a_damaged_answer() {
    let (config, example) = sample();
    let clean = example.tokens.clone();
    let mut draft = clean.clone();
    draft[10] = config.vocab().value_id(4);
    let wanted = clean.clone();
    let state = run(
        8,
        draft.clone(),
        &|tokens| (0..tokens.len()).map(|p| if p == 10 { 0.9 } else { 0.0 }).collect(),
        &|_, _| 1.0,
        &|_| wanted.iter().map(|&t| t as i64).collect(),
    );
    let vocab = config.vocab();
    let t = state.finish(&config, &vocab, Some(&clean));
    assert_eq!(t.initial, draft);
    assert_eq!(t.final_tokens, clean);
    assert!(!t.initial_consistent);
    assert!(t.final_consistent);
    assert_eq!(t.exact_match_original, Some(true));
    assert!(t.initial_readable.ends_with("QUERY V4 EOS"), "{}", t.initial_readable);
    assert!(t.final_readable.ends_with("QUERY V2 EOS"), "{}", t.final_readable);
    // One edit, then one inspection that finds nothing to change, then the halt.
    assert_eq!(t.edits.len(), 1);
    assert_eq!(t.edits[0].step, 0);
    assert_eq!(t.edits[0].span, Span::new(10, 11));
    assert_eq!(t.edits[0].before, vec![vocab.value_id(4)]);
    assert_eq!(t.edits[0].after, vec![vocab.value_id(2)]);
    assert_eq!(t.edits[0].router_score, score(0.9));
    assert_eq!(t.edits[0].critic_weight, score(1.0));
    assert!(t.halted);
    assert_eq!(t.steps_used, 2);
}

#[test]
fn loop_halts_at_once_when_nothing_is_flagged() {
    let (config, example) = sample();
    let state = run(
        8,
        example.tokens.clone(),
        &|tokens| vec![0.2; tokens.len()],
        &|_, _| 1.0,
        &|_| unreachable!(),
    );
    let t = state.finish(&config, &config.vocab(), None);
    assert!(t.halted);
    assert_eq!(t.steps_used, 0);
    assert_eq!(t.exact_match_original, None);
    assert_eq!(t.final_tokens, example.tokens);
}

#[test]
fn light_spans_are_left_alone() {
    let state = run(8, vec![1, 2, 3], &|_| vec![0.9; 3], &|_, _| 0.05, &|_| unreachable!());
    assert!(state.halted());
    assert!(state.edits().is_empty());
}

#[test]
fn loop_stops_at_the_cap() {
    // The Editor counts every token up: it never settles.
    let state = run(
        5,
        vec![1, 2, 3],
        &|_| vec![0.9, 0.0, 0.0],
        &|_, _| 1.0,
        &|tokens| tokens.iter().map(|&t| t as i64 + 1).collect(),
    );
    assert!(!state.halted());
    assert_eq!(state.steps_used(), 5);
    assert_eq!(state.edits().len(), 5);
    assert_eq!(state.tokens(), vec![6, 2, 3]);
    let steps: Vec<usize> = state.edits().iter().map(|e| e.step).collect();
    assert_eq!(steps, vec![0, 1, 2, 3, 4]);
}

#[test]
fn no_steps_no_halt() {
    let state = run(0, vec![1, 2, 3], &|_| vec![0.9; 3], &|_, _| 1.0, &|_| unreachable!());
    assert!(state.is_finished());
    assert!(!state.halted());
    assert_eq!(state.steps_used(), 0);
}

#[test]
fn oscillation_ends_after_every_content_was_seen() {
    // The Editor swaps 1 and 2 forever; each content is inspected once.
    let state = run(
        8,
        vec![1, 7],
        &|_| vec![0.9, 0.0],
        &|_, _| 1.0,
        &|tokens| vec![if tokens[0] == 1 { 2 } else { 1 }, 0],
    );
    assert!(state.halted());
    assert_eq!(state.edits().len(), 2);
    assert_eq!(state.steps_used(), 2);
    assert_eq!(state.tokens(), vec![1, 7]);
    assert_ne!(state.edits()[0].before, state.edits()[1].before);
}

#[test]
fn heaviest_span_goes_first_and_the_last_of_equals_wins() {
    let mut state = EditLoop::new(settings(8), vec![1, 2, 3, 4, 5, 6]);
    let flags: Vec<Score> = [0.9, 0.0, 0.9, 0.0, 0.9, 0.0].iter().map(|&x| score(x)).collect();
    let spans = state.candidates(&flags);
    assert_eq!(spans, vec![Span::new(0, 1), Span::new(2, 3), Span::new(4, 5)]);
    let decision = state.decide(&[score(0.5), score(2.0), score(2.0)]);
    assert_eq!(decision, Decision::Edit { span: Span::new(4, 5), weight: score(2.0) });
    // The patch changes nothing, so the span is not eligible any more.
    assert!(!state.apply_predictions(&[1, 2, 3, 4, 5, 6], score(0.9)));
    let spans = state.candidates(&flags);
    assert_eq!(spans, vec![Span::new(0, 1), Span::new(2, 3)]);
    let decision = state.decide(&[score(3.0), score(2.0)]);
    assert_eq!(decision, Decision::Edit { span: Span::new(0, 1), weight: score(3.0) });
    assert!(state.apply_predictions(&[9, 9, 9, 9, 9, 9], score(0.9)));
    assert_eq!(state.tokens(), vec![9, 2, 3, 4, 5, 6]);
    // Its content changed, so it is eligible again.
    let spans = state.candidates(&flags);
    assert_eq!(spans, vec![Span::new(0, 1), Span::new(2, 3)]);
}

#[test]
fn only_edited_spans_differ_from_the_draft() {
    let draft = vec![1, 2, 3, 4, 5, 6];
    let state = run(
        4,
        draft.clone(),
        &|_| vec![0.0, 0.9, 0.9, 0.0, 0.9, 0.0],
        &|_, span| span.start as f64,
        &|_| vec![8; 6],
    );
    for p in 0..draft.len() {
        if !state.edits().iter().any(|e| e.span.contains(p)) {
            assert_eq!(state.tokens()[p], draft[p]);
        }
    }
    assert_eq!(state.tokens(), vec![1, 8, 8, 4, 8, 6]);
    assert!(state.edits().len() <= state.steps_used());
}

#[test]
fn the_log_leads_to_the_final_tokens_and_back() {
    let draft = vec![1, 2, 3, 4, 5, 6];
    let state = run(
        6,
        draft.clone(),
        &|_| vec![0.0, 0.9, 0.9, 0.0, 0.9, 0.0],
        &|tokens, span| tokens[span.start] as f64,
        &|tokens| tokens.iter().map(|&t| (t as i64 * 3) % 7).collect(),
    );
    assert!(state.edits().len() > 1);
    let mut tokens = draft.clone();
    for e in state.edits() {
        assert_eq!(&tokens[e.span.start..e.span.end], &e.before[..]);
        tokens = Patch::new(e.span, e.after.clone()).apply(&tokens);
    }
    assert_eq!(tokens, state.tokens());
    for e in state.edits().iter().rev() {
        tokens = Patch::new(e.span, e.before.clone()).apply(&tokens);
    }
    assert_eq!(tokens, draft);
}

#[test]
fn inspected_span_returns_only_with_other_content() {
    let mut state = EditLoop::new(settings(8), vec![1, 2]);
    let first = [score(0.9), score(0.0)];
    let both = [score(0.9), score(0.9)];
    // The Editor finds nothing to change in the first position.
    assert_eq!(state.candidates(&first), vec![Span::new(0, 1)]);
    state.decide(&[score(1.0)]);
    assert!(!state.apply_predictions(&[1, 2], score(0.9)));
    assert!(state.candidates(&first).is_empty());
    // A wider edit changes it: it is eligible again.
    assert_eq!(state.candidates(&both), vec![Span::new(0, 2)]);
    state.decide(&[score(1.0)]);
    assert!(state.apply_predictions(&[5, 6], score(0.9)));
    assert_eq!(state.candidates(&first), vec![Span::new(0, 1)]);
    // Another wide edit brings the old content back: it is not eligible any more.
    assert_eq!(state.candidates(&both), vec![Span::new(0, 2)]);
    state.decide(&[score(1.0)]);
    assert!(state.apply_predictions(&[1, 9], score(0.9)));
    assert!(state.candidates(&first).is_empty());
}

#[test]
fn edits_are_heavy_and_short_enough() {
    let state = run(
        6,
        vec![1, 2, 3, 4, 5, 6],
        &|_| vec![0.9; 6],
        &|_, span| if span.start == 0 { 0.05 } else { 0.5 },
        &|tokens| tokens.iter().map(|&t| t as i64 + 1).collect(),
    );
    assert_eq!(state.edits().len(), 6);
    for e in state.edits() {
        assert_eq!(e.span, Span::new(3, 6));
        assert!(!e.critic_weight.less_than(score(0.1)));
        assert!(e.span.len() <= 3);
    }
}

#[test]
fn halted_loops_leave_steps_unused() {
    for max_steps in 0..6usize {
        let state = run(
            max_steps,
            vec![1, 7],
            &|_| vec![0.9, 0.0],
            &|_, _| 1.0,
            &|tokens| vec![if tokens[0] == 1 { 2 } else { 1 }, 0],
        );
        assert!(state.is_finished());
        assert_eq!(state.halted(), state.steps_used() < max_steps);
        assert_eq!(state.halted(), max_steps > 2);
    }
}

fn trajectory(
    consistent: (bool, bool),
    halted: bool,
    steps_used: usize,
    exact: Option<bool>,
) -> Trajectory {
    Trajectory {
        initial: vec![],
        initial_readable: String::new(),
        final_tokens: vec![],
        final_readable: String::new(),
        edits: vec![],
        halted,
        steps_used,
        initial_consistent: consistent.0,
        final_consistent: consistent.1,
        exact_match_original: exact,
    }
}

#[test]
fn trajectories_are_counted() {
    let (config, example) = sample();
    let mut edited = run(
        2,
        example.tokens.clone(),
        &|tokens| (0..tokens.len()).map(|p| if p == 1 { 1.0 } else { 0.0 }).collect(),
        &|_, _| 1.0,
        &|tokens| tokens.iter().map(|&t| t as i64 + 1).collect(),
    )
    .finish(&config, &config.vocab(), Some(&example.tokens));
    edited.halted = false;
    let all = vec![
        trajectory((false, true), true, 3, Some(true)),
        trajectory((true, true), true, 0, Some(false)),
        trajectory((false, false), false, 8, None),
        edited,
    ];
    assert_eq!(
        tally(&all),
        LoopTally {
            trajectories: 4,
            initially_consistent: 2,
            finally_consistent: 3,
            halted: 2,
            exact: 1,
            steps: 13,
            edits: 2,
        }
    );
    assert_eq!(tally(&[]).trajectories, 0);
}

use palimpsest::patch::{tokens_equal, Patch};
use palimpsest::score::Score;
use palimpsest::scratchpad::ScratchpadState;
use palimpsest::sorting::{merge_sort, KeyedIndex};
use palimpsest::span::{merge_positions_into_spans, Span};

fn score(x: f64) -> Score {
    Score { bits: x.to_bits() }
}

#[test]
fn apply_same_length() {
    let patch = Patch::new(Span::new(1, 3), vec![9, 9]);
    assert_eq!(patch.apply(&[0, 1, 2, 3]), vec![0, 9, 9, 3]);
}

#[test]
fn noop_detection() {
    let patch = Patch::new(Span::new(1, 3), vec![1, 2]);
    assert!(patch.is_noop_on(&[0, 1, 2, 3]));
    assert!(!patch.is_noop_on(&[0, 5, 2, 3]));
}

#[test]
fn merges_adjacent_positions() {
    let spans = merge_positions_into_spans(vec![5, 3, 4, 9], 8);
    assert_eq!(spans, vec![Span::new(3, 6), Span::new(9, 10)]);
}

#[test]
fn respects_max_span_len() {
    let spans = merge_positions_into_spans(vec![0, 1, 2, 3], 2);
    assert_eq!(spans, vec![Span::new(0, 2), Span::new(2, 4)]);
}

#[test]
fn overlap_logic() {
    assert!(Span::new(0, 3).overlaps(&Span::new(2, 5)));
    assert!(!Span::new(0, 3).overlaps(&Span::new(3, 5)));
}

#[test]
fn overlapping_spans_share_a_position() {
    for a in 0..4usize {
        for b in a + 1..5 {
            for c in 0..4usize {
                for d in c + 1..5 {
                    let left = Span::new(a, b);
                    let right = Span::new(c, d);
                    let shared = (0..5usize).any(|p| left.contains(p) && right.contains(p));
                    assert_eq!(left.overlaps(&right), shared, "{left:?} {right:?}");
                }
            }
        }
    }
}

#[test]
fn span_measures() {
    let span = Span::new(2, 5);
    assert_eq!(span.len(), 3);
    assert!(!span.is_empty());
    assert!(Span::new(4, 4).is_empty());
    assert_eq!(Span::new(4, 4).len(), 0);
    assert!(!span.contains(1));
    assert!(span.contains(2));
    assert!(span.contains(4));
    assert!(!span.contains(5));
    assert_eq!(span.positions().collect::<Vec<usize>>(), vec![2, 3, 4]);
}

#[test]
fn merging_nothing_gives_nothing() {
    assert_eq!(merge_positions_into_spans(vec![], 3), vec![]);
}

#[test]
fn merging_ignores_repeats() {
    let spans = merge_positions_into_spans(vec![7, 2, 7, 2, 3], 8);
    assert_eq!(spans, vec![Span::new(2, 4), Span::new(7, 8)]);
}

#[test]
fn merging_depends_on_the_set_of_positions_alone() {
    let a = merge_positions_into_spans(vec![1, 2, 3, 4, 8], 3);
    let b = merge_positions_into_spans(vec![8, 4, 3, 2, 1, 2, 8], 3);
    assert_eq!(a, b);
    assert_eq!(a, vec![Span::new(1, 4), Span::new(4, 5), Span::new(8, 9)]);
}

#[test]
fn patch_of_another_length_splices() {
    let longer = Patch::new(Span::new(1, 2), vec![7, 8, 9]);
    assert_eq!(longer.apply(&[0, 1, 2]), vec![0, 7, 8, 9, 2]);
    let shorter = Patch::new(Span::new(0, 2), vec![]);
    assert_eq!(shorter.apply(&[0, 1, 2]), vec![2]);
    let insertion = Patch::new(Span::new(3, 3), vec![5]);
    assert_eq!(insertion.apply(&[0, 1, 2]), vec![0, 1, 2, 5]);
}

#[test]
fn patch_outside_the_buffer_is_no_noop() {
    let patch = Patch::new(Span::new(2, 4), vec![2, 3]);
    assert!(!patch.is_noop_on(&[0, 1, 2]));
    assert!(!Patch::new(Span { start: 2, end: 1 }, vec![]).is_noop_on(&[0, 1, 2]));
    assert!(Patch::new(Span::new(3, 3), vec![]).is_noop_on(&[0, 1, 2]));
}

#[test]
fn same_length_patch_keeps_other_positions() {
    let tokens = [4, 5, 6, 7, 8];
    let out = Patch::new(Span::new(2, 4), vec![1, 2]).apply(&tokens);
    assert_eq!(out.len(), tokens.len());
    for p in [0usize, 1, 4] {
        assert_eq!(out[p], tokens[p]);
    }
    assert_eq!(&out[2..4], &[1, 2]);
}

#[test]
fn patch_changes_the_buffer_unless_noop() {
    let tokens = [4, 5, 6];
    let noop = Patch::new(Span::new(1, 3), vec![5, 6]);
    assert!(noop.is_noop_on(&tokens));
    assert_eq!(noop.apply(&tokens), tokens);
    let change = Patch::new(Span::new(1, 3), vec![5, 7]);
    assert!(!change.is_noop_on(&tokens));
    assert_ne!(change.apply(&tokens), tokens);
}

#[test]
fn old_tokens_undo_a_patch() {
    let tokens = [4, 5, 6, 7];
    let patched = Patch::new(Span::new(1, 3), vec![1, 2, 3]).apply(&tokens);
    let back = Patch::new(Span::new(1, 4), vec![5, 6]);
    assert_eq!(back.apply(&patched), tokens);
}

#[test]
fn token_buffers_compare() {
    assert!(tokens_equal(&[], &[]));
    assert!(tokens_equal(&[1, 2], &[1, 2]));
    assert!(!tokens_equal(&[1, 2], &[1, 3]));
    assert!(!tokens_equal(&[1, 2], &[1, 2, 3]));
}

#[test]
fn scratchpad_records_its_edits() {
    let mut pad = ScratchpadState::new(vec![1, 2, 3, 4]);
    assert_eq!(pad.edit_count(), 0);
    pad.apply(Patch::new(Span::new(1, 2), vec![9]), score(0.75), score(1.5));
    pad.apply(Patch::new(Span::new(0, 2), vec![8, 8]), score(0.5), score(0.25));
    assert_eq!(pad.edit_count(), 2);
    assert_eq!(pad.tokens, vec![8, 8, 3, 4]);
    assert_eq!(pad.initial_draft, vec![1, 2, 3, 4]);
    assert_eq!(pad.history[0].step, 0);
    assert_eq!(pad.history[1].step, 1);
    assert_eq!(pad.history[0].router_score, score(0.75));
    assert_eq!(pad.history[1].critic_weight_before, score(0.25));
    let mut replay = pad.initial_draft.clone();
    for record in &pad.history {
        replay = record.patch.apply(&replay);
    }
    assert_eq!(replay, pad.tokens);
}

#[test]
fn scores_compare_as_numbers() {
    let values = [
        f64::NEG_INFINITY,
        -1.0e300,
        -2.5,
        -1.0e-310,
        -0.0,
        0.0,
        1.0e-310,
        0.05,
        2.5,
        1.0e300,
        f64::INFINITY,
        f64::NAN,
        -f64::NAN,
    ];
    for a in values {
        assert_eq!(score(a).is_nan(), a.is_nan());
        for b in values {
            assert_eq!(score(a).less_than(score(b)), a < b, "{a} {b}");
        }
    }
    assert_eq!(score(-0.0).order_key(), 0);
    assert_eq!(score(0.0).order_key(), 0);
    assert_eq!(score(1.0).order_key(), 0x3ff0_0000_0000_0000);
    assert_eq!(score(-1.0).order_key(), -0x3ff0_0000_0000_0000);
}

#[test]
fn narrow_numbers_compare_after_widening() {
    for (a, b) in [(0.1f32, 0.2f32), (-0.1, 0.1), (3.0, -3.0), (0.05, 0.05)] {
        assert_eq!(score(a as f64).less_than(score(b as f64)), a < b);
    }
}

#[test]
fn score_order_is_strict() {
    let (a, b, c) = (score(-1.0), score(0.5), score(2.0));
    assert!(!a.less_than(a));
    assert!(a.less_than(b) && !b.less_than(a));
    assert!(a.less_than(b) && b.less_than(c) && a.less_than(c));
}

#[test]
fn merge_sort_sorts() {
    let sorted: Vec<usize> = merge_sort(vec![5, 3, 9, 3, 0, 7]);
    assert_eq!(sorted, vec![0, 3, 3, 5, 7, 9]);
    let keyed: Vec<KeyedIndex> = merge_sort(vec![
        KeyedIndex { key: 2, index: 0 },
        KeyedIndex { key: -1, index: 1 },
        KeyedIndex { key: 2, index: 2 },
    ]);
    let order: Vec<usize> = keyed.iter().map(|k| k.index).collect();
    assert_eq!(order, vec![1, 0, 2]);
}

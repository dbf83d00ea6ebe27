//! Judging predicted weights against ablation labels.
//!
//! Only covered positions count: a position that no sampled span touched carries
//! no label. A sequence with fewer than three covered positions is left out.

use crate::ablation::LabeledSequence;
use crate::counting;
use crate::random;
use crate::random::{seeded, shuffle};
use crate::score;
use crate::score::Score;
use crate::stats;
use crate::stats::{spearman, top_k_overlap, Overlap, RankCorrelation};
use rand::rngs::StdRng;
use vstd::prelude::*;
use vstd::slice::{slice_subrange, slice_to_vec};

verus! {

/// The fewest covered positions that a sequence is judged on.
pub const MIN_COVERED: usize = 3;

/// The scores at the covered positions, in order.
pub open spec fn covered_scores(covered: Seq<bool>, x: Seq<Score>) -> Seq<Score>
    decreases covered.len(),
{
    if covered.len() == 0 {
        Seq::empty()
    } else {
        let before = covered_scores(covered.drop_last(), x);
        if covered.last() {
            before.push(x[covered.len() - 1])
        } else {
            before
        }
    }
}

/// Every covered position has a score.
pub open spec fn has_covered(covered: Seq<bool>, x: Seq<Score>) -> bool {
    forall|j: int| 0 <= j < covered.len() && #[trigger] covered[j] ==> j < x.len()
}

/// How many covered positions there are depends on the coverage alone.
proof fn lemma_covered_len(covered: Seq<bool>, x: Seq<Score>, y: Seq<Score>)
    ensures
        covered_scores(covered, x).len() == covered_scores(covered, y).len(),
        covered_scores(covered, x).len() <= covered.len(),
    decreases covered.len(),
{
    if covered.len() > 0 {
        lemma_covered_len(covered.drop_last(), x, y);
    }
}

/// Picks the scores at the covered positions.
pub fn pick_covered(covered: &[bool], x: &[Score]) -> (r: Vec<Score>)
    requires
        has_covered(covered@, x@),
    ensures
        r@ == covered_scores(covered@, x@),
{
    let mut out: Vec<Score> = Vec::new();
    let mut j: usize = 0;
    while j < covered.len()
        invariant
            j <= covered.len(),
            has_covered(covered@, x@),
            out@ == covered_scores(covered@.take(j as int), x@),
        decreases covered.len() - j,
    {
        proof {
            assert(covered@.take(j + 1).drop_last() =~= covered@.take(j as int));
        }
        if covered[j] {
            out.push(x[j]);
        }
        j = j + 1;
    }
    assert(covered@.take(j as int) =~= covered@);
    out
}

/// The label's covered positions can be judged with `scores`.
pub open spec fn judgeable(label: LabeledSequence, scores: Seq<Score>) -> bool {
    let covered = label.covered@;
    &&& has_covered(covered, scores)
    &&& has_covered(covered, label.token_weights@)
    &&& covered.len() <= stats::MAX_RANKED
    &&& covered_scores(covered, scores).len() >= MIN_COVERED ==> score::all_numbers(
        covered_scores(covered, scores),
    ) && score::all_numbers(covered_scores(covered, label.token_weights@))
}

/// Row `i` of a table of rows of `width` scores.
pub open spec fn row(table: Seq<Score>, width: nat, i: int) -> Seq<Score> {
    table.subrange(i * width, (i + 1) * width)
}

/// The rankings to correlate: for each label with enough covered positions, the
/// predictions of its row at those positions, and its weights there.
pub open spec fn compared(
    labels: Seq<LabeledSequence>,
    predictions: Seq<Score>,
    width: nat,
) -> Seq<(Seq<Score>, Seq<Score>)>
    decreases labels.len(),
{
    if labels.len() == 0 {
        Seq::empty()
    } else {
        let before = compared(labels.drop_last(), predictions, width);
        let covered = labels.last().covered@;
        let predicted = covered_scores(covered, row(predictions, width, labels.len() - 1));
        if predicted.len() >= MIN_COVERED {
            before.push((predicted, covered_scores(covered, labels.last().token_weights@)))
        } else {
            before
        }
    }
}

/// The correlations are those of the listed pairs of rankings, in order.
pub open spec fn relate_all(
    correlations: Seq<RankCorrelation>,
    pairs: Seq<(Seq<Score>, Seq<Score>)>,
) -> bool {
    &&& correlations.len() == pairs.len()
    &&& forall|i: int|
        0 <= i < pairs.len() ==> (#[trigger] correlations[i]).relates(pairs[i].0, pairs[i].1)
}

/// Correlates the predicted weights of each sequence with its labels, over its
/// covered positions. Prediction row `i` belongs to label `i`.
pub fn sequence_correlations(
    labels: &[LabeledSequence],
    predictions: &[Score],
    width: usize,
) -> (r: Vec<RankCorrelation>)
    requires
        labels@.len() * width <= predictions@.len(),
        forall|i: int|
            0 <= i < labels@.len() ==> judgeable(
                #[trigger] labels@[i],
                row(predictions@, width as nat, i),
            ),
    ensures
        relate_all(r@, compared(labels@, predictions@, width as nat)),
{
    let mut out: Vec<RankCorrelation> = Vec::new();
    let mut i: usize = 0;
    let mut start: usize = 0;
    while i < labels.len()
        invariant
            i <= labels.len(),
            start == i * width,
            labels@.len() * width <= predictions@.len(),
            forall|k: int|
                0 <= k < labels@.len() ==> judgeable(
                    #[trigger] labels@[k],
                    row(predictions@, width as nat, k),
                ),
            relate_all(out@, compared(labels@.take(i as int), predictions@, width as nat)),
        decreases labels.len() - i,
    {
        proof {
            assert((i + 1) * width == i * width + width && (i + 1) * width <= labels@.len()
                * width) by (nonlinear_arith)
                requires
                    i + 1 <= labels@.len(),
            ;
            assert(predictions@.len() == predictions.len());
            assert(labels@.take(i + 1).drop_last() =~= labels@.take(i as int));
        }
        let label: &LabeledSequence = &labels[i];
        let scores: &[Score] = slice_subrange(predictions, start, start + width);
        let predicted: Vec<Score> = pick_covered(label.covered.as_slice(), scores);
        if predicted.len() >= MIN_COVERED {
            let truth: Vec<Score> = pick_covered(
                label.covered.as_slice(),
                label.token_weights.as_slice(),
            );
            proof {
                lemma_covered_len(label.covered@, scores@, label.token_weights@);
            }
            out.push(spearman(predicted.as_slice(), truth.as_slice()));
        }
        start = start + width;
        i = i + 1;
    }
    assert(labels@.take(i as int) =~= labels@);
    out
}

/// The rankings that the no-skill baseline correlates, and the generator's state
/// after them: the label weights against a shuffle of themselves.
pub open spec fn shuffled(labels: Seq<LabeledSequence>, state: Seq<u32>) -> (
    Seq<(Seq<Score>, Seq<Score>)>,
    Seq<u32>,
)
    decreases labels.len(),
{
    if labels.len() == 0 {
        (Seq::empty(), state)
    } else {
        let before = shuffled(labels.drop_last(), state);
        let truth = covered_scores(labels.last().covered@, labels.last().token_weights@);
        if truth.len() >= MIN_COVERED {
            let draw = random::shuffle_draw(before.1, truth.len());
            (before.0.push((random::permuted(truth, draw.0), truth)), draw.1)
        } else {
            before
        }
    }
}

/// Reference point: the correlation of label weights with a random shuffle of
/// themselves, which is what "no skill" looks like on this label distribution.
pub fn shuffled_correlations(labels: &[LabeledSequence], seed: u64) -> (r: Vec<RankCorrelation>)
    requires
        forall|i: int|
            0 <= i < labels@.len() ==> judgeable(
                #[trigger] labels@[i],
                labels@[i].token_weights@,
            ),
    ensures
        relate_all(r@, shuffled(labels@, random::seeded_state(seed)).0),
{
    let mut rng: StdRng = seeded(seed);
    let ghost state = random::seeded_state(seed);
    let mut out: Vec<RankCorrelation> = Vec::new();
    let mut i: usize = 0;
    while i < labels.len()
        invariant
            i <= labels.len(),
            state == random::seeded_state(seed),
            forall|k: int|
                0 <= k < labels@.len() ==> judgeable(
                    #[trigger] labels@[k],
                    labels@[k].token_weights@,
                ),
            random::generator_state(rng) == shuffled(labels@.take(i as int), state).1,
            relate_all(out@, shuffled(labels@.take(i as int), state).0),
        decreases labels.len() - i,
    {
        assert(labels@.take(i + 1).drop_last() =~= labels@.take(i as int));
        let label: &LabeledSequence = &labels[i];
        let truth: Vec<Score> = pick_covered(
            label.covered.as_slice(),
            label.token_weights.as_slice(),
        );
        if truth.len() >= MIN_COVERED {
            let mut reordered: Vec<Score> = slice_to_vec(truth.as_slice());
            shuffle(&mut reordered, &mut rng);
            proof {
                lemma_covered_len(label.covered@, label.token_weights@, label.token_weights@);
            }
            out.push(spearman(reordered.as_slice(), truth.as_slice()));
        }
        i = i + 1;
    }
    assert(labels@.take(i as int) =~= labels@);
    out
}

/// How the Router's scores of one sequence compare with its ablation labels.
#[derive(Debug, Clone, Copy, PartialEq, Eq, Structural)]
pub struct AblationComparison {
    pub overlap: Overlap,
    /// The overlap of the shuffled scores: the no-skill baseline.
    pub shuffled_overlap: Overlap,
    pub correlation: RankCorrelation,
}

/// Compares the scores of one sequence with its ablation labels over the covered
/// positions: the overlap of the top `k`, the same for a shuffle of the scores,
/// and the rank correlation. `None`, and no shuffle, where fewer than `k` or
/// fewer than three positions are covered.
pub fn compare_with_ablation(
    label: &LabeledSequence,
    scores: &[Score],
    k: usize,
    rng: &mut StdRng,
) -> (r: Option<AblationComparison>)
    requires
        has_covered(label.covered@, scores@),
        has_covered(label.covered@, label.token_weights@),
        label.covered@.len() <= stats::MAX_RANKED,
        ({
            let predicted = covered_scores(label.covered@, scores@);
            let truth = covered_scores(label.covered@, label.token_weights@);
            predicted.len() >= k && predicted.len() >= MIN_COVERED ==> score::all_numbers(
                predicted,
            ) && score::all_numbers(truth)
        }),
    ensures
        ({
            let predicted = covered_scores(label.covered@, scores@);
            let truth = covered_scores(label.covered@, label.token_weights@);
            let draw = random::shuffle_draw(
                random::generator_state(*old(rng)),
                predicted.len(),
            );
            match r {
                None => {
                    &&& predicted.len() < k || predicted.len() < MIN_COVERED
                    &&& random::generator_state(*final(rng)) == random::generator_state(*old(rng))
                },
                Some(c) => {
                    &&& predicted.len() >= k && predicted.len() >= MIN_COVERED
                    &&& c.overlap.compares(predicted, truth, k)
                    &&& c.shuffled_overlap.compares(
                        random::permuted(predicted, draw.0),
                        truth,
                        k,
                    )
                    &&& c.correlation.relates(predicted, truth)
                    &&& random::generator_state(*final(rng)) == draw.1
                },
            }
        }),
{
    let predicted: Vec<Score> = pick_covered(label.covered.as_slice(), scores);
    let truth: Vec<Score> = pick_covered(label.covered.as_slice(), label.token_weights.as_slice());
    proof {
        lemma_covered_len(label.covered@, scores@, label.token_weights@);
    }
    if predicted.len() < k || predicted.len() < MIN_COVERED {
        return None;
    }
    let overlap: Overlap = top_k_overlap(predicted.as_slice(), truth.as_slice(), k);
    let mut reordered: Vec<Score> = slice_to_vec(predicted.as_slice());
    shuffle(&mut reordered, rng);
    let shuffled_overlap: Overlap = top_k_overlap(reordered.as_slice(), truth.as_slice(), k);
    let correlation: RankCorrelation = spearman(predicted.as_slice(), truth.as_slice());
    Some(AblationComparison { overlap, shuffled_overlap, correlation })
}

/// Only covered positions count, each with its own score and in order: one
/// position more adds its score where it is covered and nothing where it is not,
/// and scores past the coverage play no part.
pub proof fn covered_positions_are_picked(
    covered: Seq<bool>,
    x: Seq<Score>,
    y: Seq<Score>,
    more: bool,
)
    requires
        forall|j: int| 0 <= j < covered.len() && #[trigger] covered[j] ==> x[j] == y[j],
    ensures
        covered_scores(Seq::empty(), x) == Seq::<Score>::empty(),
        covered_scores(covered.push(more), x) == if more {
            covered_scores(covered, x).push(x[covered.len() as int])
        } else {
            covered_scores(covered, x)
        },
        covered_scores(covered, x) == covered_scores(covered, y),
        covered_scores(covered, x).len() == counting::count(
            covered.len(),
            |j: int| covered[j],
        ),
    decreases covered.len(),
{
    assert(covered.push(more).drop_last() =~= covered);
    if covered.len() > 0 {
        let front = covered.drop_last();
        let last = covered.len() - 1;
        assert forall|j: int| 0 <= j < front.len() && #[trigger] front[j] implies x[j] == y[j] by {
            assert(covered[j]);
        }
        covered_positions_are_picked(front, x, y, more);
        counting::count_agrees(front.len(), |j: int| front[j], |j: int| covered[j]);
        if covered[last] {
            assert(x[last] == y[last]);
        }
    }
}

/// The score at a covered position is found in the pick after those of all
/// covered positions before it.
pub proof fn each_covered_score_has_its_place(covered: Seq<bool>, x: Seq<Score>, j: int)
    requires
        0 <= j < covered.len(),
        covered[j],
    ensures
        ({
            let place = counting::count(j as nat, |i: int| covered[i]) as int;
            &&& place < covered_scores(covered, x).len()
            &&& covered_scores(covered, x)[place] == x[j]
        }),
    decreases covered.len(),
{
    let front = covered.drop_last();
    covered_positions_are_picked(front, x, x, covered.last());
    counting::count_agrees(front.len(), |i: int| front[i], |i: int| covered[i]);
    if j < front.len() {
        each_covered_score_has_its_place(front, x, j);
        counting::count_agrees(j as nat, |i: int| front[i], |i: int| covered[i]);
    }
}

/// One label more is compared exactly when at least three of its positions are
/// covered: its own row of predictions at those positions, against its weights
/// there. The labels before it are compared as without it.
pub proof fn labels_are_compared_one_by_one(
    labels: Seq<LabeledSequence>,
    label: LabeledSequence,
    predictions: Seq<Score>,
    width: nat,
)
    ensures
        compared(Seq::empty(), predictions, width) == Seq::<(Seq<Score>, Seq<Score>)>::empty(),
        ({
            let start = labels.len() * width;
            let own = predictions.subrange(start as int, (start + width) as int);
            let predicted = covered_scores(label.covered@, own);
            let truth = covered_scores(label.covered@, label.token_weights@);
            compared(labels.push(label), predictions, width) == if counting::count(
                label.covered@.len(),
                |j: int| label.covered@[j],
            ) >= 3 {
                compared(labels, predictions, width).push((predicted, truth))
            } else {
                compared(labels, predictions, width)
            }
        }),
{
    let n = labels.len();
    let all = labels.push(label);
    assert(all.drop_last() =~= labels);
    assert((n + 1) * width == n * width + width) by (nonlinear_arith);
    let own = predictions.subrange((n * width) as int, (n * width + width) as int);
    assert(row(predictions, width, n as int) =~= own);
    covered_positions_are_picked(label.covered@, own, own, true);
}

/// One label more shuffles exactly when at least three of its positions are
/// covered: its weights there, reordered by the next draw, against themselves. A
/// label with fewer takes no draw, so the labels after it see the same generator.
pub proof fn labels_are_shuffled_one_by_one(
    labels: Seq<LabeledSequence>,
    label: LabeledSequence,
    state: Seq<u32>,
)
    ensures
        shuffled(Seq::empty(), state).0 == Seq::<(Seq<Score>, Seq<Score>)>::empty(),
        shuffled(Seq::empty(), state).1 == state,
        ({
            let before = shuffled(labels, state);
            let after = shuffled(labels.push(label), state);
            let truth = covered_scores(label.covered@, label.token_weights@);
            let draw = random::shuffle_draw(before.1, truth.len());
            if counting::count(label.covered@.len(), |j: int| label.covered@[j]) >= 3 {
                &&& after.0.len() == before.0.len() + 1
                &&& after.0.drop_last() == before.0
                &&& after.0.last().1 == truth
                &&& after.0.last().0.len() == draw.0.len()
                &&& forall|i: int|
                    0 <= i < draw.0.len() ==> #[trigger] after.0.last().0[i] == truth[draw.0[i]]
                &&& after.1 == draw.1
            } else {
                after == before
            }
        }),
{
    assert(labels.push(label).drop_last() =~= labels);
    let x = label.token_weights@;
    covered_positions_are_picked(label.covered@, x, x, true);
    let before = shuffled(labels, state);
    let after = shuffled(labels.push(label), state);
    if covered_scores(label.covered@, x).len() >= 3 {
        assert(after.0.drop_last() =~= before.0);
    }
}

/// There is one correlation per compared pair, in their order.
pub proof fn one_correlation_per_pair(
    correlations: Seq<RankCorrelation>,
    pairs: Seq<(Seq<Score>, Seq<Score>)>,
    next: RankCorrelation,
    pair: (Seq<Score>, Seq<Score>),
)
    ensures
        relate_all(correlations.push(next), pairs.push(pair)) <==> relate_all(
            correlations,
            pairs,
        ) && next.relates(pair.0, pair.1),
        relate_all(correlations, pairs) ==> correlations.len() == pairs.len(),
        relate_all(Seq::empty(), Seq::empty()),
{
    let more = correlations.push(next);
    let all = pairs.push(pair);
    if relate_all(more, all) {
        let n = pairs.len() as int;
        assert(more[n].relates(all[n].0, all[n].1));
        assert forall|i: int| 0 <= i < pairs.len() implies (#[trigger] correlations[i]).relates(
            pairs[i].0,
            pairs[i].1,
        ) by {
            assert(more[i].relates(all[i].0, all[i].1));
        }
    }
}

} // verus!

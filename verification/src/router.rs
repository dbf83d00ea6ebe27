//! The Router's decisions: which positions to flag, which Drafter layer to read.

use crate::counting;
use crate::score::Score;
use vstd::prelude::*;

verus! {

/// Sizes of the Router.
#[derive(Debug, Clone, Copy, PartialEq, Eq, Structural)]
pub struct RouterConfig {
    /// Width of the Drafter hidden states this Router reads (d_model).
    pub d_input: usize,
    pub d_hidden: usize,
}

impl RouterConfig {
    pub fn new(d_input: usize) -> (r: RouterConfig)
        ensures
            r == (RouterConfig { d_input, d_hidden: 64 }),
    {
        RouterConfig { d_input, d_hidden: 64 }
    }
}

/// Sidecar metadata: which layer the Router was trained against. The edit
/// loop must read the same layer.
#[derive(Debug, Clone, Copy, PartialEq, Eq, Structural)]
pub struct RouterMeta {
    pub layer: usize,
    pub d_input: usize,
}

impl RouterMeta {
    /// The layer to read of a Drafter with `n_layers` blocks of width `d_model`:
    /// the requested one, or the last. `None` where there is no such layer.
    pub fn select(requested: Option<usize>, n_layers: usize, d_model: usize) -> (r: Option<
        RouterMeta,
    >)
        requires
            n_layers > 0,
        ensures
            r == match requested {
                Some(layer) => if layer < n_layers {
                    Some(RouterMeta { layer, d_input: d_model })
                } else {
                    None
                },
                None => Some(RouterMeta { layer: (n_layers - 1) as usize, d_input: d_model }),
            },
    {
        let layer: usize = match requested {
            Some(layer) => layer,
            None => n_layers - 1,
        };
        if layer < n_layers {
            Some(RouterMeta { layer, d_input: d_model })
        } else {
            None
        }
    }
}

/// Position `p` scores above the threshold.
pub open spec fn is_flagged(scores: Seq<Score>, threshold: Score, p: int) -> bool {
    0 <= p < scores.len() && threshold.below(scores[p])
}

/// The positions that score above the threshold, in ascending order.
pub open spec fn flagged(scores: Seq<Score>, threshold: Score) -> Seq<usize> {
    Seq::new(scores.len(), |p: int| p as usize).filter(
        |p: usize| threshold.below(scores[p as int]),
    )
}

/// Positions whose score exceeds `threshold`, in ascending order: the flagging
/// rule the edit loop feeds into span merging.
pub fn flag_positions(scores: &[Score], threshold: Score) -> (r: Vec<usize>)
    ensures
        r@ == flagged(scores@, threshold),
        forall|i: int, j: int| 0 <= i < j < r@.len() ==> r@[i] < r@[j],
        forall|p: usize| #[trigger] r@.contains(p) <==> is_flagged(scores@, threshold, p as int),
        forall|p: usize|
            #[trigger] r@.contains(p) <==> p < scores@.len() && threshold.below(scores@[p as int]),
{
    let ghost all = Seq::new(scores@.len(), |p: int| p as usize);
    let ghost above = |p: usize| threshold.below(scores@[p as int]);
    let mut out: Vec<usize> = Vec::new();
    let mut p: usize = 0;
    proof {
        reveal(Seq::filter);
        assert(all.take(0) =~= Seq::<usize>::empty());
    }
    while p < scores.len()
        invariant
            p <= scores.len(),
            all == Seq::new(scores@.len(), |p: int| p as usize),
            above == (|p: usize| threshold.below(scores@[p as int])),
            out@ == all.take(p as int).filter(above),
            forall|i: int, j: int| 0 <= i < j < out@.len() ==> out@[i] < out@[j],
            forall|i: int|
                0 <= i < out@.len() ==> #[trigger] out@[i] < p && is_flagged(
                    scores@,
                    threshold,
                    out@[i] as int,
                ),
            forall|q: usize|
                q < p && is_flagged(scores@, threshold, q as int) ==> #[trigger] out@.contains(q),
        decreases scores.len() - p,
    {
        let ghost before = out@;
        proof {
            reveal(Seq::filter);
            assert(all.take(p + 1).drop_last() =~= all.take(p as int));
            assert(all.take(p + 1).last() == p);
        }
        if threshold.less_than(scores[p]) {
            out.push(p);
            proof {
                assert(out@[before.len() as int] == p);
                assert forall|q: usize|
                    q < p + 1 && is_flagged(scores@, threshold, q as int) implies #[trigger] out@.contains(
                    q,
                ) by {
                    if q < p {
                        assert(before.contains(q));
                        let i = choose|i: int| 0 <= i < before.len() && before[i] == q;
                        assert(out@[i] == q);
                    }
                }
            }
        }
        p = p + 1;
    }
    assert(all.take(p as int) =~= all);
    out
}

/// A position is flagged exactly when its score exceeds the threshold, and the
/// flagged positions are listed in ascending order, each once.
pub proof fn flags_are_the_scores_above(scores: Seq<Score>, threshold: Score)
    requires
        scores.len() <= usize::MAX,
    ensures
        forall|i: int, j: int|
            0 <= i < j < flagged(scores, threshold).len() ==> flagged(scores, threshold)[i]
                < flagged(scores, threshold)[j],
        forall|p: usize|
            #[trigger] flagged(scores, threshold).contains(p) <==> p < scores.len()
                && threshold.below(scores[p as int]),
{
    counting::kept_indices_ascend(scores.len(), |p: usize| threshold.below(scores[p as int]));
}

} // verus!

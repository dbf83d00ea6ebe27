//! The self-editing loop as a state machine.
//!
//! Each step, the Router scores the pad's positions and the flagged ones become
//! candidate spans; the Critic weighs the candidates and either ends the loop or
//! picks the heaviest span; the Editor predicts a replacement, which is applied
//! unless it changes nothing. The models are run by the caller between the steps.

use crate::critic;
use crate::critic::HaltingConfig;
use crate::editor;
use crate::editor::patch_from_predictions;
use crate::kv_task;
use crate::kv_task::{task_consistent, KvTaskConfig};
use crate::patch;
use crate::patch::{tokens_equal, Patch};
use crate::router;
use crate::router::flag_positions;
use crate::score;
use crate::score::Score;
use crate::scratchpad;
use crate::scratchpad::{EditRecord, ScratchpadState};
use crate::span;
use crate::span::{merge_positions_into_spans, Span};
use crate::tokenizer::{TokenId, Tokenizer};
use crate::vocab::KvVocab;
use vstd::prelude::*;
use vstd::slice::{slice_subrange, slice_to_vec};

verus! {

/// The knobs of the loop.
#[derive(Debug, Clone, Copy)]
pub struct EditSettings {
    /// Hard safety cap on edit iterations regardless of the Critic's
    /// halting decision (the Critic may be unreliable early on).
    pub max_steps: usize,
    /// Router score above which a position is flagged for editing.
    pub router_threshold: Score,
    pub max_span_len: usize,
    /// Critic span weight below which remaining spans are not worth
    /// editing (halting signal).
    pub halting: HaltingConfig,
}

/// One applied edit.
#[derive(Debug, Clone)]
pub struct EditLog {
    pub step: usize,
    pub span: Span,
    pub before: Vec<TokenId>,
    pub after: Vec<TokenId>,
    pub router_score: Score,
    pub critic_weight: Score,
}

/// A span that was inspected, with the tokens it held then.
pub struct Visit {
    pub span: Span,
    pub content: Vec<TokenId>,
}

/// A span that waits for the Editor, with the weight that the Critic gave it.
#[derive(Debug, Clone, Copy, PartialEq, Eq, Structural)]
pub struct Pending {
    pub span: Span,
    pub weight: Score,
}

/// What the Critic's weights lead to.
#[derive(Debug, Clone, Copy, PartialEq, Eq, Structural)]
pub enum Decision {
    /// Nothing left is worth editing.
    Halt,
    /// The Editor is to propose a patch for this span.
    Edit { span: Span, weight: Score },
}

/// One scratchpad going through the loop.
///
/// A step is a call of `candidates`, one of `decide`, and, unless that halted the
/// loop, one of `apply_predictions`.
pub struct EditLoop {
    settings: EditSettings,
    pad: ScratchpadState,
    /// Spans already inspected on identical content: prevents oscillation
    /// and re-editing stable spans; a span becomes eligible again only if
    /// some edit changed its content.
    visited: Vec<Visit>,
    edits: Vec<EditLog>,
    halted: bool,
    /// The spans that the current step offers to the Critic, until it has decided.
    offered: Option<Vec<Span>>,
    /// The span that the current step inspects, until the Editor has answered.
    pending: Option<Pending>,
}

/// The tokens that `span` holds.
pub open spec fn content_of(tokens: Seq<TokenId>, span: Span) -> Seq<TokenId> {
    tokens.subrange(span.start as int, span.end as int)
}

/// `span` was inspected while it held what it holds in `tokens`.
pub open spec fn was_visited(visited: Seq<Visit>, tokens: Seq<TokenId>, span: Span) -> bool {
    exists|i: int|
        0 <= i < visited.len() && (#[trigger] visited[i]).span == span && visited[i].content@
            == content_of(tokens, span)
}

/// No span was inspected twice on the same content.
pub open spec fn visits_differ(visited: Seq<Visit>) -> bool {
    forall|i: int, j: int|
        0 <= i < j < visited.len() ==> !((#[trigger] visited[i]).span == (
        #[trigger] visited[j]).span && visited[i].content@ == visited[j].content@)
}

/// `log` reports `record`.
pub open spec fn reports(log: EditLog, record: EditRecord) -> bool {
    &&& log.span == record.patch.span
    &&& log.after@ == record.patch.replacement@
    &&& log.router_score == record.router_score
    &&& log.critic_weight == record.critic_weight_before
}

/// The span holds something, but no more than the cap, and lies within `len`
/// tokens.
pub open spec fn editable(span: Span, len: nat, max_span_len: usize) -> bool {
    span.start < span.end <= len && span.end - span.start <= max_span_len
}

/// `picked` is the last of the heaviest: no weight is above it, and every later
/// one is below it.
pub open spec fn is_heaviest(weights: Seq<Score>, picked: int) -> bool {
    &&& 0 <= picked < weights.len()
    &&& forall|j: int| 0 <= j < weights.len() ==> !weights[picked].below(#[trigger] weights[j])
    &&& forall|j: int|
        picked < j < weights.len() ==> (#[trigger] weights[j]).below(weights[picked])
}

impl EditLoop {
    pub closed spec fn settings(&self) -> EditSettings {
        self.settings
    }

    pub closed spec fn pad(&self) -> ScratchpadState {
        self.pad
    }

    /// What the steps so far inspected, oldest first.
    pub closed spec fn visited(&self) -> Seq<Visit> {
        self.visited@
    }

    /// The edits so far, oldest first.
    pub closed spec fn logged(&self) -> Seq<EditLog> {
        self.edits@
    }

    /// The Critic ended the loop.
    pub closed spec fn has_halted(&self) -> bool {
        self.halted
    }

    /// The spans that wait for the Critic.
    pub closed spec fn offered(&self) -> Option<Seq<Span>> {
        match self.offered {
            Some(spans) => Some(spans@),
            None => None,
        }
    }

    /// The span that waits for the Editor.
    pub closed spec fn pending(&self) -> Option<Pending> {
        self.pending
    }

    /// How many steps inspected a span.
    pub open spec fn steps(&self) -> nat {
        self.visited().len()
    }

    /// The loop is over: the Critic halted it, or the cap is reached and nothing
    /// waits for the Editor.
    pub open spec fn over(&self) -> bool {
        self.has_halted() || (self.pending() is None && self.steps() >= self.settings().max_steps)
    }

    /// A new step can begin, or one has begun and the Critic has not decided yet.
    pub open spec fn between_steps(&self) -> bool {
        !self.has_halted() && self.pending() is None && self.steps() < self.settings().max_steps
    }

    /// `span` is not eligible: it was inspected on what it holds now.
    pub open spec fn seen(&self, span: Span) -> bool {
        was_visited(self.visited(), self.pad().tokens@, span)
    }

    /// `span` could be edited: not empty, not over the cap, on the pad.
    pub open spec fn can_edit(&self, span: Span) -> bool {
        editable(span, self.pad().tokens@.len(), self.settings().max_span_len)
    }

    /// A weight that the Critic finds worth an edit.
    pub open spec fn worthwhile(&self, weight: Score) -> bool {
        !weight.below(self.settings().halting.weight_threshold)
    }

    /// The logged edit is an edit of the span that its step inspected, it was
    /// worthwhile, and it changed what the span held.
    pub open spec fn log_is_sound(&self, i: int) -> bool {
        let log = self.logged()[i];
        &&& log.step < self.steps()
        &&& self.visited()[log.step as int].span == log.span
        &&& self.visited()[log.step as int].content@ == log.before@
        &&& log.before@ != log.after@
        &&& log.before@.len() == log.span.end - log.span.start
        &&& log.after@.len() == log.span.end - log.span.start
        &&& self.can_edit(log.span)
        &&& self.worthwhile(log.critic_weight)
        &&& reports(log, self.pad().history@[i])
        &&& log.before@ == content_of(
            scratchpad::replayed(self.pad().initial_draft@, self.pad().history@.take(i)),
            log.span,
        )
    }

    /// The edits are sound and in the order of their steps.
    pub open spec fn log_wf(&self) -> bool {
        &&& self.logged().len() == self.pad().history@.len()
        &&& forall|i: int| 0 <= i < self.logged().len() ==> #[trigger] self.log_is_sound(i)
        &&& forall|i: int, j: int|
            0 <= i < j < self.logged().len() ==> (#[trigger] self.logged()[i]).step < (
            #[trigger] self.logged()[j]).step
    }

    /// The offered spans can be edited and were not inspected as they are.
    pub open spec fn offer_wf(&self) -> bool {
        self.offered() is Some ==> {
            let spans = self.offered().unwrap();
            &&& self.between_steps()
            &&& forall|i: int|
                0 <= i < spans.len() ==> self.can_edit(#[trigger] spans[i]) && !self.seen(spans[i])
        }
    }

    /// The pending span is the one inspected last, on what it holds now, it is
    /// worth an edit, and the step has no edit yet.
    pub open spec fn pending_wf(&self) -> bool {
        self.pending() is Some ==> {
            let Pending { span, weight } = self.pending().unwrap();
            &&& !self.has_halted()
            &&& self.can_edit(span)
            &&& self.worthwhile(weight)
            &&& self.steps() > 0
            &&& self.visited().last().span == span
            &&& self.visited().last().content@ == content_of(self.pad().tokens@, span)
            &&& forall|i: int|
                0 <= i < self.logged().len() ==> (#[trigger] self.logged()[i]).step < self.steps()
                    - 1
        }
    }

    pub open spec fn wf(&self) -> bool {
        &&& self.pad().wf()
        &&& self.pad().tokens@.len() == self.pad().initial_draft@.len()
        &&& self.log_wf()
        &&& visits_differ(self.visited())
        &&& self.steps() <= self.settings().max_steps
        &&& self.has_halted() ==> self.steps() < self.settings().max_steps
        &&& self.offer_wf()
        &&& self.pending_wf()
    }

    /// Nothing but the bookkeeping of the step differs.
    pub open spec fn same_pad(&self, other: &EditLoop) -> bool {
        self.pad() == other.pad() && self.logged() == other.logged() && self.settings()
            == other.settings()
    }

    /// Starts the loop on a draft.
    pub fn new(settings: EditSettings, draft: Vec<TokenId>) -> (r: EditLoop)
        ensures
            r.wf(),
            r.settings() == settings,
            r.pad().tokens@ == draft@,
            r.pad().initial_draft@ == draft@,
            r.pad().history@ == Seq::<EditRecord>::empty(),
            r.steps() == 0,
            r.logged() == Seq::<EditLog>::empty(),
            !r.has_halted(),
            r.offered() is None,
            r.pending() is None,
    {
        EditLoop {
            settings,
            pad: ScratchpadState::new(draft),
            visited: Vec::new(),
            edits: Vec::new(),
            halted: false,
            offered: None,
            pending: None,
        }
    }

    /// The tokens on the pad.
    pub fn tokens(&self) -> (r: &[TokenId])
        ensures
            r@ == self.pad().tokens@,
    {
        self.pad.tokens.as_slice()
    }

    /// The edits so far.
    pub fn edits(&self) -> (r: &[EditLog])
        ensures
            r@ == self.logged(),
    {
        self.edits.as_slice()
    }

    /// How many steps inspected a span.
    pub fn steps_used(&self) -> (r: usize)
        ensures
            r == self.steps(),
    {
        self.visited.len()
    }

    /// Whether the Critic ended the loop.
    pub fn halted(&self) -> (r: bool)
        ensures
            r == self.has_halted(),
    {
        self.halted
    }

    /// Whether the loop is over: the Critic halted it, or the cap is reached.
    pub fn is_finished(&self) -> (r: bool)
        ensures
            r == self.over(),
    {
        self.halted || (self.pending.is_none() && self.visited.len() >= self.settings.max_steps)
    }

    fn is_seen(&self, span: Span) -> (r: bool)
        requires
            span.within(self.pad().tokens@.len()),
        ensures
            r == self.seen(span),
    {
        let current: &[TokenId] = slice_subrange(self.pad.tokens.as_slice(), span.start, span.end);
        let mut i: usize = 0;
        while i < self.visited.len()
            invariant
                i <= self.visited.len(),
                current@ == content_of(self.pad().tokens@, span),
                forall|k: int|
                    0 <= k < i ==> !((#[trigger] self.visited()[k]).span == span
                        && self.visited()[k].content@ == current@),
            decreases self.visited.len() - i,
        {
            if self.visited[i].span == span && tokens_equal(
                self.visited[i].content.as_slice(),
                current,
            ) {
                return true;
            }
            i = i + 1;
        }
        false
    }

    /// Begins a step: the spans to consider on the pad as it is. These are the
    /// flagged positions, merged, without the spans already inspected on the same
    /// content. The Critic is to weigh them in this order.
    pub fn candidates(&mut self, scores: &[Score]) -> (r: Vec<Span>)
        requires
            old(self).wf(),
            old(self).between_steps(),
            old(self).settings().max_span_len > 0,
            scores@.len() <= old(self).pad().tokens@.len(),
        ensures
            final(self).wf(),
            final(self).between_steps(),
            final(self).same_pad(old(self)),
            final(self).pad() == old(self).pad(),
            final(self).logged() == old(self).logged(),
            final(self).settings() == old(self).settings(),
            final(self).visited() == old(self).visited(),
            final(self).offered() == Some(r@),
            exists|merged: Seq<Span>|
                #[trigger] span::is_merge_of(
                    merged,
                    router::flagged(scores@, old(self).settings().router_threshold),
                    old(self).settings().max_span_len,
                ) && r@ == merged.filter(|s: Span| !old(self).seen(s)),
            forall|i: int|
                0 <= i < r@.len() ==> old(self).can_edit(#[trigger] r@[i]) && !old(self).seen(r@[i]),
            forall|i: int, p: int|
                0 <= i < r@.len() && (#[trigger] r@[i]).start <= p < r@[i].end ==> old(
                    self,
                ).settings().router_threshold.below(#[trigger] scores@[p]),
            forall|i: int, j: int|
                0 <= i < j < r@.len() ==> (#[trigger] r@[i]).end <= (#[trigger] r@[j]).start,
    {
        let ghost start = *self;
        let positions: Vec<usize> = flag_positions(scores, self.settings.router_threshold);
        let ghost flags = positions@;
        proof {
            assert(scores@.len() == scores.len());
            assert forall|i: int| 0 <= i < flags.len() implies #[trigger] flags[i]
                < scores@.len() by {
                assert(flags.contains(flags[i]));
            }
        }
        let spans: Vec<Span> = merge_positions_into_spans(positions, self.settings.max_span_len);
        proof {
            assert forall|i: int| 0 <= i < spans@.len() implies start.can_edit(
                #[trigger] spans@[i],
            ) by {
                let last = (spans@[i].end - 1) as usize;
                assert(flags.contains(last));
            }
            assert forall|i: int, p: int|
                0 <= i < spans@.len() && (#[trigger] spans@[i]).start <= p < spans@[i].end implies
                start.settings().router_threshold.below(#[trigger] scores@[p]) by {
                assert(spans@[i].holds(p));
                assert(flags.contains(p as usize));
            }
        }
        let ghost unseen = |s: Span| !start.seen(s);
        let mut out: Vec<Span> = Vec::new();
        let mut i: usize = 0;
        proof {
            reveal(Seq::filter);
        }
        while i < spans.len()
            invariant
                i <= spans.len(),
                start == *self,
                unseen == (|s: Span| !start.seen(s)),
                forall|k: int| 0 <= k < spans@.len() ==> start.can_edit(#[trigger] spans@[k]),
                out@ == spans@.take(i as int).filter(unseen),
                forall|k: int, p: int|
                    0 <= k < spans@.len() && (#[trigger] spans@[k]).start <= p < spans@[k].end
                        ==> start.settings().router_threshold.below(#[trigger] scores@[p]),
                forall|k: int, p: int|
                    0 <= k < out@.len() && (#[trigger] out@[k]).start <= p < out@[k].end
                        ==> start.settings().router_threshold.below(#[trigger] scores@[p]),
                forall|k: int, m: int|
                    0 <= k < m < spans@.len() ==> (#[trigger] spans@[k]).end <= (
                    #[trigger] spans@[m]).start,
                forall|k: int, m: int|
                    0 <= k < out@.len() && i <= m < spans@.len() ==> (#[trigger] out@[k]).end <= (
                    #[trigger] spans@[m]).start,
                forall|k: int, m: int|
                    0 <= k < m < out@.len() ==> (#[trigger] out@[k]).end <= (
                    #[trigger] out@[m]).start,
                forall|k: int|
                    0 <= k < out@.len() ==> start.can_edit(#[trigger] out@[k]) && !start.seen(
                        out@[k],
                    ),
            decreases spans.len() - i,
        {
            proof {
                reveal(Seq::filter);
                assert(spans@.take(i + 1).drop_last() =~= spans@.take(i as int));
            }
            if !self.is_seen(spans[i]) {
                out.push(spans[i]);
            }
            i = i + 1;
        }
        assert(spans@.take(i as int) =~= spans@);
        self.offered = Some(slice_to_vec(out.as_slice()));
        proof {
            lemma_same_log(start, *self);
        }
        out
    }

    /// The Critic's decision over the offered spans, given their weights in order:
    /// halt where all weights are below the threshold, else inspect the heaviest
    /// span.
    pub fn decide(&mut self, weights: &[Score]) -> (r: Decision)
        requires
            old(self).wf(),
            old(self).offered() is Some,
            weights@.len() == old(self).offered().unwrap().len(),
            weights@.len() >= 2 && !critic::all_below(
                weights@,
                old(self).settings().halting.weight_threshold,
            ) ==> score::all_numbers(weights@),
        ensures
            final(self).wf(),
            final(self).same_pad(old(self)),
            final(self).pad() == old(self).pad(),
            final(self).logged() == old(self).logged(),
            final(self).settings() == old(self).settings(),
            final(self).offered() is None,
            r is Halt <==> critic::all_below(
                weights@,
                old(self).settings().halting.weight_threshold,
            ),
            match r {
                Decision::Halt => {
                    &&& final(self).has_halted()
                    &&& final(self).pending() is None
                    &&& final(self).visited() == old(self).visited()
                },
                Decision::Edit { span, weight } => {
                    &&& !final(self).has_halted()
                    &&& final(self).pending() == Some(Pending { span, weight })
                    &&& final(self).steps() == old(self).steps() + 1
                    &&& final(self).visited().drop_last() == old(self).visited()
                    &&& final(self).visited().last().span == span
                    &&& final(self).visited().last().content@ == content_of(
                        old(self).pad().tokens@,
                        span,
                    )
                    &&& exists|i: int|
                        #[trigger] is_heaviest(weights@, i) && span
                            == old(self).offered().unwrap()[i] && weight == weights@[i]
                },
            },
            r is Halt <==> forall|i: int|
                0 <= i < weights@.len() ==> (#[trigger] weights@[i]).below(
                    old(self).settings().halting.weight_threshold,
                ),
            r matches Decision::Edit { span, weight } ==> exists|i: int|
                0 <= i < weights@.len() && span == old(self).offered().unwrap()[i] && weight
                    == #[trigger] weights@[i] && (forall|j: int|
                    0 <= j < weights@.len() ==> !weights@[i].below(#[trigger] weights@[j])) && (
                forall|j: int|
                    i < j < weights@.len() ==> (#[trigger] weights@[j]).below(weights@[i])),
    {
        let ghost start = *self;
        let ghost threshold = self.settings.halting.weight_threshold;
        let offer: Option<Vec<Span>> = self.offered.take();
        let spans: Vec<Span> = offer.unwrap();
        if self.settings.halting.should_halt(weights) {
            self.halted = true;
            proof {
                lemma_same_log(start, *self);
            }
            return Decision::Halt;
        }
        let mut picked: usize = 0;
        let mut i: usize = 1;
        while i < weights.len()
            invariant
                1 <= i <= weights.len(),
                picked < i,
                weights@.len() >= 2 ==> score::all_numbers(weights@),
                forall|j: int|
                    0 <= j < i ==> !weights@[picked as int].below(#[trigger] weights@[j]),
                forall|j: int|
                    picked < j < i ==> (#[trigger] weights@[j]).below(weights@[picked as int]),
            decreases weights.len() - i,
        {
            if !weights[i].less_than(weights[picked]) {
                picked = i;
            }
            i = i + 1;
        }
        proof {
            assert(is_heaviest(weights@, picked as int));
            let heavy = choose|j: int|
                0 <= j < weights@.len() && !(#[trigger] weights@[j]).below(threshold);
            assert(!weights@[picked as int].below(weights@[heavy]));
        }
        let span: Span = spans[picked];
        let weight: Score = weights[picked];
        let content: Vec<TokenId> = slice_to_vec(
            slice_subrange(self.pad.tokens.as_slice(), span.start, span.end),
        );
        self.visited.push(Visit { span, content });
        self.pending = Some(Pending { span, weight });
        proof {
            lemma_same_log(start, *self);
            assert forall|i: int| 0 <= i < self.logged().len() implies (
            #[trigger] self.logged()[i]).step < self.steps() - 1 by {
                assert(start.log_is_sound(i));
            }
        }
        Decision::Edit { span, weight }
    }

    /// Applies the Editor's per-position predictions to the pending span and
    /// records the edit, unless the span already holds them. Returns whether the
    /// pad changed.
    pub fn apply_predictions(&mut self, predictions: &[i64], router_score: Score) -> (r: bool)
        requires
            old(self).wf(),
            old(self).pending() is Some,
            predictions@.len() == old(self).pad().tokens@.len(),
        ensures
            final(self).wf(),
            final(self).settings() == old(self).settings(),
            final(self).visited() == old(self).visited(),
            !final(self).has_halted(),
            final(self).offered() is None,
            final(self).pending() is None,
            final(self).pad().initial_draft == old(self).pad().initial_draft,
            ({
                let Pending { span, weight } = old(self).pending().unwrap();
                let replacement = editor::predicted(predictions@, span);
                let held = content_of(old(self).pad().tokens@, span);
                &&& r == (held != replacement)
                &&& final(self).pad().tokens@ == patch::spliced(
                    old(self).pad().tokens@,
                    span,
                    replacement,
                )
                &&& !r ==> final(self).same_pad(old(self))
                &&& !r ==> final(self).pad() == old(self).pad() && final(self).logged() == old(
                    self,
                ).logged()
                &&& r ==> {
                    let log = final(self).logged().last();
                    let record = final(self).pad().history@.last();
                    &&& final(self).logged().drop_last() == old(self).logged()
                    &&& final(self).pad().history@.drop_last() == old(self).pad().history@
                    &&& final(self).logged().len() == old(self).logged().len() + 1
                    &&& log.step == old(self).steps() - 1
                    &&& log.span == span
                    &&& log.before@ == held
                    &&& log.after@ == replacement
                    &&& log.router_score == router_score
                    &&& log.critic_weight == weight
                    &&& record.step == old(self).pad().history@.len()
                    &&& reports(log, record)
                    &&& record.patch.span == span
                    &&& record.patch.replacement@ == log.after@
                    &&& record.router_score == router_score
                    &&& record.critic_weight_before == weight
                    &&& log.before@.len() == span.end - span.start
                    &&& log.after@.len() == span.end - span.start
                    &&& forall|p: int|
                        span.start <= p < span.end ==> #[trigger] log.before@[p - span.start]
                            == old(self).pad().tokens@[p]
                    &&& forall|p: int|
                        span.start <= p < span.end ==> #[trigger] log.after@[p - span.start]
                            == predictions@[p] as TokenId
                }
            }),
            ({
                let span = old(self).pending().unwrap().span;
                let tokens = old(self).pad().tokens@;
                let after = final(self).pad().tokens@;
                &&& after.len() == tokens.len()
                &&& forall|p: int|
                    span.start <= p < span.end ==> #[trigger] after[p] == predictions@[p]
                        as TokenId
                &&& forall|p: int|
                    0 <= p < span.start || span.end <= p < tokens.len() ==> #[trigger] after[p]
                        == tokens[p]
                &&& r <==> exists|p: int|
                    span.start <= p < span.end && #[trigger] tokens[p] != predictions@[p]
                        as TokenId
            }),
    {
        let ghost start = *self;
        let Pending { span, weight } = self.pending.unwrap();
        let step: usize = self.visited.len() - 1;
        let patch: Patch = patch_from_predictions(predictions, span);
        let ghost replacement = editor::predicted(predictions@, span);
        proof {
            patch::noop_iff_unchanged(self.pad.tokens@, span, replacement);
            patch::same_length_patch_keeps_positions(self.pad.tokens@, span, replacement);
            editor::predictions_land_on_their_positions(self.pad.tokens@, predictions@, span);
            let held = content_of(self.pad.tokens@, span);
            if forall|p: int|
                span.start <= p < span.end ==> #[trigger] self.pad.tokens@[p] == predictions@[p]
                    as TokenId {
                assert(held =~= replacement);
            } else {
                let p = choose|p: int|
                    span.start <= p < span.end && #[trigger] self.pad.tokens@[p]
                        != predictions@[p] as TokenId;
                assert(held[p - span.start] != replacement[p - span.start]);
            }
        }
        self.pending = None;
        if patch.is_noop_on(self.pad.tokens.as_slice()) {
            proof {
                lemma_same_log(start, *self);
            }
            return false;
        }
        let before: Vec<TokenId> = slice_to_vec(
            slice_subrange(self.pad.tokens.as_slice(), span.start, span.end),
        );
        let after: Vec<TokenId> = slice_to_vec(patch.replacement.as_slice());
        self.pad.apply(patch, router_score, weight);
        self.edits.push(
            EditLog { step, span, before, after, router_score, critic_weight: weight },
        );
        proof {
            assert(self.pad.history@.drop_last() =~= start.pad.history@);
            assert forall|i: int| 0 <= i < self.logged().len() implies #[trigger] self.log_is_sound(
                i,
            ) by {
                if i < start.logged().len() {
                    assert(start.log_is_sound(i));
                    assert(self.pad.history@.take(i) =~= start.pad.history@.take(i));
                }
            }
        }
        true
    }
}

/// What is logged stays sound while the pad stays and visits are added.
proof fn lemma_same_log(before: EditLoop, after: EditLoop)
    requires
        before.log_wf(),
        after.same_pad(&before),
        before.visited().is_prefix_of(after.visited()),
    ensures
        after.log_wf(),
{
    assert forall|i: int| 0 <= i < after.logged().len() implies #[trigger] after.log_is_sound(
        i,
    ) by {
        assert(before.log_is_sound(i));
    }
}

/// The whole course of one scratchpad through the loop.
#[derive(Debug, Clone)]
pub struct Trajectory {
    pub initial: Vec<TokenId>,
    pub initial_readable: String,
    pub final_tokens: Vec<TokenId>,
    pub final_readable: String,
    pub edits: Vec<EditLog>,
    pub halted: bool,
    pub steps_used: usize,
    pub initial_consistent: bool,
    pub final_consistent: bool,
    pub exact_match_original: Option<bool>,
}

impl EditLoop {
    /// Ends the loop and sums it up: the draft and the final tokens, readable and
    /// judged against the task, and whether the final tokens are the original ones.
    pub fn finish(
        self,
        task: &KvTaskConfig,
        vocab: &KvVocab,
        original: Option<&[TokenId]>,
    ) -> (r: Trajectory)
        requires
            task.length() <= usize::MAX,
            vocab.ids_fit(),
        ensures
            r.initial@ == self.pad().initial_draft@,
            r.initial_readable@ == vocab.decoded(self.pad().initial_draft@),
            r.initial_consistent == kv_task::consistent(*task, *vocab, self.pad().initial_draft@),
            r.final_tokens@ == self.pad().tokens@,
            r.final_readable@ == vocab.decoded(self.pad().tokens@),
            r.final_consistent == kv_task::consistent(*task, *vocab, self.pad().tokens@),
            r.edits@ == self.logged(),
            r.halted == self.has_halted(),
            r.steps_used == self.steps(),
            r.exact_match_original == match original {
                Some(tokens) => Some(tokens@ == self.pad().tokens@),
                None => None,
            },
    {
        let initial_readable: String = vocab.decode(self.pad.initial_draft.as_slice());
        let final_readable: String = vocab.decode(self.pad.tokens.as_slice());
        let initial_consistent: bool = task_consistent(
            task,
            vocab,
            self.pad.initial_draft.as_slice(),
        );
        let final_consistent: bool = task_consistent(task, vocab, self.pad.tokens.as_slice());
        let exact_match_original: Option<bool> = match original {
            Some(tokens) => Some(tokens_equal(tokens, self.pad.tokens.as_slice())),
            None => None,
        };
        Trajectory {
            initial: self.pad.initial_draft,
            initial_readable,
            final_tokens: self.pad.tokens,
            final_readable,
            steps_used: self.visited.len(),
            edits: self.edits,
            halted: self.halted,
            initial_consistent,
            final_consistent,
            exact_match_original,
        }
    }
}

/// Counts over many trajectories.
#[derive(Debug, Clone, Copy, PartialEq, Eq, Structural)]
pub struct LoopTally {
    pub trajectories: usize,
    pub initially_consistent: usize,
    pub finally_consistent: usize,
    pub halted: usize,
    /// Trajectories that ended on the original tokens.
    pub exact: usize,
    pub steps: usize,
    pub edits: usize,
}

/// All steps of the trajectories together.
pub open spec fn total_steps(trajectories: Seq<Trajectory>) -> nat
    decreases trajectories.len(),
{
    if trajectories.len() == 0 {
        0
    } else {
        total_steps(trajectories.drop_last()) + trajectories.last().steps_used as nat
    }
}

/// All edits of the trajectories together.
pub open spec fn total_edits(trajectories: Seq<Trajectory>) -> nat
    decreases trajectories.len(),
{
    if trajectories.len() == 0 {
        0
    } else {
        total_edits(trajectories.drop_last()) + trajectories.last().edits@.len()
    }
}

/// How many trajectories satisfy `kept`.
pub open spec fn how_many(
    trajectories: Seq<Trajectory>,
    kept: spec_fn(Trajectory) -> bool,
) -> nat {
    trajectories.filter(kept).len()
}

proof fn lemma_totals_grow(trajectories: Seq<Trajectory>, n: int)
    requires
        0 <= n <= trajectories.len(),
    ensures
        total_steps(trajectories.take(n)) <= total_steps(trajectories),
        total_edits(trajectories.take(n)) <= total_edits(trajectories),
    decreases trajectories.len(),
{
    if n < trajectories.len() {
        lemma_totals_grow(trajectories.drop_last(), n);
        assert(trajectories.drop_last().take(n) =~= trajectories.take(n));
    } else {
        assert(trajectories.take(n) =~= trajectories);
    }
}

proof fn lemma_how_many_step(
    trajectories: Seq<Trajectory>,
    n: int,
    kept: spec_fn(Trajectory) -> bool,
)
    requires
        0 <= n < trajectories.len(),
    ensures
        how_many(trajectories.take(n + 1), kept) == how_many(trajectories.take(n), kept) + (
        if kept(trajectories[n]) {
            1int
        } else {
            0int
        }),
        how_many(trajectories.take(n), kept) <= n,
{
    reveal(Seq::filter);
    assert(trajectories.take(n + 1).drop_last() =~= trajectories.take(n));
    trajectories.take(n).lemma_filter_len(kept);
}

/// Sums up many trajectories: how many there are, how many were consistent before
/// and after, halted, and ended on the original, and all steps and edits together.
pub fn tally(trajectories: &[Trajectory]) -> (r: LoopTally)
    requires
        total_steps(trajectories@) <= usize::MAX,
        total_edits(trajectories@) <= usize::MAX,
    ensures
        r.trajectories == trajectories@.len(),
        r.initially_consistent == how_many(
            trajectories@,
            |t: Trajectory| t.initial_consistent,
        ),
        r.finally_consistent == how_many(trajectories@, |t: Trajectory| t.final_consistent),
        r.halted == how_many(trajectories@, |t: Trajectory| t.halted),
        r.exact == how_many(
            trajectories@,
            |t: Trajectory| t.exact_match_original == Some(true),
        ),
        r.steps == total_steps(trajectories@),
        r.edits == total_edits(trajectories@),
{
    let ghost begins = |t: Trajectory| t.initial_consistent;
    let ghost ends = |t: Trajectory| t.final_consistent;
    let ghost stops = |t: Trajectory| t.halted;
    let ghost restores = |t: Trajectory| t.exact_match_original == Some(true);
    let ghost all = trajectories@;
    let mut out: LoopTally = LoopTally {
        trajectories: trajectories.len(),
        initially_consistent: 0,
        finally_consistent: 0,
        halted: 0,
        exact: 0,
        steps: 0,
        edits: 0,
    };
    proof {
        reveal(Seq::filter);
    }
    let mut i: usize = 0;
    while i < trajectories.len()
        invariant
            i <= trajectories.len(),
            all == trajectories@,
            begins == (|t: Trajectory| t.initial_consistent),
            ends == (|t: Trajectory| t.final_consistent),
            stops == (|t: Trajectory| t.halted),
            restores == (|t: Trajectory| t.exact_match_original == Some(true)),
            total_steps(all) <= usize::MAX,
            total_edits(all) <= usize::MAX,
            out.trajectories == trajectories@.len(),
            out.initially_consistent == how_many(all.take(i as int), begins),
            out.finally_consistent == how_many(all.take(i as int), ends),
            out.halted == how_many(all.take(i as int), stops),
            out.exact == how_many(all.take(i as int), restores),
            out.steps == total_steps(all.take(i as int)),
            out.edits == total_edits(all.take(i as int)),
        decreases trajectories.len() - i,
    {
        proof {
            lemma_how_many_step(all, i as int, begins);
            lemma_how_many_step(all, i as int, ends);
            lemma_how_many_step(all, i as int, stops);
            lemma_how_many_step(all, i as int, restores);
            lemma_totals_grow(all, i + 1);
            assert(all.take(i + 1).drop_last() =~= all.take(i as int));
        }
        let t: &Trajectory = &trajectories[i];
        if t.initial_consistent {
            out.initially_consistent = out.initially_consistent + 1;
        }
        if t.final_consistent {
            out.finally_consistent = out.finally_consistent + 1;
        }
        if t.halted {
            out.halted = out.halted + 1;
        }
        match t.exact_match_original {
            Some(true) => {
                out.exact = out.exact + 1;
            },
            _ => {},
        }
        out.steps = out.steps + t.steps_used;
        out.edits = out.edits + t.edits.len();
        i = i + 1;
    }
    assert(all.take(i as int) =~= all);
    out
}

proof fn lemma_replay_keeps(draft: Seq<TokenId>, history: Seq<EditRecord>, p: int)
    requires
        0 <= p < draft.len(),
        forall|i: int|
            0 <= i < history.len() ==> {
                let patch = (#[trigger] history[i]).patch;
                &&& patch.span.within(draft.len())
                &&& patch.same_length()
                &&& !patch.span.holds(p)
            },
    ensures
        scratchpad::replayed(draft, history).len() == draft.len(),
        scratchpad::replayed(draft, history)[p] == draft[p],
    decreases history.len(),
{
    if history.len() > 0 {
        let before = history.drop_last();
        assert forall|i: int| 0 <= i < before.len() implies ({
            let patch = (#[trigger] before[i]).patch;
            &&& patch.span.within(draft.len())
            &&& patch.same_length()
            &&& !patch.span.holds(p)
        }) by {
            assert(before[i] == history[i]);
        }
        lemma_replay_keeps(draft, before, p);
        let last = history[history.len() - 1].patch;
        patch::same_length_patch_keeps_positions(
            scratchpad::replayed(draft, before),
            last.span,
            last.replacement@,
        );
    }
}

/// The loop changes a token only where some edit's span lies: every other
/// position still holds what the draft held.
pub proof fn only_edited_spans_change(state: EditLoop, p: int)
    requires
        state.wf(),
        0 <= p < state.pad().initial_draft@.len(),
        forall|i: int| 0 <= i < state.logged().len() ==> !(#[trigger] state.logged()[i]).span.holds(p),
    ensures
        state.pad().tokens@[p] == state.pad().initial_draft@[p],
{
    let history = state.pad().history@;
    assert forall|i: int| 0 <= i < history.len() implies ({
        let patch = (#[trigger] history[i]).patch;
        &&& patch.span.within(state.pad().initial_draft@.len())
        &&& patch.same_length()
        &&& !patch.span.holds(p)
    }) by {
        assert(state.log_is_sound(i));
    }
    lemma_replay_keeps(state.pad().initial_draft@, history, p);
}

/// What the logged edits make of `draft`, oldest first.
pub open spec fn retold(draft: Seq<TokenId>, edits: Seq<EditLog>) -> Seq<TokenId>
    decreases edits.len(),
{
    if edits.len() == 0 {
        draft
    } else {
        patch::spliced(
            retold(draft, edits.drop_last()),
            edits.last().span,
            edits.last().after@,
        )
    }
}

/// What is left of `tokens` once the logged edits are taken back, newest first.
pub open spec fn rewound(tokens: Seq<TokenId>, edits: Seq<EditLog>) -> Seq<TokenId>
    decreases edits.len(),
{
    if edits.len() == 0 {
        tokens
    } else {
        rewound(
            patch::spliced(tokens, edits.last().span, edits.last().before@),
            edits.drop_last(),
        )
    }
}

/// The log tells the whole story: its edits lead from the draft to the final
/// tokens, and taken back they lead to the draft again.
pub proof fn the_log_tells_the_whole_story(state: EditLoop)
    requires
        state.wf(),
    ensures
        retold(state.pad().initial_draft@, state.logged()) == state.pad().tokens@,
        rewound(state.pad().tokens@, state.logged()) == state.pad().initial_draft@,
{
    let n = state.logged().len() as int;
    lemma_log_prefix(state, n);
    assert(state.logged().take(n) =~= state.logged());
    assert(state.pad().history@.take(n) =~= state.pad().history@);
}

proof fn lemma_log_prefix(state: EditLoop, n: int)
    requires
        state.wf(),
        0 <= n <= state.logged().len(),
    ensures
        ({
            let draft = state.pad().initial_draft@;
            let edits = state.logged().take(n);
            let tokens = scratchpad::replayed(draft, state.pad().history@.take(n));
            &&& tokens.len() == draft.len()
            &&& retold(draft, edits) == tokens
            &&& rewound(tokens, edits) == draft
        }),
    decreases n,
{
    let draft = state.pad().initial_draft@;
    if n > 0 {
        lemma_log_prefix(state, n - 1);
        assert(state.log_is_sound(n - 1));
        let log = state.logged()[n - 1];
        let before = scratchpad::replayed(draft, state.pad().history@.take(n - 1));
        assert(state.logged().take(n).drop_last() =~= state.logged().take(n - 1));
        assert(state.pad().history@.take(n).drop_last() =~= state.pad().history@.take(n - 1));
        patch::same_length_patch_keeps_positions(before, log.span, log.after@);
        patch::patch_is_undone_by_the_old_tokens(before, log.span, log.after@);
    }
}

/// The loop keeps its budget: it applies at most one edit per step, and makes at
/// most `max_steps` steps.
pub proof fn edits_stay_within_the_budget(state: EditLoop)
    requires
        state.wf(),
    ensures
        state.logged().len() <= state.steps() <= state.settings().max_steps,
{
    let n = state.logged().len() as int;
    if n > 0 {
        lemma_steps_spread(state, n - 1);
        assert(state.log_is_sound(n - 1));
    }
}

proof fn lemma_steps_spread(state: EditLoop, i: int)
    requires
        state.wf(),
        0 <= i < state.logged().len(),
    ensures
        i <= state.logged()[i].step,
    decreases i,
{
    if i > 0 {
        lemma_steps_spread(state, i - 1);
    }
}

/// Every edit is worth its while and within the cap: the Critic's weight of its
/// span was not below the threshold, and the span holds at most `max_span_len`
/// tokens.
pub proof fn edits_are_worthwhile_and_small(state: EditLoop, i: int)
    requires
        state.wf(),
        0 <= i < state.logged().len(),
    ensures
        !state.logged()[i].critic_weight.below(state.settings().halting.weight_threshold),
        0 < state.logged()[i].span.end - state.logged()[i].span.start
            <= state.settings().max_span_len,
{
    assert(state.log_is_sound(i));
}

/// A finished loop was halted by the Critic exactly when it left steps unused.
pub proof fn halted_iff_steps_are_left(state: EditLoop)
    requires
        state.wf(),
        state.over(),
    ensures
        state.has_halted() <==> state.steps() < state.settings().max_steps,
{
}

/// No edit of a trajectory is a no-op, and none repeats an earlier one on the
/// same tokens: the loop cannot oscillate on a span without changing it.
pub proof fn every_edit_is_new(state: EditLoop, i: int, j: int)
    requires
        state.wf(),
        0 <= i < j < state.logged().len(),
    ensures
        state.logged()[i].before@ != state.logged()[i].after@,
        state.logged()[i].span == state.logged()[j].span ==> state.logged()[i].before@
            != state.logged()[j].before@,
{
    assert(state.log_is_sound(i));
    assert(state.log_is_sound(j));
}

/// A span that was inspected becomes eligible again only if its content changed
/// since; visits are never forgotten.
pub proof fn eligible_again_only_after_a_change(
    visited: Seq<Visit>,
    tokens: Seq<TokenId>,
    later_visited: Seq<Visit>,
    later_tokens: Seq<TokenId>,
    span: Span,
)
    requires
        visited.is_prefix_of(later_visited),
        was_visited(visited, tokens, span),
        !was_visited(later_visited, later_tokens, span),
    ensures
        content_of(later_tokens, span) != content_of(tokens, span),
{
}

/// The loop is over exactly when the Critic has halted it, or when `max_steps`
/// spans have been inspected and none of them waits for the Editor.
pub proof fn over_once_halted_or_out_of_steps(state: EditLoop)
    ensures
        state.over() <==> state.has_halted() || (state.visited().len()
            >= state.settings().max_steps && state.pending() is None),
        state.between_steps() <==> !state.over() && state.pending() is None,
        state.steps() == state.visited().len(),
{
}

/// A span is skipped exactly when an earlier visit of the very same range found,
/// position by position, the tokens that stand there now.
pub proof fn seen_iff_visited_with_these_tokens(
    visited: Seq<Visit>,
    tokens: Seq<TokenId>,
    span: Span,
)
    requires
        span.start <= span.end <= tokens.len(),
    ensures
        was_visited(visited, tokens, span) <==> exists|i: int|
            0 <= i < visited.len() && (#[trigger] visited[i]).span.start == span.start
                && visited[i].span.end == span.end && visited[i].content@.len() == span.end
                - span.start && forall|p: int|
                span.start <= p < span.end ==> visited[i].content@[p - span.start]
                    == #[trigger] tokens[p],
{
    let held = content_of(tokens, span);
    if was_visited(visited, tokens, span) {
        let i = choose|i: int|
            0 <= i < visited.len() && (#[trigger] visited[i]).span == span
                && visited[i].content@ == held;
        assert(forall|p: int|
            span.start <= p < span.end ==> visited[i].content@[p - span.start]
                == #[trigger] tokens[p]);
    }
    if exists|i: int|
        0 <= i < visited.len() && (#[trigger] visited[i]).span.start == span.start
            && visited[i].span.end == span.end && visited[i].content@.len() == span.end
            - span.start && forall|p: int|
            span.start <= p < span.end ==> visited[i].content@[p - span.start]
                == #[trigger] tokens[p] {
        let i = choose|i: int|
            0 <= i < visited.len() && (#[trigger] visited[i]).span.start == span.start
                && visited[i].span.end == span.end && visited[i].content@.len() == span.end
                - span.start && forall|p: int|
                span.start <= p < span.end ==> visited[i].content@[p - span.start]
                    == #[trigger] tokens[p];
        assert forall|k: int| 0 <= k < held.len() implies visited[i].content@[k] == held[k] by {
            assert(tokens[span.start + k] == held[k]);
            assert(visited[i].content@[(span.start + k) - span.start] == tokens[span.start + k]);
        }
        assert(visited[i].content@ =~= held);
    }
}

/// The span that is inspected outweighs every other: of weights that are all
/// numbers, none ranks above the picked one, every later one ranks below it, and
/// no other index could have been picked.
pub proof fn the_heaviest_is_unique(weights: Seq<Score>, picked: int, other: int)
    requires
        score::all_numbers(weights),
        is_heaviest(weights, picked),
    ensures
        0 <= picked < weights.len(),
        forall|j: int|
            0 <= j < weights.len() ==> (#[trigger] weights[j]).rank() <= weights[picked].rank(),
        forall|j: int|
            picked < j < weights.len() ==> (#[trigger] weights[j]).rank()
                < weights[picked].rank(),
        is_heaviest(weights, other) <==> other == picked,
{
    assert forall|j: int| 0 <= j < weights.len() implies (#[trigger] weights[j]).rank()
        <= weights[picked].rank() by {
        assert(!weights[picked].below(weights[j]));
    }
    if is_heaviest(weights, other) && other < picked {
        assert(weights[picked].below(weights[other]));
        assert(!weights[picked].below(weights[other]));
    }
    if is_heaviest(weights, other) && picked < other {
        assert(weights[other].below(weights[picked]));
        assert(!weights[other].below(weights[picked]));
    }
}

/// Sums over two runs of trajectories are the sums over both together, and one
/// trajectory adds its own steps, its own edits, and itself where it is counted.
pub proof fn tallies_add_up(
    a: Seq<Trajectory>,
    b: Seq<Trajectory>,
    t: Trajectory,
    kept: spec_fn(Trajectory) -> bool,
)
    ensures
        total_steps(a + b) == total_steps(a) + total_steps(b),
        total_edits(a + b) == total_edits(a) + total_edits(b),
        how_many(a + b, kept) == how_many(a, kept) + how_many(b, kept),
        total_steps(seq![t]) == t.steps_used,
        total_edits(seq![t]) == t.edits@.len(),
        how_many(seq![t], kept) == if kept(t) {
            1nat
        } else {
            0nat
        },
    decreases b.len(),
{
    reveal(Seq::filter);
    assert(seq![t].drop_last() =~= Seq::<Trajectory>::empty());
    reveal_with_fuel(total_steps, 2);
    reveal_with_fuel(total_edits, 2);
    reveal_with_fuel(Seq::filter, 2);
    if b.len() == 0 {
        assert(a + b =~= a);
    } else {
        tallies_add_up(a, b.drop_last(), t, kept);
        assert((a + b).drop_last() =~= a + b.drop_last());
        assert((a + b).last() == b.last());
    }
}

} // verus!

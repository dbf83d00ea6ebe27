//! The private scratchpad: a token buffer with its edit history.

use crate::patch;
use crate::patch::Patch;
use crate::score::Score;
use crate::tokenizer::TokenId;
use vstd::prelude::*;
use vstd::slice::slice_to_vec;

verus! {

/// One applied edit in a scratchpad's history, with the signals that led
/// to it, kept so that full trajectories can be dumped and inspected.
#[derive(Debug, Clone)]
pub struct EditRecord {
    pub step: usize,
    pub patch: Patch,
    /// Router score that flagged this span (mean over span positions).
    pub router_score: Score,
    /// Critic-predicted weight of the span before the edit.
    pub critic_weight_before: Score,
}

/// The private scratchpad: current token buffer plus full edit history.
#[derive(Debug, Clone)]
pub struct ScratchpadState {
    pub tokens: Vec<TokenId>,
    /// The initial draft, retained for before/after comparison.
    pub initial_draft: Vec<TokenId>,
    pub history: Vec<EditRecord>,
}

/// The buffer that the recorded patches make of `draft`, oldest first.
pub open spec fn replayed(draft: Seq<TokenId>, history: Seq<EditRecord>) -> Seq<TokenId>
    decreases history.len(),
{
    if history.len() == 0 {
        draft
    } else {
        patch::spliced(
            replayed(draft, history.drop_last()),
            history.last().patch.span,
            history.last().patch.replacement@,
        )
    }
}

impl ScratchpadState {
    /// The current tokens are what the history makes of the initial draft, and
    /// the records are numbered in order.
    pub open spec fn wf(self) -> bool {
        &&& self.tokens@ == replayed(self.initial_draft@, self.history@)
        &&& forall|i: int|
            0 <= i < self.history.len() ==> (#[trigger] self.history[i]).step == i
    }

    pub fn new(draft: Vec<TokenId>) -> (r: ScratchpadState)
        ensures
            r.tokens@ == draft@,
            r.initial_draft@ == draft@,
            r.history@ == Seq::<EditRecord>::empty(),
            r.wf(),
    {
        ScratchpadState {
            tokens: slice_to_vec(draft.as_slice()),
            initial_draft: draft,
            history: Vec::new(),
        }
    }

    pub fn edit_count(&self) -> (r: usize)
        ensures
            r == self.history.len(),
    {
        self.history.len()
    }

    /// Apply a patch and record it.
    pub fn apply(&mut self, patch: Patch, router_score: Score, critic_weight_before: Score)
        requires
            patch.span.within(old(self).tokens@.len()),
        ensures
            final(self).tokens@ == patch::spliced(
                old(self).tokens@,
                patch.span,
                patch.replacement@,
            ),
            final(self).initial_draft == old(self).initial_draft,
            final(self).history@ == old(self).history@.push(
                (EditRecord {
                    step: old(self).history.len(),
                    patch,
                    router_score,
                    critic_weight_before,
                }),
            ),
            old(self).wf() ==> final(self).wf(),
    {
        let ghost before = *self;
        let step: usize = self.history.len();
        self.tokens = patch.apply(self.tokens.as_slice());
        self.history.push(EditRecord { step, patch, router_score, critic_weight_before });
        assert(self.history@.drop_last() =~= before.history@);
    }
}

/// Replaying goes record by record: no records leave the draft as it is, one
/// applies its patch, and a longer history is replayed on what its first part
/// makes of the draft.
pub proof fn histories_replay_in_order(
    draft: Seq<TokenId>,
    a: Seq<EditRecord>,
    b: Seq<EditRecord>,
    record: EditRecord,
)
    ensures
        replayed(draft, Seq::empty()) == draft,
        replayed(draft, seq![record]) == patch::spliced(
            draft,
            record.patch.span,
            record.patch.replacement@,
        ),
        replayed(draft, a + b) == replayed(replayed(draft, a), b),
    decreases b.len(),
{
    reveal_with_fuel(replayed, 2);
    assert(seq![record].drop_last() =~= Seq::<EditRecord>::empty());
    if b.len() == 0 {
        assert(a + b =~= a);
    } else {
        histories_replay_in_order(draft, a, b.drop_last(), record);
        assert((a + b).drop_last() =~= a + b.drop_last());
        assert((a + b).last() == b.last());
    }
}

} // verus!

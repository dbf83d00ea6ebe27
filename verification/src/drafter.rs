//! The Drafter's sizes, and the greedy continuation of a prefix.

use crate::batch::TokenBatch;
use crate::nn::SeqEmbeddingConfig;
use crate::tokenizer::TokenId;
use vstd::prelude::*;
use vstd::slice::slice_to_vec;

verus! {

/// Sizes of the Drafter.
#[derive(Debug, Clone, Copy, PartialEq, Eq, Structural)]
pub struct DrafterConfig {
    pub vocab_size: usize,
    pub d_model: usize,
    pub n_heads: usize,
    pub n_layers: usize,
    pub d_ff: usize,
    pub max_seq_len: usize,
}

impl DrafterConfig {
    pub fn new(vocab_size: usize) -> (r: DrafterConfig)
        ensures
            r == (DrafterConfig {
                vocab_size,
                d_model: 64,
                n_heads: 4,
                n_layers: 2,
                d_ff: 256,
                max_seq_len: 64,
            }),
    {
        DrafterConfig {
            vocab_size,
            d_model: 64,
            n_heads: 4,
            n_layers: 2,
            d_ff: 256,
            max_seq_len: 64,
        }
    }

    pub fn with_max_seq_len(self, max_seq_len: usize) -> (r: DrafterConfig)
        ensures
            r == (DrafterConfig { max_seq_len, ..self }),
    {
        DrafterConfig { max_seq_len, ..self }
    }

    /// The embedding that the Drafter reads tokens through.
    pub fn embedding(&self) -> (r: SeqEmbeddingConfig)
        ensures
            r == (SeqEmbeddingConfig {
                vocab_size: self.vocab_size,
                max_seq_len: self.max_seq_len,
                d_model: self.d_model,
            }),
    {
        SeqEmbeddingConfig::new(self.vocab_size, self.max_seq_len, self.d_model)
    }
}

/// A greedy autoregressive continuation in progress: the model predicts the next
/// token from all tokens so far, and the prediction is appended.
pub struct Continuation {
    tokens: Vec<TokenId>,
    remaining: usize,
}

/// `prefix` followed by the predictions.
pub open spec fn continued(prefix: Seq<TokenId>, predictions: Seq<i64>) -> Seq<TokenId> {
    prefix + predictions.map_values(|n: i64| n as TokenId)
}

impl Continuation {
    /// The tokens so far.
    pub closed spec fn so_far(&self) -> Seq<TokenId> {
        self.tokens@
    }

    /// How many tokens are still to come.
    pub closed spec fn to_come(&self) -> nat {
        self.remaining as nat
    }

    /// Starts a continuation of `prefix` by `num_new` tokens.
    pub fn new(prefix: &[TokenId], num_new: usize) -> (r: Continuation)
        ensures
            r.so_far() == prefix@,
            r.to_come() == num_new,
    {
        Continuation { tokens: slice_to_vec(prefix), remaining: num_new }
    }

    /// The next input of the model: one row, all tokens so far. `None` once the
    /// continuation is complete.
    pub fn next_input(&self) -> (r: Option<TokenBatch>)
        ensures
            match r {
                Some(input) => {
                    &&& self.to_come() > 0
                    &&& input.wf()
                    &&& input.batch == 1
                    &&& input.seq_len == self.so_far().len()
                    &&& input.data@ == self.so_far().map_values(|t: TokenId| t as i64)
                },
                None => self.to_come() == 0,
            },
    {
        if self.remaining == 0 {
            return None;
        }
        let mut rows: Vec<&[TokenId]> = Vec::new();
        rows.push(self.tokens.as_slice());
        let input: TokenBatch = TokenBatch::from_sequences(rows.as_slice());
        assert(input.data@.len() == self.tokens@.len()) by (nonlinear_arith)
            requires
                input.data@.len() == input.batch * input.seq_len,
                input.batch == 1,
                input.seq_len == self.tokens@.len(),
        ;
        assert forall|j: int| 0 <= j < input.data@.len() implies input.data@[j]
            == self.tokens@[j] as i64 by {
            assert(input.at(0, j) == rows@[0]@[j]);
        }
        Some(input)
    }

    /// Appends a predicted token.
    pub fn accept(&mut self, next: i64)
        requires
            old(self).to_come() > 0,
        ensures
            final(self).so_far() == continued(old(self).so_far(), seq![next]),
            final(self).so_far() == old(self).so_far().push(next as TokenId),
            final(self).to_come() == old(self).to_come() - 1,
    {
        self.tokens.push(#[verifier::truncate] (next as TokenId));
        self.remaining = self.remaining - 1;
    }

    /// The prefix and its continuation.
    pub fn into_tokens(self) -> (r: Vec<TokenId>)
        ensures
            r@ == self.so_far(),
    {
        self.tokens
    }
}

/// Accepting predictions one by one appends them all and keeps the prefix: each
/// step continues what the steps before it made.
pub proof fn continuation_appends(prefix: Seq<TokenId>, predictions: Seq<i64>, next: i64)
    ensures
        continued(prefix, Seq::empty()) == prefix,
        continued(continued(prefix, predictions), seq![next]) == continued(
            prefix,
            predictions.push(next),
        ),
        continued(prefix, predictions).len() == prefix.len() + predictions.len(),
        continued(prefix, predictions).take(prefix.len() as int) == prefix,
{
}

/// The greedy continuation of `prefix` by `n` tokens under a model that predicts
/// the next token from all tokens so far.
pub open spec fn greedy(
    model: spec_fn(Seq<TokenId>) -> i64,
    prefix: Seq<TokenId>,
    n: nat,
) -> Seq<TokenId>
    decreases n,
{
    if n == 0 {
        prefix
    } else {
        let before = greedy(model, prefix, (n - 1) as nat);
        continued(before, seq![model(before)])
    }
}

/// A continuation that accepts what the model predicts from the tokens so far is
/// the greedy one: each accepted prediction takes it one token further.
pub proof fn accepting_predictions_is_greedy(
    model: spec_fn(Seq<TokenId>) -> i64,
    prefix: Seq<TokenId>,
    n: nat,
    so_far: Seq<TokenId>,
    next: i64,
)
    requires
        so_far == greedy(model, prefix, n),
        next == model(so_far),
    ensures
        continued(so_far, seq![next]) == greedy(model, prefix, n + 1),
{
}

/// Every prediction of the model is an id of a vocabulary of `vocab_size` tokens.
pub open spec fn predicts_below(model: spec_fn(Seq<TokenId>) -> i64, vocab_size: nat) -> bool {
    forall|s: Seq<TokenId>| 0 <= #[trigger] model(s) < vocab_size
}

/// The greedy continuation keeps the prefix and adds `n` tokens to it; by nothing
/// it adds nothing; and every added id is one that the model predicts, so below
/// `vocab_size` where the model's predictions are.
pub proof fn greedy_appends(
    model: spec_fn(Seq<TokenId>) -> i64,
    prefix: Seq<TokenId>,
    n: nat,
    vocab_size: nat,
)
    ensures
        greedy(model, prefix, 0) == prefix,
        greedy(model, prefix, n).len() == prefix.len() + n,
        greedy(model, prefix, n).take(prefix.len() as int) == prefix,
        vocab_size <= u32::MAX + 1 && predicts_below(model, vocab_size) ==> forall|i: int|
            prefix.len() <= i < prefix.len() + n ==> #[trigger] greedy(model, prefix, n)[i]
                < vocab_size,
    decreases n,
{
    if n > 0 {
        let before = greedy(model, prefix, (n - 1) as nat);
        greedy_appends(model, prefix, (n - 1) as nat, vocab_size);
        assert(greedy(model, prefix, n) =~= before.push(model(before) as TokenId));
    }
}

/// Continuing by `a` tokens and then by `b` is continuing by `a + b`.
pub proof fn greedy_continues(
    model: spec_fn(Seq<TokenId>) -> i64,
    prefix: Seq<TokenId>,
    a: nat,
    b: nat,
)
    ensures
        greedy(model, greedy(model, prefix, a), b) == greedy(model, prefix, a + b),
    decreases b,
{
    if b > 0 {
        greedy_continues(model, prefix, a, (b - 1) as nat);
    }
}

/// Each prediction stands where it was made, right after the tokens that it was
/// made from: the prefix stays in front, and prediction `k` is the `k`-th token
/// after it.
pub proof fn predictions_follow_the_prefix(
    prefix: Seq<TokenId>,
    predictions: Seq<i64>,
    model: spec_fn(Seq<TokenId>) -> i64,
    n: nat,
    k: nat,
)
    requires
        k < n,
    ensures
        forall|i: int|
            0 <= i < prefix.len() ==> #[trigger] continued(prefix, predictions)[i] == prefix[i],
        forall|i: int|
            prefix.len() <= i < prefix.len() + predictions.len() ==> #[trigger] continued(
                prefix,
                predictions,
            )[i] == predictions[i - prefix.len()] as TokenId,
        greedy(model, prefix, n)[(prefix.len() + k) as int] == model(greedy(model, prefix, k))
            as TokenId,
        greedy(model, prefix, n).take((prefix.len() + k) as int) == greedy(model, prefix, k),
    decreases n,
{
    let before = greedy(model, prefix, (n - 1) as nat);
    greedy_appends(model, prefix, (n - 1) as nat, 0);
    greedy_appends(model, prefix, k, 0);
    assert(greedy(model, prefix, n) =~= before.push(model(before) as TokenId));
    if k + 1 < n {
        predictions_follow_the_prefix(prefix, predictions, model, (n - 1) as nat, k);
        let end = (prefix.len() + k) as int;
        assert(greedy(model, prefix, n).take(end) =~= before.take(end));
    } else {
        assert(greedy(model, prefix, n).take((prefix.len() + k) as int) =~= before);
    }
}

} // verus!

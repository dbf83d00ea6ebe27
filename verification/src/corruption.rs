//! Corruption of drafts: the training and evaluation input of the Editor.

use crate::ablation;
use crate::ablation::{draw_span, mask_span};
use crate::kv_task::KvExample;
use crate::patch;
use crate::patch::{tokens_equal, Patch};
use crate::random;
use crate::random::draw_many;
use crate::span::Span;
use crate::tokenizer::{TokenId, Tokenizer};
use crate::vocab;
use crate::vocab::KvVocab;
use rand::rngs::StdRng;
use vstd::prelude::*;
use vstd::slice::{slice_subrange, slice_to_vec};

verus! {

/// How a span gets corrupted.
#[derive(Clone, Copy)]
pub enum Corruption {
    /// Random key/value content tokens (training distribution).
    RandomContent,
    /// MASK fill (held out from training: "unseen corruption pattern").
    MaskFill,
}

/// `tokens` with the positions of `span` replaced by `content`, in order.
pub open spec fn overwritten(
    tokens: Seq<TokenId>,
    span: Span,
    content: Seq<usize>,
) -> Seq<TokenId> {
    Seq::new(
        tokens.len(),
        |p: int|
            if span.holds(p) {
                content[p - span.start] as TokenId
            } else {
                tokens[p]
            },
    )
}

/// The corrupted tokens, the corrupted span, and the state after: a span is drawn
/// as for ablation; then each of its positions gets a key or value token drawn
/// for it, or the mask.
pub open spec fn corrupted(
    tokens: Seq<TokenId>,
    vocab: KvVocab,
    kind: Corruption,
    min: usize,
    max: usize,
    state: Seq<u32>,
) -> (Seq<TokenId>, Span, Seq<u32>) {
    let draw = ablation::drawn_span(state, tokens.len() as usize, min, max);
    match kind {
        Corruption::RandomContent => {
            let content = random::draws(
                draw.1,
                vocab::NUM_SPECIAL as usize,
                vocab.value_end() as usize,
                (draw.0.end - draw.0.start) as nat,
            );
            (overwritten(tokens, draw.0, content.0), draw.0, content.1)
        },
        Corruption::MaskFill => (
            ablation::masked(tokens, draw.0, vocab::MASK),
            draw.0,
            draw.1,
        ),
    }
}

/// A span of `min..=max` tokens can be drawn in a sequence of `len` tokens, and
/// random content for it.
pub open spec fn corruptible(
    len: nat,
    vocab: KvVocab,
    kind: Corruption,
    min: usize,
    max: usize,
) -> bool {
    &&& len >= 2
    &&& min <= max
    &&& kind is RandomContent ==> vocab.ids_fit()
    &&& kind is RandomContent && len > 2 && max > 0 ==> vocab.num_keys + vocab.num_values > 0
}

/// `damaged` is `clean` with one span corrupted: a span between the first token
/// and the last whose length was asked for, which now holds content of the kind;
/// everything else is intact.
pub open spec fn is_corruption_of(
    damaged: Seq<TokenId>,
    span: Span,
    clean: Seq<TokenId>,
    vocab: KvVocab,
    kind: Corruption,
    min: usize,
    max: usize,
) -> bool {
    &&& damaged.len() == clean.len()
    &&& ablation::is_inner(span, clean.len() as usize)
    &&& ablation::has_length_in(span, clean.len() as usize, min, max)
    &&& forall|p: int|
        0 <= p < clean.len() && !span.holds(p) ==> #[trigger] damaged[p] == clean[p]
    &&& forall|p: int|
        span.holds(p) ==> match kind {
            Corruption::RandomContent => vocab.holds_key(#[trigger] damaged[p])
                || vocab.holds_value(damaged[p]),
            Corruption::MaskFill => damaged[p] == vocab::MASK,
        }
}

/// Corrupt one random span; returns (corrupted tokens, span).
/// Spans live in `[1, len-1)`: BOS and the final EOS stay intact.
pub fn corrupt(
    tokens: &[TokenId],
    vocab: &KvVocab,
    kind: Corruption,
    min_span_len: usize,
    max_span_len: usize,
    rng: &mut StdRng,
) -> (r: (Vec<TokenId>, Span))
    requires
        corruptible(tokens@.len(), *vocab, kind, min_span_len, max_span_len),
    ensures
        (r.0@, r.1, random::generator_state(*final(rng))) == corrupted(
            tokens@,
            *vocab,
            kind,
            min_span_len,
            max_span_len,
            random::generator_state(*old(rng)),
        ),
        is_corruption_of(
            r.0@,
            r.1,
            tokens@,
            *vocab,
            kind,
            min_span_len,
            max_span_len,
        ),
        ({
            let length = random::inclusive_draw(
                random::generator_state(*old(rng)),
                min_span_len,
                max_span_len,
            );
            let cut = vstd::math::min(length.0 as int, tokens@.len() - 2);
            let start = random::inclusive_draw(
                length.1,
                1,
                (tokens@.len() - 1 - cut) as usize,
            );
            &&& r.1.start == start.0
            &&& r.1.end == start.0 + cut
            &&& kind is MaskFill ==> random::generator_state(*final(rng)) == start.1
        }),
        r.0@.len() == tokens@.len(),
        forall|p: int|
            0 <= p < r.1.start || r.1.end <= p < tokens@.len() ==> #[trigger] r.0@[p]
                == tokens@[p],
        forall|p: int|
            r.1.start <= p < r.1.end ==> match kind {
                Corruption::RandomContent => 6 <= #[trigger] r.0@[p] < 6 + vocab.num_keys
                    + vocab.num_values,
                Corruption::MaskFill => r.0@[p] == 5,
            },
{
    let span: Span = draw_span(rng, tokens.len(), min_span_len, max_span_len);
    match kind {
        Corruption::RandomContent => {
            let low: usize = vocab::NUM_SPECIAL as usize;
            let high: usize = vocab.vocab_size();
            let content: Vec<usize> = draw_many(rng, low, high, span.len());
            let mut out: Vec<TokenId> = slice_to_vec(tokens);
            let mut p: usize = span.start;
            while p < span.end
                invariant
                    span.start <= p <= span.end <= tokens@.len(),
                    content@.len() == span.end - span.start,
                    forall|i: int|
                        0 <= i < content@.len() ==> #[trigger] content@[i] <= u32::MAX,
                    out@ =~= Seq::new(
                        tokens@.len(),
                        |q: int|
                            if span.start <= q < p {
                                content@[q - span.start] as TokenId
                            } else {
                                tokens@[q]
                            },
                    ),
                decreases span.end - p,
            {
                out.set(p, content[p - span.start] as TokenId);
                p = p + 1;
            }
            (out, span)
        },
        Corruption::MaskFill => (mask_span(tokens, span, vocab::MASK), span),
    }
}

/// `tokens` corrupted `times` times over, and the state after.
pub open spec fn corrupted_often(
    tokens: Seq<TokenId>,
    vocab: KvVocab,
    kind: Corruption,
    min: usize,
    max: usize,
    times: nat,
    state: Seq<u32>,
) -> (Seq<TokenId>, Seq<u32>)
    decreases times,
{
    if times == 0 {
        (tokens, state)
    } else {
        let before = corrupted_often(tokens, vocab, kind, min, max, (times - 1) as nat, state);
        let last = corrupted(before.0, vocab, kind, min, max, before.1);
        (last.0, last.2)
    }
}

/// Corrupts `times` spans of a sequence one after another: a stand-in for an
/// imperfect draft. The first token and the last stay intact.
pub fn corrupt_often(
    tokens: &[TokenId],
    vocab: &KvVocab,
    kind: Corruption,
    min_span_len: usize,
    max_span_len: usize,
    times: usize,
    rng: &mut StdRng,
) -> (r: Vec<TokenId>)
    requires
        times > 0 ==> corruptible(tokens@.len(), *vocab, kind, min_span_len, max_span_len),
    ensures
        (r@, random::generator_state(*final(rng))) == corrupted_often(
            tokens@,
            *vocab,
            kind,
            min_span_len,
            max_span_len,
            times as nat,
            random::generator_state(*old(rng)),
        ),
        r@.len() == tokens@.len(),
        tokens@.len() > 0 ==> r@.first() == tokens@.first() && r@.last() == tokens@.last(),
{
    let ghost state = random::generator_state(*rng);
    let mut out: Vec<TokenId> = slice_to_vec(tokens);
    let mut i: usize = 0;
    while i < times
        invariant
            i <= times,
            times > 0 ==> corruptible(tokens@.len(), *vocab, kind, min_span_len, max_span_len),
            state == random::generator_state(*old(rng)),
            (out@, random::generator_state(*rng)) == corrupted_often(
                tokens@,
                *vocab,
                kind,
                min_span_len,
                max_span_len,
                i as nat,
                state,
            ),
            out@.len() == tokens@.len(),
            out@.first() == tokens@.first(),
            out@.last() == tokens@.last(),
        decreases times - i,
    {
        let (next, _span): (Vec<TokenId>, Span) = corrupt(
            out.as_slice(),
            vocab,
            kind,
            min_span_len,
            max_span_len,
            rng,
        );
        out = next;
        i = i + 1;
    }
    out
}

/// The chosen examples' tokens, each corrupted once, in order; the corrupted
/// spans; and the state after.
pub open spec fn corrupted_batch(
    examples: Seq<KvExample>,
    indices: Seq<usize>,
    vocab: KvVocab,
    kind: Corruption,
    min: usize,
    max: usize,
    state: Seq<u32>,
) -> (Seq<Seq<TokenId>>, Seq<Span>, Seq<u32>)
    decreases indices.len(),
{
    if indices.len() == 0 {
        (Seq::empty(), Seq::empty(), state)
    } else {
        let before = corrupted_batch(
            examples,
            indices.drop_last(),
            vocab,
            kind,
            min,
            max,
            state,
        );
        let last = corrupted(
            examples[indices.last() as int].tokens@,
            vocab,
            kind,
            min,
            max,
            before.2,
        );
        (before.0.push(last.0), before.1.push(last.1), last.2)
    }
}

/// Corrupts the chosen examples, one span each: a training batch of the Editor.
/// Returns the corrupted sequences and their spans.
pub fn corrupt_batch(
    examples: &[KvExample],
    indices: &[usize],
    vocab: &KvVocab,
    kind: Corruption,
    min_span_len: usize,
    max_span_len: usize,
    rng: &mut StdRng,
) -> (r: (Vec<Vec<TokenId>>, Vec<Span>))
    requires
        forall|i: int| 0 <= i < indices@.len() ==> #[trigger] indices@[i] < examples@.len(),
        forall|i: int|
            0 <= i < indices@.len() ==> corruptible(
                examples@[#[trigger] indices@[i] as int].tokens@.len(),
                *vocab,
                kind,
                min_span_len,
                max_span_len,
            ),
    ensures
        (
            r.0@.map_values(|t: Vec<TokenId>| t@),
            r.1@,
            random::generator_state(*final(rng)),
        ) == corrupted_batch(
            examples@,
            indices@,
            *vocab,
            kind,
            min_span_len,
            max_span_len,
            random::generator_state(*old(rng)),
        ),
        r.0@.len() == indices@.len(),
        r.1@.len() == indices@.len(),
        forall|i: int|
            0 <= i < indices@.len() ==> is_corruption_of(
                (#[trigger] r.0@[i])@,
                r.1@[i],
                examples@[indices@[i] as int].tokens@,
                *vocab,
                kind,
                min_span_len,
                max_span_len,
            ),
{
    let ghost state = random::generator_state(*rng);
    let ghost view = |t: Vec<TokenId>| t@;
    let mut sequences: Vec<Vec<TokenId>> = Vec::new();
    let mut spans: Vec<Span> = Vec::new();
    let mut i: usize = 0;
    while i < indices.len()
        invariant
            i <= indices.len(),
            forall|k: int| 0 <= k < indices@.len() ==> #[trigger] indices@[k] < examples@.len(),
            forall|k: int|
                0 <= k < indices@.len() ==> corruptible(
                    examples@[#[trigger] indices@[k] as int].tokens@.len(),
                    *vocab,
                    kind,
                    min_span_len,
                    max_span_len,
                ),
            state == random::generator_state(*old(rng)),
            sequences@.len() == i,
            spans@.len() == i,
            forall|k: int|
                0 <= k < i ==> is_corruption_of(
                    (#[trigger] sequences@[k])@,
                    spans@[k],
                    examples@[indices@[k] as int].tokens@,
                    *vocab,
                    kind,
                    min_span_len,
                    max_span_len,
                ),
            view == (|t: Vec<TokenId>| t@),
            (sequences@.map_values(view), spans@, random::generator_state(*rng))
                == corrupted_batch(
                examples@,
                indices@.take(i as int),
                *vocab,
                kind,
                min_span_len,
                max_span_len,
                state,
            ),
        decreases indices.len() - i,
    {
        let (sequence, span): (Vec<TokenId>, Span) = corrupt(
            examples[indices[i]].tokens.as_slice(),
            vocab,
            kind,
            min_span_len,
            max_span_len,
            rng,
        );
        sequences.push(sequence);
        spans.push(span);
        proof {
            assert(indices@.take(i + 1).drop_last() =~= indices@.take(i as int));
        }
        i = i + 1;
    }
    assert(indices@.take(i as int) =~= indices@);
    (sequences, spans)
}

/// One repaired sequence and whether the repair restored the original span.
pub struct Repair {
    pub tokens: Vec<TokenId>,
    pub reconstructed: bool,
}

/// Apply a repair patch to a corrupted sequence, and compare the corrupted span
/// with the original.
pub fn repair(corrupted: &[TokenId], patch: &Patch, original: &[TokenId]) -> (r: Repair)
    requires
        patch.span.within(corrupted@.len()),
        patch.same_length(),
        patch.span.end <= original@.len(),
    ensures
        r.tokens@ == patch::spliced(corrupted@, patch.span, patch.replacement@),
        r.reconstructed == (patch.replacement@ == original@.subrange(
            patch.span.start as int,
            patch.span.end as int,
        )),
{
    let tokens: Vec<TokenId> = patch.apply(corrupted);
    let reconstructed: bool = tokens_equal(
        slice_subrange(tokens.as_slice(), patch.span.start, patch.span.end),
        slice_subrange(original, patch.span.start, patch.span.end),
    );
    assert(tokens@.subrange(patch.span.start as int, patch.span.end as int)
        =~= patch.replacement@);
    Repair { tokens, reconstructed }
}

/// Restoring the original span undoes a corruption: it gives back the clean
/// sequence.
pub proof fn restoring_the_span_repairs(
    clean: Seq<TokenId>,
    damaged: Seq<TokenId>,
    span: Span,
)
    requires
        damaged.len() == clean.len(),
        span.within(clean.len()),
        forall|p: int| 0 <= p < clean.len() && !span.holds(p) ==> #[trigger] damaged[p] == clean[p],
    ensures
        patch::spliced(
            damaged,
            span,
            clean.subrange(span.start as int, span.end as int),
        ) == clean,
{
}

/// The corrupted span is the one that the generator draws, for either kind: its
/// start is the second inclusive draw, over every place from 1 to
/// `len - 1 - length` where a span of the drawn length fits.
pub proof fn the_drawn_span_is_corrupted(
    tokens: Seq<TokenId>,
    vocab: KvVocab,
    kind: Corruption,
    min: usize,
    max: usize,
    state: Seq<u32>,
)
    requires
        2 <= tokens.len() <= usize::MAX,
    ensures
        ({
            let len = tokens.len() as int;
            let first = random::inclusive_draw(state, min, max);
            let length = vstd::math::min(first.0 as int, len - 2);
            let second = random::inclusive_draw(first.1, 1, (len - 1 - length) as usize);
            let (damaged, span, after) = corrupted(tokens, vocab, kind, min, max, state);
            &&& span.start == second.0
            &&& second.0 <= len - 1 - length ==> span.end - span.start == length
            &&& kind is MaskFill ==> after == second.1
        }),
{
    ablation::a_span_is_two_draws(state, tokens.len() as usize, min, max);
}

/// Which span is corrupted depends on the state, the number of tokens and the
/// lengths asked for alone: neither the tokens, nor the vocabulary, nor the kind
/// of corruption plays a part.
pub proof fn kinds_corrupt_the_same_span(
    a: Seq<TokenId>,
    b: Seq<TokenId>,
    vocab: KvVocab,
    other_vocab: KvVocab,
    kind: Corruption,
    other_kind: Corruption,
    min: usize,
    max: usize,
    state: Seq<u32>,
)
    requires
        a.len() == b.len(),
    ensures
        corrupted(a, vocab, kind, min, max, state).1 == corrupted(
            b,
            other_vocab,
            other_kind,
            min,
            max,
            state,
        ).1,
{
}

/// Corruption overwrites the positions of its span and no others. Random content
/// puts at the span's `k`-th position the `k`-th number drawn over all key and
/// value ids, from the state that the span's draws leave; a mask fill puts MASK
/// at each.
pub proof fn corruption_overwrites_the_span_alone(
    tokens: Seq<TokenId>,
    vocab: KvVocab,
    kind: Corruption,
    min: usize,
    max: usize,
    state: Seq<u32>,
)
    requires
        2 <= tokens.len() <= usize::MAX,
        6 + vocab.num_keys + vocab.num_values <= usize::MAX,
    ensures
        ({
            let (damaged, span, after) = corrupted(tokens, vocab, kind, min, max, state);
            let drawn = ablation::drawn_span(state, tokens.len() as usize, min, max).1;
            let high = (6 + vocab.num_keys + vocab.num_values) as usize;
            &&& damaged.len() == tokens.len()
            &&& forall|p: int|
                0 <= p < tokens.len() && !(span.start <= p < span.end) ==> #[trigger] damaged[p]
                    == tokens[p]
            &&& kind is MaskFill ==> forall|p: int|
                0 <= p < tokens.len() && span.start <= p < span.end ==> #[trigger] damaged[p]
                    == 5
            &&& kind is RandomContent && span.start <= span.end ==> {
                let content = random::draws(drawn, 6, high, (span.end - span.start) as nat);
                &&& forall|p: int|
                    0 <= p < tokens.len() && span.start <= p < span.end
                        ==> #[trigger] damaged[p] == content.0[p - span.start] as TokenId
                &&& after == content.1
            }
        }),
{
}

/// Corrupting goes on where it left off: `a + b` corruptions are `a` of them and
/// then `b` of what those leave, tokens and state; one is one corruption, and
/// none changes nothing.
pub proof fn corruptions_compose(
    tokens: Seq<TokenId>,
    vocab: KvVocab,
    kind: Corruption,
    min: usize,
    max: usize,
    a: nat,
    b: nat,
    state: Seq<u32>,
)
    ensures
        ({
            let first = corrupted_often(tokens, vocab, kind, min, max, a, state);
            corrupted_often(tokens, vocab, kind, min, max, a + b, state) == corrupted_often(
                first.0,
                vocab,
                kind,
                min,
                max,
                b,
                first.1,
            )
        }),
        ({
            let once = corrupted(tokens, vocab, kind, min, max, state);
            corrupted_often(tokens, vocab, kind, min, max, 1, state) == (once.0, once.2)
        }),
        corrupted_often(tokens, vocab, kind, min, max, 0, state) == (tokens, state),
    decreases b,
{
    reveal_with_fuel(corrupted_often, 2);
    if b > 0 {
        corruptions_compose(tokens, vocab, kind, min, max, a, (b - 1) as nat, state);
    }
}

/// A batch is corrupted example by example, in the order of the indices: the
/// batch of `a` and then `b` is the batch of `a`, and then that of `b` from the
/// state that the first leaves; one index gives one corruption of its example.
pub proof fn batches_corrupt_example_by_example(
    examples: Seq<KvExample>,
    a: Seq<usize>,
    b: Seq<usize>,
    i: usize,
    vocab: KvVocab,
    kind: Corruption,
    min: usize,
    max: usize,
    state: Seq<u32>,
)
    ensures
        ({
            let first = corrupted_batch(examples, a, vocab, kind, min, max, state);
            let second = corrupted_batch(examples, b, vocab, kind, min, max, first.2);
            let both = corrupted_batch(examples, a + b, vocab, kind, min, max, state);
            &&& both.0 == first.0 + second.0
            &&& both.1 == first.1 + second.1
            &&& both.2 == second.2
        }),
        ({
            let one = corrupted_batch(examples, seq![i], vocab, kind, min, max, state);
            let once = corrupted(examples[i as int].tokens@, vocab, kind, min, max, state);
            one.0 == seq![once.0] && one.1 == seq![once.1] && one.2 == once.2
        }),
    decreases b.len(),
{
    reveal_with_fuel(corrupted_batch, 2);
    assert(seq![i].drop_last() =~= Seq::<usize>::empty());
    let first = corrupted_batch(examples, a, vocab, kind, min, max, state);
    if b.len() == 0 {
        assert(a + b =~= a);
        assert(first.0 + Seq::<Seq<TokenId>>::empty() =~= first.0);
        assert(first.1 + Seq::<Span>::empty() =~= first.1);
    } else {
        batches_corrupt_example_by_example(
            examples,
            a,
            b.drop_last(),
            i,
            vocab,
            kind,
            min,
            max,
            state,
        );
        assert((a + b).drop_last() =~= a + b.drop_last());
        assert((a + b).last() == b.last());
        let before = corrupted_batch(examples, b.drop_last(), vocab, kind, min, max, first.2);
        let last = corrupted(
            examples[b.last() as int].tokens@,
            vocab,
            kind,
            min,
            max,
            before.2,
        );
        assert((first.0 + before.0).push(last.0) =~= first.0 + before.0.push(last.0));
        assert((first.1 + before.1).push(last.1) =~= first.1 + before.1.push(last.1));
    }
}

} // verus!

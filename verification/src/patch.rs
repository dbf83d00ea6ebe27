//! Proposed replacements of one span's tokens.

use crate::span::Span;
use crate::tokenizer::TokenId;
use vstd::prelude::*;
use vstd::slice::{slice_subrange, slice_to_vec};

verus! {

/// A proposed replacement of one span's tokens.
///
/// Same-length patches (`replacement.len() == span.len()`) keep every
/// downstream position index stable across an edit.
#[derive(Debug, Clone, PartialEq, Eq)]
pub struct Patch {
    pub span: Span,
    pub replacement: Vec<TokenId>,
}

/// `tokens` with the span `[start, end)` replaced.
pub open spec fn spliced(
    tokens: Seq<TokenId>,
    span: Span,
    replacement: Seq<TokenId>,
) -> Seq<TokenId> {
    tokens.subrange(0, span.start as int) + replacement + tokens.subrange(
        span.end as int,
        tokens.len() as int,
    )
}

impl Patch {
    /// The replacement is as long as the span.
    pub open spec fn same_length(self) -> bool {
        self.span.wf() && self.replacement@.len() == self.span.end - self.span.start
    }

    pub fn new(span: Span, replacement: Vec<TokenId>) -> (r: Patch)
        ensures
            r.span == span,
            r.replacement == replacement,
    {
        Patch { span, replacement }
    }

    /// Whether the span lies within `tokens` and already holds the replacement,
    /// so that applying this patch would change nothing.
    pub fn is_noop_on(&self, tokens: &[TokenId]) -> (r: bool)
        ensures
            r == (self.span.within(tokens@.len()) && tokens@.subrange(
                self.span.start as int,
                self.span.end as int,
            ) == self.replacement@),
            r ==> self.span.start <= self.span.end <= tokens@.len() && self.replacement@.len()
                == self.span.end - self.span.start,
            r ==> forall|p: int|
                self.span.start <= p < self.span.end ==> #[trigger] tokens@[p]
                    == self.replacement@[p - self.span.start],
    {
        proof {
            noop_compares_each_position(tokens@, self.span, self.replacement@);
        }
        if self.span.start > self.span.end || self.span.end > tokens.len() {
            return false;
        }
        tokens_equal(
            slice_subrange(tokens, self.span.start, self.span.end),
            self.replacement.as_slice(),
        )
    }

    /// Apply the patch to a token buffer, returning the patched copy.
    ///
    /// Same-length patches keep indices stable; if the replacement length
    /// differs the buffer is spliced.
    pub fn apply(&self, tokens: &[TokenId]) -> (r: Vec<TokenId>)
        requires
            self.span.within(tokens@.len()),
        ensures
            r@ == spliced(tokens@, self.span, self.replacement@),
    {
        let mut out: Vec<TokenId> = slice_to_vec(slice_subrange(tokens, 0, self.span.start));
        let mut middle: Vec<TokenId> = slice_to_vec(self.replacement.as_slice());
        let mut rest: Vec<TokenId> = slice_to_vec(
            slice_subrange(tokens, self.span.end, tokens.len()),
        );
        out.append(&mut middle);
        out.append(&mut rest);
        out
    }
}

/// Whether two token buffers hold the same tokens.
pub fn tokens_equal(a: &[TokenId], b: &[TokenId]) -> (r: bool)
    ensures
        r == (a@ == b@),
{
    if a.len() != b.len() {
        return false;
    }
    let mut i: usize = 0;
    while i < a.len()
        invariant
            i <= a.len(),
            a.len() == b.len(),
            forall|j: int| 0 <= j < i ==> a@[j] == b@[j],
        decreases a.len() - i,
    {
        if a[i] != b[i] {
            return false;
        }
        i = i + 1;
    }
    assert(a@ =~= b@);
    true
}

/// A same-length patch keeps the buffer's length and every token outside its
/// span, and puts the replacement inside.
pub proof fn same_length_patch_keeps_positions(
    tokens: Seq<TokenId>,
    span: Span,
    replacement: Seq<TokenId>,
)
    requires
        span.within(tokens.len()),
        replacement.len() == span.end - span.start,
    ensures
        spliced(tokens, span, replacement).len() == tokens.len(),
        forall|p: int|
            0 <= p < tokens.len() && !span.holds(p) ==> #[trigger] spliced(
                tokens,
                span,
                replacement,
            )[p] == tokens[p],
        forall|p: int|
            span.holds(p) ==> #[trigger] spliced(tokens, span, replacement)[p] == replacement[p
                - span.start],
{
}

/// A patch changes the buffer exactly when it is not a no-op on it.
pub proof fn noop_iff_unchanged(tokens: Seq<TokenId>, span: Span, replacement: Seq<TokenId>)
    requires
        span.within(tokens.len()),
    ensures
        tokens.subrange(span.start as int, span.end as int) == replacement <==> spliced(
            tokens,
            span,
            replacement,
        ) == tokens,
{
    let held = tokens.subrange(span.start as int, span.end as int);
    let out = spliced(tokens, span, replacement);
    if held == replacement {
        assert(out =~= tokens);
    }
    if out == tokens {
        assert(held =~= replacement);
    }
}

/// Putting the replaced tokens back undoes a patch.
pub proof fn patch_is_undone_by_the_old_tokens(
    tokens: Seq<TokenId>,
    span: Span,
    replacement: Seq<TokenId>,
)
    requires
        span.within(tokens.len()),
        span.start + replacement.len() <= usize::MAX,
    ensures
        spliced(
            spliced(tokens, span, replacement),
            Span { start: span.start, end: (span.start + replacement.len()) as usize },
            tokens.subrange(span.start as int, span.end as int),
        ) == tokens,
{
}

/// A patch of any length puts its replacement where the span was: what stood
/// before the span stays where it is, the replacement follows, and what stood
/// after the span follows that, in order.
pub proof fn splicing_moves_only_what_follows(
    tokens: Seq<TokenId>,
    span: Span,
    replacement: Seq<TokenId>,
)
    requires
        span.start <= span.end <= tokens.len(),
    ensures
        ({
            let out = spliced(tokens, span, replacement);
            let r = replacement.len();
            &&& out.len() == tokens.len() - (span.end - span.start) + r
            &&& forall|p: int| 0 <= p < span.start ==> #[trigger] out[p] == tokens[p]
            &&& forall|p: int|
                span.start <= p < span.start + r ==> #[trigger] out[p] == replacement[p
                    - span.start]
            &&& forall|p: int|
                span.start + r <= p < out.len() ==> #[trigger] out[p] == tokens[p - r + (span.end
                    - span.start)]
        }),
{
}

/// A span holds the replacement exactly when the two are equally long and agree
/// position by position.
pub proof fn noop_compares_each_position(
    tokens: Seq<TokenId>,
    span: Span,
    replacement: Seq<TokenId>,
)
    ensures
        span.within(tokens.len()) && tokens.subrange(span.start as int, span.end as int)
            == replacement <==> {
            &&& span.start <= span.end <= tokens.len()
            &&& replacement.len() == span.end - span.start
            &&& forall|p: int|
                span.start <= p < span.end ==> #[trigger] tokens[p] == replacement[p - span.start]
        },
{
    if span.start <= span.end <= tokens.len() {
        let held = tokens.subrange(span.start as int, span.end as int);
        if held == replacement {
            assert forall|p: int| span.start <= p < span.end implies #[trigger] tokens[p]
                == replacement[p - span.start] by {
                assert(held[p - span.start] == tokens[p]);
            }
        }
        if replacement.len() == span.end - span.start && forall|p: int|
            span.start <= p < span.end ==> #[trigger] tokens[p] == replacement[p - span.start] {
            assert forall|k: int| 0 <= k < held.len() implies held[k] == replacement[k] by {
                assert(tokens[span.start + k] == replacement[span.start + k - span.start]);
            }
            assert(held =~= replacement);
        }
    }
}

} // verus!

//! Half-open token ranges, and the merging of flagged positions into them.

use crate::sorting;
use crate::sorting::{merge_sort, Ordered};
use std::ops::Range;
use vstd::prelude::*;

verus! {

/// A half-open token range `[start, end)` within a sequence.
#[derive(Debug, Clone, Copy, PartialEq, Eq, Hash, Structural)]
pub struct Span {
    pub start: usize,
    pub end: usize,
}

impl Span {
    /// The range does not end before it starts.
    pub open spec fn wf(self) -> bool {
        self.start <= self.end
    }

    /// Whether the range holds position `pos`.
    pub open spec fn holds(self, pos: int) -> bool {
        self.start <= pos < self.end
    }

    /// The range lies within a sequence of `len` tokens.
    pub open spec fn within(self, len: nat) -> bool {
        self.start <= self.end <= len
    }

    pub fn new(start: usize, end: usize) -> (r: Span)
        requires
            start <= end,
        ensures
            r == (Span { start, end }),
    {
        Span { start, end }
    }

    pub fn len(&self) -> (r: usize)
        requires
            self.wf(),
        ensures
            r == self.end - self.start,
    {
        self.end - self.start
    }

    pub fn is_empty(&self) -> (r: bool)
        ensures
            r == (self.start == self.end),
    {
        self.start == self.end
    }

    pub fn contains(&self, pos: usize) -> (r: bool)
        ensures
            r == self.holds(pos as int),
            r == (self.start <= pos < self.end),
    {
        pos >= self.start && pos < self.end
    }

    pub fn overlaps(&self, other: &Span) -> (r: bool)
        ensures
            r == (self.start < other.end && other.start < self.end),
    {
        self.start < other.end && other.start < self.end
    }

    /// Positions covered by this span, in ascending order.
    pub fn positions(&self) -> (r: Range<usize>)
        ensures
            r == (Range { start: self.start, end: self.end }),
    {
        self.start..self.end
    }
}

/// Two spans that hold something overlap exactly when some position lies in both.
pub proof fn overlap_is_a_shared_position(a: Span, b: Span)
    requires
        a.start < a.end,
        b.start < b.end,
    ensures
        (a.start < b.end && b.start < a.end) <==> exists|p: int| a.holds(p) && b.holds(p),
{
    if a.start < b.end && b.start < a.end {
        let p: int = if a.start <= b.start {
            b.start as int
        } else {
            a.start as int
        };
        assert(a.holds(p) && b.holds(p));
    }
}

/// Whether some span holds position `pos`.
pub open spec fn covers(spans: Seq<Span>, pos: int) -> bool {
    exists|i: int| 0 <= i < spans.len() && (#[trigger] spans[i]).holds(pos)
}

/// `spans` is the merge of the flagged `positions`: it covers exactly those
/// positions, in ascending order, with non-empty spans of at most
/// `max_span_len` tokens that share no position, and two spans touch only where
/// the first of them is full.
pub open spec fn is_merge_of(
    spans: Seq<Span>,
    positions: Seq<usize>,
    max_span_len: usize,
) -> bool {
    &&& forall|i: int|
        0 <= i < spans.len() ==> (#[trigger] spans[i]).start < spans[i].end && spans[i].end
            - spans[i].start <= max_span_len
    &&& forall|i: int, j: int|
        0 <= i < j < spans.len() ==> (#[trigger] spans[i]).end <= (#[trigger] spans[j]).start
    &&& forall|i: int, j: int|
        0 <= i < j < spans.len() && (#[trigger] spans[i]).end == (#[trigger] spans[j]).start
            ==> spans[i].end - spans[i].start == max_span_len
    &&& forall|p: usize| #[trigger] positions.contains(p) <==> covers(spans, p as int)
}

/// Flagging a covered position again changes nothing.
proof fn lemma_merge_repeat(spans: Seq<Span>, positions: Seq<usize>, max: usize, p: usize)
    requires
        is_merge_of(spans, positions, max),
        positions.contains(p),
    ensures
        is_merge_of(spans, positions.push(p), max),
{
    assert forall|q: usize| #[trigger] positions.push(p).contains(q) <==> covers(
        spans,
        q as int,
    ) by {
        lemma_push_contains(positions, p, q);
    }
}

proof fn lemma_push_contains(s: Seq<usize>, p: usize, q: usize)
    ensures
        s.push(p).contains(q) <==> s.contains(q) || q == p,
{
    if s.contains(q) {
        let i = choose|i: int| 0 <= i < s.len() && s[i] == q;
        assert(s.push(p)[i] == q);
    }
    if q == p {
        assert(s.push(p)[s.len() as int] == q);
    }
}

/// Flagging the position right after a last span that still has room grows it.
proof fn lemma_merge_grow(spans: Seq<Span>, positions: Seq<usize>, max: usize, p: usize)
    requires
        is_merge_of(spans, positions, max),
        spans.len() > 0,
        spans.last().end == p,
        p - spans.last().start < max,
        p < usize::MAX,
    ensures
        is_merge_of(
            spans.drop_last().push(Span { start: spans.last().start, end: (p + 1) as usize }),
            positions.push(p),
            max,
        ),
{
    let grown = spans.drop_last().push(
        Span { start: spans.last().start, end: (p + 1) as usize },
    );
    let last = spans.len() - 1;
    assert forall|q: usize| #[trigger] positions.push(p).contains(q) <==> covers(
        grown,
        q as int,
    ) by {
        lemma_push_contains(positions, p, q);
        if covers(spans, q as int) {
            let i = choose|i: int| 0 <= i < spans.len() && (#[trigger] spans[i]).holds(q as int);
            assert(grown[i].holds(q as int));
        }
        if q == p {
            assert(grown[last].holds(q as int));
        }
    }
}

/// Flagging a later position that cannot join the last span opens a new one.
proof fn lemma_merge_open(spans: Seq<Span>, positions: Seq<usize>, max: usize, p: usize)
    requires
        is_merge_of(spans, positions, max),
        spans.len() > 0 ==> spans.last().end <= p,
        spans.len() > 0 && spans.last().end == p ==> p - spans.last().start == max,
        0 < max,
        p < usize::MAX,
    ensures
        is_merge_of(
            spans.push(Span { start: p, end: (p + 1) as usize }),
            positions.push(p),
            max,
        ),
{
    let opened = spans.push(Span { start: p, end: (p + 1) as usize });
    assert forall|q: usize| #[trigger] positions.push(p).contains(q) <==> covers(
        opened,
        q as int,
    ) by {
        lemma_push_contains(positions, p, q);
        if covers(spans, q as int) {
            let i = choose|i: int| 0 <= i < spans.len() && (#[trigger] spans[i]).holds(q as int);
            assert(opened[i].holds(q as int));
        }
        if q == p {
            assert(opened[spans.len() as int].holds(q as int));
        }
    }
}

/// Merge adjacent/overlapping flagged positions into spans, capping span
/// length. Used by the edit loop to turn per-token Router scores into
/// editable spans.
pub fn merge_positions_into_spans(positions: Vec<usize>, max_span_len: usize) -> (r: Vec<Span>)
    requires
        max_span_len > 0,
        forall|i: int| 0 <= i < positions.len() ==> #[trigger] positions[i] < usize::MAX,
    ensures
        is_merge_of(r@, positions@, max_span_len),
        forall|i: int|
            0 <= i < r@.len() ==> (#[trigger] r@[i]).start < r@[i].end <= r@[i].start
                + max_span_len,
        forall|i: int, p: usize|
            0 <= i < r@.len() && (#[trigger] r@[i]).start <= p < r@[i].end
                ==> #[trigger] positions@.contains(p),
{
    broadcast use vstd::seq_lib::group_to_multiset_ensures;

    let ghost flagged = positions@;
    let ordered: Vec<usize> = merge_sort(positions);
    proof {
        assert forall|i: int| 0 <= i < ordered.len() implies #[trigger] ordered[i]
            < usize::MAX by {
            assert(flagged.to_multiset().count(ordered[i]) > 0);
        }
        assert forall|p: usize| ordered@.contains(p) <==> #[trigger] flagged.contains(p) by {
            assert(ordered@.contains(p) <==> ordered@.to_multiset().count(p) > 0);
        }
    }
    let mut spans: Vec<Span> = Vec::new();
    if ordered.len() == 0 {
        return spans;
    }
    let first: usize = ordered[0];
    let mut start: usize = first;
    let mut end: usize = first + 1;
    let mut i: usize = 1;
    proof {
        let none = Seq::<Span>::empty();
        lemma_merge_open(none, Seq::<usize>::empty(), max_span_len, first);
        assert(ordered@.take(1) =~= Seq::<usize>::empty().push(first));
    }
    while i < ordered.len()
        invariant
            1 <= i <= ordered.len(),
            max_span_len > 0,
            sorting::sorted(ordered@),
            forall|k: int| 0 <= k < ordered.len() ==> #[trigger] ordered[k] < usize::MAX,
            is_merge_of(
                spans@.push(Span { start, end }),
                ordered@.take(i as int),
                max_span_len,
            ),
            ordered[i - 1] + 1 == end,
        decreases ordered.len() - i,
    {
        let p: usize = ordered[i];
        let ghost so_far = spans@.push(Span { start, end });
        let ghost seen = ordered@.take(i as int);
        proof {
            assert(ordered@.take(i + 1) =~= seen.push(p));
            assert(so_far.drop_last() =~= spans@);
        }
        if p < end {
            proof {
                assert(seen[i - 1] == p);
                lemma_merge_repeat(so_far, seen, max_span_len, p);
            }
        } else if p == end && end - start < max_span_len {
            proof {
                lemma_merge_grow(so_far, seen, max_span_len, p);
            }
            end = end + 1;
        } else {
            proof {
                assert(so_far[spans@.len() as int].end - so_far[spans@.len() as int].start
                    <= max_span_len);
                lemma_merge_open(so_far, seen, max_span_len, p);
            }
            spans.push(Span::new(start, end));
            start = p;
            end = p + 1;
        }
        i = i + 1;
    }
    proof {
        assert(ordered@.take(i as int) =~= ordered@);
        let all = spans@.push(Span { start, end });
        assert(all[spans@.len() as int].start < all[spans@.len() as int].end);
    }
    spans.push(Span::new(start, end));
    spans
}

/// Up to index `k` two merges of the same positions agree.
proof fn lemma_merge_prefix(
    a: Seq<Span>,
    b: Seq<Span>,
    positions: Seq<usize>,
    max_span_len: usize,
    k: int,
)
    requires
        is_merge_of(a, positions, max_span_len),
        is_merge_of(b, positions, max_span_len),
        0 <= k <= a.len(),
        k <= b.len(),
    ensures
        forall|i: int| 0 <= i < k ==> a[i] == b[i],
    decreases k,
{
    if k > 0 {
        lemma_merge_prefix(a, b, positions, max_span_len, k - 1);
        lemma_merge_start(a, b, positions, max_span_len, k - 1);
        lemma_merge_start(b, a, positions, max_span_len, k - 1);
        lemma_merge_end(a, b, positions, max_span_len, k - 1);
        lemma_merge_end(b, a, positions, max_span_len, k - 1);
    }
}

/// After an agreeing prefix, the next span of `b` starts no later than that of `a`.
proof fn lemma_merge_start(
    a: Seq<Span>,
    b: Seq<Span>,
    positions: Seq<usize>,
    max_span_len: usize,
    k: int,
)
    requires
        is_merge_of(a, positions, max_span_len),
        is_merge_of(b, positions, max_span_len),
        0 <= k < a.len(),
        k < b.len(),
        forall|i: int| 0 <= i < k ==> a[i] == b[i],
    ensures
        b[k].start <= a[k].start,
{
    let p = a[k].start;
    assert(positions.contains(p));
}

/// After an agreeing prefix and start, the next span of `b` ends no later than
/// that of `a`.
proof fn lemma_merge_end(
    a: Seq<Span>,
    b: Seq<Span>,
    positions: Seq<usize>,
    max_span_len: usize,
    k: int,
)
    requires
        is_merge_of(a, positions, max_span_len),
        is_merge_of(b, positions, max_span_len),
        0 <= k < a.len(),
        k < b.len(),
        a[k].start == b[k].start,
        forall|i: int| 0 <= i < k ==> a[i] == b[i],
    ensures
        b[k].end <= a[k].end,
{
    if a[k].end < b[k].end {
        let p = a[k].end;
        assert(positions.contains(p));
        let j = choose|j: int| 0 <= j < a.len() && (#[trigger] a[j]).holds(p as int);
        if j > k {
            assert(a[k].end <= a[j].start);
            assert(a[k].end - a[k].start == max_span_len);
        }
    }
}

/// The merge of given positions is unique: any two sequences of spans that are
/// the merge of the same positions under the same cap are equal.
pub proof fn merge_is_unique(
    a: Seq<Span>,
    b: Seq<Span>,
    positions: Seq<usize>,
    max_span_len: usize,
)
    requires
        is_merge_of(a, positions, max_span_len),
        is_merge_of(b, positions, max_span_len),
    ensures
        a == b,
{
    if a.len() < b.len() {
        lemma_merge_no_longer(a, b, positions, max_span_len);
    } else if b.len() < a.len() {
        lemma_merge_no_longer(b, a, positions, max_span_len);
    } else {
        lemma_merge_prefix(a, b, positions, max_span_len, a.len() as int);
    }
}

proof fn lemma_merge_no_longer(
    a: Seq<Span>,
    b: Seq<Span>,
    positions: Seq<usize>,
    max_span_len: usize,
)
    requires
        is_merge_of(a, positions, max_span_len),
        is_merge_of(b, positions, max_span_len),
    ensures
        b.len() <= a.len(),
{
    if a.len() < b.len() {
        let k = a.len() as int;
        lemma_merge_prefix(a, b, positions, max_span_len, k);
        let p = b[k].start;
        assert(positions.contains(p));
    }
}

/// A merge takes in the flagged positions and no others, each in one span. Its
/// spans ascend, none is empty and none is longer than the cap; and it splits no
/// run of flagged positions without need: where one span ends at the start of
/// another, it holds as many positions as the cap allows. These properties
/// together single the merge out.
pub proof fn a_merge_is_what_its_spans_show(
    spans: Seq<Span>,
    positions: Seq<usize>,
    max_span_len: usize,
)
    ensures
        is_merge_of(spans, positions, max_span_len) <==> {
            &&& forall|i: int|
                0 <= i < spans.len() ==> (#[trigger] spans[i]).start < spans[i].end
                    <= spans[i].start + max_span_len
            &&& forall|i: int, j: int|
                0 <= i < j < spans.len() ==> (#[trigger] spans[i]).end <= (
                #[trigger] spans[j]).start && (spans[i].end == spans[j].start ==> spans[i].end
                    == spans[i].start + max_span_len)
            &&& forall|p: usize|
                #[trigger] positions.contains(p) <==> exists|i: int|
                    0 <= i < spans.len() && (#[trigger] spans[i]).start <= p < spans[i].end
        },
{
    assert forall|p: usize| covers(spans, p as int) <==> exists|i: int|
        0 <= i < spans.len() && (#[trigger] spans[i]).start <= p < spans[i].end by {
        if covers(spans, p as int) {
            let i = choose|i: int| 0 <= i < spans.len() && (#[trigger] spans[i]).holds(p as int);
            assert(spans[i].start <= p < spans[i].end);
        }
        if exists|i: int| 0 <= i < spans.len() && (#[trigger] spans[i]).start <= p < spans[i].end {
            let i = choose|i: int|
                0 <= i < spans.len() && (#[trigger] spans[i]).start <= p < spans[i].end;
            assert(spans[i].holds(p as int));
        }
    }
}

/// A span holds the positions from its start up to, but not including, its end;
/// it lies within a sequence when it is not reversed and ends in it.
pub proof fn spans_are_half_open(span: Span, pos: int, len: nat)
    ensures
        span.holds(pos) <==> span.start <= pos && pos < span.end,
        span.wf() <==> span.start <= span.end,
        span.within(len) <==> span.start <= span.end && span.end <= len,
        span.start < span.end <==> exists|p: int| span.holds(p),
{
    if span.start < span.end {
        assert(span.holds(span.start as int));
    }
}

} // verus!
